//! The discrete half of automatic layered (Sugiyama-style) layout.
//!
//! 1. break cycles (DFS, back edges reversed),
//! 2. assign ranks by longest path,
//! 3. order nodes within ranks with a few barycenter sweeps.
//!
//! Nodes are indices `0..n` and edges are `(source, target)` pairs of them;
//! the coordinates the caller derives from the ranks and orders are not this
//! module's business.

use vstd::prelude::*;
use crate::types::{Side, spec_opposite, spec_is_horizontal};
use vstd::set_lib::{lemma_int_range, lemma_len_subset, set_int_range};

verus! {

/// Direction of rank progression.
#[derive(Clone, Copy, PartialEq, Eq, Structural, Debug, Default)]
pub enum LayoutDirection {
    /// Ranks flow top to bottom.
    #[default]
    TopToBottom,
    /// Ranks flow left to right.
    LeftToRight,
    BottomToTop,
    RightToLeft,
}

/// `(target_side, source_side)` for a layout direction.
pub open spec fn spec_handle_sides(direction: LayoutDirection) -> (Side, Side) {
    match direction {
        LayoutDirection::TopToBottom => (Side::Top, Side::Bottom),
        LayoutDirection::BottomToTop => (Side::Bottom, Side::Top),
        LayoutDirection::LeftToRight => (Side::Left, Side::Right),
        LayoutDirection::RightToLeft => (Side::Right, Side::Left),
    }
}

/// Whether ranks progress along the x axis.
pub open spec fn spec_is_horizontal_direction(direction: LayoutDirection) -> bool {
    direction == LayoutDirection::LeftToRight || direction == LayoutDirection::RightToLeft
}

impl LayoutDirection {
    /// Handle sides implied by this direction: `(target_side, source_side)`.
    pub fn handle_sides(&self) -> (r: (Side, Side))
        ensures
            r == spec_handle_sides(*self),
    {
        match self {
            LayoutDirection::TopToBottom => (Side::Top, Side::Bottom),
            LayoutDirection::BottomToTop => (Side::Bottom, Side::Top),
            LayoutDirection::LeftToRight => (Side::Left, Side::Right),
            LayoutDirection::RightToLeft => (Side::Right, Side::Left),
        }
    }

    /// Whether ranks progress along the x axis.
    pub fn is_horizontal(&self) -> (r: bool)
        ensures
            r == spec_is_horizontal_direction(*self),
    {
        match self {
            LayoutDirection::LeftToRight | LayoutDirection::RightToLeft => true,
            _ => false,
        }
    }
}

/// Handles point along the layout: every edge leaves a node on the side
/// facing the next rank and enters the next node on the side facing back,
/// and a horizontal layout puts handles on horizontal sides.
pub proof fn handle_sides_face_each_other(direction: LayoutDirection)
    ensures
        spec_handle_sides(direction).0 == spec_opposite(spec_handle_sides(direction).1),
        spec_is_horizontal(spec_handle_sides(direction).0) == spec_is_horizontal_direction(direction),
        spec_is_horizontal(spec_handle_sides(direction).1) == spec_is_horizontal_direction(direction),
{
}

// ---------------------------------------------------------------------------
// Graphs over node indices
// ---------------------------------------------------------------------------

/// Every arc joins two of the nodes `0..n`.
pub open spec fn arcs_within(n: nat, arcs: Seq<(usize, usize)>) -> bool {
    forall|k: int| 0 <= k < arcs.len() ==> (#[trigger] arcs[k]).0 < n && arcs[k].1 < n
}

/// No arc joins a node to itself.
pub open spec fn loop_free(arcs: Seq<(usize, usize)>) -> bool {
    forall|k: int| 0 <= k < arcs.len() ==> (#[trigger] arcs[k]).0 != arcs[k].1
}

/// `f` strictly decreases along every arc: a topological numbering.
pub open spec fn descends(arcs: Seq<(usize, usize)>, f: Seq<int>) -> bool {
    forall|k: int|
        0 <= k < arcs.len() ==> f[(#[trigger] arcs[k]).1 as int] < f[arcs[k].0 as int]
}

/// The arcs over nodes `0..n` contain no directed cycle.
pub open spec fn acyclic(n: nat, arcs: Seq<(usize, usize)>) -> bool {
    exists|f: Seq<int>| f.len() == n && #[trigger] descends(arcs, f)
}

/// The arc pointing the other way.
pub open spec fn flipped(arc: (usize, usize)) -> (usize, usize) {
    (arc.1, arc.0)
}

/// Some arc runs from `a` to `b`.
pub open spec fn has_arc(arcs: Seq<(usize, usize)>, a: int, b: int) -> bool {
    exists|k: int| 0 <= k < arcs.len() && (#[trigger] arcs[k]).0 == a && arcs[k].1 == b
}

/// Step `i` of the walk `p`, from `p[i - 1]` to `p[i]`, follows an arc.
pub open spec fn walk_step(arcs: Seq<(usize, usize)>, p: Seq<int>, i: int) -> bool {
    has_arc(arcs, p[i - 1], p[i])
}

/// `p` is a walk along arcs from `a` to `b`.
pub open spec fn walk_between(arcs: Seq<(usize, usize)>, p: Seq<int>, a: int, b: int) -> bool {
    &&& p.len() > 0
    &&& p[0] == a
    &&& p[p.len() - 1] == b
    &&& forall|i: int| 0 < i < p.len() ==> #[trigger] walk_step(arcs, p, i)
}

/// Following arcs leads from `a` to `b`.
pub open spec fn reaches(arcs: Seq<(usize, usize)>, a: int, b: int) -> bool {
    exists|p: Seq<int>| #[trigger] walk_between(arcs, p, a, b)
}

/// Arc `k` closes a cycle: its head leads back to its tail.
pub open spec fn closes_cycle(arcs: Seq<(usize, usize)>, k: int) -> bool {
    reaches(arcs, arcs[k].1 as int, arcs[k].0 as int)
}

/// How many entries of `s` are zero.
pub open spec fn count_zeros(s: Seq<u8>) -> nat
    decreases s.len(),
{
    if s.len() == 0 {
        0
    } else {
        count_zeros(s.drop_last()) + if s.last() == 0 { 1nat } else { 0nat }
    }
}

/// Marking one entry changes the count of zeros by what it took away and
/// what it put in.
pub proof fn lemma_count_zeros_update(s: Seq<u8>, i: int, x: u8)
    requires
        0 <= i < s.len(),
    ensures
        count_zeros(s.update(i, x)) == count_zeros(s) - (if s[i] == 0 { 1int } else { 0int })
            + (if x == 0 { 1int } else { 0int }),
    decreases s.len(),
{
    let u = s.update(i, x);
    if i == s.len() - 1 {
        assert(u.drop_last() =~= s.drop_last());
    } else {
        lemma_count_zeros_update(s.drop_last(), i, x);
        assert(u.drop_last() =~= s.drop_last().update(i, x));
    }
}

/// Orientation of an arc after a possible reversal.
pub open spec fn oriented(arc: (usize, usize), reversed: bool) -> (usize, usize) {
    if reversed {
        flipped(arc)
    } else {
        arc
    }
}

/// The out-lists: `out[v]` holds, in increasing order, the indices of the arcs
/// leaving `v` among the first `upto` arcs, and `slot[k]` is where arc `k`
/// sits in its source's list.
spec fn out_lists(
    arcs: Seq<(usize, usize)>,
    out: Seq<Vec<usize>>,
    slot: Seq<int>,
    upto: int,
) -> bool {
    &&& slot.len() == upto
    &&& forall|v: int, j: int|
        #![trigger out[v]@[j]]
        0 <= v < out.len() && 0 <= j < out[v]@.len() ==> out[v]@[j] < upto
            && arcs[out[v]@[j] as int].0 == v && slot[out[v]@[j] as int] == j
    &&& forall|v: int, i: int, j: int|
        #![trigger out[v]@[i], out[v]@[j]]
        0 <= v < out.len() && 0 <= i < j < out[v]@.len() ==> out[v]@[i] < out[v]@[j]
    &&& forall|k: int|
        #![trigger slot[k]]
        0 <= k < upto ==> 0 <= slot[k] < out[arcs[k].0 as int]@.len()
            && out[arcs[k].0 as int]@[slot[k]] == k
}

/// The indices of the arcs among the first `m` that leave `v`, in arc order.
pub open spec fn arcs_from(arcs: Seq<(usize, usize)>, v: int, m: int) -> Seq<usize>
    decreases m,
{
    if m <= 0 {
        Seq::empty()
    } else {
        arcs_from(arcs, v, m - 1) + if arcs[m - 1].0 == v {
            seq![(m - 1) as usize]
        } else {
            Seq::empty()
        }
    }
}

/// The arcs a depth-first search turns round, run on from a given point.
/// `state` marks each node unvisited (0), on the stack (1) or finished (2);
/// the stack holds each node with the position of the next out-arc it will
/// examine in `out`; `rev` marks the arcs found so far to lead back to a node
/// still on the stack; and roots from `root` on are yet to be tried, in
/// index order.
pub open spec fn dfs_back(
    out: Seq<Seq<usize>>,
    arcs: Seq<(usize, usize)>,
    state: Seq<u8>,
    stack: Seq<(usize, usize)>,
    rev: Seq<bool>,
    root: int,
) -> Seq<bool>
    decreases
        count_zeros(state),
        if root <= state.len() { state.len() - root } else { 0 },
        stack.len(),
        if stack.len() > 0 { out[stack.last().0 as int].len() - stack.last().1 } else { 0 },
{
    if stack.len() > 0 {
        let top = stack.len() - 1;
        let v = stack[top].0 as int;
        let c = stack[top].1 as int;
        if c < out[v].len() && c < usize::MAX {
            let k = out[v][c] as int;
            let t = arcs[k].1 as int;
            let stack1 = stack.update(top, (stack[top].0, (c + 1) as usize));
            if 0 <= t < state.len() && state[t] == 0 {
                proof {
                    lemma_count_zeros_update(state, t, 1);
                }
                dfs_back(out, arcs, state.update(t, 1), stack1.push((arcs[k].1, 0usize)), rev, root)
            } else if 0 <= t < state.len() && state[t] == 1 {
                dfs_back(out, arcs, state, stack1, rev.update(k, true), root)
            } else {
                dfs_back(out, arcs, state, stack1, rev, root)
            }
        } else if 0 <= v < state.len() {
            proof {
                lemma_count_zeros_update(state, v, 2);
            }
            dfs_back(out, arcs, state.update(v, 2), stack.drop_last(), rev, root)
        } else {
            dfs_back(out, arcs, state, stack.drop_last(), rev, root)
        }
    } else if 0 <= root < state.len() {
        if state[root] == 0 {
            proof {
                lemma_count_zeros_update(state, root, 1);
            }
            dfs_back(out, arcs, state.update(root, 1), seq![(root as usize, 0usize)], rev, root + 1)
        } else {
            dfs_back(out, arcs, state, stack, rev, root + 1)
        }
    } else {
        rev
    }
}

/// The back edges of the depth-first search over nodes `0..n` that tries
/// roots in index order and follows each node's out-arcs in arc order: an
/// arc is marked when it leads to a node still on the search stack.
pub open spec fn dfs_back_edges(n: nat, arcs: Seq<(usize, usize)>) -> Seq<bool> {
    dfs_back(
        Seq::new(n, |v: int| arcs_from(arcs, v, arcs.len() as int)),
        arcs,
        Seq::new(n, |v: int| 0u8),
        Seq::empty(),
        Seq::new(arcs.len(), |k: int| false),
        0,
    )
}

/// Builds the out-lists of `arcs` over nodes `0..n`.
fn out_lists_of(n: usize, arcs: &Vec<(usize, usize)>) -> (r: (Vec<Vec<usize>>, Ghost<Seq<int>>))
    requires
        arcs_within(n as nat, arcs@),
    ensures
        r.0@.len() == n,
        out_lists(arcs@, r.0@, r.1@, arcs@.len() as int),
        forall|v: int| 0 <= v < n ==> (#[trigger] r.0@[v])@ == arcs_from(arcs@, v, arcs@.len() as int),
{
    let mut out: Vec<Vec<usize>> = Vec::new();
    let mut v: usize = 0;
    while v < n
        invariant
            v <= n,
            out@.len() == v,
            forall|i: int| 0 <= i < v ==> (#[trigger] out@[i])@.len() == 0,
        decreases n - v,
    {
        out.push(Vec::new());
        v = v + 1;
    }
    let ghost mut slot: Seq<int> = Seq::empty();
    let mut k: usize = 0;
    while k < arcs.len()
        invariant
            k <= arcs@.len(),
            out@.len() == n,
            arcs_within(n as nat, arcs@),
            out_lists(arcs@, out@, slot, k as int),
            forall|v: int| 0 <= v < n ==> (#[trigger] out@[v])@ == arcs_from(arcs@, v, k as int),
        decreases arcs@.len() - k,
    {
        let s = arcs[k].0;
        proof {
            assert(arcs@[k as int].0 < n);
        }
        let ghost old_out = out@;
        let ghost at = out@[s as int]@.len() as int;
        out[s].push(k);
        proof {
            assert forall|v: int| 0 <= v < n implies (#[trigger] out@[v])@ == arcs_from(arcs@, v, k + 1) by {
                if v == s {
                    assert(out@[v]@ =~= old_out[v]@.push(k));
                } else {
                    assert(out@[v] == old_out[v]);
                }
            }
            slot = slot.push(at);
            assert forall|v: int, j: int|
                #![trigger out@[v]@[j]]
                0 <= v < out@.len() && 0 <= j < out@[v]@.len() implies out@[v]@[j] < k + 1
                && arcs@[out@[v]@[j] as int].0 == v && slot[out@[v]@[j] as int] == j by {
                if v != s || j < at {
                    assert(out@[v]@[j] == old_out[v]@[j]);
                }
            }
            assert forall|v: int, i: int, j: int|
                #![trigger out@[v]@[i], out@[v]@[j]]
                0 <= v < out@.len() && 0 <= i < j < out@[v]@.len() implies out@[v]@[i]
                < out@[v]@[j] by {
                assert(out@[v]@[i] == old_out[v]@[i]);
                if v != s || j < at {
                    assert(out@[v]@[j] == old_out[v]@[j]);
                }
            }
            assert forall|kk: int|
                #![trigger slot[kk]]
                0 <= kk < k + 1 implies 0 <= slot[kk] < out@[arcs@[kk].0 as int]@.len()
                && out@[arcs@[kk].0 as int]@[slot[kk]] == kk by {
                if kk < k {
                    let vv = arcs@[kk].0 as int;
                    assert(old_out[vv]@[slot[kk]] == kk);
                }
            }
        }
        k = k + 1;
    }
    (out, Ghost(slot))
}


/// An examined arc, in the orientation it is going to have, already points
/// from a node that finishes later to one that finishes earlier — or will,
/// because its head sits above its tail on the DFS stack.
spec fn examined_ok(
    orig: Seq<(usize, usize)>,
    out: Seq<Vec<usize>>,
    state: Seq<u8>,
    pos: Seq<int>,
    fin: Seq<int>,
    rev: Seq<bool>,
    v: int,
    j: int,
) -> bool {
    let k = out[v]@[j] as int;
    let arc = oriented(orig[k], rev[k]);
    let a = arc.0 as int;
    let b = arc.1 as int;
    (state[b] == 2 && (state[a] == 2 ==> fin[b] < fin[a])) || (state[a] == 1 && state[b] == 1
        && pos[a] < pos[b])
}

/// Each node on the DFS stack was entered along an arc from the one below.
spec fn stack_link(orig: Seq<(usize, usize)>, stack: Seq<(usize, usize)>, i: int) -> bool {
    has_arc(orig, stack[i - 1].0 as int, stack[i].0 as int)
}

/// The stack from slot `lo` up to slot `hi` is a walk, so a back edge from
/// the top to a node on the stack closes a cycle.
proof fn lemma_stack_walk(orig: Seq<(usize, usize)>, stack: Seq<(usize, usize)>, lo: int, hi: int)
    requires
        0 <= lo <= hi < stack.len(),
        forall|i: int| 0 < i < stack.len() ==> #[trigger] stack_link(orig, stack, i),
    ensures
        reaches(orig, stack[lo].0 as int, stack[hi].0 as int),
{
    let p = Seq::new((hi - lo + 1) as nat, |j: int| stack[lo + j].0 as int);
    assert forall|i: int| 0 < i < p.len() implies #[trigger] walk_step(orig, p, i) by {
        assert(stack_link(orig, stack, lo + i));
        assert(p[i - 1] == stack[lo + i - 1].0 as int);
        assert(p[i] == stack[lo + i].0 as int);
    }
    assert(walk_between(orig, p, stack[lo].0 as int, stack[hi].0 as int));
}

spec fn dfs_inv(
    n: int,
    orig: Seq<(usize, usize)>,
    out: Seq<Vec<usize>>,
    slot: Seq<int>,
    state: Seq<u8>,
    stack: Seq<(usize, usize)>,
    pos: Seq<int>,
    cur: Seq<int>,
    fin: Seq<int>,
    timer: int,
    rev: Seq<bool>,
    back: Seq<usize>,
    f0: Seq<int>,
) -> bool {
    &&& 0 <= n <= usize::MAX
    &&& orig.len() <= usize::MAX
    &&& timer >= 0
    &&& arcs_within(n as nat, orig)
    &&& loop_free(orig)
    &&& out.len() == n
    &&& out_lists(orig, out, slot, orig.len() as int)
    &&& state.len() == n && pos.len() == n && cur.len() == n && fin.len() == n
    &&& rev.len() == orig.len()
    &&& forall|v: int| 0 <= v < n ==> #[trigger] state[v] <= 2
    &&& forall|i: int|
        #![trigger stack[i]]
        0 <= i < stack.len() ==> stack[i].0 < n && state[stack[i].0 as int] == 1 && pos[stack[i].0 as int]
            == i && cur[stack[i].0 as int] == stack[i].1
    &&& forall|v: int|
        #![trigger pos[v]]
        0 <= v < n && state[v] == 1 ==> 0 <= pos[v] < stack.len() && stack[pos[v]].0 == v
    &&& forall|v: int|
        #![trigger cur[v]]
        0 <= v < n ==> 0 <= cur[v] <= out[v]@.len() && (state[v] == 0 ==> cur[v] == 0) && (
        state[v] == 2 ==> cur[v] == out[v]@.len())
    &&& forall|v: int| #![trigger fin[v]] 0 <= v < n && state[v] == 2 ==> 0 <= fin[v] < timer
    &&& forall|v: int, j: int|
        #![trigger out[v]@[j]]
        0 <= v < n && 0 <= j < cur[v] ==> examined_ok(orig, out, state, pos, fin, rev, v, j)
    &&& forall|k: int|
        #![trigger rev[k]]
        0 <= k < orig.len() ==> (rev[k] ==> slot[k] < cur[orig[k].0 as int]) && (rev[k]
            <==> back.contains(k as usize))
    &&& back.no_duplicates()
    &&& forall|i: int| #![trigger back[i]] 0 <= i < back.len() ==> back[i] < orig.len()
    &&& forall|i: int| 0 < i < stack.len() ==> #[trigger] stack_link(orig, stack, i)
    &&& forall|k: int| 0 <= k < orig.len() && #[trigger] rev[k] ==> closes_cycle(orig, k)
    &&& (f0.len() == n && descends(orig, f0)) ==> back.len() == 0 && forall|i: int, j: int|
        #![trigger stack[i], stack[j]]
        0 <= i < j < stack.len() ==> f0[stack[j].0 as int] < f0[stack[i].0 as int]
}


proof fn lemma_dfs_start(
    n: int,
    orig: Seq<(usize, usize)>,
    out: Seq<Vec<usize>>,
    slot: Seq<int>,
    state: Seq<u8>,
    pos: Seq<int>,
    cur: Seq<int>,
    fin: Seq<int>,
    timer: int,
    rev: Seq<bool>,
    back: Seq<usize>,
    f0: Seq<int>,
    r: int,
)
    requires
        dfs_inv(n, orig, out, slot, state, Seq::empty(), pos, cur, fin, timer, rev, back, f0),
        0 <= r < n,
        state[r] == 0,
    ensures
        dfs_inv(
            n,
            orig,
            out,
            slot,
            state.update(r, 1),
            seq![(r as usize, 0usize)],
            pos.update(r, 0),
            cur,
            fin,
            timer,
            rev,
            back,
            f0,
        ),
{
    let state2 = state.update(r, 1);
    let pos2 = pos.update(r, 0);
    let stack2 = seq![(r as usize, 0usize)];
    assert forall|v: int| #![trigger pos2[v]] 0 <= v < n && state2[v] == 1 implies 0 <= pos2[v]
        < stack2.len() && stack2[pos2[v]].0 == v by {
        if v != r {
            assert(state[v] == 1);
            let e: Seq<(usize, usize)> = Seq::empty();
            assert(0 <= pos[v] < e.len());
        }
    }
    assert forall|v: int, j: int|
        #![trigger out[v]@[j]]
        0 <= v < n && 0 <= j < cur[v] implies examined_ok(
        orig,
        out,
        state2,
        pos2,
        fin,
        rev,
        v,
        j,
    ) by {
        assert(examined_ok(orig, out, state, pos, fin, rev, v, j));
        let k = out[v]@[j] as int;
        let arc = oriented(orig[k], rev[k]);
        let a = arc.0 as int;
        let b = arc.1 as int;
        assert(0 <= k < orig.len());
        assert(orig[k].0 < n && orig[k].1 < n);
        if state[a] == 1 {
            let e: Seq<(usize, usize)> = Seq::empty();
            assert(0 <= pos[a] < e.len());
        }
    }
}

proof fn lemma_dfs_finish(
    n: int,
    orig: Seq<(usize, usize)>,
    out: Seq<Vec<usize>>,
    slot: Seq<int>,
    state: Seq<u8>,
    stack: Seq<(usize, usize)>,
    pos: Seq<int>,
    cur: Seq<int>,
    fin: Seq<int>,
    timer: int,
    rev: Seq<bool>,
    back: Seq<usize>,
    f0: Seq<int>,
)
    requires
        dfs_inv(n, orig, out, slot, state, stack, pos, cur, fin, timer, rev, back, f0),
        stack.len() > 0,
        stack.last().1 >= out[stack.last().0 as int]@.len(),
    ensures
        dfs_inv(
            n,
            orig,
            out,
            slot,
            state.update(stack.last().0 as int, 2),
            stack.drop_last(),
            pos,
            cur,
            fin.update(stack.last().0 as int, timer),
            timer + 1,
            rev,
            back,
            f0,
        ),
{
    let top = stack.len() - 1;
    let v = stack[top].0 as int;
    assert(stack[top].0 < n);
    let state2 = state.update(v, 2);
    let stack2 = stack.drop_last();
    let fin2 = fin.update(v, timer);
    assert forall|i: int|
        #![trigger stack2[i]]
        0 <= i < stack2.len() implies stack2[i].0 < n && state2[stack2[i].0 as int] == 1
        && pos[stack2[i].0 as int] == i && cur[stack2[i].0 as int] == stack2[i].1 by {
        assert(stack[i] == stack2[i]);
        assert(pos[stack[i].0 as int] == i);
        assert(pos[v] == top);
    }
    assert forall|w: int| #![trigger pos[w]] 0 <= w < n && state2[w] == 1 implies 0 <= pos[w]
        < stack2.len() && stack2[pos[w]].0 == w by {
        assert(0 <= pos[w] < stack.len() && stack[pos[w]].0 == w);
        if pos[w] == top {
            assert(w == v);
        }
    }
    assert forall|w: int| #![trigger cur[w]] 0 <= w < n implies 0 <= cur[w] <= out[w]@.len() && (
    state2[w] == 0 ==> cur[w] == 0) && (state2[w] == 2 ==> cur[w] == out[w]@.len()) by {
        if w == v {
            assert(cur[v] == stack[top].1);
        }
    }
    assert forall|w: int| #![trigger fin2[w]] 0 <= w < n && state2[w] == 2 implies 0 <= fin2[w]
        < timer + 1 by {
        if w != v {
            assert(state[w] == 2);
            assert(fin[w] == fin2[w]);
            assert(0 <= fin[w] < timer);
        }
    }
    assert forall|w: int, j: int|
        #![trigger out[w]@[j]]
        0 <= w < n && 0 <= j < cur[w] implies examined_ok(
        orig,
        out,
        state2,
        pos,
        fin2,
        rev,
        w,
        j,
    ) by {
        assert(examined_ok(orig, out, state, pos, fin, rev, w, j));
        let k = out[w]@[j] as int;
        let arc = oriented(orig[k], rev[k]);
        let a = arc.0 as int;
        let b = arc.1 as int;
        assert(0 <= k < orig.len());
        assert(orig[k].0 < n && orig[k].1 < n);
        if state[b] == 2 {
            assert(0 <= fin[b] < timer);
        } else {
            assert(0 <= pos[a] < stack.len() && stack[pos[a]].0 == a);
            assert(0 <= pos[b] < stack.len() && stack[pos[b]].0 == b);
            if a == v {
                assert(pos[a] == top);
            }
        }
    }
    assert forall|i: int| 0 < i < stack2.len() implies #[trigger] stack_link(orig, stack2, i) by {
        assert(stack_link(orig, stack, i));
        assert(stack2[i] == stack[i] && stack2[i - 1] == stack[i - 1]);
    }
    if f0.len() == n && descends(orig, f0) {
        assert forall|i: int, j: int|
            #![trigger stack2[i], stack2[j]]
            0 <= i < j < stack2.len() implies f0[stack2[j].0 as int] < f0[stack2[i].0 as int] by {
            assert(stack2[i] == stack[i] && stack2[j] == stack[j]);
        }
    }
}

proof fn lemma_dfs_advance(
    n: int,
    orig: Seq<(usize, usize)>,
    out: Seq<Vec<usize>>,
    slot: Seq<int>,
    state: Seq<u8>,
    stack: Seq<(usize, usize)>,
    pos: Seq<int>,
    cur: Seq<int>,
    fin: Seq<int>,
    timer: int,
    rev: Seq<bool>,
    back: Seq<usize>,
    f0: Seq<int>,
)
    requires
        dfs_inv(n, orig, out, slot, state, stack, pos, cur, fin, timer, rev, back, f0),
        stack.len() > 0,
        stack.last().1 < out[stack.last().0 as int]@.len(),
        out[stack.last().0 as int]@.len() <= usize::MAX,
    ensures
        ({
            let top = stack.len() - 1;
            let v = stack.last().0 as int;
            let c = stack.last().1 as int;
            let k = out[v]@[c] as int;
            let t = orig[k].1 as int;
            let stack1 = stack.update(top, (v as usize, (c + 1) as usize));
            let cur1 = cur.update(v, c + 1);
            &&& 0 <= k < orig.len()
            &&& 0 <= t < n
            &&& orig[k].0 == v
            &&& state[t] == 0 ==> dfs_inv(
                n,
                orig,
                out,
                slot,
                state.update(t, 1),
                stack1.push((t as usize, 0usize)),
                pos.update(t, stack.len() as int),
                cur1,
                fin,
                timer,
                rev,
                back,
                f0,
            )
            &&& state[t] == 1 ==> dfs_inv(
                n,
                orig,
                out,
                slot,
                state,
                stack1,
                pos,
                cur1,
                fin,
                timer,
                rev.update(k, true),
                back.push(k as usize),
                f0,
            )
            &&& state[t] == 2 ==> dfs_inv(
                n,
                orig,
                out,
                slot,
                state,
                stack1,
                pos,
                cur1,
                fin,
                timer,
                rev,
                back,
                f0,
            )
        }),
{
    let top = stack.len() - 1;
    let v = stack.last().0 as int;
    let c = stack.last().1 as int;
    assert(stack[top].0 < n);
    assert(pos[v] == top && cur[v] == c);
    let k = out[v]@[c] as int;
    assert(0 <= k < orig.len() && orig[k].0 == v && slot[k] == c);
    let t = orig[k].1 as int;
    assert(orig[k].0 < n && orig[k].1 < n && orig[k].0 != orig[k].1);
    let stack1 = stack.update(top, (v as usize, (c + 1) as usize));
    let cur1 = cur.update(v, c + 1);
    // The arc just examined is the only one whose examination is new; an arc
    // examined before sits strictly earlier in some out-list.
    assert forall|w: int, j: int|
        0 <= w < n && 0 <= j < cur[w] implies #[trigger] out[w]@[j] != k by {
        if out[w]@[j] == k {
            assert(orig[out[w]@[j] as int].0 == w);
            assert(slot[out[w]@[j] as int] == j);
        }
    }
    if state[t] == 0 {
        let state2 = state.update(t, 1);
        let pos2 = pos.update(t, stack.len() as int);
        let stack2 = stack1.push((t as usize, 0usize));
        assert forall|i: int|
            #![trigger stack2[i]]
            0 <= i < stack2.len() implies stack2[i].0 < n && state2[stack2[i].0 as int] == 1
            && pos2[stack2[i].0 as int] == i && cur1[stack2[i].0 as int] == stack2[i].1 by {
            if i < stack.len() {
                assert(stack[i].0 < n && state[stack[i].0 as int] == 1);
                assert(pos[stack[i].0 as int] == i);
                if i != top {
                    assert(stack2[i] == stack[i]);
                    assert(stack[i].0 != v);
                }
            } else {
                assert(cur[t] == 0);
            }
        }
        assert forall|w: int| #![trigger pos2[w]] 0 <= w < n && state2[w] == 1 implies 0 <= pos2[w]
            < stack2.len() && stack2[pos2[w]].0 == w by {
            if w != t {
                assert(0 <= pos[w] < stack.len() && stack[pos[w]].0 == w);
            }
        }
        assert forall|w: int| #![trigger cur1[w]] 0 <= w < n implies 0 <= cur1[w] <= out[w]@.len()
            && (state2[w] == 0 ==> cur1[w] == 0) && (state2[w] == 2 ==> cur1[w] == out[w]@.len()) by {
            assert(0 <= cur[w] <= out[w]@.len());
        }
        assert forall|w: int, j: int|
            #![trigger out[w]@[j]]
            0 <= w < n && 0 <= j < cur1[w] implies examined_ok(
            orig,
            out,
            state2,
            pos2,
            fin,
            rev,
            w,
            j,
        ) by {
            if w == v && j == c {
                assert(!rev[k]) by {
                    if rev[k] {
                        assert(slot[k] < cur[orig[k].0 as int]);
                    }
                }
            } else {
                assert(examined_ok(orig, out, state, pos, fin, rev, w, j));
                let kk = out[w]@[j] as int;
                let arc = oriented(orig[kk], rev[kk]);
                let a = arc.0 as int;
                let b = arc.1 as int;
                assert(0 <= kk < orig.len());
                assert(orig[kk].0 < n && orig[kk].1 < n);
                if state[a] == 1 && state[b] == 1 {
                    assert(stack[pos[a]].0 == a);
                    assert(stack[pos[b]].0 == b);
                }
            }
        }
        assert forall|kk: int|
            #![trigger rev[kk]]
            0 <= kk < orig.len() implies (rev[kk] ==> slot[kk] < cur1[orig[kk].0 as int]) && (
            rev[kk] <==> back.contains(kk as usize)) by {
            if rev[kk] {
                assert(slot[kk] < cur[orig[kk].0 as int]);
                assert(orig[kk].0 < n);
            }
        }
        if f0.len() == n && descends(orig, f0) {
            assert(f0[t] < f0[v]) by {
                assert(orig[k] == orig[k]);
            }
            assert forall|i: int, j: int|
                #![trigger stack2[i], stack2[j]]
                0 <= i < j < stack2.len() implies f0[stack2[j].0 as int] < f0[stack2[i].0 as int] by {
                if j < stack.len() {
                    assert(stack2[i].0 == stack[i].0);
                    assert(stack2[j].0 == stack[j].0);
                } else if i < top {
                    assert(stack2[i].0 == stack[i].0);
                    assert(f0[stack[top].0 as int] < f0[stack[i].0 as int]);
                }
            }
            assert forall|i: int, j: int|
                #![trigger stack2[i], stack2[j]]
                0 <= i < j < stack2.len() implies f0[stack2[j].0 as int] < f0[stack2[i].0 as int] by {
            }
        }
        assert forall|i: int| 0 < i < stack2.len() implies #[trigger] stack_link(orig, stack2, i) by {
            if i < stack.len() {
                assert(stack_link(orig, stack, i));
                assert(stack2[i].0 == stack[i].0 && stack2[i - 1].0 == stack[i - 1].0);
            } else {
                assert(stack2[i - 1].0 == v && stack2[i].0 == t);
                assert(orig[k].0 == v && orig[k].1 == t);
                assert(has_arc(orig, v, t));
            }
        }
        assert(dfs_inv(n, orig, out, slot, state2, stack2, pos2, cur1, fin, timer, rev, back, f0));
    } else if state[t] == 1 {
        let rev2 = rev.update(k, true);
        let back2 = back.push(k as usize);
        assert(0 <= pos[t] < stack.len() && stack[pos[t]].0 == t);
        assert(pos[t] != top) by {
            if pos[t] == top {
                assert(t == v);
            }
        }
        assert(!rev[k]) by {
            if rev[k] {
                assert(slot[k] < cur[orig[k].0 as int]);
            }
        }
        assert(!back.contains(k as usize));
        assert forall|i: int|
            #![trigger stack1[i]]
            0 <= i < stack1.len() implies stack1[i].0 < n && state[stack1[i].0 as int] == 1
            && pos[stack1[i].0 as int] == i && cur1[stack1[i].0 as int] == stack1[i].1 by {
            assert(stack[i].0 < n && state[stack[i].0 as int] == 1);
            assert(pos[stack[i].0 as int] == i);
            if i != top {
                assert(stack1[i] == stack[i]);
                assert(stack[i].0 != v);
            }
        }
        assert forall|w: int| #![trigger pos[w]] 0 <= w < n && state[w] == 1 implies 0 <= pos[w]
            < stack1.len() && stack1[pos[w]].0 == w by {
            assert(0 <= pos[w] < stack.len() && stack[pos[w]].0 == w);
        }
        assert forall|w: int| #![trigger cur1[w]] 0 <= w < n implies 0 <= cur1[w] <= out[w]@.len()
            && (state[w] == 0 ==> cur1[w] == 0) && (state[w] == 2 ==> cur1[w] == out[w]@.len()) by {
            assert(0 <= cur[w] <= out[w]@.len());
        }
        assert forall|w: int, j: int|
            #![trigger out[w]@[j]]
            0 <= w < n && 0 <= j < cur1[w] implies examined_ok(
            orig,
            out,
            state,
            pos,
            fin,
            rev2,
            w,
            j,
        ) by {
            if w == v && j == c {
                assert(stack[pos[v]].0 == v);
            } else {
                assert(examined_ok(orig, out, state, pos, fin, rev, w, j));
                assert(out[w]@[j] != k);
            }
        }
        assert forall|kk: int|
            #![trigger rev2[kk]]
            0 <= kk < orig.len() implies (rev2[kk] ==> slot[kk] < cur1[orig[kk].0 as int]) && (
            rev2[kk] <==> back2.contains(kk as usize)) by {
            if rev[kk] {
                assert(slot[kk] < cur[orig[kk].0 as int]);
                assert(orig[kk].0 < n);
            }
            if kk != k {
                assert(back2.contains(kk as usize) <==> back.contains(kk as usize)) by {
                    if back2.contains(kk as usize) {
                        let i = choose|i: int| 0 <= i < back2.len() && back2[i] == kk as usize;
                        if i == back.len() {
                            assert(back2[i] == k as usize);
                        }
                        assert(i < back.len());
                        assert(back[i] == kk as usize);
                    }
                    if back.contains(kk as usize) {
                        let i = choose|i: int| 0 <= i < back.len() && back[i] == kk as usize;
                        assert(back2[i] == kk as usize);
                    }
                }
            } else {
                assert(back2[back.len() as int] == k as usize);
            }
        }
        assert forall|i: int| #![trigger back2[i]] 0 <= i < back2.len() implies back2[i] < orig.len() by {
            if i < back.len() {
                assert(back2[i] == back[i]);
            }
        }
        assert(back2.no_duplicates()) by {
            assert forall|i: int, j: int|
                0 <= i < back2.len() && 0 <= j < back2.len() && i != j implies back2[i]
                != back2[j] by {
                if i < back.len() && j < back.len() {
                    assert(back2[i] == back[i] && back2[j] == back[j]);
                } else if i < back.len() {
                    assert(back.contains(back[i]));
                    assert(back2[i] == back[i]);
                } else if j < back.len() {
                    assert(back.contains(back[j]));
                    assert(back2[j] == back[j]);
                }
            }
        }
        if f0.len() == n && descends(orig, f0) {
            assert(f0[t] < f0[v]) by {
                assert(orig[k] == orig[k]);
            }
            assert(f0[stack[top].0 as int] < f0[stack[pos[t]].0 as int]);
            assert(false);
        }
        assert forall|i: int| 0 < i < stack1.len() implies #[trigger] stack_link(orig, stack1, i) by {
            assert(stack_link(orig, stack, i));
            assert(stack1[i].0 == stack[i].0 && stack1[i - 1].0 == stack[i - 1].0);
        }
        assert forall|kk: int| 0 <= kk < orig.len() && #[trigger] rev2[kk] implies closes_cycle(
            orig,
            kk,
        ) by {
            if kk == k {
                lemma_stack_walk(orig, stack, pos[t], top);
                assert(stack[top].0 == v);
            } else {
                assert(rev[kk]);
            }
        }
        assert(dfs_inv(n, orig, out, slot, state, stack1, pos, cur1, fin, timer, rev2, back2, f0));
    } else {
        assert(state[t] == 2);
        assert forall|i: int|
            #![trigger stack1[i]]
            0 <= i < stack1.len() implies stack1[i].0 < n && state[stack1[i].0 as int] == 1
            && pos[stack1[i].0 as int] == i && cur1[stack1[i].0 as int] == stack1[i].1 by {
            assert(stack[i].0 < n && state[stack[i].0 as int] == 1);
            assert(pos[stack[i].0 as int] == i);
            if i != top {
                assert(stack1[i] == stack[i]);
                assert(stack[i].0 != v);
            }
        }
        assert forall|w: int| #![trigger pos[w]] 0 <= w < n && state[w] == 1 implies 0 <= pos[w]
            < stack1.len() && stack1[pos[w]].0 == w by {
            assert(0 <= pos[w] < stack.len() && stack[pos[w]].0 == w);
        }
        assert forall|w: int| #![trigger cur1[w]] 0 <= w < n implies 0 <= cur1[w] <= out[w]@.len()
            && (state[w] == 0 ==> cur1[w] == 0) && (state[w] == 2 ==> cur1[w] == out[w]@.len()) by {
            assert(0 <= cur[w] <= out[w]@.len());
        }
        assert forall|w: int, j: int|
            #![trigger out[w]@[j]]
            0 <= w < n && 0 <= j < cur1[w] implies examined_ok(
            orig,
            out,
            state,
            pos,
            fin,
            rev,
            w,
            j,
        ) by {
            if w == v && j == c {
                assert(!rev[k]) by {
                    if rev[k] {
                        assert(slot[k] < cur[orig[k].0 as int]);
                    }
                }
            } else {
                assert(examined_ok(orig, out, state, pos, fin, rev, w, j));
            }
        }
        assert forall|kk: int|
            #![trigger rev[kk]]
            0 <= kk < orig.len() implies (rev[kk] ==> slot[kk] < cur1[orig[kk].0 as int]) && (
            rev[kk] <==> back.contains(kk as usize)) by {
            if rev[kk] {
                assert(slot[kk] < cur[orig[kk].0 as int]);
                assert(orig[kk].0 < n);
            }
        }
        if f0.len() == n && descends(orig, f0) {
            assert forall|i: int, j: int|
                #![trigger stack1[i], stack1[j]]
                0 <= i < j < stack1.len() implies f0[stack1[j].0 as int] < f0[stack1[i].0 as int] by {
                assert(stack1[i].0 == stack[i].0);
                assert(stack1[j].0 == stack[j].0);
            }
        }
        assert forall|i: int| 0 < i < stack1.len() implies #[trigger] stack_link(orig, stack1, i) by {
            assert(stack_link(orig, stack, i));
            assert(stack1[i].0 == stack[i].0 && stack1[i - 1].0 == stack[i - 1].0);
        }
        assert(dfs_inv(n, orig, out, slot, state, stack1, pos, cur1, fin, timer, rev, back, f0));
    }
}

proof fn lemma_dfs_done(
    n: int,
    orig: Seq<(usize, usize)>,
    out: Seq<Vec<usize>>,
    slot: Seq<int>,
    state: Seq<u8>,
    pos: Seq<int>,
    cur: Seq<int>,
    fin: Seq<int>,
    timer: int,
    rev: Seq<bool>,
    back: Seq<usize>,
    f0: Seq<int>,
)
    requires
        dfs_inv(n, orig, out, slot, state, Seq::empty(), pos, cur, fin, timer, rev, back, f0),
        forall|v: int| 0 <= v < n ==> #[trigger] state[v] == 2,
    ensures
        forall|k: int|
            #![trigger orig[k]]
            0 <= k < orig.len() ==> fin[oriented(orig[k], rev[k]).1 as int] < fin[oriented(
                orig[k],
                rev[k],
            ).0 as int],
{
    assert forall|k: int|
        #![trigger orig[k]]
        0 <= k < orig.len() implies fin[oriented(orig[k], rev[k]).1 as int] < fin[oriented(
            orig[k],
            rev[k],
        ).0 as int] by {
        let s = orig[k].0 as int;
        assert(orig[k].0 < n && orig[k].1 < n);
        assert(0 <= slot[k] < out[s]@.len() && out[s]@[slot[k]] == k);
        assert(state[s] == 2);
        assert(cur[s] == out[s]@.len());
        assert(examined_ok(orig, out, state, pos, fin, rev, s, slot[k]));
        let arc = oriented(orig[k], rev[k]);
        assert(state[arc.0 as int] == 2 && state[arc.1 as int] == 2);
    }
}

/// Reverses the back edges found by an iterative depth-first search, so the
/// graph becomes a DAG: exactly the arcs [`dfs_back_edges`] marks are turned
/// round. So an arc is only ever kept or turned round, only an arc that
/// closes a cycle is turned round, and a graph that had no cycle keeps every
/// arc as it was.
pub fn reverse_back_edges(n: usize, arcs: &mut Vec<(usize, usize)>)
    requires
        arcs_within(n as nat, old(arcs)@),
        loop_free(old(arcs)@),
    ensures
        final(arcs)@.len() == old(arcs)@.len(),
        forall|k: int|
            0 <= k < old(arcs)@.len() ==> #[trigger] final(arcs)@[k] == oriented(
                old(arcs)@[k],
                dfs_back_edges(n as nat, old(arcs)@)[k],
            ),
        forall|k: int|
            0 <= k < old(arcs)@.len() ==> #[trigger] final(arcs)@[k] == old(arcs)@[k]
                || final(arcs)@[k] == flipped(old(arcs)@[k]),
        forall|k: int|
            0 <= k < old(arcs)@.len() && #[trigger] final(arcs)@[k] != old(arcs)@[k]
                ==> closes_cycle(old(arcs)@, k),
        acyclic(n as nat, final(arcs)@),
        acyclic(n as nat, old(arcs)@) ==> final(arcs)@ == old(arcs)@,
{
    let ghost orig = arcs@;
    let arcs_len = arcs.len();
    assert(orig.len() == arcs_len);
    let (out, Ghost(slot)) = out_lists_of(n, arcs);
    let ghost out_spec: Seq<Seq<usize>> = Seq::new(n as nat, |v: int| arcs_from(orig, v, orig.len() as int));
    let ghost answer = dfs_back_edges(n as nat, orig);
    assert forall|v: int| 0 <= v < n implies (#[trigger] out@[v])@ == out_spec[v] by {}
    // 0 = unvisited, 1 = on stack, 2 = done
    let mut state: Vec<u8> = Vec::new();
    let mut i: usize = 0;
    while i < n
        invariant
            i <= n,
            state@.len() == i,
            forall|v: int| 0 <= v < i ==> #[trigger] state@[v] == 0,
        decreases n - i,
    {
        state.push(0);
        i = i + 1;
    }
    let mut back: Vec<usize> = Vec::new();
    let ghost f0: Seq<int> = if exists|f: Seq<int>| f.len() == n && #[trigger] descends(orig, f) {
        choose|f: Seq<int>| f.len() == n && #[trigger] descends(orig, f)
    } else {
        Seq::empty()
    };
    let ghost mut pos: Seq<int> = Seq::new(n as nat, |v: int| 0);
    let ghost mut cur: Seq<int> = Seq::new(n as nat, |v: int| 0);
    let ghost mut fin: Seq<int> = Seq::new(n as nat, |v: int| 0);
    let ghost mut timer: int = 0;
    let ghost mut rev: Seq<bool> = Seq::new(orig.len(), |k: int| false);
    let ghost empty_stack: Seq<(usize, usize)> = Seq::empty();
    proof {
        assert forall|k: int|
            #![trigger rev[k]]
            0 <= k < orig.len() implies (rev[k] ==> slot[k] < cur[orig[k].0 as int]) && (rev[k]
            <==> back@.contains(k as usize)) by {}
        assert(dfs_inv(
            n as int,
            orig,
            out@,
            slot,
            state@,
            empty_stack,
            pos,
            cur,
            fin,
            timer,
            rev,
            back@,
            f0,
        ));
    }
    proof {
        assert(state@ =~= Seq::new(n as nat, |v: int| 0u8));
        assert(empty_stack =~= Seq::<(usize, usize)>::empty());
    }
    let mut root: usize = 0;
    while root < n
        invariant
            root <= n,
            arcs@ == orig,
            out@.len() == n,
            dfs_inv(
                n as int,
                orig,
                out@,
                slot,
                state@,
                empty_stack,
                pos,
                cur,
                fin,
                timer,
                rev,
                back@,
                f0,
            ),
            forall|v: int| 0 <= v < root ==> #[trigger] state@[v] == 2,
            empty_stack == Seq::<(usize, usize)>::empty(),
            forall|v: int| 0 <= v < n ==> (#[trigger] out@[v])@ == out_spec[v],
            out_spec.len() == n,
            dfs_back(out_spec, orig, state@, empty_stack, rev, root as int) == answer,
        decreases n - root,
    {
        if state[root] != 0 {
            proof {
                assert(state@[root as int] <= 2);
                if state@[root as int] == 1 {
                    assert(0 <= pos[root as int] < empty_stack.len());
                }
                assert(dfs_back(out_spec, orig, state@, empty_stack, rev, root as int) == dfs_back(
                    out_spec,
                    orig,
                    state@,
                    empty_stack,
                    rev,
                    root + 1,
                ));
            }
            root = root + 1;
            continue;
        }
        // Stack of (node, next out-arc cursor).
        let ghost state_before = state@;
        let mut stack: Vec<(usize, usize)> = Vec::new();
        stack.push((root, 0));
        proof {
            assert(empty_stack =~= Seq::<(usize, usize)>::empty());
            lemma_dfs_start(
                n as int,
                orig,
                out@,
                slot,
                state@,
                pos,
                cur,
                fin,
                timer,
                rev,
                back@,
                f0,
                root as int,
            );
            lemma_count_zeros_update(state@, root as int, 1);
            assert(stack@ =~= seq![(root, 0usize)]);
        }
        state.set(root, 1);
        proof {
            pos = pos.update(root as int, 0);
            assert(dfs_back(out_spec, orig, state_before, empty_stack, rev, root as int) == dfs_back(
                out_spec,
                orig,
                state@,
                stack@,
                rev,
                root + 1,
            ));
        }
        while stack.len() > 0
            invariant
                root < n,
                arcs@ == orig,
                out@.len() == n,
                dfs_inv(
                    n as int,
                    orig,
                    out@,
                    slot,
                    state@,
                    stack@,
                    pos,
                    cur,
                    fin,
                    timer,
                    rev,
                    back@,
                    f0,
                ),
                forall|v: int| 0 <= v < root ==> #[trigger] state@[v] == 2,
                state@[root as int] != 0,
                empty_stack == Seq::<(usize, usize)>::empty(),
                forall|v: int| 0 <= v < n ==> (#[trigger] out@[v])@ == out_spec[v],
                out_spec.len() == n,
                dfs_back(out_spec, orig, state@, stack@, rev, root + 1) == answer,
            decreases
                count_zeros(state@),
                stack@.len(),
                if stack@.len() > 0 {
                    out@[stack@.last().0 as int]@.len() - stack@.last().1
                } else {
                    0
                },
        {
            let top = stack.len() - 1;
            let (v, cursor) = stack[top];
            let ghost st0 = state@;
            let ghost sk0 = stack@;
            let ghost rv0 = rev;
            proof {
                assert(stack@[top as int].0 < n);
                assert(out@[v as int]@ == out_spec[v as int]);
            }
            if cursor < out[v].len() {
                proof {
                    lemma_dfs_advance(
                        n as int,
                        orig,
                        out@,
                        slot,
                        state@,
                        stack@,
                        pos,
                        cur,
                        fin,
                        timer,
                        rev,
                        back@,
                        f0,
                    );
                }
                stack.set(top, (v, cursor + 1));
                let arc_idx = out[v][cursor];
                let t = arcs[arc_idx].1;
                proof {
                    cur = cur.update(v as int, cursor + 1);
                }
                if state[t] == 0 {
                    proof {
                        lemma_count_zeros_update(state@, t as int, 1);
                        pos = pos.update(t as int, stack@.len() as int);
                    }
                    state.set(t, 1);
                    stack.push((t, 0));
                } else if state[t] == 1 {
                    back.push(arc_idx);
                    proof {
                        rev = rev.update(arc_idx as int, true);
                    }
                }
                proof {
                    assert(dfs_back(out_spec, orig, st0, sk0, rv0, root + 1) == dfs_back(
                        out_spec,
                        orig,
                        state@,
                        stack@,
                        rev,
                        root + 1,
                    ));
                }
            } else {
                proof {
                    lemma_dfs_finish(
                        n as int,
                        orig,
                        out@,
                        slot,
                        state@,
                        stack@,
                        pos,
                        cur,
                        fin,
                        timer,
                        rev,
                        back@,
                        f0,
                    );
                    lemma_count_zeros_update(state@, v as int, 2);
                    fin = fin.update(v as int, timer);
                    timer = timer + 1;
                }
                state.set(v, 2);
                let ghost before_pop = stack@;
                stack.pop();
                proof {
                    assert(stack@ =~= before_pop.drop_last());
                    assert(dfs_back(out_spec, orig, st0, sk0, rv0, root + 1) == dfs_back(
                        out_spec,
                        orig,
                        state@,
                        stack@,
                        rev,
                        root + 1,
                    ));
                }
            }
        }
        proof {
            assert(stack@ =~= empty_stack);
            if state@[root as int] == 1 {
                assert(0 <= pos[root as int] < empty_stack.len());
            }
        }
        root = root + 1;
    }
    proof {
        assert(rev == answer);
        lemma_dfs_done(
            n as int,
            orig,
            out@,
            slot,
            state@,
            pos,
            cur,
            fin,
            timer,
            rev,
            back@,
            f0,
        );
    }
    let mut b: usize = 0;
    while b < back.len()
        invariant
            b <= back@.len(),
            back@.no_duplicates(),
            orig.len() == arcs_len,
            forall|i: int| #![trigger back@[i]] 0 <= i < back@.len() ==> back@[i] < orig.len(),
            arcs@.len() == orig.len(),
            forall|k: int|
                #![trigger arcs@[k]]
                0 <= k < orig.len() ==> arcs@[k] == oriented(
                    orig[k],
                    back@.subrange(0, b as int).contains(k as usize),
                ),
        decreases back@.len() - b,
    {
        let k = back[b];
        let (s, t) = arcs[k];
        let ghost before = arcs@;
        arcs.set(k, (t, s));
        proof {
            let prefix = back@.subrange(0, b as int);
            assert(back@.subrange(0, b + 1) =~= prefix.push(k));
            assert(!prefix.contains(k)) by {
                if prefix.contains(k) {
                    let i = choose|i: int| 0 <= i < prefix.len() && prefix[i] == k;
                    assert(back@[i] == back@[b as int]);
                }
            }
            assert forall|kk: int|
                #![trigger arcs@[kk]]
                0 <= kk < orig.len() implies arcs@[kk] == oriented(
                orig[kk],
                back@.subrange(0, b + 1).contains(kk as usize),
            ) by {
                assert(before[kk] == oriented(orig[kk], prefix.contains(kk as usize)));
                if kk != k {
                    assert(prefix.push(k).contains(kk as usize) == prefix.contains(kk as usize))
                        by {
                        if prefix.push(k).contains(kk as usize) {
                            let i = choose|i: int|
                                0 <= i < prefix.push(k).len() && prefix.push(k)[i] == kk as usize;
                            assert(prefix[i] == kk as usize);
                        }
                        if prefix.contains(kk as usize) {
                            let i = choose|i: int| 0 <= i < prefix.len() && prefix[i] == kk as usize;
                            assert(prefix.push(k)[i] == kk as usize);
                        }
                    }
                } else {
                    assert(prefix.push(k)[prefix.len() as int] == k);
                }
            }
        }
        b = b + 1;
    }
    proof {
        assert(back@.subrange(0, back@.len() as int) =~= back@);
        assert forall|k: int| 0 <= k < orig.len() implies #[trigger] arcs@[k] == oriented(
            orig[k],
            rev[k],
        ) by {
            assert(arcs@[k] == oriented(orig[k], back@.subrange(0, back@.len() as int).contains(k as usize)));
        }
        assert forall|k: int| 0 <= k < orig.len() && #[trigger] arcs@[k] != orig[k] implies closes_cycle(
            orig,
            k,
        ) by {
            assert(arcs@[k] == oriented(orig[k], rev[k]));
            assert(rev[k]);
        }
        assert forall|k: int| 0 <= k < orig.len() implies #[trigger] arcs@[k] == oriented(
            orig[k],
            answer[k],
        ) by {
            assert(arcs@[k] == oriented(orig[k], rev[k]));
        }
        assert(descends(arcs@, fin)) by {
            assert forall|k: int| 0 <= k < arcs@.len() implies fin[(#[trigger] arcs@[k]).1 as int]
                < fin[arcs@[k].0 as int] by {
                assert(orig[k] == orig[k]);
            }
        }
        if acyclic(n as nat, orig) {
            assert(f0.len() == n && descends(orig, f0));
            assert(back@.len() == 0);
            assert(arcs@ =~= orig) by {
                assert forall|k: int| 0 <= k < orig.len() implies #[trigger] arcs@[k] == orig[k] by {
                    assert(!rev[k]) by {
                        if rev[k] {
                            assert(back@.contains(k as usize));
                        }
                    }
                }
            }
        }
    }
}


// ---------------------------------------------------------------------------
// Longest-path ranks
// ---------------------------------------------------------------------------

/// How many arcs enter `t` from a node not yet marked in `done`.
pub open spec fn in_count(arcs: Seq<(usize, usize)>, t: int, done: Seq<bool>) -> nat
    decreases arcs.len(),
{
    if arcs.len() == 0 {
        0
    } else {
        in_count(arcs.drop_last(), t, done) + if arcs.last().1 == t && !done[arcs.last().0 as int] {
            1nat
        } else {
            0nat
        }
    }
}

/// The heads of the arcs leaving `v`, in arc order.
pub open spec fn targets_from(arcs: Seq<(usize, usize)>, v: int) -> Seq<usize>
    decreases arcs.len(),
{
    if arcs.len() == 0 {
        Seq::empty()
    } else if arcs.last().0 == v {
        targets_from(arcs.drop_last(), v).push(arcs.last().1)
    } else {
        targets_from(arcs.drop_last(), v)
    }
}

/// How many times `x` occurs in `s`.
pub open spec fn occurrences(s: Seq<usize>, x: int) -> nat
    decreases s.len(),
{
    if s.len() == 0 {
        0
    } else {
        occurrences(s.drop_last(), x) + if s.last() == x { 1nat } else { 0nat }
    }
}

/// Ranks laid out by longest path: every arc climbs at least one rank, and a
/// node above rank 0 sits exactly one rank above some predecessor.
pub open spec fn longest_path_ranks(arcs: Seq<(usize, usize)>, rank: Seq<usize>) -> bool {
    &&& forall|k: int|
        0 <= k < arcs.len() ==> rank[(#[trigger] arcs[k]).1 as int] > rank[arcs[k].0 as int]
    &&& forall|v: int|
        0 <= v < rank.len() ==> #[trigger] rank[v] == 0 || exists|k: int|
            0 <= k < arcs.len() && (#[trigger] arcs[k]).1 == v && rank[v] == rank[arcs[k].0 as int]
                + 1
}

proof fn lemma_in_count_mark(arcs: Seq<(usize, usize)>, t: int, done: Seq<bool>, v: int)
    requires
        0 <= v < done.len(),
        !done[v],
        arcs_within(done.len(), arcs),
    ensures
        in_count(arcs, t, done) == in_count(arcs, t, done.update(v, true)) + occurrences(
            targets_from(arcs, v),
            t,
        ),
    decreases arcs.len(),
{
    if arcs.len() > 0 {
        let init = arcs.drop_last();
        assert forall|k: int| 0 <= k < init.len() implies (#[trigger] init[k]).0 < done.len()
            && init[k].1 < done.len() by {
            assert(init[k] == arcs[k]);
        }
        lemma_in_count_mark(init, t, done, v);
        let last = arcs[arcs.len() - 1];
        assert(last.0 < done.len());
        let tf = targets_from(init, v);
        if last.0 == v {
            assert(tf.push(last.1).drop_last() =~= tf);
            assert(done.update(v, true)[last.0 as int]);
        } else {
            assert(done.update(v, true)[last.0 as int] == done[last.0 as int]);
        }
    }
}

proof fn lemma_in_count_bound(arcs: Seq<(usize, usize)>, t: int, done: Seq<bool>)
    ensures
        in_count(arcs, t, done) <= arcs.len(),
    decreases arcs.len(),
{
    if arcs.len() > 0 {
        lemma_in_count_bound(arcs.drop_last(), t, done);
    }
}

proof fn lemma_in_count_witness(arcs: Seq<(usize, usize)>, t: int, done: Seq<bool>) -> (k: int)
    requires
        in_count(arcs, t, done) > 0,
    ensures
        0 <= k < arcs.len(),
        arcs[k].1 == t,
        !done[arcs[k].0 as int],
    decreases arcs.len(),
{
    if arcs.last().1 == t && !done[arcs.last().0 as int] {
        arcs.len() - 1
    } else {
        let k = lemma_in_count_witness(arcs.drop_last(), t, done);
        k
    }
}

proof fn lemma_targets_contain(arcs: Seq<(usize, usize)>, k: int)
    requires
        0 <= k < arcs.len(),
    ensures
        targets_from(arcs, arcs[k].0 as int).contains(arcs[k].1),
    decreases arcs.len(),
{
    let v = arcs[k].0 as int;
    if k == arcs.len() - 1 {
        let tf = targets_from(arcs.drop_last(), v);
        assert(tf.push(arcs[k].1)[tf.len() as int] == arcs[k].1);
    } else {
        assert(arcs.drop_last()[k] == arcs[k]);
        lemma_targets_contain(arcs.drop_last(), k);
        let tf = targets_from(arcs.drop_last(), v);
        if arcs.last().0 == v {
            let i = choose|i: int| 0 <= i < tf.len() && tf[i] == arcs[k].1;
            assert(tf.push(arcs.last().1)[i] == arcs[k].1);
        }
    }
}

proof fn lemma_targets_within(arcs: Seq<(usize, usize)>, n: nat, v: int)
    requires
        arcs_within(n, arcs),
    ensures
        forall|i: int| 0 <= i < targets_from(arcs, v).len() ==> #[trigger] targets_from(arcs, v)[i] < n,
    decreases arcs.len(),
{
    if arcs.len() > 0 {
        assert forall|k: int| 0 <= k < arcs.drop_last().len() implies (
        #[trigger] arcs.drop_last()[k]).0 < n && arcs.drop_last()[k].1 < n by {
            assert(arcs.drop_last()[k] == arcs[k]);
        }
        lemma_targets_within(arcs.drop_last(), n, v);
        assert(arcs[arcs.len() - 1].1 < n);
        let tf = targets_from(arcs.drop_last(), v);
        assert forall|i: int| 0 <= i < targets_from(arcs, v).len() implies #[trigger] targets_from(
            arcs,
            v,
        )[i] < n by {
            if arcs.last().0 == v {
                if i < tf.len() {
                    assert(tf.push(arcs.last().1)[i] == tf[i]);
                }
            }
        }
    }
}

proof fn lemma_occurrences_take(s: Seq<usize>, j: int, x: int)
    requires
        0 <= j < s.len(),
    ensures
        occurrences(s.take(j + 1), x) == occurrences(s.take(j), x) + if s[j] == x { 1int } else { 0int },
        occurrences(s.take(j + 1), x) <= occurrences(s, x),
    decreases s.len() - j,
{
    assert(s.take(j + 1).drop_last() =~= s.take(j));
    if j + 1 == s.len() {
        assert(s.take(j + 1) =~= s);
    } else {
        lemma_occurrences_take(s, j + 1, x);
    }
}

/// Every node is either already counted as done or has a predecessor that
/// is not: along a topological numbering that cannot go on forever, so some
/// node is neither done nor waiting on anything.
proof fn lemma_kahn_complete(
    n: int,
    arcs: Seq<(usize, usize)>,
    f: Seq<int>,
    done: Seq<bool>,
    x: int,
)
    requires
        arcs_within(n as nat, arcs),
        f.len() == n,
        descends(arcs, f),
        done.len() == n,
        0 <= x < n,
        !done[x],
    ensures
        exists|y: int| 0 <= y < n && !done[y] && #[trigger] in_count(arcs, y, done) == 0,
    decreases n - f[x] + (n - x),
{
    // Walk to the not-done node of greatest `f`.
    let best = lemma_max_not_done(n, f, done, n);
    if in_count(arcs, best, done) > 0 {
        let k = lemma_in_count_witness(arcs, best, done);
        assert(arcs[k].0 < n && arcs[k].1 < n);
        assert(f[arcs[k].1 as int] < f[arcs[k].0 as int]);
    }
}

proof fn lemma_max_not_done(n: int, f: Seq<int>, done: Seq<bool>, m: int) -> (best: int)
    requires
        0 <= m <= n,
        f.len() == n,
        done.len() == n,
        exists|x: int| 0 <= x < m && !done[x],
    ensures
        0 <= best < m,
        !done[best],
        forall|y: int| 0 <= y < m && !done[y] ==> f[y] <= f[best],
    decreases m,
{
    if exists|x: int| 0 <= x < m - 1 && !done[x] {
        let b = lemma_max_not_done(n, f, done, m - 1);
        if !done[m - 1] && f[m - 1] > f[b] {
            m - 1
        } else {
            b
        }
    } else {
        m - 1
    }
}


proof fn lemma_targets_source(arcs: Seq<(usize, usize)>, v: int, i: int) -> (k: int)
    requires
        0 <= i < targets_from(arcs, v).len(),
    ensures
        0 <= k < arcs.len(),
        arcs[k].0 == v,
        arcs[k].1 == targets_from(arcs, v)[i],
    decreases arcs.len(),
{
    let tf = targets_from(arcs.drop_last(), v);
    if arcs.last().0 == v && i == tf.len() {
        arcs.len() - 1
    } else {
        if arcs.last().0 == v {
            assert(tf.push(arcs.last().1)[i] == tf[i]);
        }
        let k = lemma_targets_source(arcs.drop_last(), v, i);
        assert(arcs.drop_last()[k] == arcs[k]);
        k
    }
}

#[verifier::opaque]
/// The work list of Kahn's algorithm: `queue[..head]` is done, the rest is
/// waiting, and a node is queued exactly when nothing undone points at it.
spec fn kahn_queue(
    n: int,
    indeg: Seq<usize>,
    queue: Seq<usize>,
    qpos: Seq<int>,
    head: int,
    done: Seq<bool>,
) -> bool {
    &&& 0 <= n <= usize::MAX
    &&& indeg.len() == n && qpos.len() == n && done.len() == n
    &&& 0 <= head <= queue.len()
    &&& head <= usize::MAX
    &&& forall|i: int| #![trigger queue[i]] 0 <= i < queue.len() ==> queue[i] < n && qpos[queue[i] as int] == i
    &&& forall|x: int|
        #![trigger indeg[x]]
        0 <= x < n ==> (indeg[x] == 0 <==> (0 <= qpos[x] < queue.len() && queue[qpos[x]] == x))
    &&& forall|x: int|
        #![trigger done[x]]
        0 <= x < n ==> (done[x] <==> (0 <= qpos[x] < head && queue[qpos[x]] == x))
}

#[verifier::opaque]
/// Ranks so far: bounded by the work done, frozen once a node is done, and
/// each nonzero rank explained by a done predecessor.
spec fn kahn_ranks(n: int, arcs: Seq<(usize, usize)>, rank: Seq<usize>, head: int, done: Seq<bool>) -> bool {
    &&& rank.len() == n && done.len() == n
    &&& forall|x: int| #![trigger rank[x]] 0 <= x < n ==> rank[x] <= head
    &&& forall|x: int| #![trigger done[x], rank[x]] 0 <= x < n && done[x] ==> rank[x] < head
    &&& forall|x: int|
        #![trigger rank[x]]
        0 <= x < n ==> rank[x] == 0 || exists|k: int|
            0 <= k < arcs.len() && (#[trigger] arcs[k]).1 == x && done[arcs[k].0 as int] && rank[x]
                == rank[arcs[k].0 as int] + 1
}

spec fn kahn_out(n: int, arcs: Seq<(usize, usize)>, out: Seq<Vec<usize>>) -> bool {
    &&& 0 <= n <= usize::MAX
    &&& arcs_within(n as nat, arcs)
    &&& out.len() == n
    &&& forall|v: int| #![trigger out[v]] 0 <= v < n ==> out[v]@ == targets_from(arcs, v)
}

/// Arcs leaving a done node (other than `skip`) already climb a rank.
spec fn kahn_climbs(n: int, arcs: Seq<(usize, usize)>, rank: Seq<usize>, done: Seq<bool>, skip: int) -> bool {
    forall|k: int|
        0 <= k < arcs.len() && done[(#[trigger] arcs[k]).0 as int] && arcs[k].0 != skip ==> rank[arcs[k].1 as int]
            > rank[arcs[k].0 as int]
}

#[verifier::opaque]
spec fn kahn_between(
    n: int,
    arcs: Seq<(usize, usize)>,
    indeg: Seq<usize>,
    out: Seq<Vec<usize>>,
    rank: Seq<usize>,
    queue: Seq<usize>,
    head: int,
    done: Seq<bool>,
    qpos: Seq<int>,
) -> bool {
    &&& kahn_out(n, arcs, out)
    &&& kahn_queue(n, indeg, queue, qpos, head, done)
    &&& kahn_ranks(n, arcs, rank, head, done)
    &&& forall|x: int| #![trigger indeg[x]] 0 <= x < n ==> indeg[x] == in_count(arcs, x, done)
    &&& kahn_climbs(n, arcs, rank, done, -1)
}

#[verifier::opaque]
spec fn kahn_during(
    n: int,
    arcs: Seq<(usize, usize)>,
    indeg: Seq<usize>,
    out: Seq<Vec<usize>>,
    rank: Seq<usize>,
    queue: Seq<usize>,
    head: int,
    done: Seq<bool>,
    qpos: Seq<int>,
    v: int,
    j: int,
) -> bool {
    &&& kahn_out(n, arcs, out)
    &&& kahn_queue(n, indeg, queue, qpos, head, done)
    &&& kahn_ranks(n, arcs, rank, head, done)
    &&& 0 <= v < n
    &&& done[v]
    &&& 0 <= j <= out[v]@.len()
    &&& forall|x: int|
        #![trigger indeg[x]]
        0 <= x < n ==> indeg[x] + occurrences(out[v]@.take(j), x) == in_count(arcs, x, done)
            + occurrences(out[v]@, x)
    &&& kahn_climbs(n, arcs, rank, done, v)
    &&& forall|i: int| #![trigger out[v]@[i]] 0 <= i < j ==> rank[out[v]@[i] as int] > rank[v]
}

proof fn lemma_kahn_begin(
    n: int,
    arcs: Seq<(usize, usize)>,
    indeg: Seq<usize>,
    out: Seq<Vec<usize>>,
    rank: Seq<usize>,
    queue: Seq<usize>,
    head: int,
    done: Seq<bool>,
    qpos: Seq<int>,
)
    requires
        kahn_between(n, arcs, indeg, out, rank, queue, head, done, qpos),
        head < queue.len(),
        head == count_marked(done),
    ensures
        queue[head] < n,
        ({
            let v = queue[head] as int;
            &&& !done[v]
            &&& out[v]@.len() <= usize::MAX ==> true
            &&& count_marked(done.update(v, true)) == head + 1
            &&& head + 1 <= n
            &&& (head + 1 <= usize::MAX ==> kahn_during(
                n,
                arcs,
                indeg,
                out,
                rank,
                queue,
                head + 1,
                done.update(v, true),
                qpos,
                v,
                0,
            ))
        }),
{
    reveal(kahn_queue);
    reveal(kahn_ranks);
    reveal(kahn_between);
    reveal(kahn_during);
    let v = queue[head] as int;
    assert(queue[head] < n && qpos[v] == head);
    assert(!done[v]);
    lemma_count_marked(done, v);
    lemma_count_marked_bound(done.update(v, true));
    let done1 = done.update(v, true);
    if head + 1 <= usize::MAX {
        assert forall|x: int|
            #![trigger done1[x]]
            0 <= x < n implies (done1[x] <==> (0 <= qpos[x] < head + 1 && queue[qpos[x]] == x)) by {
            if x != v {
                if 0 <= qpos[x] < head + 1 && queue[qpos[x]] == x {
                    assert(qpos[x] != head);
                }
            }
        }
        assert(kahn_queue(n, indeg, queue, qpos, head + 1, done1));
        assert forall|x: int| #![trigger done1[x], rank[x]] 0 <= x < n && done1[x] implies rank[x]
            < head + 1 by {
            assert(rank[x] <= head);
        }
        assert forall|x: int|
            #![trigger rank[x]]
            0 <= x < n implies rank[x] == 0 || exists|k: int|
                0 <= k < arcs.len() && (#[trigger] arcs[k]).1 == x && done1[arcs[k].0 as int] && rank[x]
                    == rank[arcs[k].0 as int] + 1 by {
            if rank[x] != 0 {
                let k = choose|k: int|
                    0 <= k < arcs.len() && (#[trigger] arcs[k]).1 == x && done[arcs[k].0 as int]
                        && rank[x] == rank[arcs[k].0 as int] + 1;
                assert(arcs[k].0 < n);
                assert(done1[arcs[k].0 as int]);
            }
        }
        assert(kahn_ranks(n, arcs, rank, head + 1, done1));
        assert forall|x: int|
            #![trigger indeg[x]]
            0 <= x < n implies indeg[x] + occurrences(out[v]@.take(0), x) == in_count(arcs, x, done1)
            + occurrences(out[v]@, x) by {
            lemma_in_count_mark(arcs, x, done, v);
            assert(out[v]@.take(0) =~= Seq::<usize>::empty());
        }
        assert forall|k: int|
            0 <= k < arcs.len() && done1[(#[trigger] arcs[k]).0 as int] && arcs[k].0 != v implies rank[arcs[k].1 as int]
            > rank[arcs[k].0 as int] by {
            assert(arcs[k].0 < n);
            assert(done[arcs[k].0 as int]);
        }
    }
}

proof fn lemma_kahn_end(
    n: int,
    arcs: Seq<(usize, usize)>,
    indeg: Seq<usize>,
    out: Seq<Vec<usize>>,
    rank: Seq<usize>,
    queue: Seq<usize>,
    head: int,
    done: Seq<bool>,
    qpos: Seq<int>,
    v: int,
)
    requires
        0 <= v < out.len(),
        kahn_during(n, arcs, indeg, out, rank, queue, head, done, qpos, v, out[v]@.len() as int),
    ensures
        kahn_between(n, arcs, indeg, out, rank, queue, head, done, qpos),
{
    reveal(kahn_between);
    reveal(kahn_during);
    assert(out[v]@.take(out[v]@.len() as int) =~= out[v]@);
    assert forall|k: int|
        0 <= k < arcs.len() && done[(#[trigger] arcs[k]).0 as int] && arcs[k].0 != -1 implies rank[arcs[k].1 as int]
        > rank[arcs[k].0 as int] by {
        if arcs[k].0 == v {
            lemma_targets_contain(arcs, k);
            let i = choose|i: int| 0 <= i < out[v]@.len() && out[v]@[i] == arcs[k].1;
            assert(rank[out[v]@[i] as int] > rank[v]);
        }
    }
}

/// The queue/done bookkeeping survives one decrement of `t`'s in-degree.
proof fn lemma_queue_step(
    n: int,
    indeg0: Seq<usize>,
    queue0: Seq<usize>,
    qpos0: Seq<int>,
    head: int,
    done: Seq<bool>,
    t: int,
    indeg1: Seq<usize>,
    queue1: Seq<usize>,
    qpos1: Seq<int>,
)
    requires
        kahn_queue(n, indeg0, queue0, qpos0, head, done),
        0 <= t < n,
        indeg0[t] >= 1,
        indeg1 == indeg0.update(t, (indeg0[t] - 1) as usize),
        queue1 == (if indeg1[t] == 0 { queue0.push(t as usize) } else { queue0 }),
        qpos1 == (if indeg1[t] == 0 { qpos0.update(t, queue0.len() as int) } else { qpos0 }),
    ensures
        kahn_queue(n, indeg1, queue1, qpos1, head, done),
        !done[t],
{
    reveal(kahn_queue);
    assert(!(0 <= qpos0[t] < queue0.len() && queue0[qpos0[t]] == t));
    assert forall|i: int| #![trigger queue1[i]] 0 <= i < queue1.len() implies queue1[i] < n
        && qpos1[queue1[i] as int] == i by {
        if i < queue0.len() {
            assert(queue1[i] == queue0[i]);
            assert(queue0[i] != t);
        }
    }
    assert forall|x: int|
        #![trigger indeg1[x]]
        0 <= x < n implies (indeg1[x] == 0 <==> (0 <= qpos1[x] < queue1.len() && queue1[qpos1[x]]
        == x)) by {
        if x != t {
            assert(indeg1[x] == indeg0[x]);
            assert(qpos1[x] == qpos0[x]);
            if 0 <= qpos0[x] < queue0.len() {
                assert(queue1[qpos0[x]] == queue0[qpos0[x]]);
            }
        }
    }
    assert forall|x: int|
        #![trigger done[x]]
        0 <= x < n implies (done[x] <==> (0 <= qpos1[x] < head && queue1[qpos1[x]] == x)) by {
        if x != t {
            assert(qpos1[x] == qpos0[x]);
            if 0 <= qpos0[x] < queue0.len() {
                assert(queue1[qpos0[x]] == queue0[qpos0[x]]);
            }
        }
    }
}

proof fn lemma_kahn_facts(
    n: int,
    arcs: Seq<(usize, usize)>,
    indeg: Seq<usize>,
    out: Seq<Vec<usize>>,
    rank: Seq<usize>,
    queue: Seq<usize>,
    head: int,
    done: Seq<bool>,
    qpos: Seq<int>,
    v: int,
    j: int,
)
    requires
        kahn_during(n, arcs, indeg, out, rank, queue, head, done, qpos, v, j),
        j < out[v]@.len(),
    ensures
        0 <= out[v]@[j] < n,
        indeg[out[v]@[j] as int] >= 1,
        rank[v] < head,
        indeg.len() == n && rank.len() == n && out.len() == n && done.len() == n,
        head <= usize::MAX,
        0 <= v < n,
{
    reveal(kahn_queue);
    reveal(kahn_ranks);
    reveal(kahn_during);
    let t = out[v]@[j] as int;
    lemma_targets_within(arcs, n as nat, v);
    assert(out[v]@[j] < n);
    lemma_occurrences_take(out[v]@, j, t);
    lemma_in_count_bound(arcs, t, done);
}

proof fn lemma_ranks_step(
    n: int,
    arcs: Seq<(usize, usize)>,
    rank0: Seq<usize>,
    rank1: Seq<usize>,
    head: int,
    done: Seq<bool>,
    v: int,
    t: int,
    kt: int,
)
    requires
        kahn_ranks(n, arcs, rank0, head, done),
        arcs_within(n as nat, arcs),
        0 <= v < n,
        0 <= t < n,
        done[v],
        !done[t],
        0 <= kt < arcs.len(),
        arcs[kt].0 == v,
        arcs[kt].1 == t,
        head <= usize::MAX,
        rank1 == if rank0[v] + 1 > rank0[t] { rank0.update(t, (rank0[v] + 1) as usize) } else { rank0 },
    ensures
        kahn_ranks(n, arcs, rank1, head, done),
{
    reveal(kahn_ranks);
    assert(rank0[v] < head);
    lemma_rank_witness(n, arcs, rank0, rank1, done, v, t, kt);
    assert forall|x: int| #![trigger done[x], rank1[x]] 0 <= x < n && done[x] implies rank1[x] < head by {
        if x != t {
            assert(rank1[x] == rank0[x]);
        }
    }
    assert forall|x: int| #![trigger rank1[x]] 0 <= x < n implies rank1[x] <= head by {
        assert(rank0[x] <= head);
    }
}

proof fn lemma_counts_step(
    n: int,
    arcs: Seq<(usize, usize)>,
    indeg0: Seq<usize>,
    indeg1: Seq<usize>,
    targets: Seq<usize>,
    done: Seq<bool>,
    j: int,
)
    requires
        0 <= j < targets.len(),
        0 <= targets[j] < n,
        indeg0.len() == n,
        indeg1 == indeg0.update(targets[j] as int, (indeg0[targets[j] as int] - 1) as usize),
        indeg0[targets[j] as int] >= 1,
        forall|x: int|
            #![trigger indeg0[x]]
            0 <= x < n ==> indeg0[x] + occurrences(targets.take(j), x) == in_count(arcs, x, done)
                + occurrences(targets, x),
    ensures
        forall|x: int|
            #![trigger indeg1[x]]
            0 <= x < n ==> indeg1[x] + occurrences(targets.take(j + 1), x) == in_count(arcs, x, done)
                + occurrences(targets, x),
{
    assert forall|x: int|
        #![trigger indeg1[x]]
        0 <= x < n implies indeg1[x] + occurrences(targets.take(j + 1), x) == in_count(arcs, x, done)
        + occurrences(targets, x) by {
        lemma_occurrences_take(targets, j, x);
        assert(indeg0[x] + occurrences(targets.take(j), x) == in_count(arcs, x, done) + occurrences(
            targets,
            x,
        ));
    }
}

proof fn lemma_kahn_step(
    n: int,
    arcs: Seq<(usize, usize)>,
    indeg0: Seq<usize>,
    out: Seq<Vec<usize>>,
    rank0: Seq<usize>,
    queue0: Seq<usize>,
    head: int,
    done: Seq<bool>,
    qpos0: Seq<int>,
    v: int,
    j: int,
    indeg1: Seq<usize>,
    rank1: Seq<usize>,
    queue1: Seq<usize>,
    qpos1: Seq<int>,
)
    requires
        kahn_during(n, arcs, indeg0, out, rank0, queue0, head, done, qpos0, v, j),
        j < out[v]@.len(),
        0 <= out[v]@[j] < n ==> {
            let t = out[v]@[j] as int;
            &&& rank1 == if rank0[v] + 1 > rank0[t] {
                rank0.update(t, (rank0[v] + 1) as usize)
            } else {
                rank0
            }
            &&& indeg1 == indeg0.update(t, (indeg0[t] - 1) as usize)
            &&& queue1 == (if indeg1[t] == 0 { queue0.push(t as usize) } else { queue0 })
            &&& qpos1 == (if indeg1[t] == 0 { qpos0.update(t, queue0.len() as int) } else { qpos0 })
        },
    ensures
        kahn_during(n, arcs, indeg1, out, rank1, queue1, head, done, qpos1, v, j + 1),
{
    lemma_kahn_facts(n, arcs, indeg0, out, rank0, queue0, head, done, qpos0, v, j);
    reveal(kahn_during);
    let t = out[v]@[j] as int;
    lemma_queue_step(n, indeg0, queue0, qpos0, head, done, t, indeg1, queue1, qpos1);
    let kt = lemma_targets_source(arcs, v, j);
    lemma_ranks_step(n, arcs, rank0, rank1, head, done, v, t, kt);
    lemma_counts_step(n, arcs, indeg0, indeg1, out[v]@, done, j);
    assert forall|k: int|
        0 <= k < arcs.len() && done[(#[trigger] arcs[k]).0 as int] && arcs[k].0 != v implies rank1[
        arcs[k].1 as int] > rank1[arcs[k].0 as int] by {
        assert(arcs[k].0 < n && arcs[k].1 < n);
        assert(arcs[k].0 != t);
        assert(rank0[arcs[k].1 as int] > rank0[arcs[k].0 as int]);
    }
    assert forall|i: int| #![trigger out[v]@[i]] 0 <= i < j + 1 implies rank1[
        out[v]@[i] as int] > rank1[v] by {
        if i < j {
            lemma_targets_within(arcs, n as nat, v);
            assert(out[v]@[i] < n);
            assert(rank0[out[v]@[i] as int] > rank0[v]);
        }
    }
}

/// Once the work list runs dry on an acyclic graph every node is done, so
/// the ranks are final and each lies below the node count.
proof fn lemma_kahn_finish(
    n: int,
    arcs: Seq<(usize, usize)>,
    indeg: Seq<usize>,
    out: Seq<Vec<usize>>,
    rank: Seq<usize>,
    queue: Seq<usize>,
    head: int,
    done: Seq<bool>,
    qpos: Seq<int>,
)
    requires
        kahn_between(n, arcs, indeg, out, rank, queue, head, done, qpos),
        head == count_marked(done),
        head >= queue.len(),
        acyclic(n as nat, arcs),
    ensures
        longest_path_ranks(arcs, rank),
        forall|v: int| 0 <= v < n ==> #[trigger] rank[v] < n,
{
    reveal(kahn_between);
    reveal(kahn_queue);
    reveal(kahn_ranks);
    lemma_count_marked_bound(done);
    let f = choose|f: Seq<int>| f.len() == n && #[trigger] descends(arcs, f);
    assert forall|x: int| 0 <= x < n implies #[trigger] done[x] by {
        if !done[x] {
            lemma_kahn_complete(n, arcs, f, done, x);
            let y = choose|y: int| 0 <= y < n && !done[y] && #[trigger] in_count(arcs, y, done) == 0;
            assert(indeg[y] == 0);
        }
    }
    assert forall|k: int|
        0 <= k < arcs.len() implies rank[(#[trigger] arcs[k]).1 as int] > rank[arcs[k].0 as int] by {
        assert(arcs[k].0 < n);
        assert(done[arcs[k].0 as int]);
    }
    assert forall|v: int| 0 <= v < n implies #[trigger] rank[v] < n by {
        assert(done[v]);
        assert(rank[v] < head);
    }
}

/// Longest-path ranks over a DAG, by Kahn's algorithm: every arc climbs at
/// least one rank and every node sits as low as its predecessors allow.
pub fn assign_ranks(n: usize, arcs: &Vec<(usize, usize)>) -> (rank: Vec<usize>)
    requires
        arcs_within(n as nat, arcs@),
        acyclic(n as nat, arcs@),
    ensures
        rank@.len() == n,
        longest_path_ranks(arcs@, rank@),
        forall|v: int| 0 <= v < n ==> #[trigger] rank@[v] < n,
{
    let ghost none_done: Seq<bool> = Seq::new(n as nat, |i: int| false);
    let mut indeg: Vec<usize> = Vec::new();
    let mut out: Vec<Vec<usize>> = Vec::new();
    let mut rank: Vec<usize> = Vec::new();
    let mut i: usize = 0;
    while i < n
        invariant
            i <= n,
            indeg@.len() == i && out@.len() == i && rank@.len() == i,
            forall|x: int| #![trigger indeg@[x]] 0 <= x < i ==> indeg@[x] == 0,
            forall|x: int| #![trigger out@[x]] 0 <= x < i ==> out@[x]@ == Seq::<usize>::empty(),
            forall|x: int| #![trigger rank@[x]] 0 <= x < i ==> rank@[x] == 0,
        decreases n - i,
    {
        indeg.push(0);
        out.push(Vec::new());
        rank.push(0);
        i = i + 1;
    }
    let mut k: usize = 0;
    while k < arcs.len()
        invariant
            k <= arcs@.len(),
            arcs_within(n as nat, arcs@),
            indeg@.len() == n && out@.len() == n,
            none_done == Seq::new(n as nat, |i: int| false),
            forall|x: int|
                #![trigger indeg@[x]]
                0 <= x < n ==> indeg@[x] == in_count(arcs@.take(k as int), x, none_done),
            forall|x: int|
                #![trigger out@[x]]
                0 <= x < n ==> out@[x]@ == targets_from(arcs@.take(k as int), x),
        decreases arcs@.len() - k,
    {
        let (s, t) = arcs[k];
        proof {
            assert(arcs@[k as int].0 < n && arcs@[k as int].1 < n);
            assert(arcs@.take(k + 1).drop_last() =~= arcs@.take(k as int));
            lemma_in_count_bound(arcs@.take(k as int), t as int, none_done);
        }
        let ghost before_out = out@;
        indeg.set(t, indeg[t] + 1);
        out[s].push(t);
        proof {
            assert forall|x: int|
                #![trigger indeg@[x]]
                0 <= x < n implies indeg@[x] == in_count(arcs@.take(k + 1), x, none_done) by {
                assert(arcs@.take(k + 1).last() == arcs@[k as int]);
                assert(!none_done[s as int]);
            }
            assert forall|x: int|
                #![trigger out@[x]]
                0 <= x < n implies out@[x]@ == targets_from(arcs@.take(k + 1), x) by {
                assert(arcs@.take(k + 1).last() == arcs@[k as int]);
                if x != s {
                    assert(out@[x] == before_out[x]);
                }
            }
        }
        k = k + 1;
    }
    proof {
        assert(arcs@.take(arcs@.len() as int) =~= arcs@);
    }
    let ghost mut done: Seq<bool> = none_done;
    let ghost mut qpos: Seq<int> = Seq::new(n as nat, |i: int| -1);
    let mut queue: Vec<usize> = Vec::new();
    let mut i: usize = 0;
    while i < n
        invariant
            i <= n,
            indeg@.len() == n,
            qpos.len() == n,
            forall|q: int| #![trigger queue@[q]] 0 <= q < queue@.len() ==> queue@[q] < i && qpos[queue@[q] as int] == q,
            forall|x: int|
                #![trigger qpos[x]]
                0 <= x < n ==> (0 <= x < i && indeg@[x] == 0 <==> (0 <= qpos[x] < queue@.len()
                    && queue@[qpos[x]] == x)),
        decreases n - i,
    {
        if indeg[i] == 0 {
            proof {
                qpos = qpos.update(i as int, queue@.len() as int);
            }
            queue.push(i);
        }
        i = i + 1;
    }
    let mut head: usize = 0;
    proof {
        reveal(kahn_between);
        reveal(kahn_queue);
        reveal(kahn_ranks);
        lemma_count_none(n as nat);
        assert forall|x: int| 0 <= x < n implies #[trigger] rank@[x] == 0 || exists|k: int|
            0 <= k < arcs@.len() && (#[trigger] arcs@[k]).1 == x && done[arcs@[k].0 as int]
                && rank@[x] == rank@[arcs@[k].0 as int] + 1 by {}
        assert(kahn_queue(n as int, indeg@, queue@, qpos, head as int, done));
        assert(kahn_ranks(n as int, arcs@, rank@, head as int, done));
        assert(kahn_between(n as int, arcs@, indeg@, out@, rank@, queue@, head as int, done, qpos));
    }
    while head < queue.len()
        invariant
            kahn_between(n as int, arcs@, indeg@, out@, rank@, queue@, head as int, done, qpos),
            head == count_marked(done),
            head <= n,
            indeg@.len() == n && rank@.len() == n && out@.len() == n,
        decreases
            n - head,
    {
        proof {
            lemma_kahn_begin(n as int, arcs@, indeg@, out@, rank@, queue@, head as int, done, qpos);
        }
        let v = queue[head];
        proof {
            done = done.update(v as int, true);
        }
        head = head + 1;
        let len = out[v].len();
        let mut j: usize = 0;
        while j < len
            invariant
                kahn_during(n as int, arcs@, indeg@, out@, rank@, queue@, head as int, done, qpos, v as int, j as int),
                len == out@[v as int]@.len(),
                j <= len,
                0 <= v < out@.len(),
                0 <= v < rank@.len(),
                indeg@.len() == n && rank@.len() == n && out@.len() == n,
            decreases len - j,
        {
            let t = out[v][j];
            proof {
                lemma_kahn_facts(n as int, arcs@, indeg@, out@, rank@, queue@, head as int, done, qpos, v as int, j as int);
            }
            let ghost indeg0 = indeg@;
            let ghost rank0 = rank@;
            let ghost queue0 = queue@;
            let ghost qpos0 = qpos;
            let next = rank[v] + 1;
            if next > rank[t] {
                rank.set(t, next);
            }
            indeg.set(t, indeg[t] - 1);
            if indeg[t] == 0 {
                proof {
                    qpos = qpos.update(t as int, queue@.len() as int);
                }
                queue.push(t);
            }
            proof {
                lemma_kahn_step(
                    n as int,
                    arcs@,
                    indeg0,
                    out@,
                    rank0,
                    queue0,
                    head as int,
                    done,
                    qpos0,
                    v as int,
                    j as int,
                    indeg@,
                    rank@,
                    queue@,
                    qpos,
                );
            }
            j = j + 1;
        }
        proof {
            lemma_kahn_end(n as int, arcs@, indeg@, out@, rank@, queue@, head as int, done, qpos, v as int);
        }
    }
    proof {
        lemma_kahn_finish(n as int, arcs@, indeg@, out@, rank@, queue@, head as int, done, qpos);
    }
    rank
}

/// The ranks of nodes at rank `k` or below in either layout agree.
proof fn lemma_ranks_agree_below(arcs: Seq<(usize, usize)>, r1: Seq<usize>, r2: Seq<usize>, n: nat, k: int)
    requires
        arcs_within(n, arcs),
        r1.len() == n,
        r2.len() == n,
        longest_path_ranks(arcs, r1),
        longest_path_ranks(arcs, r2),
        0 <= k,
    ensures
        forall|v: int| 0 <= v < n && (r1[v] <= k || r2[v] <= k) ==> #[trigger] r1[v] == r2[v],
    decreases k,
{
    if k > 0 {
        lemma_ranks_agree_below(arcs, r1, r2, n, k - 1);
    }
    assert forall|v: int| 0 <= v < n && (r1[v] <= k || r2[v] <= k) implies #[trigger] r1[v] == r2[v] by {
        if r1[v] != r2[v] {
            // Let `lo` be the layout that puts `v` lower.
            if r1[v] < r2[v] {
                lemma_rank_step(arcs, r1, r2, n, k, v);
            } else {
                lemma_rank_step(arcs, r2, r1, n, k, v);
            }
        }
    }
}

/// A node cannot sit lower in one longest-path layout than in another
/// when the two agree on every lower node.
proof fn lemma_rank_step(arcs: Seq<(usize, usize)>, lo: Seq<usize>, hi: Seq<usize>, n: nat, k: int, v: int)
    requires
        arcs_within(n, arcs),
        lo.len() == n,
        hi.len() == n,
        longest_path_ranks(arcs, lo),
        longest_path_ranks(arcs, hi),
        0 <= v < n,
        lo[v] <= hi[v],
        lo[v] <= k,
        k > 0 ==> forall|u: int| 0 <= u < n && (lo[u] <= k - 1 || hi[u] <= k - 1) ==> #[trigger] lo[u] == hi[u],
    ensures
        lo[v] == hi[v],
{
    if lo[v] < hi[v] {
        // `v` sits above rank 0 in `hi`, on top of some predecessor `w`.
        assert(hi[v] != 0);
        let kw = choose|kw: int| 0 <= kw < arcs.len() && (#[trigger] arcs[kw]).1 == v && hi[v] == hi[arcs[kw].0 as int] + 1;
        let w = arcs[kw].0 as int;
        assert(lo[v] > lo[w]);
        assert(lo[w] < k);
        assert(lo[w] == hi[w]);
    }
}

/// Longest-path ranks are determined by the arcs: two rankings that both
/// climb every arc and rest every raised node on a predecessor are the same.
pub proof fn longest_path_ranks_are_unique(n: nat, arcs: Seq<(usize, usize)>, r1: Seq<usize>, r2: Seq<usize>)
    requires
        arcs_within(n, arcs),
        r1.len() == n,
        r2.len() == n,
        longest_path_ranks(arcs, r1),
        longest_path_ranks(arcs, r2),
    ensures
        r1 == r2,
{
    assert forall|v: int| 0 <= v < n implies r1[v] == r2[v] by {
        lemma_ranks_agree_below(arcs, r1, r2, n, r1[v] as int);
    }
    assert(r1 =~= r2);
}

/// How many entries of `s` are set.
pub open spec fn count_marked(s: Seq<bool>) -> nat
    decreases s.len(),
{
    if s.len() == 0 {
        0
    } else {
        count_marked(s.drop_last()) + if s.last() { 1nat } else { 0nat }
    }
}

proof fn lemma_count_marked(s: Seq<bool>, i: int)
    requires
        0 <= i < s.len(),
        !s[i],
    ensures
        count_marked(s.update(i, true)) == count_marked(s) + 1,
        count_marked(s) < s.len(),
    decreases s.len(),
{
    let u = s.update(i, true);
    if i == s.len() - 1 {
        assert(u.drop_last() =~= s.drop_last());
        lemma_count_marked_bound(s.drop_last());
    } else {
        lemma_count_marked(s.drop_last(), i);
        assert(u.drop_last() =~= s.drop_last().update(i, true));
    }
}

proof fn lemma_count_marked_bound(s: Seq<bool>)
    ensures
        count_marked(s) <= s.len(),
    decreases s.len(),
{
    if s.len() > 0 {
        lemma_count_marked_bound(s.drop_last());
    }
}


proof fn lemma_count_none(n: nat)
    ensures
        count_marked(Seq::new(n, |i: int| false)) == 0,
    decreases n,
{
    if n > 0 {
        assert(Seq::new(n, |i: int| false).drop_last() =~= Seq::new((n - 1) as nat, |i: int| false));
        lemma_count_none((n - 1) as nat);
    }
}


proof fn lemma_rank_witness(
    n: int,
    arcs: Seq<(usize, usize)>,
    rank0: Seq<usize>,
    rank1: Seq<usize>,
    done: Seq<bool>,
    v: int,
    t: int,
    kt: int,
)
    requires
        arcs_within(n as nat, arcs),
        rank0.len() == n,
        done.len() == n,
        0 <= v < n,
        0 <= t < n,
        done[v],
        !done[t],
        0 <= kt < arcs.len(),
        arcs[kt].0 == v,
        arcs[kt].1 == t,
        rank0[v] + 1 <= usize::MAX,
        rank1 == if rank0[v] + 1 > rank0[t] { rank0.update(t, (rank0[v] + 1) as usize) } else { rank0 },
        forall|x: int|
            #![trigger rank0[x]]
            0 <= x < n ==> rank0[x] == 0 || exists|k: int|
                0 <= k < arcs.len() && (#[trigger] arcs[k]).1 == x && done[arcs[k].0 as int] && rank0[x]
                    == rank0[arcs[k].0 as int] + 1,
    ensures
        forall|x: int|
            #![trigger rank1[x]]
            0 <= x < n ==> rank1[x] == 0 || exists|k: int|
                0 <= k < arcs.len() && (#[trigger] arcs[k]).1 == x && done[arcs[k].0 as int]
                    && rank1[x] == rank1[arcs[k].0 as int] + 1,
{
    assert forall|x: int|
        #![trigger rank1[x]]
        0 <= x < n implies rank1[x] == 0 || exists|k: int|
            0 <= k < arcs.len() && (#[trigger] arcs[k]).1 == x && done[arcs[k].0 as int]
                && rank1[x] == rank1[arcs[k].0 as int] + 1 by {
        if x == t && rank1[x] != rank0[x] {
            assert(arcs[kt].1 == x);
            assert(rank1[v] == rank0[v]);
        } else if rank0[x] != 0 {
            assert(rank1[x] == rank0[x]);
            let k = choose|k: int|
                0 <= k < arcs.len() && (#[trigger] arcs[k]).1 == x && done[arcs[k].0 as int]
                    && rank0[x] == rank0[arcs[k].0 as int] + 1;
            assert(arcs[k].0 < n);
            assert(arcs[k].0 != t);
            assert(rank1[arcs[k].0 as int] == rank0[arcs[k].0 as int]);
        } else {
            assert(rank1[x] == rank0[x]);
        }
    }
}


// ---------------------------------------------------------------------------
// Ordering within ranks
// ---------------------------------------------------------------------------

/// The tails of the arcs entering `t`, in arc order.
pub open spec fn sources_into(arcs: Seq<(usize, usize)>, t: int) -> Seq<usize>
    decreases arcs.len(),
{
    if arcs.len() == 0 {
        Seq::empty()
    } else if arcs.last().1 == t {
        sources_into(arcs.drop_last(), t).push(arcs.last().0)
    } else {
        sources_into(arcs.drop_last(), t)
    }
}

/// Predecessor and successor lists, in arc order.
pub fn neighbor_lists(n: usize, arcs: &Vec<(usize, usize)>) -> (r: (Vec<Vec<usize>>, Vec<Vec<usize>>))
    requires
        arcs_within(n as nat, arcs@),
    ensures
        r.0@.len() == n,
        r.1@.len() == n,
        forall|v: int| #![trigger r.0@[v]] 0 <= v < n ==> r.0@[v]@ == sources_into(arcs@, v),
        forall|v: int| #![trigger r.1@[v]] 0 <= v < n ==> r.1@[v]@ == targets_from(arcs@, v),
{
    let mut preds: Vec<Vec<usize>> = Vec::new();
    let mut succs: Vec<Vec<usize>> = Vec::new();
    let mut i: usize = 0;
    while i < n
        invariant
            i <= n,
            preds@.len() == i && succs@.len() == i,
            forall|x: int| #![trigger preds@[x]] 0 <= x < i ==> preds@[x]@ == Seq::<usize>::empty(),
            forall|x: int| #![trigger succs@[x]] 0 <= x < i ==> succs@[x]@ == Seq::<usize>::empty(),
        decreases n - i,
    {
        preds.push(Vec::new());
        succs.push(Vec::new());
        i = i + 1;
    }
    let mut k: usize = 0;
    while k < arcs.len()
        invariant
            k <= arcs@.len(),
            arcs_within(n as nat, arcs@),
            preds@.len() == n && succs@.len() == n,
            forall|x: int|
                #![trigger preds@[x]]
                0 <= x < n ==> preds@[x]@ == sources_into(arcs@.take(k as int), x),
            forall|x: int|
                #![trigger succs@[x]]
                0 <= x < n ==> succs@[x]@ == targets_from(arcs@.take(k as int), x),
        decreases arcs@.len() - k,
    {
        let (s, t) = arcs[k];
        proof {
            assert(arcs@[k as int].0 < n && arcs@[k as int].1 < n);
            assert(arcs@.take(k + 1).drop_last() =~= arcs@.take(k as int));
            assert(arcs@.take(k + 1).last() == arcs@[k as int]);
        }
        let ghost before_preds = preds@;
        let ghost before_succs = succs@;
        preds[t].push(s);
        succs[s].push(t);
        proof {
            assert forall|x: int|
                #![trigger preds@[x]]
                0 <= x < n implies preds@[x]@ == sources_into(arcs@.take(k + 1), x) by {
                if x != t {
                    assert(preds@[x] == before_preds[x]);
                }
            }
            assert forall|x: int|
                #![trigger succs@[x]]
                0 <= x < n implies succs@[x]@ == targets_from(arcs@.take(k + 1), x) by {
                if x != s {
                    assert(succs@[x] == before_succs[x]);
                }
            }
        }
        k = k + 1;
    }
    proof {
        assert(arcs@.take(arcs@.len() as int) =~= arcs@);
    }
    (preds, succs)
}

proof fn lemma_sources_within(arcs: Seq<(usize, usize)>, n: nat, v: int)
    requires
        arcs_within(n, arcs),
    ensures
        forall|i: int| 0 <= i < sources_into(arcs, v).len() ==> #[trigger] sources_into(arcs, v)[i] < n,
        sources_into(arcs, v).len() <= arcs.len(),
    decreases arcs.len(),
{
    if arcs.len() > 0 {
        assert forall|k: int| 0 <= k < arcs.drop_last().len() implies (
        #[trigger] arcs.drop_last()[k]).0 < n && arcs.drop_last()[k].1 < n by {
            assert(arcs.drop_last()[k] == arcs[k]);
        }
        lemma_sources_within(arcs.drop_last(), n, v);
        assert(arcs[arcs.len() - 1].0 < n);
        let sf = sources_into(arcs.drop_last(), v);
        assert forall|i: int| 0 <= i < sources_into(arcs, v).len() implies #[trigger] sources_into(
            arcs,
            v,
        )[i] < n by {
            if arcs.last().1 == v {
                if i < sf.len() {
                    assert(sf.push(arcs.last().0)[i] == sf[i]);
                }
            }
        }
    }
}

proof fn lemma_targets_len(arcs: Seq<(usize, usize)>, v: int)
    ensures
        targets_from(arcs, v).len() <= arcs.len(),
    decreases arcs.len(),
{
    if arcs.len() > 0 {
        lemma_targets_len(arcs.drop_last(), v);
    }
}

/// Distinct node indices below `n` number at most `n`.
proof fn lemma_distinct_below(s: Seq<usize>, n: nat)
    requires
        s.no_duplicates(),
        forall|i: int| 0 <= i < s.len() ==> #[trigger] s[i] < n,
    ensures
        s.len() <= n,
{
    let t = s.map_values(|x: usize| x as int);
    assert(t.no_duplicates()) by {
        assert forall|i: int, j: int| 0 <= i < t.len() && 0 <= j < t.len() && i != j implies t[i]
            != t[j] by {
            assert(s[i] != s[j]);
        }
    }
    t.unique_seq_to_set();
    assert(t.to_set().subset_of(set_int_range(0, n as int))) by {
        assert forall|x: int| t.to_set().contains(x) implies set_int_range(0, n as int).contains(x) by {
            let i = choose|i: int| 0 <= i < t.len() && t[i] == x;
            assert(s[i] < n);
        }
    }
    lemma_int_range(0, n as int);
    lemma_len_subset(t.to_set(), set_int_range(0, n as int));
}

/// The sum of the positions of `ns`.
pub open spec fn pos_sum(ns: Seq<usize>, pos: Seq<usize>) -> int
    decreases ns.len(),
{
    if ns.len() == 0 {
        0
    } else {
        pos_sum(ns.drop_last(), pos) + pos[ns.last() as int]
    }
}

/// The barycenter of the item at slot `c` of `items`, as a fraction
/// `(numerator, denominator)`: the mean position of its neighbours, or its
/// own slot when it has none.
pub open spec fn bary_key(items: Seq<usize>, neighbors: Seq<Seq<usize>>, pos: Seq<usize>, c: int) -> (int, int) {
    let ns = neighbors[items[c] as int];
    if ns.len() == 0 {
        (c, 1)
    } else {
        (pos_sum(ns, pos), ns.len() as int)
    }
}

/// Slot `c1` sorts before slot `c2`: a smaller barycenter, or the same one
/// and an earlier slot.
pub open spec fn bary_before(
    items: Seq<usize>,
    neighbors: Seq<Seq<usize>>,
    pos: Seq<usize>,
    c1: int,
    c2: int,
) -> bool {
    let k1 = bary_key(items, neighbors, pos, c1);
    let k2 = bary_key(items, neighbors, pos, c2);
    k1.0 * k2.1 < k2.0 * k1.1 || (k1.0 * k2.1 == k2.0 * k1.1 && c1 < c2)
}

/// `result` is `items` reordered by `perm` into barycenter order.
pub open spec fn barycenter_sorted(
    items: Seq<usize>,
    neighbors: Seq<Seq<usize>>,
    pos: Seq<usize>,
    perm: Seq<int>,
    result: Seq<usize>,
) -> bool {
    &&& perm.len() == items.len()
    &&& perm.no_duplicates()
    &&& result.len() == items.len()
    &&& forall|s: int|
        #![trigger perm[s]]
        0 <= s < perm.len() ==> 0 <= perm[s] < items.len() && result[s] == items[perm[s]]
    &&& forall|c: int| 0 <= c < items.len() ==> #[trigger] perm.contains(c)
    &&& forall|s: int, t: int|
        #![trigger perm[s], perm[t]]
        0 <= s < t < perm.len() ==> bary_before(items, neighbors, pos, perm[s], perm[t])
}

proof fn lemma_fraction_order(a0: int, a1: int, b0: int, b1: int, c0: int, c1: int)
    requires
        a1 > 0,
        b1 > 0,
        c1 > 0,
        a0 * b1 <= b0 * a1,
        b0 * c1 <= c0 * b1,
    ensures
        a0 * c1 <= c0 * a1,
        (a0 * b1 < b0 * a1 || b0 * c1 < c0 * b1) ==> a0 * c1 < c0 * a1,
{
    assert(a0 * b1 * c1 <= b0 * a1 * c1) by (nonlinear_arith)
        requires
            a0 * b1 <= b0 * a1,
            c1 > 0,
    ;
    assert(b0 * c1 * a1 <= c0 * b1 * a1) by (nonlinear_arith)
        requires
            b0 * c1 <= c0 * b1,
            a1 > 0,
    ;
    assert(a0 * c1 <= c0 * a1) by (nonlinear_arith)
        requires
            a0 * b1 * c1 <= b0 * a1 * c1,
            b0 * c1 * a1 <= c0 * b1 * a1,
            b1 > 0,
    ;
    if a0 * b1 < b0 * a1 {
        assert(a0 * c1 < c0 * a1) by (nonlinear_arith)
            requires
                a0 * b1 < b0 * a1,
                b0 * c1 <= c0 * b1,
                a1 > 0,
                b1 > 0,
                c1 > 0,
        ;
    }
    if b0 * c1 < c0 * b1 {
        assert(a0 * c1 < c0 * a1) by (nonlinear_arith)
            requires
                a0 * b1 <= b0 * a1,
                b0 * c1 < c0 * b1,
                a1 > 0,
                b1 > 0,
                c1 > 0,
        ;
    }
}

/// `bary_before` is a strict total order on slots.
proof fn lemma_bary_order(items: Seq<usize>, neighbors: Seq<Seq<usize>>, pos: Seq<usize>, c1: int, c2: int, c3: int)
    ensures
        bary_before(items, neighbors, pos, c1, c2) && bary_before(items, neighbors, pos, c2, c3)
            ==> bary_before(items, neighbors, pos, c1, c3),
        c1 != c2 ==> bary_before(items, neighbors, pos, c1, c2) || bary_before(items, neighbors, pos, c2, c1),
        !bary_before(items, neighbors, pos, c1, c1),
{
    let k1 = bary_key(items, neighbors, pos, c1);
    let k2 = bary_key(items, neighbors, pos, c2);
    let k3 = bary_key(items, neighbors, pos, c3);
    assert(k1.1 > 0 && k2.1 > 0 && k3.1 > 0);
    if bary_before(items, neighbors, pos, c1, c2) && bary_before(items, neighbors, pos, c2, c3) {
        lemma_fraction_order(k1.0, k1.1, k2.0, k2.1, k3.0, k3.1);
    }
}


/// The contents of each neighbour list.
pub open spec fn rows_view(v: Seq<Vec<usize>>) -> Seq<Seq<usize>> {
    Seq::new(v.len(), |i: int| v[i]@)
}

/// What the barycenter keys need to be computed exactly in machine words.
pub open spec fn bary_ready(neighbors: Seq<Seq<usize>>, pos: Seq<usize>) -> bool {
    &&& forall|i: int|
        #![trigger neighbors[i]]
        0 <= i < neighbors.len() ==> neighbors[i].len() <= u32::MAX && forall|j: int|
            0 <= j < neighbors[i].len() ==> #[trigger] neighbors[i][j] < pos.len()
    &&& forall|p: int| #![trigger pos[p]] 0 <= p < pos.len() ==> pos[p] <= u32::MAX
}

proof fn lemma_pos_sum_bound(ns: Seq<usize>, pos: Seq<usize>)
    requires
        forall|j: int| 0 <= j < ns.len() ==> #[trigger] ns[j] < pos.len(),
        forall|p: int| #![trigger pos[p]] 0 <= p < pos.len() ==> pos[p] <= u32::MAX,
    ensures
        0 <= pos_sum(ns, pos) <= ns.len() * u32::MAX,
    decreases ns.len(),
{
    if ns.len() > 0 {
        assert forall|j: int| 0 <= j < ns.drop_last().len() implies #[trigger] ns.drop_last()[j] < pos.len() by {
            assert(ns.drop_last()[j] == ns[j]);
        }
        lemma_pos_sum_bound(ns.drop_last(), pos);
        assert(ns[ns.len() - 1] < pos.len());
        assert(pos[ns.last() as int] <= u32::MAX);
    }
}

fn barycenter_key(items: &Vec<usize>, neighbors: &Vec<Vec<usize>>, pos: &Vec<usize>, c: usize) -> (r: (u128, u128))
    requires
        c < items@.len(),
        items@.len() <= u32::MAX,
        items@[c as int] < neighbors@.len(),
        bary_ready(rows_view(neighbors@), pos@),
    ensures
        r.0 == bary_key(items@, rows_view(neighbors@), pos@, c as int).0,
        r.1 == bary_key(items@, rows_view(neighbors@), pos@, c as int).1,
        r.0 <= u32::MAX * u32::MAX,
        1 <= r.1 <= u32::MAX,
{
    let ns = &neighbors[items[c]];
    proof {
        assert(rows_view(neighbors@)[items@[c as int] as int] == neighbors@[items@[c as int] as int]@);
        assert(neighbors@[items@[c as int] as int]@.len() <= u32::MAX);
    }
    if ns.len() == 0 {
        (c as u128, 1)
    } else {
        let mut sum: u128 = 0;
        let mut j: usize = 0;
        while j < ns.len()
            invariant
                ns@ == neighbors@[items@[c as int] as int]@,
                bary_ready(rows_view(neighbors@), pos@),
                items@[c as int] < neighbors@.len(),
                j <= ns@.len(),
                ns@.len() <= u32::MAX,
                sum == pos_sum(ns@.take(j as int), pos@),
                sum <= j * u32::MAX,
            decreases ns@.len() - j,
        {
            proof {
                assert(rows_view(neighbors@)[items@[c as int] as int] == ns@);
                assert(ns@[j as int] < pos@.len());
                assert(ns@.take(j + 1).drop_last() =~= ns@.take(j as int));
                assert(ns@.take(j + 1).last() == ns@[j as int]);
                assert(pos@[ns@[j as int] as int] <= u32::MAX);
                assert(j * u32::MAX + u32::MAX == (j + 1) * u32::MAX) by (nonlinear_arith);
                assert((j + 1) * u32::MAX <= u32::MAX * u32::MAX) by (nonlinear_arith)
                    requires j + 1 <= u32::MAX;
            }
            sum = sum + pos[ns[j]] as u128;
            j = j + 1;
        }
        proof {
            assert(ns@.take(ns@.len() as int) =~= ns@);
            assert(ns@.len() * u32::MAX <= u32::MAX * u32::MAX) by (nonlinear_arith)
                requires ns@.len() <= u32::MAX;
        }
        (sum, ns.len() as u128)
    }
}

/// Whether slot `c1` sorts before slot `c2`, given their keys.
fn key_before(k1: (u128, u128), c1: usize, k2: (u128, u128), c2: usize) -> (r: bool)
    requires
        k1.0 <= u32::MAX * u32::MAX,
        k2.0 <= u32::MAX * u32::MAX,
        k1.1 <= u32::MAX,
        k2.1 <= u32::MAX,
    ensures
        r == (k1.0 * k2.1 < k2.0 * k1.1 || (k1.0 * k2.1 == k2.0 * k1.1 && c1 < c2)),
{
    proof {
        assert(k1.0 * k2.1 <= u32::MAX * u32::MAX * u32::MAX) by (nonlinear_arith)
            requires k1.0 <= u32::MAX * u32::MAX, k2.1 <= u32::MAX;
        assert(k2.0 * k1.1 <= u32::MAX * u32::MAX * u32::MAX) by (nonlinear_arith)
            requires k2.0 <= u32::MAX * u32::MAX, k1.1 <= u32::MAX;
    }
    let left = k1.0 * k2.1;
    let right = k2.0 * k1.1;
    left < right || (left == right && c1 < c2)
}

/// Reorders `items` by barycenter — the mean position of each item's
/// neighbours, or its own slot when it has none — keeping the current order
/// among equal barycenters. Barycenters are compared as exact fractions.
pub fn barycenter_sort(items: &mut Vec<usize>, neighbors: &Vec<Vec<usize>>, pos: &Vec<usize>)
    requires
        old(items)@.len() <= u32::MAX,
        forall|c: int| 0 <= c < old(items)@.len() ==> #[trigger] old(items)@[c] < neighbors@.len(),
        bary_ready(rows_view(neighbors@), pos@),
    ensures
        exists|perm: Seq<int>| #[trigger] barycenter_sorted(old(items)@, rows_view(neighbors@), pos@, perm, final(items)@),
        final(items)@ == spec_bary_sort(old(items)@, rows_view(neighbors@), pos@),
{
    let ghost orig = items@;
    let len = items.len();
    let mut keys: Vec<(u128, u128)> = Vec::new();
    let mut c: usize = 0;
    while c < len
        invariant
            items@ == orig,
            len == orig.len(),
            len <= u32::MAX,
            forall|c: int| 0 <= c < orig.len() ==> #[trigger] orig[c] < neighbors@.len(),
            bary_ready(rows_view(neighbors@), pos@),
            c <= len,
            keys@.len() == c,
            forall|i: int|
                #![trigger keys@[i]]
                0 <= i < c ==> keys@[i].0 == bary_key(orig, rows_view(neighbors@), pos@, i).0 && keys@[i].1
                    == bary_key(orig, rows_view(neighbors@), pos@, i).1 && keys@[i].0 <= u32::MAX * u32::MAX
                    && 1 <= keys@[i].1 <= u32::MAX,
        decreases len - c,
    {
        let key = barycenter_key(items, neighbors, pos, c);
        keys.push(key);
        c = c + 1;
    }
    // Insertion sort of the slots.
    let mut perm: Vec<usize> = Vec::new();
    let mut c: usize = 0;
    while c < len
        invariant
            items@ == orig,
            len == orig.len(),
            keys@.len() == len,
            forall|i: int|
                #![trigger keys@[i]]
                0 <= i < len ==> keys@[i].0 == bary_key(orig, rows_view(neighbors@), pos@, i).0 && keys@[i].1
                    == bary_key(orig, rows_view(neighbors@), pos@, i).1 && keys@[i].0 <= u32::MAX * u32::MAX
                    && 1 <= keys@[i].1 <= u32::MAX,
            c <= len,
            perm@.len() == c,
            perm@.no_duplicates(),
            forall|s: int| #![trigger perm@[s]] 0 <= s < c ==> perm@[s] < c,
            forall|x: usize| x < c ==> #[trigger] perm@.contains(x),
            forall|s: int, t: int|
                #![trigger perm@[s], perm@[t]]
                0 <= s < t < c ==> bary_before(orig, rows_view(neighbors@), pos@, perm@[s] as int, perm@[t] as int),
        decreases len - c,
    {
        let mut p: usize = perm.len();
        loop
            invariant
                items@ == orig,
                keys@.len() == len,
                forall|i: int|
                    #![trigger keys@[i]]
                    0 <= i < len ==> keys@[i].0 == bary_key(orig, rows_view(neighbors@), pos@, i).0 && keys@[i].1
                        == bary_key(orig, rows_view(neighbors@), pos@, i).1 && keys@[i].0 <= u32::MAX * u32::MAX
                        && 1 <= keys@[i].1 <= u32::MAX,
                c < len,
                perm@.len() == c,
                forall|s: int| #![trigger perm@[s]] 0 <= s < c ==> perm@[s] < c,
                p <= c,
                forall|s: int|
                    #![trigger perm@[s]]
                    p <= s < c ==> bary_before(orig, rows_view(neighbors@), pos@, c as int, perm@[s] as int),
            ensures
                p <= c,
                forall|s: int|
                    #![trigger perm@[s]]
                    p <= s < c ==> bary_before(orig, rows_view(neighbors@), pos@, c as int, perm@[s] as int),
                p > 0 ==> !bary_before(orig, rows_view(neighbors@), pos@, c as int, perm@[p - 1] as int),
            decreases p,
        {
            if p == 0 {
                break;
            }
            let q = perm[p - 1];
            if !key_before(keys[c], c, keys[q], q) {
                break;
            }
            p = p - 1;
        }
        let ghost before = perm@;
        perm.insert(p, c);
        proof {
            before.insert_ensures(p as int, c);
            assert(perm@ == before.insert(p as int, c));
            assert forall|s: int| #![trigger perm@[s]] 0 <= s < c + 1 implies perm@[s] < c + 1 by {
                if s < p {
                    assert(perm@[s] == before[s]);
                } else if s > p {
                    assert(perm@[s] == before[s - 1]);
                }
            }
            assert(perm@.no_duplicates()) by {
                assert forall|i: int, j: int| 0 <= i < perm@.len() && 0 <= j < perm@.len() && i != j implies perm@[i]
                    != perm@[j] by {
                    let bi = if i < p { i } else { i - 1 };
                    let bj = if j < p { j } else { j - 1 };
                    if i != p && j != p {
                        if i < p { assert(perm@[i] == before[i]); } else { assert(perm@[i] == before[i - 1]); }
                        if j < p { assert(perm@[j] == before[j]); } else { assert(perm@[j] == before[j - 1]); }
                        assert(bi != bj);
                    } else if i == p {
                        if j < p { assert(perm@[j] == before[j]); } else { assert(perm@[j] == before[j - 1]); }
                        assert(before[bj] < c);
                    } else {
                        if i < p { assert(perm@[i] == before[i]); } else { assert(perm@[i] == before[i - 1]); }
                        assert(before[bi] < c);
                    }
                }
            }
            assert forall|x: usize| x < c + 1 implies #[trigger] perm@.contains(x) by {
                if x == c {
                    assert(perm@[p as int] == c);
                } else {
                    assert(before.contains(x));
                    let i = choose|i: int| 0 <= i < before.len() && before[i] == x;
                    if i < p {
                        assert(perm@[i] == x);
                    } else {
                        assert(perm@[i + 1] == x);
                    }
                }
            }
            assert forall|s: int, t: int|
                #![trigger perm@[s], perm@[t]]
                0 <= s < t < c + 1 implies bary_before(orig, rows_view(neighbors@), pos@, perm@[s] as int, perm@[t] as int) by {
                if t < p {
                    assert(perm@[s] == before[s] && perm@[t] == before[t]);
                } else if s > p {
                    assert(perm@[s] == before[s - 1] && perm@[t] == before[t - 1]);
                } else if s == p {
                    assert(perm@[t] == before[t - 1]);
                } else if t == p {
                    assert(perm@[s] == before[s]);
                    lemma_bary_order(orig, rows_view(neighbors@), pos@, c as int, before[p - 1] as int, c as int);
                    if s < p - 1 {
                        lemma_bary_order(orig, rows_view(neighbors@), pos@, before[s] as int, before[p - 1] as int, c as int);
                    }
                } else {
                    assert(perm@[s] == before[s] && perm@[t] == before[t - 1]);
                }
            }
        }
        c = c + 1;
    }
    let ghost perm_int: Seq<int> = perm@.map_values(|x: usize| x as int);
    let mut result: Vec<usize> = Vec::new();
    let mut slot: usize = 0;
    while slot < len
        invariant
            items@ == orig,
            len == orig.len(),
            perm@.len() == len,
            forall|s: int| #![trigger perm@[s]] 0 <= s < len ==> perm@[s] < len,
            slot <= len,
            result@.len() == slot,
            forall|s: int| #![trigger result@[s]] 0 <= s < slot ==> result@[s] == orig[perm@[s] as int],
        decreases len - slot,
    {
        result.push(items[perm[slot]]);
        slot = slot + 1;
    }
    *items = result;
    proof {
        assert forall|s: int| #![trigger perm_int[s]] 0 <= s < perm_int.len() implies 0 <= perm_int[s] < orig.len()
            && items@[s] == orig[perm_int[s]] by {
            assert(result@[s] == orig[perm@[s] as int]);
        }
        assert forall|x: int| 0 <= x < orig.len() implies #[trigger] perm_int.contains(x) by {
            assert(perm@.contains(x as usize));
            let i = choose|i: int| 0 <= i < perm@.len() && perm@[i] == x as usize;
            assert(perm_int[i] == x);
        }
        assert(perm_int.no_duplicates()) by {
            assert forall|i: int, j: int| 0 <= i < perm_int.len() && 0 <= j < perm_int.len() && i != j implies perm_int[i]
                != perm_int[j] by {
                assert(perm@[i] != perm@[j]);
            }
        }
        assert(barycenter_sorted(orig, rows_view(neighbors@), pos@, perm_int, items@));
        lemma_bary_sort_unique(orig, rows_view(neighbors@), pos@, perm_int, items@);
    }
}


/// The row a barycenter sort of `items` produces.
pub open spec fn spec_bary_sort(items: Seq<usize>, neighbors: Seq<Seq<usize>>, pos: Seq<usize>) -> Seq<usize> {
    choose|row: Seq<usize>| #[trigger] sorts_to(items, neighbors, pos, row)
}

/// Some reordering puts `items` into barycenter order as `row`.
pub open spec fn sorts_to(items: Seq<usize>, neighbors: Seq<Seq<usize>>, pos: Seq<usize>, row: Seq<usize>) -> bool {
    exists|perm: Seq<int>| #[trigger] barycenter_sorted(items, neighbors, pos, perm, row)
}

/// Two orderings of the slots, both in barycenter order, agree.
proof fn lemma_slot_order_unique(
    items: Seq<usize>,
    neighbors: Seq<Seq<usize>>,
    pos: Seq<usize>,
    a: Seq<int>,
    b: Seq<int>,
)
    requires
        a.no_duplicates(),
        b.no_duplicates(),
        forall|x: int| a.contains(x) <==> b.contains(x),
        forall|s: int, t: int| #![trigger a[s], a[t]] 0 <= s < t < a.len() ==> bary_before(items, neighbors, pos, a[s], a[t]),
        forall|s: int, t: int| #![trigger b[s], b[t]] 0 <= s < t < b.len() ==> bary_before(items, neighbors, pos, b[s], b[t]),
    ensures
        a == b,
    decreases a.len(),
{
    if a.len() == 0 {
        if b.len() > 0 {
            assert(b.contains(b[0]));
        }
        assert(a =~= b);
    } else {
        assert(a.contains(a[0]));
        assert(b.contains(b[0]));
        if a[0] != b[0] {
            let k = choose|k: int| 0 <= k < a.len() && a[k] == b[0];
            let m = choose|m: int| 0 <= m < b.len() && b[m] == a[0];
            assert(k > 0 && m > 0);
            assert(bary_before(items, neighbors, pos, a[0], a[k]));
            assert(bary_before(items, neighbors, pos, b[0], b[m]));
            lemma_bary_order(items, neighbors, pos, a[0], b[0], a[0]);
        }
        let a1 = a.drop_first();
        let b1 = b.drop_first();
        assert forall|x: int| a1.contains(x) <==> b1.contains(x) by {
            if a1.contains(x) {
                let i = choose|i: int| 0 <= i < a1.len() && a1[i] == x;
                assert(a[i + 1] == x);
                assert(b.contains(x));
                let j = choose|j: int| 0 <= j < b.len() && b[j] == x;
                assert(j != 0);
                assert(b1[j - 1] == x);
            }
            if b1.contains(x) {
                let i = choose|i: int| 0 <= i < b1.len() && b1[i] == x;
                assert(b[i + 1] == x);
                assert(a.contains(x));
                let j = choose|j: int| 0 <= j < a.len() && a[j] == x;
                assert(j != 0);
                assert(a1[j - 1] == x);
            }
        }
        assert forall|s: int, t: int| #![trigger a1[s], a1[t]] 0 <= s < t < a1.len() implies bary_before(items, neighbors, pos, a1[s], a1[t]) by {
            assert(a1[s] == a[s + 1] && a1[t] == a[t + 1]);
        }
        assert forall|s: int, t: int| #![trigger b1[s], b1[t]] 0 <= s < t < b1.len() implies bary_before(items, neighbors, pos, b1[s], b1[t]) by {
            assert(b1[s] == b[s + 1] && b1[t] == b[t + 1]);
        }
        lemma_slot_order_unique(items, neighbors, pos, a1, b1);
        assert(a =~= seq![a[0]] + a1);
        assert(b =~= seq![b[0]] + b1);
    }
}

/// A barycenter sort has exactly one result.
proof fn lemma_bary_sort_unique(items: Seq<usize>, neighbors: Seq<Seq<usize>>, pos: Seq<usize>, perm: Seq<int>, row: Seq<usize>)
    requires
        barycenter_sorted(items, neighbors, pos, perm, row),
    ensures
        spec_bary_sort(items, neighbors, pos) == row,
{
    assert(sorts_to(items, neighbors, pos, row));
    let other = spec_bary_sort(items, neighbors, pos);
    assert(sorts_to(items, neighbors, pos, other));
    let p2 = choose|p: Seq<int>| #[trigger] barycenter_sorted(items, neighbors, pos, p, other);
    assert forall|x: int| perm.contains(x) <==> p2.contains(x) by {
        if perm.contains(x) {
            let s = choose|s: int| 0 <= s < perm.len() && perm[s] == x;
            assert(0 <= perm[s] < items.len());
        }
        if p2.contains(x) {
            let s = choose|s: int| 0 <= s < p2.len() && p2[s] == x;
            assert(0 <= p2[s] < items.len());
        }
    }
    lemma_slot_order_unique(items, neighbors, pos, perm, p2);
    assert forall|s: int| 0 <= s < row.len() implies row[s] == other[s] by {
        assert(perm[s] == p2[s]);
    }
    assert(row =~= other);
}

/// The slot node `v` holds in its row.
pub open spec fn slot_of(rows: Seq<Seq<usize>>, ranks: Seq<usize>, v: int) -> int {
    choose|j: int| 0 <= j < rows[ranks[v] as int].len() && rows[ranks[v] as int][j] == v as usize
}

/// Every node's slot within its row.
pub open spec fn spec_slots(rows: Seq<Seq<usize>>, ranks: Seq<usize>) -> Seq<usize> {
    Seq::new(ranks.len(), |v: int| slot_of(rows, ranks, v) as usize)
}

/// In a layering, the positions written row by row are the slots.
proof fn lemma_slots(n: nat, ranks: Seq<usize>, order: Seq<Vec<usize>>, pos: Seq<usize>)
    requires
        n <= usize::MAX,
        layered(n, ranks, order),
        pos.len() == n,
        forall|r: int, j: int|
            #![trigger order[r]@[j]]
            0 <= r < order.len() && 0 <= j < order[r]@.len() ==> pos[order[r]@[j] as int] == j,
    ensures
        pos == spec_slots(rows_view(order), ranks),
{
    let rows = rows_view(order);
    assert forall|v: int| 0 <= v < n implies pos[v] == spec_slots(rows, ranks)[v] by {
        let r = ranks[v] as int;
        assert(order[r]@.contains(v as usize));
        let j = choose|j: int| 0 <= j < order[r]@.len() && order[r]@[j] == v as usize;
        assert(rows[r] == order[r]@);
        assert(rows[ranks[v] as int][j] == v as usize);
        let k = slot_of(rows, ranks, v);
        assert(0 <= k < rows[r].len() && rows[r][k] == v as usize);
        assert(order[r]@.no_duplicates());
        assert(k == j);
        assert(pos[order[r]@[j] as int] == j);
    }
    assert(pos =~= spec_slots(rows, ranks));
}

/// The downward sweep: every row but the first sorted against the
/// predecessors' slots from before the sweep.
pub open spec fn down_sweep(rows: Seq<Seq<usize>>, ranks: Seq<usize>, preds: Seq<Seq<usize>>) -> Seq<Seq<usize>> {
    let pos = spec_slots(rows, ranks);
    Seq::new(rows.len(), |r: int| if r == 0 { rows[0] } else { spec_bary_sort(rows[r], preds, pos) })
}

/// The upward sweep from row `r - 1` down to row 0, each row sorted
/// against the successors' current slots.
pub open spec fn up_sweep(rows: Seq<Seq<usize>>, ranks: Seq<usize>, succs: Seq<Seq<usize>>, r: int) -> Seq<Seq<usize>>
    decreases r,
{
    if r <= 0 {
        rows
    } else {
        let next = rows.update(r - 1, spec_bary_sort(rows[r - 1], succs, spec_slots(rows, ranks)));
        up_sweep(next, ranks, succs, r - 1)
    }
}

/// One round: down against predecessors, then up against successors.
pub open spec fn sweep_round(rows: Seq<Seq<usize>>, ranks: Seq<usize>, preds: Seq<Seq<usize>>, succs: Seq<Seq<usize>>) -> Seq<Seq<usize>> {
    let down = down_sweep(rows, ranks, preds);
    up_sweep(down, ranks, succs, down.len() - 1)
}

/// `k` rounds of sweeps.
pub open spec fn swept(rows: Seq<Seq<usize>>, ranks: Seq<usize>, preds: Seq<Seq<usize>>, succs: Seq<Seq<usize>>, k: nat) -> Seq<Seq<usize>>
    decreases k,
{
    if k == 0 {
        rows
    } else {
        sweep_round(swept(rows, ranks, preds, succs, (k - 1) as nat), ranks, preds, succs)
    }
}

/// The nodes below `m` of rank `r`, in index order.
pub open spec fn rank_row(ranks: Seq<usize>, r: int, m: int) -> Seq<usize>
    decreases m,
{
    if m <= 0 {
        Seq::empty()
    } else {
        rank_row(ranks, r, m - 1) + if ranks[m - 1] == r {
            seq![(m - 1) as usize]
        } else {
            Seq::empty()
        }
    }
}

/// The rows before any sweep: each rank's nodes in index order.
pub open spec fn initial_rows(ranks: Seq<usize>, count: int) -> Seq<Seq<usize>> {
    Seq::new(count as nat, |r: int| rank_row(ranks, r, ranks.len() as int))
}

/// `order` lists every node `0..n` exactly once, in the row of its rank.
pub open spec fn layered(n: nat, ranks: Seq<usize>, order: Seq<Vec<usize>>) -> bool {
    &&& ranks.len() == n
    &&& forall|r: int, j: int|
        #![trigger order[r]@[j]]
        0 <= r < order.len() && 0 <= j < order[r]@.len() ==> order[r]@[j] < n && ranks[order[r]@[j] as int]
            == r
    &&& forall|r: int| #![trigger order[r]] 0 <= r < order.len() ==> order[r]@.no_duplicates()
    &&& forall|v: int|
        #![trigger ranks[v]]
        0 <= v < n ==> ranks[v] < order.len() && order[ranks[v] as int]@.contains(v as usize)
}

/// Every row of a layering holds at most `n` nodes.
proof fn lemma_row_bound(n: nat, ranks: Seq<usize>, order: Seq<Vec<usize>>, r: int)
    requires
        layered(n, ranks, order),
        0 <= r < order.len(),
    ensures
        order[r]@.len() <= n,
{
    assert forall|j: int| 0 <= j < order[r]@.len() implies #[trigger] order[r]@[j] < n by {}
    lemma_distinct_below(order[r]@, n);
}

/// Records each node's slot within its row.
fn write_pos(n: usize, ranks: &Vec<usize>, order: &Vec<Vec<usize>>, pos: &mut Vec<usize>)
    requires
        layered(n as nat, ranks@, order@),
        old(pos)@.len() == n,
        forall|v: int| #![trigger old(pos)@[v]] 0 <= v < n ==> old(pos)@[v] <= n,
    ensures
        final(pos)@.len() == n,
        forall|r: int, j: int|
            #![trigger order@[r]@[j]]
            0 <= r < order@.len() && 0 <= j < order@[r]@.len() ==> final(pos)@[order@[r]@[j] as int] == j,
        forall|v: int| #![trigger final(pos)@[v]] 0 <= v < n ==> final(pos)@[v] <= n,
        final(pos)@ == spec_slots(rows_view(order@), ranks@),
{
    let mut r: usize = 0;
    while r < order.len()
        invariant
            layered(n as nat, ranks@, order@),
            pos@.len() == n,
            r <= order@.len(),
            forall|r2: int, j: int|
                #![trigger order@[r2]@[j]]
                0 <= r2 < r && 0 <= j < order@[r2]@.len() ==> pos@[order@[r2]@[j] as int] == j,
            forall|v: int| #![trigger pos@[v]] 0 <= v < n ==> pos@[v] <= n,
        decreases order@.len() - r,
    {
        proof {
            lemma_row_bound(n as nat, ranks@, order@, r as int);
        }
        let mut j: usize = 0;
        while j < order[r].len()
            invariant
                layered(n as nat, ranks@, order@),
                pos@.len() == n,
                r < order@.len(),
                j <= order@[r as int]@.len(),
                order@[r as int]@.len() <= n,
                forall|r2: int, j2: int|
                    #![trigger order@[r2]@[j2]]
                    0 <= r2 < r && 0 <= j2 < order@[r2]@.len() ==> pos@[order@[r2]@[j2] as int] == j2,
                forall|j2: int|
                    #![trigger order@[r as int]@[j2]]
                    0 <= j2 < j ==> pos@[order@[r as int]@[j2] as int] == j2,
                forall|v: int| #![trigger pos@[v]] 0 <= v < n ==> pos@[v] <= n,
            decreases order@[r as int]@.len() - j,
        {
            let v = order[r][j];
            let ghost before = pos@;
            pos.set(v, j);
            proof {
                assert forall|r2: int, j2: int|
                    #![trigger order@[r2]@[j2]]
                    0 <= r2 < r && 0 <= j2 < order@[r2]@.len() implies pos@[order@[r2]@[j2] as int] == j2 by {
                    assert(ranks@[order@[r2]@[j2] as int] == r2);
                    assert(ranks@[v as int] == r);
                    assert(before[order@[r2]@[j2] as int] == j2);
                }
                assert forall|j2: int|
                    #![trigger order@[r as int]@[j2]]
                    0 <= j2 < j + 1 implies pos@[order@[r as int]@[j2] as int] == j2 by {
                    if j2 < j {
                        assert(order@[r as int]@.no_duplicates());
                        assert(order@[r as int]@[j2] != order@[r as int]@[j as int]);
                        assert(before[order@[r as int]@[j2] as int] == j2);
                    }
                }
            }
            j = j + 1;
        }
        r = r + 1;
    }
    proof {
        lemma_slots(n as nat, ranks@, order@, pos@);
    }
}

/// A reordering of a row keeps the layering.
proof fn lemma_reorder_row(
    n: nat,
    ranks: Seq<usize>,
    order: Seq<Vec<usize>>,
    r: int,
    row: Seq<usize>,
    neighbors: Seq<Seq<usize>>,
    pos: Seq<usize>,
    new_order: Seq<Vec<usize>>,
)
    requires
        layered(n, ranks, order),
        0 <= r < order.len(),
        exists|perm: Seq<int>| #[trigger] barycenter_sorted(order[r]@, neighbors, pos, perm, row),
        new_order.len() == order.len(),
        new_order[r]@ == row,
        forall|r2: int| #![trigger new_order[r2]] 0 <= r2 < order.len() && r2 != r ==> new_order[r2] == order[r2],
    ensures
        layered(n, ranks, new_order),
{
    let perm = choose|perm: Seq<int>| #[trigger] barycenter_sorted(order[r]@, neighbors, pos, perm, row);
    let old_row = order[r]@;
    assert forall|r2: int, j: int|
        #![trigger new_order[r2]@[j]]
        0 <= r2 < new_order.len() && 0 <= j < new_order[r2]@.len() implies new_order[r2]@[j] < n && ranks[
        new_order[r2]@[j] as int] == r2 by {
        if r2 == r {
            assert(row[j] == old_row[perm[j]]);
            assert(order[r]@[perm[j]] < n);
        } else {
            assert(new_order[r2] == order[r2]);
        }
    }
    assert forall|r2: int| #![trigger new_order[r2]] 0 <= r2 < new_order.len() implies new_order[r2]@.no_duplicates() by {
        if r2 == r {
            assert forall|i: int, j: int| 0 <= i < row.len() && 0 <= j < row.len() && i != j implies row[i]
                != row[j] by {
                assert(perm[i] != perm[j]);
                assert(row[i] == old_row[perm[i]] && row[j] == old_row[perm[j]]);
                assert(0 <= perm[i] < old_row.len() && 0 <= perm[j] < old_row.len());
            }
        } else {
            assert(new_order[r2] == order[r2]);
        }
    }
    assert forall|v: int|
        #![trigger ranks[v]]
        0 <= v < n implies ranks[v] < new_order.len() && new_order[ranks[v] as int]@.contains(v as usize) by {
        if ranks[v] == r {
            let c = choose|c: int| 0 <= c < old_row.len() && old_row[c] == v as usize;
            assert(perm.contains(c));
            let s = choose|s: int| 0 <= s < perm.len() && perm[s] == c;
            assert(row[s] == v as usize);
        } else {
            assert(new_order[ranks[v] as int] == order[ranks[v] as int]);
        }
    }
}


/// The rows of a layering are exactly the ranks in use: one per rank up to
/// the highest, which is occupied.
pub open spec fn rows_fit(ranks: Seq<usize>, rows: int) -> bool {
    &&& forall|v: int| #![trigger ranks[v]] 0 <= v < ranks.len() ==> ranks[v] < rows
    &&& rows == 1 || exists|v: int| 0 <= v < ranks.len() && #[trigger] ranks[v] == rows - 1
}

/// Groups nodes into their ranks and reduces crossings with four rounds of
/// barycenter sweeps: down the rows against predecessors, then up against
/// successors.
pub fn order_ranks(n: usize, arcs: &Vec<(usize, usize)>, ranks: &Vec<usize>) -> (order: Vec<Vec<usize>>)
    requires
        arcs_within(n as nat, arcs@),
        ranks@.len() == n,
        forall|v: int| 0 <= v < n ==> #[trigger] ranks@[v] < usize::MAX,
        n <= u32::MAX,
        arcs@.len() <= u32::MAX,
    ensures
        layered(n as nat, ranks@, order@),
        rows_fit(ranks@, order@.len() as int),
        rows_view(order@) == swept(
            initial_rows(ranks@, order@.len() as int),
            ranks@,
            Seq::new(n as nat, |v: int| sources_into(arcs@, v)),
            Seq::new(n as nat, |v: int| targets_from(arcs@, v)),
            4,
        ),
{
    let mut max_rank: usize = 0;
    let mut i: usize = 0;
    while i < n
        invariant
            i <= n,
            ranks@.len() == n,
            forall|v: int| 0 <= v < n ==> #[trigger] ranks@[v] < usize::MAX,
            forall|v: int| 0 <= v < i ==> #[trigger] ranks@[v] <= max_rank,
            max_rank == 0 || exists|v: int| 0 <= v < i && #[trigger] ranks@[v] == max_rank,
            max_rank < usize::MAX,
        decreases n - i,
    {
        if ranks[i] > max_rank {
            max_rank = ranks[i];
        }
        i = i + 1;
    }
    let mut order: Vec<Vec<usize>> = Vec::new();
    let mut r: usize = 0;
    while r <= max_rank
        invariant
            r <= max_rank + 1,
            max_rank < usize::MAX,
            n <= u32::MAX,
            order@.len() == r,
            forall|x: int| #![trigger order@[x]] 0 <= x < r ==> order@[x]@ == Seq::<usize>::empty(),
        decreases max_rank + 1 - r,
    {
        order.push(Vec::new());
        r = r + 1;
    }
    let mut i: usize = 0;
    while i < n
        invariant
            i <= n,
            ranks@.len() == n,
            forall|v: int| 0 <= v < n ==> #[trigger] ranks@[v] <= max_rank,
            order@.len() == max_rank + 1,
            forall|r: int, j: int|
                #![trigger order@[r]@[j]]
                0 <= r < order@.len() && 0 <= j < order@[r]@.len() ==> order@[r]@[j] < i
                    && ranks@[order@[r]@[j] as int] == r,
            forall|r: int| #![trigger order@[r]] 0 <= r < order@.len() ==> order@[r]@.no_duplicates(),
            forall|v: int|
                #![trigger ranks@[v]]
                0 <= v < i ==> order@[ranks@[v] as int]@.contains(v as usize),
            forall|x: int| #![trigger order@[x]] 0 <= x < order@.len() ==> order@[x]@ == rank_row(ranks@, x, i as int),
        decreases n - i,
    {
        let ri = ranks[i];
        let ghost before = order@;
        order[ri].push(i);
        proof {
            assert forall|r: int, j: int|
                #![trigger order@[r]@[j]]
                0 <= r < order@.len() && 0 <= j < order@[r]@.len() implies order@[r]@[j] < i + 1
                && ranks@[order@[r]@[j] as int] == r by {
                if r != ri || j < before[r]@.len() {
                    assert(order@[r]@[j] == before[r]@[j]);
                }
            }
            assert forall|r: int| #![trigger order@[r]] 0 <= r < order@.len() implies order@[r]@.no_duplicates() by {
                if r == ri {
                    assert forall|a: int, b: int|
                        0 <= a < order@[r]@.len() && 0 <= b < order@[r]@.len() && a != b implies order@[r]@[a]
                        != order@[r]@[b] by {
                        if a < before[r]@.len() {
                            assert(order@[r]@[a] == before[r]@[a]);
                            assert(before[r]@[a] < i);
                        }
                        if b < before[r]@.len() {
                            assert(order@[r]@[b] == before[r]@[b]);
                            assert(before[r]@[b] < i);
                        }
                    }
                } else {
                    assert(order@[r] == before[r]);
                }
            }
            assert forall|v: int|
                #![trigger ranks@[v]]
                0 <= v < i + 1 implies order@[ranks@[v] as int]@.contains(v as usize) by {
                if v == i {
                    assert(order@[ri as int]@[before[ri as int]@.len() as int] == i);
                } else {
                    let rv = ranks@[v] as int;
                    assert(before[rv]@.contains(v as usize));
                    let j = choose|j: int| 0 <= j < before[rv]@.len() && before[rv]@[j] == v as usize;
                    assert(order@[rv]@[j] == v as usize);
                }
            }
            assert forall|x: int| #![trigger order@[x]] 0 <= x < order@.len() implies order@[x]@ == rank_row(ranks@, x, i + 1) by {
                if x == ri {
                    assert(order@[x]@ =~= before[x]@.push(i));
                } else {
                    assert(order@[x] == before[x]);
                }
            }
        }
        i = i + 1;
    }
    let ghost initial = rows_view(order@);
    proof {
        assert(initial =~= initial_rows(ranks@, order@.len() as int));
    }
    proof {
        assert(rows_fit(ranks@, order@.len() as int));
    }
    let (preds, succs) = neighbor_lists(n, arcs);
    let mut pos: Vec<usize> = Vec::new();
    let mut i: usize = 0;
    while i < n
        invariant
            i <= n,
            pos@.len() == i,
            forall|v: int| #![trigger pos@[v]] 0 <= v < i ==> pos@[v] == 0,
        decreases n - i,
    {
        pos.push(0);
        i = i + 1;
    }
    write_pos(n, ranks, &order, &mut pos);
    proof {
        assert forall|i: int| #![trigger preds@[i]] 0 <= i < preds@.len() implies preds@[i]@.len() <= u32::MAX
            && forall|j: int| 0 <= j < preds@[i]@.len() ==> #[trigger] preds@[i]@[j] < pos@.len() by {
            lemma_sources_within(arcs@, n as nat, i);
        }
        assert forall|i: int| #![trigger succs@[i]] 0 <= i < succs@.len() implies succs@[i]@.len() <= u32::MAX
            && forall|j: int| 0 <= j < succs@[i]@.len() ==> #[trigger] succs@[i]@[j] < pos@.len() by {
            lemma_targets_within(arcs@, n as nat, i);
            lemma_targets_len(arcs@, i);
        }
    }
    let ghost preds_rows = rows_view(preds@);
    let ghost succs_rows = rows_view(succs@);
    let mut round: usize = 0;
    while round < 4
        invariant
            layered(n as nat, ranks@, order@),
            rows_fit(ranks@, order@.len() as int),
            n <= u32::MAX,
            preds@.len() == n && succs@.len() == n,
            preds_rows == rows_view(preds@),
            succs_rows == rows_view(succs@),
            pos@.len() == n,
            forall|v: int| #![trigger pos@[v]] 0 <= v < n ==> pos@[v] <= n,
            forall|i: int| #![trigger preds@[i]] 0 <= i < preds@.len() ==> preds@[i]@.len() <= u32::MAX
                && forall|j: int| 0 <= j < preds@[i]@.len() ==> #[trigger] preds@[i]@[j] < n,
            forall|i: int| #![trigger succs@[i]] 0 <= i < succs@.len() ==> succs@[i]@.len() <= u32::MAX
                && forall|j: int| 0 <= j < succs@[i]@.len() ==> #[trigger] succs@[i]@[j] < n,
            round <= 4,
            pos@ == spec_slots(rows_view(order@), ranks@),
            rows_view(order@) == swept(initial, ranks@, preds_rows, succs_rows, round as nat),
        decreases 4 - round,
    {
        let ghost start = rows_view(order@);
        let ghost start_pos = pos@;
        let mut r: usize = 1;
        while r < order.len()
            invariant
                layered(n as nat, ranks@, order@),
                rows_fit(ranks@, order@.len() as int),
                n <= u32::MAX,
                preds@.len() == n,
                preds_rows == rows_view(preds@),
                pos@.len() == n,
                forall|v: int| #![trigger pos@[v]] 0 <= v < n ==> pos@[v] <= n,
                forall|i: int| #![trigger preds@[i]] 0 <= i < preds@.len() ==> preds@[i]@.len() <= u32::MAX
                    && forall|j: int| 0 <= j < preds@[i]@.len() ==> #[trigger] preds@[i]@[j] < n,
                1 <= r <= order@.len(),
                start.len() == order@.len(),
                pos@ == start_pos,
                start_pos == spec_slots(start, ranks@),
                rows_view(order@) == Seq::new(
                    start.len(),
                    |x: int| if 1 <= x < r { spec_bary_sort(start[x], preds_rows, start_pos) } else { start[x] },
                ),
            decreases order@.len() - r,
        {
            proof {
                lemma_row_bound(n as nat, ranks@, order@, r as int);
            }
            let ghost before = order@;
            barycenter_sort(&mut order[r], &preds, &pos);
            proof {
                lemma_reorder_row(n as nat, ranks@, before, r as int, order@[r as int]@, rows_view(preds@), pos@, order@);
                assert(rows_view(before)[r as int] == start[r as int]);
                assert(rows_view(order@) =~= Seq::new(
                    start.len(),
                    |x: int| if 1 <= x < r + 1 { spec_bary_sort(start[x], preds_rows, start_pos) } else { start[x] },
                )) by {
                    assert forall|x: int| 0 <= x < start.len() implies rows_view(order@)[x] == (if 1 <= x < r + 1 {
                        spec_bary_sort(start[x], preds_rows, start_pos)
                    } else {
                        start[x]
                    }) by {
                        if x != r {
                            assert(order@[x] == before[x]);
                            assert(rows_view(before)[x] == before[x]@);
                        } else {
                            assert(rows_view(before)[x] == before[x]@);
                            assert(before[x]@ == start[x]);
                            assert(order@[x]@ == spec_bary_sort(start[x], preds_rows, start_pos));
                        }
                    }
                }
            }
            r = r + 1;
        }
        proof {
            assert(rows_view(order@) =~= down_sweep(start, ranks@, preds_rows));
        }
        write_pos(n, ranks, &order, &mut pos);
        let ghost target = sweep_round(start, ranks@, preds_rows, succs_rows);
        let mut r: usize = order.len() - 1;
        while r > 0
            invariant
                layered(n as nat, ranks@, order@),
                rows_fit(ranks@, order@.len() as int),
                r < order@.len(),
                n <= u32::MAX,
                succs@.len() == n,
                succs_rows == rows_view(succs@),
                pos@.len() == n,
                forall|v: int| #![trigger pos@[v]] 0 <= v < n ==> pos@[v] <= n,
                forall|i: int| #![trigger succs@[i]] 0 <= i < succs@.len() ==> succs@[i]@.len() <= u32::MAX
                    && forall|j: int| 0 <= j < succs@[i]@.len() ==> #[trigger] succs@[i]@[j] < n,
                pos@ == spec_slots(rows_view(order@), ranks@),
                up_sweep(rows_view(order@), ranks@, succs_rows, r as int) == target,
            decreases r,
        {
            r = r - 1;
            proof {
                lemma_row_bound(n as nat, ranks@, order@, r as int);
            }
            let ghost before = order@;
            barycenter_sort(&mut order[r], &succs, &pos);
            proof {
                lemma_reorder_row(n as nat, ranks@, before, r as int, order@[r as int]@, rows_view(succs@), pos@, order@);
                assert(rows_view(order@) =~= rows_view(before).update(
                    r as int,
                    spec_bary_sort(rows_view(before)[r as int], succs_rows, spec_slots(rows_view(before), ranks@)),
                )) by {
                    assert forall|x: int| 0 <= x < order@.len() && x != r implies rows_view(order@)[x] == rows_view(before)[x] by {
                        assert(order@[x] == before[x]);
                    }
                }
            }
            write_pos(n, ranks, &order, &mut pos);
        }
        proof {
            assert(rows_view(order@) == target);
        }
        round = round + 1;
    }
    proof {
        assert(rows_view(preds@) =~= Seq::new(n as nat, |v: int| sources_into(arcs@, v)));
        assert(rows_view(succs@) =~= Seq::new(n as nat, |v: int| targets_from(arcs@, v)));
    }
    order
}


// ---------------------------------------------------------------------------
// From identifiers to a layering
// ---------------------------------------------------------------------------

/// The index a node id resolves to: its last occurrence, as a map built by
/// inserting the nodes in order would hold it.
pub open spec fn index_of(ids: Seq<String>, id: Seq<char>) -> Option<int>
    decreases ids.len(),
{
    if ids.len() == 0 {
        None
    } else if ids.last()@ == id {
        Some(ids.len() - 1)
    } else {
        index_of(ids.drop_last(), id)
    }
}

/// The arc an edge becomes: both ends known and distinct, or nothing.
pub open spec fn resolved(ids: Seq<String>, edge: (String, String)) -> Option<(usize, usize)> {
    match (index_of(ids, edge.0@), index_of(ids, edge.1@)) {
        (Some(s), Some(t)) => if s != t {
            Some((s as usize, t as usize))
        } else {
            None
        },
        _ => None,
    }
}

/// Lexicographic order on arcs.
pub open spec fn arc_lt(a: (usize, usize), b: (usize, usize)) -> bool {
    a.0 < b.0 || (a.0 == b.0 && a.1 < b.1)
}

/// Strictly increasing, so sorted with no repeats.
pub open spec fn strictly_sorted(arcs: Seq<(usize, usize)>) -> bool {
    forall|i: int, j: int| 0 <= i < j < arcs.len() ==> arc_lt(#[trigger] arcs[i], #[trigger] arcs[j])
}

proof fn lemma_index_of(ids: Seq<String>, id: Seq<char>)
    ensures
        index_of(ids, id) matches Some(i) ==> 0 <= i < ids.len() && ids[i]@ == id,
    decreases ids.len(),
{
    if ids.len() > 0 && ids.last()@ != id {
        lemma_index_of(ids.drop_last(), id);
    }
}

/// The last index of `id` in `ids`.
fn find_index(ids: &Vec<String>, id: &String) -> (r: Option<usize>)
    ensures
        r matches Some(i) ==> index_of(ids@, id@) == Some(i as int),
        r is None ==> index_of(ids@, id@) is None,
{
    let mut i: usize = ids.len();
    proof {
        assert(ids@.take(ids@.len() as int) =~= ids@);
    }
    while i > 0
        invariant
            i <= ids@.len(),
            index_of(ids@, id@) == index_of(ids@.take(i as int), id@),
        decreases i,
    {
        proof {
            assert(ids@.take(i as int).drop_last() =~= ids@.take(i - 1));
            assert(ids@.take(i as int).last() == ids@[i - 1]);
        }
        if ids[i - 1] == *id {
            return Some(i - 1);
        }
        i = i - 1;
    }
    proof {
        assert(ids@.take(0) =~= Seq::<String>::empty());
    }
    None
}

/// Put `a` into a strictly sorted list of arcs, unless it is already there.
fn insert_arc(arcs: &mut Vec<(usize, usize)>, a: (usize, usize))
    requires
        strictly_sorted(old(arcs)@),
    ensures
        strictly_sorted(final(arcs)@),
        final(arcs)@.len() <= old(arcs)@.len() + 1,
        forall|b: (usize, usize)| #[trigger] final(arcs)@.contains(b) <==> (old(arcs)@.contains(b) || b == a),
{
    let ghost before = arcs@;
    let mut p: usize = 0;
    while p < arcs.len() && (arcs[p].0 < a.0 || (arcs[p].0 == a.0 && arcs[p].1 < a.1))
        invariant
            arcs@ == before,
            p <= arcs@.len(),
            forall|i: int| 0 <= i < p ==> arc_lt(#[trigger] arcs@[i], a),
        decreases arcs@.len() - p,
    {
        proof {
            assert(arc_lt(arcs@[p as int], a));
        }
        p = p + 1;
    }
    if p < arcs.len() && arcs[p].0 == a.0 && arcs[p].1 == a.1 {
        proof {
            assert(arcs@[p as int] == a);
        }
        return;
    }
    arcs.insert(p, a);
    proof {
        before.insert_ensures(p as int, a);
        if p < before.len() {
            assert(!arc_lt(before[p as int], a));
            assert(before[p as int] != a);
            assert(arc_lt(a, before[p as int]));
        }
        assert forall|i: int, j: int| 0 <= i < j < arcs@.len() implies arc_lt(
            #[trigger] arcs@[i],
            #[trigger] arcs@[j],
        ) by {
            if j < p {
                assert(arcs@[i] == before[i] && arcs@[j] == before[j]);
            } else if i > p {
                assert(arcs@[i] == before[i - 1] && arcs@[j] == before[j - 1]);
            } else if i == p {
                assert(arcs@[j] == before[j - 1]);
                if j - 1 > p {
                    assert(arc_lt(before[p as int], before[j - 1]));
                }
            } else if j == p {
                assert(arcs@[i] == before[i]);
            } else {
                assert(arcs@[i] == before[i] && arcs@[j] == before[j - 1]);
                assert(arc_lt(before[i], a));
            }
        }
        assert forall|b: (usize, usize)| #[trigger] arcs@.contains(b) <==> (before.contains(b) || b == a) by {
            if arcs@.contains(b) {
                let i = choose|i: int| 0 <= i < arcs@.len() && arcs@[i] == b;
                if i < p {
                    assert(before[i] == b);
                } else if i > p {
                    assert(before[i - 1] == b);
                }
            }
            if before.contains(b) {
                let i = choose|i: int| 0 <= i < before.len() && before[i] == b;
                if i < p {
                    assert(arcs@[i] == b);
                } else {
                    assert(arcs@[i + 1] == b);
                }
            }
            if b == a {
                assert(arcs@[p as int] == a);
            }
        }
    }
}

/// The edges as arcs between node indices: unknown ends and self-loops
/// dropped, sorted, each arc once.
fn resolve_arcs(ids: &Vec<String>, edges: &Vec<(String, String)>) -> (arcs: Vec<(usize, usize)>)
    ensures
        strictly_sorted(arcs@),
        arcs@.len() <= edges@.len(),
        arcs_within(ids@.len(), arcs@),
        loop_free(arcs@),
        forall|a: (usize, usize)|
            #[trigger] arcs@.contains(a) <==> exists|e: int| 0 <= e < edges@.len() && #[trigger] resolved(ids@, edges@[e]) == Some(a),
{
    let mut arcs: Vec<(usize, usize)> = Vec::new();
    let mut e: usize = 0;
    while e < edges.len()
        invariant
            e <= edges@.len(),
            strictly_sorted(arcs@),
            arcs@.len() <= e,
            forall|a: (usize, usize)|
                #[trigger] arcs@.contains(a) <==> exists|e2: int| 0 <= e2 < e && #[trigger] resolved(ids@, edges@[e2]) == Some(a),
        decreases edges@.len() - e,
    {
        let s = find_index(ids, &edges[e].0);
        let t = find_index(ids, &edges[e].1);
        let ghost before = arcs@;
        proof {
            lemma_index_of(ids@, edges@[e as int].0@);
            lemma_index_of(ids@, edges@[e as int].1@);
        }
        let mut added: Option<(usize, usize)> = None;
        match (s, t) {
            (Some(s), Some(t)) => {
                if s != t {
                    insert_arc(&mut arcs, (s, t));
                    added = Some((s, t));
                }
            },
            _ => {},
        }
        proof {
            assert(resolved(ids@, edges@[e as int]) == added);
            assert forall|b: (usize, usize)|
                #[trigger] arcs@.contains(b) <==> exists|e2: int|
                    0 <= e2 < e + 1 && #[trigger] resolved(ids@, edges@[e2]) == Some(b) by {
                if exists|e2: int| 0 <= e2 < e + 1 && #[trigger] resolved(ids@, edges@[e2]) == Some(b) {
                    let e2 = choose|e2: int| 0 <= e2 < e + 1 && #[trigger] resolved(ids@, edges@[e2]) == Some(b);
                    if e2 < e {
                        assert(before.contains(b));
                    }
                }
                if before.contains(b) {
                    let e2 = choose|e2: int| 0 <= e2 < e && #[trigger] resolved(ids@, edges@[e2]) == Some(b);
                    assert(0 <= e2 < e + 1);
                }
            }
        }
        e = e + 1;
    }
    let count = ids.len();
    proof {
        assert forall|k: int| 0 <= k < arcs@.len() implies (#[trigger] arcs@[k]).0 < ids@.len()
            && arcs@[k].1 < ids@.len() && arcs@[k].0 != arcs@[k].1 by {
            assert(arcs@.contains(arcs@[k]));
            let e2 = choose|e2: int| 0 <= e2 < edges@.len() && #[trigger] resolved(ids@, edges@[e2]) == Some(arcs@[k]);
            lemma_index_of(ids@, edges@[e2].0@);
            lemma_index_of(ids@, edges@[e2].1@);
            let si = index_of(ids@, edges@[e2].0@).unwrap();
            let ti = index_of(ids@, edges@[e2].1@).unwrap();
            assert(0 <= si < count && 0 <= ti < count);
            assert(si != ti);
            assert(arcs@[k] == (si as usize, ti as usize));
        }
    }
    arcs
}

/// The discrete layout of a graph: which arcs it has, which way each
/// points once cycles are broken, the rank of every node, and the order of
/// the nodes within each rank.
pub struct Layering {
    /// The resolved edges: both ends known and distinct, sorted, each once.
    pub arcs: Vec<(usize, usize)>,
    /// `arcs` with the back edges of a depth-first search turned around.
    pub oriented: Vec<(usize, usize)>,
    /// Longest-path rank of every node over `oriented`.
    pub ranks: Vec<usize>,
    /// The nodes of each rank, in crossing-reduced order.
    pub order: Vec<Vec<usize>>,
    /// Tails of the oriented arcs entering each node.
    pub preds: Vec<Vec<usize>>,
    /// Heads of the oriented arcs leaving each node.
    pub succs: Vec<Vec<usize>>,
}

/// `g` is the layering of the graph on nodes `ids` with directed `edges`
/// between ids: the resolved arcs, sorted and each once; those arcs with the
/// back edges of the depth-first search turned round; longest-path ranks over
/// them; rows ordered by four rounds of barycenter sweeps; and each node's
/// predecessors and successors.
pub open spec fn layering_of(ids: Seq<String>, edges: Seq<(String, String)>, g: Layering) -> bool {
    &&& strictly_sorted(g.arcs@)
    &&& forall|a: (usize, usize)|
        #[trigger] g.arcs@.contains(a) <==> exists|e: int|
            0 <= e < edges.len() && #[trigger] resolved(ids, edges[e]) == Some(a)
    &&& g.oriented@.len() == g.arcs@.len()
    &&& forall|k: int|
        0 <= k < g.arcs@.len() ==> #[trigger] g.oriented@[k] == g.arcs@[k] || g.oriented@[k]
            == flipped(g.arcs@[k])
    &&& forall|k: int|
        0 <= k < g.arcs@.len() ==> #[trigger] g.oriented@[k] == oriented(
            g.arcs@[k],
            dfs_back_edges(ids.len(), g.arcs@)[k],
        )
    &&& forall|k: int|
        0 <= k < g.arcs@.len() && #[trigger] g.oriented@[k] != g.arcs@[k] ==> closes_cycle(
            g.arcs@,
            k,
        )
    &&& arcs_within(ids.len(), g.oriented@)
    &&& acyclic(ids.len(), g.oriented@)
    &&& (acyclic(ids.len(), g.arcs@) ==> g.oriented@ == g.arcs@)
    &&& g.ranks@.len() == ids.len()
    &&& longest_path_ranks(g.oriented@, g.ranks@)
    &&& layered(ids.len(), g.ranks@, g.order@)
    &&& rows_fit(g.ranks@, g.order@.len() as int)
    &&& rows_view(g.order@) == swept(
        initial_rows(g.ranks@, g.order@.len() as int),
        g.ranks@,
        Seq::new(ids.len(), |v: int| sources_into(g.oriented@, v)),
        Seq::new(ids.len(), |v: int| targets_from(g.oriented@, v)),
        4,
    )
    &&& g.preds@.len() == ids.len()
    &&& g.succs@.len() == ids.len()
    &&& forall|v: int| #![trigger g.preds@[v]] 0 <= v < ids.len() ==> g.preds@[v]@ == sources_into(g.oriented@, v)
    &&& forall|v: int| #![trigger g.succs@[v]] 0 <= v < ids.len() ==> g.succs@[v]@ == targets_from(g.oriented@, v)
}

/// Lays out the graph on nodes `ids` (by position; a repeated id resolves
/// to its last position) with directed `edges` between ids. Unknown ids and
/// self-loops are ignored, and cycles are broken.
pub fn layer_graph(ids: &Vec<String>, edges: &Vec<(String, String)>) -> (g: Layering)
    requires
        ids@.len() <= u32::MAX,
        edges@.len() <= u32::MAX,
    ensures
        layering_of(ids@, edges@, g),
{
    let n = ids.len();
    let arcs = resolve_arcs(ids, edges);
    let mut oriented: Vec<(usize, usize)> = Vec::new();
    let mut k: usize = 0;
    while k < arcs.len()
        invariant
            k <= arcs@.len(),
            oriented@ == arcs@.take(k as int),
        decreases arcs@.len() - k,
    {
        oriented.push(arcs[k]);
        k = k + 1;
        proof {
            assert(oriented@ =~= arcs@.take(k as int));
        }
    }
    proof {
        assert(oriented@ =~= arcs@);
    }
    reverse_back_edges(n, &mut oriented);
    proof {
        assert forall|k: int| 0 <= k < oriented@.len() implies (#[trigger] oriented@[k]).0 < n
            && oriented@[k].1 < n by {
            assert(arcs@[k].0 < n && arcs@[k].1 < n);
        }
    }
    let ranks = assign_ranks(n, &oriented);
    let order = order_ranks(n, &oriented, &ranks);
    let (preds, succs) = neighbor_lists(n, &oriented);
    Layering { arcs, oriented, ranks, order, preds, succs }
}

/// The arcs that the edges resolve to.
pub open spec fn resolved_arcs(ids: Seq<String>, edges: Seq<(String, String)>) -> Set<(usize, usize)> {
    Set::new(
        |a: (usize, usize)|
            exists|e: int| 0 <= e < edges.len() && #[trigger] resolved(ids, edges[e]) == Some(a),
    )
}

/// Two strictly sorted lists of arcs with the same members are the same list.
proof fn lemma_sorted_arcs_unique(a: Seq<(usize, usize)>, b: Seq<(usize, usize)>)
    requires
        strictly_sorted(a),
        strictly_sorted(b),
        forall|x: (usize, usize)| a.contains(x) <==> b.contains(x),
    ensures
        a == b,
    decreases a.len(),
{
    if a.len() == 0 {
        if b.len() > 0 {
            assert(b.contains(b[0]));
        }
        assert(a =~= b);
    } else if b.len() == 0 {
        assert(a.contains(a[0]));
    } else {
        assert(b.contains(a[0])) by {
            assert(a.contains(a[0]));
        }
        assert(a.contains(b[0])) by {
            assert(b.contains(b[0]));
        }
        let j = choose|j: int| 0 <= j < b.len() && b[j] == a[0];
        let i = choose|i: int| 0 <= i < a.len() && a[i] == b[0];
        if j > 0 {
            assert(arc_lt(b[0], b[j]));
            if i > 0 {
                assert(arc_lt(a[0], a[i]));
            }
        }
        assert(a[0] == b[0]);
        let da = a.drop_first();
        let db = b.drop_first();
        assert forall|x: (usize, usize)| da.contains(x) implies db.contains(x) by {
            let p = choose|p: int| 0 <= p < da.len() && da[p] == x;
            assert(a[p + 1] == x);
            assert(arc_lt(a[0], a[p + 1]));
            assert(a.contains(x));
            let q = choose|q: int| 0 <= q < b.len() && b[q] == x;
            assert(q != 0);
            assert(db[q - 1] == x);
        }
        assert forall|x: (usize, usize)| db.contains(x) implies da.contains(x) by {
            let p = choose|p: int| 0 <= p < db.len() && db[p] == x;
            assert(b[p + 1] == x);
            assert(arc_lt(b[0], b[p + 1]));
            assert(b.contains(x));
            let q = choose|q: int| 0 <= q < a.len() && a[q] == x;
            assert(q != 0);
            assert(da[q - 1] == x);
        }
        assert(strictly_sorted(da)) by {
            assert forall|x: int, y: int| 0 <= x < y < da.len() implies arc_lt(#[trigger] da[x], #[trigger] da[y]) by {
                assert(arc_lt(a[x + 1], a[y + 1]));
            }
        }
        assert(strictly_sorted(db)) by {
            assert forall|x: int, y: int| 0 <= x < y < db.len() implies arc_lt(#[trigger] db[x], #[trigger] db[y]) by {
                assert(arc_lt(b[x + 1], b[y + 1]));
            }
        }
        lemma_sorted_arcs_unique(da, db);
        assert forall|k: int| 0 <= k < a.len() implies a[k] == b[k] by {
            if k > 0 {
                assert(a[k] == da[k - 1] && b[k] == db[k - 1]);
            }
        }
        assert(a =~= b);
    }
}

/// A layering depends on the edges only through the arcs they resolve to:
/// edges naming an unknown node, self-loops and repeated edges, in any order,
/// change nothing.
pub proof fn layering_ignores_unresolved_edges(
    ids: Seq<String>,
    e1: Seq<(String, String)>,
    e2: Seq<(String, String)>,
    g1: Layering,
    g2: Layering,
)
    requires
        layering_of(ids, e1, g1),
        layering_of(ids, e2, g2),
        resolved_arcs(ids, e1) == resolved_arcs(ids, e2),
    ensures
        g1.arcs@ == g2.arcs@,
        g1.oriented@ == g2.oriented@,
        g1.ranks@ == g2.ranks@,
        rows_view(g1.order@) == rows_view(g2.order@),
        rows_view(g1.preds@) == rows_view(g2.preds@),
        rows_view(g1.succs@) == rows_view(g2.succs@),
{
    assert forall|x: (usize, usize)| g1.arcs@.contains(x) <==> g2.arcs@.contains(x) by {
        assert(resolved_arcs(ids, e1).contains(x) == resolved_arcs(ids, e2).contains(x));
        assert(g1.arcs@.contains(x) == resolved_arcs(ids, e1).contains(x));
        assert(g2.arcs@.contains(x) == resolved_arcs(ids, e2).contains(x));
    }
    lemma_sorted_arcs_unique(g1.arcs@, g2.arcs@);
    assert forall|k: int| 0 <= k < g1.oriented@.len() implies g1.oriented@[k] == g2.oriented@[k] by {
        assert(g1.oriented@[k] == oriented(g1.arcs@[k], dfs_back_edges(ids.len(), g1.arcs@)[k]));
        assert(g2.oriented@[k] == oriented(g2.arcs@[k], dfs_back_edges(ids.len(), g2.arcs@)[k]));
    }
    assert(g1.oriented@ =~= g2.oriented@);
    longest_path_ranks_are_unique(ids.len(), g1.oriented@, g1.ranks@, g2.ranks@);
    let l1 = g1.order@.len() as int;
    let l2 = g2.order@.len() as int;
    assert(l1 == l2) by {
        let r = g1.ranks@;
        if l1 < l2 {
            let v = choose|v: int| 0 <= v < r.len() && #[trigger] r[v] == l2 - 1;
            assert(r[v] < l1);
        } else if l2 < l1 {
            let v = choose|v: int| 0 <= v < r.len() && #[trigger] r[v] == l1 - 1;
            assert(r[v] < l2);
        }
    }
    assert(rows_view(g1.preds@) =~= rows_view(g2.preds@)) by {
        assert forall|v: int| 0 <= v < ids.len() implies rows_view(g1.preds@)[v] == rows_view(g2.preds@)[v] by {
            assert(g1.preds@[v]@ == sources_into(g1.oriented@, v));
            assert(g2.preds@[v]@ == sources_into(g2.oriented@, v));
        }
    }
    assert(rows_view(g1.succs@) =~= rows_view(g2.succs@)) by {
        assert forall|v: int| 0 <= v < ids.len() implies rows_view(g1.succs@)[v] == rows_view(g2.succs@)[v] by {
            assert(g1.succs@[v]@ == targets_from(g1.oriented@, v));
            assert(g2.succs@[v]@ == targets_from(g2.oriented@, v));
        }
    }
}

/// The barycenter of an item with neighbours is the mean position of its
/// neighbours, as a fraction with a positive denominator; so an item whose
/// neighbours all sit at one position has that position, however many there
/// are.
pub proof fn a_barycenter_is_the_mean_position(items: Seq<usize>, neighbors: Seq<Seq<usize>>, pos: Seq<usize>, c: int)
    requires
        neighbors[items[c] as int].len() > 0,
    ensures
        ({
            let ns = neighbors[items[c] as int];
            let key = bary_key(items, neighbors, pos, c);
            &&& key.1 > 0
            &&& key.0 * ns.len() == pos_sum(ns, pos) * key.1
        }),
{
}

/// In a barycenter-sorted row, items with neighbours come in order of the
/// mean position of their neighbours.
pub proof fn barycenters_ascend(items: Seq<usize>, neighbors: Seq<Seq<usize>>, pos: Seq<usize>, row: Seq<usize>)
    requires
        sorts_to(items, neighbors, pos, row),
    ensures
        forall|s: int, t: int|
            0 <= s < t < row.len() && neighbors[row[s] as int].len() > 0 && neighbors[row[t] as int].len() > 0
                ==> pos_sum(#[trigger] neighbors[row[s] as int], pos) * neighbors[row[t] as int].len() <= pos_sum(
                #[trigger] neighbors[row[t] as int],
                pos,
            ) * neighbors[row[s] as int].len(),
{
    let perm = choose|perm: Seq<int>| #[trigger] barycenter_sorted(items, neighbors, pos, perm, row);
    assert forall|s: int, t: int|
        0 <= s < t < row.len() && neighbors[row[s] as int].len() > 0 && neighbors[row[t] as int].len() > 0
            implies pos_sum(#[trigger] neighbors[row[s] as int], pos) * neighbors[row[t] as int].len() <= pos_sum(
            #[trigger] neighbors[row[t] as int],
            pos,
        ) * neighbors[row[s] as int].len() by {
        assert(bary_before(items, neighbors, pos, perm[s], perm[t]));
        assert(row[s] == items[perm[s]] && row[t] == items[perm[t]]);
    }
}

} // verus!
