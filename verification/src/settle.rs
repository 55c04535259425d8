//! Which frame gives way when a resting layout has a collision.
//!
//! When a gesture ends, the frames it moved must settle clear of the rest.
//! Whether two frames clash is the caller's geometry; given which pairs
//! clash and which frames the gesture moved, this picks the collision to
//! resolve next and the frame that makes room: the moving one, so that the
//! resting layout stays anchored.

use vstd::prelude::*;

verus! {

/// The pair `(a, b)`, `a < b`, comes before `(c, d)` in reading order.
pub open spec fn pair_before(a: int, b: int, c: int, d: int) -> bool {
    a < c || (a == c && b < d)
}

/// `clashes` is an `n` by `n` table.
pub open spec fn square(clashes: Seq<Vec<bool>>, n: nat) -> bool {
    &&& clashes.len() == n
    &&& forall|i: int| 0 <= i < n ==> (#[trigger] clashes[i])@.len() == n
}

/// `(a, b)` is the first clashing pair in reading order.
pub open spec fn first_clash(clashes: Seq<Vec<bool>>, a: int, b: int) -> bool {
    &&& 0 <= a < b < clashes.len()
    &&& clashes[a]@[b]
    &&& forall|c: int, d: int|
        0 <= c < d < clashes.len() && pair_before(c, d, a, b) ==> !(#[trigger] clashes[c]@[d])
}

/// No pair clashes.
pub open spec fn all_clear(clashes: Seq<Vec<bool>>) -> bool {
    forall|c: int, d: int| 0 <= c < d < clashes.len() ==> !(#[trigger] clashes[c]@[d])
}

/// Of a clashing pair, `(keeper, displaced)`: a moving frame gives way to a
/// resting one; between equals the later one gives way.
pub open spec fn giving_way(moving: Seq<bool>, a: int, b: int) -> (int, int) {
    if moving[a] && !moving[b] {
        (b, a)
    } else {
        (a, b)
    }
}

/// The first collision in order, as the frame that keeps its place and the
/// one that gives way; `None` when the layout is clear. `clashes[a][b]`
/// (read for `a < b`) says whether frames `a` and `b` come too close, and
/// `moving` which frames the gesture moved.
pub fn first_collision(clashes: &Vec<Vec<bool>>, moving: &Vec<bool>) -> (r: Option<(usize, usize)>)
    requires
        square(clashes@, clashes@.len()),
        moving@.len() == clashes@.len(),
    ensures
        r is None <==> all_clear(clashes@),
        r matches Some(pair) ==> exists|a: int, b: int|
            first_clash(clashes@, a, b) && #[trigger] giving_way(moving@, a, b) == (pair.0 as int, pair.1 as int),
{
    let n = clashes.len();
    let mut a: usize = 0;
    while a < n
        invariant
            n == clashes@.len(),
            square(clashes@, n as nat),
            moving@.len() == n,
            a <= n,
            forall|c: int, d: int| 0 <= c < d < n && c < a ==> !(#[trigger] clashes@[c]@[d]),
        decreases n - a,
    {
        let mut b: usize = a + 1;
        while b < n
            invariant
                n == clashes@.len(),
                square(clashes@, n as nat),
                moving@.len() == n,
                a < b <= n,
                forall|c: int, d: int| 0 <= c < d < n && c < a ==> !(#[trigger] clashes@[c]@[d]),
                forall|d: int| a < d < b ==> !(#[trigger] clashes@[a as int]@[d]),
            decreases n - b,
        {
            if clashes[a][b] {
                let pair = if moving[a] && !moving[b] { (b, a) } else { (a, b) };
                proof {
                    assert(first_clash(clashes@, a as int, b as int));
                    assert(giving_way(moving@, a as int, b as int) == (pair.0 as int, pair.1 as int));
                }
                return Some(pair);
            }
            b = b + 1;
        }
        a = a + 1;
    }
    None
}

/// Between a moving frame and a resting one, the moving one gives way, and
/// the pair that is resolved is the pair that clashes.
pub proof fn the_moving_frame_gives_way(moving: Seq<bool>, a: int, b: int)
    ensures
        moving[a] != moving[b] ==> moving[giving_way(moving, a, b).1] && !moving[giving_way(moving, a, b).0],
        giving_way(moving, a, b) == (a, b) || giving_way(moving, a, b) == (b, a),
{
}

} // verus!
