//! Seat-based ports: the discrete places on a node's rim where a connection
//! may attach, and how every connection end is given one of its own.
//!
//! A rim offers a whole number of seats, so a port position is an integer
//! rather than a distance: two beads sharing a seat is a countable fact, and
//! the same graph always seats the same way. Where on the screen a seat lies
//! is the caller's geometry; which seat each end takes is decided here.

use vstd::prelude::*;
use crate::types::Side;
use vstd::utf8::encode_utf8;
use vstd::set_lib::{lemma_int_range, lemma_len_subset, set_int_range};

verus! {

/// Which ends of a connection carry an arrowhead.
#[derive(Clone, Copy, Debug, Default, Eq, PartialEq, Structural)]
pub struct Arrows {
    pub start: bool,
    pub end: bool,
}

impl Arrows {
    pub fn new(start: bool, end: bool) -> (r: Arrows)
        ensures
            r.start == start,
            r.end == end,
    {
        Arrows { start, end }
    }
}

/// One end of a connection.
#[derive(Clone, Copy, Debug, Eq, PartialEq, Structural)]
pub enum Endpoint {
    Start,
    End,
}

/// The end at the other side of the connection.
pub open spec fn spec_other(endpoint: Endpoint) -> Endpoint {
    match endpoint {
        Endpoint::Start => Endpoint::End,
        Endpoint::End => Endpoint::Start,
    }
}

/// Where an end sorts among the ends of one connection: the start first.
pub open spec fn spec_order_of(endpoint: Endpoint) -> u8 {
    match endpoint {
        Endpoint::Start => 0,
        Endpoint::End => 1,
    }
}

impl Endpoint {
    pub fn other(self) -> (r: Endpoint)
        ensures
            r == spec_other(self),
    {
        match self {
            Endpoint::Start => Endpoint::End,
            Endpoint::End => Endpoint::Start,
        }
    }
}

/// The rank of an end in the tie-break between beads of one connection.
pub fn order_of(endpoint: Endpoint) -> (r: u8)
    ensures
        r == spec_order_of(endpoint),
{
    match endpoint {
        Endpoint::Start => 0,
        Endpoint::End => 1,
    }
}

/// The two ends of a connection swap under `other`, and taking the other
/// end twice comes back to where it started.
pub proof fn other_is_an_involution(endpoint: Endpoint)
    ensures
        spec_other(spec_other(endpoint)) == endpoint,
        spec_other(endpoint) != endpoint,
        spec_order_of(spec_other(endpoint)) != spec_order_of(endpoint),
{
}

/// One of the discrete places on a node's rim where a bead may rest.
///
/// `Top` and `Bottom` count their cells from the left corner, `Left` and
/// `Right` from the top corner.
#[derive(Clone, Copy, Debug, Eq, Hash, Ord, PartialEq, PartialOrd, Structural)]
pub struct PortSeat {
    pub side: Side,
    pub cell: u16,
}

impl PortSeat {
    pub fn new(side: Side, cell: u16) -> (r: PortSeat)
        ensures
            r.side == side,
            r.cell == cell,
    {
        PortSeat { side, cell }
    }
}

// ---------------------------------------------------------------------------
// The nearest empty seat
// ---------------------------------------------------------------------------

/// How many seats clockwise from `wish` to `x` on a rim of `count` seats.
pub open spec fn steps_after(count: int, wish: int, x: int) -> int {
    if x >= wish { x - wish } else { x - wish + count }
}

/// How many seats counter-clockwise from `wish` to `x`.
pub open spec fn steps_before(count: int, wish: int, x: int) -> int {
    if x <= wish { wish - x } else { wish - x + count }
}

/// How far `x` lies from `wish` around the rim, the shorter way.
pub open spec fn ring_distance(count: int, wish: int, x: int) -> int {
    let a = steps_after(count, wish, x);
    let b = steps_before(count, wish, x);
    if a <= b { a } else { b }
}

/// The place of `x` in the search from `wish`: nearer seats first, and at
/// equal distance the clockwise one first.
pub open spec fn search_rank(count: int, wish: int, x: int) -> int {
    2 * ring_distance(count, wish, x) + if steps_after(count, wish, x) <= steps_before(count, wish, x) {
        0int
    } else {
        1int
    }
}

/// The search reaches `x` before `y`.
pub open spec fn searched_before(count: int, wish: int, x: int, y: int) -> bool {
    search_rank(count, wish, x) < search_rank(count, wish, y)
}

/// The seat a wish stands for: past the last seat means the last seat.
pub open spec fn clamped_wish(count: int, wish: int) -> int {
    if wish < count { wish } else { count - 1 }
}

/// Whether some seat is still empty.
pub open spec fn has_free(occupied: Seq<bool>) -> bool {
    exists|x: int| 0 <= x < occupied.len() && !occupied[x]
}

/// `r` is what the outward search from `wish` settles on: the empty seat
/// it reaches first, or the wish itself on a full rim.
pub open spec fn is_nearest_free(occupied: Seq<bool>, wish: int, r: int) -> bool {
    let count = occupied.len() as int;
    &&& count == 0 ==> r == 0
    &&& count > 0 ==> 0 <= r < count
    &&& count > 0 && !has_free(occupied) ==> r == clamped_wish(count, wish)
    &&& has_free(occupied) ==> !occupied[r]
    &&& has_free(occupied) ==> forall|x: int|
        0 <= x < count && x != r && !occupied[x] ==> #[trigger] searched_before(
            count,
            clamped_wish(count, wish),
            r,
            x,
        )
}

/// The seat the outward search from `wish` settles on.
pub open spec fn spec_nearest_free(occupied: Seq<bool>, wish: int) -> int {
    choose|r: int| is_nearest_free(occupied, wish, r)
}

/// The search reaches no seat twice, so it settles on exactly one.
pub proof fn lemma_nearest_free_unique(occupied: Seq<bool>, wish: int, r: int)
    requires
        is_nearest_free(occupied, wish, r),
    ensures
        spec_nearest_free(occupied, wish) == r,
{
    let q = spec_nearest_free(occupied, wish);
    assert(is_nearest_free(occupied, wish, q));
    if q != r && has_free(occupied) {
        let c = occupied.len() as int;
        let w = clamped_wish(c, wish);
        assert(searched_before(c, w, r, q));
        assert(searched_before(c, w, q, r));
    }
}

/// The empty seat nearest `wish`, searched outwards in both directions so a
/// crowded rim packs around the wish rather than drifting off one way. When
/// every seat is taken the wish itself is returned: sharing a seat is better
/// than losing a bead.
pub fn nearest_free(occupied: &Vec<bool>, wish: usize) -> (r: usize)
    ensures
        is_nearest_free(occupied@, wish as int, r as int),
        r == spec_nearest_free(occupied@, wish as int),
{
    let r = search_free(occupied, wish);
    proof {
        lemma_nearest_free_unique(occupied@, wish as int, r as int);
    }
    r
}

fn search_free(occupied: &Vec<bool>, wish: usize) -> (r: usize)
    ensures
        occupied@.len() == 0 ==> r == 0,
        occupied@.len() > 0 ==> r < occupied@.len(),
        occupied@.len() > 0 && !has_free(occupied@) ==> r == clamped_wish(occupied@.len() as int, wish as int),
        has_free(occupied@) ==> !occupied@[r as int],
        has_free(occupied@) ==> forall|x: int|
            0 <= x < occupied@.len() && x != r && !occupied@[x] ==> #[trigger] searched_before(
                occupied@.len() as int,
                clamped_wish(occupied@.len() as int, wish as int),
                r as int,
                x,
            ),
{
    let count = occupied.len();
    if count == 0 {
        return 0;
    }
    let start = if wish < count - 1 { wish } else { count - 1 };
    let ghost c = count as int;
    let ghost w = start as int;
    assert(w == clamped_wish(c, wish as int));
    if !occupied[start] {
        proof {
            assert forall|x: int| 0 <= x < c && x != w && !occupied@[x] implies #[trigger] searched_before(c, w, w, x) by {
                assert(ring_distance(c, w, x) > 0);
            }
        }
        return start;
    }
    let mut step: usize = 1;
    while step < count
        invariant
            count == occupied@.len(),
            c == count,
            0 <= w < c,
            w == start,
            w == clamped_wish(c, wish as int),
            1 <= step <= count,
            forall|x: int| 0 <= x < c && ring_distance(c, w, x) < step ==> #[trigger] occupied@[x],
        decreases count - step,
    {
        let after = if start < count - step { start + step } else { start - (count - step) };
        proof {
            assert(steps_after(c, w, after as int) == step);
        }
        if !occupied[after] {
            proof {
                assert forall|x: int| 0 <= x < c && x != after && !occupied@[x] implies #[trigger] searched_before(c, w, after as int, x) by {
                    assert(ring_distance(c, w, x) >= step);
                    if ring_distance(c, w, x) == step {
                        if steps_after(c, w, x) == step {
                            assert(x == after);
                        }
                    }
                }
            }
            return after;
        }
        let before = if start >= step { start - step } else { start + (count - step) };
        proof {
            assert(steps_before(c, w, before as int) == step);
        }
        if !occupied[before] {
            proof {
                assert(ring_distance(c, w, before as int) == step);
                assert(steps_after(c, w, before as int) > step) by {
                    if steps_after(c, w, before as int) == step {
                        assert(before == after);
                    }
                }
                assert forall|x: int| 0 <= x < c && x != before && !occupied@[x] implies #[trigger] searched_before(c, w, before as int, x) by {
                    assert(ring_distance(c, w, x) >= step);
                    if ring_distance(c, w, x) == step {
                        if steps_after(c, w, x) == step {
                            assert(x == after);
                        }
                        if steps_before(c, w, x) == step {
                            assert(x == before);
                        }
                    }
                }
            }
            return before;
        }
        proof {
            assert forall|x: int| 0 <= x < c && ring_distance(c, w, x) < step + 1 implies #[trigger] occupied@[x] by {
                if ring_distance(c, w, x) == step {
                    if steps_after(c, w, x) == step {
                        assert(x == after);
                    } else {
                        assert(steps_before(c, w, x) == step);
                        assert(x == before);
                    }
                }
            }
        }
        step = step + 1;
    }
    proof {
        assert forall|x: int| 0 <= x < c implies #[trigger] occupied@[x] by {
            assert(ring_distance(c, w, x) < c);
        }
    }
    start
}

// ---------------------------------------------------------------------------
// The seats of a rim
// ---------------------------------------------------------------------------

/// The top run: cells `0..=cols`, left to right.
pub open spec fn top_run(cols: u16) -> Seq<PortSeat> {
    Seq::new((cols + 1) as nat, |i: int| PortSeat { side: Side::Top, cell: i as u16 })
}

/// The right run without its corners: cells `1..rows`, top to bottom.
pub open spec fn right_run(rows: u16) -> Seq<PortSeat> {
    Seq::new(if rows >= 1 { (rows - 1) as nat } else { 0 }, |i: int| PortSeat { side: Side::Right, cell: (i + 1) as u16 })
}

/// The bottom run: cells `cols..=0`, right to left.
pub open spec fn bottom_run(cols: u16) -> Seq<PortSeat> {
    Seq::new((cols + 1) as nat, |i: int| PortSeat { side: Side::Bottom, cell: (cols - i) as u16 })
}

/// The left run without its corners: cells `rows-1..=1`, bottom to top.
pub open spec fn left_run(rows: u16) -> Seq<PortSeat> {
    Seq::new(if rows >= 1 { (rows - 1) as nat } else { 0 }, |i: int| PortSeat { side: Side::Left, cell: (rows - 1 - i) as u16 })
}

/// Every seat of a rim `cols` cells wide and `rows` cells high, walking it
/// clockwise from the top-left corner. The corners belong to the horizontal
/// runs, so no place is named twice.
pub open spec fn spec_rim_seats(cols: u16, rows: u16) -> Seq<PortSeat> {
    top_run(cols) + right_run(rows) + bottom_run(cols) + left_run(rows)
}

/// Builds [`spec_rim_seats`].
pub fn rim_seats(cols: u16, rows: u16) -> (all: Vec<PortSeat>)
    ensures
        all@ == spec_rim_seats(cols, rows),
{
    let mut all: Vec<PortSeat> = Vec::new();
    let mut c: u16 = 0;
    loop
        invariant_except_break
            c <= cols,
            all@ == top_run(cols).take(c as int),
        ensures
            all@ == top_run(cols),
        decreases cols - c,
    {
        all.push(PortSeat { side: Side::Top, cell: c });
        proof {
            assert(all@ =~= top_run(cols).take(c + 1));
        }
        if c == cols {
            proof {
                assert(top_run(cols).take(cols + 1) =~= top_run(cols));
            }
            break;
        }
        c = c + 1;
    }
    let ghost head = all@;
    let mut r: u16 = 1;
    while r < rows
        invariant
            head == top_run(cols),
            1 <= r,
            rows >= 1 ==> r <= rows,
            rows == 0 ==> r == 1,
            all@ == head + right_run(rows).take(r - 1),
        decreases rows - r,
    {
        all.push(PortSeat { side: Side::Right, cell: r });
        proof {
            assert(all@ =~= head + right_run(rows).take(r as int));
        }
        r = r + 1;
    }
    proof {
        if rows >= 1 {
            assert(r == rows);
            assert(right_run(rows).take(r - 1) =~= right_run(rows));
        } else {
            assert(right_run(rows).take(r - 1) =~= right_run(rows));
        }
        assert(all@ =~= top_run(cols) + right_run(rows));
    }
    let ghost head = all@;
    let mut c: u16 = cols;
    loop
        invariant_except_break
            c <= cols,
            head == top_run(cols) + right_run(rows),
            all@ == head + bottom_run(cols).take(cols - c),
        ensures
            all@ == top_run(cols) + right_run(rows) + bottom_run(cols),
        decreases c,
    {
        all.push(PortSeat { side: Side::Bottom, cell: c });
        proof {
            assert(all@ =~= head + bottom_run(cols).take(cols - c + 1));
        }
        if c == 0 {
            proof {
                assert(bottom_run(cols).take(cols + 1) =~= bottom_run(cols));
            }
            break;
        }
        c = c - 1;
    }
    let ghost head = all@;
    if rows >= 1 {
        let mut r: u16 = rows - 1;
        while r >= 1
            invariant
                r <= rows - 1,
                head == top_run(cols) + right_run(rows) + bottom_run(cols),
                all@ == head + left_run(rows).take(rows - 1 - r),
            decreases r,
        {
            all.push(PortSeat { side: Side::Left, cell: r });
            proof {
                assert(all@ =~= head + left_run(rows).take(rows - r));
            }
            r = r - 1;
        }
        proof {
            assert(left_run(rows).take(rows - 1) =~= left_run(rows));
        }
    } else {
        proof {
            assert(left_run(rows) =~= Seq::<PortSeat>::empty());
            assert(all@ =~= head + left_run(rows));
        }
    }
    all
}

/// The seat a rim actually has nearest to the one asked for: a node shrunk
/// past one of its own ports leaves that port at the corner rather than off
/// the end of the rim, and a rim too short for side seats moves a side seat
/// onto the top run.
pub open spec fn spec_clamp_to_rim(cols: u16, rows: u16, seat: PortSeat) -> PortSeat {
    match seat.side {
        Side::Top | Side::Bottom => PortSeat {
            side: seat.side,
            cell: if seat.cell <= cols { seat.cell } else { cols },
        },
        Side::Left | Side::Right => if rows < 2 {
            PortSeat { side: Side::Top, cell: if seat.cell <= cols { seat.cell } else { cols } }
        } else {
            PortSeat {
                side: seat.side,
                cell: if seat.cell < 1 { 1 } else if seat.cell > rows - 1 { (rows - 1) as u16 } else { seat.cell },
            }
        },
    }
}

pub fn clamp_to_rim(cols: u16, rows: u16, seat: PortSeat) -> (r: PortSeat)
    ensures
        r == spec_clamp_to_rim(cols, rows, seat),
{
    match seat.side {
        Side::Top | Side::Bottom => PortSeat::new(seat.side, if seat.cell <= cols { seat.cell } else { cols }),
        Side::Left | Side::Right => if rows < 2 {
            PortSeat::new(Side::Top, if seat.cell <= cols { seat.cell } else { cols })
        } else {
            let cell = if seat.cell < 1 {
                1
            } else if seat.cell > rows - 1 {
                rows - 1
            } else {
                seat.cell
            };
            PortSeat::new(seat.side, cell)
        },
    }
}

/// Where a seat stands in [`spec_rim_seats`], when the rim has it.
pub open spec fn spec_seat_position(cols: u16, rows: u16, seat: PortSeat) -> Option<int> {
    let side_run = if rows >= 1 { rows - 1 } else { 0 };
    match seat.side {
        Side::Top => if seat.cell <= cols { Some(seat.cell as int) } else { None },
        Side::Right => if 1 <= seat.cell < rows { Some(cols + 1 + seat.cell - 1) } else { None },
        Side::Bottom => if seat.cell <= cols { Some(cols + 1 + side_run + (cols - seat.cell)) } else { None },
        Side::Left => if 1 <= seat.cell < rows { Some(2 * (cols + 1) + side_run + (rows - 1 - seat.cell)) } else { None },
    }
}

/// The index of `seat` in the rim's seat list.
pub fn seat_position(cols: u16, rows: u16, seat: PortSeat) -> (r: Option<usize>)
    ensures
        r == (match spec_seat_position(cols, rows, seat) {
            Some(i) => Some(i as usize),
            None => None,
        }),
        r matches Some(i) ==> i < spec_rim_seats(cols, rows).len() && spec_rim_seats(cols, rows)[i as int] == seat,
        r is None ==> !spec_rim_seats(cols, rows).contains(seat),
{
    let ghost all = spec_rim_seats(cols, rows);
    let c = cols as usize;
    let side_run: usize = if rows >= 1 { (rows - 1) as usize } else { 0 };
    proof {
        assert(all.len() == 2 * (cols + 1) + 2 * side_run);
    }
    match seat.side {
        Side::Top => if seat.cell <= cols {
            proof {
                assert(all[seat.cell as int] == top_run(cols)[seat.cell as int]);
            }
            Some(seat.cell as usize)
        } else {
            proof { lemma_not_on_rim(cols, rows, seat); }
            None
        },
        Side::Right => if 1 <= seat.cell && seat.cell < rows {
            let i = c + 1 + (seat.cell as usize) - 1;
            proof {
                assert(all[i as int] == right_run(rows)[seat.cell - 1]);
            }
            Some(i)
        } else {
            proof { lemma_not_on_rim(cols, rows, seat); }
            None
        },
        Side::Bottom => if seat.cell <= cols {
            let i = c + 1 + side_run + (c - seat.cell as usize);
            proof {
                assert(all[i as int] == bottom_run(cols)[cols - seat.cell]);
            }
            Some(i)
        } else {
            proof { lemma_not_on_rim(cols, rows, seat); }
            None
        },
        Side::Left => if 1 <= seat.cell && seat.cell < rows {
            let i = 2 * (c + 1) + side_run + ((rows - 1 - seat.cell) as usize);
            proof {
                assert(all[i as int] == left_run(rows)[rows - 1 - seat.cell]);
            }
            Some(i)
        } else {
            proof { lemma_not_on_rim(cols, rows, seat); }
            None
        },
    }
}

/// A seat off the ends of its run is not on the rim.
proof fn lemma_not_on_rim(cols: u16, rows: u16, seat: PortSeat)
    requires
        spec_seat_position(cols, rows, seat) is None,
    ensures
        !spec_rim_seats(cols, rows).contains(seat),
{
    let all = spec_rim_seats(cols, rows);
    if all.contains(seat) {
        let i = choose|i: int| 0 <= i < all.len() && all[i] == seat;
        let t = (cols + 1) as int;
        let side_run = if rows >= 1 { rows - 1 } else { 0 };
        if i < t {
            assert(all[i] == top_run(cols)[i]);
        } else if i < t + side_run {
            assert(all[i] == right_run(rows)[i - t]);
        } else if i < 2 * t + side_run {
            assert(all[i] == bottom_run(cols)[i - t - side_run]);
        } else {
            assert(all[i] == left_run(rows)[i - 2 * t - side_run]);
        }
    }
}

/// Every seat of a rim is found again at its own place in the list, so no
/// place on the rim is named twice; and a rim of `cols` by `rows` cells
/// offers `2 * (cols + 1) + 2 * (rows - 1)` seats.
pub proof fn rim_seats_are_distinct(cols: u16, rows: u16)
    ensures
        forall|i: int|
            0 <= i < spec_rim_seats(cols, rows).len() ==> spec_seat_position(cols, rows, #[trigger] spec_rim_seats(cols, rows)[i])
                == Some(i),
        spec_rim_seats(cols, rows).no_duplicates(),
        rows >= 1 ==> spec_rim_seats(cols, rows).len() == 2 * (cols + 1) + 2 * (rows - 1),
{
    let all = spec_rim_seats(cols, rows);
    let t = (cols + 1) as int;
    let side_run: int = if rows >= 1 { rows - 1 } else { 0 };
    assert forall|i: int| 0 <= i < all.len() implies spec_seat_position(cols, rows, #[trigger] all[i]) == Some(i) by {
        if i < t {
            assert(all[i] == top_run(cols)[i]);
        } else if i < t + side_run {
            assert(all[i] == right_run(rows)[i - t]);
        } else if i < 2 * t + side_run {
            assert(all[i] == bottom_run(cols)[i - t - side_run]);
        } else {
            assert(all[i] == left_run(rows)[i - 2 * t - side_run]);
        }
    }
    assert forall|i: int, j: int| 0 <= i < all.len() && 0 <= j < all.len() && i != j implies all[i] != all[j] by {
        assert(spec_seat_position(cols, rows, all[i]) == Some(i));
        assert(spec_seat_position(cols, rows, all[j]) == Some(j));
    }
}

/// Clamping always lands on a seat the rim really has, and a seat the rim
/// has is left where it is.
pub proof fn clamped_seat_is_on_the_rim(cols: u16, rows: u16, seat: PortSeat)
    ensures
        spec_seat_position(cols, rows, spec_clamp_to_rim(cols, rows, seat)) is Some,
        spec_rim_seats(cols, rows).contains(spec_clamp_to_rim(cols, rows, seat)),
        spec_seat_position(cols, rows, seat) is Some ==> spec_clamp_to_rim(cols, rows, seat) == seat,
{
    let c = spec_clamp_to_rim(cols, rows, seat);
    let all = spec_rim_seats(cols, rows);
    let i = spec_seat_position(cols, rows, c).unwrap();
    let t = (cols + 1) as int;
    let side_run: int = if rows >= 1 { rows - 1 } else { 0 };
    match c.side {
        Side::Top => {
            assert(all[i] == top_run(cols)[i]);
        },
        Side::Right => {
            assert(all[i] == right_run(rows)[i - t]);
        },
        Side::Bottom => {
            assert(all[i] == bottom_run(cols)[i - t - side_run]);
        },
        Side::Left => {
            assert(all[i] == left_run(rows)[i - 2 * t - side_run]);
        },
    }
    assert(all[i] == c);
}

/// Which seats of the rim some seat of `taken` sits on, once clamped.
pub open spec fn taken_marks(cols: u16, rows: u16, taken: Seq<PortSeat>) -> Seq<bool> {
    Seq::new(
        spec_rim_seats(cols, rows).len(),
        |i: int| exists|k: int| 0 <= k < taken.len() && spec_clamp_to_rim(cols, rows, #[trigger] taken[k]) == spec_rim_seats(cols, rows)[i],
    )
}

/// Where the search for a seat starts: the wish's own place, or the first
/// seat when the rim does not have it.
pub open spec fn search_start(cols: u16, rows: u16, wish: PortSeat) -> int {
    match spec_seat_position(cols, rows, wish) {
        Some(i) => i,
        None => 0,
    }
}

/// The seat nearest `wish` that nothing in `taken` is sitting in yet: what
/// the editor picks for the user, stepping aside when a bead is already
/// there.
pub fn free_seat_near(cols: u16, rows: u16, wish: PortSeat, taken: &Vec<PortSeat>) -> (r: PortSeat)
    ensures
        r == spec_rim_seats(cols, rows)[spec_nearest_free(taken_marks(cols, rows, taken@), search_start(cols, rows, wish))],
{
    let all = rim_seats(cols, rows);
    let ghost rim = spec_rim_seats(cols, rows);
    proof {
        rim_seats_are_distinct(cols, rows);
    }
    let n = all.len();
    let mut occupied: Vec<bool> = Vec::new();
    let mut i: usize = 0;
    while i < n
        invariant
            n == rim.len(),
            i <= n,
            occupied@.len() == i,
            forall|x: int| 0 <= x < i ==> !(#[trigger] occupied@[x]),
        decreases n - i,
    {
        occupied.push(false);
        i = i + 1;
    }
    let mut k: usize = 0;
    while k < taken.len()
        invariant
            rim == spec_rim_seats(cols, rows),
            all@ == rim,
            n == rim.len(),
            occupied@.len() == n,
            k <= taken@.len(),
            forall|x: int| 0 <= x < n ==> (#[trigger] occupied@[x] <==> exists|j: int|
                0 <= j < k && spec_clamp_to_rim(cols, rows, #[trigger] taken@[j]) == rim[x]),
            forall|x: int| 0 <= x < rim.len() ==> spec_seat_position(cols, rows, #[trigger] rim[x]) == Some(x),
        decreases taken@.len() - k,
    {
        let seat = clamp_to_rim(cols, rows, taken[k]);
        proof {
            clamped_seat_is_on_the_rim(cols, rows, taken@[k as int]);
        }
        let ghost before = occupied@;
        let found = seat_position(cols, rows, seat);
        match found {
            Some(at) => {
                proof {
                    assert(spec_seat_position(cols, rows, seat) == Some(at as int));
                    assert(at < rim.len());
                }
                occupied.set(at, true);
                proof {
                    assert forall|x: int| 0 <= x < n implies (#[trigger] occupied@[x] <==> exists|j: int|
                        0 <= j < k + 1 && spec_clamp_to_rim(cols, rows, #[trigger] taken@[j]) == rim[x]) by {
                        if x == at {
                            assert(spec_clamp_to_rim(cols, rows, taken@[k as int]) == rim[x]);
                        } else {
                            if exists|j: int| 0 <= j < k + 1 && spec_clamp_to_rim(cols, rows, #[trigger] taken@[j]) == rim[x] {
                                let j = choose|j: int| 0 <= j < k + 1 && spec_clamp_to_rim(cols, rows, #[trigger] taken@[j]) == rim[x];
                                if j == k {
                                    assert(spec_seat_position(cols, rows, rim[x]) == Some(x));
                                }
                            }
                        }
                    }
                }
            },
            None => {},
        }
        k = k + 1;
    }
    proof {
        assert(occupied@ =~= taken_marks(cols, rows, taken@));
    }
    let start = match seat_position(cols, rows, wish) {
        Some(at) => at,
        None => 0,
    };
    let at = nearest_free(&occupied, start);
    proof {
        assert(n > 0) by {
            assert(top_run(cols).len() > 0);
        }
    }
    all[at]
}

// ---------------------------------------------------------------------------
// Ordering identifiers
// ---------------------------------------------------------------------------

/// Lexicographic order on byte strings, the order `str` compares by.
pub open spec fn bytes_lt(a: Seq<u8>, b: Seq<u8>) -> bool
    decreases a.len(),
{
    if b.len() == 0 {
        false
    } else if a.len() == 0 {
        true
    } else if a[0] != b[0] {
        a[0] < b[0]
    } else {
        bytes_lt(a.drop_first(), b.drop_first())
    }
}

/// The bytes an identifier compares by.
pub open spec fn id_bytes(id: String) -> Seq<u8> {
    encode_utf8(id@)
}

/// Byte strings are totally ordered: exactly one of `a < b`, `a == b`,
/// `b < a` holds.
pub proof fn lemma_bytes_trichotomy(a: Seq<u8>, b: Seq<u8>)
    ensures
        !(bytes_lt(a, b) && bytes_lt(b, a)),
        !bytes_lt(a, a),
        a != b ==> bytes_lt(a, b) || bytes_lt(b, a),
    decreases a.len(),
{
    if a.len() > 0 && b.len() > 0 {
        lemma_bytes_trichotomy(a.drop_first(), b.drop_first());
        lemma_bytes_trichotomy(a.drop_first(), a.drop_first());
        if a != b && a[0] == b[0] {
            assert(a.drop_first() != b.drop_first()) by {
                if a.drop_first() == b.drop_first() {
                    assert(a =~= seq![a[0]] + a.drop_first());
                    assert(b =~= seq![b[0]] + b.drop_first());
                }
            }
        }
    } else if a.len() > 0 {
        lemma_bytes_trichotomy(a.drop_first(), a.drop_first());
    } else if b.len() == 0 {
        assert(a =~= b);
    }
}

/// The order on byte strings is transitive.
pub proof fn lemma_bytes_transitive(a: Seq<u8>, b: Seq<u8>, c: Seq<u8>)
    requires
        bytes_lt(a, b),
        bytes_lt(b, c),
    ensures
        bytes_lt(a, c),
    decreases a.len(),
{
    if a.len() > 0 && a[0] == b[0] && b[0] == c[0] {
        lemma_bytes_transitive(a.drop_first(), b.drop_first(), c.drop_first());
    }
}

/// Whether identifier `a` sorts strictly before `b`.
fn id_less(a: &String, b: &String) -> (r: bool)
    ensures
        r == bytes_lt(id_bytes(*a), id_bytes(*b)),
{
    let x = a.as_str().as_bytes();
    let y = b.as_str().as_bytes();
    proof {
        assert(x@ == id_bytes(*a));
        assert(y@ == id_bytes(*b));
        assert(x@.skip(0) =~= x@);
        assert(y@.skip(0) =~= y@);
    }
    let mut i: usize = 0;
    while i < x.len() && i < y.len() && x[i] == y[i]
        invariant
            i <= x@.len(),
            i <= y@.len(),
            bytes_lt(x@, y@) == bytes_lt(x@.skip(i as int), y@.skip(i as int)),
        decreases x@.len() - i,
    {
        proof {
            assert(x@.skip(i as int).drop_first() =~= x@.skip(i + 1));
            assert(y@.skip(i as int).drop_first() =~= y@.skip(i + 1));
        }
        i = i + 1;
    }
    if i < x.len() && i < y.len() {
        x[i] < y[i]
    } else {
        i == x.len() && i < y.len()
    }
}

// ---------------------------------------------------------------------------
// Seating the beads of one rim
// ---------------------------------------------------------------------------

/// Whether a link takes part in seating. Each end is hooked on a node (its
/// id, and whether that node is laid out) or held at a pointer (`None`). A
/// link counts when each end it hooks names a node that is laid out, its ends
/// are not the same node, and not both of its ends are held at a pointer.
pub open spec fn spec_link_counts(
    start: Option<Seq<char>>,
    start_known: bool,
    end: Option<Seq<char>>,
    end_known: bool,
) -> bool {
    &&& (start is Some ==> start_known)
    &&& (end is Some ==> end_known)
    &&& !(start is None && end is None)
    &&& !(start is Some && end is Some && start->0 == end->0)
}

/// The characters of an optional id.
pub open spec fn opt_chars(id: Option<&String>) -> Option<Seq<char>> {
    match id {
        Some(s) => Some(s@),
        None => None,
    }
}

/// Whether a link takes part in seating (see [`spec_link_counts`]).
pub fn link_counts(start: Option<&String>, start_known: bool, end: Option<&String>, end_known: bool) -> (r: bool)
    ensures
        r == spec_link_counts(opt_chars(start), start_known, opt_chars(end), end_known),
{
    match (start, end) {
        (Some(a), Some(b)) => start_known && end_known && !(*a == *b),
        (Some(_), None) => start_known,
        (None, Some(_)) => end_known,
        (None, None) => false,
    }
}

/// One connection end hung on a node's rim, as the seating sees it: whose
/// end it is, the seat the user pinned it to, and the seat nearest to what
/// it is pulled towards. Seats are indices into the rim's seat list.
pub struct Bead {
    pub edge_id: String,
    pub endpoint: Endpoint,
    /// The pinned seat; a pinned bead never moves.
    pub pinned: Option<usize>,
    /// The seat a free bead would like.
    pub wish: usize,
}

/// The order free beads choose in: by wished seat, then by connection id,
/// then start before end.
pub open spec fn bead_key_lt(a: Bead, b: Bead) -> bool {
    ||| a.wish < b.wish
    ||| (a.wish == b.wish && bytes_lt(id_bytes(a.edge_id), id_bytes(b.edge_id)))
    ||| (a.wish == b.wish && id_bytes(a.edge_id) == id_bytes(b.edge_id) && spec_order_of(a.endpoint)
        < spec_order_of(b.endpoint))
}

/// Two beads that nothing in the choosing order tells apart.
pub open spec fn same_key(a: Bead, b: Bead) -> bool {
    a.wish == b.wish && id_bytes(a.edge_id) == id_bytes(b.edge_id) && a.endpoint == b.endpoint
}

/// Bead `i` chooses before bead `j`; beads that cannot be told apart choose
/// in the order they came.
pub open spec fn chooses_first(beads: Seq<Bead>, i: int, j: int) -> bool {
    bead_key_lt(beads[i], beads[j]) || (same_key(beads[i], beads[j]) && i < j)
}

/// The free beads, each once, in choosing order.
pub open spec fn free_order(beads: Seq<Bead>, order: Seq<usize>) -> bool {
    &&& order.no_duplicates()
    &&& forall|k: int|
        #![trigger order[k]]
        0 <= k < order.len() ==> order[k] < beads.len() && beads[order[k] as int].pinned is None
    &&& forall|i: int| 0 <= i < beads.len() && (#[trigger] beads[i]).pinned is None ==> order.contains(i as usize)
    &&& forall|s: int, t: int|
        #![trigger order[s], order[t]]
        0 <= s < t < order.len() ==> chooses_first(beads, order[s] as int, order[t] as int)
}

/// The choosing order is a strict total order on distinct beads.
proof fn lemma_chooses_first_order(beads: Seq<Bead>, i: int, j: int, k: int)
    ensures
        !chooses_first(beads, i, i),
        !(chooses_first(beads, i, j) && chooses_first(beads, j, i)),
        i != j ==> chooses_first(beads, i, j) || chooses_first(beads, j, i),
        chooses_first(beads, i, j) && chooses_first(beads, j, k) ==> chooses_first(beads, i, k),
{
    let a = id_bytes(beads[i].edge_id);
    let b = id_bytes(beads[j].edge_id);
    let c = id_bytes(beads[k].edge_id);
    lemma_bytes_trichotomy(a, b);
    lemma_bytes_trichotomy(b, c);
    lemma_bytes_trichotomy(a, c);
    lemma_bytes_trichotomy(b, a);
    if bytes_lt(a, b) && bytes_lt(b, c) {
        lemma_bytes_transitive(a, b, c);
    }
    if i != j && !chooses_first(beads, i, j) && !chooses_first(beads, j, i) {
        assert(beads[i].wish == beads[j].wish);
        assert(a == b);
        assert(spec_order_of(beads[i].endpoint) == spec_order_of(beads[j].endpoint));
        assert(beads[i].endpoint == beads[j].endpoint);
    }
}

/// Whether bead `a` chooses before bead `b`.
fn chooses_first_exec(beads: &Vec<Bead>, a: usize, b: usize) -> (r: bool)
    requires
        a < beads@.len(),
        b < beads@.len(),
    ensures
        r == chooses_first(beads@, a as int, b as int),
{
    let x = &beads[a];
    let y = &beads[b];
    if x.wish != y.wish {
        return x.wish < y.wish;
    }
    let ab = id_less(&x.edge_id, &y.edge_id);
    let ba = id_less(&y.edge_id, &x.edge_id);
    proof {
        lemma_bytes_trichotomy(id_bytes(x.edge_id), id_bytes(y.edge_id));
    }
    if ab {
        return true;
    }
    if ba {
        return false;
    }
    let ox = order_of(x.endpoint);
    let oy = order_of(y.endpoint);
    if ox != oy {
        proof {
            assert(x.endpoint != y.endpoint);
        }
        return ox < oy;
    }
    proof {
        assert(x.endpoint == y.endpoint) by {
            match x.endpoint {
                Endpoint::Start => {},
                Endpoint::End => {},
            }
        }
    }
    a < b
}

/// The free beads in choosing order, by insertion.
fn sort_free(beads: &Vec<Bead>) -> (order: Vec<usize>)
    ensures
        free_order(beads@, order@),
{
    let mut order: Vec<usize> = Vec::new();
    let mut i: usize = 0;
    while i < beads.len()
        invariant
            i <= beads@.len(),
            order@.no_duplicates(),
            forall|k: int| #![trigger order@[k]] 0 <= k < order@.len() ==> order@[k] < i && beads@[order@[k] as int].pinned is None,
            forall|x: int| 0 <= x < i && (#[trigger] beads@[x]).pinned is None ==> order@.contains(x as usize),
            forall|s: int, t: int|
                #![trigger order@[s], order@[t]]
                0 <= s < t < order@.len() ==> chooses_first(beads@, order@[s] as int, order@[t] as int),
        decreases beads@.len() - i,
    {
        if beads[i].pinned.is_none() {
            let mut p: usize = 0;
            while p < order.len() && chooses_first_exec(beads, order[p], i)
                invariant
                    i < beads@.len(),
                    p <= order@.len(),
                    forall|k: int| #![trigger order@[k]] 0 <= k < order@.len() ==> order@[k] < i,
                    forall|q: int| 0 <= q < p ==> chooses_first(beads@, #[trigger] order@[q] as int, i as int),
                decreases order@.len() - p,
            {
                p = p + 1;
            }
            let ghost before = order@;
            proof {
                if p < before.len() {
                    assert(!chooses_first(beads@, before[p as int] as int, i as int));
                    lemma_chooses_first_order(beads@, i as int, before[p as int] as int, 0);
                }
            }
            order.insert(p, i);
            proof {
                before.insert_ensures(p as int, i);
                assert forall|s: int, t: int|
                    #![trigger order@[s], order@[t]]
                    0 <= s < t < order@.len() implies chooses_first(beads@, order@[s] as int, order@[t] as int) by {
                    if t < p {
                        assert(order@[s] == before[s] && order@[t] == before[t]);
                    } else if s > p {
                        assert(order@[s] == before[s - 1] && order@[t] == before[t - 1]);
                    } else if s == p {
                        assert(order@[t] == before[t - 1]);
                        if t - 1 > p {
                            assert(chooses_first(beads@, before[p as int] as int, before[t - 1] as int));
                            lemma_chooses_first_order(beads@, i as int, before[p as int] as int, before[t - 1] as int);
                        }
                    } else if t == p {
                        assert(order@[s] == before[s]);
                    } else {
                        assert(order@[s] == before[s] && order@[t] == before[t - 1]);
                    }
                }
                assert forall|a: int, b: int| 0 <= a < order@.len() && 0 <= b < order@.len() && a != b implies order@[a] != order@[b] by {
                    if a != p && b != p {
                        let ba = if a < p { a } else { a - 1 };
                        let bb = if b < p { b } else { b - 1 };
                        assert(order@[a] == before[ba] && order@[b] == before[bb]);
                    } else if a == p {
                        let bb = if b < p { b } else { b - 1 };
                        assert(order@[b] == before[bb]);
                    } else {
                        let ba = if a < p { a } else { a - 1 };
                        assert(order@[a] == before[ba]);
                    }
                }
                assert forall|k: int| #![trigger order@[k]] 0 <= k < order@.len() implies order@[k] < i + 1 && beads@[order@[k] as int].pinned is None by {
                    if k < p {
                        assert(order@[k] == before[k]);
                    } else if k > p {
                        assert(order@[k] == before[k - 1]);
                    }
                }
                assert forall|x: int| 0 <= x < i + 1 && (#[trigger] beads@[x]).pinned is None implies order@.contains(x as usize) by {
                    if x == i {
                        assert(order@[p as int] == i);
                    } else {
                        assert(before.contains(x as usize));
                        let k = choose|k: int| 0 <= k < before.len() && before[k] == x as usize;
                        if k < p {
                            assert(order@[k] == x as usize);
                        } else {
                            assert(order@[k + 1] == x as usize);
                        }
                    }
                }
            }
        }
        i = i + 1;
    }
    order
}

/// The bead is pinned to seat `x`.
pub open spec fn pins(bead: Bead, x: int) -> bool {
    bead.pinned is Some && bead.pinned.unwrap() == x
}

/// The seats the pinned beads hold.
pub open spec fn pinned_marks(count: nat, beads: Seq<Bead>) -> Seq<bool> {
    Seq::new(count, |x: int| exists|i: int| 0 <= i < beads.len() && pins(#[trigger] beads[i], x))
}

/// The seats held once the pinned beads are down and the free beads of
/// `order` have chosen, in turn.
pub open spec fn seated(count: nat, beads: Seq<Bead>, order: Seq<usize>) -> Seq<bool>
    decreases order.len(),
{
    if order.len() == 0 {
        pinned_marks(count, beads)
    } else {
        let held = seated(count, beads, order.drop_last());
        held.update(spec_nearest_free(held, beads[order.last() as int].wish as int), true)
    }
}

/// `taken` seats `beads` on a rim of `count` seats: pinned beads stay where
/// they were pinned, and the free beads, in choosing order, each take the
/// empty seat nearest their wish.
pub open spec fn seats_beads(count: nat, beads: Seq<Bead>, taken: Seq<usize>) -> bool {
    &&& taken.len() == beads.len()
    &&& forall|i: int|
        #![trigger taken[i]]
        0 <= i < beads.len() && beads[i].pinned is Some ==> taken[i] == beads[i].pinned.unwrap()
    &&& exists|order: Seq<usize>|
        #![trigger free_order(beads, order)]
        free_order(beads, order) && forall|j: int|
            #![trigger order[j]]
            0 <= j < order.len() ==> taken[order[j] as int] == spec_nearest_free(
                seated(count, beads, order.take(j)),
                beads[order[j] as int].wish as int,
            )
}

/// Sits every bead on a rim of `count` seats in a seat of its own: pinned
/// beads go down first and never move; the free ones then take the seat
/// nearest their wish, or the nearest empty one when that is spoken for.
/// Ordering the free beads by wish and identity, not by arrival, is what
/// makes the arrangement the same whatever order the connections were made
/// in. Returns the seat of each bead.
pub fn seat_beads(count: usize, beads: &Vec<Bead>) -> (taken: Vec<usize>)
    requires
        forall|i: int|
            0 <= i < beads@.len() ==> (#[trigger] beads@[i]).wish < count && (beads@[i].pinned matches Some(p)
                ==> p < count),
    ensures
        seats_beads(count as nat, beads@, taken@),
{
    let n = beads.len();
    let mut occupied: Vec<bool> = Vec::new();
    let mut x: usize = 0;
    while x < count
        invariant
            x <= count,
            occupied@.len() == x,
            forall|y: int| 0 <= y < x ==> !(#[trigger] occupied@[y]),
        decreases count - x,
    {
        occupied.push(false);
        x = x + 1;
    }
    let mut taken: Vec<usize> = Vec::new();
    let mut i: usize = 0;
    while i < n
        invariant
            n == beads@.len(),
            i <= n,
            occupied@.len() == count,
            taken@.len() == i,
            forall|b: int|
                0 <= b < n ==> (#[trigger] beads@[b]).wish < count && (beads@[b].pinned matches Some(p) ==> p < count),
            forall|y: int|
                0 <= y < count ==> (#[trigger] occupied@[y] <==> exists|b: int|
                    0 <= b < i && pins(#[trigger] beads@[b], y)),
            forall|b: int|
                #![trigger taken@[b]]
                0 <= b < i && beads@[b].pinned is Some ==> taken@[b] == beads@[b].pinned.unwrap(),
        decreases n - i,
    {
        match beads[i].pinned {
            Some(at) => {
                let ghost before = occupied@;
                occupied.set(at, true);
                taken.push(at);
                proof {
                    assert forall|y: int|
                        0 <= y < count implies (#[trigger] occupied@[y] <==> exists|b: int|
                            0 <= b < i + 1 && pins(#[trigger] beads@[b], y)) by {
                        if y == at {
                            assert(pins(beads@[i as int], y));
                        } else if exists|b: int| 0 <= b < i + 1 && pins(#[trigger] beads@[b], y) {
                            let b = choose|b: int| 0 <= b < i + 1 && pins(#[trigger] beads@[b], y);
                            assert(b != i);
                        }
                    }
                }
            },
            None => {
                taken.push(0);
                proof {
                    assert forall|y: int|
                        0 <= y < count implies (#[trigger] occupied@[y] <==> exists|b: int|
                            0 <= b < i + 1 && pins(#[trigger] beads@[b], y)) by {
                        if exists|b: int| 0 <= b < i + 1 && pins(#[trigger] beads@[b], y) {
                            let b = choose|b: int| 0 <= b < i + 1 && pins(#[trigger] beads@[b], y);
                            assert(b != i);
                        }
                    }
                }
            },
        }
        i = i + 1;
    }
    proof {
        assert(occupied@ =~= pinned_marks(count as nat, beads@));
    }
    let order = sort_free(beads);
    let mut j: usize = 0;
    while j < order.len()
        invariant
            n == beads@.len(),
            free_order(beads@, order@),
            0 <= j <= order@.len(),
            occupied@ == seated(count as nat, beads@, order@.take(j as int)),
            occupied@.len() == count,
            taken@.len() == n,
            forall|b: int|
                0 <= b < n ==> (#[trigger] beads@[b]).wish < count,
            forall|b: int|
                #![trigger taken@[b]]
                0 <= b < n && beads@[b].pinned is Some ==> taken@[b] == beads@[b].pinned.unwrap(),
            forall|k: int|
                #![trigger order@[k]]
                0 <= k < j ==> taken@[order@[k] as int] == spec_nearest_free(
                    seated(count as nat, beads@, order@.take(k)),
                    beads@[order@[k] as int].wish as int,
                ),
        decreases order@.len() - j,
    {
        let b = order[j];
        proof {
            assert(b < n && beads@[b as int].pinned is None);
        }
        let at = nearest_free(&occupied, beads[b].wish);
        proof {
            assert(count > 0);
            assert(at < count);
        }
        let ghost before = taken@;
        occupied.set(at, true);
        taken.set(b, at);
        proof {
            assert(order@.take(j + 1).drop_last() =~= order@.take(j as int));
            assert(order@.take(j + 1).last() == b);
            assert forall|k: int|
                #![trigger order@[k]]
                0 <= k < j + 1 implies taken@[order@[k] as int] == spec_nearest_free(
                    seated(count as nat, beads@, order@.take(k)),
                    beads@[order@[k] as int].wish as int,
                ) by {
                if k < j {
                    assert(order@[k] != b);
                }
            }
        }
        j = j + 1;
    }
    proof {
        assert(free_order(beads@, order@));
    }
    taken
}

/// The seats held after `j` free beads have chosen are exactly the pinned
/// seats and the seats those `j` beads took.
proof fn lemma_seated_marks(count: nat, beads: Seq<Bead>, taken: Seq<usize>, order: Seq<usize>, j: int)
    requires
        count > 0,
        taken.len() == beads.len(),
        free_order(beads, order),
        0 <= j <= order.len(),
        forall|k: int|
            #![trigger order[k]]
            0 <= k < order.len() ==> taken[order[k] as int] == spec_nearest_free(
                seated(count, beads, order.take(k)),
                beads[order[k] as int].wish as int,
            ),
    ensures
        seated(count, beads, order.take(j)).len() == count,
        forall|k: int| #![trigger order[k]] 0 <= k < j ==> taken[order[k] as int] < count,
        forall|x: int|
            0 <= x < count ==> (#[trigger] seated(count, beads, order.take(j))[x] <==> ((exists|i: int|
                0 <= i < beads.len() && pins(#[trigger] beads[i], x)) || (exists|k: int|
                0 <= k < j && taken[(#[trigger] order[k]) as int] == x))),
    decreases j,
{
    if j == 0 {
        assert(order.take(0) =~= Seq::<usize>::empty());
    } else {
        lemma_seated_marks(count, beads, taken, order, j - 1);
        let held = seated(count, beads, order.take(j - 1));
        assert(order.take(j).drop_last() =~= order.take(j - 1));
        assert(order.take(j).last() == order[j - 1]);
        let r = spec_nearest_free(held, beads[order[j - 1] as int].wish as int);
        assert(is_nearest_free(held, beads[order[j - 1] as int].wish as int, r)) by {
            let w = beads[order[j - 1] as int].wish as int;
            if has_free(held) {
                lemma_first_free_exists(held, w);
            } else {
                assert(is_nearest_free(held, w, clamped_wish(count as int, w)));
            }
        }
        assert(taken[order[j - 1] as int] == r);
        assert forall|x: int|
            0 <= x < count implies (#[trigger] seated(count, beads, order.take(j))[x] <==> ((exists|i: int|
                0 <= i < beads.len() && pins(#[trigger] beads[i], x)) || (exists|k: int|
                0 <= k < j && taken[(#[trigger] order[k]) as int] == x))) by {
            if x == r {
                assert(taken[order[j - 1] as int] == x);
            } else {
                if exists|k: int| 0 <= k < j && taken[(#[trigger] order[k]) as int] == x {
                    let k = choose|k: int| 0 <= k < j && taken[(#[trigger] order[k]) as int] == x;
                    assert(k != j - 1);
                }
            }
        }
    }
}

/// On a rim with an empty seat the outward search settles somewhere.
proof fn lemma_first_free_exists(occupied: Seq<bool>, wish: int)
    requires
        has_free(occupied),
        wish >= 0,
    ensures
        exists|r: int| is_nearest_free(occupied, wish, r),
{
    let c = occupied.len() as int;
    let w = clamped_wish(c, wish);
    let r = lemma_min_searched(occupied, w, c);
    assert(is_nearest_free(occupied, wish, r));
}

/// Among the empty seats below `m`, one is reached by the search before
/// all the others.
proof fn lemma_min_searched(occupied: Seq<bool>, w: int, m: int) -> (r: int)
    requires
        0 <= m <= occupied.len(),
        0 <= w < occupied.len(),
        exists|x: int| 0 <= x < m && !occupied[x],
    ensures
        0 <= r < m,
        !occupied[r],
        forall|x: int|
            0 <= x < m && x != r && !occupied[x] ==> #[trigger] searched_before(occupied.len() as int, w, r, x),
    decreases m,
{
    let c = occupied.len() as int;
    if exists|x: int| 0 <= x < m - 1 && !occupied[x] {
        let r0 = lemma_min_searched(occupied, w, m - 1);
        if !occupied[m - 1] {
            lemma_searched_total(c, w, r0, m - 1);
        }
        if !occupied[m - 1] && searched_before(c, w, m - 1, r0) {
            assert forall|x: int| 0 <= x < m && x != m - 1 && !occupied[x] implies #[trigger] searched_before(c, w, m - 1, x) by {
                if x != r0 {
                    assert(searched_before(c, w, r0, x));
                }
            }
            m - 1
        } else {
            assert forall|x: int| 0 <= x < m && x != r0 && !occupied[x] implies #[trigger] searched_before(c, w, r0, x) by {
                if x < m - 1 {
                    assert(searched_before(c, w, r0, x));
                }
            }
            r0
        }
    } else {
        assert forall|x: int| 0 <= x < m && x != m - 1 && !occupied[x] implies #[trigger] searched_before(c, w, m - 1, x) by {
            assert(x < m - 1);
        }
        m - 1
    }
}

/// The search reaches one of any two distinct seats first.
proof fn lemma_searched_total(c: int, w: int, x: int, y: int)
    requires
        0 <= w < c,
        0 <= x < c,
        0 <= y < c,
        x != y,
    ensures
        searched_before(c, w, x, y) || searched_before(c, w, y, x),
{
    if ring_distance(c, w, x) == ring_distance(c, w, y) {
        let ax = steps_after(c, w, x) <= steps_before(c, w, x);
        let ay = steps_after(c, w, y) <= steps_before(c, w, y);
        if ax && ay {
            assert(steps_after(c, w, x) == steps_after(c, w, y));
        } else if !ax && !ay {
            assert(steps_before(c, w, x) == steps_before(c, w, y));
        }
    }
}

/// With no more beads than seats and no two pinned to one seat, every bead
/// gets a seat of its own, and no free bead evicts a pinned one.
pub proof fn room_for_every_bead(count: usize, beads: Seq<Bead>, taken: Seq<usize>)
    requires
        seats_beads(count as nat, beads, taken),
        beads.len() <= count,
        forall|i: int| 0 <= i < beads.len() ==> (#[trigger] beads[i]).wish < count && (beads[i].pinned matches Some(p) ==> p < count),
        forall|i: int, j: int|
            0 <= i < beads.len() && 0 <= j < beads.len() && i != j && (#[trigger] beads[i]).pinned is Some
                ==> (#[trigger] beads[j]).pinned != beads[i].pinned,
    ensures
        taken.no_duplicates(),
        forall|i: int| 0 <= i < taken.len() ==> #[trigger] taken[i] < count,
{
    if beads.len() == 0 {
        return;
    }
    let order = choose|order: Seq<usize>|
        #![trigger free_order(beads, order)]
        free_order(beads, order) && forall|j: int|
            #![trigger order[j]]
            0 <= j < order.len() ==> taken[order[j] as int] == spec_nearest_free(
                seated(count as nat, beads, order.take(j)),
                beads[order[j] as int].wish as int,
            );
    lemma_seated_marks(count as nat, beads, taken, order, order.len() as int);
    assert forall|j: int| 0 <= j < order.len() implies !seated(count as nat, beads, order.take(j))[taken[(#[trigger] order[j]) as int] as int] by {
        lemma_seated_marks(count as nat, beads, taken, order, j);
        lemma_room_while_seating(count as nat, beads, taken, order, j);
        let held = seated(count as nat, beads, order.take(j));
        let w = beads[order[j] as int].wish as int;
        lemma_first_free_exists(held, w);
        let q = choose|q: int| is_nearest_free(held, w, q);
        lemma_nearest_free_unique(held, w, q);
    }
    assert forall|i: int| 0 <= i < taken.len() implies #[trigger] taken[i] < count by {
        if beads[i].pinned is None {
            let k = choose|k: int| 0 <= k < order.len() && order[k] == i as usize;
            assert(taken[order[k] as int] < count);
        }
    }
    assert forall|a: int, b: int| 0 <= a < taken.len() && 0 <= b < taken.len() && a != b implies taken[a] != taken[b] by {
        if beads[a].pinned is None || beads[b].pinned is None {
            lemma_distinct_seat(count as nat, beads, taken, order, a, b);
        }
    }
}

/// A free bead's seat differs from every seat taken before it chose.
proof fn lemma_distinct_seat(count: nat, beads: Seq<Bead>, taken: Seq<usize>, order: Seq<usize>, a: int, b: int)
    requires
        count > 0,
        beads.len() <= usize::MAX,
        taken.len() == beads.len(),
        free_order(beads, order),
        0 <= a < beads.len(),
        0 <= b < beads.len(),
        a != b,
        beads[a].pinned is None || beads[b].pinned is None,
        forall|i: int|
            #![trigger taken[i]]
            0 <= i < beads.len() && beads[i].pinned is Some ==> taken[i] == beads[i].pinned.unwrap(),
        forall|k: int|
            #![trigger order[k]]
            0 <= k < order.len() ==> taken[order[k] as int] == spec_nearest_free(
                seated(count, beads, order.take(k)),
                beads[order[k] as int].wish as int,
            ),
        forall|j: int| 0 <= j < order.len() ==> !seated(count, beads, order.take(j))[taken[(#[trigger] order[j]) as int] as int],
        forall|i: int| 0 <= i < taken.len() ==> #[trigger] taken[i] < count,
    ensures
        taken[a] != taken[b],
{
    // The free one of the two that chose last cannot sit where the other is.
    let f = if beads[a].pinned is Some {
        b
    } else if beads[b].pinned is Some {
        a
    } else {
        assert(order.contains(a as usize));
        assert(order.contains(b as usize));
        let ka = choose|k: int| 0 <= k < order.len() && order[k] == a as usize;
        let kb = choose|k: int| 0 <= k < order.len() && order[k] == b as usize;
        if ka > kb { a } else { b }
    };
    let other = if f == a { b } else { a };
    assert(0 <= f < beads.len() && 0 <= other < beads.len() && f != other);
    assert(beads[f].pinned is None);
    assert(order.contains(f as usize));
    let kf = choose|k: int| 0 <= k < order.len() && order[k] == f as usize;
    lemma_seated_marks(count, beads, taken, order, kf);
    let x = taken[f] as int;
    assert(!seated(count, beads, order.take(kf))[taken[order[kf] as int] as int]);
    assert(!seated(count, beads, order.take(kf))[x]);
    if beads[other].pinned is Some {
        if taken[other] == taken[f] {
            assert(pins(beads[other], x));
        }
    } else {
        assert(order.contains(other as usize));
        let ko = choose|k: int| 0 <= k < order.len() && order[k] == other as usize;
        assert(ko < kf) by {
            let ka = choose|k: int| 0 <= k < order.len() && order[k] == a as usize;
            let kb = choose|k: int| 0 <= k < order.len() && order[k] == b as usize;
            if ko == kf {
                assert(order[ko] == order[kf]);
            }
            if f == a {
                assert(order[ka] == order[kf]);
                assert(order[kb] == order[ko]);
            } else {
                assert(order[kb] == order[kf]);
                assert(order[ka] == order[ko]);
            }
        }
        if taken[other] == taken[f] {
            assert(taken[order[ko] as int] == x);
        }
    }
}

/// While free beads are still choosing there is an empty seat, as long as
/// there are no more beads than seats.
proof fn lemma_room_while_seating(count: nat, beads: Seq<Bead>, taken: Seq<usize>, order: Seq<usize>, j: int)
    requires
        count > 0,
        beads.len() <= count,
        taken.len() == beads.len(),
        free_order(beads, order),
        0 <= j < order.len(),
        seated(count, beads, order.take(j)).len() == count,
        forall|x: int|
            0 <= x < count ==> (#[trigger] seated(count, beads, order.take(j))[x] <==> ((exists|i: int|
                0 <= i < beads.len() && pins(#[trigger] beads[i], x)) || (exists|k: int|
                0 <= k < j && taken[(#[trigger] order[k]) as int] == x))),
    ensures
        has_free(seated(count, beads, order.take(j))),
{
    let held = seated(count, beads, order.take(j));
    let n = beads.len() as int;
    // Each bead names the seat it holds so far, or -1.
    let named = Seq::new(
        n as nat,
        |i: int|
            if beads[i].pinned is Some {
                beads[i].pinned.unwrap() as int
            } else if exists|k: int| 0 <= k < j && order[k] == i as usize {
                taken[i] as int
            } else {
                -1
            },
    );
    let me = order[j] as int;
    assert(beads[me].pinned is None);
    assert(named[me] == -1) by {
        if exists|k: int| 0 <= k < j && order[k] == me as usize {
            let k = choose|k: int| 0 <= k < j && order[k] == me as usize;
            assert(order[k] == order[j]);
        }
    }
    let names = named.to_set();
    named.lemma_cardinality_of_set();
    assert(names.contains(-1));
    let marked = Set::new(|x: int| 0 <= x < count && held[x]);
    assert(marked.subset_of(names.remove(-1))) by {
        assert forall|x: int| marked.contains(x) implies names.remove(-1).contains(x) by {
            if exists|i: int| 0 <= i < beads.len() && pins(#[trigger] beads[i], x) {
                let i = choose|i: int| 0 <= i < beads.len() && pins(#[trigger] beads[i], x);
                assert(named[i] == x);
            } else {
                let k = choose|k: int| 0 <= k < j && taken[(#[trigger] order[k]) as int] == x;
                let i = order[k] as int;
                assert(named[i] == x);
            }
        }
    }
    lemma_len_subset(marked, names.remove(-1));
    let range = set_int_range(0, count as int);
    lemma_int_range(0, count as int);
    if !has_free(held) {
        assert(range.subset_of(marked));
        lemma_len_subset(range, marked);
    }
}

/// Two lists of the same distinct beads, both in choosing order, are the
/// same list.
proof fn lemma_sorted_unique(beads: Seq<Bead>, a: Seq<usize>, b: Seq<usize>)
    requires
        a.no_duplicates(),
        b.no_duplicates(),
        forall|x: usize| a.contains(x) <==> b.contains(x),
        forall|s: int, t: int|
            #![trigger a[s], a[t]]
            0 <= s < t < a.len() ==> chooses_first(beads, a[s] as int, a[t] as int),
        forall|s: int, t: int|
            #![trigger b[s], b[t]]
            0 <= s < t < b.len() ==> chooses_first(beads, b[s] as int, b[t] as int),
    ensures
        a == b,
    decreases a.len(),
{
    if a.len() == 0 {
        if b.len() > 0 {
            assert(b.contains(b[0]));
        }
        assert(a =~= b);
    } else {
        assert(a.contains(a[0]));
        assert(b.len() > 0);
        assert(b.contains(b[0]));
        if a[0] != b[0] {
            let k = choose|k: int| 0 <= k < a.len() && a[k] == b[0];
            let m = choose|m: int| 0 <= m < b.len() && b[m] == a[0];
            assert(k > 0 && m > 0);
            assert(chooses_first(beads, a[0] as int, a[k] as int));
            assert(chooses_first(beads, b[0] as int, b[m] as int));
            lemma_chooses_first_order(beads, a[0] as int, b[0] as int, 0);
        }
        let a1 = a.drop_first();
        let b1 = b.drop_first();
        assert forall|x: usize| a1.contains(x) <==> b1.contains(x) by {
            if a1.contains(x) {
                let i = choose|i: int| 0 <= i < a1.len() && a1[i] == x;
                assert(a[i + 1] == x);
                assert(x != a[0]);
                assert(b.contains(x));
                let j = choose|j: int| 0 <= j < b.len() && b[j] == x;
                assert(j != 0);
                assert(b1[j - 1] == x);
            }
            if b1.contains(x) {
                let i = choose|i: int| 0 <= i < b1.len() && b1[i] == x;
                assert(b[i + 1] == x);
                assert(x != b[0]);
                assert(a.contains(x));
                let j = choose|j: int| 0 <= j < a.len() && a[j] == x;
                assert(j != 0);
                assert(a1[j - 1] == x);
            }
        }
        assert forall|s: int, t: int|
            #![trigger a1[s], a1[t]]
            0 <= s < t < a1.len() implies chooses_first(beads, a1[s] as int, a1[t] as int) by {
            assert(a1[s] == a[s + 1] && a1[t] == a[t + 1]);
        }
        assert forall|s: int, t: int|
            #![trigger b1[s], b1[t]]
            0 <= s < t < b1.len() implies chooses_first(beads, b1[s] as int, b1[t] as int) by {
            assert(b1[s] == b[s + 1] && b1[t] == b[t + 1]);
        }
        lemma_sorted_unique(beads, a1, b1);
        assert(a =~= seq![a[0]] + a1);
        assert(b =~= seq![b[0]] + b1);
    }
}

/// Some position of `perm` holds `x`.
pub open spec fn reaches(perm: Seq<int>, x: int) -> bool {
    exists|i: int| 0 <= i < perm.len() && #[trigger] perm[i] == x
}

/// `perm` rearranges `0..n`: each index appears exactly once.
pub open spec fn is_permutation(perm: Seq<int>, n: nat) -> bool {
    &&& perm.len() == n
    &&& forall|i: int| #![trigger perm[i]] 0 <= i < n ==> 0 <= perm[i] < n
    &&& forall|i: int, j: int| 0 <= i < j < n ==> #[trigger] perm[i] != #[trigger] perm[j]
    &&& forall|x: int| 0 <= x < n ==> #[trigger] reaches(perm, x)
}

/// The seats held as the free beads choose are the same for two
/// arrangements of the same beads that choose in the same order.
proof fn lemma_seated_agree(
    count: nat,
    beads: Seq<Bead>,
    o1: Seq<usize>,
    arrived: Seq<Bead>,
    o2: Seq<usize>,
    perm: Seq<int>,
    j: int,
)
    requires
        is_permutation(perm, beads.len()),
        arrived.len() == beads.len(),
        forall|i: int| 0 <= i < arrived.len() ==> #[trigger] arrived[i] == beads[perm[i]],
        o1.len() == o2.len(),
        forall|k: int| #![trigger o2[k]] 0 <= k < o2.len() ==> o2[k] < arrived.len() && o1[k] as int == perm[o2[k] as int],
        0 <= j <= o1.len(),
    ensures
        seated(count, beads, o1.take(j)) == seated(count, arrived, o2.take(j)),
    decreases j,
{
    if j == 0 {
        assert(o1.take(0) =~= Seq::<usize>::empty());
        assert(o2.take(0) =~= Seq::<usize>::empty());
        assert(pinned_marks(count, beads) =~= pinned_marks(count, arrived)) by {
            assert forall|x: int| 0 <= x < count implies pinned_marks(count, beads)[x] == pinned_marks(count, arrived)[x] by {
                if exists|i: int| 0 <= i < beads.len() && pins(#[trigger] beads[i], x) {
                    let i = choose|i: int| 0 <= i < beads.len() && pins(#[trigger] beads[i], x);
                    assert(reaches(perm, i));
                    let i2 = choose|i2: int| 0 <= i2 < perm.len() && #[trigger] perm[i2] == i;
                    assert(arrived[i2] == beads[i]);
                }
                if exists|i: int| 0 <= i < arrived.len() && pins(#[trigger] arrived[i], x) {
                    let i = choose|i: int| 0 <= i < arrived.len() && pins(#[trigger] arrived[i], x);
                    assert(arrived[i] == beads[perm[i]]);
                }
            }
        }
    } else {
        lemma_seated_agree(count, beads, o1, arrived, o2, perm, j - 1);
        assert(o1.take(j).drop_last() =~= o1.take(j - 1));
        assert(o2.take(j).drop_last() =~= o2.take(j - 1));
        assert(o1.take(j).last() == o1[j - 1]);
        assert(o2.take(j).last() == o2[j - 1]);
        assert(arrived[o2[j - 1] as int] == beads[perm[o2[j - 1] as int]]);
    }
}

/// Seating depends on the beads, not on the order they arrive in: however a
/// rim's beads are listed, each bead gets the same seat, as long as no two
/// free beads share wish, connection and end.
pub proof fn seating_ignores_arrival_order(
    count: usize,
    beads: Seq<Bead>,
    taken: Seq<usize>,
    arrived: Seq<Bead>,
    seats: Seq<usize>,
    perm: Seq<int>,
)
    requires
        seats_beads(count as nat, beads, taken),
        seats_beads(count as nat, arrived, seats),
        beads.len() <= usize::MAX,
        is_permutation(perm, beads.len()),
        arrived.len() == beads.len(),
        forall|i: int| 0 <= i < arrived.len() ==> #[trigger] arrived[i] == beads[perm[i]],
        forall|i: int, j: int|
            0 <= i < beads.len() && 0 <= j < beads.len() && i != j && (#[trigger] beads[i]).pinned is None
                && (#[trigger] beads[j]).pinned is None ==> !same_key(beads[i], beads[j]),
    ensures
        forall|i: int| 0 <= i < seats.len() ==> #[trigger] seats[i] == taken[perm[i]],
{
    let c = count as nat;
    let o1 = choose|order: Seq<usize>|
        #![trigger free_order(beads, order)]
        free_order(beads, order) && forall|j: int|
            #![trigger order[j]]
            0 <= j < order.len() ==> taken[order[j] as int] == spec_nearest_free(
                seated(c, beads, order.take(j)),
                beads[order[j] as int].wish as int,
            );
    let o2 = choose|order: Seq<usize>|
        #![trigger free_order(arrived, order)]
        free_order(arrived, order) && forall|j: int|
            #![trigger order[j]]
            0 <= j < order.len() ==> seats[order[j] as int] == spec_nearest_free(
                seated(c, arrived, order.take(j)),
                arrived[order[j] as int].wish as int,
            );
    // The arrival order's choosing order, read back in the first listing.
    let mapped = Seq::new(o2.len(), |k: int| perm[o2[k] as int] as usize);
    assert forall|k: int| #![trigger mapped[k]] 0 <= k < mapped.len() implies mapped[k] as int == perm[o2[k] as int]
        && mapped[k] < beads.len() && beads[mapped[k] as int].pinned is None by {
        assert(o2[k] < arrived.len());
        assert(arrived[o2[k] as int] == beads[perm[o2[k] as int]]);
    }
    assert(mapped.no_duplicates()) by {
        assert forall|a: int, b: int| 0 <= a < mapped.len() && 0 <= b < mapped.len() && a != b implies mapped[a] != mapped[b] by {
            assert(o2[a] != o2[b]);
            if o2[a] < o2[b] {
                assert(perm[o2[a] as int] != perm[o2[b] as int]);
            } else {
                assert(perm[o2[b] as int] != perm[o2[a] as int]);
            }
        }
    }
    assert forall|s: int, t: int|
        #![trigger mapped[s], mapped[t]]
        0 <= s < t < mapped.len() implies chooses_first(beads, mapped[s] as int, mapped[t] as int) by {
        assert(chooses_first(arrived, o2[s] as int, o2[t] as int));
        assert(arrived[o2[s] as int] == beads[mapped[s] as int]);
        assert(arrived[o2[t] as int] == beads[mapped[t] as int]);
        assert(mapped[s] != mapped[t]);
        assert(!same_key(beads[mapped[s] as int], beads[mapped[t] as int]));
    }
    assert forall|x: usize| o1.contains(x) <==> mapped.contains(x) by {
        if o1.contains(x) {
            let k = choose|k: int| 0 <= k < o1.len() && o1[k] == x;
            assert(beads[x as int].pinned is None);
            assert(reaches(perm, x as int));
            let i2 = choose|i2: int| 0 <= i2 < perm.len() && #[trigger] perm[i2] == x as int;
            assert(arrived[i2] == beads[x as int]);
            assert(o2.contains(i2 as usize));
            let m = choose|m: int| 0 <= m < o2.len() && o2[m] == i2 as usize;
            assert(mapped[m] == x);
        }
        if mapped.contains(x) {
            let k = choose|k: int| 0 <= k < mapped.len() && mapped[k] == x;
            assert(beads[mapped[k] as int].pinned is None);
        }
    }
    lemma_sorted_unique(beads, o1, mapped);
    assert forall|i: int| 0 <= i < seats.len() implies #[trigger] seats[i] == taken[perm[i]] by {
        assert(arrived[i] == beads[perm[i]]);
        if arrived[i].pinned is None {
            assert(o2.contains(i as usize));
            let k = choose|k: int| 0 <= k < o2.len() && o2[k] == i as usize;
            lemma_seated_agree(c, beads, o1, arrived, o2, perm, k);
            assert(o1[k] as int == perm[i]);
        }
    }
}

/// Clamping moves a seat the least: a seat whose side still has a cell on
/// the rim stays on its side, and lands on the cell of that side nearest to
/// where it was.
pub proof fn clamping_moves_a_seat_the_least(cols: u16, rows: u16, seat: PortSeat, other: u16)
    requires
        spec_seat_position(cols, rows, PortSeat { side: seat.side, cell: other }) is Some,
    ensures
        ({
            let r = spec_clamp_to_rim(cols, rows, seat);
            let moved: int = if r.cell >= seat.cell { r.cell - seat.cell } else { seat.cell - r.cell };
            let alt: int = if other >= seat.cell { other - seat.cell } else { seat.cell - other };
            &&& r.side == seat.side
            &&& spec_seat_position(cols, rows, r) is Some
            &&& moved <= alt
        }),
{
}

/// A side seat on a rim too short to have side cells moves to the top run,
/// to the top cell nearest to where it was.
pub proof fn a_seat_without_a_side_goes_to_the_top(cols: u16, rows: u16, seat: PortSeat, other: u16)
    requires
        seat.side == Side::Left || seat.side == Side::Right,
        rows < 2,
        other <= cols,
    ensures
        ({
            let r = spec_clamp_to_rim(cols, rows, seat);
            let moved: int = if r.cell >= seat.cell { r.cell - seat.cell } else { seat.cell - r.cell };
            let alt: int = if other >= seat.cell { other - seat.cell } else { seat.cell - other };
            &&& r.side == Side::Top
            &&& r.cell <= cols
            &&& moved <= alt
        }),
{
}

/// Between the two ends of one connection, the start comes first.
pub proof fn the_start_comes_first()
    ensures
        spec_order_of(Endpoint::Start) < spec_order_of(Endpoint::End),
{
}

} // verus!
