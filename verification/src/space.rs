//! The bounded reachable-space estimator: how many free cells are connected
//! to a starting cell through cardinal moves, counted up to an early-exit
//! cap (conventionally the acting agent's own length).

use vstd::prelude::*;
use vstd::set_lib::lemma_len_subset;

use crate::logic::valid_move;
use crate::model::Battlesnake;
use crate::model::Board;
use crate::model::Coord;
use crate::model::adjacent;
use crate::model::contains_coord;
use crate::model::free_cell;

verus! {

/// Every cell of the sequence is free and consecutive cells are one
/// cardinal step apart.
pub open spec fn is_path(board: Board, p: Seq<Coord>) -> bool {
    &&& forall|i: int| 0 <= i < p.len() ==> free_cell(board, #[trigger] p[i])
    &&& forall|i: int| 0 < i < p.len() ==> adjacent(p[i - 1], #[trigger] p[i])
}

/// The sequence is a walk through free cells from `start` to `t`.
pub open spec fn connects(board: Board, start: Coord, t: Coord, p: Seq<Coord>) -> bool {
    is_path(board, p) && p.len() > 0 && p[0] == start && p[p.len() - 1] == t
}

/// Every cell connected to `start` through free cells (`start` itself
/// included when it is free).
pub open spec fn reachable(board: Board, start: Coord) -> Set<Coord> {
    Set::new(|t: Coord| exists|p: Seq<Coord>| connects(board, start, t, p))
}

/// The early-exit cap of the flood fill: the supplied limit, or zero when
/// the limit is not positive.
pub open spec fn space_cap(limit: int) -> int {
    if limit <= 0 {
        0
    } else {
        limit
    }
}

/// What the flood fill counts: the number of cells connected to `start`,
/// capped at `space_cap(limit)`.
pub open spec fn spec_remaining_space(board: Board, start: Coord, limit: int) -> int {
    if reachable(board, start).len() >= space_cap(limit) {
        space_cap(limit)
    } else {
        reachable(board, start).len() as int
    }
}

/// One more step: a free cell adjacent to the end of a walk extends it.
proof fn lemma_connects_step(board: Board, start: Coord, v: Coord, c: Coord, p: Seq<Coord>)
    requires
        connects(board, start, v, p),
        adjacent(v, c),
        free_cell(board, c),
    ensures
        connects(board, start, c, p.push(c)),
{
    let q = p.push(c);
    assert forall|i: int| 0 <= i < q.len() implies free_cell(board, #[trigger] q[i]) by {
        if i < p.len() {
            assert(q[i] == p[i]);
        } else {
            assert(q[i] == c);
        }
    };
    assert forall|i: int| 0 < i < q.len() implies adjacent(q[i - 1], #[trigger] q[i]) by {
        if i < p.len() {
            assert(q[i] == p[i]);
            assert(q[i - 1] == p[i - 1]);
        } else {
            assert(q[i] == c);
            assert(q[i - 1] == p[p.len() - 1]);
        }
    };
    assert(q[0] == p[0]);
}

/// The cells of a `w x h` grid.
pub open spec fn grid(w: int, h: int) -> Set<Coord> {
    Set::new(|c: Coord| 0 <= c.x < w && 0 <= c.y < h)
}

/// The cells of one grid column.
spec fn column(col: int, h: int) -> Set<Coord> {
    Set::new(|c: Coord| c.x == col && 0 <= c.y < h)
}

proof fn lemma_column_finite(col: int, h: int)
    requires
        0 <= col <= i32::MAX,
        h <= i32::MAX,
    ensures
        column(col, h).finite(),
    decreases (if h <= 0 { 0int } else { h }),
{
    broadcast use vstd::set::group_set_axioms;

    if h <= 0 {
        assert(column(col, h) =~= Set::empty());
    } else {
        lemma_column_finite(col, h - 1);
        assert(column(col, h) =~= column(col, h - 1).insert(
            Coord { x: col as i32, y: (h - 1) as i32 },
        ));
    }
}

proof fn lemma_grid_finite(w: int, h: int)
    requires
        w <= i32::MAX,
        h <= i32::MAX,
    ensures
        grid(w, h).finite(),
    decreases (if w <= 0 { 0int } else { w }),
{
    broadcast use vstd::set::group_set_axioms;

    if w <= 0 {
        assert(grid(w, h) =~= Set::empty());
    } else {
        lemma_grid_finite(w - 1, h);
        lemma_column_finite(w - 1, h);
        assert(grid(w, h) =~= grid(w - 1, h).union(column(w - 1, h)));
    }
}

/// The set of reachable cells lies within the grid, hence is finite.
proof fn lemma_reachable_finite(board: Board, start: Coord)
    ensures
        reachable(board, start).finite(),
        reachable(board, start).subset_of(grid(board.width as int, board.height as int)),
{
    let r = reachable(board, start);
    let g = grid(board.width as int, board.height as int);
    assert forall|t: Coord| r.contains(t) implies g.contains(t) by {
        let p = choose|p: Seq<Coord>| connects(board, start, t, p);
        assert(free_cell(board, p[p.len() - 1]));
    };
    lemma_grid_finite(board.width as int, board.height as int);
    lemma_len_subset(r, g);
}

/// Any set of cells that contains a free `start` and is closed under moves
/// to adjacent free cells contains the end of every walk from `start`.
proof fn lemma_closed_covers(board: Board, start: Coord, vs: Seq<Coord>, t: Coord, p: Seq<Coord>)
    requires
        free_cell(board, start) ==> vs.contains(start),
        forall|v: Coord, d: Coord| #![trigger vs.contains(v), adjacent(v, d)]
            vs.contains(v) && adjacent(v, d) && free_cell(board, d) ==> vs.contains(d),
        connects(board, start, t, p),
    ensures
        vs.contains(t),
    decreases p.len(),
{
    if p.len() == 1 {
        assert(t == start);
        assert(free_cell(board, p[0]));
    } else {
        let q = p.drop_last();
        let v = p[p.len() - 2];
        assert(connects(board, start, v, q)) by {
            assert forall|i: int| 0 <= i < q.len() implies free_cell(board, #[trigger] q[i]) by {
                assert(q[i] == p[i]);
            };
            assert forall|i: int| 0 < i < q.len() implies adjacent(q[i - 1], #[trigger] q[i]) by {
                assert(q[i] == p[i]);
                assert(q[i - 1] == p[i - 1]);
            };
            assert(q[0] == p[0]);
            assert(q[q.len() - 1] == v);
        }
        lemma_closed_covers(board, start, vs, v, q);
        assert(adjacent(p[p.len() - 2], p[p.len() - 1]));
        assert(free_cell(board, p[p.len() - 1]));
    }
}

/// The reachable-space estimate never exceeds its cap: however much room is
/// connected to `start`, the count stops at the supplied limit.
pub proof fn lemma_remaining_space_capped(board: Board, start: Coord, limit: int)
    ensures
        0 <= spec_remaining_space(board, start, limit) <= space_cap(limit),
        limit >= 0 ==> spec_remaining_space(board, start, limit) <= limit,
{
}

/// Connecting more free cells never shrinks the reachable-space estimate:
/// when every cell free on the first board stays free on the second, the
/// estimate on the second board is at least the estimate on the first.
pub proof fn lemma_remaining_space_monotone(b1: Board, b2: Board, start: Coord, limit: int)
    requires
        forall|c: Coord| #[trigger] free_cell(b1, c) ==> free_cell(b2, c),
    ensures
        spec_remaining_space(b1, start, limit) <= spec_remaining_space(b2, start, limit),
{
    let r1 = reachable(b1, start);
    let r2 = reachable(b2, start);
    assert forall|t: Coord| r1.contains(t) implies r2.contains(t) by {
        let p = choose|p: Seq<Coord>| connects(b1, start, t, p);
        assert forall|i: int| 0 <= i < p.len() implies free_cell(b2, #[trigger] p[i]) by {
            assert(free_cell(b1, p[i]));
        };
        assert(connects(b2, start, t, p));
    };
    lemma_reachable_finite(b2, start);
    lemma_len_subset(r1, r2);
}

/// A cell walled in on every side yields no room: when each adjacent cell
/// is blocked and the cell itself cannot be entered either (or the limit
/// asks for nothing), the estimate is zero.
pub proof fn lemma_enclosed_space_zero(board: Board, start: Coord, limit: int)
    requires
        forall|d: Coord| #[trigger] adjacent(start, d) ==> !free_cell(board, d),
        !free_cell(board, start) || limit <= 0,
    ensures
        spec_remaining_space(board, start, limit) == 0,
{
    if !free_cell(board, start) {
        lemma_space_of_blocked(board, start, limit);
    }
}

/// Within a walk from a walled-in start cell, no step can ever leave it:
/// every cell of the walk is the start itself.
proof fn lemma_enclosed_path_stays(board: Board, start: Coord, p: Seq<Coord>, i: int)
    requires
        forall|d: Coord| #[trigger] adjacent(start, d) ==> !free_cell(board, d),
        is_path(board, p),
        p.len() > 0,
        p[0] == start,
        0 <= i < p.len(),
    ensures
        p[i] == start,
    decreases i,
{
    if i > 0 {
        lemma_enclosed_path_stays(board, start, p, i - 1);
        assert(adjacent(p[i - 1], p[i]));
        assert(free_cell(board, p[i]));
    }
}

/// An enclosed but free cell counts exactly itself: when every adjacent
/// cell is blocked but the cell itself can be entered, the reachable-space
/// estimate is one, not zero.
pub proof fn lemma_enclosed_free_space_one(board: Board, start: Coord, limit: int)
    requires
        forall|d: Coord| #[trigger] adjacent(start, d) ==> !free_cell(board, d),
        free_cell(board, start),
        limit >= 1,
    ensures
        spec_remaining_space(board, start, limit) == 1,
{
    broadcast use vstd::set::group_set_axioms;

    let r = reachable(board, start);
    assert forall|t: Coord| r.contains(t) implies t == start by {
        let p = choose|p: Seq<Coord>| connects(board, start, t, p);
        lemma_enclosed_path_stays(board, start, p, p.len() - 1);
    };
    let single = seq![start];
    assert(single[0] == start);
    assert(connects(board, start, start, single));
    assert(r.contains(start));
    assert(r =~= Set::empty().insert(start));
}

/// A cell that can be entered reaches at least itself.
pub proof fn lemma_space_at_least_one(board: Board, start: Coord, limit: int)
    requires
        free_cell(board, start),
        limit >= 1,
    ensures
        spec_remaining_space(board, start, limit) >= 1,
{
    let single = seq![start];
    assert(single[0] == start);
    assert(connects(board, start, start, single));
    let r = reachable(board, start);
    assert(r.contains(start));
    lemma_reachable_finite(board, start);
    if r.len() == 0 {
        r.lemma_len0_is_empty();
    }
}

/// Nothing is reachable from a cell that cannot itself be entered.
pub proof fn lemma_space_of_blocked(board: Board, start: Coord, limit: int)
    requires
        !free_cell(board, start),
    ensures
        reachable(board, start).len() == 0,
        spec_remaining_space(board, start, limit) == 0,
{
    let r = reachable(board, start);
    assert forall|t: Coord| !r.contains(t) by {
        if r.contains(t) {
            let p = choose|p: Seq<Coord>| connects(board, start, t, p);
            assert(free_cell(board, p[0]));
        }
    };
    assert(r =~= Set::empty());
}

/// Iterative bounded flood fill. Starting at `spot`, it collects distinct
/// free cells connected to `spot`, stopping early once `my_length` cells
/// have been found: beyond the agent's own length more room does not change
/// the survival classification, and the cap keeps the work proportional to
/// the agent rather than the board.
///
/// The returned list holds distinct reachable cells; when it is shorter
/// than the cap it holds every reachable cell.
pub fn check_spot_for_space(spot: &Coord, board: &Board, my_length: i32) -> (r: Vec<Coord>)
    ensures
        r@.no_duplicates(),
        forall|k: int| 0 <= k < r@.len() ==> reachable(*board, *spot).contains(#[trigger] r@[k]),
        r@.len() <= space_cap(my_length as int),
        r@.len() < space_cap(my_length as int) ==> forall|t: Coord|
            reachable(*board, *spot).contains(t) ==> r@.contains(t),
{
    let cap: usize = if my_length <= 0 {
        0
    } else {
        my_length as usize
    };
    let mut available_spaces: Vec<Coord> = Vec::new();
    let mut frontier: Vec<Coord> = Vec::new();
    frontier.push(*spot);
    proof {
        assert(frontier@[0] == *spot);
    }
    while available_spaces.len() < cap && frontier.len() > 0
        invariant
            cap == space_cap(my_length as int),
            available_spaces@.no_duplicates(),
            available_spaces@.len() <= cap,
            forall|k: int| 0 <= k < available_spaces@.len() ==> reachable(*board, *spot).contains(
                #[trigger] available_spaces@[k],
            ),
            forall|k: int| 0 <= k < frontier@.len() ==> #[trigger] frontier@[k] == *spot
                || exists|j: int|
                0 <= j < available_spaces@.len() && adjacent(available_spaces@[j], frontier@[k]),
            forall|v: Coord, d: Coord| #![trigger available_spaces@.contains(v), adjacent(v, d)]
                available_spaces@.contains(v) && adjacent(v, d) && free_cell(*board, d)
                    ==> available_spaces@.contains(d) || frontier@.contains(d),
            free_cell(*board, *spot) ==> available_spaces@.contains(*spot) || frontier@.contains(
                *spot,
            ),
        decreases cap - available_spaces@.len(), frontier@.len(),
    {
        let ghost frontier0 = frontier@;
        let ghost avail0 = available_spaces@;
        let ghost last0 = frontier0.len() - 1;
        let c = frontier.pop().unwrap();
        proof {
            assert(c == frontier0[last0]);
            assert(frontier@ == frontier0.drop_last());
        }
        if !contains_coord(&available_spaces, c) && valid_move(&c, board) {
            proof {
                if c == *spot {
                    let single = seq![*spot];
                    assert(single[0] == *spot);
                    assert(connects(*board, *spot, c, single));
                } else {
                    assert(exists|j: int|
                        0 <= j < avail0.len() && adjacent(avail0[j], frontier0[last0]));
                    let j = choose|j: int| 0 <= j < avail0.len() && adjacent(avail0[j], c);
                    let v = avail0[j];
                    assert(reachable(*board, *spot).contains(v));
                    let p = choose|p: Seq<Coord>| connects(*board, *spot, v, p);
                    lemma_connects_step(*board, *spot, v, c, p);
                }
                assert(reachable(*board, *spot).contains(c));
            }
            available_spaces.push(c);
            let right = c.right();
            let left = c.left();
            let up = c.up();
            let down = c.down();
            frontier.push(right);
            frontier.push(left);
            frontier.push(up);
            frontier.push(down);
            proof {
                let vsnew = available_spaces@;
                let fnew = frontier@;
                let ci = vsnew.len() - 1;
                let fl = fnew.len();
                assert(vsnew[ci] == c);
                assert(vsnew.no_duplicates());
                assert(fnew[fl - 4] == right);
                assert(fnew[fl - 3] == left);
                assert(fnew[fl - 2] == up);
                assert(fnew[fl - 1] == down);
                assert(forall|k: int| 0 <= k < last0 ==> #[trigger] fnew[k] == frontier0[k]);
                assert forall|d: Coord| adjacent(c, d) implies fnew.contains(d) by {
                    if d.x == c.x && c.y + 1 == d.y {
                        assert(d == up);
                    } else if d.x == c.x && d.y + 1 == c.y {
                        assert(d == down);
                    } else if d.y == c.y && c.x + 1 == d.x {
                        assert(d == right);
                    } else {
                        assert(d == left);
                    }
                };
                assert forall|k: int| 0 <= k < fnew.len() implies #[trigger] fnew[k] == *spot
                    || exists|j: int|
                    0 <= j < vsnew.len() && adjacent(vsnew[j], fnew[k]) by {
                    if k < last0 {
                        assert(fnew[k] == frontier0[k]);
                        if frontier0[k] != *spot {
                            let j = choose|j: int|
                                0 <= j < avail0.len() && adjacent(avail0[j], frontier0[k]);
                            assert(vsnew[j] == avail0[j]);
                            assert(adjacent(vsnew[j], fnew[k]));
                        }
                    } else {
                        assert(adjacent(c, fnew[k]));
                        assert(adjacent(vsnew[ci], fnew[k]));
                    }
                };
                assert forall|v: Coord, d: Coord|
                    #![trigger vsnew.contains(v), adjacent(v, d)]
                    vsnew.contains(v) && adjacent(v, d) && free_cell(*board, d)
                        implies vsnew.contains(d) || fnew.contains(d) by {
                    if vsnew.contains(v) && adjacent(v, d) && free_cell(*board, d) {
                        if v == c {
                            assert(fnew.contains(d));
                        } else {
                            let vi = choose|vi: int| 0 <= vi < vsnew.len() && vsnew[vi] == v;
                            assert(avail0[vi] == v);
                            assert(avail0.contains(v));
                            if avail0.contains(d) {
                                let di = choose|di: int|
                                    0 <= di < avail0.len() && avail0[di] == d;
                                assert(vsnew[di] == d);
                            } else {
                                assert(frontier0.contains(d));
                                let fi = choose|fi: int|
                                    0 <= fi < frontier0.len() && frontier0[fi] == d;
                                if fi < last0 {
                                    assert(fnew[fi] == d);
                                } else {
                                    assert(d == c);
                                    assert(vsnew[ci] == d);
                                }
                            }
                        }
                    }
                };
                if free_cell(*board, *spot) {
                    if avail0.contains(*spot) {
                        let si = choose|si: int| 0 <= si < avail0.len() && avail0[si] == *spot;
                        assert(vsnew[si] == *spot);
                    } else {
                        assert(frontier0.contains(*spot));
                        let fi = choose|fi: int|
                            0 <= fi < frontier0.len() && frontier0[fi] == *spot;
                        if fi < last0 {
                            assert(fnew[fi] == *spot);
                        } else {
                            assert(*spot == c);
                            assert(vsnew[ci] == *spot);
                        }
                    }
                }
            }
        } else {
            proof {
                let fnew = frontier@;
                assert(available_spaces@.contains(c) || !free_cell(*board, c));
                assert forall|v: Coord, d: Coord|
                    #![trigger available_spaces@.contains(v), adjacent(v, d)]
                    available_spaces@.contains(v) && adjacent(v, d) && free_cell(*board, d)
                        implies available_spaces@.contains(d) || fnew.contains(d) by {
                    if available_spaces@.contains(v) && adjacent(v, d) && free_cell(*board, d) {
                        if !available_spaces@.contains(d) {
                            assert(frontier0.contains(d));
                            let fi = choose|fi: int|
                                0 <= fi < frontier0.len() && frontier0[fi] == d;
                            if fi < last0 {
                                assert(fnew[fi] == d);
                            } else {
                                assert(d == c);
                                assert(available_spaces@.contains(d));
                            }
                        }
                    }
                };
                if free_cell(*board, *spot) && !available_spaces@.contains(*spot) {
                    assert(frontier0.contains(*spot));
                    let fi = choose|fi: int|
                        0 <= fi < frontier0.len() && frontier0[fi] == *spot;
                    if fi < last0 {
                        assert(fnew[fi] == *spot);
                    } else {
                        assert(*spot == c);
                        assert(free_cell(*board, c));
                        assert(available_spaces@.contains(c));
                    }
                }
            }
        }
    }
    proof {
        if available_spaces@.len() < cap {
            assert(frontier@.len() == 0);
            let vs = available_spaces@;
            assert forall|t: Coord| reachable(*board, *spot).contains(t) implies vs.contains(
                t,
            ) by {
                assert forall|v: Coord, d: Coord|
                    #![trigger vs.contains(v), adjacent(v, d)]
                    vs.contains(v) && adjacent(v, d) && free_cell(*board, d) implies vs.contains(
                    d,
                ) by {
                    if vs.contains(v) && adjacent(v, d) && free_cell(*board, d) {
                        assert(!frontier@.contains(d));
                    }
                };
                let p = choose|p: Seq<Coord>| connects(*board, *spot, t, p);
                lemma_closed_covers(*board, *spot, vs, t, p);
            };
        }
    }
    available_spaces
}

/// How many free cells the acting agent could reach from `spot`, counted up
/// to its own length: exactly the number of connected free cells, capped.
pub fn remaining_space(spot: &Coord, board: &Board, me: &Battlesnake) -> (r: i32)
    ensures
        r as int == spec_remaining_space(*board, *spot, me.length as int),
        0 <= r as int <= space_cap(me.length as int),
{
    let available_spaces = check_spot_for_space(spot, board, me.length);
    proof {
        let rset = reachable(*board, *spot);
        let vs = available_spaces@;
        vs.unique_seq_to_set();
        lemma_reachable_finite(*board, *spot);
        assert forall|t: Coord| vs.to_set().contains(t) implies rset.contains(t) by {
            let k = choose|k: int| 0 <= k < vs.len() && vs[k] == t;
            assert(rset.contains(vs[k]));
        };
        lemma_len_subset(vs.to_set(), rset);
        if vs.len() < space_cap(me.length as int) {
            assert forall|t: Coord| rset.contains(t) implies vs.to_set().contains(t) by {
                assert(vs.contains(t));
            };
            assert(vs.to_set() =~= rset);
        }
    }
    available_spaces.len() as i32
}

} // verus!
