//! Dijkstra's algorithm over the states of the crucible.

use crate::heat::frontier::{Frontier, FrontierEntry};
use crate::heat::grid::{HeatMatrix, Point};
use crate::heat::route::{
    end_state, is_best_route, is_route, is_route_to, lemma_end_state, lemma_route_extend,
    lemma_route_weight_bounds, route_weight, start_state, transition, Direction, SearchState,
};
use crate::heat::tree::{
    is_node, lemma_open_count_bound, lemma_open_count_update, lemma_slot_bounds,
    lemma_slot_unique, open_count, search_fits, slot_count, slot_of, DijkstraData,
    DijkstraMatrix, DijkstraState,
};
use vstd::prelude::*;

verus! {

/// `after` is `before` with the table's entry and the route of state `t`
/// replaced.
pub open spec fn rewritten(before: &DijkstraMatrix, after: &DijkstraMatrix, t: SearchState) -> bool {
    let i = slot_of(before.w as int, before.max_run as int, t);
    &&& after.w == before.w
    &&& after.h == before.h
    &&& after.max_run == before.max_run
    &&& after.start == before.start
    &&& after.goal == before.goal
    &&& after.values@ == before.values@.update(i, after.values@[i])
    &&& after.routes@ == before.routes@.update(i, after.routes@[i])
}

/// Rewriting the entry of one state leaves the entries of all others as
/// they were.
pub proof fn lemma_rewritten(
    before: &DijkstraMatrix,
    after: &DijkstraMatrix,
    grid: &HeatMatrix,
    t: SearchState,
)
    requires
        before.fits(grid),
        before.node(t),
        rewritten(before, after, t),
    ensures
        after.fits(grid),
        forall|s: SearchState|
            #[trigger] is_node(
                before.w as int,
                before.h as int,
                before.max_run as int,
                before.start,
                s,
            ) && s != t ==> after.data(s) == before.data(s) && after.route(s) == before.route(s),
        forall|s: SearchState|
            #[trigger] is_node(
                before.w as int,
                before.h as int,
                before.max_run as int,
                before.start,
                s,
            ) ==> 0 <= slot_of(before.w as int, before.max_run as int, s) < before.values@.len(),
        after.known_count() + (if after.data(t).state is Known {
            0int
        } else {
            1int
        }) == before.known_count() + (if before.data(t).state is Known {
            0int
        } else {
            1int
        }),
{
    let w = before.w as int;
    let h = before.h as int;
    let m = before.max_run as int;
    let i = slot_of(w, m, t);
    lemma_slot_bounds(w, h, m, before.start, t);
    lemma_open_count_update(before.values@, i, after.values@[i]);
    assert forall|s: SearchState| #[trigger] is_node(w, h, m, before.start, s) implies 0
        <= slot_of(w, m, s) < before.values@.len() by {
        lemma_slot_bounds(w, h, m, before.start, s);
    }
    assert forall|s: SearchState| #[trigger] is_node(w, h, m, before.start, s) && s
        != t implies after.data(s) == before.data(s) && after.route(s) == before.route(s) by {
        lemma_slot_bounds(w, h, m, before.start, s);
        if slot_of(w, m, s) == i {
            lemma_slot_unique(w, h, m, before.start, s, t);
        }
    }
}

/// A step from a state of the search leads to a state of the search, and to
/// no other state in the same direction.
pub proof fn lemma_transition(
    tree: &DijkstraMatrix,
    grid: &HeatMatrix,
    from: SearchState,
    to: SearchState,
)
    requires
        tree.fits(grid),
        tree.node(from),
        transition(grid, tree.max_run as int, from, to),
    ensures
        tree.node(to),
        to != from,
        to != start_state(tree.start),
        0 <= grid.at(to.pos) <= 9,
        forall|other: SearchState| #[trigger]
            transition(grid, tree.max_run as int, from, other) && other.dir == to.dir ==> other
                == to,
{
    grid.lemma_index(to.pos);
}

/// What reaching state `to` from the final state `from` does to the
/// search: `to` gets the distance `nd` and the route through `from`, and
/// goes on the frontier. All that held of the search still holds, and
/// `from` is closed in one direction more.
pub proof fn lemma_reach(
    before: &DijkstraMatrix,
    after: &DijkstraMatrix,
    grid: &HeatMatrix,
    target: Point,
    from: SearchState,
    to: SearchState,
    k: int,
    nd: int,
)
    requires
        before.inv(grid, target, Some((from, k)), before.data(from).distance as int),
        before.node(from),
        before.data(from).state is Known,
        transition(grid, before.max_run as int, from, to),
        to.dir.unwrap().code() == k,
        before.data(from).distance + 9 <= 9 * before.known_count(),
        nd == before.data(from).distance + grid.at(to.pos),
        before.data(to).state is Unknown || nd < before.data(to).distance,
        rewritten(before, after, to),
        after.data(to).state is Boundary,
        after.data(to).distance == nd,
        after.data(to).prev == Some(from),
        after.route(to) == before.route(from).push(to.pos),
        after.boundary.wf(),
        forall|x: FrontierEntry|
            after.boundary.holds(x) <==> (before.boundary.holds(x) || x == FrontierEntry {
                state: to,
                distance: nd as i64,
            }),
    ensures
        after.inv(grid, target, Some((from, k + 1)), before.data(from).distance as int),
        after.fits(grid),
        after.data(from) == before.data(from),
        after.known_count() == before.known_count(),
{
    reveal(DijkstraMatrix::inv);
    reveal(DijkstraMatrix::routes_ok);
    let w = before.w as int;
    let h = before.h as int;
    let m = before.max_run as int;
    let start = before.start;
    let d = before.data(from).distance as int;
    lemma_transition(before, grid, from, to);
    lemma_rewritten(before, after, grid, to);
    assert(is_node(w, h, m, start, to));
    assert(is_node(w, h, m, start, from));
    assert(is_node(w, h, m, start, start_state(start)));
    assert(!(before.data(to).state is Known));
    assert(before.route_ok(grid, from));
    lemma_route_extend(grid, m, start, before.route(from), to);
    lemma_route_weight_bounds(grid, before.route(from));

    assert forall|s: SearchState| #[trigger] is_node(w, h, m, start, s) && after.reached(
        s,
    ) implies after.route_ok(grid, s) by {
        if s == to {
            assert(after.route(to).drop_last() =~= before.route(from));
        } else {
            assert(before.route_ok(grid, s));
            match before.data(s).prev {
                None => {},
                Some(p) => {
                    assert(is_node(w, h, m, start, p));
                },
            }
        }
    }

    assert forall|u: SearchState| #[trigger] is_node(w, h, m, start, u) && after.data(
        u,
    ).state is Known implies after.closed_at(
        grid,
        u,
        DijkstraMatrix::due(Some((from, k + 1)), u),
    ) by {
        assert(u != to);
        assert(before.closed_at(grid, u, DijkstraMatrix::due(Some((from, k)), u)));
        assert forall|t: SearchState| #[trigger]
            transition(grid, m, u, t) && t.dir.unwrap().code() < DijkstraMatrix::due(
                Some((from, k + 1)),
                u,
            ) implies after.reached(t) && after.data(t).distance <= after.data(u).distance
            + grid.at(t.pos) by {
            lemma_transition(before, grid, u, t);
            assert(is_node(w, h, m, start, t));
            if t == to {
                if u == from {
                } else {
                    assert(before.reached(t));
                }
            } else {
                if u == from {
                    assert(t.dir.unwrap().code() != k) by {
                        if t.dir.unwrap().code() == k {
                            assert(t.dir == to.dir);
                        }
                    }
                }
            }
        }
    }

    assert forall|e: FrontierEntry| #[trigger] after.boundary.holds(e) implies after.node(e.state)
        && after.reached(e.state) && after.data(e.state).distance <= e.distance by {
        if before.boundary.holds(e) {
            assert(is_node(w, h, m, start, e.state));
        }
    }
    assert forall|s: SearchState| #[trigger] is_node(w, h, m, start, s) && after.data(
        s,
    ).state is Boundary implies after.boundary.holds(
        FrontierEntry { state: s, distance: after.data(s).distance },
    ) by {
        if s != to {
            assert(before.boundary.holds(
                FrontierEntry { state: s, distance: before.data(s).distance },
            ));
        }
    }
    assert forall|u: SearchState| #[trigger] is_node(w, h, m, start, u) && after.data(
        u,
    ).state is Known implies u.pos != target by {
        assert(u != to);
    }
    assert forall|u: SearchState| #[trigger] is_node(w, h, m, start, u) implies (after.data(
        u,
    ).state is Known ==> after.data(u).distance <= d) && (after.data(u).state is Boundary ==> d
        <= after.data(u).distance) by {
        if u != to {
        }
    }
}

/// Where no step leads from `from` in the direction with code `k`, `from`
/// is closed in that direction.
pub proof fn lemma_blocked(
    tree: &DijkstraMatrix,
    grid: &HeatMatrix,
    target: Point,
    from: SearchState,
    k: int,
    level: int,
)
    requires
        tree.inv(grid, target, Some((from, k)), level),
        forall|t: SearchState| #[trigger]
            transition(grid, tree.max_run as int, from, t) ==> t.dir.unwrap().code() != k,
    ensures
        tree.inv(grid, target, Some((from, k + 1)), level),
{
    reveal(DijkstraMatrix::inv);
    let w = tree.w as int;
    let h = tree.h as int;
    let m = tree.max_run as int;
    assert forall|u: SearchState| #[trigger] is_node(w, h, m, tree.start, u) && tree.data(
        u,
    ).state is Known implies tree.closed_at(
        grid,
        u,
        DijkstraMatrix::due(Some((from, k + 1)), u),
    ) by {
        assert(tree.closed_at(grid, u, DijkstraMatrix::due(Some((from, k)), u)));
    }
}

/// Where the step from `from` to `to` leads to a state that is already as
/// near, `from` is closed in the direction of that step.
pub proof fn lemma_no_gain(
    tree: &DijkstraMatrix,
    grid: &HeatMatrix,
    target: Point,
    from: SearchState,
    to: SearchState,
    k: int,
    level: int,
)
    requires
        tree.inv(grid, target, Some((from, k)), level),
        tree.node(from),
        transition(grid, tree.max_run as int, from, to),
        to.dir.unwrap().code() == k,
        tree.reached(to),
        tree.data(to).distance <= tree.data(from).distance + grid.at(to.pos),
    ensures
        tree.inv(grid, target, Some((from, k + 1)), level),
{
    reveal(DijkstraMatrix::inv);
    let w = tree.w as int;
    let h = tree.h as int;
    let m = tree.max_run as int;
    lemma_transition(tree, grid, from, to);
    assert forall|u: SearchState| #[trigger] is_node(w, h, m, tree.start, u) && tree.data(
        u,
    ).state is Known implies tree.closed_at(
        grid,
        u,
        DijkstraMatrix::due(Some((from, k + 1)), u),
    ) by {
        assert(tree.closed_at(grid, u, DijkstraMatrix::due(Some((from, k)), u)));
        if u == from {
            assert forall|t: SearchState| #[trigger]
                transition(grid, m, u, t) && t.dir.unwrap().code() < k + 1 implies tree.reached(
                t,
            ) && tree.data(t).distance <= tree.data(u).distance + grid.at(t.pos) by {
                if t.dir.unwrap().code() == k {
                    assert(t.dir == to.dir);
                }
            }
        }
    }
}

/// What making the nearest state on the boundary final does to the search:
/// all that held of it still holds, but the state is not closed yet.
pub proof fn lemma_settle(
    before: &DijkstraMatrix,
    after: &DijkstraMatrix,
    grid: &HeatMatrix,
    target: Point,
    s: SearchState,
    level: int,
)
    requires
        before.inv(grid, target, None, level),
        before.node(s),
        before.data(s).state is Boundary,
        rewritten(before, after, s),
        after.data(s).state is Known,
        after.data(s).distance == before.data(s).distance,
        after.data(s).prev == before.data(s).prev,
        after.route(s) == before.route(s),
        after.boundary.wf(),
        forall|x: FrontierEntry| #[trigger] after.boundary.holds(x) ==> before.boundary.holds(x),
        forall|x: FrontierEntry| #[trigger]
            before.boundary.holds(x) ==> after.boundary.holds(x) || x.state == s,
        forall|x: FrontierEntry| #[trigger]
            before.boundary.holds(x) ==> before.data(s).distance <= x.distance,
    ensures
        after.fits(grid),
        after.routes_ok(grid),
        s.pos != target ==> after.inv(grid, target, Some((s, 0)), before.data(s).distance as int),
        after.known_count() == before.known_count() + 1,
        after.data(s).distance + 9 <= 9 * after.known_count(),
{
    reveal(DijkstraMatrix::inv);
    reveal(DijkstraMatrix::routes_ok);
    let w = before.w as int;
    let h = before.h as int;
    let m = before.max_run as int;
    let start = before.start;
    lemma_rewritten(before, after, grid, s);
    assert(is_node(w, h, m, start, s));
    assert(is_node(w, h, m, start, start_state(start)));
    assert(before.route_ok(grid, s));
    assert forall|v: SearchState| #[trigger] is_node(w, h, m, start, v) && after.reached(
        v,
    ) implies after.route_ok(grid, v) by {
        assert(before.route_ok(grid, v));
        match before.data(v).prev {
            None => {},
            Some(p) => {
                assert(is_node(w, h, m, start, p));
            },
        }
    }
    assert forall|u: SearchState| #[trigger] is_node(w, h, m, start, u) && after.data(
        u,
    ).state is Known implies after.closed_at(grid, u, DijkstraMatrix::due(Some((s, 0)), u)) by {
        if u != s {
            assert(before.closed_at(grid, u, 4));
            assert forall|t: SearchState| #[trigger]
                transition(grid, m, u, t) && t.dir.unwrap().code() < 4 implies after.reached(t)
                && after.data(t).distance <= after.data(u).distance + grid.at(t.pos) by {
                lemma_transition(before, grid, u, t);
                assert(is_node(w, h, m, start, t));
            }
        }
    }
    assert forall|e: FrontierEntry| #[trigger] after.boundary.holds(e) implies after.node(e.state)
        && after.reached(e.state) && after.data(e.state).distance <= e.distance by {
        assert(before.boundary.holds(e));
        assert(is_node(w, h, m, start, e.state));
    }
    assert forall|v: SearchState| #[trigger] is_node(w, h, m, start, v) && after.data(
        v,
    ).state is Boundary implies after.boundary.holds(
        FrontierEntry { state: v, distance: after.data(v).distance },
    ) by {
        assert(before.boundary.holds(FrontierEntry { state: v, distance: before.data(v).distance }));
    }
    assert forall|u: SearchState| #[trigger] is_node(w, h, m, start, u) implies (after.data(
        u,
    ).state is Known ==> after.data(u).distance <= before.data(s).distance) && (after.data(
        u,
    ).state is Boundary ==> before.data(s).distance <= after.data(u).distance) by {
        if u != s && before.data(u).state is Boundary {
            assert(before.boundary.holds(
                FrontierEntry { state: u, distance: before.data(u).distance },
            ));
        }
    }
}

/// When a state at the target is the nearest on the boundary, its route is
/// a best route to the target.
pub proof fn lemma_arrived(
    tree: &DijkstraMatrix,
    grid: &HeatMatrix,
    target: Point,
    s: SearchState,
    lvl: int,
)
    requires
        tree.inv(grid, target, None, lvl),
        tree.node(s),
        tree.data(s).state is Boundary,
        s.pos == target,
        forall|x: FrontierEntry| #[trigger]
            tree.boundary.holds(x) ==> tree.data(s).distance <= x.distance,
    ensures
        is_best_route(grid, tree.max_run as int, tree.start, target, tree.route(s)),
{
    reveal(DijkstraMatrix::inv);
    reveal(DijkstraMatrix::routes_ok);
    let w = tree.w as int;
    let h = tree.h as int;
    let m = tree.max_run as int;
    let start = tree.start;
    let level = tree.data(s).distance as int;
    assert(is_node(w, h, m, start, s));
    assert(tree.route_ok(grid, s));
    lemma_end_state(grid, m, start, tree.route(s));
    assert forall|u: SearchState| #[trigger] is_node(w, h, m, start, u) && tree.data(
        u,
    ).state is Boundary implies level <= tree.data(u).distance by {
        assert(tree.boundary.holds(FrontierEntry { state: u, distance: tree.data(u).distance }));
    }
    assert forall|other: Seq<Point>| #[trigger]
        is_route_to(grid, m, start, target, other) implies route_weight(grid, tree.route(s))
        <= route_weight(grid, other) by {
        tree.lemma_lower_bound(grid, level, other);
        lemma_end_state(grid, m, start, other);
        let e = end_state(other);
        assert(is_node(w, h, m, start, e));
    }
}

/// The distance of a final state is final: no route that ends in that
/// state loses less heat.
pub proof fn lemma_final_is_best(
    tree: &DijkstraMatrix,
    grid: &HeatMatrix,
    target: Point,
    level: int,
    s: SearchState,
    r: Seq<Point>,
)
    requires
        tree.inv(grid, target, None, level),
        tree.node(s),
        tree.data(s).state is Known,
        is_route(grid, tree.max_run as int, tree.start, r),
        end_state(r) == s,
    ensures
        tree.data(s).distance <= route_weight(grid, r),
        tree.data(s).distance == route_weight(grid, tree.route(s)),
        is_route(grid, tree.max_run as int, tree.start, tree.route(s)),
        end_state(tree.route(s)) == s,
{
    reveal(DijkstraMatrix::inv);
    reveal(DijkstraMatrix::routes_ok);
    let w = tree.w as int;
    let h = tree.h as int;
    let m = tree.max_run as int;
    assert(is_node(w, h, m, tree.start, s));
    assert(tree.route_ok(grid, s));
    assert forall|u: SearchState| #[trigger] is_node(w, h, m, tree.start, u) && tree.data(
        u,
    ).state is Boundary implies level <= tree.data(u).distance by {
    }
    tree.lemma_lower_bound(grid, level, r);
}

/// When the boundary is empty and no state at the target is final, no
/// route leads to the target.
pub proof fn lemma_exhausted(tree: &DijkstraMatrix, grid: &HeatMatrix, target: Point, lvl: int)
    requires
        tree.inv(grid, target, None, lvl),
        tree.boundary.entries@.len() == 0,
    ensures
        forall|r: Seq<Point>| !#[trigger] is_route_to(grid, tree.max_run as int, tree.start, target, r),
{
    reveal(DijkstraMatrix::inv);
    let w = tree.w as int;
    let h = tree.h as int;
    let m = tree.max_run as int;
    let start = tree.start;
    assert forall|u: SearchState| #[trigger] is_node(w, h, m, start, u) implies !(tree.data(
        u,
    ).state is Boundary) by {
        if tree.data(u).state is Boundary {
            assert(tree.boundary.holds(FrontierEntry { state: u, distance: tree.data(u).distance }));
        }
    }
    assert forall|r: Seq<Point>| !#[trigger] is_route_to(grid, m, start, target, r) by {
        if is_route_to(grid, m, start, target, r) {
            let level = route_weight(grid, r) + 1;
            tree.lemma_lower_bound(grid, level, r);
            lemma_end_state(grid, m, start, r);
            let e = end_state(r);
            assert(is_node(w, h, m, start, e));
        }
    }
}

/// When the boundary is empty, the table spans the grid: it has a best
/// route to every state that a route leads to.
pub proof fn lemma_whole(tree: &DijkstraMatrix, grid: &HeatMatrix, target: Point, lvl: int)
    requires
        tree.inv(grid, target, None, lvl),
        tree.boundary.entries@.len() == 0,
    ensures
        tree.spans(grid),
{
    reveal(DijkstraMatrix::inv);
    let w = tree.w as int;
    let h = tree.h as int;
    let m = tree.max_run as int;
    let start = tree.start;
    assert forall|u: SearchState| #[trigger] is_node(w, h, m, start, u) implies !(tree.data(
        u,
    ).state is Boundary) by {
        if tree.data(u).state is Boundary {
            assert(tree.boundary.holds(FrontierEntry { state: u, distance: tree.data(u).distance }));
        }
    }
    assert forall|r: Seq<Point>| #[trigger] is_route(grid, m, start, r) implies tree.holds_best(
        grid,
        r,
    ) by {
        let level = route_weight(grid, r) + 1;
        tree.lemma_lower_bound(grid, level, r);
    }
}

/// In a table that spans the grid, the route recorded for the state in
/// which a route `r` ends is a route to that state too, loses as much heat
/// as the table says, and no more than `r`.
pub proof fn lemma_tree_is_best(tree: &DijkstraMatrix, grid: &HeatMatrix, r: Seq<Point>)
    requires
        tree.spans(grid),
        is_route(grid, tree.max_run as int, tree.start, r),
    ensures
        is_route(grid, tree.max_run as int, tree.start, tree.route(end_state(r))),
        end_state(tree.route(end_state(r))) == end_state(r),
        route_weight(grid, tree.route(end_state(r))) == tree.data(end_state(r)).distance,
        route_weight(grid, tree.route(end_state(r))) <= route_weight(grid, r),
{
    reveal(DijkstraMatrix::routes_ok);
    assert(tree.holds_best(grid, r));
    let e = end_state(r);
    assert(is_node(tree.w as int, tree.h as int, tree.max_run as int, tree.start, e));
    assert(tree.route_ok(grid, e));
}

/// Where an entry taken off the frontier is out of date, because its state
/// is final or has come nearer since, all that held of the search still
/// holds without it.
pub proof fn lemma_discard(
    before: &DijkstraMatrix,
    after: &DijkstraMatrix,
    grid: &HeatMatrix,
    target: Point,
    e: FrontierEntry,
    level: int,
)
    requires
        before.inv(grid, target, None, level),
        before.boundary.holds(e),
        before.data(e.state).state is Known || before.data(e.state).distance != e.distance,
        after.w == before.w,
        after.h == before.h,
        after.max_run == before.max_run,
        after.start == before.start,
        after.goal == before.goal,
        after.values@ == before.values@,
        after.routes@ == before.routes@,
        after.boundary.wf(),
        forall|x: FrontierEntry| #[trigger] after.boundary.holds(x) ==> before.boundary.holds(x),
        forall|x: FrontierEntry| #[trigger]
            before.boundary.holds(x) ==> after.boundary.holds(x) || x == e,
    ensures
        after.inv(grid, target, None, level),
{
    reveal(DijkstraMatrix::inv);
    reveal(DijkstraMatrix::routes_ok);
    let w = before.w as int;
    let h = before.h as int;
    let m = before.max_run as int;
    let start = before.start;
    assert forall|v: SearchState| #[trigger] is_node(w, h, m, start, v) && after.reached(
        v,
    ) implies after.route_ok(grid, v) by {
        assert(before.route_ok(grid, v));
    }
    assert forall|u: SearchState| #[trigger] is_node(w, h, m, start, u) && after.data(
        u,
    ).state is Known implies after.closed_at(grid, u, 4) by {
        assert(before.closed_at(grid, u, 4));
    }
    assert forall|x: FrontierEntry| #[trigger] after.boundary.holds(x) implies after.node(x.state)
        && after.reached(x.state) && after.data(x.state).distance <= x.distance by {
        assert(before.boundary.holds(x));
    }
    assert forall|v: SearchState| #[trigger] is_node(w, h, m, start, v) && after.data(
        v,
    ).state is Boundary implies after.boundary.holds(
        FrontierEntry { state: v, distance: after.data(v).distance },
    ) by {
        assert(before.boundary.holds(FrontierEntry { state: v, distance: before.data(v).distance }));
    }
}

/// The route of a reached state ends at the state and, but at the start,
/// continues the route of the state before it by one block.
pub proof fn lemma_step_back(tree: &DijkstraMatrix, grid: &HeatMatrix, s: SearchState)
    requires
        tree.fits(grid),
        tree.routes_ok(grid),
        tree.node(s),
        tree.reached(s),
    ensures
        tree.route_ok(grid, s),
        tree.route(s).len() >= 1,
        tree.route(s).last() == s.pos,
        match tree.data(s).prev {
            None => tree.route(s).len() == 1,
            Some(p) => {
                &&& tree.node(p)
                &&& tree.reached(p)
                &&& tree.route(s).len() >= 2
                &&& tree.route(p) == tree.route(s).drop_last()
            },
        },
{
    reveal(DijkstraMatrix::routes_ok);
    assert(is_node(tree.w as int, tree.h as int, tree.max_run as int, tree.start, s));
    assert(tree.route_ok(grid, s));
    lemma_end_state(grid, tree.max_run as int, tree.start, tree.route(s));
}

/// Naming the goal changes nothing in the routes that the table records.
pub proof fn lemma_name_goal(before: &DijkstraMatrix, after: &DijkstraMatrix, grid: &HeatMatrix)
    requires
        before.routes_ok(grid),
        after.w == before.w,
        after.h == before.h,
        after.max_run == before.max_run,
        after.start == before.start,
        after.values@ == before.values@,
        after.routes@ == before.routes@,
    ensures
        after.routes_ok(grid),
{
    reveal(DijkstraMatrix::routes_ok);
    assert forall|s: SearchState|
        #[trigger] is_node(after.w as int, after.h as int, after.max_run as int, after.start, s)
            && after.reached(s) implies after.route_ok(grid, s) by {
        assert(before.route_ok(grid, s));
    }
}

/// What the search can rely on for an entry of the frontier: its state is
/// a reached state of the search, at a distance no more than the entry's.
pub proof fn lemma_entry(
    tree: &DijkstraMatrix,
    grid: &HeatMatrix,
    target: Point,
    level: int,
    e: FrontierEntry,
)
    requires
        tree.inv(grid, target, None, level),
        tree.boundary.holds(e),
    ensures
        tree.fits(grid),
        tree.goal is None,
        tree.boundary.wf(),
        tree.node(e.state),
        tree.reached(e.state),
        tree.data(e.state).distance <= e.distance,
{
    reveal(DijkstraMatrix::inv);
}

/// A search under way has a table that fits its grid, a frontier in heap
/// order, and no goal yet.
pub proof fn lemma_under_way(
    tree: &DijkstraMatrix,
    grid: &HeatMatrix,
    target: Point,
    pending: Option<(SearchState, int)>,
    level: int,
)
    requires
        tree.inv(grid, target, pending, level),
    ensures
        tree.fits(grid),
        tree.goal is None,
        tree.boundary.wf(),
{
    reveal(DijkstraMatrix::inv);
}

/// Once the steps in all four directions have been taken from the state
/// that was made final last, every final state is closed.
pub proof fn lemma_close(
    tree: &DijkstraMatrix,
    grid: &HeatMatrix,
    target: Point,
    s: SearchState,
    level: int,
)
    requires
        tree.inv(grid, target, Some((s, 4)), level),
    ensures
        tree.inv(grid, target, None, level),
{
    reveal(DijkstraMatrix::inv);
    assert forall|u: SearchState|
        #[trigger] is_node(tree.w as int, tree.h as int, tree.max_run as int, tree.start, u)
            && tree.data(u).state is Known implies tree.closed_at(grid, u, 4) by {
        assert(tree.closed_at(grid, u, DijkstraMatrix::due(Some((s, 4)), u)));
    }
}

/// A table in which only the start is reached, at distance 0, with the
/// start alone on the frontier, is a search under way.
pub proof fn lemma_begin(tree: &DijkstraMatrix, grid: &HeatMatrix, target: Point)
    requires
        tree.fits(grid),
        tree.goal is None,
        tree.boundary.wf(),
        forall|x: FrontierEntry|
            tree.boundary.holds(x) <==> x == (FrontierEntry {
                state: start_state(tree.start),
                distance: 0,
            }),
        tree.values@[0] == (DijkstraData {
            state: DijkstraState::Boundary,
            distance: 0,
            prev: None,
        }),
        tree.routes@[0] == seq![tree.start],
        forall|i: int| 1 <= i < tree.values@.len() ==> (#[trigger] tree.values@[i]).state is Unknown,
    ensures
        tree.inv(grid, target, None, 0),
{
    reveal(DijkstraMatrix::inv);
    reveal(DijkstraMatrix::routes_ok);
    let w = tree.w as int;
    let h = tree.h as int;
    let m = tree.max_run as int;
    let s = tree.start;
    let first = start_state(s);
    assert(is_node(w, h, m, s, first));
    lemma_open_count_bound(tree.values@);
    assert forall|v: SearchState| #[trigger] is_node(w, h, m, s, v) && v != first implies tree.data(
        v,
    ).state is Unknown by {
        lemma_slot_bounds(w, h, m, s, v);
    }
    assert(tree.route_ok(grid, first));
}

impl Direction {
    /// The number from 0 to 3 that stands for the direction.
    pub fn index(&self) -> (i: i64)
        ensures
            i == self.code(),
    {
        match self {
            Direction::Up => 0,
            Direction::Down => 1,
            Direction::Left => 2,
            Direction::Right => 3,
        }
    }

    /// The direction that the number `i` stands for.
    pub fn from_index(i: i64) -> (d: Direction)
        requires
            0 <= i < 4,
        ensures
            d.code() == i,
    {
        if i == 0 {
            Direction::Up
        } else if i == 1 {
            Direction::Down
        } else if i == 2 {
            Direction::Left
        } else {
            Direction::Right
        }
    }
}

impl DijkstraMatrix {
    /// The table has a place for every state.
    pub open spec fn sized(&self) -> bool {
        &&& 1 <= self.max_run
        &&& self.values@.len() == slot_count(self.w as int, self.h as int, self.max_run as int)
        &&& search_fits(self.w as int, self.h as int, self.max_run as int)
    }

    /// The place of state `s` in the table.
    pub fn slot(&self, s: &SearchState) -> (i: usize)
        requires
            self.sized(),
            self.node(*s),
        ensures
            i == slot_of(self.w as int, self.max_run as int, *s),
            i < self.values@.len(),
    {
        proof {
            lemma_slot_bounds(self.w as int, self.h as int, self.max_run as int, self.start, *s);
        }
        match s.dir {
            None => 0,
            Some(d) => {
                let block = s.pos.y * self.w + s.pos.x;
                let arrival = block * 4 + d.index();
                let place = arrival * self.max_run + (s.run - 1) + 1;
                place as usize
            },
        }
    }

    /// What the table holds for state `s`.
    pub fn get(&self, s: &SearchState) -> (d: DijkstraData)
        requires
            self.sized(),
            self.node(*s),
        ensures
            d == self.data(*s),
    {
        let i = self.slot(s);
        self.values[i]
    }

    /// Takes a nearest entry off the frontier.
    pub fn remove_minimal_point(&mut self) -> (nearest: FrontierEntry)
        requires
            old(self).boundary.wf(),
            old(self).boundary.entries@.len() > 0,
        ensures
            final(self).w == old(self).w,
            final(self).h == old(self).h,
            final(self).max_run == old(self).max_run,
            final(self).start == old(self).start,
            final(self).goal == old(self).goal,
            final(self).values@ == old(self).values@,
            final(self).routes@ == old(self).routes@,
            final(self).boundary.wf(),
            final(self).boundary.entries@.len() + 1 == old(self).boundary.entries@.len(),
            old(self).boundary.holds(nearest),
            forall|x: FrontierEntry| #[trigger]
                old(self).boundary.holds(x) ==> nearest.distance <= x.distance,
            forall|x: FrontierEntry| #[trigger]
                old(self).boundary.holds(x) ==> final(self).boundary.holds(x) || x == nearest,
            forall|x: FrontierEntry| #[trigger]
                final(self).boundary.holds(x) ==> old(self).boundary.holds(x),
    {
        match self.boundary.pop() {
            Some(nearest) => nearest,
            None => FrontierEntry { state: SearchState::initial(self.start), distance: 0 },
        }
    }

    /// The table has reached the state in which the route `r` ends, on a
    /// route that loses no more heat than `r`.
    pub open spec fn holds_best(&self, grid: &HeatMatrix, r: Seq<Point>) -> bool {
        &&& self.node(end_state(r))
        &&& self.reached(end_state(r))
        &&& self.data(end_state(r)).distance <= route_weight(grid, r)
    }

    /// The table is the whole tree of best routes from its start: every
    /// route it records is a route of the weight it gives, and for every
    /// route on the grid it records one to the same state that loses no
    /// more heat.
    pub open spec fn spans(&self, grid: &HeatMatrix) -> bool {
        &&& self.fits(grid)
        &&& self.goal is None
        &&& self.routes_ok(grid)
        &&& forall|r: Seq<Point>| #[trigger]
            is_route(grid, self.max_run as int, self.start, r) ==> self.holds_best(grid, r)
    }

    /// Whether the search has found what was asked for: with a goal, a best
    /// route from `start` to `target`; without one, that there is no route.
    pub open spec fn answers(
        &self,
        grid: &HeatMatrix,
        start: Point,
        target: Point,
        max_run: int,
    ) -> bool {
        match self.goal {
            Some(g) => {
                &&& self.fits(grid)
                &&& self.start == start
                &&& self.max_run == max_run
                &&& self.routes_ok(grid)
                &&& self.node(g)
                &&& self.reached(g)
                &&& g.pos == target
                &&& is_best_route(grid, max_run, start, target, self.route(g))
            },
            None => forall|r: Seq<Point>| !#[trigger] is_route_to(grid, max_run, start, target, r),
        }
    }

    /// The route on which the reached state `g` was reached, read off the
    /// table from `g` back to the start. It loses as much heat as the table
    /// has for `g`.
    pub fn path_to(&self, grid: &HeatMatrix, g: SearchState) -> (path: Vec<Point>)
        requires
            self.fits(grid),
            self.routes_ok(grid),
            self.node(g),
            self.reached(g),
        ensures
            path@ == self.route(g),
            is_route(grid, self.max_run as int, self.start, path@),
            end_state(path@) == g,
            route_weight(grid, path@) == self.data(g).distance,
    {
        let mut back: Vec<Point> = Vec::new();
        let mut cur = g;
        let ghost whole = self.route(g);
        proof {
            lemma_step_back(self, grid, g);
        }
        loop
            invariant_except_break
                self.node(cur),
                self.reached(cur),
                self.route(cur).len() >= 1,
                self.route(cur).last() == cur.pos,
                back@.len() + self.route(cur).len() == whole.len(),
                self.route(cur) == whole.take(self.route(cur).len() as int),
                forall|j: int| 0 <= j < back@.len() ==> back@[j] == #[trigger] whole[whole.len() - 1 - j],
            invariant
                self.fits(grid),
                self.routes_ok(grid),
            ensures
                back@.len() == whole.len(),
                forall|j: int| 0 <= j < back@.len() ==> back@[j] == #[trigger] whole[whole.len() - 1 - j],
            decreases self.route(cur).len(),
        {
            let data = self.get(&cur);
            proof {
                lemma_step_back(self, grid, cur);
            }
            back.push(cur.pos);
            match data.prev {
                None => {
                    break ;
                },
                Some(p) => {
                    proof {
                        lemma_step_back(self, grid, p);
                        assert(self.route(p) =~= whole.take(self.route(p).len() as int));
                    }
                    cur = p;
                },
            }
        }
        let mut path: Vec<Point> = Vec::new();
        let mut i: usize = back.len();
        while i > 0
            invariant
                i <= back.len(),
                back@.len() == whole.len(),
                path@.len() == back.len() - i,
                forall|j: int| 0 <= j < path@.len() ==> #[trigger] path@[j] == whole[j],
                forall|j: int| 0 <= j < back@.len() ==> back@[j] == #[trigger] whole[whole.len() - 1 - j],
            decreases i,
        {
            i -= 1;
            proof {
                assert(back@[i as int] == whole[whole.len() - 1 - i]);
            }
            path.push(back[i]);
        }
        proof {
            assert(path@ =~= whole);
            lemma_step_back(self, grid, g);
        }
        path
    }

    /// Takes the step from the final state `from` in direction `d`, where
    /// there is one, and keeps the shorter of the old and the new route to
    /// the state it leads to.
    fn relax(&mut self, grid: &HeatMatrix, target: Point, from: SearchState, d: Direction)
        requires
            old(self).inv(grid, target, Some((from, d.code())), old(self).data(from).distance as int),
            old(self).node(from),
            old(self).data(from).state is Known,
            old(self).data(from).distance + 9 <= 9 * old(self).known_count(),
        ensures
            final(self).inv(
                grid,
                target,
                Some((from, d.code() + 1)),
                old(self).data(from).distance as int,
            ),
            final(self).data(from) == old(self).data(from),
            final(self).known_count() == old(self).known_count(),
            final(self).values@.len() == old(self).values@.len(),
            final(self).boundary.entries@.len() <= old(self).boundary.entries@.len() + 1,
            final(self).w == old(self).w,
            final(self).h == old(self).h,
            final(self).max_run == old(self).max_run,
            final(self).start == old(self).start,
    {
        let ghost before = *self;
        let ghost k = d.code();
        let ghost level = self.data(from).distance as int;
        proof {
            lemma_under_way(&before, grid, target, Some((from, k)), level);
        }
        match grid.step(self.max_run, from, d) {
            None => {
                proof {
                    lemma_blocked(&before, grid, target, from, k, level);
                }
            },
            Some(to) => {
                proof {
                    lemma_transition(&before, grid, from, to);
                    lemma_open_count_bound(before.values@);
                }
                let here = self.get(&from);
                let loss = *grid.get(to.pos);
                let nd: i64 = here.distance + loss;
                let i = self.slot(&to);
                let cur = self.values[i];
                let unknown = match cur.state {
                    DijkstraState::Unknown => true,
                    _ => false,
                };
                if unknown || nd < cur.distance {
                    let fresh = DijkstraData {
                        state: DijkstraState::Boundary,
                        distance: nd,
                        prev: Some(from),
                    };
                    self.values.set(i, fresh);
                    self.routes = Ghost(
                        self.routes@.update(i as int, before.route(from).push(to.pos)),
                    );
                    self.boundary.push(FrontierEntry { state: to, distance: nd });
                    proof {
                        assert(self.values@[i as int] == fresh);
                        assert(self.routes@[i as int] == before.route(from).push(to.pos));
                        assert(self.values@ =~= before.values@.update(i as int, fresh));
                        assert(rewritten(&before, self, to));
                        lemma_reach(&before, self, grid, target, from, to, k, nd as int);
                    }
                } else {
                    proof {
                        lemma_no_gain(&before, grid, target, from, to, k, level);
                    }
                }
            },
        }
    }

    /// Takes the nearest entry off the frontier and, unless it is out of
    /// date, makes its state final and returns it.
    fn settle_next(&mut self, grid: &HeatMatrix, target: Point, Ghost(level): Ghost<int>) -> (next:
        Option<SearchState>)
        requires
            old(self).inv(grid, target, None, level),
            old(self).boundary.entries@.len() > 0,
        ensures
            final(self).w == old(self).w,
            final(self).h == old(self).h,
            final(self).max_run == old(self).max_run,
            final(self).start == old(self).start,
            final(self).goal is None,
            final(self).values@.len() == old(self).values@.len(),
            final(self).boundary.entries@.len() + 1 == old(self).boundary.entries@.len(),
            match next {
                None => {
                    &&& final(self).inv(grid, target, None, level)
                    &&& final(self).known_count() == old(self).known_count()
                },
                Some(s) => {
                    &&& final(self).fits(grid)
                    &&& final(self).routes_ok(grid)
                    &&& final(self).node(s)
                    &&& final(self).data(s).state is Known
                    &&& final(self).known_count() == old(self).known_count() + 1
                    &&& final(self).data(s).distance + 9 <= 9 * final(self).known_count()
                    &&& s.pos != target ==> final(self).inv(
                        grid,
                        target,
                        Some((s, 0)),
                        final(self).data(s).distance as int,
                    )
                    &&& s.pos == target ==> is_best_route(
                        grid,
                        final(self).max_run as int,
                        final(self).start,
                        target,
                        final(self).route(s),
                    )
                },
            },
    {
        let ghost before = *self;
        proof {
            lemma_under_way(&before, grid, target, None, level);
        }
        let nearest = self.remove_minimal_point();
        let from = nearest.state;
        proof {
            lemma_entry(&before, grid, target, level, nearest);
        }
        let i = self.slot(&from);
        let cur = self.values[i];
        let settled = match cur.state {
            DijkstraState::Known => true,
            _ => false,
        };
        if settled || cur.distance != nearest.distance {
            proof {
                lemma_discard(&before, self, grid, target, nearest, level);
            }
            return None;
        }
        self.values.set(
            i,
            DijkstraData { state: DijkstraState::Known, distance: cur.distance, prev: cur.prev },
        );
        proof {
            assert(self.values@ =~= before.values@.update(i as int, self.values@[i as int]));
            assert(self.routes@ =~= before.routes@.update(i as int, self.routes@[i as int]));
            assert(rewritten(&before, self, from));
            assert forall|x: FrontierEntry| #[trigger]
                before.boundary.holds(x) implies self.boundary.holds(x) || x.state == from by {
            }
            lemma_settle(&before, self, grid, target, from, level);
            if from.pos == target {
                lemma_arrived(&before, grid, target, from, level);
            }
        }
        Some(from)
    }

    /// Takes the steps from the final state `from` in all four directions.
    fn expand(&mut self, grid: &HeatMatrix, target: Point, from: SearchState)
        requires
            old(self).inv(grid, target, Some((from, 0)), old(self).data(from).distance as int),
            old(self).node(from),
            old(self).data(from).state is Known,
            old(self).data(from).distance + 9 <= 9 * old(self).known_count(),
        ensures
            final(self).inv(grid, target, None, old(self).data(from).distance as int),
            final(self).known_count() == old(self).known_count(),
            final(self).values@.len() == old(self).values@.len(),
            final(self).boundary.entries@.len() <= old(self).boundary.entries@.len() + 4,
            final(self).w == old(self).w,
            final(self).h == old(self).h,
            final(self).max_run == old(self).max_run,
            final(self).start == old(self).start,
    {
        let ghost level = self.data(from).distance as int;
        let ghost known = self.known_count();
        let ghost size = self.values@.len();
        let ghost waiting = self.boundary.entries@.len();
        let ghost first = *self;
        let mut k: i64 = 0;
        while k < 4
            invariant
                0 <= k <= 4,
                self.inv(grid, target, Some((from, k as int)), level),
                self.node(from),
                self.data(from).state is Known,
                self.data(from).distance == level,
                level + 9 <= 9 * known,
                self.known_count() == known,
                self.values@.len() == size,
                self.boundary.entries@.len() <= waiting + k,
                self.w == first.w,
                self.h == first.h,
                self.max_run == first.max_run,
                self.start == first.start,
            decreases 4 - k,
        {
            let d = Direction::from_index(k);
            self.relax(grid, target, from, d);
            k += 1;
        }
        proof {
            lemma_close(self, grid, target, from, level);
        }
    }
}

impl HeatMatrix {
    /// The state that one step in direction `d` leads to from state
    /// `from`, where such a step is allowed.
    pub fn step(&self, max_run: i64, from: SearchState, d: Direction) -> (next: Option<SearchState>)
        requires
            self.wf(),
            self.contains(from.pos),
            0 <= from.run <= max_run,
        ensures
            match next {
                Some(to) => transition(self, max_run as int, from, to) && to.dir == Some(d),
                None => forall|t: SearchState| #[trigger]
                    transition(self, max_run as int, from, t) ==> t.dir != Some(d),
            },
    {
        let back = d.reversed();
        let turned_back = match from.dir {
            Some(arrival) => arrival == back,
            None => false,
        };
        let straight = match from.dir {
            Some(arrival) => arrival == d,
            None => false,
        };
        let delta = d.delta();
        let pos = Point::new(from.pos.x + delta.x, from.pos.y + delta.y);
        let run: i64 = if straight && from.run < max_run {
            from.run + 1
        } else {
            1
        };
        if turned_back || (straight && from.run >= max_run) || max_run < 1
            || !self.check_point_valid(&pos) {
            proof {
                assert forall|t: SearchState| #[trigger]
                    transition(self, max_run as int, from, t) implies t.dir != Some(d) by {
                    if t.dir == Some(d) {
                        assert(t.pos == pos);
                    }
                }
            }
            None
        } else {
            Some(SearchState { pos, dir: Some(d), run })
        }
    }

    /// Whether a search on the grid with at most `max_run` steps in a row
    /// in one direction can be held in memory. A limit below 1 asks for no
    /// memory at all.
    pub fn can_search(&self, max_run: i64) -> (fits: bool)
        requires
            self.wf(),
        ensures
            fits == (max_run >= 1 ==> search_fits(self.w as int, self.h as int, max_run as int)),
    {
        if max_run < 1 {
            return true;
        }
        let ghost cells = self.w * self.h;
        let ghost m = max_run as int;
        proof {
            assert(cells * 4 * m >= cells * 4) by (nonlinear_arith)
                requires
                    cells >= 0,
                    m >= 1,
            ;
        }
        let blocks: u64 = self.values.len() as u64;
        let arrivals: u64 = match blocks.checked_mul(4) {
            Some(v) => v,
            None => {
                return false;
            },
        };
        let states: u64 = match arrivals.checked_mul(max_run as u64) {
            Some(v) => v,
            None => {
                return false;
            },
        };
        if states >= usize::MAX as u64 {
            return false;
        }
        states <= 1_024_819_115_206_086_198
    }

    /// The table of a search from `s` that is about to begin: only the
    /// start is reached, and it alone is on the frontier.
    fn begin(&self, s: Point, t: Point, max_run: i64) -> (tree: DijkstraMatrix)
        requires
            self.is_heat_grid(),
            self.contains(s),
            max_run >= 1,
            search_fits(self.w as int, self.h as int, max_run as int),
        ensures
            tree.inv(self, t, None, 0),
            tree.start == s,
            tree.max_run == max_run,
    {
        let mut tree = DijkstraMatrix {
            w: self.w,
            h: self.h,
            max_run,
            start: s,
            values: Vec::new(),
            boundary: Frontier::new(),
            goal: None,
            routes: Ghost(Seq::empty()),
        };
        let ghost w = self.w as int;
        let ghost h = self.h as int;
        let ghost m = max_run as int;
        proof {
            lemma_slot_bounds(w, h, m, s, start_state(s));
        }
        let count: i64 = self.w * self.h * 4 * max_run + 1;
        let mut filled: i64 = 0;
        while filled < count
            invariant
                0 <= filled <= count,
                count == slot_count(w, h, m),
                tree.values@.len() == filled,
                tree.w == self.w,
                tree.h == self.h,
                tree.max_run == max_run,
                tree.start == s,
                tree.goal is None,
                tree.boundary.wf(),
                tree.boundary.entries@.len() == 0,
                forall|x: FrontierEntry| !tree.boundary.holds(x),
                forall|i: int|
                    0 <= i < filled ==> (#[trigger] tree.values@[i]).state is Unknown,
            decreases count - filled,
        {
            tree.values.push(DijkstraData::default());
            filled += 1;
        }
        tree.values.set(0, DijkstraData { state: DijkstraState::Boundary, distance: 0, prev: None });
        tree.routes = Ghost(Seq::new(count as nat, |i: int| seq![s]));
        tree.boundary.push(FrontierEntry { state: SearchState::initial(s), distance: 0 });
        proof {
            lemma_begin(&tree, self, t);
        }
        tree
    }

    /// The whole tree of best routes from `s` on which no more than
    /// `max_run` steps in a row go in one direction: the search goes on
    /// until the frontier is empty. There is no tree where `max_run` is
    /// below 1 or `s` is not on the grid.
    pub fn dijkstra_chess(&self, s: Point, max_run: i64) -> (found: Option<DijkstraMatrix>)
        requires
            self.is_heat_grid(),
            max_run >= 1 ==> search_fits(self.w as int, self.h as int, max_run as int),
        ensures
            found is Some <==> max_run >= 1 && self.contains(s),
            match found {
                Some(tree) => tree.start == s && tree.max_run == max_run && tree.spans(self),
                None => true,
            },
    {
        if max_run < 1 || !self.check_point_valid(&s) {
            return None;
        }
        let nowhere = Point { x: -1, y: -1 };
        let mut tree = self.begin(s, nowhere, max_run);
        let ghost mut level: int = 0;
        while tree.boundary.len() > 0
            invariant
                tree.inv(self, nowhere, None, level),
                tree.start == s,
                tree.max_run == max_run,
                nowhere.x == -1,
            decreases 4 * open_count(tree.values@) + tree.boundary.entries@.len(),
        {
            match tree.settle_next(self, nowhere, Ghost(level)) {
                None => {},
                Some(from) => {
                    proof {
                        level = tree.data(from).distance as int;
                    }
                    tree.expand(self, nowhere, from);
                },
            }
        }
        proof {
            lemma_whole(&tree, self, nowhere, level);
        }
        Some(tree)
    }

    /// Searches `self` for a best route from `s` to `t` on which no more
    /// than `max_run` steps in a row go in one direction. The search ends
    /// when a state at `t` is final, which is then the goal, or when the
    /// frontier is empty.
    pub fn find_tree(&self, s: Point, t: Point, max_run: i64) -> (tree: DijkstraMatrix)
        requires
            self.is_heat_grid(),
            max_run >= 1 ==> search_fits(self.w as int, self.h as int, max_run as int),
        ensures
            tree.answers(self, s, t, max_run as int),
    {
        if max_run < 1 || !self.check_point_valid(&s) {
            return DijkstraMatrix {
                w: self.w,
                h: self.h,
                max_run,
                start: s,
                values: Vec::new(),
                boundary: Frontier::new(),
                goal: None,
                routes: Ghost(Seq::empty()),
            };
        }
        let mut tree = self.begin(s, t, max_run);
        let ghost mut level: int = 0;
        while tree.boundary.len() > 0
            invariant
                tree.inv(self, t, None, level),
                tree.start == s,
                tree.max_run == max_run,
            decreases 4 * open_count(tree.values@) + tree.boundary.entries@.len(),
        {
            match tree.settle_next(self, t, Ghost(level)) {
                None => {},
                Some(from) => {
                    if from.pos.x == t.x && from.pos.y == t.y {
                        let ghost found = tree;
                        tree.goal = Some(from);
                        proof {
                            lemma_name_goal(&found, &tree, self);
                        }
                        return tree;
                    }
                    proof {
                        level = tree.data(from).distance as int;
                    }
                    tree.expand(self, t, from);
                },
            }
        }
        proof {
            lemma_under_way(&tree, self, t, None, level);
            lemma_exhausted(&tree, self, t, level);
        }
        tree
    }

    /// The top left block, where the crucible enters.
    pub open spec fn entry() -> Point {
        Point { x: 0, y: 0 }
    }

    /// The bottom right block, where the crucible leaves.
    pub open spec fn exit(&self) -> Point {
        Point { x: (self.w - 1) as i64, y: (self.h - 1) as i64 }
    }

    /// A best route from the top left block to the bottom right block on
    /// which no more than `max_run` steps in a row go in one direction, or
    /// `None` where there is no route at all.
    pub fn find_path(&self, max_run: i64) -> (path: Option<Vec<Point>>)
        requires
            self.is_heat_grid(),
            max_run >= 1 ==> search_fits(self.w as int, self.h as int, max_run as int),
        ensures
            match path {
                Some(p) => is_best_route(self, max_run as int, Self::entry(), self.exit(), p@),
                None => forall|r: Seq<Point>|
                    !#[trigger] is_route_to(self, max_run as int, Self::entry(), self.exit(), r),
            },
    {
        let s = Point { x: 0, y: 0 };
        let t = Point { x: self.w - 1, y: self.h - 1 };
        let tree = self.find_tree(s, t, max_run);
        match tree.goal {
            Some(g) => Some(tree.path_to(self, g)),
            None => None,
        }
    }

    /// `loss` is the heat that the best routes from the top left block to
    /// the bottom right block lose.
    pub open spec fn is_least_loss(&self, max_run: int, loss: int) -> bool {
        exists|p: Seq<Point>|
            #[trigger] is_best_route(self, max_run, Self::entry(), self.exit(), p) && route_weight(
                self,
                p,
            ) == loss
    }

    /// The least heat that a route from the top left block to the bottom
    /// right block loses when no more than `max_run` steps in a row go in
    /// one direction, or `None` where there is no route at all.
    pub fn least_heat_loss(&self, max_run: i64) -> (loss: Option<i64>)
        requires
            self.is_heat_grid(),
            max_run >= 1 ==> search_fits(self.w as int, self.h as int, max_run as int),
        ensures
            match loss {
                Some(c) => self.is_least_loss(max_run as int, c as int),
                None => forall|r: Seq<Point>|
                    !#[trigger] is_route_to(self, max_run as int, Self::entry(), self.exit(), r),
            },
    {
        let s = Point { x: 0, y: 0 };
        let t = Point { x: self.w - 1, y: self.h - 1 };
        let tree = self.find_tree(s, t, max_run);
        match tree.goal {
            Some(g) => {
                proof {
                    lemma_step_back(&tree, self, g);
                    assert(is_best_route(self, max_run as int, Self::entry(), self.exit(), tree.route(g)));
                }
                Some(tree.get(&g).distance)
            },
            None => None,
        }
    }
}

} // verus!
