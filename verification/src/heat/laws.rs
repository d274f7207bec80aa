//! Laws of routes and best routes.

use crate::heat::grid::{HeatMatrix, Point};
use crate::heat::route::{
    end_state, heading, is_best_route, is_route, is_route_to, lemma_prefix_states,
    lemma_route_last_step, lemma_run_length_bounds, route_weight, run_length, state_at,
    transition, turns_back, Direction,
};
use vstd::prelude::*;

verus! {

/// Every heat loss of the grid is 0.
pub open spec fn is_cold(grid: &HeatMatrix) -> bool {
    forall|i: int| 0 <= i < grid.values.len() ==> #[trigger] grid.values@[i] == 0
}

/// On a grid without heat losses no path on the grid loses any heat.
pub proof fn lemma_cold_route(grid: &HeatMatrix, path: Seq<Point>)
    requires
        grid.wf(),
        is_cold(grid),
        forall|i: int| 0 <= i < path.len() ==> grid.contains(#[trigger] path[i]),
    ensures
        route_weight(grid, path) == 0,
    decreases path.len(),
{
    if path.len() > 1 {
        let short = path.drop_last();
        assert forall|i: int| 0 <= i < short.len() implies grid.contains(#[trigger] short[i]) by {
            assert(short[i] == path[i]);
        }
        lemma_cold_route(grid, short);
        grid.lemma_index(path.last());
    }
}

/// On a grid without heat losses a best route loses no heat, whatever the
/// limit on steps in a row.
pub proof fn lemma_cold_grid_costs_nothing(
    grid: &HeatMatrix,
    max_run: int,
    start: Point,
    target: Point,
    best: Seq<Point>,
)
    requires
        grid.wf(),
        is_cold(grid),
        is_best_route(grid, max_run, start, target, best),
    ensures
        route_weight(grid, best) == 0,
{
    lemma_cold_route(grid, best);
}

/// On a grid of a single block the only route is the one that stays on that
/// block, and it loses no heat.
pub proof fn lemma_single_block(grid: &HeatMatrix, max_run: int, path: Seq<Point>)
    requires
        grid.wf(),
        grid.w == 1,
        grid.h == 1,
        max_run >= 1,
    ensures
        is_best_route(grid, max_run, HeatMatrix::entry(), grid.exit(), seq![HeatMatrix::entry()]),
        is_route(grid, max_run, HeatMatrix::entry(), path) ==> path == seq![HeatMatrix::entry()],
        is_best_route(grid, max_run, HeatMatrix::entry(), grid.exit(), path) ==> route_weight(
            grid,
            path,
        ) == 0,
{
    let entry = HeatMatrix::entry();
    let stay = seq![entry];
    assert(is_route(grid, max_run, entry, stay));
    assert forall|other: Seq<Point>| #[trigger]
        is_route(grid, max_run, entry, other) implies other == stay by {
        if other.len() >= 2 {
            assert(grid.contains(other[0]));
            assert(grid.contains(other[1]));
            assert(heading(other, 1) is Some);
        }
        assert(other =~= stay);
    }
    assert forall|other: Seq<Point>| #[trigger]
        is_route_to(grid, max_run, entry, grid.exit(), other) implies route_weight(grid, stay)
        <= route_weight(grid, other) by {
        assert(is_route(grid, max_run, entry, other));
    }
    if is_route(grid, max_run, entry, path) {
        assert(path == stay);
    }
}

/// All best routes between two blocks lose the same heat.
pub proof fn lemma_best_routes_lose_the_same(
    grid: &HeatMatrix,
    max_run: int,
    start: Point,
    target: Point,
    one: Seq<Point>,
    other: Seq<Point>,
)
    requires
        is_best_route(grid, max_run, start, target, one),
        is_best_route(grid, max_run, start, target, other),
    ensures
        route_weight(grid, one) == route_weight(grid, other),
{
}

/// A route under a limit on steps in a row is a route under every larger
/// limit.
pub proof fn lemma_route_under_larger_limit(
    grid: &HeatMatrix,
    small: int,
    large: int,
    start: Point,
    path: Seq<Point>,
)
    requires
        small <= large,
        is_route(grid, small, start, path),
    ensures
        is_route(grid, large, start, path),
{
    assert forall|i: int| 1 <= i < path.len() implies #[trigger] run_length(path, i) <= large by {
        assert(run_length(path, i) <= small);
    }
}

/// Raising the limit on steps in a row never makes the best route lose
/// more heat.
pub proof fn lemma_larger_limit_costs_no_more(
    grid: &HeatMatrix,
    small: int,
    large: int,
    start: Point,
    target: Point,
    best_small: Seq<Point>,
    best_large: Seq<Point>,
)
    requires
        small <= large,
        is_best_route(grid, small, start, target, best_small),
        is_best_route(grid, large, start, target, best_large),
    ensures
        route_weight(grid, best_large) <= route_weight(grid, best_small),
{
    lemma_route_under_larger_limit(grid, small, large, start, best_small);
    assert(is_route_to(grid, large, start, target, best_small));
}

/// Where there is a route under a limit on steps in a row, there is one
/// under every larger limit.
pub proof fn lemma_larger_limit_reaches_as_much(
    grid: &HeatMatrix,
    small: int,
    large: int,
    start: Point,
    target: Point,
    path: Seq<Point>,
)
    requires
        small <= large,
        is_route_to(grid, small, start, target, path),
    ensures
        is_route_to(grid, large, start, target, path),
{
    lemma_route_under_larger_limit(grid, small, large, start, path);
}

/// The row of a grid of one row, from the left end to column `n - 1`.
pub open spec fn row_path(n: int) -> Seq<Point> {
    Seq::new(n as nat, |i: int| Point { x: i as i64, y: 0 })
}

/// On a grid of a single row a route from the left end can only go right:
/// its block number `i` is in column `i`, and it arrives there after `i`
/// steps in a row.
pub proof fn lemma_corridor_step(grid: &HeatMatrix, max_run: int, path: Seq<Point>, i: int)
    requires
        grid.wf(),
        grid.h == 1,
        is_route(grid, max_run, HeatMatrix::entry(), path),
        0 <= i < path.len(),
    ensures
        path[i].x == i,
        path[i].y == 0,
        i >= 1 ==> heading(path, i) == Some(Direction::Right),
        run_length(path, i) == i,
    decreases i,
{
    if i > 0 {
        lemma_corridor_step(grid, max_run, path, i - 1);
        assert(grid.contains(path[i]));
        assert(grid.contains(path[i - 1]));
        assert(heading(path, i) is Some);
        assert(!turns_back(path, i));
    }
}

/// On a grid of a single row a route from the left end is the row up to
/// where it ends, and it is no longer than the limit on steps in a row
/// allows.
pub proof fn lemma_corridor(grid: &HeatMatrix, max_run: int, path: Seq<Point>)
    requires
        grid.wf(),
        grid.h == 1,
        is_route(grid, max_run, HeatMatrix::entry(), path),
    ensures
        path == row_path(path.len() as int),
        path.len() - 1 <= max_run,
{
    let n = path.len() as int;
    assert forall|i: int| 0 <= i < n implies path[i] == row_path(n)[i] by {
        lemma_corridor_step(grid, max_run, path, i);
    }
    assert(path =~= row_path(n));
    lemma_corridor_step(grid, max_run, path, n - 1);
    if n >= 2 {
        assert(run_length(path, n - 1) <= max_run);
    }
}

/// On a grid of a single row that is longer than the limit on steps in a
/// row allows, no route leads from the left end to the right end: there is
/// no room to turn.
pub proof fn lemma_corridor_too_long(grid: &HeatMatrix, max_run: int)
    requires
        grid.wf(),
        grid.h == 1,
        grid.w - 1 > max_run,
    ensures
        forall|r: Seq<Point>|
            !#[trigger] is_route_to(grid, max_run, HeatMatrix::entry(), grid.exit(), r),
{
    assert forall|r: Seq<Point>|
        !#[trigger] is_route_to(grid, max_run, HeatMatrix::entry(), grid.exit(), r) by {
        if is_route_to(grid, max_run, HeatMatrix::entry(), grid.exit(), r) {
            lemma_corridor(grid, max_run, r);
            lemma_corridor_step(grid, max_run, r, r.len() - 1);
        }
    }
}

/// In the row every step goes right.
pub proof fn lemma_row_path_states(n: int, i: int)
    requires
        0 <= i < n <= i64::MAX,
    ensures
        i >= 1 ==> heading(row_path(n), i) == Some(Direction::Right),
        run_length(row_path(n), i) == i,
    decreases i,
{
    if i > 0 {
        lemma_row_path_states(n, i - 1);
    }
}

/// On a grid of a single row that is no longer than the limit on steps in a
/// row allows, the row is the one route from the left end to the right end,
/// and so the best.
pub proof fn lemma_corridor_short(grid: &HeatMatrix, max_run: int)
    requires
        grid.wf(),
        grid.h == 1,
        grid.w >= 1,
        max_run >= 1,
        grid.w - 1 <= max_run,
    ensures
        is_best_route(
            grid,
            max_run,
            HeatMatrix::entry(),
            grid.exit(),
            row_path(grid.w as int),
        ),
        forall|r: Seq<Point>| #[trigger]
            is_route_to(grid, max_run, HeatMatrix::entry(), grid.exit(), r) ==> r == row_path(
                grid.w as int,
            ),
{
    let n = grid.w as int;
    let row = row_path(n);
    assert forall|i: int| 1 <= i < row.len() implies (#[trigger] heading(row, i)) is Some by {
        lemma_row_path_states(n, i);
    }
    assert forall|i: int| 1 <= i < row.len() implies !#[trigger] turns_back(row, i) by {
        lemma_row_path_states(n, i);
        lemma_row_path_states(n, i - 1);
    }
    assert forall|i: int| 1 <= i < row.len() implies #[trigger] run_length(row, i) <= max_run by {
        lemma_row_path_states(n, i);
    }
    assert(is_route_to(grid, max_run, HeatMatrix::entry(), grid.exit(), row));
    assert forall|r: Seq<Point>| #[trigger]
        is_route_to(grid, max_run, HeatMatrix::entry(), grid.exit(), r) implies r == row by {
        lemma_corridor(grid, max_run, r);
        lemma_corridor_step(grid, max_run, r, r.len() - 1);
    }
}

/// A route of `n` blocks takes `n - 1` steps: from each of its blocks but
/// the last, one transition leads to the state at the next block.
pub proof fn lemma_route_steps(
    grid: &HeatMatrix,
    max_run: int,
    start: Point,
    path: Seq<Point>,
    i: int,
)
    requires
        is_route(grid, max_run, start, path),
        max_run <= i64::MAX,
        1 <= i < path.len(),
    ensures
        transition(grid, max_run, state_at(path, i - 1), state_at(path, i)),
{
    let short = path.take(i + 1);
    crate::heat::route::lemma_route_prefix(grid, max_run, start, path, i + 1);
    lemma_route_last_step(grid, max_run, start, short);
    assert(short.drop_last() =~= path.take(i));
    lemma_prefix_states(path, i + 1, i);
    lemma_prefix_states(path, i, i - 1);
    lemma_run_length_bounds(path, i);
    assert(end_state(short) == state_at(path, i));
    assert(end_state(path.take(i)) == state_at(path, i - 1));
}

} // verus!
