//! What a route across the grid is, what it costs, and in which state the
//! crucible is at each of its blocks.

use crate::heat::grid::{HeatMatrix, Point};
use vstd::prelude::*;

verus! {

/// One of the four ways to step to a neighbouring block. `y` grows
/// downwards.
#[derive(Debug, Clone, Copy, PartialEq, Eq, Structural)]
pub enum Direction {
    Up,
    Down,
    Left,
    Right,
}

impl Direction {
    /// Change of `x` by one step.
    pub open spec fn dx(self) -> int {
        match self {
            Direction::Left => -1,
            Direction::Right => 1,
            _ => 0,
        }
    }

    /// Change of `y` by one step.
    pub open spec fn dy(self) -> int {
        match self {
            Direction::Up => -1,
            Direction::Down => 1,
            _ => 0,
        }
    }

    /// The direction that undoes a step in this one.
    pub open spec fn opposite(self) -> Direction {
        match self {
            Direction::Up => Direction::Down,
            Direction::Down => Direction::Up,
            Direction::Left => Direction::Right,
            Direction::Right => Direction::Left,
        }
    }

    /// A number from 0 to 3 that stands for the direction.
    pub open spec fn code(self) -> int {
        match self {
            Direction::Up => 0,
            Direction::Down => 1,
            Direction::Left => 2,
            Direction::Right => 3,
        }
    }

    /// The direction that undoes a step in this one.
    pub fn reversed(&self) -> (d: Direction)
        ensures
            d == self.opposite(),
    {
        match self {
            Direction::Up => Direction::Down,
            Direction::Down => Direction::Up,
            Direction::Left => Direction::Right,
            Direction::Right => Direction::Left,
        }
    }

    /// The displacement of one step.
    pub fn delta(&self) -> (d: Point)
        ensures
            d.x == self.dx(),
            d.y == self.dy(),
    {
        match self {
            Direction::Up => Point::new(0, -1),
            Direction::Down => Point::new(0, 1),
            Direction::Left => Point::new(-1, 0),
            Direction::Right => Point::new(1, 0),
        }
    }
}

/// A node of the search: where the crucible is, in which direction it
/// arrived, and how many steps in a row it has taken in that direction. At
/// the start there is no direction and the count is 0.
#[derive(Debug, Clone, Copy, PartialEq, Eq, Structural)]
pub struct SearchState {
    pub pos: Point,
    pub dir: Option<Direction>,
    pub run: i64,
}

impl SearchState {
    /// The state in which every route from `start` begins.
    pub fn initial(start: Point) -> (s: SearchState)
        ensures
            s == start_state(start),
    {
        SearchState { pos: start, dir: None, run: 0 }
    }
}

/// The direction of the single step that leads from `a` to `b`, if one
/// does.
pub open spec fn heading_between(a: Point, b: Point) -> Option<Direction> {
    if b.x == a.x && b.y == a.y - 1 {
        Some(Direction::Up)
    } else if b.x == a.x && b.y == a.y + 1 {
        Some(Direction::Down)
    } else if b.y == a.y && b.x == a.x - 1 {
        Some(Direction::Left)
    } else if b.y == a.y && b.x == a.x + 1 {
        Some(Direction::Right)
    } else {
        None
    }
}

/// The direction in which `path` arrives at its block number `i`; `None` at
/// the first block, and where the path jumps.
pub open spec fn heading(path: Seq<Point>, i: int) -> Option<Direction> {
    if 1 <= i < path.len() {
        heading_between(path[i - 1], path[i])
    } else {
        None
    }
}

/// Whether the step that arrives at block number `i` of `path` undoes the
/// step before it.
pub open spec fn turns_back(path: Seq<Point>, i: int) -> bool {
    heading(path, i) is Some && heading(path, i - 1) == Some(heading(path, i).unwrap().opposite())
}

/// How many steps in a row, ending with the one that arrives at block
/// number `i`, `path` has taken in one direction.
pub open spec fn run_length(path: Seq<Point>, i: int) -> int
    decreases i,
{
    if i <= 0 {
        0
    } else if heading(path, i) == heading(path, i - 1) {
        run_length(path, i - 1) + 1
    } else {
        1
    }
}

/// Whether `path` is a route on `grid` from `start`: it stays on the grid,
/// goes from block to neighbouring block, never turns straight back, and
/// never takes more than `max_run` steps in a row in one direction. With a
/// `max_run` below 1 nothing is a route.
pub open spec fn is_route(grid: &HeatMatrix, max_run: int, start: Point, path: Seq<Point>) -> bool {
    &&& max_run >= 1
    &&& path.len() >= 1
    &&& path[0] == start
    &&& forall|i: int| 0 <= i < path.len() ==> grid.contains(#[trigger] path[i])
    &&& forall|i: int| 1 <= i < path.len() ==> (#[trigger] heading(path, i)) is Some
    &&& forall|i: int| 1 <= i < path.len() ==> !#[trigger] turns_back(path, i)
    &&& forall|i: int| 1 <= i < path.len() ==> #[trigger] run_length(path, i) <= max_run
}

/// Whether `path` is a route from `start` that ends at `target`.
pub open spec fn is_route_to(
    grid: &HeatMatrix,
    max_run: int,
    start: Point,
    target: Point,
    path: Seq<Point>,
) -> bool {
    is_route(grid, max_run, start, path) && path.last() == target
}

/// The heat lost along `path`: the losses of all its blocks but the first.
pub open spec fn route_weight(grid: &HeatMatrix, path: Seq<Point>) -> int
    decreases path.len(),
{
    if path.len() <= 1 {
        0
    } else {
        route_weight(grid, path.drop_last()) + grid.at(path.last())
    }
}

/// Whether `path` is a route from `start` to `target` that loses no more
/// heat than any other.
pub open spec fn is_best_route(
    grid: &HeatMatrix,
    max_run: int,
    start: Point,
    target: Point,
    path: Seq<Point>,
) -> bool {
    &&& is_route_to(grid, max_run, start, target, path)
    &&& forall|other: Seq<Point>| #[trigger]
        is_route_to(grid, max_run, start, target, other) ==> route_weight(grid, path)
            <= route_weight(grid, other)
}

/// The state in which `path` is at its block number `i`.
pub open spec fn state_at(path: Seq<Point>, i: int) -> SearchState {
    SearchState { pos: path[i], dir: heading(path, i), run: run_length(path, i) as i64 }
}

/// The state in which `path` ends.
pub open spec fn end_state(path: Seq<Point>) -> SearchState {
    state_at(path, path.len() - 1)
}

/// The state in which every route from `start` begins.
pub open spec fn start_state(start: Point) -> SearchState {
    SearchState { pos: start, dir: None, run: 0 }
}

/// Whether one step takes the crucible from state `from` to state `to`.
pub open spec fn transition(
    grid: &HeatMatrix,
    max_run: int,
    from: SearchState,
    to: SearchState,
) -> bool {
    &&& grid.contains(to.pos)
    &&& to.dir is Some
    &&& heading_between(from.pos, to.pos) == to.dir
    &&& from.dir != Some(to.dir.unwrap().opposite())
    &&& to.run == if from.dir == to.dir {
        from.run + 1
    } else {
        1
    }
    &&& to.run <= max_run
}

/// Cutting a path short changes neither the headings nor the run lengths of
/// what remains.
pub proof fn lemma_prefix_states(path: Seq<Point>, k: int, i: int)
    requires
        0 <= i < k <= path.len(),
    ensures
        heading(path.take(k), i) == heading(path, i),
        run_length(path.take(k), i) == run_length(path, i),
    decreases i,
{
    if i > 0 {
        lemma_prefix_states(path, k, i - 1);
    }
}

/// Run lengths count at least one step, and no more steps than were taken.
pub proof fn lemma_run_length_bounds(path: Seq<Point>, i: int)
    requires
        0 <= i,
    ensures
        0 <= run_length(path, i) <= i,
        i >= 1 ==> run_length(path, i) >= 1,
    decreases i,
{
    if i > 0 {
        lemma_run_length_bounds(path, i - 1);
    }
}

/// A route cut short is a route.
pub proof fn lemma_route_prefix(
    grid: &HeatMatrix,
    max_run: int,
    start: Point,
    path: Seq<Point>,
    k: int,
)
    requires
        is_route(grid, max_run, start, path),
        1 <= k <= path.len(),
    ensures
        is_route(grid, max_run, start, path.take(k)),
{
    let short = path.take(k);
    assert forall|i: int| 1 <= i < short.len() implies (#[trigger] heading(short, i)) is Some by {
        lemma_prefix_states(path, k, i);
        assert(heading(path, i) is Some);
    }
    assert forall|i: int| 1 <= i < short.len() implies !#[trigger] turns_back(short, i) by {
        lemma_prefix_states(path, k, i);
        lemma_prefix_states(path, k, i - 1);
        assert(!turns_back(path, i));
    }
    assert forall|i: int| 1 <= i < short.len() implies #[trigger] run_length(short, i)
        <= max_run by {
        lemma_prefix_states(path, k, i);
        assert(run_length(path, i) <= max_run);
    }
}

/// The last step of a route is a transition from the state in which the
/// route without that step ends, and costs the heat loss of the last block.
pub proof fn lemma_route_last_step(grid: &HeatMatrix, max_run: int, start: Point, path: Seq<Point>)
    requires
        is_route(grid, max_run, start, path),
        path.len() >= 2,
        max_run <= i64::MAX,
    ensures
        is_route(grid, max_run, start, path.drop_last()),
        transition(grid, max_run, end_state(path.drop_last()), end_state(path)),
        route_weight(grid, path) == route_weight(grid, path.drop_last()) + grid.at(path.last()),
{
    let n = path.len() as int;
    let short = path.drop_last();
    assert(short =~= path.take(n - 1));
    lemma_route_prefix(grid, max_run, start, path, n - 1);
    lemma_prefix_states(path, n - 1, n - 2);
    lemma_run_length_bounds(path, n - 1);
    lemma_run_length_bounds(path, n - 2);
    assert(heading(path, n - 1) is Some);
    assert(!turns_back(path, n - 1));
    assert(run_length(path, n - 1) <= max_run);
    assert(grid.contains(path[n - 1]));
    if n >= 3 {
        assert(run_length(path, n - 2) <= max_run);
    }
}

/// The state in which a route ends: on the grid, and with a run length
/// that is 0 at the start and between 1 and `max_run` after it.
pub proof fn lemma_end_state(grid: &HeatMatrix, max_run: int, start: Point, path: Seq<Point>)
    requires
        is_route(grid, max_run, start, path),
        max_run <= i64::MAX,
    ensures
        grid.contains(end_state(path).pos),
        end_state(path).pos == path.last(),
        path.len() == 1 ==> end_state(path) == start_state(start),
        path.len() >= 2 ==> end_state(path).dir is Some && 1 <= end_state(path).run <= max_run,
{
    let n = path.len() as int;
    lemma_run_length_bounds(path, n - 1);
    if n >= 2 {
        assert(heading(path, n - 1) is Some);
        assert(run_length(path, n - 1) <= max_run);
    }
}

/// A route followed by one transition is a route; it ends in the state that
/// the transition leads to and costs the heat loss of one block more.
pub proof fn lemma_route_extend(
    grid: &HeatMatrix,
    max_run: int,
    start: Point,
    path: Seq<Point>,
    to: SearchState,
)
    requires
        is_route(grid, max_run, start, path),
        transition(grid, max_run, end_state(path), to),
        max_run <= i64::MAX,
    ensures
        is_route(grid, max_run, start, path.push(to.pos)),
        end_state(path.push(to.pos)) == to,
        route_weight(grid, path.push(to.pos)) == route_weight(grid, path) + grid.at(to.pos),
{
    let n = path.len() as int;
    let longer = path.push(to.pos);
    assert(longer.take(n) =~= path);
    assert(longer.drop_last() =~= path);
    assert forall|i: int| 0 <= i < n implies heading(longer, i) == heading(path, i) && run_length(
        longer,
        i,
    ) == run_length(path, i) by {
        lemma_prefix_states(longer, n, i);
    }
    lemma_run_length_bounds(path, n - 1);
    lemma_end_state(grid, max_run, start, path);
    assert(heading(longer, n) == to.dir);
    assert(run_length(longer, n) == to.run);
    assert forall|i: int| 0 <= i < longer.len() implies grid.contains(#[trigger] longer[i]) by {
        if i < n {
            assert(longer[i] == path[i]);
        }
    }
    assert forall|i: int| 1 <= i < longer.len() implies (#[trigger] heading(longer, i)) is Some by {
        if i < n {
            assert(heading(path, i) is Some);
        }
    }
    assert forall|i: int| 1 <= i < longer.len() implies !#[trigger] turns_back(longer, i) by {
        if i < n {
            assert(!turns_back(path, i));
        }
    }
    assert forall|i: int| 1 <= i < longer.len() implies #[trigger] run_length(longer, i)
        <= max_run by {
        if i < n {
            assert(run_length(path, i) <= max_run);
        }
    }
}

/// On a grid of heat losses no route loses a negative amount of heat, and
/// none more than nine times the number of its steps.
pub proof fn lemma_route_weight_bounds(grid: &HeatMatrix, path: Seq<Point>)
    requires
        grid.is_heat_grid(),
        forall|i: int| 0 <= i < path.len() ==> grid.contains(#[trigger] path[i]),
    ensures
        0 <= route_weight(grid, path) <= 9 * path.len(),
    decreases path.len(),
{
    if path.len() > 1 {
        let short = path.drop_last();
        assert forall|i: int| 0 <= i < short.len() implies grid.contains(#[trigger] short[i]) by {
            assert(short[i] == path[i]);
        }
        lemma_route_weight_bounds(grid, short);
        grid.lemma_index(path.last());
    }
}

impl HeatMatrix {
    /// The heat lost along `path`: the sum of the losses of all its blocks
    /// but the first, or `i64::MAX` where the sum is larger than that.
    pub fn calc_path_weight(&self, path: &Vec<Point>) -> (weight: i64)
        requires
            self.is_heat_grid(),
            forall|i: int| 0 <= i < path.len() ==> self.contains(#[trigger] path@[i]),
        ensures
            weight == if route_weight(self, path@) <= i64::MAX {
                route_weight(self, path@)
            } else {
                i64::MAX as int
            },
    {
        let mut weight: i64 = 0;
        let mut i: usize = 1;
        if path.len() == 0 {
            return 0;
        }
        assert(path@.take(1).len() == 1);
        while i < path.len()
            invariant
                1 <= i <= path.len(),
                self.is_heat_grid(),
                forall|j: int| 0 <= j < path.len() ==> self.contains(#[trigger] path@[j]),
                0 <= route_weight(self, path@.take(i as int)),
                weight == if route_weight(self, path@.take(i as int)) <= i64::MAX {
                    route_weight(self, path@.take(i as int))
                } else {
                    i64::MAX as int
                },
            decreases path.len() - i,
        {
            let loss = *self.get(path[i]);
            proof {
                let longer = path@.take(i + 1);
                assert(longer.drop_last() =~= path@.take(i as int));
                assert(longer.last() == path@[i as int]);
                self.lemma_index(path@[i as int]);
            }
            weight = match weight.checked_add(loss) {
                Some(sum) => sum,
                None => i64::MAX,
            };
            i += 1;
        }
        assert(path@.take(path.len() as int) =~= path@);
        weight
    }
}

} // verus!
