//! The table that the search fills: for every state the best distance found
//! so far, whether it is final, and the state it was reached from.

use crate::heat::frontier::{Frontier, FrontierEntry};
use crate::heat::grid::{HeatMatrix, Point};
use crate::heat::route::{
    end_state, is_route, lemma_end_state, lemma_route_last_step, lemma_route_weight_bounds,
    route_weight, start_state, transition, SearchState,
};
use vstd::prelude::*;

verus! {

/// How far the search has come with a state.
#[derive(Debug, Clone, Copy, PartialEq, Eq, Structural)]
pub enum DijkstraState {
    /// The shortest distance to the state is known and final.
    Known,
    /// A route to the state has been found; a shorter one may follow.
    Boundary,
    /// No route to the state has been found.
    Unknown,
}

/// What the search knows of one state.
#[derive(Debug, Clone, Copy)]
pub struct DijkstraData {
    pub state: DijkstraState,
    /// The heat lost on the best route found so far; `i64::MAX` while there
    /// is none.
    pub distance: i64,
    /// The state before this one on that route; `None` at the start.
    pub prev: Option<SearchState>,
}

impl Default for DijkstraData {
    fn default() -> (d: DijkstraData)
        ensures
            d.state is Unknown,
            d.distance == i64::MAX,
            d.prev is None,
    {
        DijkstraData { state: DijkstraState::Unknown, distance: i64::MAX, prev: None }
    }
}

/// The number of states of a search on a `w` by `h` grid: the start, and
/// for each block every direction of arrival with every run length.
pub open spec fn slot_count(w: int, h: int, max_run: int) -> int {
    1 + w * h * 4 * max_run
}

/// The place of state `s` in the table.
pub open spec fn slot_of(w: int, max_run: int, s: SearchState) -> int {
    match s.dir {
        None => 0,
        Some(d) => 1 + ((s.pos.y * w + s.pos.x) * 4 + d.code()) * max_run + (s.run - 1),
    }
}

/// Whether `s` is a state of the search: on the grid, and either the start
/// or an arrival after 1 to `max_run` steps in a row.
pub open spec fn is_node(w: int, h: int, max_run: int, start: Point, s: SearchState) -> bool {
    &&& 0 <= s.pos.x < w
    &&& 0 <= s.pos.y < h
    &&& match s.dir {
        None => s.pos == start && s.run == 0,
        Some(_) => 1 <= s.run <= max_run,
    }
}

/// Whether a search on a `w` by `h` grid can be held in memory and its
/// distances in an `i64`.
pub open spec fn search_fits(w: int, h: int, max_run: int) -> bool {
    &&& slot_count(w, h, max_run) <= usize::MAX
    &&& 9 * (slot_count(w, h, max_run) + 1) <= i64::MAX
}

/// Two numbers below `n` with multiples of `n` added are equal only if both
/// parts are.
pub proof fn lemma_mixed_radix(n: int, a1: int, b1: int, a2: int, b2: int)
    requires
        0 <= b1 < n,
        0 <= b2 < n,
        a1 * n + b1 == a2 * n + b2,
    ensures
        a1 == a2,
        b1 == b2,
{
    if a1 < a2 {
        assert(a1 * n + n <= a2 * n) by (nonlinear_arith)
            requires
                a1 + 1 <= a2,
                0 < n,
        ;
    } else if a2 < a1 {
        assert(a2 * n + n <= a1 * n) by (nonlinear_arith)
            requires
                a2 + 1 <= a1,
                0 < n,
        ;
    }
}

/// Every state has a place inside the table, and the numbers on the way to
/// it stay below the number of states.
pub proof fn lemma_slot_bounds(w: int, h: int, max_run: int, start: Point, s: SearchState)
    requires
        is_node(w, h, max_run, start, s),
        1 <= max_run,
    ensures
        0 <= slot_of(w, max_run, s) < slot_count(w, h, max_run),
        0 <= s.pos.y * w <= s.pos.y * w + s.pos.x < w * h,
        0 <= (s.pos.y * w + s.pos.x) * 4 + 3 < w * h * 4,
        s.dir is Some ==> 0 <= ((s.pos.y * w + s.pos.x) * 4 + s.dir.unwrap().code()) * max_run
            < slot_count(w, h, max_run) - s.run,
        w * h * 4 < slot_count(w, h, max_run),
{
    let x = s.pos.x as int;
    let y = s.pos.y as int;
    assert(0 <= y * w && y * w + w <= h * w) by (nonlinear_arith)
        requires
            0 <= y < h,
            0 < w,
    ;
    assert(h * w == w * h) by (nonlinear_arith);
    let c = y * w + x;
    assert(w * h * 4 <= w * h * 4 * max_run) by (nonlinear_arith)
        requires
            1 <= max_run,
            0 <= w * h,
    ;
    if s.dir is Some {
        let q = c * 4 + s.dir.unwrap().code();
        assert(q * max_run + max_run <= (w * h * 4) * max_run) by (nonlinear_arith)
            requires
                0 <= q,
                q + 1 <= w * h * 4,
                1 <= max_run,
        ;
        assert(0 <= q * max_run) by (nonlinear_arith)
            requires
                0 <= q,
                1 <= max_run,
        ;
        assert((w * h * 4) * max_run == w * h * 4 * max_run);
    }
}

/// Different states have different places.
pub proof fn lemma_slot_unique(
    w: int,
    h: int,
    max_run: int,
    start: Point,
    s1: SearchState,
    s2: SearchState,
)
    requires
        is_node(w, h, max_run, start, s1),
        is_node(w, h, max_run, start, s2),
        1 <= max_run,
        slot_of(w, max_run, s1) == slot_of(w, max_run, s2),
    ensures
        s1 == s2,
{
    lemma_slot_bounds(w, h, max_run, start, s1);
    lemma_slot_bounds(w, h, max_run, start, s2);
    if s1.dir is Some && s2.dir is Some {
        let c1 = s1.pos.y * w + s1.pos.x;
        let c2 = s2.pos.y * w + s2.pos.x;
        let q1 = c1 * 4 + s1.dir.unwrap().code();
        let q2 = c2 * 4 + s2.dir.unwrap().code();
        lemma_mixed_radix(max_run, q1, s1.run - 1, q2, s2.run - 1);
        lemma_mixed_radix(4, c1, s1.dir.unwrap().code(), c2, s2.dir.unwrap().code());
        lemma_mixed_radix(w, s1.pos.y as int, s1.pos.x as int, s2.pos.y as int, s2.pos.x as int);
    }
}

/// The number of entries of `values` that are not final.
pub open spec fn open_count(values: Seq<DijkstraData>) -> nat
    decreases values.len(),
{
    if values.len() == 0 {
        0
    } else {
        open_count(values.drop_last()) + if values.last().state is Known {
            0nat
        } else {
            1nat
        }
    }
}

/// No more entries are open than there are entries.
pub proof fn lemma_open_count_bound(values: Seq<DijkstraData>)
    ensures
        open_count(values) <= values.len(),
    decreases values.len(),
{
    if values.len() > 0 {
        lemma_open_count_bound(values.drop_last());
    }
}

/// Replacing one entry changes the number of open entries by what the old
/// and the new entry count.
pub proof fn lemma_open_count_update(values: Seq<DijkstraData>, i: int, d: DijkstraData)
    requires
        0 <= i < values.len(),
    ensures
        open_count(values.update(i, d)) + (if values[i].state is Known {
            0int
        } else {
            1int
        }) == open_count(values) + (if d.state is Known {
            0int
        } else {
            1int
        }),
    decreases values.len(),
{
    let updated = values.update(i, d);
    if i == values.len() - 1 {
        assert(updated.drop_last() =~= values.drop_last());
    } else {
        assert(updated.drop_last() =~= values.drop_last().update(i, d));
        lemma_open_count_update(values.drop_last(), i, d);
    }
}

/// The state of a search on a grid: the table of all states, the frontier,
/// and the state at the target that was made final first, if any was.
pub struct DijkstraMatrix {
    pub w: i64,
    pub h: i64,
    pub max_run: i64,
    pub start: Point,
    pub values: Vec<DijkstraData>,
    pub boundary: Frontier,
    pub goal: Option<SearchState>,
    /// For every state that was reached, the route on which it was.
    pub routes: Ghost<Seq<Seq<Point>>>,
}

impl DijkstraMatrix {
    /// Whether `s` is a state of this search.
    pub open spec fn node(&self, s: SearchState) -> bool {
        is_node(self.w as int, self.h as int, self.max_run as int, self.start, s)
    }

    /// What the table holds for state `s`.
    pub open spec fn data(&self, s: SearchState) -> DijkstraData {
        self.values@[slot_of(self.w as int, self.max_run as int, s)]
    }

    /// The route on which state `s` was reached.
    pub open spec fn route(&self, s: SearchState) -> Seq<Point> {
        self.routes@[slot_of(self.w as int, self.max_run as int, s)]
    }

    /// Whether a route to state `s` has been found.
    pub open spec fn reached(&self, s: SearchState) -> bool {
        !(self.data(s).state is Unknown)
    }

    /// The number of states whose distance is final.
    pub open spec fn known_count(&self) -> int {
        self.values@.len() - open_count(self.values@)
    }

    /// The table has a place for every state of a search on `grid`.
    pub open spec fn fits(&self, grid: &HeatMatrix) -> bool {
        &&& grid.is_heat_grid()
        &&& self.w == grid.w
        &&& self.h == grid.h
        &&& 1 <= self.max_run
        &&& grid.contains(self.start)
        &&& self.values@.len() == slot_count(self.w as int, self.h as int, self.max_run as int)
        &&& self.routes@.len() == self.values@.len()
        &&& search_fits(self.w as int, self.h as int, self.max_run as int)
    }

    /// The route recorded for the reached state `s` is a route that ends in
    /// `s`, loses as much heat as the table says, and continues the route
    /// recorded for the state before `s`, which is final.
    pub open spec fn route_ok(&self, grid: &HeatMatrix, s: SearchState) -> bool {
        let r = self.route(s);
        &&& is_route(grid, self.max_run as int, self.start, r)
        &&& end_state(r) == s
        &&& route_weight(grid, r) == self.data(s).distance
        &&& self.data(s).distance <= 9 * self.known_count()
        &&& match self.data(s).prev {
            None => r.len() == 1,
            Some(p) => {
                &&& r.len() >= 2
                &&& p == end_state(r.drop_last())
                &&& self.node(p)
                &&& self.data(p).state is Known
                &&& self.route(p) == r.drop_last()
            },
        }
    }

    /// Every reached state has its route.
    #[verifier::opaque]
    pub open spec fn routes_ok(&self, grid: &HeatMatrix) -> bool {
        forall|s: SearchState|
            #[trigger] is_node(self.w as int, self.h as int, self.max_run as int, self.start, s)
                && self.reached(s) ==> self.route_ok(grid, s)
    }

    /// Every step from `u` in a direction whose code is below `upto` leads
    /// to a reached state that is no farther than `u` and the step.
    pub open spec fn closed_at(&self, grid: &HeatMatrix, u: SearchState, upto: int) -> bool {
        forall|t: SearchState| #[trigger]
            transition(grid, self.max_run as int, u, t) && t.dir.unwrap().code() < upto ==> {
                &&& self.reached(t)
                &&& self.data(t).distance <= self.data(u).distance + grid.at(t.pos)
            }
    }

    /// How many directions of state `u` must be closed: all four, but for
    /// the state whose steps are being taken.
    pub open spec fn due(pending: Option<(SearchState, int)>, u: SearchState) -> int {
        match pending {
            Some((s, k)) => if s == u {
                k
            } else {
                4
            },
            None => 4,
        }
    }

    /// Every final state is closed, as far as it is due.
    pub open spec fn closed(&self, grid: &HeatMatrix, pending: Option<(SearchState, int)>) -> bool {
        forall|u: SearchState|
            #[trigger] is_node(self.w as int, self.h as int, self.max_run as int, self.start, u)
                && self.data(u).state is Known ==> self.closed_at(
                grid,
                u,
                Self::due(pending, u),
            )
    }

    /// The frontier is a heap; each of its entries is a reached state at a
    /// distance no less than the table's; and every state on the boundary
    /// is on it with the table's distance.
    pub open spec fn frontier_ok(&self) -> bool {
        &&& self.boundary.wf()
        &&& forall|e: FrontierEntry| #[trigger]
            self.boundary.holds(e) ==> {
                &&& self.node(e.state)
                &&& self.reached(e.state)
                &&& self.data(e.state).distance <= e.distance
            }
        &&& forall|s: SearchState|
            #[trigger] is_node(self.w as int, self.h as int, self.max_run as int, self.start, s)
                && self.data(s).state is Boundary ==> self.boundary.holds(
                FrontierEntry { state: s, distance: self.data(s).distance },
            )
    }

    /// No final state is farther than `level`, and no state on the boundary
    /// is nearer.
    pub open spec fn layered(&self, level: int) -> bool {
        forall|u: SearchState|
            #[trigger] is_node(self.w as int, self.h as int, self.max_run as int, self.start, u)
                ==> {
                &&& self.data(u).state is Known ==> self.data(u).distance <= level
                &&& self.data(u).state is Boundary ==> level <= self.data(u).distance
            }
    }

    /// No state at `target` is final.
    pub open spec fn short_of(&self, target: Point) -> bool {
        forall|u: SearchState|
            #[trigger] is_node(self.w as int, self.h as int, self.max_run as int, self.start, u)
                && self.data(u).state is Known ==> u.pos != target
    }

    /// What holds of a search under way, when the last state made final
    /// was at distance `level` and `pending` says how far its steps have
    /// been taken: see the parts.
    #[verifier::opaque]
    pub open spec fn inv(
        &self,
        grid: &HeatMatrix,
        target: Point,
        pending: Option<(SearchState, int)>,
        level: int,
    ) -> bool {
        &&& self.fits(grid)
        &&& self.goal is None
        &&& self.reached(start_state(self.start))
        &&& self.data(start_state(self.start)).distance == 0
        &&& self.routes_ok(grid)
        &&& self.closed(grid, pending)
        &&& self.frontier_ok()
        &&& self.short_of(target)
        &&& self.layered(level)
    }

    /// While every final state is closed and no state on the boundary is
    /// nearer than `level`, no route is shorter than both `level` and the
    /// distance that the table has for the state in which it ends.
    pub proof fn lemma_lower_bound(&self, grid: &HeatMatrix, level: int, r: Seq<Point>)
        requires
            self.fits(grid),
            self.reached(start_state(self.start)),
            self.data(start_state(self.start)).distance == 0,
            self.closed(grid, None),
            forall|u: SearchState|
                #[trigger] is_node(
                    self.w as int,
                    self.h as int,
                    self.max_run as int,
                    self.start,
                    u,
                ) && self.data(u).state is Boundary ==> level <= self.data(u).distance,
            is_route(grid, self.max_run as int, self.start, r),
        ensures
            self.node(end_state(r)),
            0 <= route_weight(grid, r),
            level <= route_weight(grid, r) || (self.reached(end_state(r)) && self.data(
                end_state(r),
            ).distance <= route_weight(grid, r)),
        decreases r.len(),
    {
        lemma_end_state(grid, self.max_run as int, self.start, r);
        lemma_route_weight_bounds(grid, r);
        if r.len() >= 2 {
            let short = r.drop_last();
            lemma_route_last_step(grid, self.max_run as int, self.start, r);
            self.lemma_lower_bound(grid, level, short);
            let u = end_state(short);
            let t = end_state(r);
            grid.lemma_index(r.last());
            assert(0 <= grid.at(r.last()) <= 9);
            if level <= route_weight(grid, short) {
            } else {
                assert(self.node(u));
                if self.data(u).state is Known {
                    assert(self.closed_at(grid, u, 4));
                    assert(transition(grid, self.max_run as int, u, t));
                    assert(t.dir.unwrap().code() < 4);
                }
            }
        }
    }
}

} // verus!
