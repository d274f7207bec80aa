//! Straight runs of steps: the moves that the crucible can make between
//! two turns.

use crate::heat::grid::{HeatMatrix, Point};
use vstd::prelude::*;

verus! {

/// The blocks from `p` to `k` steps of `d` further on.
pub open spec fn straight(p: Point, d: Point, k: int) -> Seq<Point> {
    Seq::new((k + 1) as nat, |j: int| Point { x: (p.x + j * d.x) as i64, y: (p.y + j * d.y) as i64 })
}

/// Whether `d` is at most one step in each direction.
pub open spec fn is_small(d: Point) -> bool {
    -1 <= d.x <= 1 && -1 <= d.y <= 1
}

impl HeatMatrix {
    /// The number of steps of `d` that can be taken from `p` without
    /// leaving the grid, but no more than `limit`.
    pub open spec fn run_limit(&self, p: Point, d: Point, limit: int) -> int
        decreases limit,
    {
        if limit <= 0 {
            0
        } else if self.run_limit(p, d, limit - 1) == limit - 1 && self.contains(
            straight(p, d, limit)[limit],
        ) {
            limit
        } else {
            self.run_limit(p, d, limit - 1)
        }
    }

    /// All straight runs of 1 to `max_run` steps of `d` from `p` that stay
    /// on the grid, the shortest first.
    pub fn generate_short_paths(&self, p: Point, d: Point, max_run: i64) -> (paths: Vec<Vec<Point>>)
        requires
            self.wf(),
            self.contains(p),
            is_small(d),
        ensures
            paths@.len() == self.run_limit(p, d, max_run as int),
            forall|k: int| 0 <= k < paths@.len() ==> (#[trigger] paths@[k])@ == straight(p, d, k + 1),
    {
        let mut paths: Vec<Vec<Point>> = Vec::new();
        let mut path: Vec<Point> = Vec::new();
        path.push(p);
        let mut q: Point = p;
        let mut taken: i64 = 0;
        proof {
            assert(path@ =~= straight(p, d, 0));
        }
        while taken < max_run
            invariant
                0 <= taken,
                taken <= max_run || (max_run < 0 && taken == 0),
                self.wf(),
                self.contains(q),
                is_small(d),
                q.x == p.x + taken * d.x,
                q.y == p.y + taken * d.y,
                path@ == straight(p, d, taken as int),
                paths@.len() == taken,
                self.run_limit(p, d, taken as int) == taken,
                forall|k: int|
                    0 <= k < paths@.len() ==> (#[trigger] paths@[k])@ == straight(p, d, k + 1),
            decreases max_run - taken,
        {
            let next = Point::new(q.x + d.x, q.y + d.y);
            proof {
                assert((taken + 1) * d.x == taken * d.x + d.x) by (nonlinear_arith);
                assert((taken + 1) * d.y == taken * d.y + d.y) by (nonlinear_arith);
                assert(straight(p, d, taken + 1)[taken + 1] == next);
            }
            if !self.check_point_valid(&next) {
                proof {
                    self.lemma_run_stops(p, d, taken as int, max_run as int);
                }
                return paths;
            }
            q = next;
            path.push(q);
            taken += 1;
            proof {
                assert(path@ =~= straight(p, d, taken as int));
            }
            let mut copy: Vec<Point> = Vec::new();
            let mut i: usize = 0;
            while i < path.len()
                invariant
                    i <= path@.len(),
                    copy@ == path@.take(i as int),
                decreases path@.len() - i,
            {
                copy.push(path[i]);
                proof {
                    assert(path@.take(i + 1) =~= path@.take(i as int).push(path@[i as int]));
                }
                i += 1;
            }
            proof {
                assert(path@.take(path@.len() as int) =~= path@);
            }
            let ghost before = paths@;
            paths.push(copy);
            proof {
                assert forall|k: int| 0 <= k < paths@.len() implies (#[trigger] paths@[k])@
                    == straight(p, d, k + 1) by {
                    if k < before.len() {
                        assert(paths@[k] == before[k]);
                    }
                }
            }
        }
        proof {
            if max_run < 0 {
                assert(self.run_limit(p, d, max_run as int) == 0);
            }
        }
        paths
    }

    /// Once a step leaves the grid, no longer run can be taken.
    pub proof fn lemma_run_stops(&self, p: Point, d: Point, taken: int, limit: int)
        requires
            0 <= taken < limit,
            self.run_limit(p, d, taken) == taken,
            !self.contains(straight(p, d, taken + 1)[taken + 1]),
        ensures
            self.run_limit(p, d, limit) == taken,
        decreases limit - taken,
    {
        if taken + 1 < limit {
            self.lemma_run_stops(p, d, taken, limit - 1);
        }
    }

    /// The straight runs that the crucible can take from `p`: after the
    /// move `prev_path`, whose second block is the one before `p`, those to
    /// the right and then those to the left of that move; without one,
    /// those to the east, west, south and north.
    pub fn generate_next_paths(
        &self,
        p: Point,
        prev_path: &Option<Vec<Point>>,
        max_run: i64,
    ) -> (paths: Vec<Vec<Point>>)
        requires
            self.wf(),
            self.contains(p),
            match prev_path {
                Some(prev) => prev@.len() >= 2 && is_small(
                    Point { x: (p.x - prev@[1].x) as i64, y: (p.y - prev@[1].y) as i64 },
                ) && -1 <= p.x - prev@[1].x <= 1 && -1 <= p.y - prev@[1].y <= 1,
                None => true,
            },
        ensures
            match prev_path {
                Some(prev) => {
                    let right = Point { x: (prev@[1].y - p.y) as i64, y: (p.x - prev@[1].x) as i64 };
                    let left = Point { x: (p.y - prev@[1].y) as i64, y: (prev@[1].x - p.x) as i64 };
                    &&& paths@.len() == self.run_limit(p, right, max_run as int) + self.run_limit(
                        p,
                        left,
                        max_run as int,
                    )
                    &&& forall|k: int|
                        0 <= k < self.run_limit(p, right, max_run as int) ==> (
                        #[trigger] paths@[k])@ == straight(p, right, k + 1)
                    &&& forall|k: int|
                        0 <= k < self.run_limit(p, left, max_run as int) ==> (#[trigger] paths@[
                            self.run_limit(p, right, max_run as int) + k
                        ])@ == straight(p, left, k + 1)
                },
                None => {
                    let east = self.run_limit(p, Point { x: 1, y: 0 }, max_run as int);
                    let west = self.run_limit(p, Point { x: -1i64, y: 0 }, max_run as int);
                    let south = self.run_limit(p, Point { x: 0, y: 1 }, max_run as int);
                    let north = self.run_limit(p, Point { x: 0, y: -1i64 }, max_run as int);
                    &&& paths@.len() == east + west + south + north
                    &&& forall|k: int|
                        0 <= k < east ==> (#[trigger] paths@[k])@ == straight(
                            p,
                            Point { x: 1, y: 0 },
                            k + 1,
                        )
                    &&& forall|k: int|
                        0 <= k < west ==> (#[trigger] paths@[east + k])@ == straight(
                            p,
                            Point { x: -1i64, y: 0 },
                            k + 1,
                        )
                    &&& forall|k: int|
                        0 <= k < south ==> (#[trigger] paths@[east + west + k])@ == straight(
                            p,
                            Point { x: 0, y: 1 },
                            k + 1,
                        )
                    &&& forall|k: int|
                        0 <= k < north ==> (#[trigger] paths@[east + west + south + k])@
                            == straight(p, Point { x: 0, y: -1i64 }, k + 1)
                },
            },
    {
        let mut paths: Vec<Vec<Point>> = Vec::new();
        if let Some(prev_path) = prev_path {
            let prev = prev_path[1];
            let d = Point::new(p.x - prev.x, p.y - prev.y);
            let right = d.turn_clock_wise();
            let left = right.reversed();
            let mut first = self.generate_short_paths(p, right, max_run);
            let mut second = self.generate_short_paths(p, left, max_run);
            let ghost a = first@;
            let ghost b = second@;
            paths.append(&mut first);
            paths.append(&mut second);
            proof {
                assert(paths@ =~= a + b);
                assert forall|k: int| 0 <= k < b.len() implies (#[trigger] paths@[a.len() + k])@
                    == straight(p, left, k + 1) by {
                    assert(paths@[a.len() + k] == b[k]);
                }
            }
        } else {
            let mut east = self.generate_short_paths(p, Point::new(1, 0), max_run);
            let mut west = self.generate_short_paths(p, Point::new(-1, 0), max_run);
            let mut south = self.generate_short_paths(p, Point::new(0, 1), max_run);
            let mut north = self.generate_short_paths(p, Point::new(0, -1), max_run);
            let ghost a = east@;
            let ghost b = west@;
            let ghost c = south@;
            let ghost e = north@;
            paths.append(&mut east);
            paths.append(&mut west);
            paths.append(&mut south);
            paths.append(&mut north);
            proof {
                assert(paths@ =~= a + b + c + e);
                assert forall|k: int| 0 <= k < b.len() implies (#[trigger] paths@[a.len() + k])@
                    == straight(p, Point { x: -1i64, y: 0 }, k + 1) by {
                    assert(paths@[a.len() + k] == b[k]);
                }
                assert forall|k: int| 0 <= k < c.len() implies (#[trigger] paths@[a.len() + b.len()
                    + k])@ == straight(p, Point { x: 0, y: 1 }, k + 1) by {
                    assert(paths@[a.len() + b.len() + k] == c[k]);
                }
                assert forall|k: int| 0 <= k < e.len() implies (#[trigger] paths@[a.len() + b.len()
                    + c.len() + k])@ == straight(p, Point { x: 0, y: -1i64 }, k + 1) by {
                    assert(paths@[a.len() + b.len() + c.len() + k] == e[k]);
                }
            }
        }
        paths
    }
}

} // verus!
