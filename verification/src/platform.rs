//! A platform of round and cube-shaped rocks that is tilted so that the
//! round rocks roll, the load on its north side, and the load after many
//! cycles of tilts.

use crate::text::{lines_of, split_lines, to_chars, views};
use vstd::prelude::*;

verus! {

/// What lies at a place of the platform.
#[derive(Debug, Clone, Copy, PartialEq, Eq, Hash, Structural)]
pub enum Rock {
    Round,
    Cube,
    Empty,
}

/// The number of places of `line` before its first cube-shaped rock.
pub open spec fn free_len(line: Seq<Rock>) -> int
    decreases line.len(),
{
    if line.len() == 0 || line[0] is Cube {
        0
    } else {
        1 + free_len(line.drop_first())
    }
}

/// The number of round rocks among the first `k` of `line`.
pub open spec fn round_count(line: Seq<Rock>, k: int) -> int
    decreases k,
{
    if k <= 0 {
        0
    } else {
        round_count(line, k - 1) + if line[k - 1] is Round {
            1int
        } else {
            0int
        }
    }
}

/// `free` places of which the first `rounds` hold round rocks.
pub open spec fn rolled(free: int, rounds: int) -> Seq<Rock> {
    Seq::new(
        free as nat,
        |i: int|
            if i < rounds {
                Rock::Round
            } else {
                Rock::Empty
            },
    )
}

/// `line` after its round rocks have rolled to the front as far as they
/// can: in every stretch before a cube-shaped rock the round rocks come
/// first.
pub open spec fn settled(line: Seq<Rock>) -> Seq<Rock>
    decreases line.len(),
{
    let k = free_len(line);
    if line.len() == 0 {
        Seq::empty()
    } else if 0 <= k < line.len() {
        rolled(k, round_count(line, k)) + seq![Rock::Cube] + settled(line.skip(k + 1))
    } else {
        rolled(line.len() as int, round_count(line, line.len() as int))
    }
}

/// `free_len` is the one place `k` before which there is no cube and which
/// is a cube or the end.
pub proof fn lemma_free_len(line: Seq<Rock>, k: int)
    requires
        0 <= k <= line.len(),
        forall|j: int| 0 <= j < k ==> !(#[trigger] line[j] is Cube),
        k == line.len() || line[k] is Cube,
    ensures
        free_len(line) == k,
    decreases line.len(),
{
    if k > 0 {
        let t = line.drop_first();
        assert forall|j: int| 0 <= j < k - 1 implies !(#[trigger] t[j] is Cube) by {
            assert(t[j] == line[j + 1]);
        }
        lemma_free_len(t, k - 1);
    }
}

/// A settled line is as long as the line.
pub proof fn lemma_settled_len(line: Seq<Rock>)
    ensures
        settled(line).len() == line.len(),
    decreases line.len(),
{
    let k = free_len(line);
    if line.len() > 0 && 0 <= k < line.len() {
        lemma_settled_len(line.skip(k + 1));
    }
}

/// `line` after its round rocks have rolled to the front.
pub fn settle(line: &Vec<Rock>) -> (out: Vec<Rock>)
    ensures
        out@ == settled(line@),
        out@.len() == line@.len(),
{
    let n = line.len();
    let mut out: Vec<Rock> = Vec::new();
    let mut start: usize = 0;
    proof {
        assert(line@.skip(0) =~= line@);
        assert(out@ + settled(line@) =~= settled(line@));
    }
    while start < n
        invariant
            start <= n,
            n == line@.len(),
            out@.len() == start,
            settled(line@) == out@ + settled(line@.skip(start as int)),
        decreases n - start,
    {
        let ghost rest = line@.skip(start as int);
        let mut rounds: usize = 0;
        let mut k: usize = start;
        while k < n && line[k] != Rock::Cube
            invariant
                start <= k <= n,
                n == line@.len(),
                rest == line@.skip(start as int),
                forall|j: int| 0 <= j < k - start ==> !(#[trigger] rest[j] is Cube),
                rounds == round_count(rest, k - start),
                rounds <= k - start,
            decreases n - k,
        {
            proof {
                assert(rest[k - start] == line@[k as int]);
            }
            if line[k] == Rock::Round {
                rounds += 1;
            }
            k += 1;
        }
        let free = k - start;
        proof {
            if k < n {
                assert(rest[k - start] == line@[k as int]);
            }
            lemma_free_len(rest, free as int);
        }
        let ghost before = out@;
        let mut i: usize = 0;
        while i < free
            invariant
                i <= free,
                rounds <= free,
                out@ == before + rolled(free as int, rounds as int).take(i as int),
            decreases free - i,
        {
            out.push(
                if i < rounds {
                    Rock::Round
                } else {
                    Rock::Empty
                },
            );
            proof {
                let all = rolled(free as int, rounds as int);
                assert(all.take(i + 1) =~= all.take(i as int).push(all[i as int]));
                assert(out@ =~= before + all.take(i + 1));
            }
            i += 1;
        }
        proof {
            let all = rolled(free as int, rounds as int);
            assert(all.take(free as int) =~= all);
        }
        if k < n {
            out.push(Rock::Cube);
            proof {
                assert(rest.skip(free + 1) =~= line@.skip(k + 1));
                assert(out@ + settled(line@.skip(k + 1)) =~= before + (rolled(
                    free as int,
                    rounds as int,
                ) + seq![Rock::Cube] + settled(rest.skip(free + 1))));
            }
            start = k + 1;
        } else {
            proof {
                assert(line@.skip(n as int).len() == 0);
                assert(out@ + settled(line@.skip(n as int)) =~= before + rolled(
                    free as int,
                    rounds as int,
                ));
            }
            start = n;
        }
    }
    proof {
        assert(line@.skip(n as int).len() == 0);
        assert(out@ + settled(line@.skip(n as int)) =~= out@);
        lemma_settled_len(line@);
    }
    out
}

/// The four sides to which the platform can be tilted.
#[derive(Debug, Clone, Copy, PartialEq, Eq, Structural)]
pub enum Side {
    North,
    West,
    South,
    East,
}

/// A platform: rows of rocks, the first row in the north.
#[derive(Debug, Clone, PartialEq, Eq, Hash)]
pub struct Platform {
    pub rocks: Vec<Vec<Rock>>,
}

/// The rows of a platform.
pub type Grid = Seq<Seq<Rock>>;

/// Whether the grid has a row and all rows are as long as the first.
pub open spec fn is_grid(g: Grid) -> bool {
    &&& g.len() >= 1
    &&& forall|y: int| 0 <= y < g.len() ==> (#[trigger] g[y]).len() == g[0].len()
}

/// The number of lines of the grid that run towards `side`.
pub open spec fn line_count(g: Grid, side: Side) -> int {
    match side {
        Side::North => g[0].len() as int,
        Side::South => g[0].len() as int,
        Side::West => g.len() as int,
        Side::East => g.len() as int,
    }
}

/// The number of places of each line that runs towards `side`.
pub open spec fn line_len(g: Grid, side: Side) -> int {
    match side {
        Side::North => g.len() as int,
        Side::South => g.len() as int,
        Side::West => g[0].len() as int,
        Side::East => g[0].len() as int,
    }
}

/// The column of place number `p` of line number `i` towards `side`.
pub open spec fn place_x(g: Grid, side: Side, i: int, p: int) -> int {
    match side {
        Side::North => i,
        Side::South => i,
        Side::West => p,
        Side::East => g[0].len() - 1 - p,
    }
}

/// The row of place number `p` of line number `i` towards `side`.
pub open spec fn place_y(g: Grid, side: Side, i: int, p: int) -> int {
    match side {
        Side::North => p,
        Side::South => g.len() - 1 - p,
        Side::West => i,
        Side::East => i,
    }
}

/// Line number `i` of the grid towards `side`, from the place nearest to
/// that side.
pub open spec fn line_of(g: Grid, side: Side, i: int) -> Seq<Rock> {
    Seq::new(
        line_len(g, side) as nat,
        |p: int| g[place_y(g, side, i, p)][place_x(g, side, i, p)],
    )
}

/// The number of the line towards `side` through the place `(x, y)`.
pub open spec fn line_through(side: Side, x: int, y: int) -> int {
    match side {
        Side::North => x,
        Side::South => x,
        Side::West => y,
        Side::East => y,
    }
}

/// The number of the place `(x, y)` in its line towards `side`.
pub open spec fn place_in_line(g: Grid, side: Side, x: int, y: int) -> int {
    match side {
        Side::North => y,
        Side::South => g.len() - 1 - y,
        Side::West => x,
        Side::East => g[0].len() - 1 - x,
    }
}

/// The grid after it has been tilted to `side`: every line towards that
/// side is settled.
pub open spec fn tilted(g: Grid, side: Side) -> Grid {
    Seq::new(
        g.len(),
        |y: int|
            Seq::new(
                g[0].len(),
                |x: int|
                    settled(line_of(g, side, line_through(side, x, y)))[place_in_line(
                        g,
                        side,
                        x,
                        y,
                    )],
            ),
    )
}

/// The grid after one cycle of tilts: to the north, west, south and east.
pub open spec fn spun(g: Grid) -> Grid {
    tilted(tilted(tilted(tilted(g, Side::North), Side::West), Side::South), Side::East)
}

/// The grid after `n` cycles of tilts.
pub open spec fn after_cycles(g: Grid, n: nat) -> Grid
    decreases n,
{
    if n == 0 {
        g
    } else {
        spun(after_cycles(g, (n - 1) as nat))
    }
}

/// The load of the round rocks of the first `x` places of row `y`: each
/// weighs as much as there are rows from its own to the south end.
pub open spec fn row_load(g: Grid, y: int, x: int) -> int
    decreases x,
{
    if x <= 0 {
        0
    } else {
        row_load(g, y, x - 1) + if g[y][x - 1] is Round {
            g.len() - y
        } else {
            0
        }
    }
}

/// The load of the round rocks of the first `y` rows.
pub open spec fn load(g: Grid, y: int) -> int
    decreases y,
{
    if y <= 0 {
        0
    } else {
        load(g, y - 1) + row_load(g, y - 1, g[0].len() as int)
    }
}

/// A tilted grid is a grid of the same size.
pub proof fn lemma_tilted_grid(g: Grid, side: Side)
    requires
        is_grid(g),
    ensures
        is_grid(tilted(g, side)),
        tilted(g, side).len() == g.len(),
        tilted(g, side)[0].len() == g[0].len(),
{
}

/// A spun grid is a grid of the same size.
pub proof fn lemma_spun_grid(g: Grid)
    requires
        is_grid(g),
    ensures
        is_grid(spun(g)),
        spun(g).len() == g.len(),
        spun(g)[0].len() == g[0].len(),
{
    let a = tilted(g, Side::North);
    lemma_tilted_grid(g, Side::North);
    let b = tilted(a, Side::West);
    lemma_tilted_grid(a, Side::West);
    let c = tilted(b, Side::South);
    lemma_tilted_grid(b, Side::South);
    lemma_tilted_grid(c, Side::East);
}

/// The grid stays a grid of the same size through all cycles.
pub proof fn lemma_cycles_grid(g: Grid, n: nat)
    requires
        is_grid(g),
    ensures
        is_grid(after_cycles(g, n)),
        after_cycles(g, n).len() == g.len(),
        after_cycles(g, n)[0].len() == g[0].len(),
    decreases n,
{
    if n > 0 {
        lemma_cycles_grid(g, (n - 1) as nat);
        lemma_spun_grid(after_cycles(g, (n - 1) as nat));
    }
}

/// Cycles after cycles are cycles.
pub proof fn lemma_cycles_add(g: Grid, a: nat, b: nat)
    ensures
        after_cycles(after_cycles(g, a), b) == after_cycles(g, a + b),
    decreases b,
{
    if b > 0 {
        lemma_cycles_add(g, a, (b - 1) as nat);
    }
}

/// Once the grid after `later` cycles is the grid after `first` cycles, the
/// grids repeat with that period: the grid after `n` cycles is the grid
/// after `first` cycles and the rest of the division of the others by the
/// period.
pub proof fn lemma_cycles_repeat(g: Grid, first: nat, later: nat, n: nat)
    requires
        first < later,
        after_cycles(g, later) == after_cycles(g, first),
        first <= n,
    ensures
        after_cycles(g, n) == after_cycles(g, (first + (n - first) % (later - first)) as nat),
    decreases n,
{
    let period = (later - first) as int;
    if n - first >= period {
        let back = (n - period) as nat;
        lemma_cycles_repeat(g, first, later, back);
        // n cycles are `later` cycles and n - later more; those are `first`
        // cycles and n - later more, which are n - period cycles.
        lemma_cycles_add(g, later, (n - later) as nat);
        lemma_cycles_add(g, first, (n - later) as nat);
        assert((n - first) % period == (n - period - first) % period) by {
            vstd::arithmetic::div_mod::lemma_mod_sub_multiples_vanish(n - first, period);
        }
    } else {
        vstd::arithmetic::div_mod::lemma_small_mod((n - first) as nat, period as nat);
    }
}

impl Platform {
    /// The rows of the platform.
    pub open spec fn grid(&self) -> Grid {
        self.rocks@.map_values(|row: Vec<Rock>| row@)
    }

    /// The platform has a row, and all rows are as long as the first.
    pub open spec fn wf(&self) -> bool {
        is_grid(self.grid())
    }

    /// Line number `i` towards `side`.
    fn take_line(&self, side: Side, i: usize) -> (line: Vec<Rock>)
        requires
            self.wf(),
            i < line_count(self.grid(), side),
        ensures
            line@ == line_of(self.grid(), side, i as int),
    {
        let h = self.rocks.len();
        proof {
            assert(self.grid()[0] == self.rocks@[0]@);
        }
        let w = self.rocks[0].len();
        let n = match side {
            Side::North => h,
            Side::South => h,
            Side::West => w,
            Side::East => w,
        };
        let ghost g = self.grid();
        let mut line: Vec<Rock> = Vec::new();
        let mut p: usize = 0;
        while p < n
            invariant
                p <= n,
                self.wf(),
                g == self.grid(),
                h == g.len(),
                w == g[0].len(),
                n == line_len(g, side),
                i < line_count(g, side),
                line@.len() == p,
                forall|k: int| 0 <= k < p ==> #[trigger] line@[k] == line_of(g, side, i as int)[k],
            decreases n - p,
        {
            let (x, y) = match side {
                Side::North => (i, p),
                Side::South => (i, h - 1 - p),
                Side::West => (p, i),
                Side::East => (w - 1 - p, i),
            };
            proof {
                assert(g[y as int] == self.rocks@[y as int]@);
                assert(g[y as int].len() == g[0].len());
            }
            line.push(self.rocks[y][x]);
            p += 1;
        }
        proof {
            assert(line@ =~= line_of(g, side, i as int));
        }
        line
    }

    /// Tilts the platform to `side`: the round rocks roll that way as far
    /// as they can.
    pub fn tilt(&mut self, side: Side)
        requires
            old(self).wf(),
        ensures
            final(self).wf(),
            final(self).grid() == tilted(old(self).grid(), side),
    {
        let ghost g = self.grid();
        let h = self.rocks.len();
        proof {
            assert(g[0] == self.rocks@[0]@);
        }
        let w = self.rocks[0].len();
        let count = match side {
            Side::North => w,
            Side::South => w,
            Side::West => h,
            Side::East => h,
        };
        let n = match side {
            Side::North => h,
            Side::South => h,
            Side::West => w,
            Side::East => w,
        };
        // Settle every line of the platform as it was, then write the
        // settled lines back.
        let mut lines: Vec<Vec<Rock>> = Vec::new();
        let mut i: usize = 0;
        while i < count
            invariant
                i <= count,
                self.wf(),
                g == self.grid(),
                count == line_count(g, side),
                lines@.len() == i,
                forall|k: int| 0 <= k < i ==> (#[trigger] lines@[k])@ == settled(line_of(g, side, k)),
            decreases count - i,
        {
            let line = self.take_line(side, i);
            let out = settle(&line);
            lines.push(out);
            i += 1;
        }
        let mut y: usize = 0;
        proof {
            assert forall|k: int| 0 <= k < h implies (#[trigger] self.rocks@[k])@.len() == w by {
                assert(g[k] == self.rocks@[k]@);
                assert(g[k].len() == g[0].len());
            }
        }
        while y < h
            invariant
                y <= h,
                h == g.len(),
                w == g[0].len(),
                is_grid(g),
                count == line_count(g, side),
                n == line_len(g, side),
                self.rocks@.len() == h,
                lines@.len() == count,
                forall|k: int|
                    0 <= k < count ==> (#[trigger] lines@[k])@ == settled(line_of(g, side, k)),
                forall|k: int| 0 <= k < h ==> (#[trigger] self.rocks@[k])@.len() == w,
                forall|k: int| 0 <= k < y ==> (#[trigger] self.rocks@[k])@ == tilted(g, side)[k],
            decreases h - y,
        {
            let mut x: usize = 0;
            while x < w
                invariant
                    x <= w,
                    y < h,
                    h == g.len(),
                    w == g[0].len(),
                    is_grid(g),
                    count == line_count(g, side),
                    n == line_len(g, side),
                    self.rocks@.len() == h,
                    lines@.len() == count,
                    forall|k: int|
                        0 <= k < count ==> (#[trigger] lines@[k])@ == settled(line_of(g, side, k)),
                    forall|k: int| 0 <= k < h ==> (#[trigger] self.rocks@[k])@.len() == w,
                    forall|k: int|
                        0 <= k < y ==> (#[trigger] self.rocks@[k])@ == tilted(g, side)[k],
                    forall|j: int|
                        0 <= j < x ==> #[trigger] self.rocks@[y as int]@[j] == tilted(g, side)[y as int][j],
                decreases w - x,
            {
                let (i, p) = match side {
                    Side::North => (x, y),
                    Side::South => (x, h - 1 - y),
                    Side::West => (y, x),
                    Side::East => (y, w - 1 - x),
                };
                proof {
                    lemma_settled_len(line_of(g, side, i as int));
                    assert(lines@[i as int]@ == settled(line_of(g, side, i as int)));
                }
                let rock = lines[i][p];
                let ghost before = self.rocks@;
                self.rocks[y].set(x, rock);
                proof {
                    assert forall|k: int| 0 <= k < h implies (#[trigger] self.rocks@[k])@.len()
                        == w by {
                        if k != y {
                            assert(self.rocks@[k] == before[k]);
                        }
                    }
                    assert forall|k: int| 0 <= k < y implies (#[trigger] self.rocks@[k])@
                        == tilted(g, side)[k] by {
                        assert(self.rocks@[k] == before[k]);
                    }
                }
                x += 1;
            }
            proof {
                assert(self.rocks@[y as int]@ =~= tilted(g, side)[y as int]);
            }
            y += 1;
        }
        proof {
            assert(self.grid() =~= tilted(g, side));
            lemma_tilted_grid(g, side);
        }
    }

    /// Tilts the platform to the north, the west, the south and the east.
    pub fn spin(&mut self)
        requires
            old(self).wf(),
        ensures
            final(self).wf(),
            final(self).grid() == spun(old(self).grid()),
    {
        self.tilt(Side::North);
        self.tilt(Side::West);
        self.tilt(Side::South);
        self.tilt(Side::East);
    }

    /// The load of the round rocks on the north side of the platform.
    pub fn total_load(&self) -> (sum: i64)
        requires
            self.wf(),
            self.rocks@.len() * self.rocks@.len() * self.grid()[0].len() <= i64::MAX,
        ensures
            sum == load(self.grid(), self.rocks@.len() as int),
    {
        let ghost g = self.grid();
        let h = self.rocks.len();
        proof {
            assert(g[0] == self.rocks@[0]@);
        }
        let w = self.rocks[0].len();
        let mut sum: i64 = 0;
        let mut y: usize = 0;
        proof {
            assert(0 * (h * w) == 0) by (nonlinear_arith);
        }
        while y < h
            invariant
                y <= h,
                g == self.grid(),
                is_grid(g),
                h == g.len(),
                w == g[0].len(),
                h * h * w <= i64::MAX,
                sum == load(g, y as int),
                0 <= sum <= y * (h * w),
            decreases h - y,
        {
            let row = &self.rocks[y];
            let ghost base = sum as int;
            let mut x: usize = 0;
            proof {
                assert(g[y as int] == row@);
                assert(g[y as int].len() == g[0].len());
                assert((y + 1) * (h * w) == y * (h * w) + h * w) by (nonlinear_arith);
                assert((y + 1) * (h * w) <= h * (h * w)) by (nonlinear_arith)
                    requires
                        y + 1 <= h,
                        0 <= h * w,
                ;
                assert(h * (h * w) == h * h * w) by (nonlinear_arith);
                assert(0 <= h * w) by (nonlinear_arith)
                    requires
                        0 <= h,
                        0 <= w,
                ;
            }
            while x < w
                invariant
                    x <= w,
                    y < h,
                    row@ == g[y as int],
                    row@.len() == w,
                    h == g.len(),
                    w == g[0].len(),
                    h * h * w <= i64::MAX,
                    (y + 1) * (h * w) <= h * h * w,
                    (y + 1) * (h * w) == y * (h * w) + h * w,
                    0 <= base <= y * (h * w),
                    sum == base + row_load(g, y as int, x as int),
                    0 <= sum - base <= x * h,
                decreases w - x,
            {
                proof {
                    assert((x + 1) * h == x * h + h) by (nonlinear_arith);
                    assert((x + 1) * h <= w * h) by (nonlinear_arith)
                        requires
                            x + 1 <= w,
                            0 <= h,
                    ;
                    assert(w * h == h * w) by (nonlinear_arith);
                }
                if row[x] == Rock::Round {
                    sum += h as i64 - y as i64;
                }
                x += 1;
            }
            proof {
                assert(w * h == h * w) by (nonlinear_arith);
            }
            y += 1;
        }
        sum
    }

    /// Whether the two platforms hold the same rocks at the same places.
    pub fn same_as(&self, other: &Platform) -> (same: bool)
        ensures
            same == (self.grid() == other.grid()),
    {
        if self.rocks.len() != other.rocks.len() {
            proof {
                assert(self.grid().len() != other.grid().len());
            }
            return false;
        }
        let mut y: usize = 0;
        while y < self.rocks.len()
            invariant
                y <= self.rocks@.len(),
                self.rocks@.len() == other.rocks@.len(),
                forall|k: int| 0 <= k < y ==> #[trigger] self.grid()[k] == other.grid()[k],
            decreases self.rocks@.len() - y,
        {
            let a = &self.rocks[y];
            let b = &other.rocks[y];
            proof {
                assert(self.grid()[y as int] == a@);
                assert(other.grid()[y as int] == b@);
            }
            if a.len() != b.len() {
                proof {
                    assert(self.grid()[y as int].len() != other.grid()[y as int].len());
                }
                return false;
            }
            let mut x: usize = 0;
            while x < a.len()
                invariant
                    x <= a@.len(),
                    y < self.rocks@.len(),
                    self.rocks@.len() == other.rocks@.len(),
                    self.grid()[y as int] == a@,
                    other.grid()[y as int] == b@,
                    a@.len() == b@.len(),
                    forall|k: int| 0 <= k < x ==> a@[k] == b@[k],
                decreases a@.len() - x,
            {
                if a[x] != b[x] {
                    proof {
                        assert(self.grid()[y as int][x as int] != other.grid()[y as int][x as int]);
                    }
                    return false;
                }
                x += 1;
            }
            proof {
                assert(a@ =~= b@);
            }
            y += 1;
        }
        proof {
            assert(self.grid() =~= other.grid());
        }
        true
    }

    /// A copy of the platform.
    pub fn copy(&self) -> (other: Platform)
        ensures
            other.grid() == self.grid(),
    {
        let mut rocks: Vec<Vec<Rock>> = Vec::new();
        let mut y: usize = 0;
        while y < self.rocks.len()
            invariant
                y <= self.rocks@.len(),
                rocks@.len() == y,
                forall|k: int| 0 <= k < y ==> (#[trigger] rocks@[k])@ == self.rocks@[k]@,
            decreases self.rocks@.len() - y,
        {
            let row = &self.rocks[y];
            let mut copy: Vec<Rock> = Vec::new();
            let mut x: usize = 0;
            while x < row.len()
                invariant
                    x <= row@.len(),
                    copy@ == row@.take(x as int),
                decreases row@.len() - x,
            {
                copy.push(row[x]);
                proof {
                    assert(row@.take(x + 1) =~= row@.take(x as int).push(row@[x as int]));
                }
                x += 1;
            }
            proof {
                assert(row@.take(x as int) =~= row@);
            }
            rocks.push(copy);
            y += 1;
        }
        let other = Platform { rocks };
        proof {
            assert(other.grid() =~= self.grid());
        }
        other
    }

    /// The platform as it is after `cycles` cycles of tilts. The cycles are
    /// not all carried out: once the platform is as it was after an
    /// earlier cycle, the rest follows from the period.
    pub fn after(&self, cycles: u64) -> (end: Platform)
        requires
            self.wf(),
        ensures
            end.grid() == after_cycles(self.grid(), cycles as nat),
    {
        let ghost g = self.grid();
        let mut previous: Vec<Platform> = Vec::new();
        let mut platform = self.copy();
        let mut done: u64 = 0;
        while done < cycles
            invariant
                done <= cycles,
                is_grid(g),
                g == self.grid(),
                platform.grid() == after_cycles(g, done as nat),
                previous@.len() == done,
                forall|k: int|
                    0 <= k < done ==> (#[trigger] previous@[k]).grid() == after_cycles(g, k as nat),
            decreases cycles - done,
        {
            proof {
                lemma_cycles_grid(g, done as nat);
            }
            previous.push(platform.copy());
            platform.spin();
            done += 1;
            let mut i: usize = 0;
            while i < previous.len()
                invariant
                    i <= previous@.len(),
                    previous@.len() == done,
                    done <= cycles,
                    g == self.grid(),
                    platform.grid() == after_cycles(g, done as nat),
                    forall|k: int|
                        0 <= k < done ==> (#[trigger] previous@[k]).grid() == after_cycles(
                            g,
                            k as nat,
                        ),
                decreases previous@.len() - i,
            {
                if previous[i].same_as(&platform) {
                    let period = done - i as u64;
                    let index = i as u64 + (cycles - i as u64) % period;
                    proof {
                        assert(after_cycles(g, done as nat) == after_cycles(g, i as nat));
                        lemma_cycles_repeat(g, i as nat, done as nat, cycles as nat);
                        vstd::arithmetic::div_mod::lemma_mod_bound(
                            (cycles - i) as int,
                            (done - i) as int,
                        );
                        assert(index == i + (cycles - i) % (done - i));
                        assert(0 <= index < done);
                        assert(previous@[index as int].grid() == after_cycles(g, index as nat));
                        assert(after_cycles(g, cycles as nat) == after_cycles(g, index as nat));
                    }
                    return previous[index as usize].copy();
                }
                i += 1;
            }
        }
        platform
    }
}

/// The rock that the character `c` stands for.
pub open spec fn rock_of(c: char) -> Option<Rock> {
    if c == 'O' {
        Some(Rock::Round)
    } else if c == '#' {
        Some(Rock::Cube)
    } else if c == '.' {
        Some(Rock::Empty)
    } else {
        None
    }
}

/// Whether every character of every line of `text` stands for a rock.
pub open spec fn is_platform_text(text: Seq<char>) -> bool {
    forall|y: int, x: int|
        0 <= y < lines_of(text).len() && 0 <= x < lines_of(text)[y].len() ==> rock_of(
            #[trigger] lines_of(text)[y][x],
        ) is Some
}

impl Platform {
    /// Reads a platform, one row from each line.
    pub fn parse(input: &str) -> (platform: Platform)
        requires
            is_platform_text(input@),
        ensures
            platform.rocks@.len() == lines_of(input@).len(),
            forall|y: int|
                0 <= y < lines_of(input@).len() ==> (#[trigger] platform.rocks@[y])@.len()
                    == lines_of(input@)[y].len(),
            forall|y: int, x: int|
                0 <= y < lines_of(input@).len() && 0 <= x < lines_of(input@)[y].len() ==> Some(
                    #[trigger] platform.rocks@[y]@[x],
                ) == rock_of(lines_of(input@)[y][x]),
    {
        let chars = to_chars(input);
        let lines = split_lines(&chars);
        let ghost rows = lines_of(input@);
        let mut rocks: Vec<Vec<Rock>> = Vec::new();
        let mut y: usize = 0;
        while y < lines.len()
            invariant
                y <= lines@.len(),
                views(lines@) == rows,
                rows == lines_of(input@),
                is_platform_text(input@),
                rocks@.len() == y,
                forall|k: int| 0 <= k < y ==> (#[trigger] rocks@[k])@.len() == rows[k].len(),
                forall|k: int, x: int|
                    0 <= k < y && 0 <= x < rows[k].len() ==> Some(#[trigger] rocks@[k]@[x])
                        == rock_of(rows[k][x]),
            decreases lines@.len() - y,
        {
            let line = &lines[y];
            proof {
                assert(views(lines@)[y as int] == line@);
            }
            let mut row: Vec<Rock> = Vec::new();
            let mut x: usize = 0;
            while x < line.len()
                invariant
                    x <= line@.len(),
                    y < rows.len(),
                    line@ == rows[y as int],
                    rows == lines_of(input@),
                    is_platform_text(input@),
                    row@.len() == x,
                    forall|k: int| 0 <= k < x ==> Some(#[trigger] row@[k]) == rock_of(line@[k]),
                decreases line@.len() - x,
            {
                let c = line[x];
                proof {
                    assert(rock_of(rows[y as int][x as int]) is Some);
                }
                let rock = if c == 'O' {
                    Rock::Round
                } else if c == '#' {
                    Rock::Cube
                } else {
                    Rock::Empty
                };
                row.push(rock);
                x += 1;
            }
            let ghost before = rocks@;
            rocks.push(row);
            proof {
                assert forall|k: int, x: int| 0 <= k < y + 1 && 0 <= x < rows[k].len() implies Some(
                    #[trigger] rocks@[k]@[x],
                ) == rock_of(rows[k][x]) by {
                    if k < y {
                        assert(rocks@[k] == before[k]);
                    }
                }
            }
            y += 1;
        }
        Platform { rocks }
    }
}

} // verus!
