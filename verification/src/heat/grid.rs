//! Points, matrices and the grid of heat losses.

use crate::text::{digit, digit_to_u64, digit_value, is_digit, lines_of, split_lines, to_chars};
use vstd::prelude::*;

verus! {

/// A position in a matrix, or a displacement between two positions.
#[derive(Debug, Clone, Copy, PartialEq, Eq, Structural, PartialOrd, Ord, Default)]
pub struct Point {
    pub x: i64,
    pub y: i64,
}

impl Point {
    pub fn new(x: i64, y: i64) -> (p: Point)
        ensures
            p.x == x,
            p.y == y,
    {
        Point { x, y }
    }

    /// The displacement turned by a quarter: east becomes south, south
    /// becomes west (y grows downwards).
    pub fn turn_clock_wise(&self) -> (q: Point)
        requires
            self.y > i64::MIN,
        ensures
            q.x == -self.y,
            q.y == self.x,
    {
        Point::new(-self.y, self.x)
    }

    /// The opposite displacement.
    pub fn reversed(&self) -> (q: Point)
        requires
            self.x > i64::MIN,
            self.y > i64::MIN,
        ensures
            q.x == -self.x,
            q.y == -self.y,
    {
        Point::new(-self.x, -self.y)
    }
}

/// A `w` by `h` matrix stored row by row.
#[derive(Debug, Clone, PartialEq)]
pub struct Matrix<T: Clone + Default> {
    pub w: i64,
    pub h: i64,
    pub values: Vec<T>,
}

impl<T: Clone + Default> Matrix<T> {
    /// The matrix holds exactly `w * h` values, and no more than can be
    /// counted in an `i64`.
    pub open spec fn wf(&self) -> bool {
        &&& 0 <= self.w
        &&& 0 <= self.h
        &&& self.values.len() == self.w * self.h
        &&& self.w * self.h <= i64::MAX
    }

    /// Whether `p` is a position of the matrix.
    pub open spec fn contains(&self, p: Point) -> bool {
        0 <= p.x < self.w && 0 <= p.y < self.h
    }

    /// Where the value at `p` is stored.
    pub open spec fn index_of(&self, p: Point) -> int {
        p.y * self.w + p.x
    }

    /// The value at `p`.
    pub open spec fn at(&self, p: Point) -> T {
        self.values@[self.index_of(p)]
    }

    /// Whether `value` is a copy of a default value of `T`.
    pub open spec fn fresh(value: T) -> bool {
        exists|d: T| call_ensures(T::default, (), d) && cloned(d, value)
    }

    /// Positions of a well-formed matrix are stored inside `values`, each at
    /// a place of its own.
    pub proof fn lemma_index(&self, p: Point)
        requires
            self.wf(),
            self.contains(p),
        ensures
            0 <= self.index_of(p) < self.values@.len(),
            self.index_of(p) <= i64::MAX,
    {
        assert(p.y * self.w <= (self.h - 1) * self.w) by (nonlinear_arith)
            requires
                0 <= p.y <= self.h - 1,
                0 <= self.w,
        ;
        assert((self.h - 1) * self.w == self.h * self.w - self.w) by (nonlinear_arith);
        assert(0 <= p.y * self.w) by (nonlinear_arith)
            requires
                0 <= p.y,
                0 <= self.w,
        ;
        assert(self.w * self.h == self.h * self.w) by (nonlinear_arith);
    }

    /// The empty matrix.
    pub fn new() -> (m: Matrix<T>)
        ensures
            m.w == 0,
            m.h == 0,
            m.values@.len() == 0,
            m.wf(),
    {
        Matrix::<T> { w: 0, h: 0, values: Vec::new() }
    }

    /// A `w` by `h` matrix of default values.
    pub fn new_sized(w: i64, h: i64) -> (m: Matrix<T>)
        requires
            0 <= w,
            0 <= h,
            w * h <= usize::MAX,
            w * h <= i64::MAX,
        ensures
            m.w == w,
            m.h == h,
            m.wf(),
            forall|i: int| 0 <= i < m.values.len() ==> Self::fresh(#[trigger] m.values@[i]),
    {
        assert(0 <= w * h) by (nonlinear_arith)
            requires
                0 <= w,
                0 <= h,
        ;
        let n = (w * h) as usize;
        let d = T::default();
        let values = vec![d; n];
        let m = Matrix::<T> { w, h, values };
        assert forall|i: int| 0 <= i < m.values.len() implies Self::fresh(
            #[trigger] m.values@[i],
        ) by {
            assert(call_ensures(T::default, (), d) && cloned(d, m.values@[i]));
        }
        m
    }

    /// The value at `p`.
    pub fn get(&self, p: Point) -> (value: &T)
        requires
            self.wf(),
            self.contains(p),
        ensures
            *value == self.at(p),
    {
        proof {
            self.lemma_index(p);
        }
        let index = p.y * self.w + p.x;
        &self.values[index as usize]
    }

    /// The place of the value at `p`, to write to.
    pub fn get_mut(&mut self, p: Point) -> (value: &mut T)
        requires
            old(self).wf(),
            old(self).contains(p),
        ensures
            *value == old(self).at(p),
            final(self).w == old(self).w,
            final(self).h == old(self).h,
            final(self).values@ == old(self).values@.update(old(self).index_of(p), *final(value)),
    {
        proof {
            self.lemma_index(p);
        }
        let index = p.y * self.w + p.x;
        &mut self.values[index as usize]
    }
}

/// A grid of heat losses, one decimal digit per block.
pub type HeatMatrix = Matrix<i64>;

/// Why a text is no grid of heat losses.
#[derive(Debug, Clone, Copy, PartialEq, Eq, Structural)]
pub enum GridError {
    /// Some character of some row is no decimal digit.
    InvalidCharacter,
    /// Not all rows have the length of the first.
    RaggedRows,
    /// The grid has more rows, columns or blocks than an `i64` counts.
    TooLarge,
}

impl GridError {
    /// The sentence that says what is wrong with the text.
    pub open spec fn description(&self) -> Seq<char> {
        match self {
            GridError::InvalidCharacter => "a row holds a character that is no decimal digit"@,
            GridError::RaggedRows => "the rows differ in length"@,
            GridError::TooLarge => "the grid is too large"@,
        }
    }

    /// A sentence that says what is wrong with the text.
    pub fn describe(&self) -> (text: &'static str)
        ensures
            text@ == self.description(),
    {
        match self {
            GridError::InvalidCharacter => "a row holds a character that is no decimal digit",
            GridError::RaggedRows => "the rows differ in length",
            GridError::TooLarge => "the grid is too large",
        }
    }
}

/// Every character of every row is a decimal digit.
pub open spec fn rows_are_digits(rows: Seq<Seq<char>>) -> bool {
    forall|y: int, x: int|
        0 <= y < rows.len() && 0 <= x < rows[y].len() ==> is_digit(#[trigger] rows[y][x])
}

/// Every row is as long as the first.
pub open spec fn rows_are_even(rows: Seq<Seq<char>>) -> bool {
    forall|y: int| 0 <= y < rows.len() ==> (#[trigger] rows[y]).len() == rows[0].len()
}

/// The length of the first row, 0 when there is no row.
pub open spec fn rows_width(rows: Seq<Seq<char>>) -> int {
    if rows.len() == 0 {
        0
    } else {
        rows[0].len() as int
    }
}

/// The rows, the columns and the blocks can each be counted in an `i64`.
pub open spec fn rows_fit(rows: Seq<Seq<char>>) -> bool {
    &&& rows.len() <= i64::MAX
    &&& rows_width(rows) <= i64::MAX
    &&& rows.len() * rows_width(rows) <= i64::MAX
}

/// `m` holds, block by block, the digits of `rows`.
pub open spec fn is_grid_of(m: HeatMatrix, rows: Seq<Seq<char>>) -> bool {
    &&& m.wf()
    &&& m.h == rows.len()
    &&& m.w == rows_width(rows)
    &&& forall|x: int, y: int|
        0 <= x < m.w && 0 <= y < m.h ==> #[trigger] m.values@[y * m.w + x] == digit_value(
            rows[y][x],
        )
}

/// Stored places of a matrix `w` wide stand for one position each.
pub proof fn lemma_row_major(w: int, x: int, y: int)
    requires
        0 <= x < w,
        0 <= y,
    ensures
        y * w <= y * w + x < (y + 1) * w,
        (y + 1) * w == y * w + w,
        0 <= y * w,
{
    assert((y + 1) * w == y * w + w) by (nonlinear_arith);
    assert(0 <= y * w) by (nonlinear_arith)
        requires
            0 <= y,
            0 <= w,
    ;
}

/// Rows come one after the other: a later row starts no earlier than the
/// end of an earlier one.
pub proof fn lemma_row_order(w: int, y1: int, y2: int)
    requires
        0 <= w,
        0 <= y1 <= y2,
    ensures
        y1 * w <= y2 * w,
{
    assert(y1 * w <= y2 * w) by (nonlinear_arith)
        requires
            0 <= w,
            0 <= y1 <= y2,
    ;
}

impl HeatMatrix {
    /// Every heat loss is a single decimal digit.
    pub open spec fn is_heat_grid(&self) -> bool {
        &&& self.wf()
        &&& forall|i: int| 0 <= i < self.values.len() ==> 0 <= #[trigger] self.values@[i] <= 9
    }

    /// Reads a grid from rows of decimal digits, one row per line.
    pub fn parse(s: &str) -> (r: Result<HeatMatrix, GridError>)
        ensures
            ({
                let rows = lines_of(s@);
                match r {
                    Ok(m) => {
                        &&& rows_are_digits(rows)
                        &&& rows_are_even(rows)
                        &&& rows_fit(rows)
                        &&& is_grid_of(m, rows)
                        &&& m.is_heat_grid()
                    },
                    Err(GridError::InvalidCharacter) => !rows_are_digits(rows),
                    Err(GridError::RaggedRows) => rows_are_digits(rows) && !rows_are_even(rows),
                    Err(GridError::TooLarge) => {
                        &&& rows_are_digits(rows)
                        &&& rows_are_even(rows)
                        &&& !rows_fit(rows)
                    },
                }
            }),
    {
        let chars = to_chars(s);
        let lines = split_lines(&chars);
        let ghost rows = lines_of(s@);
        let h = lines.len();
        assert(forall|y: int| 0 <= y < h ==> (#[trigger] lines@[y])@ == rows[y]);

        let mut y: usize = 0;
        while y < h
            invariant
                y <= h,
                h == lines.len(),
                rows.len() == h,
                rows == lines_of(s@),
                forall|k: int| 0 <= k < h ==> (#[trigger] lines@[k])@ == rows[k],
                forall|k: int, x: int|
                    0 <= k < y && 0 <= x < rows[k].len() ==> is_digit(#[trigger] rows[k][x]),
            decreases h - y,
        {
            let line = &lines[y];
            let mut x: usize = 0;
            while x < line.len()
                invariant
                    x <= line.len(),
                    y < h,
                    rows.len() == h,
                    rows == lines_of(s@),
                    line@ == rows[y as int],
                    forall|j: int| 0 <= j < x ==> is_digit(#[trigger] rows[y as int][j]),
                decreases line.len() - x,
            {
                if !digit(line[x]) {
                    assert(!is_digit(rows[y as int][x as int]));
                    return Err(GridError::InvalidCharacter);
                }
                x += 1;
            }
            y += 1;
        }
        assert(rows_are_digits(rows));

        let w = if h == 0 {
            0
        } else {
            lines[0].len()
        };
        let mut y: usize = 0;
        while y < h
            invariant
                y <= h,
                h == lines.len(),
                rows.len() == h,
                w == rows_width(rows),
                rows == lines_of(s@),
                rows_are_digits(rows),
                forall|k: int| 0 <= k < h ==> (#[trigger] lines@[k])@ == rows[k],
                forall|k: int| 0 <= k < y ==> (#[trigger] rows[k]).len() == w,
            decreases h - y,
        {
            if lines[y].len() != w {
                assert(rows[y as int].len() != rows[0].len());
                return Err(GridError::RaggedRows);
            }
            y += 1;
        }
        assert(rows_are_even(rows));

        let limit: u128 = 0x7fff_ffff_ffff_ffff;
        if h as u128 > limit || w as u128 > limit {
            return Err(GridError::TooLarge);
        }
        assert((h as u128) * (w as u128) <= 0x7fff_ffff_ffff_ffff * 0x7fff_ffff_ffff_ffff)
            by (nonlinear_arith)
            requires
                h as u128 <= 0x7fff_ffff_ffff_ffff,
                w as u128 <= 0x7fff_ffff_ffff_ffff,
        ;
        if (h as u128) * (w as u128) > limit {
            return Err(GridError::TooLarge);
        }
        assert(rows_fit(rows));

        let mut values: Vec<i64> = Vec::new();
        let mut y: usize = 0;
        while y < h
            invariant
                y <= h,
                h == lines.len(),
                rows.len() == h,
                w == rows_width(rows),
                h * w <= i64::MAX,
                forall|k: int| 0 <= k < h ==> (#[trigger] lines@[k])@ == rows[k],
                forall|k: int| 0 <= k < h ==> (#[trigger] rows[k]).len() == w,
                rows_are_digits(rows),
                values.len() == y * w,
                forall|i: int| 0 <= i < values.len() ==> 0 <= #[trigger] values@[i] <= 9,
                forall|x: int, k: int|
                    0 <= x < w && 0 <= k < y ==> #[trigger] values@[k * w + x] == digit_value(
                        rows[k][x],
                    ),
            decreases h - y,
        {
            let line = &lines[y];
            assert(line@ == rows[y as int]);
            let mut x: usize = 0;
            while x < w
                invariant
                    x <= w,
                    y < h,
                    rows.len() == h,
                    line@ == rows[y as int],
                    line.len() == w,
                    rows_are_digits(rows),
                    values.len() == y * w + x,
                    forall|i: int| 0 <= i < values.len() ==> 0 <= #[trigger] values@[i] <= 9,
                    forall|j: int, k: int|
                        0 <= j < w && 0 <= k < y ==> #[trigger] values@[k * w + j] == digit_value(
                            rows[k][j],
                        ),
                    forall|j: int|
                        0 <= j < x ==> #[trigger] values@[y * w + j] == digit_value(
                            rows[y as int][j],
                        ),
                decreases w - x,
            {
                let c = line[x];
                assert(is_digit(rows[y as int][x as int]));
                let ghost before = values@;
                values.push(digit_to_u64(c) as i64);
                proof {
                    assert forall|j: int, k: int| 0 <= j < w && 0 <= k < y implies #[trigger] values@[k
                        * w + j] == digit_value(rows[k][j]) by {
                        lemma_row_major(w as int, j, k);
                        lemma_row_order(w as int, k + 1, y as int);
                        assert(values@[k * w + j] == before[k * w + j]);
                    }
                    assert forall|j: int| 0 <= j < x + 1 implies #[trigger] values@[y * w + j]
                        == digit_value(rows[y as int][j]) by {
                        if j < x {
                            assert(values@[y * w + j] == before[y * w + j]);
                        }
                    }
                }
                x += 1;
            }
            proof {
                assert((y + 1) * w == y * w + w) by (nonlinear_arith);
            }
            y += 1;
        }
        let m = HeatMatrix { w: w as i64, h: h as i64, values };
        proof {
            assert(m.w * m.h == h * w) by (nonlinear_arith)
                requires
                    m.w == w,
                    m.h == h,
            ;
        }
        Ok(m)
    }

    /// Whether `p` lies inside the grid.
    pub fn check_point_valid(&self, p: &Point) -> (valid: bool)
        ensures
            valid == self.contains(*p),
    {
        0 <= p.x && p.x < self.w && 0 <= p.y && p.y < self.h
    }

    /// Whether every point of `path` lies inside the grid.
    pub fn check_path_valid(&self, path: &Vec<Point>) -> (valid: bool)
        ensures
            valid == (forall|i: int| 0 <= i < path.len() ==> self.contains(#[trigger] path@[i])),
    {
        let mut i: usize = 0;
        while i < path.len()
            invariant
                i <= path.len(),
                forall|j: int| 0 <= j < i ==> self.contains(#[trigger] path@[j]),
            decreases path.len() - i,
        {
            if !self.check_point_valid(&path[i]) {
                return false;
            }
            i += 1;
        }
        true
    }
}

} // verus!
