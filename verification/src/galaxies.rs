//! An image of galaxies in expanding space, and the distances between the
//! galaxies.

use crate::text::{lines_of, split_lines, to_chars, views};
use vstd::prelude::*;

verus! {

/// What one place of the image shows.
#[derive(Debug, PartialEq, Eq, Clone, Copy, Structural)]
pub enum Data {
    Empty,
    Galaxy,
}

/// What the character `c` shows, if it shows anything.
pub open spec fn data_of(c: char) -> Option<Data> {
    if c == '.' {
        Some(Data::Empty)
    } else if c == '#' {
        Some(Data::Galaxy)
    } else {
        None
    }
}

impl Data {
    /// The character that shows `self`.
    pub open spec fn shown(&self) -> char {
        match self {
            Data::Empty => '.',
            Data::Galaxy => '#',
        }
    }

    /// What the character `c` shows.
    pub fn parse(c: char) -> (d: Data)
        requires
            data_of(c) is Some,
        ensures
            Some(d) == data_of(c),
    {
        if c == '.' {
            Data::Empty
        } else {
            Data::Galaxy
        }
    }

    /// The character that shows `self`.
    pub fn char(&self) -> (c: char)
        ensures
            c == self.shown(),
            data_of(c) == Some(*self),
    {
        match self {
            Data::Empty => '.',
            Data::Galaxy => '#',
        }
    }
}

/// A place in the image, or in space.
#[derive(Debug, Clone, Copy, PartialEq, Eq, Structural)]
pub struct Point {
    pub x: i64,
    pub y: i64,
}

/// The distance between two numbers.
pub open spec fn gap(a: int, b: int) -> int {
    if a <= b {
        b - a
    } else {
        a - b
    }
}

impl Point {
    /// The length of a shortest way from `self` to `other` that goes along
    /// the rows and columns only.
    pub open spec fn distance_to(self, other: Point) -> int {
        gap(self.x as int, other.x as int) + gap(self.y as int, other.y as int)
    }

    /// The length of a shortest way from `self` to `other` that goes along
    /// the rows and columns only.
    pub fn manhattan_distance(self, other: Point) -> (d: i64)
        requires
            self.distance_to(other) <= i64::MAX,
        ensures
            d == self.distance_to(other),
    {
        let dx = if self.x <= other.x {
            other.x as i128 - self.x as i128
        } else {
            self.x as i128 - other.x as i128
        };
        let dy = if self.y <= other.y {
            other.y as i128 - self.y as i128
        } else {
            self.y as i128 - other.y as i128
        };
        (dx + dy) as i64
    }
}

/// An image, stored row by row.
#[derive(Debug)]
pub struct Image {
    pub data: Vec<Data>,
    pub width: i64,
    pub height: i64,
}

impl Image {
    /// The image holds exactly `width * height` places.
    pub open spec fn wf(&self) -> bool {
        &&& 0 <= self.width
        &&& 0 <= self.height
        &&& self.data.len() == self.width * self.height
        &&& self.width * self.height <= i64::MAX
    }

    /// Whether `p` is a place of the image.
    pub open spec fn contains(&self, p: Point) -> bool {
        0 <= p.x < self.width && 0 <= p.y < self.height
    }

    /// What the image shows at `p`.
    pub open spec fn at(&self, p: Point) -> Data {
        self.data@[p.y * self.width + p.x]
    }

    /// The places of a well-formed image are stored inside `data`.
    pub proof fn lemma_index(&self, p: Point)
        requires
            self.wf(),
            self.contains(p),
        ensures
            0 <= p.y * self.width <= p.y * self.width + p.x < self.data.len(),
    {
        assert(0 <= p.y * self.width && p.y * self.width + self.width <= self.height * self.width)
            by (nonlinear_arith)
            requires
                0 <= p.y < self.height,
                0 <= self.width,
        ;
        assert(self.height * self.width == self.width * self.height) by (nonlinear_arith);
    }

    /// What the image shows at `point`.
    pub fn get_data(&self, point: Point) -> (d: Data)
        requires
            self.wf(),
            self.contains(point),
        ensures
            d == self.at(point),
    {
        proof {
            self.lemma_index(point);
        }
        let index = (point.y * self.width + point.x) as usize;
        self.data[index]
    }

    /// Makes the image show `data` at `point`.
    pub fn _set_data(&mut self, point: Point, data: Data)
        requires
            old(self).wf(),
            old(self).contains(point),
        ensures
            final(self).wf(),
            final(self).width == old(self).width,
            final(self).height == old(self).height,
            final(self).data@ == old(self).data@.update(
                point.y * old(self).width + point.x,
                data,
            ),
    {
        proof {
            self.lemma_index(point);
        }
        let index = (point.y * self.width + point.x) as usize;
        self.data.set(index, data);
    }
}

/// The sum of the distances from each of `points` to `p`.
pub open spec fn distances_to(points: Seq<(int, int)>, p: (int, int)) -> int
    decreases points.len(),
{
    if points.len() == 0 {
        0
    } else {
        distances_to(points.drop_last(), p) + gap(points.last().0, p.0) + gap(points.last().1, p.1)
    }
}

/// The sum of the distances between every two of `points`.
pub open spec fn pair_distances(points: Seq<(int, int)>) -> int
    decreases points.len(),
{
    if points.len() == 0 {
        0
    } else {
        pair_distances(points.drop_last()) + distances_to(points.drop_last(), points.last())
    }
}

/// Sums of distances are not negative.
pub proof fn lemma_distances_nonnegative(points: Seq<(int, int)>, p: (int, int))
    ensures
        0 <= distances_to(points, p),
        0 <= pair_distances(points),
    decreases points.len(),
{
    if points.len() > 0 {
        lemma_distances_nonnegative(points.drop_last(), p);
        lemma_distances_nonnegative(points.drop_last(), points.last());
    }
}

/// The sum of the distances between the first `k` points is no more than
/// that between all, and the distances from the first `i` of them to the
/// next add no more than that.
pub proof fn lemma_pair_distances_grow(points: Seq<(int, int)>, k: int, i: int)
    requires
        0 <= i <= k < points.len(),
    ensures
        pair_distances(points.take(k)) + distances_to(points.take(k).take(i), points[k])
            <= pair_distances(points),
    decreases points.len() - k, k - i,
{
    let head = points.take(k);
    if i < k {
        lemma_pair_distances_grow(points, k, i + 1);
        assert(head.take(i + 1).drop_last() =~= head.take(i));
    } else {
        assert(head.take(k) =~= head);
        assert(points.take(k + 1).drop_last() =~= head);
        assert(points.take(k + 1).last() == points[k]);
        if k + 1 < points.len() {
            lemma_pair_distances_grow(points, k + 1, 0);
            assert(points.take(k + 1).take(0).len() == 0);
        } else {
            assert(points.take(k + 1) =~= points);
        }
    }
}

impl Image {
    /// Whether row `y` holds no galaxy.
    pub open spec fn row_empty(&self, y: int) -> bool {
        forall|x: int| 0 <= x < self.width ==> #[trigger] self.data@[y * self.width + x] is Empty
    }

    /// Whether column `x` holds no galaxy.
    pub open spec fn column_empty(&self, x: int) -> bool {
        forall|y: int| 0 <= y < self.height ==> #[trigger] self.data@[y * self.width + x] is Empty
    }

    /// The number of empty rows above row `y`.
    pub open spec fn empty_rows_above(&self, y: int) -> int
        decreases y,
    {
        if y <= 0 {
            0
        } else {
            self.empty_rows_above(y - 1) + if self.row_empty(y - 1) {
                1int
            } else {
                0int
            }
        }
    }

    /// The number of empty columns left of column `x`.
    pub open spec fn empty_columns_before(&self, x: int) -> int
        decreases x,
    {
        if x <= 0 {
            0
        } else {
            self.empty_columns_before(x - 1) + if self.column_empty(x - 1) {
                1int
            } else {
                0int
            }
        }
    }

    /// Where the place `(x, y)` of the image is in space when every empty
    /// row and column counts `expansion` times.
    pub open spec fn in_space(&self, x: int, y: int, expansion: int) -> (int, int) {
        (
            x + self.empty_columns_before(x) * (expansion - 1),
            y + self.empty_rows_above(y) * (expansion - 1),
        )
    }

    /// Where the galaxies among the first `n` places of the image are in
    /// space.
    pub open spec fn galaxies(&self, n: int, expansion: int) -> Seq<(int, int)>
        decreases n,
    {
        if n <= 0 || self.width <= 0 {
            Seq::empty()
        } else if self.data@[n - 1] is Galaxy {
            self.galaxies(n - 1, expansion).push(
                self.in_space((n - 1) % (self.width as int), (n - 1) / (self.width as int), expansion),
            )
        } else {
            self.galaxies(n - 1, expansion)
        }
    }

    /// The sum of the distances between every two galaxies in space.
    pub open spec fn distance_sum(&self, expansion: int) -> int {
        pair_distances(self.galaxies(self.width * self.height, expansion))
    }

    /// Whether every place of the image is within 64-bit numbers in space.
    pub open spec fn space_fits(&self, expansion: int) -> bool {
        forall|x: int, y: int|
            0 <= x <= self.width && 0 <= y <= self.height ==> {
                &&& i64::MIN <= (#[trigger] self.in_space(x, y, expansion)).0 <= i64::MAX
                &&& i64::MIN <= self.in_space(x, y, expansion).1 <= i64::MAX
            }
    }

    /// For every row whether it is empty.
    fn find_empty_rows(&self) -> (empty: Vec<bool>)
        requires
            self.wf(),
        ensures
            empty@.len() == self.height,
            forall|y: int| 0 <= y < self.height ==> #[trigger] empty@[y] == self.row_empty(y),
    {
        let mut empty: Vec<bool> = Vec::new();
        let mut y: i64 = 0;
        while y < self.height
            invariant
                0 <= y <= self.height,
                self.wf(),
                empty@.len() == y,
                forall|k: int| 0 <= k < y ==> #[trigger] empty@[k] == self.row_empty(k),
            decreases self.height - y,
        {
            let mut is_empty = true;
            let mut x: i64 = 0;
            while x < self.width
                invariant
                    0 <= x <= self.width,
                    0 <= y < self.height,
                    self.wf(),
                    is_empty == forall|k: int|
                        0 <= k < x ==> #[trigger] self.data@[y * self.width + k] is Empty,
                decreases self.width - x,
            {
                match self.get_data(Point { x, y }) {
                    Data::Galaxy => {
                        is_empty = false;
                    },
                    Data::Empty => {},
                }
                x += 1;
            }
            empty.push(is_empty);
            y += 1;
        }
        empty
    }

    /// For every column whether it is empty.
    fn find_empty_columns(&self) -> (empty: Vec<bool>)
        requires
            self.wf(),
        ensures
            empty@.len() == self.width,
            forall|x: int| 0 <= x < self.width ==> #[trigger] empty@[x] == self.column_empty(x),
    {
        let mut empty: Vec<bool> = Vec::new();
        let mut x: i64 = 0;
        while x < self.width
            invariant
                0 <= x <= self.width,
                self.wf(),
                empty@.len() == x,
                forall|k: int| 0 <= k < x ==> #[trigger] empty@[k] == self.column_empty(k),
            decreases self.width - x,
        {
            let mut is_empty = true;
            let mut y: i64 = 0;
            while y < self.height
                invariant
                    0 <= y <= self.height,
                    0 <= x < self.width,
                    self.wf(),
                    is_empty == forall|k: int|
                        0 <= k < y ==> #[trigger] self.data@[k * self.width + x] is Empty,
                decreases self.height - y,
            {
                match self.get_data(Point { x, y }) {
                    Data::Galaxy => {
                        is_empty = false;
                    },
                    Data::Empty => {},
                }
                y += 1;
            }
            empty.push(is_empty);
            x += 1;
        }
        empty
    }

    /// The sum of the distances between every two galaxies in space, where
    /// every empty row and every empty column of the image counts
    /// `expansion` times.
    pub fn apsp_length_sum(&self, expansion: i64) -> (sum: i64)
        requires
            self.wf(),
            self.space_fits(expansion as int),
            self.distance_sum(expansion as int) <= i64::MAX,
        ensures
            sum == self.distance_sum(expansion as int),
    {
        let empty_rows = self.find_empty_rows();
        let empty_columns = self.find_empty_columns();
        let ghost e = expansion as int;
        let mut galaxies: Vec<Point> = Vec::new();
        let mut rows_above: i64 = 0;
        let mut y: i64 = 0;
        proof {
            assert(0 * self.width == 0) by (nonlinear_arith);
        }
        while y < self.height
            invariant
                0 <= y <= self.height,
                self.wf(),
                self.space_fits(e),
                e == expansion,
                empty_rows@.len() == self.height,
                forall|k: int|
                    0 <= k < self.height ==> #[trigger] empty_rows@[k] == self.row_empty(k),
                empty_columns@.len() == self.width,
                forall|k: int|
                    0 <= k < self.width ==> #[trigger] empty_columns@[k] == self.column_empty(k),
                rows_above == self.empty_rows_above(y as int),
                0 <= rows_above <= y,
                galaxies@.len() == self.galaxies(y * self.width, e).len(),
                forall|k: int|
                    0 <= k < galaxies@.len() ==> (
                    (#[trigger] galaxies@[k]).x as int,
                    galaxies@[k].y as int,
                    ) == self.galaxies(y * self.width, e)[k],
            decreases self.height - y,
        {
            let mut columns_before: i64 = 0;
            let mut x: i64 = 0;
            while x < self.width
                invariant
                    0 <= x <= self.width,
                    0 <= y < self.height,
                    self.wf(),
                    self.space_fits(e),
                    e == expansion,
                    empty_columns@.len() == self.width,
                    forall|k: int|
                        0 <= k < self.width ==> #[trigger] empty_columns@[k] == self.column_empty(
                            k,
                        ),
                    rows_above == self.empty_rows_above(y as int),
                    0 <= rows_above <= y,
                    columns_before == self.empty_columns_before(x as int),
                    0 <= columns_before <= x,
                    galaxies@.len() == self.galaxies(y * self.width + x, e).len(),
                    forall|k: int|
                        0 <= k < galaxies@.len() ==> (
                        (#[trigger] galaxies@[k]).x as int,
                        galaxies@[k].y as int,
                        ) == self.galaxies(y * self.width + x, e)[k],
                decreases self.width - x,
            {
                let ghost n = y * self.width + x;
                proof {
                    self.lemma_index(Point { x, y });
                    vstd::arithmetic::div_mod::lemma_fundamental_div_mod_converse(
                        n,
                        self.width as int,
                        y as int,
                        x as int,
                    );
                    assert(self.space_fits(e));
                    let spot = self.in_space(x as int, y as int, e);
                    assert(i64::MIN <= spot.0 <= i64::MAX && i64::MIN <= spot.1 <= i64::MAX);
                }
                match self.get_data(Point { x, y }) {
                    Data::Galaxy => {
                        let px = (x as i128 + columns_before as i128 * (expansion as i128 - 1))
                            as i64;
                        let py = (y as i128 + rows_above as i128 * (expansion as i128 - 1)) as i64;
                        let ghost before = galaxies@;
                        galaxies.push(Point { x: px, y: py });
                        proof {
                            assert forall|k: int| 0 <= k < galaxies@.len() implies (
                            (#[trigger] galaxies@[k]).x as int,
                            galaxies@[k].y as int,
                            ) == self.galaxies(n + 1, e)[k] by {
                                if k < before.len() {
                                    assert(galaxies@[k] == before[k]);
                                }
                            }
                        }
                    },
                    Data::Empty => {},
                }
                if empty_columns[x as usize] {
                    columns_before += 1;
                }
                x += 1;
            }
            proof {
                assert((y + 1) * self.width == y * self.width + self.width) by (nonlinear_arith);
            }
            if empty_rows[y as usize] {
                rows_above += 1;
            }
            y += 1;
        }
        let ghost points = self.galaxies(self.width * self.height, e);
        proof {
            assert(self.height * self.width == self.width * self.height) by (nonlinear_arith);
        }
        let n = galaxies.len();
        let mut sum: i64 = 0;
        let mut j: usize = 0;
        while j < n
            invariant
                j <= n,
                n == galaxies@.len(),
                points.len() == n,
                forall|k: int|
                    0 <= k < n ==> ((#[trigger] galaxies@[k]).x as int, galaxies@[k].y as int)
                        == points[k],
                pair_distances(points) <= i64::MAX,
                sum == pair_distances(points.take(j as int)),
            decreases n - j,
        {
            let b = galaxies[j];
            let mut i: usize = 0;
            let ghost head = points.take(j as int);
            let ghost base = sum as int;
            proof {
                assert(points.take(j + 1).drop_last() =~= head);
                assert(points.take(j + 1).last() == points[j as int]);
                lemma_distances_nonnegative(head, points[j as int]);
            }
            while i < j
                invariant
                    i <= j < n,
                    n == galaxies@.len(),
                    points.len() == n,
                    head == points.take(j as int),
                    b == galaxies@[j as int],
                    forall|k: int|
                        0 <= k < n ==> (
                        (#[trigger] galaxies@[k]).x as int,
                        galaxies@[k].y as int,
                        ) == points[k],
                    pair_distances(points) <= i64::MAX,
                    base == pair_distances(head),
                    sum == base + distances_to(head.take(i as int), points[j as int]),
                decreases j - i,
            {
                let a = galaxies[i];
                proof {
                    assert(head.take(i + 1).drop_last() =~= head.take(i as int));
                    assert(head.take(i + 1).last() == points[i as int]);
                    assert((galaxies@[i as int].x as int, galaxies@[i as int].y as int)
                        == points[i as int]);
                    assert((galaxies@[j as int].x as int, galaxies@[j as int].y as int)
                        == points[j as int]);
                    lemma_pair_distances_grow(points, j as int, i + 1);
                    lemma_distances_nonnegative(head.take(i as int), points[j as int]);
                    lemma_distances_nonnegative(head, points[j as int]);
                }
                let distance = a.manhattan_distance(b);
                sum += distance;
                i += 1;
            }
            proof {
                assert(head.take(j as int) =~= head);
            }
            j += 1;
        }
        proof {
            assert(points.take(n as int) =~= points);
        }
        sum
    }
}

/// The characters of `rows`, row after row.
pub open spec fn flat(rows: Seq<Seq<char>>) -> Seq<char>
    decreases rows.len(),
{
    if rows.len() == 0 {
        Seq::empty()
    } else {
        flat(rows.drop_last()) + rows.last()
    }
}

/// Whether `s` reads as an image: at least one line, and nothing but the
/// characters for empty space and for galaxies.
pub open spec fn is_image_text(s: Seq<char>) -> bool {
    &&& lines_of(s).len() >= 1
    &&& forall|i: int| 0 <= i < flat(lines_of(s)).len() ==> data_of(#[trigger] flat(lines_of(s))[i]) is Some
    &&& flat(lines_of(s)).len() <= i64::MAX
    &&& lines_of(s).len() <= i64::MAX
}

impl Image {
    /// Reads an image, one row from each line. The width is the number of
    /// places by the number of lines.
    pub fn parse(s: &str) -> (image: Image)
        requires
            is_image_text(s@),
        ensures
            image.height == lines_of(s@).len(),
            image.width == flat(lines_of(s@)).len() / lines_of(s@).len(),
            image.data@.len() == flat(lines_of(s@)).len(),
            forall|i: int|
                0 <= i < image.data@.len() ==> Some(#[trigger] image.data@[i]) == data_of(
                    flat(lines_of(s@))[i],
                ),
    {
        let chars = to_chars(s);
        let lines = split_lines(&chars);
        let ghost rows = lines_of(s@);
        let mut data: Vec<Data> = Vec::new();
        let mut y: usize = 0;
        while y < lines.len()
            invariant
                y <= lines@.len(),
                rows == lines_of(s@),
                views(lines@) == rows,
                is_image_text(s@),
                data@.len() == flat(rows.take(y as int)).len(),
                forall|i: int|
                    0 <= i < data@.len() ==> Some(#[trigger] data@[i]) == data_of(
                        flat(rows.take(y as int))[i],
                    ),
            decreases lines@.len() - y,
        {
            let line = &lines[y];
            let ghost before = flat(rows.take(y as int));
            proof {
                assert(views(lines@)[y as int] == line@);
                assert(rows.take(y + 1).drop_last() =~= rows.take(y as int));
                assert(rows.take(y + 1).last() == line@);
                lemma_flat_prefix(rows, y + 1);
            }
            let mut x: usize = 0;
            while x < line.len()
                invariant
                    x <= line@.len(),
                    flat(rows) =~= flat(rows.take(y + 1)) + flat(rows).skip(
                        flat(rows.take(y + 1)).len() as int,
                    ),
                    flat(rows.take(y + 1)) == before + line@,
                    rows == lines_of(s@),
                    is_image_text(s@),
                    data@.len() == before.len() + x,
                    forall|i: int|
                        0 <= i < data@.len() ==> Some(#[trigger] data@[i]) == data_of(
                            (before + line@)[i],
                        ),
                decreases line@.len() - x,
            {
                proof {
                    let all = flat(rows);
                    let at = before.len() + x;
                    assert(all[at] == (before + line@)[at]);
                    assert(data_of(all[at]) is Some);
                }
                data.push(Data::parse(line[x]));
                x += 1;
            }
            y += 1;
        }
        proof {
            assert(rows.take(y as int) =~= rows);
        }
        let height = lines.len() as i64;
        let width = data.len() as i64 / height;
        Image { data, width, height }
    }
}

/// The characters of the first `k` rows begin the characters of all rows.
pub proof fn lemma_flat_prefix(rows: Seq<Seq<char>>, k: int)
    requires
        0 <= k <= rows.len(),
    ensures
        flat(rows) =~= flat(rows.take(k)) + flat(rows).skip(flat(rows.take(k)).len() as int),
        flat(rows.take(k)).len() <= flat(rows).len(),
    decreases rows.len() - k,
{
    if k == rows.len() {
        assert(rows.take(k) =~= rows);
    } else {
        lemma_flat_prefix(rows, k + 1);
        assert(rows.take(k + 1).drop_last() =~= rows.take(k));
    }
}

} // verus!
