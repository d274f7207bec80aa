//! Patterns of ash and rocks, and the lines along which a pattern mirrors
//! itself, exactly or but for one smudge.

use crate::text::{lines_of, split_lines, to_chars, views};
use vstd::prelude::*;

verus! {

/// A pattern: rows of characters.
pub type Pattern = Seq<Seq<char>>;

/// Whether the pattern has a row and no row is shorter than the first.
pub open spec fn is_pattern(p: Pattern) -> bool {
    &&& p.len() >= 1
    &&& forall|y: int| 0 <= y < p.len() ==> (#[trigger] p[y]).len() >= p[0].len()
}

/// 1 where the two characters differ, else 0.
pub open spec fn differs(a: char, b: char) -> int {
    if a != b {
        1
    } else {
        0
    }
}

/// How many pairs of columns lie across the line behind column `c`.
pub open spec fn reach(c: int, w: int) -> int {
    if c + 1 <= w - (c + 1) {
        c + 1
    } else if w - (c + 1) >= 0 {
        w - (c + 1)
    } else {
        0
    }
}

/// In row `y`, the number of the first `k` pairs of places across the line
/// behind column `c` that differ.
pub open spec fn row_smudges(p: Pattern, c: int, y: int, k: int) -> int
    decreases k,
{
    if k <= 0 {
        0
    } else {
        row_smudges(p, c, y, k - 1) + differs(p[y][c - (k - 1)], p[y][c + 1 + (k - 1)])
    }
}

/// The number of pairs of places across the line behind column `c` that
/// differ, in the first `h` rows.
pub open spec fn column_smudges(p: Pattern, c: int, h: int) -> int
    decreases h,
{
    if h <= 0 {
        0
    } else {
        column_smudges(p, c, h - 1) + row_smudges(p, c, h - 1, reach(c, p[0].len() as int))
    }
}

/// In column `x`, the number of the first `k` pairs of places across the
/// line below row `r` that differ.
pub open spec fn column_gaps(p: Pattern, r: int, x: int, k: int) -> int
    decreases k,
{
    if k <= 0 {
        0
    } else {
        column_gaps(p, r, x, k - 1) + differs(p[r - (k - 1)][x], p[r + 1 + (k - 1)][x])
    }
}

/// The number of pairs of places across the line below row `r` that
/// differ, in the first `w` columns.
pub open spec fn line_smudges(p: Pattern, r: int, w: int) -> int
    decreases w,
{
    if w <= 0 {
        0
    } else {
        line_smudges(p, r, w - 1) + column_gaps(p, r, w - 1, reach(r, p.len() as int))
    }
}

/// What the lines behind the first `c` columns add to the summary of a
/// pattern: the number of columns before each line across which `wanted`
/// pairs differ.
pub open spec fn column_score(p: Pattern, wanted: int, c: int) -> int
    decreases c,
{
    if c <= 0 {
        0
    } else {
        column_score(p, wanted, c - 1) + if column_smudges(p, c - 1, p.len() as int) == wanted {
            c
        } else {
            0
        }
    }
}

/// What the lines below the first `r` rows add to the summary of a
/// pattern: 100 times the number of rows above each line across which
/// `wanted` pairs differ.
pub open spec fn row_score(p: Pattern, wanted: int, r: int) -> int
    decreases r,
{
    if r <= 0 {
        0
    } else {
        row_score(p, wanted, r - 1) + if line_smudges(p, r - 1, p[0].len() as int) == wanted {
            100 * r
        } else {
            0
        }
    }
}

/// The summary of a pattern: the columns left of each of its mirror lines,
/// and 100 times the rows above each. With `wanted` 0 the lines mirror the
/// pattern exactly, with 1 but for one smudge.
pub open spec fn score(p: Pattern, wanted: int) -> int {
    column_score(p, wanted, p[0].len() - 1) + row_score(p, wanted, p.len() - 1)
}

/// Of `k` pairs no more than `k` differ.
pub proof fn lemma_pair_bounds(p: Pattern, c: int, y: int, k: int)
    requires
        0 <= k,
    ensures
        0 <= row_smudges(p, c, y, k) <= k,
        0 <= column_gaps(p, c, y, k) <= k,
    decreases k,
{
    if k > 0 {
        lemma_pair_bounds(p, c, y, k - 1);
    }
}

/// Smudges are counted from 0 up.
pub proof fn lemma_smudge_bounds(p: Pattern, c: int, y: int, k: int, h: int)
    requires
        0 <= k,
        0 <= h,
        0 <= c,
    ensures
        0 <= row_smudges(p, c, y, k) <= k,
        0 <= column_gaps(p, c, y, k) <= k,
        0 <= column_smudges(p, c, h),
        0 <= line_smudges(p, c, h),
    decreases h,
{
    lemma_pair_bounds(p, c, y, k);
    if h > 0 {
        lemma_smudge_bounds(p, c, y, k, h - 1);
        lemma_pair_bounds(p, c, h - 1, reach(c, p[0].len() as int));
        lemma_pair_bounds(p, c, h - 1, reach(c, p.len() as int));
    }
}

/// Scores are not negative and grow with the number of lines.
pub proof fn lemma_score_bounds(p: Pattern, wanted: int, c: int)
    requires
        0 <= c,
    ensures
        0 <= column_score(p, wanted, c) <= c * c,
        0 <= row_score(p, wanted, c) <= 100 * c * c,
    decreases c,
{
    if c > 0 {
        lemma_score_bounds(p, wanted, c - 1);
        assert((c - 1) * (c - 1) + c <= c * c) by (nonlinear_arith)
            requires
                c >= 1,
        ;
        assert(100 * (c - 1) * (c - 1) + 100 * c <= 100 * c * c) by (nonlinear_arith)
            requires
                c >= 1,
        ;
    }
}

/// The number of pairs of places across the line behind column `c` that
/// differ, or 2 where more than one does.
fn count_column_smudges(pattern: &Vec<Vec<char>>, c: usize) -> (smudges: u8)
    requires
        is_pattern(views(pattern@)),
        c + 1 < views(pattern@)[0].len(),
    ensures
        smudges == if column_smudges(views(pattern@), c as int, pattern@.len() as int) >= 2 {
            2
        } else {
            column_smudges(views(pattern@), c as int, pattern@.len() as int)
        },
{
    let ghost p = views(pattern@);
    let w = pattern[0].len();
    let h = pattern.len();
    proof {
        assert(p[0] == pattern@[0]@);
    }
    let pairs = if c + 1 <= w - (c + 1) {
        c + 1
    } else {
        w - (c + 1)
    };
    let mut smudges: u8 = 0;
    let mut y: usize = 0;
    while y < h
        invariant
            y <= h,
            h == pattern@.len(),
            p == views(pattern@),
            is_pattern(p),
            w == p[0].len(),
            c + 1 < w,
            pairs == reach(c as int, w as int),
            smudges <= 2,
            smudges == if column_smudges(p, c as int, y as int) >= 2 {
                2
            } else {
                column_smudges(p, c as int, y as int)
            },
        decreases h - y,
    {
        let row = &pattern[y];
        proof {
            assert(p[y as int] == row@);
            assert(p[y as int].len() >= p[0].len());
            lemma_smudge_bounds(p, c as int, y as int, pairs as int, y as int);
        }
        let ghost before = column_smudges(p, c as int, y as int);
        let mut k: usize = 0;
        while k < pairs
            invariant
                k <= pairs,
                y < h,
                p == views(pattern@),
                row@ == p[y as int],
                row@.len() >= w,
                c + 1 < w,
                pairs == reach(c as int, w as int),
                0 <= before,
                smudges <= 2,
                smudges == if before + row_smudges(p, c as int, y as int, k as int) >= 2 {
                    2
                } else {
                    before + row_smudges(p, c as int, y as int, k as int)
                },
            decreases pairs - k,
        {
            proof {
                lemma_smudge_bounds(p, c as int, y as int, k as int, 0);
            }
            if row[c - k] != row[c + 1 + k] {
                if smudges < 2 {
                    smudges += 1;
                }
            }
            k += 1;
        }
        y += 1;
    }
    smudges
}

/// The number of pairs of places across the line below row `r` that
/// differ, or 2 where more than one does.
fn count_line_smudges(pattern: &Vec<Vec<char>>, r: usize) -> (smudges: u8)
    requires
        is_pattern(views(pattern@)),
        r + 1 < pattern@.len(),
    ensures
        smudges == if line_smudges(views(pattern@), r as int, views(pattern@)[0].len() as int)
            >= 2 {
            2
        } else {
            line_smudges(views(pattern@), r as int, views(pattern@)[0].len() as int)
        },
{
    let ghost p = views(pattern@);
    let w = pattern[0].len();
    let h = pattern.len();
    proof {
        assert(p[0] == pattern@[0]@);
    }
    let pairs = if r + 1 <= h - (r + 1) {
        r + 1
    } else {
        h - (r + 1)
    };
    let mut smudges: u8 = 0;
    let mut x: usize = 0;
    while x < w
        invariant
            x <= w,
            h == pattern@.len(),
            p == views(pattern@),
            is_pattern(p),
            w == p[0].len(),
            r + 1 < h,
            pairs == reach(r as int, h as int),
            smudges <= 2,
            smudges == if line_smudges(p, r as int, x as int) >= 2 {
                2
            } else {
                line_smudges(p, r as int, x as int)
            },
        decreases w - x,
    {
        proof {
            lemma_smudge_bounds(p, r as int, x as int, pairs as int, x as int);
        }
        let ghost before = line_smudges(p, r as int, x as int);
        let mut k: usize = 0;
        while k < pairs
            invariant
                k <= pairs,
                x < w,
                h == pattern@.len(),
                p == views(pattern@),
                is_pattern(p),
                w == p[0].len(),
                r + 1 < h,
                pairs == reach(r as int, h as int),
                0 <= before,
                smudges <= 2,
                smudges == if before + column_gaps(p, r as int, x as int, k as int) >= 2 {
                    2
                } else {
                    before + column_gaps(p, r as int, x as int, k as int)
                },
            decreases pairs - k,
        {
            proof {
                lemma_smudge_bounds(p, r as int, x as int, k as int, 0);
                assert(p[r - k] == pattern@[r - k]@);
                assert(p[r + 1 + k] == pattern@[r + 1 + k]@);
                assert(p[r - k].len() >= p[0].len());
                assert(p[r + 1 + k].len() >= p[0].len());
            }
            if pattern[r - k][x] != pattern[r + 1 + k][x] {
                if smudges < 2 {
                    smudges += 1;
                }
            }
            k += 1;
        }
        x += 1;
    }
    smudges
}

/// The summary of `pattern` for mirror lines that are exact and for mirror
/// lines with one smudge.
pub fn summarize(pattern: &Vec<Vec<char>>) -> (sums: (u64, u64))
    requires
        is_pattern(views(pattern@)),
        100 * pattern@.len() * pattern@.len() + views(pattern@)[0].len() * views(pattern@)[0].len()
            <= u64::MAX,
    ensures
        sums.0 == score(views(pattern@), 0),
        sums.1 == score(views(pattern@), 1),
{
    let ghost p = views(pattern@);
    let w = pattern[0].len();
    let h = pattern.len();
    proof {
        assert(p[0] == pattern@[0]@);
    }
    let mut sum: u64 = 0;
    let mut smudge_sum: u64 = 0;
    let mut c: usize = 0;
    while c + 1 < w
        invariant
            c <= w,
            w >= 1 ==> c + 1 <= w,
            h == pattern@.len(),
            p == views(pattern@),
            is_pattern(p),
            w == p[0].len(),
            100 * h * h + w * w <= u64::MAX,
            sum == column_score(p, 0, c as int),
            smudge_sum == column_score(p, 1, c as int),
        decreases w - c,
    {
        proof {
            lemma_score_bounds(p, 0, c + 1);
            lemma_score_bounds(p, 1, c + 1);
            assert((c + 1) * (c + 1) <= w * w) by (nonlinear_arith)
                requires
                    0 <= c + 1 <= w,
            ;
            assert(0 <= 100 * h * h) by (nonlinear_arith)
                requires
                    0 <= h,
            ;
        }
        let smudges = count_column_smudges(pattern, c);
        if smudges == 0 {
            sum += c as u64 + 1;
        }
        if smudges == 1 {
            smudge_sum += c as u64 + 1;
        }
        c += 1;
    }
    let ghost columns = (sum as int, smudge_sum as int);
    proof {
        if w == 0 {
            assert(column_score(p, 0, w - 1) == 0);
            assert(column_score(p, 1, w - 1) == 0);
        }
        lemma_score_bounds(p, 0, c as int);
        lemma_score_bounds(p, 1, c as int);
        assert(c * c <= w * w) by (nonlinear_arith)
            requires
                0 <= c <= w,
        ;
    }
    let mut r: usize = 0;
    while r + 1 < h
        invariant
            r + 1 <= h,
            h == pattern@.len(),
            p == views(pattern@),
            is_pattern(p),
            w == p[0].len(),
            100 * h * h + w * w <= u64::MAX,
            0 <= columns.0 <= w * w,
            0 <= columns.1 <= w * w,
            sum == columns.0 + row_score(p, 0, r as int),
            smudge_sum == columns.1 + row_score(p, 1, r as int),
        decreases h - r,
    {
        proof {
            lemma_score_bounds(p, 0, r + 1);
            lemma_score_bounds(p, 1, r + 1);
            assert(100 * (r + 1) * (r + 1) <= 100 * h * h) by (nonlinear_arith)
                requires
                    0 <= r + 1 <= h,
            ;
        }
        let smudges = count_line_smudges(pattern, r);
        if smudges == 0 {
            sum += (r as u64 + 1) * 100;
        }
        if smudges == 1 {
            smudge_sum += (r as u64 + 1) * 100;
        }
        r += 1;
    }
    (sum, smudge_sum)
}

/// The lines of `lines` in groups: a group ends at each empty line, and at
/// the end.
pub open spec fn groups_of(lines: Seq<Seq<char>>) -> Seq<Seq<Seq<char>>>
    decreases lines.len(),
{
    if lines.len() == 0 {
        seq![Seq::empty()]
    } else {
        let before = groups_of(lines.drop_last());
        if lines.last().len() == 0 {
            before.push(Seq::empty())
        } else {
            before.drop_last().push(before.last().push(lines.last()))
        }
    }
}

/// The views of the rows of groups of rows.
pub open spec fn group_views(groups: Seq<Vec<Vec<char>>>) -> Seq<Seq<Seq<char>>> {
    groups.map_values(|g: Vec<Vec<char>>| views(g@))
}

/// The patterns of `input`: its lines in groups that empty lines
/// separate.
pub fn split_patterns(input: &str) -> (patterns: Vec<Vec<Vec<char>>>)
    ensures
        group_views(patterns@) == groups_of(lines_of(input@)),
{
    let chars = to_chars(input);
    let lines = split_lines(&chars);
    let ghost rows = lines_of(input@);
    let mut patterns: Vec<Vec<Vec<char>>> = Vec::new();
    let mut pattern: Vec<Vec<char>> = Vec::new();
    let mut i: usize = 0;
    proof {
        assert(views(pattern@) =~= Seq::<Seq<char>>::empty());
        assert(group_views(patterns@) =~= Seq::<Seq<Seq<char>>>::empty());
        assert(rows.take(0).len() == 0);
        assert(group_views(patterns@).push(views(pattern@)) =~= seq![Seq::<Seq<char>>::empty()]);
    }
    while i < lines.len()
        invariant
            i <= lines@.len(),
            views(lines@) == rows,
            group_views(patterns@).push(views(pattern@)) == groups_of(rows.take(i as int)),
        decreases lines@.len() - i,
    {
        let line = &lines[i];
        proof {
            assert(rows.take(i + 1).drop_last() =~= rows.take(i as int));
            assert(rows.take(i + 1).last() == line@);
            assert(views(lines@)[i as int] == line@);
        }
        let ghost done = group_views(patterns@);
        let ghost current = views(pattern@);
        if line.len() == 0 {
            patterns.push(pattern);
            pattern = Vec::new();
            proof {
                assert(group_views(patterns@) =~= done.push(current));
                assert(views(pattern@) =~= Seq::<Seq<char>>::empty());
            }
        } else {
            let mut copy: Vec<char> = Vec::new();
            let mut k: usize = 0;
            while k < line.len()
                invariant
                    k <= line@.len(),
                    copy@ == line@.take(k as int),
                decreases line@.len() - k,
            {
                copy.push(line[k]);
                proof {
                    assert(line@.take(k + 1) =~= line@.take(k as int).push(line@[k as int]));
                }
                k += 1;
            }
            proof {
                assert(line@.take(k as int) =~= line@);
            }
            pattern.push(copy);
            proof {
                assert(views(pattern@) =~= current.push(line@));
                assert(done.push(current).drop_last() =~= done);
            }
        }
        i += 1;
    }
    proof {
        assert(rows.take(i as int) =~= rows);
        let done = group_views(patterns@);
        let current = views(pattern@);
        assert(group_views(patterns@.push(pattern)) =~= done.push(current));
    }
    patterns.push(pattern);
    patterns
}

} // verus!
