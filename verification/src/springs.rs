//! Rows of springs of which only some are known to work or to be damaged,
//! and the number of ways in which the unknown ones can be told so that the
//! runs of damaged springs have given lengths.

use crate::sums::{lemma_total_all, lemma_total_step, total};
use crate::text::{
    all_signed, fields_of, lines_of, parse_all_i64, signed_of, signed_values, split_at_char,
    split_char, split_fields, split_lines, to_chars, views,
};
use vstd::prelude::*;

verus! {

/// The condition of a spring, as far as it is known.
#[derive(Debug, PartialEq, Eq, Clone, Copy, Structural)]
pub enum Spring {
    Operational,
    Damaged,
    Unknown,
}

/// The condition that the character `c` records, if it records one.
pub open spec fn spring_of(c: char) -> Option<Spring> {
    if c == '.' {
        Some(Spring::Operational)
    } else if c == '#' {
        Some(Spring::Damaged)
    } else if c == '?' {
        Some(Spring::Unknown)
    } else {
        None
    }
}

impl Spring {
    /// The condition that `c` records.
    pub fn parse(c: char) -> (spring: Spring)
        requires
            spring_of(c) is Some,
        ensures
            Some(spring) == spring_of(c),
    {
        if c == '.' {
            Spring::Operational
        } else if c == '#' {
            Spring::Damaged
        } else {
            Spring::Unknown
        }
    }
}

/// A row of springs and the lengths of its runs of damaged springs, from
/// left to right.
#[derive(Debug, Clone)]
pub struct Record {
    pub springs: Vec<Spring>,
    pub groups: Vec<i64>,
}

/// Whether a run of `g` damaged springs can begin the row `s`: the first
/// `g` springs may all be damaged, and the one after them, if there is one,
/// may work.
pub open spec fn run_fits(s: Seq<Spring>, g: int) -> bool {
    &&& 1 <= g <= s.len()
    &&& forall|i: int| 0 <= i < g ==> !(#[trigger] s[i] is Operational)
    &&& g == s.len() || !(s[g] is Damaged)
}

/// The row `s` without a run of `g` springs at its beginning and the spring
/// that ends the run.
pub open spec fn after_run(s: Seq<Spring>, g: int) -> Seq<Spring> {
    if g + 1 <= s.len() {
        s.skip(g + 1)
    } else {
        s.skip(s.len() as int)
    }
}

/// The number of ways to tell of each unknown spring of `s` whether it
/// works, such that the runs of damaged springs have the lengths `gs`. The
/// first spring either works, and the rest of the row holds all the runs;
/// or it begins the first run, and the row after that run holds the others.
pub open spec fn ways(s: Seq<Spring>, gs: Seq<i64>) -> nat
    decreases s.len(),
{
    if s.len() == 0 {
        if gs.len() == 0 {
            1
        } else {
            0
        }
    } else {
        let working: nat = if !(s[0] is Damaged) {
            ways(s.drop_first(), gs)
        } else {
            0
        };
        let damaged: nat = if !(s[0] is Operational) && gs.len() > 0 && run_fits(
            s,
            gs[0] as int,
        ) {
            ways(after_run(s, gs[0] as int), gs.drop_first())
        } else {
            0
        };
        working + damaged
    }
}

/// Whether the number of ways is a 64-bit number for every end of the row
/// with every end of the list of runs.
pub open spec fn countable(s: Seq<Spring>, gs: Seq<i64>) -> bool {
    forall|i: int, j: int|
        0 <= i <= s.len() && 0 <= j <= gs.len() ==> #[trigger] ways(s.skip(i), gs.skip(j))
            <= i64::MAX
}

/// The row `s` five times over, with an unknown spring between the copies.
pub open spec fn unfolded_springs(s: Seq<Spring>) -> Seq<Spring> {
    s + seq![Spring::Unknown] + s + seq![Spring::Unknown] + s + seq![Spring::Unknown] + s
        + seq![Spring::Unknown] + s
}

/// The list `gs` five times over.
pub open spec fn unfolded_groups(gs: Seq<i64>) -> Seq<i64> {
    gs + gs + gs + gs + gs
}

/// Whether a run of `g` damaged springs can begin at place `i` of
/// `springs`.
fn fits_at(springs: &Vec<Spring>, i: usize, g: i64) -> (b: bool)
    requires
        i < springs@.len(),
    ensures
        b == run_fits(springs@.skip(i as int), g as int),
{
    let n = springs.len();
    let ghost rest = springs@.skip(i as int);
    assert(rest.len() == n - i);
    if g < 1 || g as u64 > (n - i) as u64 {
        return false;
    }
    let len = g as usize;
    let mut k: usize = 0;
    while k < len
        invariant
            k <= len,
            len == g,
            i + len <= n,
            n == springs@.len(),
            rest == springs@.skip(i as int),
            forall|t: int| 0 <= t < k ==> !(#[trigger] rest[t] is Operational),
        decreases len - k,
    {
        match springs[i + k] {
            Spring::Operational => {
                assert(rest[k as int] is Operational);
                return false;
            },
            _ => {},
        }
        k += 1;
    }
    if i + len == n {
        return true;
    }
    match springs[i + len] {
        Spring::Damaged => {
            assert(rest[len as int] is Damaged);
            false
        },
        _ => {
            assert(!(rest[len as int] is Damaged));
            true
        },
    }
}

/// The numbers of ways for every end of the row `springs` when no run is
/// left: 1 where no damaged spring is left, else 0.
fn last_row(springs: &Vec<Spring>, gs: Ghost<Seq<i64>>) -> (row: Vec<i64>)
    ensures
        row@.len() == springs@.len() + 1,
        forall|i: int|
            0 <= i <= springs@.len() ==> #[trigger] row@[i] == ways(
                springs@.skip(i),
                gs@.skip(gs@.len() as int),
            ),
{
    let n = springs.len();
    let ghost none = gs@.skip(gs@.len() as int);
    let mut back: Vec<i64> = Vec::new();
    back.push(1);
    let mut i: usize = n;
    proof {
        assert(springs@.skip(n as int).len() == 0);
    }
    while i > 0
        invariant
            i <= n,
            n == springs@.len(),
            none == gs@.skip(gs@.len() as int),
            none.len() == 0,
            back@.len() == n - i + 1,
            forall|t: int|
                i <= t <= n ==> #[trigger] back@[n - t] == ways(springs@.skip(t), none),
            forall|t: int| i <= t <= n ==> 0 <= #[trigger] back@[n - t] <= 1,
        decreases i,
    {
        i -= 1;
        proof {
            let rest = springs@.skip(i as int);
            assert(rest.drop_first() =~= springs@.skip(i + 1));
            assert(rest[0] == springs@[i as int]);
            assert(back@[n - (i + 1)] == ways(springs@.skip(i + 1), none));
        }
        let below = back[n - (i + 1)];
        let value = match springs[i] {
            Spring::Damaged => 0,
            _ => below,
        };
        let ghost before = back@;
        back.push(value);
        proof {
            assert forall|t: int| i <= t <= n implies #[trigger] back@[n - t] == ways(
                springs@.skip(t),
                none,
            ) by {
                if t > i {
                    assert(back@[n - t] == before[n - t]);
                }
            }
            assert forall|t: int| i <= t <= n implies 0 <= #[trigger] back@[n - t] <= 1 by {
                if t > i {
                    assert(back@[n - t] == before[n - t]);
                }
            }
        }
    }
    reversed(&back, Ghost(springs@), Ghost(none))
}

/// `back` turned round, so that what was counted from the end is counted
/// from the beginning.
fn reversed(back: &Vec<i64>, s: Ghost<Seq<Spring>>, gs: Ghost<Seq<i64>>) -> (row: Vec<i64>)
    requires
        back@.len() == s@.len() + 1,
        forall|t: int| 0 <= t <= s@.len() ==> #[trigger] back@[s@.len() - t] == ways(s@.skip(t), gs@),
    ensures
        row@.len() == s@.len() + 1,
        forall|i: int| 0 <= i <= s@.len() ==> #[trigger] row@[i] == ways(s@.skip(i), gs@),
{
    let n = back.len() - 1;
    let mut row: Vec<i64> = Vec::new();
    let mut i: usize = 0;
    while i <= n
        invariant
            i <= n + 1,
            n < usize::MAX,
            n == s@.len(),
            back@.len() == n + 1,
            row@.len() == i,
            forall|t: int|
                0 <= t <= s@.len() ==> #[trigger] back@[s@.len() - t] == ways(s@.skip(t), gs@),
            forall|t: int| 0 <= t < i ==> #[trigger] row@[t] == ways(s@.skip(t), gs@),
        decreases n + 1 - i,
    {
        proof {
            assert(back@[s@.len() - i] == ways(s@.skip(i as int), gs@));
        }
        row.push(back[n - i]);
        i += 1;
    }
    row
}

impl Record {
    /// The number of ways to tell of each unknown spring whether it works,
    /// such that the runs of damaged springs have the lengths that the
    /// record gives; `None` where that number, or the number for some end
    /// of the row with some end of the list of runs, is no 64-bit number.
    pub fn count_arrangements(&self) -> (count: Option<i64>)
        ensures
            match count {
                Some(c) => countable(self.springs@, self.groups@) && c == ways(
                    self.springs@,
                    self.groups@,
                ),
                None => !countable(self.springs@, self.groups@),
            },
    {
        let n = self.springs.len();
        let m = self.groups.len();
        let ghost s = self.springs@;
        let ghost gs = self.groups@;
        let mut next = last_row(&self.springs, Ghost(gs));
        let mut j: usize = m;
        proof {
            assert forall|i: int, k: int| 0 <= i <= n && j <= k <= m implies #[trigger] ways(
                s.skip(i),
                gs.skip(k),
            ) <= i64::MAX by {
                assert(next@[i] == ways(s.skip(i), gs.skip(m as int)));
            }
        }
        while j > 0
            invariant
                j <= m,
                m == gs.len(),
                n == s.len(),
                s == self.springs@,
                gs == self.groups@,
                next@.len() == n + 1,
                forall|i: int| 0 <= i <= n ==> #[trigger] next@[i] == ways(s.skip(i), gs.skip(j as int)),
                forall|i: int, k: int|
                    0 <= i <= n && j <= k <= m ==> #[trigger] ways(s.skip(i), gs.skip(k)) <= i64::MAX,
            decreases j,
        {
            j -= 1;
            let g = self.groups[j];
            let ghost runs = gs.skip(j as int);
            proof {
                assert(runs[0] == g);
                assert(runs.drop_first() =~= gs.skip(j + 1));
            }
            let mut back: Vec<i64> = Vec::new();
            back.push(0);
            let mut i: usize = n;
            proof {
                assert(s.skip(n as int).len() == 0);
            }
            while i > 0
                invariant
                    i <= n,
                    j < m,
                    m == gs.len(),
                    n == s.len(),
                    s == self.springs@,
                    gs == self.groups@,
                    g == gs[j as int],
                    runs == gs.skip(j as int),
                    runs.len() > 0,
                    runs[0] == g,
                    runs.drop_first() == gs.skip(j + 1),
                    next@.len() == n + 1,
                    forall|t: int|
                        0 <= t <= n ==> #[trigger] next@[t] == ways(s.skip(t), gs.skip(j + 1)),
                    back@.len() == n - i + 1,
                    forall|t: int| i <= t <= n ==> #[trigger] back@[n - t] == ways(s.skip(t), runs),
                decreases i,
            {
                i -= 1;
                let ghost rest = s.skip(i as int);
                proof {
                    assert(rest.drop_first() =~= s.skip(i + 1));
                    assert(rest[0] == s[i as int]);
                    assert(back@[n - (i + 1)] == ways(s.skip(i + 1), runs));
                    if g >= 1 && g + 1 <= rest.len() {
                        assert(rest.skip(g + 1) =~= s.skip(i + g + 1));
                        assert(next@[i + g + 1] == ways(s.skip(i + g + 1), gs.skip(j + 1)));
                    } else {
                        assert(rest.skip(rest.len() as int) =~= s.skip(n as int));
                        assert(next@[n as int] == ways(s.skip(n as int), gs.skip(j + 1)));
                    }
                }
                let working: i64 = match self.springs[i] {
                    Spring::Damaged => 0,
                    _ => back[n - (i + 1)],
                };
                let may_be_damaged = match self.springs[i] {
                    Spring::Operational => false,
                    _ => true,
                };
                let damaged: i64 = if may_be_damaged && fits_at(&self.springs, i, g) {
                    let after = if (g as u64) < (n - i) as u64 {
                        i + g as usize + 1
                    } else {
                        n
                    };
                    next[after]
                } else {
                    0
                };
                let ghost before = back@;
                let both = match working.checked_add(damaged) {
                    Some(both) => both,
                    None => {
                        proof {
                            assert(ways(s.skip(i as int), gs.skip(j as int)) > i64::MAX);
                        }
                        return None;
                    },
                };
                back.push(both);
                proof {
                    assert forall|t: int| i <= t <= n implies #[trigger] back@[n - t] == ways(
                        s.skip(t),
                        runs,
                    ) by {
                        if t > i {
                            assert(back@[n - t] == before[n - t]);
                        }
                    }
                }
            }
            next = reversed(&back, Ghost(s), Ghost(runs));
            proof {
                assert forall|i: int, k: int| 0 <= i <= n && j <= k <= m implies #[trigger] ways(
                    s.skip(i),
                    gs.skip(k),
                ) <= i64::MAX by {
                    if k == j {
                        assert(next@[i] == ways(s.skip(i), gs.skip(j as int)));
                    }
                }
            }
        }
        proof {
            assert(s.skip(0) =~= s);
            assert(gs.skip(0) =~= gs);
        }
        Some(next[0])
    }

    /// The number of ways to tell of each unknown spring whether it works,
    /// such that the runs of damaged springs have the lengths that the
    /// record gives.
    pub fn arrangements(&self) -> (count: i64)
        requires
            countable(self.springs@, self.groups@),
        ensures
            count == ways(self.springs@, self.groups@),
    {
        match self.count_arrangements() {
            Some(count) => count,
            None => 0,
        }
    }

    /// Replaces the row by five copies of itself with an unknown spring
    /// between them, and the list of runs by five copies of itself.
    pub fn unfold(&mut self)
        ensures
            final(self).springs@ == unfolded_springs(old(self).springs@),
            final(self).groups@ == unfolded_groups(old(self).groups@),
    {
        let mut new_springs: Vec<Spring> = Vec::new();
        let mut new_groups: Vec<i64> = Vec::new();
        let ghost s = self.springs@;
        let ghost gs = self.groups@;
        let mut copy: usize = 0;
        while copy < 5
            invariant
                copy <= 5,
                s == self.springs@,
                gs == self.groups@,
                copy == 0 ==> new_springs@.len() == 0 && new_groups@.len() == 0,
                copy == 1 ==> new_springs@ == s && new_groups@ == gs,
                copy == 2 ==> new_springs@ == s + seq![Spring::Unknown] + s && new_groups@ == gs
                    + gs,
                copy == 3 ==> new_springs@ == s + seq![Spring::Unknown] + s + seq![Spring::Unknown]
                    + s && new_groups@ == gs + gs + gs,
                copy == 4 ==> new_springs@ == s + seq![Spring::Unknown] + s + seq![Spring::Unknown]
                    + s + seq![Spring::Unknown] + s && new_groups@ == gs + gs + gs + gs,
                copy == 5 ==> new_springs@ == unfolded_springs(s) && new_groups@ == unfolded_groups(
                    gs,
                ),
            decreases 5 - copy,
        {
            let ghost springs_before = new_springs@;
            let ghost groups_before = new_groups@;
            if copy > 0 {
                new_springs.push(Spring::Unknown);
            }
            let ghost joined = new_springs@;
            let mut i: usize = 0;
            while i < self.springs.len()
                invariant
                    i <= self.springs@.len(),
                    s == self.springs@,
                    new_springs@ == joined + s.take(i as int),
                decreases self.springs@.len() - i,
            {
                new_springs.push(self.springs[i]);
                proof {
                    assert(s.take(i + 1) =~= s.take(i as int).push(s[i as int]));
                    assert(new_springs@ =~= joined + s.take(i + 1));
                }
                i += 1;
            }
            let mut k: usize = 0;
            while k < self.groups.len()
                invariant
                    k <= self.groups@.len(),
                    gs == self.groups@,
                    new_groups@ == groups_before + gs.take(k as int),
                decreases self.groups@.len() - k,
            {
                new_groups.push(self.groups[k]);
                proof {
                    assert(gs.take(k + 1) =~= gs.take(k as int).push(gs[k as int]));
                    assert(new_groups@ =~= groups_before + gs.take(k + 1));
                }
                k += 1;
            }
            proof {
                assert(s.take(s.len() as int) =~= s);
                assert(gs.take(gs.len() as int) =~= gs);
                if copy == 0 {
                    assert(joined =~= springs_before);
                    assert(new_springs@ =~= s);
                    assert(new_groups@ =~= gs);
                } else {
                    assert(joined =~= springs_before + seq![Spring::Unknown]);
                }
            }
            copy += 1;
        }
        self.springs = new_springs;
        self.groups = new_groups;
    }
}

/// A list of records.
#[derive(Debug)]
pub struct Document {
    pub records: Vec<Record>,
}

/// The numbers of ways of the records of `records`.
pub open spec fn all_ways(records: Seq<Record>) -> Seq<int> {
    records.map_values(|r: Record| ways(r.springs@, r.groups@) as int)
}

impl Document {
    /// The sum of the numbers of ways of all records.
    pub fn arrangements_sum(&self) -> (sum: i64)
        requires
            forall|i: int|
                0 <= i < self.records@.len() ==> countable(
                    (#[trigger] self.records@[i]).springs@,
                    self.records@[i].groups@,
                ),
            total(all_ways(self.records@)) <= i64::MAX,
        ensures
            sum == total(all_ways(self.records@)),
    {
        let mut sum: i64 = 0;
        let mut i: usize = 0;
        let ghost counts = all_ways(self.records@);
        proof {
            lemma_total_all(counts);
        }
        while i < self.records.len()
            invariant
                i <= self.records@.len(),
                counts == all_ways(self.records@),
                forall|k: int|
                    0 <= k < self.records@.len() ==> countable(
                        (#[trigger] self.records@[k]).springs@,
                        self.records@[k].groups@,
                    ),
                total(counts) <= i64::MAX,
                sum == total(counts.take(i as int)),
            decreases self.records@.len() - i,
        {
            proof {
                lemma_total_step(counts, i as int);
                crate::sums::lemma_total_grows(counts, i + 1);
                crate::sums::lemma_total_grows(counts, i as int);
            }
            sum += self.records[i].arrangements();
            i += 1;
        }
        sum
    }

    /// The sum of the numbers of ways of all records, or `None` where the
    /// ways of some record cannot be counted, or the sum cannot be held, in
    /// 64-bit numbers.
    pub fn checked_arrangements_sum(&self) -> (sum: Option<i64>)
        ensures
            match sum {
                Some(v) => {
                    &&& forall|i: int|
                        0 <= i < self.records@.len() ==> countable(
                            (#[trigger] self.records@[i]).springs@,
                            self.records@[i].groups@,
                        )
                    &&& v == total(all_ways(self.records@))
                },
                None => {
                    ||| exists|i: int|
                        0 <= i < self.records@.len() && !countable(
                            (#[trigger] self.records@[i]).springs@,
                            self.records@[i].groups@,
                        )
                    ||| total(all_ways(self.records@)) > i64::MAX
                },
            },
    {
        let mut sum: i64 = 0;
        let mut i: usize = 0;
        let ghost counts = all_ways(self.records@);
        proof {
            lemma_total_all(counts);
        }
        while i < self.records.len()
            invariant
                i <= self.records@.len(),
                counts == all_ways(self.records@),
                forall|k: int|
                    0 <= k < i ==> countable(
                        (#[trigger] self.records@[k]).springs@,
                        self.records@[k].groups@,
                    ),
                sum == total(counts.take(i as int)),
            decreases self.records@.len() - i,
        {
            proof {
                lemma_total_step(counts, i as int);
            }
            let ways = match self.records[i].count_arrangements() {
                Some(ways) => ways,
                None => {
                    return None;
                },
            };
            sum = match sum.checked_add(ways) {
                Some(sum) => sum,
                None => {
                    proof {
                        crate::sums::lemma_total_grows(counts, i + 1);
                    }
                    return None;
                },
            };
            i += 1;
        }
        Some(sum)
    }

    /// Unfolds every record.
    pub fn unfold(&mut self)
        ensures
            final(self).records@.len() == old(self).records@.len(),
            forall|i: int|
                0 <= i < old(self).records@.len() ==> {
                    &&& (#[trigger] final(self).records@[i]).springs@ == unfolded_springs(
                        old(self).records@[i].springs@,
                    )
                    &&& final(self).records@[i].groups@ == unfolded_groups(
                        old(self).records@[i].groups@,
                    )
                },
    {
        let ghost before = self.records@;
        let mut i: usize = 0;
        while i < self.records.len()
            invariant
                i <= self.records@.len(),
                self.records@.len() == before.len(),
                forall|k: int|
                    0 <= k < i ==> {
                        &&& (#[trigger] self.records@[k]).springs@ == unfolded_springs(
                            before[k].springs@,
                        )
                        &&& self.records@[k].groups@ == unfolded_groups(before[k].groups@)
                    },
                forall|k: int| i <= k < before.len() ==> self.records@[k] == before[k],
            decreases self.records@.len() - i,
        {
            self.records[i].unfold();
            i += 1;
        }
    }
}

/// Whether `line` reads as a record: a row of springs, white space, and
/// the lengths of the runs with commas between them.
pub open spec fn is_record_text(line: Seq<char>) -> bool {
    let parts = fields_of(line);
    &&& parts.len() >= 2
    &&& forall|i: int| 0 <= i < parts[0].len() ==> spring_of(#[trigger] parts[0][i]) is Some
    &&& all_signed(split_at_char(parts[1], ','), i64::MIN as int, i64::MAX as int)
}

/// Whether `record` is what `line` reads as.
pub open spec fn is_record_of(record: Record, line: Seq<char>) -> bool {
    let parts = fields_of(line);
    &&& record.springs@.len() == parts[0].len()
    &&& forall|i: int|
        0 <= i < parts[0].len() ==> Some(#[trigger] record.springs@[i]) == spring_of(parts[0][i])
    &&& record.groups@.map_values(|g: i64| g as int) == signed_values(
        split_at_char(parts[1], ','),
        i64::MIN as int,
        i64::MAX as int,
    )
}

impl Record {
    /// Reads the record that the characters `chars` spell.
    pub fn parse_chars(chars: &Vec<char>) -> (record: Record)
        requires
            is_record_text(chars@),
        ensures
            is_record_of(record, chars@),
    {
        let parts = split_fields(chars);
        let ghost texts = fields_of(chars@);
        proof {
            assert(views(parts@)[0] == parts@[0]@);
            assert(views(parts@)[1] == parts@[1]@);
        }
        let row = &parts[0];
        let mut springs: Vec<Spring> = Vec::new();
        let mut i: usize = 0;
        while i < row.len()
            invariant
                i <= row@.len(),
                row@ == texts[0],
                forall|k: int| 0 <= k < texts[0].len() ==> spring_of(#[trigger] texts[0][k]) is Some,
                springs@.len() == i,
                forall|k: int| 0 <= k < i ==> Some(#[trigger] springs@[k]) == spring_of(texts[0][k]),
            decreases row@.len() - i,
        {
            proof {
                assert(spring_of(texts[0][i as int]) is Some);
            }
            springs.push(Spring::parse(row[i]));
            i += 1;
        }
        let pieces = split_char(&parts[1], ',');
        let groups = match parse_all_i64(&pieces) {
            Some(groups) => groups,
            None => Vec::new(),
        };
        Record { springs, groups }
    }

    /// Reads a record.
    pub fn parse(s: &str) -> (record: Record)
        requires
            is_record_text(s@),
        ensures
            is_record_of(record, s@),
    {
        let chars = to_chars(s);
        Record::parse_chars(&chars)
    }
}

impl Document {
    /// Reads a document: one record from each line.
    pub fn parse(s: &str) -> (document: Document)
        requires
            forall|i: int| 0 <= i < lines_of(s@).len() ==> is_record_text(#[trigger] lines_of(s@)[i]),
        ensures
            document.records@.len() == lines_of(s@).len(),
            forall|i: int|
                0 <= i < lines_of(s@).len() ==> is_record_of(
                    #[trigger] document.records@[i],
                    lines_of(s@)[i],
                ),
    {
        let chars = to_chars(s);
        let lines = split_lines(&chars);
        let mut records: Vec<Record> = Vec::new();
        let mut i: usize = 0;
        while i < lines.len()
            invariant
                i <= lines@.len(),
                views(lines@) == lines_of(s@),
                forall|k: int|
                    0 <= k < lines_of(s@).len() ==> is_record_text(#[trigger] lines_of(s@)[k]),
                records@.len() == i,
                forall|k: int| 0 <= k < i ==> is_record_of(#[trigger] records@[k], lines_of(s@)[k]),
            decreases lines@.len() - i,
        {
            proof {
                assert(views(lines@)[i as int] == lines@[i as int]@);
                assert(is_record_text(lines_of(s@)[i as int]));
            }
            let record = Record::parse_chars(&lines[i]);
            records.push(record);
            i += 1;
        }
        Document { records }
    }
}

} // verus!
