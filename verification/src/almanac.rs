//! An almanac of maps from one kind of number to the next, each map a list
//! of ranges that are shifted; single numbers and whole ranges are sent
//! through all maps.

use crate::text::{
    all_signed, fields_of, lines_of, parse_all_i64, signed_values, split_at_char, split_char,
    split_fields, split_lines, to_chars, views,
};
use vstd::prelude::*;

verus! {

/// The numbers from `start` to `start + length - 1`.
#[derive(Debug, Clone, Copy, PartialEq, Eq, Structural)]
pub struct SimpleRange {
    pub start: i64,
    pub length: i64,
}

/// A rule of a map: the `range_length` numbers from `source_range_start`
/// are sent to the numbers from `dest_range_start`.
#[derive(Debug, Clone, Copy, PartialEq, Eq, Structural)]
pub struct Range {
    pub source_range_start: i64,
    pub dest_range_start: i64,
    pub range_length: i64,
}

/// Whether `v` is a 64-bit number.
pub open spec fn fits(v: int) -> bool {
    i64::MIN <= v <= i64::MAX
}

/// The larger of two numbers.
pub open spec fn larger(a: int, b: int) -> int {
    if a >= b {
        a
    } else {
        b
    }
}

/// The smaller of two numbers.
pub open spec fn smaller(a: int, b: int) -> int {
    if a <= b {
        a
    } else {
        b
    }
}

impl Range {
    /// The first number that `self` and `sources` share, if they share any.
    pub open spec fn overlap_start(&self, sources: &SimpleRange) -> int {
        larger(sources.start as int, self.source_range_start as int)
    }

    /// How many numbers `self` and `sources` share; not positive where
    /// they share none.
    pub open spec fn overlap_length(&self, sources: &SimpleRange) -> int {
        smaller(
            sources.start + sources.length - 1,
            self.source_range_start + self.range_length - 1,
        ) - self.overlap_start(sources) + 1
    }

    /// The numbers that `self` and `sources` share.
    pub open spec fn overlap(&self, sources: &SimpleRange) -> Option<SimpleRange> {
        if self.overlap_length(sources) <= 0 {
            None
        } else {
            Some(
                SimpleRange {
                    start: self.overlap_start(sources) as i64,
                    length: self.overlap_length(sources) as i64,
                },
            )
        }
    }

    /// Whether the rule sends the number `source` anywhere. The last
    /// number of the range is not sent.
    pub open spec fn sends(&self, source: int) -> bool {
        self.source_range_start <= source < self.source_range_start + self.range_length - 1
    }

    /// Where the rule sends the number `source`.
    pub open spec fn sent(&self, source: int) -> int {
        source - self.source_range_start + self.dest_range_start
    }

    /// The numbers that `self` and `sources` share, if they share any.
    pub fn intersection(&self, sources: &SimpleRange) -> (shared: Option<SimpleRange>)
        requires
            sources.length >= 0,
        ensures
            shared == self.overlap(sources),
    {
        let a = sources.start as i128;
        let b = sources.start as i128 + sources.length as i128 - 1;
        let c = self.source_range_start as i128;
        let d = self.source_range_start as i128 + self.range_length as i128 - 1;
        let x = if a >= c {
            a
        } else {
            c
        };
        let y = if b <= d {
            b
        } else {
            d
        };
        let l = y - x + 1;
        if l <= 0 {
            return None;
        }
        let intersect = SimpleRange { start: x as i64, length: l as i64 };
        Some(intersect)
    }

    /// The range `sources` as the rule shifts it.
    pub fn translate(&self, sources: &SimpleRange) -> (shifted: SimpleRange)
        requires
            fits(self.sent(sources.start as int)),
        ensures
            shifted.start == self.sent(sources.start as int),
            shifted.length == sources.length,
    {
        SimpleRange {
            start: (sources.start as i128 + self.dest_range_start as i128
                - self.source_range_start as i128) as i64,
            length: sources.length,
        }
    }

    /// Where the rule sends the number `source`, if it sends it anywhere.
    pub fn source_to_dest(&self, source: i64) -> (dest: Option<i64>)
        requires
            self.sends(source as int) ==> fits(self.sent(source as int)),
        ensures
            dest == if self.sends(source as int) {
                Some(self.sent(source as int) as i64)
            } else {
                None
            },
    {
        if self.source_range_start <= source && (source as i128) < self.source_range_start as i128
            + self.range_length as i128 - 1 {
            return Some(
                (source as i128 - self.source_range_start as i128 + self.dest_range_start as i128)
                    as i64,
            );
        }
        return None;
    }
}

/// `sorted` with `x` put in after all ranges that begin no later.
pub open spec fn insert_range(sorted: Seq<SimpleRange>, x: SimpleRange) -> Seq<SimpleRange>
    decreases sorted.len(),
{
    if sorted.len() == 0 {
        seq![x]
    } else if sorted.last().start <= x.start {
        sorted.push(x)
    } else {
        insert_range(sorted.drop_last(), x).push(sorted.last())
    }
}

/// `ranges` in the order of their beginnings; ranges with the same
/// beginning stay in the order in which they were.
pub open spec fn sort_ranges(ranges: Seq<SimpleRange>) -> Seq<SimpleRange>
    decreases ranges.len(),
{
    if ranges.len() == 0 {
        Seq::empty()
    } else {
        insert_range(sort_ranges(ranges.drop_last()), ranges.last())
    }
}

/// Inserting a range makes the list one longer.
pub proof fn lemma_insert_len(sorted: Seq<SimpleRange>, x: SimpleRange)
    ensures
        insert_range(sorted, x).len() == sorted.len() + 1,
    decreases sorted.len(),
{
    if sorted.len() > 0 && !(sorted.last().start <= x.start) {
        lemma_insert_len(sorted.drop_last(), x);
    }
}

/// Sorting keeps the length.
pub proof fn lemma_sort_len(ranges: Seq<SimpleRange>)
    ensures
        sort_ranges(ranges).len() == ranges.len(),
    decreases ranges.len(),
{
    if ranges.len() > 0 {
        lemma_sort_len(ranges.drop_last());
        lemma_insert_len(sort_ranges(ranges.drop_last()), ranges.last());
    }
}

/// `ranges` in the order of their beginnings.
pub fn sorted_ranges(ranges: &Vec<SimpleRange>) -> (sorted: Vec<SimpleRange>)
    ensures
        sorted@ == sort_ranges(ranges@),
{
    let mut sorted: Vec<SimpleRange> = Vec::new();
    let mut i: usize = 0;
    while i < ranges.len()
        invariant
            i <= ranges@.len(),
            sorted@ == sort_ranges(ranges@.take(i as int)),
        decreases ranges@.len() - i,
    {
        let x = ranges[i];
        let ghost before = sorted@;
        proof {
            assert(ranges@.take(i + 1).drop_last() =~= ranges@.take(i as int));
            lemma_sort_len(ranges@.take(i as int));
        }
        // Move the ranges that begin later one place up, from the end.
        sorted.push(x);
        let mut k: usize = sorted.len() - 1;
        proof {
            assert(before.take(k as int) =~= before);
            assert(sorted@.take(k as int) =~= before);
            assert(insert_range(before, x) + sorted@.skip(k + 1) =~= insert_range(before, x));
        }
        while k > 0 && sorted[k - 1].start > x.start
            invariant
                k < sorted@.len(),
                sorted@.len() == before.len() + 1,
                sorted@.take(k as int) == before.take(k as int),
                sorted@[k as int] == x,
                insert_range(before, x) == insert_range(before.take(k as int), x)
                    + sorted@.skip(k + 1),
            decreases k,
        {
            let moved = sorted[k - 1];
            proof {
                let head = before.take(k as int);
                assert(head.last() == moved);
                assert(head.drop_last() =~= before.take(k - 1));
            }
            let ghost was = sorted@;
            sorted.set(k, moved);
            sorted.set(k - 1, x);
            proof {
                assert(sorted@.take(k - 1) =~= before.take(k - 1));
                assert(sorted@.skip(k as int) =~= seq![moved] + was.skip(k + 1));
                assert(insert_range(before.take(k as int), x) == insert_range(
                    before.take(k - 1),
                    x,
                ).push(moved));
                assert(insert_range(before.take(k - 1), x).push(moved) + was.skip(k + 1)
                    =~= insert_range(before.take(k - 1), x) + sorted@.skip(k as int));
            }
            k -= 1;
        }
        proof {
            let head = before.take(k as int);
            if k > 0 {
                assert(head.last() == sorted@[k - 1]);
            }
            assert(insert_range(head, x) == head.push(x));
            assert(head.push(x) + sorted@.skip(k + 1) =~= sorted@);
            assert(before.take(before.len() as int) =~= before);
        }
        i += 1;
    }
    proof {
        assert(ranges@.take(i as int) =~= ranges@);
    }
    sorted
}

impl SimpleRange {
    /// Where the gap number `k` left by `sorted` begins: at the beginning
    /// of `self`, or after the range before the gap.
    pub open spec fn gap_start(&self, sorted: Seq<SimpleRange>, k: int) -> int {
        if k == 0 {
            self.start as int
        } else {
            sorted[k - 1].start + sorted[k - 1].length
        }
    }

    /// Where the gap number `k` left by `sorted` ends: before the range
    /// after the gap, or at the end of `self`.
    pub open spec fn gap_end(&self, sorted: Seq<SimpleRange>, k: int) -> int {
        if k == sorted.len() {
            self.start + self.length - 1
        } else {
            sorted[k].start - 1
        }
    }

    /// The first `k` gaps left by `sorted`, without the empty ones.
    pub open spec fn gaps(&self, sorted: Seq<SimpleRange>, k: int) -> Seq<SimpleRange>
        decreases k,
    {
        if k <= 0 {
            Seq::empty()
        } else {
            let lo = self.gap_start(sorted, k - 1);
            let hi = self.gap_end(sorted, k - 1);
            if hi - lo + 1 >= 1 {
                self.gaps(sorted, k - 1).push(
                    SimpleRange { start: lo as i64, length: (hi - lo + 1) as i64 },
                )
            } else {
                self.gaps(sorted, k - 1)
            }
        }
    }

    /// What is left of `self` when the ranges of `ranges` are taken out,
    /// provided they lie in `self` and apart from each other.
    pub open spec fn without(&self, ranges: Seq<SimpleRange>) -> Seq<SimpleRange> {
        self.gaps(sort_ranges(ranges), ranges.len() as int + 1)
    }

    /// Whether every non-empty gap left by `sorted` is a range of 64-bit
    /// numbers.
    pub open spec fn gaps_fit(&self, sorted: Seq<SimpleRange>) -> bool {
        forall|k: int|
            0 <= k <= sorted.len() && self.gap_end(sorted, k) - #[trigger] self.gap_start(
                sorted,
                k,
            ) + 1 >= 1 ==> fits(self.gap_start(sorted, k)) && fits(
                self.gap_end(sorted, k) - self.gap_start(sorted, k) + 1,
            )
    }

    /// What is left of `self` when the ranges of `ranges` are taken out.
    pub fn minus_disjoint_subsets(&self, ranges: Vec<SimpleRange>) -> (results: Vec<SimpleRange>)
        requires
            self.gaps_fit(sort_ranges(ranges@)),
        ensures
            results@ == self.without(ranges@),
    {
        let sorted = sorted_ranges(&ranges);
        proof {
            lemma_sort_len(ranges@);
        }
        let n = sorted.len();
        let mut results: Vec<SimpleRange> = Vec::new();
        let mut lo: i128 = self.start as i128;
        let mut k: usize = 0;
        while k < n
            invariant
                k <= n,
                n == sorted@.len(),
                self.gaps_fit(sorted@),
                lo == self.gap_start(sorted@, k as int),
                results@ == self.gaps(sorted@, k as int),
            decreases n - k,
        {
            let hi: i128 = sorted[k].start as i128 - 1;
            let l = hi - lo + 1;
            proof {
                assert(hi == self.gap_end(sorted@, k as int));
            }
            if l >= 1 {
                let result = SimpleRange { start: lo as i64, length: l as i64 };
                results.push(result);
            }
            lo = sorted[k].start as i128 + sorted[k].length as i128;
            k += 1;
        }
        let hi: i128 = self.start as i128 + self.length as i128 - 1;
        let l = hi - lo + 1;
        proof {
            assert(hi == self.gap_end(sorted@, n as int));
        }
        if l >= 1 {
            let result = SimpleRange { start: lo as i64, length: l as i64 };
            results.push(result);
        }
        results
    }
}

/// A map: a list of rules.
#[derive(Debug)]
pub struct RangeMap {
    pub ranges: Vec<Range>,
}

/// Where the rules `ranges` send the number `source`: where the first rule
/// that sends it sends it, or to itself where none does.
pub open spec fn sent_by(ranges: Seq<Range>, source: int) -> int
    decreases ranges.len(),
{
    if ranges.len() == 0 {
        source
    } else if ranges.first().sends(source) {
        ranges.first().sent(source)
    } else {
        sent_by(ranges.drop_first(), source)
    }
}

/// The parts of `sources` that the rules `ranges` share with it, rule by
/// rule.
pub open spec fn shared_parts(ranges: Seq<Range>, sources: &SimpleRange) -> Seq<SimpleRange>
    decreases ranges.len(),
{
    if ranges.len() == 0 {
        Seq::empty()
    } else {
        let before = shared_parts(ranges.drop_last(), sources);
        match ranges.last().overlap(sources) {
            Some(part) => before.push(part),
            None => before,
        }
    }
}

/// The parts of `sources` that the rules `ranges` share with it, each
/// shifted by its rule.
pub open spec fn shifted_parts(ranges: Seq<Range>, sources: &SimpleRange) -> Seq<SimpleRange>
    decreases ranges.len(),
{
    if ranges.len() == 0 {
        Seq::empty()
    } else {
        let before = shifted_parts(ranges.drop_last(), sources);
        match ranges.last().overlap(sources) {
            Some(part) => before.push(
                SimpleRange {
                    start: ranges.last().sent(part.start as int) as i64,
                    length: part.length,
                },
            ),
            None => before,
        }
    }
}

/// Whether every part that the rules shift stays a range of 64-bit
/// numbers.
pub open spec fn shifts_fit(ranges: Seq<Range>, sources: &SimpleRange) -> bool {
    forall|i: int|
        0 <= i < ranges.len() && (#[trigger] ranges[i]).overlap(sources) is Some ==> fits(
            ranges[i].sent(ranges[i].overlap(sources).unwrap().start as int),
        )
}

impl RangeMap {
    /// The ranges that the map makes of `sources`: the parts that its
    /// rules share with `sources`, shifted, and then what the rules leave
    /// of `sources`, as it is.
    pub open spec fn image(&self, sources: &SimpleRange) -> Seq<SimpleRange> {
        shifted_parts(self.ranges@, sources) + sources.without(shared_parts(self.ranges@, sources))
    }

    /// Whether `image` can be computed in 64-bit numbers.
    pub open spec fn tame(&self, sources: &SimpleRange) -> bool {
        &&& sources.length >= 0
        &&& shifts_fit(self.ranges@, sources)
        &&& sources.gaps_fit(sort_ranges(shared_parts(self.ranges@, sources)))
    }

    /// A map without rules.
    pub fn new() -> (map: RangeMap)
        ensures
            map.ranges@.len() == 0,
    {
        RangeMap { ranges: Vec::new() }
    }

    /// The ranges that the map makes of `sources`.
    pub fn map(&self, sources: &SimpleRange) -> (destinations: Vec<SimpleRange>)
        requires
            self.tame(sources),
        ensures
            destinations@ == self.image(sources),
    {
        let mut intersections: Vec<SimpleRange> = Vec::new();
        let mut destinations: Vec<SimpleRange> = Vec::new();
        let mut i: usize = 0;
        while i < self.ranges.len()
            invariant
                i <= self.ranges@.len(),
                self.tame(sources),
                intersections@ == shared_parts(self.ranges@.take(i as int), sources),
                destinations@ == shifted_parts(self.ranges@.take(i as int), sources),
            decreases self.ranges@.len() - i,
        {
            let range = &self.ranges[i];
            proof {
                assert(self.ranges@.take(i + 1).drop_last() =~= self.ranges@.take(i as int));
                assert(self.ranges@.take(i + 1).last() == self.ranges@[i as int]);
            }
            if let Some(intersection) = range.intersection(sources) {
                let translated = range.translate(&intersection);
                intersections.push(intersection);
                destinations.push(translated);
            }
            i += 1;
        }
        proof {
            assert(self.ranges@.take(i as int) =~= self.ranges@);
        }
        let mut unmatcheds = sources.minus_disjoint_subsets(intersections);
        destinations.append(&mut unmatcheds);
        destinations
    }

    /// Where the map sends the number `source`.
    pub fn source_to_dest(&self, source: i64) -> (dest: i64)
        requires
            forall|i: int|
                0 <= i < self.ranges@.len() && (#[trigger] self.ranges@[i]).sends(source as int)
                    ==> fits(self.ranges@[i].sent(source as int)),
        ensures
            dest == sent_by(self.ranges@, source as int),
    {
        let mut i: usize = 0;
        proof {
            assert(self.ranges@.skip(0) =~= self.ranges@);
        }
        while i < self.ranges.len()
            invariant
                i <= self.ranges@.len(),
                forall|k: int|
                    0 <= k < self.ranges@.len() && (#[trigger] self.ranges@[k]).sends(
                        source as int,
                    ) ==> fits(self.ranges@[k].sent(source as int)),
                sent_by(self.ranges@, source as int) == sent_by(
                    self.ranges@.skip(i as int),
                    source as int,
                ),
            decreases self.ranges@.len() - i,
        {
            proof {
                let rest = self.ranges@.skip(i as int);
                assert(rest.first() == self.ranges@[i as int]);
                assert(rest.drop_first() =~= self.ranges@.skip(i + 1));
            }
            if let Some(dest) = self.ranges[i].source_to_dest(source) {
                return dest;
            }
            i += 1;
        }
        return source;
    }
}

/// An almanac: the numbers to begin with, the same numbers read as ranges,
/// and the maps.
#[derive(Debug)]
pub struct Almanac {
    pub start_values: Vec<i64>,
    pub start_ranges: Vec<SimpleRange>,
    pub maps: Vec<RangeMap>,
}

/// Where the maps `maps` send the number `source`, one after the other.
pub open spec fn sent_through(maps: Seq<RangeMap>, source: int) -> int
    decreases maps.len(),
{
    if maps.len() == 0 {
        source
    } else {
        sent_by(maps.last().ranges@, sent_through(maps.drop_last(), source))
    }
}

/// Whether sending `source` through `maps` stays within 64-bit numbers.
pub open spec fn through_fits(maps: Seq<RangeMap>, source: int) -> bool
    decreases maps.len(),
{
    maps.len() == 0 || {
        let before = sent_through(maps.drop_last(), source);
        &&& through_fits(maps.drop_last(), source)
        &&& fits(before)
        &&& forall|i: int|
            0 <= i < maps.last().ranges@.len() && (#[trigger] maps.last().ranges@[i]).sends(before)
                ==> fits(maps.last().ranges@[i].sent(before))
    }
}

/// The pairs of `values` read as ranges: a beginning and a length each.
pub open spec fn paired(values: Seq<i64>) -> Seq<SimpleRange> {
    Seq::new(values.len() / 2, |k: int| SimpleRange { start: values[2 * k], length: values[2 * k + 1] })
}

/// The ranges that `map` makes of each of `inputs`, one after the other.
pub open spec fn images(map: &RangeMap, inputs: Seq<SimpleRange>) -> Seq<SimpleRange>
    decreases inputs.len(),
{
    if inputs.len() == 0 {
        Seq::empty()
    } else {
        images(map, inputs.drop_last()) + map.image(&inputs.last())
    }
}

/// The ranges that the maps `maps` make of `range`, one map after the
/// other; none where there is no map.
pub open spec fn through_all(maps: Seq<RangeMap>, range: SimpleRange) -> Seq<SimpleRange>
    decreases maps.len(),
{
    if maps.len() == 0 {
        Seq::empty()
    } else if maps.len() == 1 {
        maps[0].image(&range)
    } else {
        images(&maps.last(), through_all(maps.drop_last(), range))
    }
}

/// Whether `through_all` can be computed in 64-bit numbers.
pub open spec fn all_tame(maps: Seq<RangeMap>, range: SimpleRange) -> bool
    decreases maps.len(),
{
    if maps.len() == 0 {
        true
    } else if maps.len() == 1 {
        maps[0].tame(&range)
    } else {
        &&& all_tame(maps.drop_last(), range)
        &&& forall|i: int|
            0 <= i < through_all(maps.drop_last(), range).len() ==> maps.last().tame(
                &#[trigger] through_all(maps.drop_last(), range)[i],
            )
    }
}

impl Almanac {
    /// An almanac without maps that begins with `start_values`.
    pub fn new(start_values: Vec<i64>) -> (almanac: Almanac)
        requires
            start_values@.len() % 2 == 0,
        ensures
            almanac.start_values@ == start_values@,
            almanac.start_ranges@ == paired(start_values@),
            almanac.maps@.len() == 0,
    {
        let mut almanac = Almanac { start_values, start_ranges: Vec::new(), maps: Vec::new() };
        let ghost values = almanac.start_values@;
        let mut i: usize = 0;
        while i < almanac.start_values.len()
            invariant
                i <= values.len(),
                i % 2 == 0,
                values.len() % 2 == 0,
                almanac.start_values@ == values,
                almanac.maps@.len() == 0,
                almanac.start_ranges@.len() == i / 2,
                forall|k: int|
                    0 <= k < i / 2 ==> #[trigger] almanac.start_ranges@[k] == paired(values)[k],
            decreases values.len() - i,
        {
            let range = SimpleRange {
                start: almanac.start_values[i],
                length: almanac.start_values[i + 1],
            };
            almanac.start_ranges.push(range);
            i += 2;
        }
        proof {
            assert(almanac.start_ranges@ =~= paired(values));
        }
        return almanac;
    }

    /// Where the maps send the number `source`, one after the other.
    pub fn source_to_dest(&self, source: i64) -> (dest: i64)
        requires
            through_fits(self.maps@, source as int),
        ensures
            dest == sent_through(self.maps@, source as int),
    {
        let mut source = source;
        let ghost first = source as int;
        let mut i: usize = 0;
        while i < self.maps.len()
            invariant
                i <= self.maps@.len(),
                through_fits(self.maps@, first),
                source == sent_through(self.maps@.take(i as int), first),
            decreases self.maps@.len() - i,
        {
            proof {
                assert(self.maps@.take(i + 1).drop_last() =~= self.maps@.take(i as int));
                assert(self.maps@.take(i + 1).last() == self.maps@[i as int]);
                lemma_through_fits_prefix(self.maps@, first, i + 1);
            }
            source = self.maps[i].source_to_dest(source);
            i += 1;
        }
        proof {
            assert(self.maps@.take(i as int) =~= self.maps@);
        }
        source
    }

    /// The ranges that the maps make of `range`, one map after the other.
    pub fn map(&self, range: &SimpleRange) -> (outputs: Vec<SimpleRange>)
        requires
            all_tame(self.maps@, *range),
        ensures
            outputs@ == through_all(self.maps@, *range),
    {
        let mut inputs: Vec<SimpleRange> = Vec::new();
        inputs.push(*range);
        let mut outputs: Vec<SimpleRange> = Vec::new();
        let mut i: usize = 0;
        while i < self.maps.len()
            invariant
                i <= self.maps@.len(),
                all_tame(self.maps@, *range),
                i == 0 ==> inputs@ == seq![*range] && outputs@.len() == 0,
                i > 0 ==> inputs@.len() == 0,
                outputs@ == through_all(self.maps@.take(i as int), *range),
            decreases self.maps@.len() - i,
        {
            let map = &self.maps[i];
            let ghost done = self.maps@.take(i as int);
            let ghost now = self.maps@.take(i + 1);
            proof {
                assert(now.drop_last() =~= done);
                assert(now.last() == self.maps@[i as int]);
                lemma_all_tame_prefix(self.maps@, *range, i + 1);
            }
            inputs.append(&mut outputs);
            let ghost fed = inputs@;
            proof {
                if i == 0 {
                    assert(fed =~= seq![*range]);
                } else {
                    assert(fed =~= through_all(done, *range));
                }
            }
            let mut k: usize = 0;
            while k < inputs.len()
                invariant
                    k <= inputs@.len(),
                    inputs@ == fed,
                    forall|t: int| 0 <= t < fed.len() ==> map.tame(&#[trigger] fed[t]),
                    outputs@ == images(map, fed.take(k as int)),
                decreases inputs@.len() - k,
            {
                proof {
                    assert(fed.take(k + 1).drop_last() =~= fed.take(k as int));
                    assert(fed.take(k + 1).last() == fed[k as int]);
                }
                let mut made = map.map(&inputs[k]);
                outputs.append(&mut made);
                k += 1;
            }
            proof {
                assert(fed.take(k as int) =~= fed);
                if i == 0 {
                    let one = seq![*range];
                    assert(one.drop_last() =~= Seq::<SimpleRange>::empty());
                    assert(one.last() == *range);
                    assert(images(map, one.drop_last()) =~= Seq::<SimpleRange>::empty());
                    assert(images(map, one) =~= images(map, one.drop_last()) + map.image(
                        &one.last(),
                    ));
                    assert(images(map, one) =~= map.image(range));
                    assert(now[0] == self.maps@[0]);
                }
            }
            inputs.clear();
            i += 1;
        }
        proof {
            assert(self.maps@.take(i as int) =~= self.maps@);
        }
        outputs
    }
}

/// Where sending a number through all maps stays within 64-bit numbers, so
/// does sending it through the first `k`.
pub proof fn lemma_through_fits_prefix(maps: Seq<RangeMap>, source: int, k: int)
    requires
        0 <= k <= maps.len(),
        through_fits(maps, source),
    ensures
        through_fits(maps.take(k), source),
    decreases maps.len(),
{
    if k == maps.len() {
        assert(maps.take(k) =~= maps);
    } else {
        lemma_through_fits_prefix(maps.drop_last(), source, k);
        assert(maps.drop_last().take(k) =~= maps.take(k));
    }
}

/// Where all maps can be followed in 64-bit numbers, so can the first `k`.
pub proof fn lemma_all_tame_prefix(maps: Seq<RangeMap>, range: SimpleRange, k: int)
    requires
        1 <= k <= maps.len(),
        all_tame(maps, range),
    ensures
        all_tame(maps.take(k), range),
    decreases maps.len(),
{
    if k == maps.len() {
        assert(maps.take(k) =~= maps);
    } else {
        lemma_all_tame_prefix(maps.drop_last(), range, k);
        assert(maps.drop_last().take(k) =~= maps.take(k));
    }
}

/// The numbers that the fields of `text` read as, if all of them read as
/// 64-bit numbers.
pub open spec fn numbers_in(text: Seq<char>) -> Option<Seq<int>> {
    if all_signed(fields_of(text), i64::MIN as int, i64::MAX as int) {
        Some(signed_values(fields_of(text), i64::MIN as int, i64::MAX as int))
    } else {
        None
    }
}

/// Whether `line` is a line of an almanac after the first: empty, a title
/// with a colon, or a rule of at least three numbers.
pub open spec fn is_almanac_line(line: Seq<char>) -> bool {
    line.len() == 0 || line.contains(':') || (numbers_in(line) is Some
        && numbers_in(line).unwrap().len() >= 3)
}

/// The rule that `line` reads as: first where the numbers go, then where
/// they are, then how many they are.
pub open spec fn rule_of(line: Seq<char>) -> (int, int, int) {
    (numbers_in(line).unwrap()[1], numbers_in(line).unwrap()[0], numbers_in(line).unwrap()[2])
}

/// A rule as it is read: where the numbers are, where they go, and how
/// many they are.
pub open spec fn rule_read(r: Range) -> (int, int, int) {
    (r.source_range_start as int, r.dest_range_start as int, r.range_length as int)
}

/// The rules of each of `maps` as they are read.
pub open spec fn rules_read(maps: Seq<RangeMap>) -> Seq<Seq<(int, int, int)>> {
    maps.map_values(|m: RangeMap| m.ranges@.map_values(|r: Range| rule_read(r)))
}

/// The maps that the lines from number 1 to `upto - 1` describe: every
/// title begins a map, and every rule belongs to the map begun last.
pub open spec fn maps_of(lines: Seq<Seq<char>>, upto: int) -> Seq<Seq<(int, int, int)>>
    decreases upto,
{
    if upto <= 1 {
        Seq::empty()
    } else {
        let before = maps_of(lines, upto - 1);
        let line = lines[upto - 1];
        if line.len() == 0 {
            before
        } else if line.contains(':') {
            before.push(Seq::empty())
        } else {
            before.drop_last().push(before.last().push(rule_of(line)))
        }
    }
}

/// Whether `text` reads as an almanac: a first line with a title, a colon
/// and an even number of numbers, then titles and rules, and no rule
/// before the first title.
pub open spec fn is_almanac_text(text: Seq<char>) -> bool {
    let lines = lines_of(text);
    &&& lines.len() >= 1
    &&& split_at_char(lines[0], ':').len() >= 2
    &&& numbers_in(split_at_char(lines[0], ':')[1]) is Some
    &&& numbers_in(split_at_char(lines[0], ':')[1]).unwrap().len() % 2 == 0
    &&& forall|i: int| 1 <= i < lines.len() ==> is_almanac_line(#[trigger] lines[i])
    &&& forall|i: int|
        1 <= i < lines.len() && (#[trigger] lines[i]).len() > 0 && !lines[i].contains(':')
            ==> maps_of(lines, i).len() > 0
}

/// Whether `c` is among `chars`.
fn has_char(chars: &Vec<char>, c: char) -> (found: bool)
    ensures
        found == chars@.contains(c),
{
    let mut i: usize = 0;
    while i < chars.len()
        invariant
            i <= chars@.len(),
            forall|k: int| 0 <= k < i ==> chars@[k] != c,
        decreases chars@.len() - i,
    {
        if chars[i] == c {
            return true;
        }
        i += 1;
    }
    false
}

impl Almanac {
    /// Reads an almanac.
    pub fn parse(input: &str) -> (almanac: Almanac)
        requires
            is_almanac_text(input@),
        ensures
            almanac.start_values@.map_values(|v: i64| v as int) == numbers_in(
                split_at_char(lines_of(input@)[0], ':')[1],
            ).unwrap(),
            almanac.start_ranges@ == paired(almanac.start_values@),
            rules_read(almanac.maps@) == maps_of(lines_of(input@), lines_of(input@).len() as int),
    {
        let chars = to_chars(input);
        let lines = split_lines(&chars);
        let ghost rows = lines_of(input@);
        proof {
            assert(views(lines@)[0] == lines@[0]@);
        }
        let head = split_char(&lines[0], ':');
        proof {
            assert(views(head@)[1] == head@[1]@);
        }
        let fields = split_fields(&head[1]);
        let start_values = match parse_all_i64(&fields) {
            Some(v) => v,
            None => Vec::new(),
        };
        let mut almanac = Almanac::new(start_values);
        let ghost seeds = almanac.start_values@;
        let mut i: usize = 1;
        proof {
            assert(rules_read(almanac.maps@) =~= maps_of(rows, 1));
        }
        while i < lines.len()
            invariant
                1 <= i <= lines@.len(),
                views(lines@) == rows,
                rows == lines_of(input@),
                is_almanac_text(input@),
                almanac.start_values@ == seeds,
                almanac.start_ranges@ == paired(seeds),
                rules_read(almanac.maps@) == maps_of(rows, i as int),
            decreases lines@.len() - i,
        {
            let line = &lines[i];
            proof {
                assert(views(lines@)[i as int] == line@);
                assert(is_almanac_line(rows[i as int]));
            }
            let ghost before = rules_read(almanac.maps@);
            if line.len() == 0 {
            } else if has_char(line, ':') {
                almanac.maps.push(RangeMap::new());
                proof {
                    let last = almanac.maps@.len() - 1;
                    assert(almanac.maps@[last].ranges@.map_values(|r: Range| rule_read(r))
                        =~= Seq::<(int, int, int)>::empty());
                    assert(rules_read(almanac.maps@)[last] == Seq::<(int, int, int)>::empty());
                    assert forall|k: int| 0 <= k < last implies rules_read(almanac.maps@)[k]
                        == before[k] by {
                    }
                    assert(rules_read(almanac.maps@) =~= before.push(Seq::empty()));
                }
            } else {
                let fields = split_fields(line);
                let nums = match parse_all_i64(&fields) {
                    Some(v) => v,
                    None => Vec::new(),
                };
                proof {
                    assert(maps_of(rows, i as int).len() > 0);
                    assert(nums@.map_values(|x: i64| x as int) == numbers_in(line@).unwrap());
                    assert(nums@.map_values(|x: i64| x as int)[0] == nums@[0]);
                    assert(nums@.map_values(|x: i64| x as int)[1] == nums@[1]);
                    assert(nums@.map_values(|x: i64| x as int)[2] == nums@[2]);
                }
                let range = Range {
                    dest_range_start: nums[0],
                    source_range_start: nums[1],
                    range_length: nums[2],
                };
                let last = almanac.maps.len() - 1;
                let ghost maps_before = almanac.maps@;
                almanac.maps[last].ranges.push(range);
                proof {
                    assert forall|k: int| 0 <= k < last implies almanac.maps@[k]
                        == maps_before[k] by {
                    }
                    assert(almanac.maps@[last as int].ranges@.map_values(|r: Range| rule_read(r))
                        =~= before.last().push(rule_of(line@)));
                    assert(rules_read(almanac.maps@) =~= before.drop_last().push(
                        before.last().push(rule_of(line@)),
                    ));
                }
            }
            i += 1;
        }
        almanac
    }

    /// The least of the numbers that the first `k` numbers to begin with
    /// are sent to.
    pub open spec fn least_sent(&self, k: int) -> int
        decreases k,
    {
        if k <= 1 {
            sent_through(self.maps@, self.start_values@[0] as int)
        } else {
            smaller(
                self.least_sent(k - 1),
                sent_through(self.maps@, self.start_values@[k - 1] as int),
            )
        }
    }

    /// The least number that one of the numbers to begin with is sent to.
    pub fn lowest_destination(&self) -> (least: i64)
        requires
            self.start_values@.len() >= 1,
            forall|i: int|
                0 <= i < self.start_values@.len() ==> through_fits(
                    self.maps@,
                    #[trigger] self.start_values@[i] as int,
                ),
        ensures
            least == self.least_sent(self.start_values@.len() as int),
    {
        let mut dest_min = self.source_to_dest(self.start_values[0]);
        let mut i: usize = 1;
        while i < self.start_values.len()
            invariant
                1 <= i <= self.start_values@.len(),
                forall|k: int|
                    0 <= k < self.start_values@.len() ==> through_fits(
                        self.maps@,
                        #[trigger] self.start_values@[k] as int,
                    ),
                dest_min == self.least_sent(i as int),
            decreases self.start_values@.len() - i,
        {
            let dest = self.source_to_dest(self.start_values[i]);
            if dest < dest_min {
                dest_min = dest;
            }
            i += 1;
        }
        dest_min
    }

    /// The ranges that the maps make of the first `k` ranges to begin
    /// with, one after the other.
    pub open spec fn all_outputs(&self, k: int) -> Seq<SimpleRange>
        decreases k,
    {
        if k <= 0 {
            Seq::empty()
        } else {
            self.all_outputs(k - 1) + through_all(self.maps@, self.start_ranges@[k - 1])
        }
    }

    /// The least beginning among the first `k` of `ranges`.
    pub open spec fn least_start(ranges: Seq<SimpleRange>, k: int) -> int
        decreases k,
    {
        if k <= 1 {
            ranges[0].start as int
        } else {
            smaller(Self::least_start(ranges, k - 1), ranges[k - 1].start as int)
        }
    }

    /// The least beginning of the ranges that the maps make of the ranges
    /// to begin with, or `None` where they make no range at all.
    pub fn lowest_range_start(&self) -> (least: Option<i64>)
        requires
            forall|i: int|
                0 <= i < self.start_ranges@.len() ==> all_tame(
                    self.maps@,
                    #[trigger] self.start_ranges@[i],
                ),
        ensures
            match least {
                Some(v) => {
                    let outputs = self.all_outputs(self.start_ranges@.len() as int);
                    outputs.len() >= 1 && v == Self::least_start(outputs, outputs.len() as int)
                },
                None => self.all_outputs(self.start_ranges@.len() as int).len() == 0,
            },
    {
        let mut outputs: Vec<SimpleRange> = Vec::new();
        let mut i: usize = 0;
        while i < self.start_ranges.len()
            invariant
                i <= self.start_ranges@.len(),
                forall|k: int|
                    0 <= k < self.start_ranges@.len() ==> all_tame(
                        self.maps@,
                        #[trigger] self.start_ranges@[k],
                    ),
                outputs@ == self.all_outputs(i as int),
            decreases self.start_ranges@.len() - i,
        {
            let mut made = self.map(&self.start_ranges[i]);
            outputs.append(&mut made);
            i += 1;
        }
        if outputs.len() == 0 {
            return None;
        }
        let mut least = outputs[0].start;
        let mut k: usize = 1;
        while k < outputs.len()
            invariant
                1 <= k <= outputs@.len(),
                least == Self::least_start(outputs@, k as int),
            decreases outputs@.len() - k,
        {
            if outputs[k].start < least {
                least = outputs[k].start;
            }
            k += 1;
        }
        Some(least)
    }
}

} // verus!
