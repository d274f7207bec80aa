//! Sums of sequences of integers.

use vstd::prelude::*;

verus! {

/// The sum of `values`.
pub open spec fn total(values: Seq<int>) -> int
    decreases values.len(),
{
    if values.len() == 0 {
        0
    } else {
        total(values.drop_last()) + values.last()
    }
}

/// The sum of the first `i + 1` values is the sum of the first `i` and the
/// value after them.
pub proof fn lemma_total_step(values: Seq<int>, i: int)
    requires
        0 <= i < values.len(),
    ensures
        total(values.take(i + 1)) == total(values.take(i)) + values[i],
        total(values.take(0)) == 0,
{
    assert(values.take(i + 1).drop_last() =~= values.take(i));
}

/// The sum of all values is the sum of the whole sequence.
pub proof fn lemma_total_all(values: Seq<int>)
    ensures
        total(values.take(values.len() as int)) == total(values),
        total(values.take(0)) == 0,
{
    assert(values.take(values.len() as int) =~= values);
}

/// Where no value is negative, the sum of the first `i` values is neither
/// negative nor more than the sum of all.
pub proof fn lemma_total_grows(values: Seq<int>, i: int)
    requires
        0 <= i <= values.len(),
        forall|j: int| 0 <= j < values.len() ==> 0 <= #[trigger] values[j],
    ensures
        0 <= total(values.take(i)) <= total(values),
    decreases values.len() - i,
{
    if i == values.len() {
        assert(values.take(i) =~= values);
        lemma_total_nonnegative(values);
    } else {
        lemma_total_grows(values, i + 1);
        lemma_total_step(values, i);
        let short = values.take(i);
        assert forall|j: int| 0 <= j < short.len() implies 0 <= #[trigger] short[j] by {
            assert(short[j] == values[j]);
        }
        lemma_total_nonnegative(short);
    }
}

/// Where no value is negative, the sum is not negative.
pub proof fn lemma_total_nonnegative(values: Seq<int>)
    requires
        forall|j: int| 0 <= j < values.len() ==> 0 <= #[trigger] values[j],
    ensures
        0 <= total(values),
    decreases values.len(),
{
    if values.len() > 0 {
        let short = values.drop_last();
        assert forall|j: int| 0 <= j < short.len() implies 0 <= #[trigger] short[j] by {
            assert(short[j] == values[j]);
        }
        lemma_total_nonnegative(short);
    }
}

} // verus!
