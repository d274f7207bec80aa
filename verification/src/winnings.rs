//! The winnings of a set of hands: each hand wins its bid times its rank
//! among the hands.

use crate::camel::Hand;
use vstd::prelude::*;

verus! {

/// `sorted` with the hand `x` put in after all hands that do not rank
/// above it.
pub open spec fn insert_hand(sorted: Seq<Hand>, x: Hand, jokers: bool) -> Seq<Hand>
    decreases sorted.len(),
{
    if sorted.len() == 0 {
        seq![x]
    } else if !sorted.last().beats(&x, jokers) {
        sorted.push(x)
    } else {
        insert_hand(sorted.drop_last(), x, jokers).push(sorted.last())
    }
}

/// `hands` from the weakest to the strongest; hands of the same rank stay
/// in the order in which they were.
pub open spec fn ranked(hands: Seq<Hand>, jokers: bool) -> Seq<Hand>
    decreases hands.len(),
{
    if hands.len() == 0 {
        Seq::empty()
    } else {
        insert_hand(ranked(hands.drop_last(), jokers), hands.last(), jokers)
    }
}

/// What the first `k` of `hands` win together when they are in the order
/// of their ranks: each its bid times its place, counted from 1.
pub open spec fn winnings_of(hands: Seq<Hand>, k: int) -> int
    decreases k,
{
    if k <= 0 {
        0
    } else {
        winnings_of(hands, k - 1) + hands[k - 1].bid * k
    }
}

/// Whether the winnings of `hands` can be summed in 32-bit numbers.
pub open spec fn winnings_fit(hands: Seq<Hand>) -> bool {
    forall|k: int|
        0 <= k <= hands.len() ==> {
            &&& i32::MIN <= #[trigger] winnings_of(hands, k) <= i32::MAX
            &&& k <= i32::MAX
            &&& k >= 1 ==> i32::MIN <= hands[k - 1].bid * k <= i32::MAX
        }
}

/// Putting a hand in makes the list one longer.
pub proof fn lemma_insert_hand_len(sorted: Seq<Hand>, x: Hand, jokers: bool)
    ensures
        insert_hand(sorted, x, jokers).len() == sorted.len() + 1,
    decreases sorted.len(),
{
    if sorted.len() > 0 && sorted.last().beats(&x, jokers) {
        lemma_insert_hand_len(sorted.drop_last(), x, jokers);
    }
}

/// Ranking keeps the number of hands.
pub proof fn lemma_ranked_len(hands: Seq<Hand>, jokers: bool)
    ensures
        ranked(hands, jokers).len() == hands.len(),
    decreases hands.len(),
{
    if hands.len() > 0 {
        lemma_ranked_len(hands.drop_last(), jokers);
        lemma_insert_hand_len(ranked(hands.drop_last(), jokers), hands.last(), jokers);
    }
}

/// `hands` from the weakest to the strongest.
pub fn rank_hands(hands: &Vec<Hand>, jokers: bool) -> (sorted: Vec<Hand>)
    ensures
        sorted@ == ranked(hands@, jokers),
        sorted@.len() == hands@.len(),
{
    let mut sorted: Vec<Hand> = Vec::new();
    let mut i: usize = 0;
    while i < hands.len()
        invariant
            i <= hands@.len(),
            sorted@ == ranked(hands@.take(i as int), jokers),
        decreases hands@.len() - i,
    {
        let x = hands[i];
        let ghost before = sorted@;
        proof {
            assert(hands@.take(i + 1).drop_last() =~= hands@.take(i as int));
        }
        sorted.push(x);
        let mut k: usize = sorted.len() - 1;
        proof {
            assert(before.take(k as int) =~= before);
            assert(sorted@.take(k as int) =~= before);
            assert(insert_hand(before, x, jokers) + sorted@.skip(k + 1) =~= insert_hand(
                before,
                x,
                jokers,
            ));
        }
        while k > 0 && sorted[k - 1].outranks(&x, jokers)
            invariant
                k < sorted@.len(),
                sorted@.len() == before.len() + 1,
                sorted@.take(k as int) == before.take(k as int),
                sorted@[k as int] == x,
                insert_hand(before, x, jokers) == insert_hand(before.take(k as int), x, jokers)
                    + sorted@.skip(k + 1),
            decreases k,
        {
            let moved = sorted[k - 1];
            proof {
                let head = before.take(k as int);
                assert(head.last() == moved);
                assert(head.drop_last() =~= before.take(k - 1));
            }
            let ghost was = sorted@;
            sorted.set(k, moved);
            sorted.set(k - 1, x);
            proof {
                assert(sorted@.take(k - 1) =~= before.take(k - 1));
                assert(sorted@.skip(k as int) =~= seq![moved] + was.skip(k + 1));
                assert(insert_hand(before.take(k as int), x, jokers) == insert_hand(
                    before.take(k - 1),
                    x,
                    jokers,
                ).push(moved));
                assert(insert_hand(before.take(k - 1), x, jokers).push(moved) + was.skip(k + 1)
                    =~= insert_hand(before.take(k - 1), x, jokers) + sorted@.skip(k as int));
            }
            k -= 1;
        }
        proof {
            let head = before.take(k as int);
            if k > 0 {
                assert(head.last() == sorted@[k - 1]);
            }
            assert(insert_hand(head, x, jokers) == head.push(x));
            assert(head.push(x) + sorted@.skip(k + 1) =~= sorted@);
        }
        i += 1;
    }
    proof {
        assert(hands@.take(i as int) =~= hands@);
        lemma_ranked_len(hands@, jokers);
    }
    sorted
}

/// What the hands win together: each its bid times its rank, the weakest
/// hand having rank 1.
pub fn total_winnings(hands: &Vec<Hand>, jokers: bool) -> (winnings: i32)
    requires
        winnings_fit(ranked(hands@, jokers)),
    ensures
        winnings == winnings_of(ranked(hands@, jokers), hands@.len() as int),
{
    let sorted = rank_hands(hands, jokers);
    let mut winnings: i32 = 0;
    let mut i: usize = 0;
    while i < sorted.len()
        invariant
            i <= sorted@.len(),
            winnings_fit(sorted@),
            winnings == winnings_of(sorted@, i as int),
        decreases sorted@.len() - i,
    {
        proof {
            assert(i32::MIN <= winnings_of(sorted@, i + 1) <= i32::MAX);
            assert(i + 1 <= i32::MAX);
            assert(i32::MIN <= sorted@[i as int].bid * (i + 1) <= i32::MAX);
        }
        let rank = (i + 1) as i32;
        winnings += sorted[i].bid * rank;
        i += 1;
    }
    winnings
}

} // verus!
