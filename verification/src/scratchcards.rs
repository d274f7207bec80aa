//! Scratch cards: how many of a card's numbers win, and what that is worth.

use crate::sums::{lemma_total_all, lemma_total_step, total};
use vstd::arithmetic::power2::{lemma2_to64, lemma_pow2_strictly_increases, lemma_pow2_unfold, pow2};
use crate::text::{
    all_signed, fields_of, is_rising, parse_all_i64, signed_of, signed_values, sort_numbers,
    sorted_numbers, split_at_char, split_char, split_fields, to_chars, views,
};
use vstd::prelude::*;

verus! {

/// A card: the winning numbers and the numbers that the card holds, both
/// in rising order.
#[derive(Debug)]
pub struct Card {
    pub winners: Vec<i64>,
    pub owned: Vec<i64>,
}

/// Whether `values` is in rising order.
pub open spec fn is_sorted(values: Seq<i64>) -> bool {
    forall|i: int, j: int| 0 <= i <= j < values.len() ==> values[i] <= values[j]
}

/// What `matches` matching numbers are worth: nothing for none, 1 for one,
/// and twice as much for each one more.
pub open spec fn points_of(matches: int) -> int {
    if matches >= 1 {
        pow2((matches - 1) as nat) as int
    } else {
        0
    }
}

/// 1 for each winning number that is among `owned`.
pub open spec fn hits(winners: Seq<i64>, owned: Seq<i64>) -> Seq<int> {
    winners.map_values(
        |w: i64|
            if owned.contains(w) {
                1int
            } else {
                0int
            },
    )
}

/// Whether `wanted` is among the sorted `values`.
pub fn find_sorted(values: &Vec<i64>, wanted: i64) -> (found: bool)
    requires
        is_sorted(values@),
    ensures
        found == values@.contains(wanted),
{
    let mut low: usize = 0;
    let mut high: usize = values.len();
    while low < high
        invariant
            low <= high <= values@.len(),
            is_sorted(values@),
            forall|i: int| 0 <= i < low ==> values@[i] < wanted,
            forall|i: int| high <= i < values@.len() ==> values@[i] > wanted,
        decreases high - low,
    {
        let mid = low + (high - low) / 2;
        let v = values[mid];
        if v == wanted {
            return true;
        } else if v < wanted {
            low = mid + 1;
        } else {
            high = mid;
        }
    }
    false
}

impl Card {
    /// The card holds its numbers in rising order.
    pub open spec fn wf(&self) -> bool {
        is_sorted(self.owned@)
    }

    /// The number of winning numbers that the card holds.
    pub open spec fn match_count(&self) -> int {
        total(hits(self.winners@, self.owned@))
    }

    /// A card without numbers.
    pub fn new() -> (card: Card)
        ensures
            card.winners@.len() == 0,
            card.owned@.len() == 0,
            card.wf(),
    {
        Card { winners: Vec::new(), owned: Vec::new() }
    }

    /// The number of winning numbers that the card holds.
    pub fn matches(&self) -> (k: i64)
        requires
            self.wf(),
            self.winners@.len() <= i64::MAX,
        ensures
            k == self.match_count(),
            0 <= k <= self.winners@.len(),
    {
        let mut k: i64 = 0;
        let mut i: usize = 0;
        let ghost found = hits(self.winners@, self.owned@);
        proof {
            lemma_total_all(found);
        }
        while i < self.winners.len()
            invariant
                i <= self.winners@.len(),
                found == hits(self.winners@, self.owned@),
                self.wf(),
                self.winners@.len() <= i64::MAX,
                k == total(found.take(i as int)),
                0 <= k <= i,
            decreases self.winners@.len() - i,
        {
            proof {
                lemma_total_step(found, i as int);
            }
            if find_sorted(&self.owned, self.winners[i]) {
                k += 1;
            }
            i += 1;
        }
        k
    }
}

/// What `matches` matching numbers are worth.
pub fn calc_points(matches: i64) -> (points: i64)
    requires
        matches <= 63,
    ensures
        points == points_of(matches as int),
{
    if matches >= 1 {
        let shift: u64 = (matches - 1) as u64;
        proof {
            lemma2_to64();
            lemma_pow2_unfold(64);
            if shift < 63 {
                lemma_pow2_strictly_increases(shift as nat, 63);
            }
            vstd::bits::lemma_u64_shl_is_mul(1, shift);
        }
        let points: u64 = 1u64 << shift;
        points as i64
    } else {
        0
    }
}

/// The text between the first and the second colon of `s`, which holds the
/// numbers of the card.
pub open spec fn numbers_text(s: Seq<char>) -> Seq<char> {
    split_at_char(s, ':')[1]
}

/// The fields of the winning numbers of the card `s`: those before the
/// first bar.
pub open spec fn winner_fields(s: Seq<char>) -> Seq<Seq<char>> {
    fields_of(split_at_char(numbers_text(s), '|')[0])
}

/// The fields of the numbers that the card `s` holds: those between the
/// first and the second bar.
pub open spec fn owned_fields(s: Seq<char>) -> Seq<Seq<char>> {
    fields_of(split_at_char(numbers_text(s), '|')[1])
}

/// Whether `s` reads as a card: a title, a colon, the winning numbers, a
/// bar, and the numbers held.
pub open spec fn is_card_text(s: Seq<char>) -> bool {
    &&& split_at_char(s, ':').len() >= 2
    &&& split_at_char(numbers_text(s), '|').len() >= 2
    &&& all_signed(winner_fields(s), i64::MIN as int, i64::MAX as int)
    &&& all_signed(owned_fields(s), i64::MIN as int, i64::MAX as int)
}

/// Whether `numbers`, read as integers, are `values` in rising order.
pub open spec fn are_sorted(numbers: Seq<i64>, values: Seq<int>) -> bool {
    exists|read: Seq<i64>|
        #![trigger sort_numbers(read)]
        read.map_values(|x: i64| x as int) == values && numbers == sort_numbers(read)
}

impl Card {
    /// Reads the card that the characters `chars` spell. Both lists of
    /// numbers are put in rising order.
    pub fn parse_chars(chars: &Vec<char>) -> (card: Card)
        requires
            is_card_text(chars@),
        ensures
            card.wf(),
            are_sorted(
                card.winners@,
                signed_values(winner_fields(chars@), i64::MIN as int, i64::MAX as int),
            ),
            are_sorted(
                card.owned@,
                signed_values(owned_fields(chars@), i64::MIN as int, i64::MAX as int),
            ),
    {
        let pieces = split_char(chars, ':');
        proof {
            assert(views(pieces@)[1] == pieces@[1]@);
        }
        let halves = split_char(&pieces[1], '|');
        proof {
            assert(views(halves@)[0] == halves@[0]@);
            assert(views(halves@)[1] == halves@[1]@);
        }
        let first = split_fields(&halves[0]);
        let second = split_fields(&halves[1]);
        let winners = match parse_all_i64(&first) {
            Some(v) => v,
            None => Vec::new(),
        };
        let owned = match parse_all_i64(&second) {
            Some(v) => v,
            None => Vec::new(),
        };
        let card = Card { winners: sorted_numbers(&winners), owned: sorted_numbers(&owned) };
        proof {
            assert(card.winners@ == sort_numbers(winners@));
            assert(card.owned@ == sort_numbers(owned@));
            assert forall|i: int, j: int| 0 <= i <= j < card.owned@.len() implies card.owned@[i]
                <= card.owned@[j] by {
                assert(is_rising(card.owned@));
            }
        }
        card
    }

    /// Reads a card.
    pub fn parse(s: &str) -> (card: Card)
        requires
            is_card_text(s@),
        ensures
            card.wf(),
            are_sorted(
                card.winners@,
                signed_values(winner_fields(s@), i64::MIN as int, i64::MAX as int),
            ),
            are_sorted(
                card.owned@,
                signed_values(owned_fields(s@), i64::MIN as int, i64::MAX as int),
            ),
    {
        let chars = to_chars(s);
        Card::parse_chars(&chars)
    }
}

/// The numbers of copies still owed to the cards to come after a card with
/// `matches` matches of which there are `total`: every of the next
/// `matches` cards gets `total` more.
pub open spec fn owed_after(owed: Seq<int>, matches: int, total: int) -> Seq<int> {
    let rest = if owed.len() > 0 {
        owed.drop_first()
    } else {
        owed
    };
    let wide = if matches > rest.len() {
        matches
    } else {
        rest.len() as int
    };
    Seq::new(
        wide as nat,
        |i: int|
            (if i < rest.len() {
                rest[i]
            } else {
                0
            }) + if i < matches {
                total
            } else {
                0
            },
    )
}

/// How many there are of card number `k`, counted from 0: the card itself
/// and the copies that earlier cards won.
pub open spec fn copies_of(matches: Seq<i64>, k: int) -> int
    decreases k, 1int,
{
    if owed_before(matches, k).len() > 0 {
        1 + owed_before(matches, k)[0]
    } else {
        1
    }
}

/// The numbers of copies owed to card number `k` and to those after it
/// when the cards before it have been counted.
pub open spec fn owed_before(matches: Seq<i64>, k: int) -> Seq<int>
    decreases k, 0int,
{
    if k <= 0 {
        Seq::empty()
    } else {
        owed_after(owed_before(matches, k - 1), matches[k - 1] as int, copies_of(matches, k - 1))
    }
}

/// The number of all cards among the first `k`, copies counted.
pub open spec fn cards_total(matches: Seq<i64>, k: int) -> int
    decreases k,
{
    if k <= 0 {
        0
    } else {
        cards_total(matches, k - 1) + copies_of(matches, k - 1)
    }
}

/// The points of the first `k` cards together.
pub open spec fn points_total(matches: Seq<i64>, k: int) -> int
    decreases k,
{
    if k <= 0 {
        0
    } else {
        points_total(matches, k - 1) + points_of(matches[k - 1] as int)
    }
}

/// Whether copies can be counted in 64-bit numbers.
pub open spec fn countable(matches: Seq<i64>) -> bool {
    &&& forall|k: int| 0 <= k < matches.len() ==> 0 <= #[trigger] matches[k] <= 62
    &&& forall|k: int| 0 <= k <= matches.len() ==> #[trigger] cards_total(matches, k) <= i64::MAX
    &&& forall|k: int| 0 <= k <= matches.len() ==> #[trigger] points_total(matches, k) <= i64::MAX
    &&& forall|k: int, i: int|
        0 <= k <= matches.len() && 0 <= i < owed_before(matches, k).len() ==> 0
            <= #[trigger] owed_before(matches, k)[i] < i64::MAX
}

/// The points of all cards together, and the number of cards when every
/// card wins a copy of each of as many of the next cards as it has
/// matches. `matches` holds the number of matches of each card.
pub fn count_cards(matches: &Vec<i64>) -> (sums: (i64, i64))
    requires
        countable(matches@),
    ensures
        sums.0 == points_total(matches@, matches@.len() as int),
        sums.1 == cards_total(matches@, matches@.len() as int),
{
    let mut sum_scores: i64 = 0;
    let mut sum_totals: i64 = 0;
    let mut copies: Vec<i64> = Vec::new();
    let mut k: usize = 0;
    while k < matches.len()
        invariant
            k <= matches@.len(),
            countable(matches@),
            sum_scores == points_total(matches@, k as int),
            sum_totals == cards_total(matches@, k as int),
            copies@.map_values(|c: i64| c as int) == owed_before(matches@, k as int),
        decreases matches@.len() - k,
    {
        let m = matches[k];
        let ghost owed = owed_before(matches@, k as int);
        proof {
            assert(0 <= matches@[k as int] <= 62);
            assert(cards_total(matches@, k + 1) <= i64::MAX);
            assert(points_total(matches@, k + 1) <= i64::MAX);
            if owed.len() > 0 {
                assert(copies@.map_values(|c: i64| c as int)[0] == copies@[0]);
                assert(0 <= owed_before(matches@, k as int)[0] < i64::MAX);
            }
            vstd::arithmetic::power2::lemma_pow2_pos((m - 1) as nat);
        }
        let score = calc_points(m);
        let total = 1 + if copies.len() > 0 {
            copies[0]
        } else {
            0
        };
        let ghost next = owed_after(owed, m as int, total as int);
        proof {
            assert(next == owed_before(matches@, k + 1));
        }
        let mut rest: Vec<i64> = Vec::new();
        let mut i: usize = 0;
        let wide: usize = if m as usize + 1 > copies.len() {
            m as usize
        } else {
            copies.len() - 1
        };
        proof {
            assert(copies@.len() == owed.len());
            assert(wide == next.len());
        }
        while i < wide
            invariant
                i <= wide,
                0 <= m <= 62,
                wide == next.len(),
                next == owed_after(owed, m as int, total as int),
                next == owed_before(matches@, k + 1),
                k < matches@.len(),
                countable(matches@),
                copies@.map_values(|c: i64| c as int) == owed,
                rest@.len() == i,
                forall|j: int| 0 <= j < i ==> #[trigger] rest@[j] == next[j],
            decreases wide - i,
        {
            proof {
                assert(0 <= owed_before(matches@, k + 1)[i as int] < i64::MAX);
                if i + 1 < copies@.len() {
                    assert(copies@.map_values(|c: i64| c as int)[i + 1] == copies@[i + 1]);
                    assert(owed.drop_first()[i as int] == owed[i + 1]);
                }
            }
            let old_count = if i + 1 < copies.len() {
                copies[i + 1]
            } else {
                0
            };
            let gain = if i < m as usize {
                total
            } else {
                0
            };
            proof {
                assert(next[i as int] == old_count + gain);
            }
            rest.push(old_count + gain);
            i += 1;
        }
        proof {
            assert(rest@.map_values(|c: i64| c as int) =~= next);
        }
        copies = rest;
        sum_scores += score;
        sum_totals += total;
        k += 1;
    }
    (sum_scores, sum_totals)
}

} // verus!
