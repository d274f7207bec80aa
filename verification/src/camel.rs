//! Hands of five cards: their types, with and without jokers, and the order
//! in which they rank.

use crate::text::{parse_i32, signed_of, to_chars};
use std::cmp::Ordering;
use vstd::prelude::*;

verus! {

/// The types of hands, strongest first.
#[derive(Debug, Clone, Copy, PartialEq, Eq, Structural)]
pub enum HandType {
    FiveKind,
    FourKind,
    FullHouse,
    ThreeKind,
    TwoPair,
    OnePair,
    HighCard,
}

/// The order of two numbers.
pub open spec fn order_of(a: u8, b: u8) -> Ordering {
    if a < b {
        Ordering::Less
    } else if a == b {
        Ordering::Equal
    } else {
        Ordering::Greater
    }
}

/// `first`, unless it is `Equal`: then `rest`.
pub open spec fn or_else(first: Ordering, rest: Ordering) -> Ordering {
    match first {
        Ordering::Equal => rest,
        _ => first,
    }
}

/// The order of two numbers.
pub fn compare(a: u8, b: u8) -> (o: Ordering)
    ensures
        o == order_of(a, b),
{
    if a < b {
        Ordering::Less
    } else if a == b {
        Ordering::Equal
    } else {
        Ordering::Greater
    }
}

impl HandType {
    /// The strength of the type, from 1 for a high card to 7 for five of a
    /// kind.
    pub open spec fn strength(&self) -> u8 {
        match self {
            HandType::FiveKind => 7,
            HandType::FourKind => 6,
            HandType::FullHouse => 5,
            HandType::ThreeKind => 4,
            HandType::TwoPair => 3,
            HandType::OnePair => 2,
            HandType::HighCard => 1,
        }
    }

    /// The strength of the type, from 1 for a high card to 7 for five of a
    /// kind.
    pub fn value(&self) -> (v: u8)
        ensures
            v == self.strength(),
    {
        match &self {
            HandType::FiveKind => 7,
            HandType::FourKind => 6,
            HandType::FullHouse => 5,
            HandType::ThreeKind => 4,
            HandType::TwoPair => 3,
            HandType::OnePair => 2,
            HandType::HighCard => 1,
        }
    }

    /// The order of two types by strength.
    pub fn cmp(&self, other: &HandType) -> (o: Ordering)
        ensures
            o == order_of(self.strength(), other.strength()),
    {
        compare(self.value(), other.value())
    }
}

/// The thirteen cards.
#[derive(PartialEq, Eq, Hash, Debug, Copy, Clone, Structural)]
pub enum Card {
    A,
    K,
    Q,
    J,
    T,
    Nine,
    Eight,
    Seven,
    Six,
    Five,
    Four,
    Three,
    Two,
}

/// The card that the character `c` stands for, if it stands for one.
pub open spec fn card_of(c: char) -> Option<Card> {
    if c == 'A' {
        Some(Card::A)
    } else if c == 'K' {
        Some(Card::K)
    } else if c == 'Q' {
        Some(Card::Q)
    } else if c == 'J' {
        Some(Card::J)
    } else if c == 'T' {
        Some(Card::T)
    } else if c == '9' {
        Some(Card::Nine)
    } else if c == '8' {
        Some(Card::Eight)
    } else if c == '7' {
        Some(Card::Seven)
    } else if c == '6' {
        Some(Card::Six)
    } else if c == '5' {
        Some(Card::Five)
    } else if c == '4' {
        Some(Card::Four)
    } else if c == '3' {
        Some(Card::Three)
    } else if c == '2' {
        Some(Card::Two)
    } else {
        None
    }
}

impl Card {
    /// The card's rank when `J` is a jack.
    pub open spec fn rank(&self) -> u8 {
        match self {
            Card::A => 14,
            Card::K => 13,
            Card::Q => 12,
            Card::J => 11,
            Card::T => 10,
            Card::Nine => 9,
            Card::Eight => 8,
            Card::Seven => 7,
            Card::Six => 6,
            Card::Five => 5,
            Card::Four => 4,
            Card::Three => 3,
            Card::Two => 2,
        }
    }

    /// The card's rank when `J` is a joker, the weakest card.
    pub open spec fn joker_rank(&self) -> u8 {
        match self {
            Card::J => 0,
            _ => self.rank(),
        }
    }

    /// The card that `c` stands for.
    pub fn parse(c: char) -> (card: Card)
        requires
            card_of(c) is Some,
        ensures
            Some(card) == card_of(c),
    {
        if c == 'A' {
            Card::A
        } else if c == 'K' {
            Card::K
        } else if c == 'Q' {
            Card::Q
        } else if c == 'J' {
            Card::J
        } else if c == 'T' {
            Card::T
        } else if c == '9' {
            Card::Nine
        } else if c == '8' {
            Card::Eight
        } else if c == '7' {
            Card::Seven
        } else if c == '6' {
            Card::Six
        } else if c == '5' {
            Card::Five
        } else if c == '4' {
            Card::Four
        } else if c == '3' {
            Card::Three
        } else {
            Card::Two
        }
    }

    /// The card's rank when `J` is a jack.
    pub fn value(&self) -> (v: u8)
        ensures
            v == self.rank(),
    {
        match &self {
            Card::A => 14,
            Card::K => 13,
            Card::Q => 12,
            Card::J => 11,
            Card::T => 10,
            Card::Nine => 9,
            Card::Eight => 8,
            Card::Seven => 7,
            Card::Six => 6,
            Card::Five => 5,
            Card::Four => 4,
            Card::Three => 3,
            Card::Two => 2,
        }
    }

    /// The card's rank when `J` is a joker.
    pub fn value2(&self) -> (v: u8)
        ensures
            v == self.joker_rank(),
    {
        match &self {
            Card::A => 14,
            Card::K => 13,
            Card::Q => 12,
            Card::J => 0,
            Card::T => 10,
            Card::Nine => 9,
            Card::Eight => 8,
            Card::Seven => 7,
            Card::Six => 6,
            Card::Five => 5,
            Card::Four => 4,
            Card::Three => 3,
            Card::Two => 2,
        }
    }

    /// The order of two cards when `J` is a jack.
    pub fn cmp(&self, other: &Card) -> (o: Ordering)
        ensures
            o == order_of(self.rank(), other.rank()),
    {
        compare(self.value(), other.value())
    }

    /// The order of two cards when `J` is a joker.
    pub fn cmp2(&self, other: &Card) -> (o: Ordering)
        ensures
            o == order_of(self.joker_rank(), other.joker_rank()),
    {
        compare(self.value2(), other.value2())
    }
}

/// 1 where the two cards are the same, else 0.
pub open spec fn same(a: Card, b: Card) -> int {
    if a == b {
        1
    } else {
        0
    }
}

/// The number of pairs of places of `cards` that hold the same card.
pub open spec fn equal_pairs(cards: [Card; 5]) -> int {
    same(cards[0], cards[1]) + same(cards[0], cards[2]) + same(cards[0], cards[3]) + same(
        cards[0],
        cards[4],
    ) + same(cards[1], cards[2]) + same(cards[1], cards[3]) + same(cards[1], cards[4]) + same(
        cards[2],
        cards[3],
    ) + same(cards[2], cards[4]) + same(cards[3], cards[4])
}

/// The number of jokers among `cards`.
pub open spec fn jokers(cards: [Card; 5]) -> int {
    same(cards[0], Card::J) + same(cards[1], Card::J) + same(cards[2], Card::J) + same(
        cards[3],
        Card::J,
    ) + same(cards[4], Card::J)
}

/// The type of a hand in which `pairs` pairs of places hold the same card:
/// five of a kind make ten such pairs, four of a kind six, a full house
/// four, three of a kind three, two pairs two, one pair one.
pub open spec fn type_of_pairs(pairs: int) -> HandType {
    if pairs >= 10 {
        HandType::FiveKind
    } else if pairs >= 6 {
        HandType::FourKind
    } else if pairs >= 4 {
        HandType::FullHouse
    } else if pairs >= 3 {
        HandType::ThreeKind
    } else if pairs >= 2 {
        HandType::TwoPair
    } else if pairs >= 1 {
        HandType::OnePair
    } else {
        HandType::HighCard
    }
}

/// The type that a hand of type `plain` with `jokers` jokers counts as,
/// when every joker stands for the card that suits the hand best.
pub open spec fn with_jokers(plain: HandType, jokers: int) -> HandType {
    match plain {
        HandType::FiveKind => HandType::FiveKind,
        HandType::FourKind => if jokers == 1 || jokers == 4 {
            HandType::FiveKind
        } else {
            HandType::FourKind
        },
        HandType::FullHouse => if jokers == 2 || jokers == 3 {
            HandType::FiveKind
        } else {
            HandType::FullHouse
        },
        HandType::ThreeKind => if jokers == 1 || jokers == 3 {
            HandType::FourKind
        } else {
            HandType::ThreeKind
        },
        HandType::TwoPair => if jokers == 1 {
            HandType::FullHouse
        } else if jokers == 2 {
            HandType::FourKind
        } else {
            HandType::TwoPair
        },
        HandType::OnePair => if jokers == 1 || jokers == 2 {
            HandType::ThreeKind
        } else {
            HandType::OnePair
        },
        HandType::HighCard => if jokers == 1 {
            HandType::OnePair
        } else {
            HandType::HighCard
        },
    }
}

/// Five cards and a bid.
#[derive(Debug, Clone, Copy)]
pub struct Hand {
    pub cards: [Card; 5],
    pub bid: i32,
}

/// 1 where the two cards are the same, else 0.
fn count_same(a: Card, b: Card) -> (n: u8)
    ensures
        n == same(a, b),
{
    if a == b {
        1
    } else {
        0
    }
}

impl Hand {
    /// The type of the hand when `J` is a jack.
    pub open spec fn plain_type(&self) -> HandType {
        type_of_pairs(equal_pairs(self.cards))
    }

    /// The type of the hand when `J` is a joker.
    pub open spec fn joker_type(&self) -> HandType {
        with_jokers(self.plain_type(), jokers(self.cards))
    }

    /// The order of two hands when `J` is a jack: by type, then by the
    /// first card in which they differ.
    pub open spec fn plain_order(&self, other: &Hand) -> Ordering {
        or_else(
            order_of(self.plain_type().strength(), other.plain_type().strength()),
            or_else(
                order_of(self.cards[0].rank(), other.cards[0].rank()),
                or_else(
                    order_of(self.cards[1].rank(), other.cards[1].rank()),
                    or_else(
                        order_of(self.cards[2].rank(), other.cards[2].rank()),
                        or_else(
                            order_of(self.cards[3].rank(), other.cards[3].rank()),
                            order_of(self.cards[4].rank(), other.cards[4].rank()),
                        ),
                    ),
                ),
            ),
        )
    }

    /// The order of two hands when `J` is a joker: by type, then by the
    /// first card in which they differ.
    pub open spec fn joker_order(&self, other: &Hand) -> Ordering {
        or_else(
            order_of(self.joker_type().strength(), other.joker_type().strength()),
            or_else(
                order_of(self.cards[0].joker_rank(), other.cards[0].joker_rank()),
                or_else(
                    order_of(self.cards[1].joker_rank(), other.cards[1].joker_rank()),
                    or_else(
                        order_of(self.cards[2].joker_rank(), other.cards[2].joker_rank()),
                        or_else(
                            order_of(self.cards[3].joker_rank(), other.cards[3].joker_rank()),
                            order_of(self.cards[4].joker_rank(), other.cards[4].joker_rank()),
                        ),
                    ),
                ),
            ),
        )
    }

    /// Five aces and no bid.
    pub fn new() -> (hand: Hand)
        ensures
            hand.bid == 0,
            forall|i: int| 0 <= i < 5 ==> hand.cards[i] == Card::A,
    {
        Hand { cards: [Card::A, Card::A, Card::A, Card::A, Card::A], bid: 0 }
    }

    /// The number of pairs of places that hold the same card.
    fn count_pairs(&self) -> (n: u8)
        ensures
            n == equal_pairs(self.cards),
    {
        let c = &self.cards;
        count_same(c[0], c[1]) + count_same(c[0], c[2]) + count_same(c[0], c[3]) + count_same(
            c[0],
            c[4],
        ) + count_same(c[1], c[2]) + count_same(c[1], c[3]) + count_same(c[1], c[4]) + count_same(
            c[2],
            c[3],
        ) + count_same(c[2], c[4]) + count_same(c[3], c[4])
    }

    /// The number of jokers in the hand.
    fn count_jokers(&self) -> (n: u8)
        ensures
            n == jokers(self.cards),
    {
        let c = &self.cards;
        count_same(c[0], Card::J) + count_same(c[1], Card::J) + count_same(c[2], Card::J)
            + count_same(c[3], Card::J) + count_same(c[4], Card::J)
    }

    /// The type of the hand when `J` is a jack.
    pub fn hand_type(&self) -> (t: HandType)
        ensures
            t == self.plain_type(),
    {
        let pairs = self.count_pairs();
        if pairs >= 10 {
            HandType::FiveKind
        } else if pairs >= 6 {
            HandType::FourKind
        } else if pairs >= 4 {
            HandType::FullHouse
        } else if pairs >= 3 {
            HandType::ThreeKind
        } else if pairs >= 2 {
            HandType::TwoPair
        } else if pairs >= 1 {
            HandType::OnePair
        } else {
            HandType::HighCard
        }
    }

    /// The type of the hand when `J` is a joker.
    pub fn hand_type2(&self) -> (t: HandType)
        ensures
            t == self.joker_type(),
    {
        let jokers = self.count_jokers();
        match self.hand_type() {
            HandType::FiveKind => HandType::FiveKind,
            HandType::FourKind => {
                if jokers == 1 || jokers == 4 {
                    HandType::FiveKind
                } else {
                    HandType::FourKind
                }
            },
            HandType::FullHouse => {
                if jokers == 2 || jokers == 3 {
                    HandType::FiveKind
                } else {
                    HandType::FullHouse
                }
            },
            HandType::ThreeKind => {
                if jokers == 1 || jokers == 3 {
                    HandType::FourKind
                } else {
                    HandType::ThreeKind
                }
            },
            HandType::TwoPair => {
                if jokers == 1 {
                    HandType::FullHouse
                } else if jokers == 2 {
                    HandType::FourKind
                } else {
                    HandType::TwoPair
                }
            },
            HandType::OnePair => {
                if jokers == 1 || jokers == 2 {
                    HandType::ThreeKind
                } else {
                    HandType::OnePair
                }
            },
            HandType::HighCard => {
                if jokers == 1 {
                    HandType::OnePair
                } else {
                    HandType::HighCard
                }
            },
        }
    }

    /// The order of two hands when `J` is a jack.
    pub fn cmp(&self, other: &Hand) -> (o: Ordering)
        ensures
            o == self.plain_order(other),
    {
        let by_type = self.hand_type().cmp(&other.hand_type());
        match by_type {
            Ordering::Equal => {},
            _ => {
                return by_type;
            },
        }
        let c0 = self.cards[0].cmp(&other.cards[0]);
        match c0 {
            Ordering::Equal => {},
            _ => {
                return c0;
            },
        }
        let c1 = self.cards[1].cmp(&other.cards[1]);
        match c1 {
            Ordering::Equal => {},
            _ => {
                return c1;
            },
        }
        let c2 = self.cards[2].cmp(&other.cards[2]);
        match c2 {
            Ordering::Equal => {},
            _ => {
                return c2;
            },
        }
        let c3 = self.cards[3].cmp(&other.cards[3]);
        match c3 {
            Ordering::Equal => {},
            _ => {
                return c3;
            },
        }
        self.cards[4].cmp(&other.cards[4])
    }

    /// The order of two hands when `J` is a joker.
    pub fn cmp2(&self, other: &Hand) -> (o: Ordering)
        ensures
            o == self.joker_order(other),
    {
        let by_type = self.hand_type2().cmp(&other.hand_type2());
        match by_type {
            Ordering::Equal => {},
            _ => {
                return by_type;
            },
        }
        let c0 = self.cards[0].cmp2(&other.cards[0]);
        match c0 {
            Ordering::Equal => {},
            _ => {
                return c0;
            },
        }
        let c1 = self.cards[1].cmp2(&other.cards[1]);
        match c1 {
            Ordering::Equal => {},
            _ => {
                return c1;
            },
        }
        let c2 = self.cards[2].cmp2(&other.cards[2]);
        match c2 {
            Ordering::Equal => {},
            _ => {
                return c2;
            },
        }
        let c3 = self.cards[3].cmp2(&other.cards[3]);
        match c3 {
            Ordering::Equal => {},
            _ => {
                return c3;
            },
        }
        self.cards[4].cmp2(&other.cards[4])
    }
}

/// Whether `cards` and `bid` read as a hand: at most five characters that
/// stand for cards, and a number.
pub open spec fn is_hand_text(cards: Seq<char>, bid: Seq<char>) -> bool {
    &&& cards.len() <= 5
    &&& forall|i: int| 0 <= i < cards.len() ==> card_of(#[trigger] cards[i]) is Some
    &&& signed_of(bid, -0x8000_0000, 0x7fff_ffff) is Some
}

impl Hand {
    /// Reads a hand. Where `cards_str` has fewer than five characters, the
    /// cards that are missing are aces.
    pub fn parse(cards_str: &str, bid_str: &str) -> (hand: Hand)
        requires
            is_hand_text(cards_str@, bid_str@),
        ensures
            forall|i: int|
                0 <= i < 5 ==> #[trigger] hand.cards[i] == if i < cards_str@.len() {
                    card_of(cards_str@[i]).unwrap()
                } else {
                    Card::A
                },
            signed_of(bid_str@, -0x8000_0000, 0x7fff_ffff) == Some(hand.bid + 0),
    {
        let mut hand = Hand::new();
        let chars = to_chars(cards_str);
        let mut i: usize = 0;
        while i < chars.len()
            invariant
                i <= chars@.len() <= 5,
                chars@ == cards_str@,
                is_hand_text(cards_str@, bid_str@),
                hand.bid == 0,
                forall|k: int|
                    0 <= k < 5 ==> #[trigger] hand.cards[k] == if k < i {
                        card_of(cards_str@[k]).unwrap()
                    } else {
                        Card::A
                    },
            decreases chars@.len() - i,
        {
            proof {
                assert(card_of(cards_str@[i as int]) is Some);
            }
            let card = Card::parse(chars[i]);
            hand.cards[i] = card;
            i += 1;
        }
        let bid_chars = to_chars(bid_str);
        hand.bid = match parse_i32(&bid_chars) {
            Some(v) => v,
            None => 0,
        };
        hand
    }
}

impl Hand {
    /// Whether `self` ranks above `other`, with `J` as a joker or as a
    /// jack.
    pub open spec fn beats(&self, other: &Hand, jokers: bool) -> bool {
        if jokers {
            self.joker_order(other) is Greater
        } else {
            self.plain_order(other) is Greater
        }
    }

    /// Whether `self` ranks above `other`, with `J` as a joker or as a
    /// jack.
    pub fn outranks(&self, other: &Hand, jokers: bool) -> (above: bool)
        ensures
            above == self.beats(other, jokers),
    {
        let order = if jokers {
            self.cmp2(other)
        } else {
            self.cmp(other)
        };
        match order {
            Ordering::Greater => true,
            _ => false,
        }
    }
}

} // verus!
