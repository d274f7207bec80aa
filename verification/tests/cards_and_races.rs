use advent_puzzles::camel::{Card, Hand, HandType};
use advent_puzzles::history::History;
use advent_puzzles::lenses::hash;
use advent_puzzles::network::{
    checked_lcm, count_steps, find_node, lcm_all, parse_node_id, Direction, Node, NodeType,
};
use advent_puzzles::races::Race;
use advent_puzzles::scratchcards;
use std::cmp::Ordering;

#[test]
fn scratch_card_example() {
    let card = scratchcards::Card::parse("Card 1: 41 48 83 86 17 | 83 86  6 31 17  9 48 53");
    assert_eq!(card.winners, vec![17, 41, 48, 83, 86]);
    assert_eq!(card.owned, vec![6, 9, 17, 31, 48, 53, 83, 86]);
    assert_eq!(card.matches(), 4);
    assert_eq!(scratchcards::calc_points(card.matches()), 8);
    let none = scratchcards::Card::parse("Card 5: 87 83 26 28 32 | 88 30 70 12 93 22 82 36");
    assert_eq!(none.matches(), 0);
    assert_eq!(scratchcards::Card::new().matches(), 0);
}

#[test]
fn scratch_card_points() {
    assert_eq!(scratchcards::calc_points(-3), 0);
    assert_eq!(scratchcards::calc_points(0), 0);
    assert_eq!(scratchcards::calc_points(1), 1);
    assert_eq!(scratchcards::calc_points(2), 2);
    assert_eq!(scratchcards::calc_points(10), 512);
    assert_eq!(scratchcards::calc_points(63), 1 << 62);
    assert!(scratchcards::find_sorted(&vec![1, 3, 5], 3));
    assert!(!scratchcards::find_sorted(&vec![1, 3, 5], 4));
    assert!(!scratchcards::find_sorted(&vec![], 4));
}

#[test]
fn race_examples() {
    assert_eq!(Race { duration: 7, record: 9 }.exceeding_button_times(), 4);
    assert_eq!(Race { duration: 15, record: 40 }.exceeding_button_times(), 8);
    assert_eq!(Race { duration: 30, record: 200 }.exceeding_button_times(), 9);
    assert_eq!(Race { duration: 71530, record: 940200 }.exceeding_button_times(), 71503);
    assert_eq!(Race { duration: -5, record: 0 }.exceeding_button_times(), 0);
    let race = Race { duration: 7, record: 9 };
    assert!(!race.is_exceeding_button_time(1));
    assert!(race.is_exceeding_button_time(2));
    assert!(race.is_exceeding_button_time(5));
    assert!(!race.is_exceeding_button_time(6));
    assert!(!race.is_exceeding_button_time(-1));
    assert!(!race.is_exceeding_button_time(8));
    let long = Race { duration: i64::MAX - 2, record: i64::MAX };
    assert!(long.is_exceeding_button_time(4_000_000_000));
}

#[test]
fn races_are_read_from_two_lists() {
    let races = Race::parse_multiple("  7  15   30", " 9  40  200 1000");
    assert_eq!(
        races,
        vec![
            Race { duration: 7, record: 9 },
            Race { duration: 15, record: 40 },
            Race { duration: 30, record: 200 }
        ]
    );
    assert_eq!(Race::parse_single("  7  15   30", " 9  40  200"), Race { duration: 71530, record: 940200 });
    assert_eq!(Race::parse_single("7 15 30", "9 40"), Race { duration: 715, record: 940 });
}

fn hand(cards: &str, bid: &str) -> Hand {
    Hand::parse(cards, bid)
}

#[test]
fn hand_types() {
    assert_eq!(hand("AAAAA", "1").hand_type(), HandType::FiveKind);
    assert_eq!(hand("AA8AA", "1").hand_type(), HandType::FourKind);
    assert_eq!(hand("23332", "1").hand_type(), HandType::FullHouse);
    assert_eq!(hand("TTT98", "1").hand_type(), HandType::ThreeKind);
    assert_eq!(hand("23432", "1").hand_type(), HandType::TwoPair);
    assert_eq!(hand("A23A4", "1").hand_type(), HandType::OnePair);
    assert_eq!(hand("23456", "1").hand_type(), HandType::HighCard);
    assert_eq!(HandType::FiveKind.value(), 7);
    assert_eq!(HandType::HighCard.value(), 1);
    assert_eq!(HandType::TwoPair.cmp(&HandType::OnePair), Ordering::Greater);
}

#[test]
fn hand_types_with_jokers() {
    assert_eq!(hand("32T3K", "1").hand_type2(), HandType::OnePair);
    assert_eq!(hand("KK677", "1").hand_type2(), HandType::TwoPair);
    assert_eq!(hand("T55J5", "1").hand_type2(), HandType::FourKind);
    assert_eq!(hand("KTJJT", "1").hand_type2(), HandType::FourKind);
    assert_eq!(hand("QQQJA", "1").hand_type2(), HandType::FourKind);
    assert_eq!(hand("JJJJJ", "1").hand_type2(), HandType::FiveKind);
    assert_eq!(hand("JJJJ2", "1").hand_type2(), HandType::FiveKind);
    assert_eq!(hand("JJ222", "1").hand_type2(), HandType::FiveKind);
    assert_eq!(hand("2233J", "1").hand_type2(), HandType::FullHouse);
    assert_eq!(hand("2345J", "1").hand_type2(), HandType::OnePair);
    assert_eq!(hand("234JJ", "1").hand_type2(), HandType::ThreeKind);
    assert_eq!(hand("23456", "1").hand_type2(), HandType::HighCard);
}

#[test]
fn hands_are_ordered() {
    assert_eq!(hand("33332", "1").cmp(&hand("2AAAA", "1")), Ordering::Greater);
    assert_eq!(hand("77888", "1").cmp(&hand("77788", "1")), Ordering::Greater);
    assert_eq!(hand("KK677", "1").cmp(&hand("KTJJT", "1")), Ordering::Greater);
    assert_eq!(hand("KK677", "1").cmp2(&hand("KTJJT", "1")), Ordering::Less);
    assert_eq!(hand("JKKK2", "1").cmp2(&hand("QQQQ2", "1")), Ordering::Less);
    assert_eq!(hand("JKKK2", "1").cmp(&hand("QQQQ2", "1")), Ordering::Less);
    assert_eq!(hand("23456", "9").cmp(&hand("23456", "1")), Ordering::Equal);
    assert_eq!(Card::J.cmp(&Card::T), Ordering::Greater);
    assert_eq!(Card::J.cmp2(&Card::Two), Ordering::Less);
    assert_eq!(Card::A.value(), 14);
    assert_eq!(Card::J.value(), 11);
    assert_eq!(Card::J.value2(), 0);
    assert_eq!(Card::parse('7'), Card::Seven);
}

#[test]
fn hands_are_read() {
    let h = hand("32T3K", "765");
    assert_eq!(h.cards, [Card::Three, Card::Two, Card::T, Card::Three, Card::K]);
    assert_eq!(h.bid, 765);
    let short = hand("Q2", "-4");
    assert_eq!(short.cards, [Card::Q, Card::Two, Card::A, Card::A, Card::A]);
    assert_eq!(short.bid, -4);
    let new = Hand::new();
    assert_eq!(new.cards, [Card::A; 5]);
    assert_eq!(new.bid, 0);
}

#[test]
fn histories_are_continued() {
    assert_eq!(History::parse("0 3 6 9 12 15").predict(), (-3, 18));
    assert_eq!(History::parse("1 3 6 10 15 21").predict(), (0, 28));
    assert_eq!(History::parse("10  13 16 21 30 45").predict(), (5, 68));
    assert_eq!(History::parse("0 0").predict(), (0, 0));
    assert_eq!(History::parse("4 4").predict(), (4, 4));
    let h = History::parse("3 -1 4");
    assert_eq!(h.values, vec![3, -1, 4]);
    assert_eq!(h.differences().values, vec![-4, 5]);
    assert!(!h.is_zero());
    assert!(History { values: vec![] }.is_zero());
    assert!(History { values: vec![0, 0] }.is_zero());
}

#[test]
fn hash_example() {
    assert_eq!(hash("HASH"), 52);
    assert_eq!(hash("rn=1"), 30);
    assert_eq!(hash("cm-"), 253);
    assert_eq!(hash("rn"), 0);
    assert_eq!(hash("qp"), 1);
    assert_eq!(hash(""), 0);
}

fn id(name: &str) -> u64 {
    parse_node_id(name)
}

fn network(lines: &[(&str, &str, &str)]) -> Vec<Node> {
    let mut nodes: Vec<Node> = lines.iter().map(|(c, l, r)| Node::parse(c, l, r)).collect();
    nodes.sort_by(|a, b| a.current.cmp(&b.current));
    nodes
}

#[test]
fn node_numbers() {
    assert_eq!(id("000"), 0);
    assert_eq!(id("001"), 1);
    assert_eq!(id("010"), 62);
    assert_eq!(id("AAA"), 17 * 62 * 62 + 17 * 62 + 17);
    assert_eq!(id("ZZZ"), 42 * 62 * 62 + 42 * 62 + 42);
    let node = Node::parse("11A", "11B", "XXX");
    assert_eq!(node.node_type, NodeType::First);
    assert_eq!(node.current, id("11A"));
    assert_eq!(node.left, id("11B"));
    assert_eq!(node.right, id("XXX"));
    assert_eq!(Node::parse("11Z", "11B", "XXX").node_type, NodeType::Last);
    assert_eq!(Node::parse("11B", "11B", "XXX").node_type, NodeType::Normal);
}

#[test]
fn walks_through_the_network() {
    let nodes = network(&[("AAA", "BBB", "BBB"), ("BBB", "AAA", "ZZZ"), ("ZZZ", "ZZZ", "ZZZ")]);
    let turns = vec![Direction::Left, Direction::Left, Direction::Right];
    let start = find_node(&nodes, id("AAA")).unwrap();
    assert_eq!(count_steps(&nodes, &turns, start, Some(id("ZZZ")), 100), Some(6));
    assert_eq!(count_steps(&nodes, &turns, start, Some(id("ZZZ")), 6), Some(6));
    assert_eq!(count_steps(&nodes, &turns, start, Some(id("ZZZ")), 5), None);
    assert_eq!(count_steps(&nodes, &turns, start, Some(id("AAA")), 5), Some(0));
    assert_eq!(count_steps(&nodes, &turns, start, None, 100), Some(6));
    assert_eq!(find_node(&nodes, id("CCC")), None);
}

#[test]
fn ghost_walks_meet_at_the_least_common_multiple() {
    let nodes = network(&[
        ("11A", "11B", "XXX"),
        ("11B", "XXX", "11Z"),
        ("11Z", "11B", "XXX"),
        ("22A", "22B", "XXX"),
        ("22B", "22C", "22C"),
        ("22C", "22Z", "22Z"),
        ("22Z", "22B", "22B"),
        ("XXX", "XXX", "XXX"),
    ]);
    let turns = vec![Direction::Left, Direction::Right];
    let mut steps = vec![];
    for (i, node) in nodes.iter().enumerate() {
        if node.node_type == NodeType::First {
            steps.push(count_steps(&nodes, &turns, i, None, 1000).unwrap());
        }
    }
    steps.sort();
    assert_eq!(steps, vec![2, 3]);
    assert_eq!(lcm_all(&steps), Some(6));
}

#[test]
fn least_common_multiples() {
    assert_eq!(checked_lcm(4, 6), Some(12));
    assert_eq!(checked_lcm(7, 3), Some(21));
    assert_eq!(checked_lcm(0, 0), Some(0));
    assert_eq!(checked_lcm(0, 5), Some(0));
    assert_eq!(checked_lcm(5, 0), Some(0));
    assert_eq!(checked_lcm(u64::MAX, u64::MAX), Some(u64::MAX));
    assert_eq!(checked_lcm(u64::MAX, 2), None);
    assert_eq!(checked_lcm(1 << 40, 3 << 30), Some(3 << 40));
    assert_eq!(lcm_all(&vec![]), Some(1));
    assert_eq!(lcm_all(&vec![2, 3, 4, 5]), Some(60));
    assert_eq!(lcm_all(&vec![1 << 40, (1 << 40) + 1, 3]), None);
    assert_eq!(lcm_all(&vec![12, 0, 5]), Some(0));
}
