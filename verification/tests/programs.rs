use advent_puzzles::almanac::Almanac;
use advent_puzzles::beams::{Beam, Contraption, Direction, Space};
use advent_puzzles::camel::Hand;
use advent_puzzles::heat::grid::{HeatMatrix, Point};
use advent_puzzles::lenses::{empty_boxes, focusing_power, initialize, install};
use advent_puzzles::mirrors::{split_patterns, summarize};
use advent_puzzles::network::{
    check_network, count_steps, find_node, parse_node_id, read_network, sorted_nodes, Direction as Turn,
};
use advent_puzzles::platform::{settle, Platform, Rock, Side};
use advent_puzzles::schematic::{gear_ratio_sum, mark_parts, read_schematic};
use advent_puzzles::scratchcards::count_cards;
use advent_puzzles::text::to_chars;
use advent_puzzles::winnings::{rank_hands, total_winnings};

#[test]
fn lens_boxes_example() {
    let (sum, boxes) = initialize("rn=1,cm-,qp=3,cm=2,qp-,pc=4,ot=9,ab=5,pc-,pc=6,ot=7");
    assert_eq!(sum, 1320);
    assert_eq!(boxes.len(), 256);
    assert_eq!(boxes[0].lenses.len(), 2);
    assert_eq!(boxes[0].lenses[0].label, to_chars("rn"));
    assert_eq!(boxes[0].lenses[1].label, to_chars("cm"));
    assert_eq!(boxes[0].lenses[1].focal_length, 2);
    assert_eq!(boxes[3].lenses.len(), 3);
    assert_eq!(boxes[3].lenses[0].focal_length, 7);
    assert_eq!(boxes[3].lenses[2].label, to_chars("pc"));
    assert_eq!(focusing_power(&boxes), 145);
}

#[test]
fn lens_steps_one_by_one() {
    let mut boxes = empty_boxes();
    assert_eq!(focusing_power(&boxes), 0);
    install(&mut boxes, &to_chars("rn=1"));
    install(&mut boxes, &to_chars("cm=5"));
    install(&mut boxes, &to_chars("rn=9"));
    assert_eq!(boxes[0].lenses.len(), 2);
    assert_eq!(boxes[0].lenses[0].focal_length, 9);
    assert!(boxes[0].holds_label(&to_chars("cm")));
    install(&mut boxes, &to_chars("rn-"));
    assert_eq!(boxes[0].lenses.len(), 1);
    assert_eq!(boxes[0].lenses[0].label, to_chars("cm"));
    install(&mut boxes, &to_chars("zz-"));
    assert_eq!(focusing_power(&boxes), 5);
    install(&mut boxes, &to_chars("qp=-3"));
    assert_eq!(boxes[1].lenses[0].focal_length, -3);
    assert_eq!(focusing_power(&boxes), 5 - 6);
}

#[test]
fn scratch_cards_win_copies() {
    assert_eq!(count_cards(&vec![4, 2, 2, 1, 0, 0]), (13, 30));
    assert_eq!(count_cards(&vec![]), (0, 0));
    assert_eq!(count_cards(&vec![0, 0]), (0, 2));
    // Copies are owed beyond the last card as well, and never paid.
    assert_eq!(count_cards(&vec![3]), (4, 1));
    assert_eq!(count_cards(&vec![1, 1, 1]), (3, 1 + 2 + 3));
}

fn hands() -> Vec<Hand> {
    vec![
        Hand::parse("32T3K", "765"),
        Hand::parse("T55J5", "684"),
        Hand::parse("KK677", "28"),
        Hand::parse("KTJJT", "220"),
        Hand::parse("QQQJA", "483"),
    ]
}

#[test]
fn camel_winnings_example() {
    assert_eq!(total_winnings(&hands(), false), 6440);
    assert_eq!(total_winnings(&hands(), true), 5905);
    let bids: Vec<i32> = rank_hands(&hands(), false).iter().map(|h| h.bid).collect();
    assert_eq!(bids, vec![765, 220, 28, 684, 483]);
    let bids: Vec<i32> = rank_hands(&hands(), true).iter().map(|h| h.bid).collect();
    assert_eq!(bids, vec![765, 28, 684, 483, 220]);
    assert_eq!(total_winnings(&vec![], true), 0);
    // Hands of the same rank stay in their order.
    let twins = vec![Hand::parse("22222", "10"), Hand::parse("22222", "1")];
    assert_eq!(total_winnings(&twins, false), 10 + 2);
}

const PATTERNS: &str = "#.##..##.\n..#.##.#.\n##......#\n##......#\n..#.##.#.\n..##..##.\n#.#.##.#.\n\n#...##..#\n#....#..#\n..##..###\n#####.##.\n#####.##.\n..##..###\n#....#..#\n";

#[test]
fn mirror_example() {
    let patterns = split_patterns(PATTERNS);
    assert_eq!(patterns.len(), 2);
    assert_eq!(summarize(&patterns[0]), (5, 300));
    assert_eq!(summarize(&patterns[1]), (400, 100));
    let single = split_patterns("ab");
    assert_eq!(summarize(&single[0]), (0, 1));
    assert_eq!(summarize(&split_patterns("a")[0]), (0, 0));
    let pair = split_patterns("aa\nab\n");
    assert_eq!(summarize(&pair[0]), (0, 1 + 100));
    let groups = split_patterns("a\n\n\nb\n");
    assert_eq!(groups.len(), 3);
    assert!(groups[1].is_empty());
}

const ENGINE: &str = "467..114..\n...*......\n..35..633.\n......#...\n617*......\n.....+.58.\n..592.....\n......755.\n...$.*....\n.664.598..\n";

#[test]
fn schematic_example() {
    let (mut numbers, symbols) = read_schematic(ENGINE);
    assert_eq!(numbers.len(), 10);
    assert_eq!(symbols.len(), 6);
    assert_eq!((numbers[1].number, numbers[1].l, numbers[1].x, numbers[1].y), (114, 0, 5, 7));
    assert_eq!(gear_ratio_sum(&numbers, &symbols), 467835);
    assert_eq!(mark_parts(&mut numbers, &symbols), 4361);
    assert!(numbers[0].marked);
    assert!(!numbers[1].marked);
    assert!(!numbers[5].marked);
}

#[test]
fn schematic_edges() {
    // A symbol in the first line, numbers at both ends of a line.
    let (mut numbers, symbols) = read_schematic("*12.34\n56...*\n");
    assert_eq!(numbers.len(), 3);
    assert_eq!(gear_ratio_sum(&numbers, &symbols), 12 * 56);
    assert_eq!(mark_parts(&mut numbers, &symbols), 12 + 56 + 34);
    let (mut lone, none) = read_schematic("12");
    assert_eq!(mark_parts(&mut lone, &none), 0);
    assert_eq!(lone[0].y, 1);
}

const ALMANAC: &str = "seeds: 79 14 55 13\n\nseed-to-soil map:\n50 98 2\n52 50 48\n\nsoil-to-fertilizer map:\n0 15 37\n37 52 2\n39 0 15\n\nfertilizer-to-water map:\n49 53 8\n0 11 42\n42 0 7\n57 7 4\n\nwater-to-light map:\n88 18 7\n18 25 70\n\nlight-to-temperature map:\n45 77 23\n81 45 19\n68 64 13\n\ntemperature-to-humidity map:\n0 69 1\n1 0 69\n\nhumidity-to-location map:\n60 56 37\n56 93 4\n";

#[test]
fn almanac_is_read_and_followed() {
    let almanac = Almanac::parse(ALMANAC);
    assert_eq!(almanac.start_values, vec![79, 14, 55, 13]);
    assert_eq!(almanac.maps.len(), 7);
    assert_eq!(almanac.maps[2].ranges.len(), 4);
    assert_eq!(almanac.maps[6].ranges[1].dest_range_start, 56);
    assert_eq!(almanac.maps[6].ranges[1].source_range_start, 93);
    assert_eq!(almanac.maps[6].ranges[1].range_length, 4);
    // 14 and 13 meet the last number of a rule, which is not sent.
    assert_eq!(almanac.lowest_destination(), 4);
    assert_eq!(almanac.lowest_range_start(), Some(46));
    assert_eq!(Almanac::new(vec![]).lowest_range_start(), None);
}

#[test]
fn network_is_read_ordered_and_checked() {
    let (turns, nodes) = read_network("LLR\n\nBBB = (AAA, ZZZ)\nAAA = (BBB, BBB)\nZZZ = (ZZZ, ZZZ)\n");
    assert_eq!(turns, vec![Turn::Left, Turn::Left, Turn::Right]);
    assert_eq!(nodes.len(), 3);
    assert_eq!(nodes[0].current, parse_node_id("BBB"));
    assert!(!check_network(&nodes));
    let nodes = sorted_nodes(&nodes);
    assert_eq!(nodes[0].current, parse_node_id("AAA"));
    assert!(check_network(&nodes));
    let start = find_node(&nodes, parse_node_id("AAA")).unwrap();
    assert_eq!(count_steps(&nodes, &turns, start, Some(parse_node_id("ZZZ")), 9), Some(6));
    let (_, open) = read_network("L\n\nAAA = (BBB, AAA)\n");
    assert!(!check_network(&open));
    let (_, twice) = read_network("L\n\nAAA = (AAA, AAA)\nAAA = (AAA, AAA)\n");
    assert!(!check_network(&sorted_nodes(&twice)));
}

const ROCKS: &str = "O....#....\nO.OO#....#\n.....##...\nOO.#O....O\n.O.....O#.\nO.#..O.#.#\n..O..#O..O\n.......O..\n#....###..\n#OO..#....\n";

#[test]
fn platform_example() {
    let platform = Platform::parse(ROCKS);
    assert_eq!(platform.total_load(), 104);
    let mut north = platform.copy();
    north.tilt(Side::North);
    assert_eq!(north.total_load(), 136);
    let mut once = platform.copy();
    once.spin();
    assert!(once.same_as(&Platform::parse(".....#....\n....#...O#\n...OO##...\n.OO#......\n.....OOO#.\n.O#...O#.#\n....O#....\n......OOOO\n#...O###..\n#..OO#....\n")));
    assert!(platform.after(1).same_as(&once));
    assert!(platform.after(0).same_as(&platform));
    assert_eq!(platform.after(3).total_load(), 69);
    assert_eq!(platform.after(1000000000).total_load(), 64);
}

#[test]
fn rocks_roll_to_the_front() {
    let (c, e, r) = (Rock::Cube, Rock::Empty, Rock::Round);
    assert_eq!(settle(&vec![e, r, e, r]), vec![r, r, e, e]);
    assert_eq!(
        settle(&vec![e, r, c, e, c, c, e, r]),
        vec![r, e, c, e, c, c, r, e]
    );
    assert!(settle(&vec![]).is_empty());
    let mut p = Platform { rocks: vec![vec![e, r], vec![r, e]] };
    p.tilt(Side::East);
    assert_eq!(p.rocks, vec![vec![e, r], vec![e, r]]);
    p.tilt(Side::South);
    assert_eq!(p.rocks, vec![vec![e, r], vec![e, r]]);
    p.tilt(Side::West);
    assert_eq!(p.rocks, vec![vec![r, e], vec![r, e]]);
    assert_eq!(p.total_load(), 3);
}

const MIRRORS: &str = ".|...\\....\n|.-.\\.....\n.....|-...\n........|.\n..........\n.........\\\n..../.\\\\..\n.-.-/..|..\n.|....-|.\\\n..//.|....\n";

#[test]
fn best_beam_from_the_edge() {
    let mut c = Contraption::parse(MIRRORS);
    assert_eq!((c.w, c.h), (10, 10));
    assert_eq!(c.tiles[1].space, Space::Vertical);
    assert_eq!(c.tiles[5].space, Space::LeanLeft);
    assert_eq!(c.energized(Beam { x: 0, y: 0, d: Direction::East }), 46);
    assert_eq!(c.max_energized(), 51);
    let mut one = Contraption::parse(".\n");
    assert_eq!(one.max_energized(), 1);
}

#[test]
fn straight_runs_from_a_block() {
    let g = HeatMatrix::parse("12345\n67890\n").unwrap();
    let p = Point::new(1, 0);
    let east = g.generate_short_paths(p, Point::new(1, 0), 3);
    assert_eq!(east.len(), 3);
    assert_eq!(east[0], vec![p, Point::new(2, 0)]);
    assert_eq!(east[2], vec![p, Point::new(2, 0), Point::new(3, 0), Point::new(4, 0)]);
    assert_eq!(g.generate_short_paths(p, Point::new(1, 0), 2).len(), 2);
    assert_eq!(g.generate_short_paths(p, Point::new(-1, 0), 3), vec![vec![p, Point::new(0, 0)]]);
    assert!(g.generate_short_paths(p, Point::new(0, -1), 3).is_empty());
    assert!(g.generate_short_paths(p, Point::new(1, 0), 0).is_empty());
    let all = g.generate_next_paths(p, &None, 3);
    assert_eq!(all.len(), 3 + 1 + 1 + 0);
    assert_eq!(all[4], vec![p, Point::new(1, 1)]);
    // After a step to the east the crucible turns south or north.
    let turned = g.generate_next_paths(p, &Some(vec![p, Point::new(0, 0)]), 3);
    assert_eq!(turned, vec![vec![p, Point::new(1, 1)]]);
}

#[test]
fn lenses_are_told_apart_by_their_labels() {
    let a = advent_puzzles::lenses::Lens { label: to_chars("rn"), focal_length: 1 };
    let b = advent_puzzles::lenses::Lens { label: to_chars("rn"), focal_length: 9 };
    let c = advent_puzzles::lenses::Lens { label: to_chars("cm"), focal_length: 1 };
    assert!(a.same_label(&b));
    assert!(!a.same_label(&c));
}
