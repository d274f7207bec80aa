use advent_puzzles::almanac::{Almanac, Range, RangeMap, SimpleRange};
use advent_puzzles::beams::{Beam, Contraption, Direction, Space, Tile};
use advent_puzzles::galaxies::{Data, Image, Point};
use advent_puzzles::pipes;
use advent_puzzles::springs::{Document, Record, Spring};

fn contraption(text: &str) -> Contraption {
    let mut tiles = vec![];
    let mut h = 0;
    for line in text.lines() {
        h += 1;
        for c in line.chars() {
            tiles.push(Tile::new(match c {
                '.' => Space::Empty,
                '/' => Space::LeanRight,
                '\\' => Space::LeanLeft,
                '|' => Space::Vertical,
                '-' => Space::Horizontal,
                _ => panic!("no space"),
            }));
        }
    }
    let w = tiles.len() as i32 / h;
    Contraption { w, h, tiles }
}

const MIRRORS: &str = ".|...\\....\n|.-.\\.....\n.....|-...\n........|.\n..........\n.........\\\n..../.\\\\..\n.-.-/..|..\n.|....-|.\\\n..//.|....\n";

#[test]
fn beam_example_energizes_46_tiles() {
    let mut c = contraption(MIRRORS);
    assert_eq!(c.energized(Beam { x: 0, y: 0, d: Direction::East }), 46);
    assert_eq!(c.energized(Beam { x: 3, y: 0, d: Direction::South }), 51);
    assert_eq!(c.energized(Beam { x: 0, y: 0, d: Direction::East }), 46);
    assert_eq!(c.energized(Beam { x: -1, y: 0, d: Direction::East }), 0);
}

#[test]
fn beams_turn_split_and_stop() {
    let mut c = contraption("./\n..\n");
    assert_eq!(c.energized(Beam { x: 0, y: 0, d: Direction::East }), 2);
    assert!(c.tiles[1].east);
    assert!(!c.tiles[1].north);
    let mut split = contraption("...\n.-.\n...\n");
    assert_eq!(split.energized(Beam { x: 1, y: 0, d: Direction::South }), 4);
    assert_eq!(split.energized(Beam { x: 0, y: 1, d: Direction::East }), 3);
    let mut ring = contraption("/-\\\n|.|\n\\-/\n");
    assert_eq!(ring.energized(Beam { x: 1, y: 0, d: Direction::East }), 8);
    let mut tile = Tile::new(Space::Vertical);
    assert!(!tile.energized());
    tile.west = true;
    assert!(tile.energized());
    tile.reset();
    assert!(!tile.energized());
    assert_eq!(tile.space, Space::Vertical);
    c.get_mut(1, 1).south = true;
    assert!(c.tiles[3].south);
    c.reset();
    assert!(!c.tiles[3].south);
}

fn record(springs: &str, groups: &[i64]) -> Record {
    Record { springs: springs.chars().map(Spring::parse).collect(), groups: groups.to_vec() }
}

#[test]
fn spring_arrangements() {
    assert_eq!(record("???.###", &[1, 1, 3]).arrangements(), 1);
    assert_eq!(record(".??..??...?##.", &[1, 1, 3]).arrangements(), 4);
    assert_eq!(record("?#?#?#?#?#?#?#?", &[1, 3, 1, 6]).arrangements(), 1);
    assert_eq!(record("????.#...#...", &[4, 1, 1]).arrangements(), 1);
    assert_eq!(record("????.######..#####.", &[1, 6, 5]).arrangements(), 4);
    assert_eq!(record("?###????????", &[3, 2, 1]).arrangements(), 10);
    assert_eq!(record("", &[]).arrangements(), 1);
    assert_eq!(record("...", &[]).arrangements(), 1);
    assert_eq!(record(".#.", &[]).arrangements(), 0);
    assert_eq!(record("", &[1]).arrangements(), 0);
    assert_eq!(record("??", &[3]).arrangements(), 0);
    assert_eq!(record("??", &[0]).arrangements(), 0);
}

#[test]
fn spring_records_unfold() {
    let mut r = Record::parse(".# 1");
    r.unfold();
    assert_eq!(r.springs.len(), 2 * 5 + 4);
    assert_eq!(r.springs[2], Spring::Unknown);
    assert_eq!(r.springs[3], Spring::Operational);
    assert_eq!(r.springs[13], Spring::Damaged);
    assert_eq!(r.groups, vec![1, 1, 1, 1, 1]);
    assert_eq!(r.arrangements(), 1);
    let mut long = Record::parse("?###???????? 3,2,1");
    long.unfold();
    assert_eq!(long.arrangements(), 506250);
}

#[test]
fn spring_document() {
    let text = "???.### 1,1,3\n.??..??...?##. 1,1,3\n?#?#?#?#?#?#?#? 1,3,1,6\n????.#...#... 4,1,1\n????.######..#####. 1,6,5\n?###???????? 3,2,1\n";
    let mut document = Document::parse(text);
    assert_eq!(document.records.len(), 6);
    assert_eq!(document.records[3].groups, vec![4, 1, 1]);
    assert_eq!(document.arrangements_sum(), 21);
    document.unfold();
    assert_eq!(document.arrangements_sum(), 525152);
}

const SKY: &str = "...#......\n.......#..\n#.........\n..........\n......#...\n.#........\n.........#\n..........\n.......#..\n#...#.....\n";

#[test]
fn galaxies_example() {
    let image = Image::parse(SKY);
    assert_eq!(image.width, 10);
    assert_eq!(image.height, 10);
    assert_eq!(image.get_data(Point { x: 3, y: 0 }), Data::Galaxy);
    assert_eq!(image.get_data(Point { x: 0, y: 3 }), Data::Empty);
    assert_eq!(image.apsp_length_sum(2), 374);
    assert_eq!(image.apsp_length_sum(10), 1030);
    assert_eq!(image.apsp_length_sum(100), 8410);
    assert_eq!(image.apsp_length_sum(1), 292);
}

#[test]
fn galaxy_distances_and_places() {
    assert_eq!(Point { x: 1, y: 6 }.manhattan_distance(Point { x: 5, y: 11 }), 9);
    assert_eq!(Point { x: 5, y: 11 }.manhattan_distance(Point { x: 1, y: 6 }), 9);
    assert_eq!(Point { x: -3, y: 2 }.manhattan_distance(Point { x: -3, y: 2 }), 0);
    assert_eq!(Data::parse('#'), Data::Galaxy);
    assert_eq!(Data::Galaxy.char(), '#');
    assert_eq!(Data::Empty.char(), '.');
    let mut image = Image::parse("..\n..\n");
    assert_eq!(image.apsp_length_sum(5), 0);
    image._set_data(Point { x: 1, y: 0 }, Data::Galaxy);
    image._set_data(Point { x: 1, y: 1 }, Data::Galaxy);
    assert_eq!(image.data, vec![Data::Empty, Data::Galaxy, Data::Empty, Data::Galaxy]);
    assert_eq!(image.apsp_length_sum(5), 1);
    image._set_data(Point { x: 1, y: 0 }, Data::Empty);
    image._set_data(Point { x: 0, y: 0 }, Data::Galaxy);
    assert_eq!(image.apsp_length_sum(5), 2);
    let wide = Image::parse("#.#\n");
    assert_eq!(wide.apsp_length_sum(1000000), 1000001);
}

#[test]
fn pipe_loop_example() {
    let mut sketch = pipes::Sketch::parse("7-F7-\n.FJ|7\nSJLL7\n|F--J\nLJ.LJ\n");
    assert_eq!(sketch.start, (0, 2));
    assert_eq!((sketch.width, sketch.height), (5, 5));
    let path = sketch.mark_loop().unwrap();
    assert_eq!(path.links.len(), 16);
    assert_eq!(path.links.len() / 2, 8);
    assert_eq!(path.links[0], (0, 2, pipes::Direction::East));
    assert_eq!(path.links[1], (1, 2, pipes::Direction::East));
    assert_eq!(path.links[2], (1, 1, pipes::Direction::North));
    assert_eq!(sketch.get(0, 2).topology, pipes::Topology::Boundary);
    assert_eq!(sketch.get(2, 2).topology, pipes::Topology::Unknown);
    sketch.mark_small(&path);
    let enclosed = sketch.mark_big();
    assert_eq!(enclosed, 1);
    assert_eq!(sketch.get(2, 2).topology, pipes::Topology::Inside);
}

#[test]
fn pipe_loop_encloses_four_tiles() {
    let text = "...........\n.S-------7.\n.|F-----7|.\n.||.....||.\n.||.....||.\n.|L-7.F-J|.\n.|..|.|..|.\n.L--J.L--J.\n...........\n";
    let mut sketch = pipes::Sketch::parse(text);
    let path = sketch.mark_loop().unwrap();
    assert_eq!(path.links.len(), 46);
    sketch.mark_small(&path);
    assert_eq!(sketch.mark_big(), 4);
}

#[test]
fn pipe_walks_that_fail() {
    let mut open = pipes::Sketch::parse("S-.\n...\n");
    assert!(open.mark_loop().is_none());
    let mut edge = pipes::Sketch::parse("S--\n");
    assert!(edge.mark_loop().is_none());
    let tile = pipes::Tile::parse('F');
    assert_eq!(tile.kind, pipes::Kind::SouthEast);
    assert_eq!(tile.topology, pipes::Topology::Unknown);
    assert_eq!(pipes::Kind::parse('|').orientation(&pipes::Direction::North), 0);
    assert_eq!(pipes::Kind::NorthEast.orientation(&pipes::Direction::West), 1);
    assert_eq!(pipes::Kind::NorthEast.orientation(&pipes::Direction::South), -1);
    let sketch = pipes::Sketch::parse("S\n");
    assert_eq!(sketch.next_loop_direction(tile, pipes::Direction::West), pipes::Direction::South);
    assert_eq!(sketch.next_loop_direction(tile, pipes::Direction::North), pipes::Direction::East);
}

#[test]
fn almanac_example() {
    let mut almanac = Almanac::new(vec![79, 14, 55, 13]);
    assert_eq!(almanac.start_ranges, vec![SimpleRange { start: 79, length: 14 }, SimpleRange { start: 55, length: 13 }]);
    let maps: Vec<Vec<(i64, i64, i64)>> = vec![
        vec![(50, 98, 2), (52, 50, 48)],
        vec![(0, 15, 37), (37, 52, 2), (39, 0, 15)],
        vec![(49, 53, 8), (0, 11, 42), (42, 0, 7), (57, 7, 4)],
        vec![(88, 18, 7), (18, 25, 70)],
        vec![(45, 77, 23), (81, 45, 19), (68, 64, 13)],
        vec![(0, 69, 1), (1, 0, 69)],
        vec![(60, 56, 37), (56, 93, 4)],
    ];
    for rules in maps {
        let mut map = RangeMap::new();
        for (d, s, l) in rules {
            map.ranges.push(Range { dest_range_start: d, source_range_start: s, range_length: l });
        }
        almanac.maps.push(map);
    }
    assert_eq!(almanac.maps[0].source_to_dest(79), 81);
    assert_eq!(almanac.maps[0].source_to_dest(14), 14);
    assert_eq!(almanac.maps[0].source_to_dest(98), 50);
    // The last number of a rule is not sent.
    assert_eq!(almanac.maps[0].source_to_dest(99), 99);
    assert_eq!(almanac.source_to_dest(79), 82);
    // 14 is the last number of a rule of the second map, which is not sent.
    assert_eq!(almanac.source_to_dest(14), 4);
    assert_eq!(almanac.source_to_dest(55), 86);
    // On its way 13 becomes 52, the last number of a rule of the third map.
    assert_eq!(almanac.source_to_dest(13), 85);
    let mut least = i64::MAX;
    for range in almanac.start_ranges.clone() {
        for out in almanac.map(&range) {
            assert!(out.length >= 1);
            least = least.min(out.start);
        }
    }
    assert_eq!(least, 46);
}

#[test]
fn ranges_intersect_and_leave_gaps() {
    let rule = Range { source_range_start: 10, dest_range_start: 100, range_length: 5 };
    let all = SimpleRange { start: 0, length: 30 };
    assert_eq!(rule.intersection(&all), Some(SimpleRange { start: 10, length: 5 }));
    assert_eq!(rule.intersection(&SimpleRange { start: 12, length: 30 }), Some(SimpleRange { start: 12, length: 3 }));
    assert_eq!(rule.intersection(&SimpleRange { start: 15, length: 30 }), None);
    assert_eq!(rule.intersection(&SimpleRange { start: 0, length: 10 }), None);
    assert_eq!(rule.translate(&SimpleRange { start: 12, length: 3 }), SimpleRange { start: 102, length: 3 });
    assert_eq!(rule.source_to_dest(10), Some(100));
    assert_eq!(rule.source_to_dest(13), Some(103));
    assert_eq!(rule.source_to_dest(14), None);
    assert_eq!(rule.source_to_dest(9), None);
    let holes = vec![SimpleRange { start: 20, length: 5 }, SimpleRange { start: 0, length: 3 }, SimpleRange { start: 10, length: 5 }];
    assert_eq!(
        all.minus_disjoint_subsets(holes),
        vec![SimpleRange { start: 3, length: 7 }, SimpleRange { start: 15, length: 5 }, SimpleRange { start: 25, length: 5 }]
    );
    assert_eq!(all.minus_disjoint_subsets(vec![]), vec![all]);
    assert!(all.minus_disjoint_subsets(vec![all]).is_empty());
    let map = RangeMap { ranges: vec![rule, Range { source_range_start: 20, dest_range_start: 0, range_length: 20 }] };
    assert_eq!(
        map.map(&all),
        vec![
            SimpleRange { start: 100, length: 5 },
            SimpleRange { start: 0, length: 10 },
            SimpleRange { start: 0, length: 10 },
            SimpleRange { start: 15, length: 5 }
        ]
    );
    let none = Almanac::new(vec![]);
    assert!(none.map(&all).is_empty());
    assert_eq!(none.source_to_dest(5), 5);
}

#[test]
fn spring_ways_that_cannot_be_counted() {
    // There are far more ways to place 35 runs of one spring among 140
    // unknown springs than an i64 counts.
    let many = Record { springs: vec![Spring::Unknown; 140], groups: vec![1; 35] };
    assert_eq!(many.count_arrangements(), None);
    let document = Document { records: vec![record("?", &[1]), many] };
    assert_eq!(document.checked_arrangements_sum(), None);
    let few = record("???.###", &[1, 1, 3]);
    assert_eq!(few.count_arrangements(), Some(1));
    let fine = Document { records: vec![record("??", &[1]), record("?###????????", &[3, 2, 1])] };
    assert_eq!(fine.checked_arrangements_sum(), Some(12));
}
