use advent_puzzles::heat::grid::{GridError, HeatMatrix, Point};
use advent_puzzles::heat::route::{Direction, SearchState};
use advent_puzzles::heat::tree::DijkstraState;

const CITY: &str = "2413432311323\n3215453535623\n3255245654254\n3446585845452\n4546657867536\n1438598798454\n4457876987766\n3637877979653\n4654967986887\n4564679986453\n1224686865563\n2546548887735\n4322674655533\n";

fn grid(text: &str) -> HeatMatrix {
    HeatMatrix::parse(text).expect("a grid")
}

fn best(text: &str, max_run: i64) -> Option<i64> {
    let g = grid(text);
    g.find_path(max_run).map(|path| g.calc_path_weight(&path))
}

/// Checks by hand that `path` is a route: neighbouring blocks, no turning
/// back, no more than `max_run` steps in a row.
fn check_route(g: &HeatMatrix, path: &Vec<Point>, max_run: i64) {
    assert!(!path.is_empty());
    assert_eq!(path[0], Point::new(0, 0));
    assert_eq!(*path.last().unwrap(), Point::new(g.w - 1, g.h - 1));
    let mut last: Option<(i64, i64)> = None;
    let mut run = 0;
    for i in 1..path.len() {
        let d = (path[i].x - path[i - 1].x, path[i].y - path[i - 1].y);
        assert_eq!(d.0.abs() + d.1.abs(), 1);
        assert!(g.check_point_valid(&path[i]));
        if let Some(l) = last {
            assert_ne!((l.0 + d.0, l.1 + d.1), (0, 0));
            if l == d {
                run += 1;
            } else {
                run = 1;
            }
        } else {
            run = 1;
        }
        assert!(run <= max_run);
        last = Some(d);
    }
}

#[test]
fn city_example_costs_102() {
    assert_eq!(best(CITY, 3), Some(102));
}

#[test]
fn city_example_route_is_a_route() {
    let g = grid(CITY);
    let path = g.find_path(3).unwrap();
    check_route(&g, &path, 3);
    assert_eq!(g.calc_path_weight(&path), 102);
}

#[test]
fn tree_distance_equals_weight_of_its_path() {
    let g = grid(CITY);
    let tree = g.find_tree(Point::new(0, 0), Point::new(12, 12), 3);
    let goal = tree.goal.unwrap();
    assert_eq!(goal.pos, Point::new(12, 12));
    let path = tree.path_to(&g, goal);
    assert_eq!(tree.get(&goal).distance, 102);
    assert_eq!(g.calc_path_weight(&path), 102);
    assert!(path.len() >= 25);
    check_route(&g, &path, 3);
}

#[test]
fn single_block_costs_nothing() {
    assert_eq!(best("7\n", 1), Some(0));
    assert_eq!(best("7", 3), Some(0));
    let g = grid("7");
    assert_eq!(g.find_path(3).unwrap(), vec![Point::new(0, 0)]);
}

#[test]
fn cold_grid_costs_nothing() {
    for max_run in 1..5 {
        assert_eq!(best("000\n000\n000\n", max_run), Some(0));
        assert_eq!(best("00000\n00000\n", max_run), Some(0));
    }
}

#[test]
fn larger_limit_never_costs_more() {
    let mut before = i64::MAX;
    for max_run in 1..8 {
        let cost = best(CITY, max_run).unwrap();
        assert!(cost <= before);
        before = cost;
    }
}

#[test]
fn limit_of_one_forces_a_turn_at_every_step() {
    // 1 9      right, down costs 9 + 1; down, right costs 1 + 1.
    // 1 1
    assert_eq!(best("19\n11\n", 1), Some(2));
    let g = grid("123\n456\n789\n");
    let path = g.find_path(1).unwrap();
    check_route(&g, &path, 1);
}

#[test]
fn corridor_within_limit_is_walked_straight() {
    assert_eq!(best("1234\n", 3), Some(9));
    let g = grid("1234\n");
    assert_eq!(
        g.find_path(3).unwrap(),
        vec![Point::new(0, 0), Point::new(1, 0), Point::new(2, 0), Point::new(3, 0)]
    );
}

#[test]
fn corridor_beyond_limit_has_no_route() {
    assert_eq!(best("12345\n", 3), None);
    assert_eq!(best("1\n2\n3\n4\n5\n", 3), None);
}

#[test]
fn corridor_with_room_to_turn_takes_the_detour() {
    // Straight along the top row is not allowed with a limit of 2: the
    // route has to dip into the second row.
    let g = grid("1111\n9119\n");
    let path = g.find_path(2).unwrap();
    check_route(&g, &path, 2);
    assert_eq!(g.calc_path_weight(&path), 1 + 1 + 1 + 9);
}

#[test]
fn limit_of_zero_always_fails() {
    assert_eq!(best(CITY, 0), None);
    assert_eq!(best("7", 0), None);
    assert_eq!(best("7", -3), None);
}

#[test]
fn empty_grid_has_no_route() {
    let g = grid("");
    assert_eq!(g.w, 0);
    assert_eq!(g.h, 0);
    assert!(g.find_path(3).is_none());
}

#[test]
fn parse_reads_rows_of_digits() {
    let g = grid("123\n456\n");
    assert_eq!(g.w, 3);
    assert_eq!(g.h, 2);
    assert_eq!(g.values, vec![1, 2, 3, 4, 5, 6]);
    assert_eq!(*g.get(Point::new(2, 1)), 6);
    assert_eq!(*g.get(Point::new(0, 1)), 4);
    let h = grid("123\r\n456");
    assert_eq!(h.values, vec![1, 2, 3, 4, 5, 6]);
}

#[test]
fn parse_rejects_what_is_no_digit() {
    assert_eq!(HeatMatrix::parse("12a\n456\n").unwrap_err(), GridError::InvalidCharacter);
    assert_eq!(HeatMatrix::parse("12\n4 6\n").unwrap_err(), GridError::InvalidCharacter);
    assert_eq!(HeatMatrix::parse("12\n\u{663}4\n").unwrap_err(), GridError::InvalidCharacter);
}

#[test]
fn parse_rejects_rows_of_different_length() {
    assert_eq!(HeatMatrix::parse("123\n45\n").unwrap_err(), GridError::RaggedRows);
    assert_eq!(HeatMatrix::parse("12\n\n34\n").unwrap_err(), GridError::RaggedRows);
    assert!(!GridError::RaggedRows.describe().is_empty());
    assert_ne!(GridError::RaggedRows.describe(), GridError::InvalidCharacter.describe());
}

#[test]
fn points_turn_and_reverse() {
    let east = Point::new(1, 0);
    assert_eq!(east.turn_clock_wise(), Point::new(0, 1));
    assert_eq!(east.turn_clock_wise().turn_clock_wise(), east.reversed());
    assert_eq!(Point::new(3, -4).reversed(), Point::new(-3, 4));
}

#[test]
fn path_validity_and_weight() {
    let g = grid("123\n456\n");
    let inside = vec![Point::new(0, 0), Point::new(1, 0), Point::new(1, 1)];
    assert!(g.check_path_valid(&inside));
    assert_eq!(g.calc_path_weight(&inside), 2 + 5);
    assert_eq!(g.calc_path_weight(&vec![Point::new(2, 1)]), 0);
    assert_eq!(g.calc_path_weight(&vec![]), 0);
    let outside = vec![Point::new(0, 0), Point::new(3, 0)];
    assert!(!g.check_path_valid(&outside));
    assert!(!g.check_point_valid(&Point::new(0, 2)));
    assert!(!g.check_point_valid(&Point::new(-1, 0)));
}

#[test]
fn steps_obey_the_rules() {
    let g = grid("123\n456\n");
    let start = SearchState::initial(Point::new(0, 0));
    let right = g.step(3, start, Direction::Right).unwrap();
    assert_eq!(right, SearchState { pos: Point::new(1, 0), dir: Some(Direction::Right), run: 1 });
    assert!(g.step(3, start, Direction::Left).is_none());
    assert!(g.step(3, start, Direction::Up).is_none());
    assert!(g.step(3, right, Direction::Left).is_none());
    let again = g.step(3, right, Direction::Right).unwrap();
    assert_eq!(again.run, 2);
    assert!(g.step(2, again, Direction::Right).is_none());
    assert!(g.step(1, right, Direction::Right).is_none());
    let down = g.step(1, right, Direction::Down).unwrap();
    assert_eq!(down, SearchState { pos: Point::new(1, 1), dir: Some(Direction::Down), run: 1 });
}

#[test]
fn matrices_are_made_and_written() {
    let empty: advent_puzzles::heat::grid::Matrix<i64> = advent_puzzles::heat::grid::Matrix::new();
    assert_eq!((empty.w, empty.h, empty.values.len()), (0, 0, 0));
    let mut m: advent_puzzles::heat::grid::Matrix<i64> = advent_puzzles::heat::grid::Matrix::new_sized(3, 2);
    assert_eq!(m.values, vec![0; 6]);
    *m.get_mut(Point::new(2, 1)) = 7;
    *m.get_mut(Point::new(0, 1)) = 4;
    assert_eq!(m.values, vec![0, 0, 0, 4, 0, 7]);
    assert_eq!(*m.get(Point::new(2, 1)), 7);
}

#[test]
fn whole_tree_has_the_best_route_to_every_block() {
    let g = grid(CITY);
    let tree = g.dijkstra_chess(Point::new(0, 0), 3).unwrap();
    assert!(tree.goal.is_none());
    let mut least: Option<(i64, SearchState)> = None;
    for d in [Direction::Up, Direction::Down, Direction::Left, Direction::Right] {
        for run in 1..=3 {
            let s = SearchState { pos: Point::new(12, 12), dir: Some(d), run };
            let data = tree.get(&s);
            if let DijkstraState::Known = data.state {
                if least.map_or(true, |(w, _)| data.distance < w) {
                    least = Some((data.distance, s));
                }
            }
        }
    }
    let (weight, s) = least.unwrap();
    assert_eq!(weight, 102);
    let path = tree.path_to(&g, s);
    check_route(&g, &path, 3);
    assert_eq!(g.calc_path_weight(&path), 102);
    // The block right of the start is entered at once.
    let next = SearchState { pos: Point::new(1, 0), dir: Some(Direction::Right), run: 1 };
    assert_eq!(tree.get(&next).distance, 4);
}

#[test]
fn whole_tree_needs_a_start_and_a_limit() {
    let g = grid(CITY);
    assert!(g.dijkstra_chess(Point::new(0, 0), 0).is_none());
    assert!(g.dijkstra_chess(Point::new(13, 0), 3).is_none());
    assert!(g.dijkstra_chess(Point::new(12, 12), 1).is_some());
}

#[test]
fn least_heat_loss_is_the_weight_of_the_best_route() {
    let g = grid(CITY);
    assert_eq!(g.least_heat_loss(3), Some(102));
    for max_run in 1..=5 {
        assert_eq!(g.least_heat_loss(max_run), best(CITY, max_run));
    }
    assert_eq!(grid("7\n").least_heat_loss(1), Some(0));
    assert_eq!(grid("19999\n").least_heat_loss(3), None);
    assert_eq!(grid("1234\n").least_heat_loss(3), Some(9));
    assert_eq!(g.least_heat_loss(0), None);
}

#[test]
fn errors_are_described() {
    assert_eq!(GridError::InvalidCharacter.describe(), "a row holds a character that is no decimal digit");
    assert_eq!(GridError::RaggedRows.describe(), "the rows differ in length");
    assert_eq!(GridError::TooLarge.describe(), "the grid is too large");
}

#[test]
fn searches_that_fit_in_memory() {
    let g = grid(CITY);
    assert!(g.can_search(3));
    assert!(g.can_search(0));
    assert!(g.can_search(1_000_000));
    assert!(!g.can_search(i64::MAX));
    // 169 blocks, four directions: the table and its distances fit up to
    // this limit and no further.
    let most = (1_024_819_115_206_086_198i64) / (169 * 4);
    assert!(HeatMatrix::new().can_search(i64::MAX));
    if usize::MAX as u128 > i64::MAX as u128 {
        assert!(g.can_search(most));
        assert!(!g.can_search(most + 1));
    }
}
