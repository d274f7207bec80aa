use advent_puzzles::calibration::{
    calc_calibration_document, calc_calibration_document_v2, calc_calibration_line,
    calc_calibration_line_v2, filter_digits,
};
use advent_puzzles::cubes::{
    read_color, read_game, read_record, read_set, CubeSet, Game, Record,
};
use advent_puzzles::text::{
    parse_i32, parse_i64, parse_u32, sorted_numbers, split_char, split_fields, split_lines,
    to_chars,
};

fn strings(parts: &Vec<Vec<char>>) -> Vec<String> {
    parts.iter().map(|p| p.iter().collect()).collect()
}

#[test]
fn lines_end_at_line_feeds() {
    let chars = to_chars("ab\ncd\r\n\nef");
    assert_eq!(strings(&split_lines(&chars)), vec!["ab", "cd", "", "ef"]);
    assert_eq!(strings(&split_lines(&to_chars("ab\n"))), vec!["ab"]);
    assert_eq!(strings(&split_lines(&to_chars("ab\r"))), vec!["ab\r"]);
    assert!(split_lines(&to_chars("")).is_empty());
    assert_eq!(strings(&split_lines(&to_chars("\n"))), vec![""]);
}

#[test]
fn pieces_lie_between_separators() {
    assert_eq!(strings(&split_char(&to_chars("a,b,,c"), ',')), vec!["a", "b", "", "c"]);
    assert_eq!(strings(&split_char(&to_chars(""), ',')), vec![""]);
    assert_eq!(strings(&split_char(&to_chars(","), ',')), vec!["", ""]);
}

#[test]
fn fields_lie_between_white_space() {
    assert_eq!(strings(&split_fields(&to_chars("  12 \t x\n7 "))), vec!["12", "x", "7"]);
    assert!(split_fields(&to_chars(" \t ")).is_empty());
}

#[test]
fn numbers_are_read_with_their_limits() {
    assert_eq!(parse_i64(&to_chars("-12")), Some(-12));
    assert_eq!(parse_i64(&to_chars("+12")), Some(12));
    assert_eq!(parse_i64(&to_chars("9223372036854775807")), Some(i64::MAX));
    assert_eq!(parse_i64(&to_chars("9223372036854775808")), None);
    assert_eq!(parse_i64(&to_chars("-9223372036854775808")), Some(i64::MIN));
    assert_eq!(parse_i64(&to_chars("-9223372036854775809")), None);
    assert_eq!(parse_i64(&to_chars("")), None);
    assert_eq!(parse_i64(&to_chars("-")), None);
    assert_eq!(parse_i64(&to_chars("1a")), None);
    assert_eq!(parse_i32(&to_chars("-2147483648")), Some(i32::MIN));
    assert_eq!(parse_i32(&to_chars("2147483648")), None);
    assert_eq!(parse_u32(&to_chars("4294967295")), Some(u32::MAX));
    assert_eq!(parse_u32(&to_chars("4294967296")), None);
    assert_eq!(parse_u32(&to_chars("-1")), None);
    assert_eq!(parse_u32(&to_chars("007")), Some(7));
}

#[test]
fn numbers_are_sorted() {
    assert_eq!(sorted_numbers(&vec![5, -1, 3, 3, 0]), vec![-1, 0, 3, 3, 5]);
    assert!(sorted_numbers(&vec![]).is_empty());
}

#[test]
fn digits_of_a_line() {
    assert_eq!(filter_digits("a1b2c3d4e5f"), vec![1, 2, 3, 4, 5]);
    assert!(filter_digits("abc").is_empty());
    assert_eq!(calc_calibration_line("pqr3stu8vwx"), Some(38));
    assert_eq!(calc_calibration_line("treb7uchet"), Some(77));
    assert_eq!(calc_calibration_line("trebuchet"), None);
}

#[test]
fn calibration_document() {
    assert_eq!(calc_calibration_document("1abc2\npqr3stu8vwx\na1b2c3d4e5f\ntreb7uchet\n"), 142);
    assert_eq!(calc_calibration_document("abc\n"), 0);
    assert_eq!(calc_calibration_document(""), 0);
}

#[test]
fn spelled_digits_of_a_line() {
    assert_eq!(calc_calibration_line_v2("two1nine"), Some(29));
    assert_eq!(calc_calibration_line_v2("eightwothree"), Some(83));
    assert_eq!(calc_calibration_line_v2("xtwone3four"), Some(24));
    assert_eq!(calc_calibration_line_v2("zoneight234"), Some(14));
    assert_eq!(calc_calibration_line_v2("7pqrstsixteen"), Some(76));
    assert_eq!(calc_calibration_line_v2("oneight"), Some(18));
    assert_eq!(calc_calibration_line_v2("0zero0"), None);
    assert_eq!(calc_calibration_line_v2("on"), None);
}

#[test]
fn spelled_calibration_document() {
    let text = "two1nine\neightwothree\nabcone2threexyz\nxtwone3four\n4nineeightseven2\nzoneight234\n7pqrstsixteen\n";
    assert_eq!(calc_calibration_document_v2(text), 281);
}

const GAMES: &str = "Game 1: 3 blue, 4 red; 1 red, 2 green, 6 blue; 2 green\nGame 2: 1 blue, 2 green; 3 green, 4 blue, 1 red; 1 green, 1 blue\nGame 3: 8 green, 6 blue, 20 red; 5 blue, 4 red, 13 green; 5 green, 1 red\nGame 4: 1 green, 3 red, 6 blue; 3 green, 6 red; 3 green, 15 blue, 14 red\nGame 5: 6 red, 1 blue, 3 green; 2 blue, 1 red, 2 green\n";

#[test]
fn cube_games_example() {
    let bag = CubeSet { red: 12, green: 13, blue: 14 };
    let record = read_record(GAMES, bag).unwrap();
    assert_eq!(record.games.len(), 5);
    assert_eq!(record.games[2].id, 3);
    assert_eq!(record.games[2].sets[0], CubeSet { red: 20, green: 8, blue: 6 });
    assert_eq!(record.calc_sum(), 8);
    assert_eq!(record.sum_power_max(), 2286);
}

#[test]
fn cube_sets_compare_add_and_multiply() {
    let a = CubeSet { red: 1, green: 2, blue: 3 };
    let b = CubeSet { red: 1, green: 5, blue: 3 };
    assert!(a.subset(&b));
    assert!(!b.subset(&a));
    assert_eq!(a.add(&b), CubeSet { red: 2, green: 7, blue: 6 });
    assert_eq!(b.power(), 15);
    assert_eq!(CubeSet { red: 4, green: 0, blue: 9 }.power(), 0);
    let game = Game { id: 7, sets: vec![a, b, CubeSet { red: 9, green: 0, blue: 0 }] };
    assert_eq!(game.calc_max(), CubeSet { red: 9, green: 5, blue: 3 });
    assert!(game.check_game(&CubeSet { red: 9, green: 5, blue: 3 }));
    assert!(!game.check_game(&CubeSet { red: 8, green: 5, blue: 3 }));
    let empty = Game { id: 1, sets: vec![] };
    assert_eq!(empty.calc_max(), CubeSet { red: 0, green: 0, blue: 0 });
    let record = Record { expectation: b, games: vec![empty] };
    assert_eq!(record.calc_sum(), 1);
    assert_eq!(record.sum_power_max(), 0);
}

#[test]
fn cube_texts_that_read_and_that_do_not() {
    assert_eq!(read_color(" 3 blue"), Some(CubeSet { red: 0, green: 0, blue: 3 }));
    assert_eq!(read_color("12 red "), Some(CubeSet { red: 12, green: 0, blue: 0 }));
    assert_eq!(read_color("3 green"), Some(CubeSet { red: 0, green: 3, blue: 0 }));
    assert_eq!(read_color("3 pink"), None);
    assert_eq!(read_color("three blue"), None);
    assert_eq!(read_color("3"), None);
    assert_eq!(read_color("3 blue red"), None);
    assert_eq!(read_set(" 1 red, 2 green, 6 blue, 4 red"), Some(CubeSet { red: 5, green: 2, blue: 6 }));
    assert_eq!(read_set("1 red,, 2 green"), None);
    assert!(read_game("Game 1 3 blue").is_none());
    assert!(read_game("Game x: 3 blue").is_none());
    assert!(read_game("Game 1: 3 blue; 4").is_none());
    assert!(read_game("Game 1: 3 blue: 4 red").is_none());
    let game = read_game("Game 11: 3 blue; 4 red, 1 blue").unwrap();
    assert_eq!(game.id, 11);
    assert_eq!(game.sets.len(), 2);
    assert!(read_record("Game 1: 3 blue\nGame 2: x\n", CubeSet { red: 1, green: 1, blue: 1 }).is_none());
}
