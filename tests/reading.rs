use advent_of_rust_2021::dive::{self, Instruction, LineError};
use advent_of_rust_2021::origami::{self, Fold, Point};
use advent_of_rust_2021::text::{parse_i32, parse_i64, split_pair, words_of};
use advent_of_rust_2021::trick_shot::{self, TargetArea};
use advent_of_rust_2021::vents::{self, Line};
use advent_of_rust_2021::{bingo, caves, crabs, lanternfish, polymer, segments, sonar};

fn lines(v: &[&str]) -> Vec<String> {
    v.iter().map(|s| s.to_string()).collect()
}

fn chars(s: &str) -> Vec<char> {
    s.chars().collect()
}

#[test]
fn integers_are_read_like_std() {
    for text in ["0", "12", "-7", "+5", "2147483647", "-2147483648", "", "-", "+", "1a", " 1", "2147483648", "-2147483649", "007"] {
        assert_eq!(parse_i32(&chars(text)), text.parse::<i32>().ok(), "{:?}", text);
    }
    for text in ["9223372036854775807", "-9223372036854775808", "9223372036854775808", "-12"] {
        assert_eq!(parse_i64(&chars(text)), text.parse::<i64>().ok(), "{:?}", text);
    }
}

#[test]
fn depths_skip_bad_lines() {
    assert_eq!(sonar::read_numbers(&lines(&["199", "x", "", "200", "-3"])), vec![199, 200, -3]);
}

#[test]
fn commands_are_read() {
    assert_eq!(Instruction::from_str("forward 5"), Ok(Instruction::Forward(5)));
    assert_eq!(Instruction::from_str("down 8"), Ok(Instruction::Down(8)));
    assert_eq!(Instruction::from_str("up 3"), Ok(Instruction::Up(3)));
    assert_eq!(Instruction::from_str("up 3 4"), Err(LineError::Malformed));
    assert_eq!(Instruction::from_str("up x"), Err(LineError::Malformed));
    assert_eq!(Instruction::from_str("back 3"), Err(LineError::UnknownCommand));
    assert_eq!(
        dive::read_instructions(&lines(&["forward 5", "", "down 2"])),
        Some(vec![Instruction::Forward(5), Instruction::Down(2)])
    );
    assert_eq!(dive::read_instructions(&lines(&["forward 5", "sideways 2"])), None);
}

#[test]
fn bingo_input_is_read() {
    let input = lines(&["7,4,x,9", "", "1 2", " 3  4", "", "5 6", "7 8"]);
    let (numbers, boards) = bingo::read_input(&input).unwrap();
    assert_eq!(numbers, vec![7, 4, 9]);
    assert_eq!(boards.len(), 2);
    assert_eq!(boards[0].data, vec![vec![1, 2], vec![3, 4]]);
    assert_eq!(boards[1].data, vec![vec![5, 6], vec![7, 8]]);
    assert!(bingo::read_input(&lines(&["1,2"])).is_none());
}

#[test]
fn vent_lines_are_read() {
    assert_eq!(Line::from_str("0,9 -> 5,9").map(|l| (l.0, l.1)), Some(((0, 9), (5, 9))));
    assert!(Line::from_str("0,9 5,9 1,1").is_none());
    assert!(Line::from_str("0;9 -> 5,9").is_none());
    assert_eq!(vents::read_input(&lines(&["1,1 -> 1,3", "9,7 -> 7,7"])).map(|v| v.len()), Some(2));
    assert!(vents::read_input(&lines(&["1,1 -> 1,3", "junk"])).is_none());
}

#[test]
fn comma_lists_are_read() {
    assert_eq!(lanternfish::read_fish("3,4,3,1,2"), Some(vec![3, 4, 3, 1, 2]));
    assert_eq!(lanternfish::read_fish("3,,1"), None);
    assert_eq!(crabs::read_input("16,1,2,0"), Some(vec![16, 1, 2, 0]));
    assert_eq!(crabs::read_input("16,a"), None);
}

#[test]
fn displays_are_read() {
    let input = segments::read_input(&lines(&["ab cde | fg  h"])).unwrap();
    assert_eq!(input[0].0, vec!["ab".to_string(), "cde".to_string()]);
    assert_eq!(input[0].1, vec!["fg".to_string(), "h".to_string()]);
    assert!(segments::read_input(&lines(&["ab cd"])).is_none());
    assert_eq!(words_of("  a\tbc  "), vec!["a".to_string(), "bc".to_string()]);
}

#[test]
fn tunnels_are_read() {
    assert_eq!(
        caves::read_input(&lines(&["start-A", "b-end"])),
        Some(vec![
            ("start".to_string(), "A".to_string()),
            ("b".to_string(), "end".to_string())
        ])
    );
    assert_eq!(caves::read_input(&lines(&["a-b-c"])), None);
    assert_eq!(split_pair("x|y", '|'), Some(("x".to_string(), "y".to_string())));
    assert_eq!(split_pair("xy", '|'), None);
}

#[test]
fn origami_input_is_read() {
    let (points, folds) =
        origami::read_input(&lines(&["6,10", "0,14", "", "fold along y=7", "fold along x=5"]))
            .unwrap();
    assert_eq!(points, vec![Point { x: 6, y: 10 }, Point { x: 0, y: 14 }]);
    assert_eq!(folds, vec![Fold::Horizontal(7), Fold::Vertical(5)]);
    assert!(origami::read_input(&lines(&["6;10"])).is_none());
}

#[test]
fn polymer_manual_is_read() {
    let (template, rules) =
        polymer::read_input(&lines(&["NNCB", "", "CH -> B", "HH -> N"])).unwrap();
    assert_eq!(template, "NNCB");
    assert_eq!(rules, vec![(('C', 'H'), 'B'), (('H', 'H'), 'N')]);
    assert!(polymer::read_input(&lines(&["NNCB", "", "CHX -> B"])).is_none());
}

#[test]
fn target_area_is_read() {
    let t = trick_shot::read_input("target area: x=20..30, y=-10..-5").unwrap();
    let TargetArea { x_min, x_max, y_min, y_max } = t;
    assert_eq!((x_min, x_max, y_min, y_max), (20, 30, -10, -5));
    assert!(trick_shot::read_input("target area: x=20..30").is_none());
}

#[test]
fn whitespace_matches_std() {
    for u in 0u32..0x4000 {
        if let Some(c) = char::from_u32(u) {
            assert_eq!(advent_of_rust_2021::text::is_whitespace(c), c.is_whitespace(), "{:x}", u);
        }
    }
    for c in ['\u{feff}', '\u{200b}', '\u{3000}', '\u{205f}'] {
        assert_eq!(advent_of_rust_2021::text::is_whitespace(c), c.is_whitespace());
    }
}
