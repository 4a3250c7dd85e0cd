use advent_of_rust_2021::bingo::{self, Board};
use advent_of_rust_2021::input_read::read_to_2d_byte_array;
use advent_of_rust_2021::origami::{self, Fold, Point};
use advent_of_rust_2021::trick_shot::{self, TargetArea};
use advent_of_rust_2021::vents::{self, Line};
use advent_of_rust_2021::{caves, crabs, diagnostic, octopus, polymer, segments};

fn lines(v: &[&str]) -> Vec<String> {
    v.iter().map(|s| s.to_string()).collect()
}

#[test]
fn diagnostic_example() {
    let report = lines(&[
        "00100", "11110", "10110", "10111", "10101", "01111", "00111", "11100", "10000", "11001",
        "00010", "01010",
    ]);
    assert_eq!(diagnostic::part1(&report), 198);
    assert_eq!(diagnostic::part2(&report), Some(230));
}

#[test]
fn diagnostic_filter_can_run_dry() {
    // every report starts with 0: the least common bit chosen is 1 and leaves none
    let report = lines(&["01", "00"]);
    assert_eq!(diagnostic::part2(&report), None);
}

fn board(rows: &[[i32; 5]; 5]) -> Board {
    Board { data: rows.iter().map(|r| r.to_vec()).collect() }
}

#[test]
fn bingo_example() {
    let numbers = [
        7, 4, 9, 5, 11, 17, 23, 2, 0, 14, 21, 24, 10, 16, 13, 6, 15, 25, 12, 22, 18, 20, 8, 19, 3,
        26, 1,
    ];
    let boards = vec![
        board(&[
            [22, 13, 17, 11, 0],
            [8, 2, 23, 4, 24],
            [21, 9, 14, 16, 7],
            [6, 10, 3, 18, 5],
            [1, 12, 20, 15, 19],
        ]),
        board(&[
            [3, 15, 0, 2, 22],
            [9, 18, 13, 17, 5],
            [19, 8, 7, 25, 23],
            [20, 11, 10, 24, 4],
            [14, 21, 16, 12, 6],
        ]),
        board(&[
            [14, 21, 17, 24, 4],
            [10, 16, 15, 9, 19],
            [18, 8, 23, 26, 20],
            [22, 11, 13, 6, 5],
            [2, 0, 12, 3, 7],
        ]),
    ];
    assert_eq!(bingo::part1(&numbers, &boards), Some(4512));
    assert_eq!(bingo::part2(&numbers, &boards), Some(1924));
    assert_eq!(bingo::part1(&numbers[..3], &boards), None);
    assert!(boards[2].is_winning(&[7, 4, 9, 5, 11, 17, 23, 2, 0, 14, 21, 24]));
    assert!(!boards[0].is_winning(&[7, 4, 9]));
    assert!(board(&[[1, 2, 3, 4, 5]; 5]).is_winning(&[1, 2, 3, 4, 5]));
    assert_eq!(board(&[[1, 2, 3, 4, 5]; 5]).calculate_score(&[1, 2]), Some(120));
    assert_eq!(board(&[[1_000_000, 2, 3, 4, 5]; 5]).calculate_score(&[2, 3000]), None);
}

#[test]
fn vents_example() {
    let v = vec![
        Line((0, 9), (5, 9)),
        Line((8, 0), (0, 8)),
        Line((9, 4), (3, 4)),
        Line((2, 2), (2, 1)),
        Line((7, 0), (7, 4)),
        Line((6, 4), (2, 0)),
        Line((0, 9), (2, 9)),
        Line((3, 4), (1, 4)),
        Line((0, 0), (8, 8)),
        Line((5, 5), (8, 2)),
    ];
    assert_eq!(vents::part1(&v), 5);
    assert_eq!(vents::part2(&v), 12);
    assert_eq!(vents::part1(&[]), 0);
}

#[test]
fn crabs_example() {
    let positions = [16, 1, 2, 0, 4, 2, 7, 1, 2, 14];
    assert_eq!(crabs::part1(&positions), 37);
    assert_eq!(crabs::part2(&positions), 168);
}

#[test]
fn segments_example() {
    let raw = [
        "be cfbegad cbdgef fgaecd cgeb fdcge agebfd fecdb fabcd edb | fdgacbe cefdb cefbgd gcbe",
        "edbfga begcd cbg gc gcadebf fbgde acbgfd abcde gfcbed gfec | fcgedb cgb dgebacf gc",
        "fgaebd cg bdaec gdafb agbcfd gdcbef bgcad gfac gcb cdgabef | cg cg fdcagb cbg",
        "fbegcd cbd adcefb dageb afcb bc aefdc ecdab fgdeca fcdbega | efabcd cedba gadfec cb",
        "aecbfdg fbg gf bafeg dbefa fcge gcbea fcaegb dgceab fcbdga | gecf egdcabf bgf bfgea",
        "fgeab ca afcebg bdacfeg cfaedg gcfdb baec bfadeg bafgc acf | gebdcfa ecba ca fadegcb",
        "dbcfg fgd bdegcaf fgec aegbdf ecdfab fbedc dacgb gdcebf gf | cefg dcbef fcge gbcadfe",
        "bdfegc cbegaf gecbf dfcage bdacg ed bedf ced adcbefg gebcd | ed bcgafe cdgba cbgef",
        "egadfb cdbfeg cegd fecab cgb gbdefca cg fgcdab egfdb bfceg | gbdfcae bgc cg cgb",
        "gcafb gcf dcaebfg ecagb gf abcdeg gaef cafbge fdbac fegbdc | fgae cfgab fg bagce",
    ];
    let input: Vec<segments::SingleInput> = raw
        .iter()
        .map(|l| {
            let (p, o) = l.split_once('|').unwrap();
            (
                p.split_whitespace().map(|s| s.to_owned()).collect(),
                o.split_whitespace().map(|s| s.to_owned()).collect(),
            )
        })
        .collect();
    assert_eq!(segments::part1(&input), 26);
    assert_eq!(segments::part2(&input), Some(61229));
}

fn octopus_grid() -> Vec<Vec<u8>> {
    read_to_2d_byte_array(&lines(&[
        "5483143223",
        "2745854711",
        "5264556173",
        "6141336146",
        "6357385478",
        "4167524645",
        "2176841721",
        "6882881134",
        "4846848554",
        "5283751526",
    ]))
    .unwrap()
}

#[test]
fn octopus_example() {
    assert_eq!(octopus::part1(&octopus_grid()), 1656);
    assert_eq!(octopus::part2(&octopus_grid()), Some(195));
}

#[test]
fn octopus_single_step() {
    let mut grid = read_to_2d_byte_array(&lines(&["11111", "19991", "19191", "19991", "11111"]))
        .unwrap();
    for row in grid.iter_mut() {
        for c in row.iter_mut() {
            *c += 1;
        }
    }
    let (flashes, all) = octopus::flash_all(&mut grid);
    assert_eq!(flashes, 9);
    assert!(!all);
    assert_eq!(grid[0], vec![3, 4, 5, 4, 3]);
    assert_eq!(grid[2], vec![5, 0, 0, 0, 5]);
}

#[test]
fn caves_examples() {
    let small = lines(&["start-A", "start-b", "A-c", "A-b", "b-d", "A-end", "b-end"])
        .iter()
        .map(|l| {
            let (a, b) = l.split_once('-').unwrap();
            (a.to_owned(), b.to_owned())
        })
        .collect::<Vec<_>>();
    assert_eq!(caves::part1(&small), Some(10));
    assert_eq!(caves::part2(&small), Some(36));
    let g = caves::input_to_map(&small);
    assert_eq!(g.names.len(), 6);
    assert_eq!(caves::chain_vec(&[1, 2], 3), vec![1, 2, 3]);
    let none: Vec<(String, String)> = vec![("a".to_owned(), "end".to_owned())];
    assert_eq!(caves::part1(&none), None);
}

#[test]
fn origami_example() {
    let coords = [
        (6, 10), (0, 14), (9, 10), (0, 3), (10, 4), (4, 11), (6, 0), (6, 12), (4, 1), (0, 13),
        (10, 12), (3, 4), (3, 0), (8, 4), (1, 10), (2, 14), (8, 10), (9, 0),
    ];
    let points: Vec<Point> = coords.iter().map(|&(x, y)| Point { x, y }).collect();
    let folds = vec![Fold::Horizontal(7), Fold::Vertical(5)];
    assert_eq!(origami::part1(&points, &folds), Some(17));
    let (count, picture) = origami::part2(&points, &folds).unwrap();
    assert_eq!(count, 16);
    assert_eq!(picture[0][..5].iter().collect::<String>(), "#####");
    assert_eq!(picture[1][..5].iter().collect::<String>(), "#   #");
    assert_eq!(origami::part1(&points, &[]), None);
    assert_eq!(origami::part1(&[Point { x: 1, y: 7 }], &folds), None);
    assert!(origami::part2(&[Point { x: 50, y: 0 }], &[]).is_none());
    assert!(origami::part2(&[Point { x: 0, y: i32::MAX }], &[Fold::Horizontal(-1)]).is_none());
}

#[test]
fn polymer_example() {
    let raw = [
        "CH B", "HH N", "CB H", "NH C", "HB C", "HC B", "HN C", "NN C", "BH H", "NC B", "NB B",
        "BN B", "BB N", "BC B", "CC N", "CN C",
    ];
    let rules: Vec<((char, char), char)> = raw
        .iter()
        .map(|r| {
            let b: Vec<char> = r.chars().collect();
            ((b[0], b[1]), b[3])
        })
        .collect();
    assert_eq!(polymer::part1("NNCB", &rules), Some(1588));
    assert_eq!(polymer::part2("NNCB", &rules), Some(2188189693529));
    assert_eq!(polymer::solve("NNCB", &rules, 0), Some(1));
    assert_eq!(polymer::solve("", &rules, 3), None);
}

#[test]
fn trick_shot_example() {
    let t = TargetArea { x_min: 20, x_max: 30, y_min: -10, y_max: -5 };
    assert_eq!(trick_shot::part1(&t), Some(45));
    assert_eq!(trick_shot::part2(&t), 112);
    assert_eq!(trick_shot::try_simulate(&t, 6, 9), Some(45));
    assert_eq!(trick_shot::try_simulate(&t, 17, -4), None);
}

#[test]
fn nines_alone_do_not_flash() {
    let mut grid = vec![vec![9u8, 9], vec![9, 9]];
    assert_eq!(octopus::flash_all(&mut grid), (0, false));
    assert_eq!(grid, vec![vec![9u8, 9], vec![9, 9]]);
}

#[test]
fn flash_counts_one_cell() {
    let mut flashed = vec![false; 4];
    let mut cells = vec![10u8, 3, 9, 0];
    assert_eq!(octopus::flash(&mut flashed, &mut cells, 2, 0, 0), 1);
    assert_eq!(cells, vec![0, 4, 10, 1]);
    assert_eq!(flashed, vec![true, false, false, false]);
    assert_eq!(octopus::flash(&mut flashed, &mut cells, 2, 0, 0), 0);
    assert_eq!(octopus::flash(&mut flashed, &mut cells, 2, -1, 0), 0);
    assert_eq!(octopus::flash(&mut flashed, &mut cells, 2, 0, 2), 0);
    assert_eq!(cells, vec![0, 4, 10, 1]);
}

#[test]
fn high_levels_flash() {
    let mut grid = vec![vec![15u8, 1], vec![1, 1]];
    assert_eq!(octopus::flash_all(&mut grid), (1, false));
    assert_eq!(grid, vec![vec![0u8, 2], vec![2, 2]]);
}
