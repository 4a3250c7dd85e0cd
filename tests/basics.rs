use advent_of_rust_2021::dive::{self, Instruction};
use advent_of_rust_2021::input_read::read_to_2d_byte_array;
use advent_of_rust_2021::{lanternfish, smoke, sonar, syntax};

#[test]
fn sonar_example() {
    let depths = [199, 200, 208, 210, 200, 207, 240, 269, 260, 263];
    assert_eq!(sonar::part1(&depths), 7);
    assert_eq!(sonar::part2(&depths), 5);
    assert_eq!(sonar::part1(&[]), 0);
    assert_eq!(sonar::part2(&[1, 2, 3]), 0);
}

#[test]
fn dive_example() {
    let course = [
        Instruction::Forward(5),
        Instruction::Down(5),
        Instruction::Forward(8),
        Instruction::Up(3),
        Instruction::Down(8),
        Instruction::Forward(2),
    ];
    assert_eq!(dive::part1(&course), Some(150));
    assert_eq!(dive::part2(&course), Some(900));
    assert_eq!(dive::part1(&[Instruction::Forward(i32::MAX), Instruction::Forward(1)]), None);
    assert_eq!(dive::part2(&[Instruction::Down(100000), Instruction::Forward(100000)]), None);
}

#[test]
fn lanternfish_example() {
    let fish = [3, 4, 3, 1, 2];
    assert_eq!(lanternfish::solve(&fish, 18), Some(26));
    assert_eq!(lanternfish::part1(&fish), Some(5934));
    assert_eq!(lanternfish::part2(&fish), Some(26984457539));
    assert_eq!(lanternfish::solve(&fish, -1), Some(5));
}

fn lines(v: &[&str]) -> Vec<String> {
    v.iter().map(|s| s.to_string()).collect()
}

#[test]
fn syntax_example() {
    let input = lines(&[
        "[({(<(())[]>[[{[]{<()<>>",
        "[(()[<>])]({[<{<<[]>>(",
        "{([(<{}[<>[]}>{[]{[(<()>",
        "(((({<>}<{<{<>}{[]{[]{}",
        "[[<[([]))<([[{}[[()]]]",
        "[{[{({}]{}}([{[{{{}}([]",
        "{<[[]]>}<{[{[{[]{()[[[]",
        "[<(<(<(<{}))><([]([]()",
        "<{([([[(<>()){}]>(<<{{",
        "<{([{{}}[<[[[<>{}]]]>[]]",
    ]);
    assert_eq!(syntax::part1(&input), Some(26397));
    assert_eq!(syntax::part2(&input), Some(288957));
    assert_eq!(syntax::part2(&lines(&["(]"])), None);
}

#[test]
fn syntax_scores() {
    assert_eq!(syntax::score(')'), 3);
    assert_eq!(syntax::score('>'), 25137);
    assert_eq!(syntax::score('a'), 0);
    assert_eq!(syntax::match_and_score('(', ')'), (true, 3));
    assert_eq!(syntax::match_and_score('[', '}'), (false, 1197));
    assert_eq!(syntax::score_stack(&['<', '{', '(', '[']), Some(294));
    assert_eq!(syntax::score_stack(&[]), Some(0));
    assert_eq!(syntax::score_stack(&['<'; 30]), None);
    assert_eq!(syntax::part2(&lines(&["<<<<<<<<<<<<<<<<<<<<<<<<<<<<<<"])), None);
}

#[test]
fn smoke_example() {
    let grid = read_to_2d_byte_array(&lines(&[
        "2199943210",
        "3987894921",
        "9856789892",
        "8767896789",
        "9899965678",
    ]))
    .unwrap();
    assert_eq!(smoke::part1(&grid), Some(15));
    assert_eq!(smoke::part2(&grid), 1134);
}

#[test]
fn flood_marks_one_basin() {
    let grid = read_to_2d_byte_array(&lines(&["2199943210", "3987894921"])).unwrap();
    let mut visited = vec![false; 20];
    assert_eq!(smoke::flood_basin(&mut visited, &grid, 0, 0), 3);
    assert_eq!(smoke::flood_basin(&mut visited, &grid, 0, 0), 0);
    assert_eq!(smoke::flood_basin(&mut visited, &grid, 0, 2), 0);
}

#[test]
fn digits_are_read() {
    assert_eq!(read_to_2d_byte_array(&lines(&["12", "90"])), Some(vec![vec![1, 2], vec![9, 0]]));
    assert_eq!(read_to_2d_byte_array(&lines(&["1a"])), None);
}
