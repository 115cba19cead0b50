use advent_of_rust_2024::day02::add_level;
use advent_of_rust_2024::day02::is_safe;
use advent_of_rust_2024::day02::is_tolerable;
use advent_of_rust_2024::day02::parse_report;
use advent_of_rust_2024::day02::solve_day_02_part_01;
use advent_of_rust_2024::day02::solve_day_02_part_02;
use advent_of_rust_2024::day02::Direction;
use advent_of_rust_2024::day02::Trend;

#[test]
fn should_solve_day_02_part_01_to_unsafe() {
    // arrange
    let line = String::from("2 4 6 9 10 9");
    let mut lines = Vec::new();
    lines.push(line);

    // act
    let actual = solve_day_02_part_01(lines);

    // assert
    assert_eq!(0, actual);
}

#[test]
fn should_solve_day_02_part_01_to_safe() {
    // arrange
    let line = String::from("23 26 28 29 32");
    let mut lines = Vec::new();
    lines.push(line);

    // act
    let actual = solve_day_02_part_01(lines);

    // assert
    assert_eq!(1, actual);
}

#[test]
fn should_solve_day_02_part_02_example() {
    let examples = ["7 6 4 2 1", "1 2 7 8 9", "9 7 6 2 1", "1 3 2 4 5", "8 6 4 4 1", "1 3 6 7 9"];

    let actual = solve_day_02_part_02(examples.iter().map(|s| s.to_string()).collect());

    assert_eq!(4, actual);
}

#[test]
fn safe_reports_of_the_example() {
    let examples = ["7 6 4 2 1", "1 2 7 8 9", "9 7 6 2 1", "1 3 2 4 5", "8 6 4 4 1", "1 3 6 7 9"];
    assert_eq!(2, solve_day_02_part_01(examples.iter().map(|s| s.to_string()).collect()));
    assert_eq!(0, solve_day_02_part_01(Vec::new()));
    assert_eq!(1, solve_day_02_part_01(vec![String::new()]));
    assert_eq!(vec![true, false, false, false, false, true], examples.iter().map(|s| is_safe(&parse_report(s).unwrap())).collect::<Vec<bool>>());
    assert_eq!(vec![true, false, false, true, true, true], examples.iter().map(|s| is_tolerable(&parse_report(s).unwrap())).collect::<Vec<bool>>());
}

#[test]
fn levels_one_at_a_time() {
    let start = Some(Trend { dir: Direction::Undecided, last: 0 });
    let first = add_level(start, 5);
    assert_eq!(Some(Trend { dir: Direction::Undecided, last: 5 }), first);
    assert_eq!(Some(Trend { dir: Direction::Increasing, last: 8 }), add_level(first, 8));
    assert_eq!(Some(Trend { dir: Direction::Decreasing, last: 2 }), add_level(first, 2));
    assert_eq!(None, add_level(first, 5));
    assert_eq!(None, add_level(first, 9));
    assert_eq!(None, add_level(first, 1));
    let rising = Some(Trend { dir: Direction::Increasing, last: 8 });
    assert_eq!(None, add_level(rising, 7));
    assert_eq!(Some(Trend { dir: Direction::Increasing, last: 11 }), add_level(rising, 11));
    let falling = Some(Trend { dir: Direction::Decreasing, last: 8 });
    assert_eq!(None, add_level(falling, 9));
    assert_eq!(Some(Trend { dir: Direction::Decreasing, last: 5 }), add_level(falling, 5));
    assert_eq!(None, add_level(None, 5));
    // A level of 0 stands for no level: what comes behind it begins anew.
    assert!(is_safe(&vec![1, 0, 50, 49]));
    assert!(!is_safe(&vec![1, 2, 0, 50, 49]));
    assert!(!is_safe(&vec![1, 2, -1, 50]));
    // Levels at the limits of their type.
    assert!(is_safe(&vec![i32::MAX - 1, i32::MAX]));
    assert!(!is_safe(&vec![i32::MIN, i32::MAX]));
    assert!(is_safe(&vec![i32::MIN + 3, i32::MIN]));
}

#[test]
fn reports_are_numbers() {
    assert_eq!(Some(vec![7, -6, 4]), parse_report(" 7  -6\t+4 "));
    assert_eq!(None, parse_report("7 six"));
    assert_eq!(None, parse_report("2147483648"));
    assert_eq!(Some(vec![-2147483648]), parse_report("-2147483648"));
    assert_eq!(Some(vec![]), parse_report(""));
}
