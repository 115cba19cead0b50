use advent_of_rust_2024::day04::count_at;
use advent_of_rust_2024::day04::crossings;
use advent_of_rust_2024::day04::search;
use advent_of_rust_2024::day04::solve_day_04_part_01;
use advent_of_rust_2024::day04::solve_day_04_part_02;
use advent_of_rust_2024::util::grid::CharGrid;
use advent_of_rust_2024::util::grid::Direction;
use advent_of_rust_2024::util::point::Point;

#[test]
fn should_solve_day_04_part_01_sample_0() {
    let actual = solve_day_04_part_01("XMAS".to_string());
    assert_eq!(1, actual);
}

#[test]
fn should_solve_day_04_part_01_sample_1() {
    let input = "
WWXWWW
WSAMXW
WAWWAW
XMASWS
WXWWWW"
        .trim()
        .to_string();

    let actual = solve_day_04_part_01(input);

    assert_eq!(4, actual);
}

#[test]
fn should_solve_day_04_part_01_sample_2() {
    let input = "MMMSXXMASM
MSAMXMSMSA
AMXSXMAAMM
MSAMASMSMX
XMASAMXAMM
XXAMMXXAMA
SMSMSASXSS
SAXAMASAAA
MAMMMXMMMM
MXMXAXMASX"
        .to_string();

    assert_eq!(18, solve_day_04_part_01(input));
}

#[test]
fn should_solve_day_04_part_01_sample_3() {
    let input = "
MMMSXXMASM
MSAMXMSMSA
AMXSXMAAMM
MSAMASMSMX
XMASAMXAMM
XXAMMXXAMA
SMSMSASXSS
SAXAMASAAA
MAMMMXMMMM
MXMXAXMASX
MMMSXXMASM
MSAMXMSMSA
AMXSXMAAMM
MSAMASMSMX
XMASAMXAMM
XXAMMXXAMA
SMSMSASXSS
SAXAMASAAA
MAMMMXMMMM
MXMXAXMASX"
        .trim()
        .to_string();

    assert_eq!(true, 2 * 18 <= solve_day_04_part_01(input));
}

#[test]
fn should_solve_day_04_part_02_sample_1() {
    let input = "
MMMSXXMASM
MSAMXMSMSA
AMXSXMAAMM
MSAMASMSMX
XMASAMXAMM
XXAMMXXAMA
SMSMSASXSS
SAXAMASAAA
MAMMMXMMMM
MXMXAXMASX"
        .trim()
        .to_string();

    let actual = solve_day_04_part_02(input);

    assert_eq!(9, actual);
}

#[test]
fn words_in_every_direction() {
    let star = CharGrid::parse("S..S..S\n.A.A.A.\n..MMM..\nSAMXMAS\n..MMM..\n.A.A.A.\nS..S..S");
    assert_eq!(8, count_at(&star, Point::new(3, 3)));
    assert_eq!(0, count_at(&star, Point::new(2, 3)));
    assert_eq!(0, count_at(&star, Point::new(9, 9)));
    let word: Vec<char> = "MAS".chars().collect();
    assert!(search(&star, &word, Point::new(3, 3), Direction::NE));
    assert!(!search(&star, &word, Point::new(3, 2), Direction::NE));
    assert!(search(&star, &Vec::new(), Point::new(30, 30), Direction::N));
    assert_eq!(8, solve_day_04_part_01("S..S..S\n.A.A.A.\n..MMM..\nSAMXMAS\n..MMM..\n.A.A.A.\nS..S..S".to_string()));
    // Only the first letter may be small.
    assert_eq!(1, solve_day_04_part_01("xMAS".to_string()));
    assert_eq!(0, solve_day_04_part_01("XmAS".to_string()));
    assert_eq!(0, solve_day_04_part_01(String::new()));
}

#[test]
fn crossed_words() {
    let cross = CharGrid::parse("M.S\n.A.\nM.S");
    assert_eq!(2, crossings(&cross, Point::new(1, 1)));
    assert_eq!(0, crossings(&cross, Point::new(0, 0)));
    assert_eq!(1, solve_day_04_part_02("M.S\n.A.\nM.S".to_string()));
    assert_eq!(1, solve_day_04_part_02("S.S\n.A.\nM.M".to_string()));
    // The word itself is read in capital letters only.
    assert_eq!(0, solve_day_04_part_02("S.S\n.a.\nM.M".to_string()));
    assert_eq!(0, solve_day_04_part_02("M.S\n.A.\nS.M".to_string()));
    assert_eq!(0, solve_day_04_part_02("M.S\n.A.\nM..".to_string()));
}
