use advent_of_rust_2024::day06::parse_to_map;
use advent_of_rust_2024::day06::patrol;
use advent_of_rust_2024::day06::solve_day_06_part_01;
use advent_of_rust_2024::day06::solve_day_06_part_02;
use advent_of_rust_2024::day06::solve_day_06_part_02_fast;
use advent_of_rust_2024::day06::turn;
use advent_of_rust_2024::route::TravelDirection;
use advent_of_rust_2024::util::point::Point;

const SAMPLE: &str = "
....#.....
.........#
..........
..#.......
.......#..
..........
.#..^.....
........#.
#.........
......#...";

const ROUND: &str = "\
.#..
...#
#^..
..#.";

const BOXED: &str = "\
.#.
#^#
.#.";

#[test]
fn should_solve_day_06_part_01_sample() {
    let input = SAMPLE.trim().to_string();

    assert_eq!(41, solve_day_06_part_01(input));
}

#[test]
fn should_turn_90_degrees() {
    assert_eq!(TravelDirection::E, turn(TravelDirection::N));
    assert_eq!(TravelDirection::S, turn(TravelDirection::E));
    assert_eq!(TravelDirection::W, turn(TravelDirection::S));
    assert_eq!(TravelDirection::N, turn(TravelDirection::W));
}

#[test]
fn should_solve_day_06_part_02_sample() {
    let input = SAMPLE.trim().to_string();

    assert_eq!(6, solve_day_06_part_02_fast(input));
}

#[test]
fn both_counts_of_traps_agree_on_the_sample() {
    assert_eq!(6, solve_day_06_part_02(SAMPLE.trim().to_string()));
}

#[test]
fn guard_alone_on_one_place_leaves_at_once() {
    assert_eq!(1, solve_day_06_part_01("^".to_string()));
    assert_eq!(0, solve_day_06_part_02("^".to_string()));
    assert_eq!(2, solve_day_06_part_01(".\n^".to_string()));
    assert_eq!(0, solve_day_06_part_02(".\n^".to_string()));
}

#[test]
fn guard_who_goes_round_visits_four_places() {
    assert_eq!(4, solve_day_06_part_01(ROUND.to_string()));
    assert_eq!(0, solve_day_06_part_02(ROUND.to_string()));
    let lab = parse_to_map(ROUND).unwrap();
    let round = patrol(&lab, None);
    assert!(!round.leaves);
    assert_eq!(
        vec![Point::new(1, 2), Point::new(1, 1), Point::new(2, 1), Point::new(2, 2)],
        round.cells
    );
}

#[test]
fn guard_between_four_obstacles_turns_for_ever() {
    assert_eq!(1, solve_day_06_part_01(BOXED.to_string()));
    let lab = parse_to_map(BOXED).unwrap();
    assert!(!patrol(&lab, None).leaves);
}

#[test]
fn one_more_obstacle_changes_the_patrol() {
    let lab = parse_to_map(ROUND).unwrap();
    let out = patrol(&lab, Some(Point::new(1, 1)));
    assert!(out.leaves);
    assert_eq!(vec![Point::new(1, 2), Point::new(2, 2), Point::new(3, 2)], out.cells);
}

#[test]
fn patrol_ends_at_the_end_of_a_short_line() {
    assert_eq!(3, solve_day_06_part_01("#\n^..\n".to_string()));
    assert_eq!(2, solve_day_06_part_01("#..\n^.\n#".to_string()));
}

#[test]
fn map_needs_known_characters_and_a_start() {
    assert!(parse_to_map("..x\n^").is_none());
    assert!(parse_to_map("...\n.#.").is_none());
    assert!(parse_to_map("").is_none());
    assert!(parse_to_map(" ^").is_none());
}

#[test]
fn last_start_mark_is_the_start() {
    let lab = parse_to_map("^.\r\n.^\r\n").unwrap();
    assert_eq!(Point::new(1, 1), lab.start);
    assert_eq!(2, lab.width);
    assert_eq!(2, lab.rows.len());
}
