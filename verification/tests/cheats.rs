use advent_of_rust_2024::cheats::count_cheats;
use advent_of_rust_2024::cheats::saving_of;
use advent_of_rust_2024::costs::build_cost_map;
use advent_of_rust_2024::day20::a_star_pathfinding;
use advent_of_rust_2024::day20::solve_day_20_part_01;
use advent_of_rust_2024::day20::solve_day_20_part_02;
use advent_of_rust_2024::day20::Cheating;
use advent_of_rust_2024::day20::CheatingStep;
use advent_of_rust_2024::maze::Cell;
use advent_of_rust_2024::maze::Maze;
use advent_of_rust_2024::util::point::Point;

#[test]
fn should_solve_minimal_example() {
    let map = "
#####
#S..#
###.#
#E..#
#####"
        .trim();
    let actual = solve_day_20_part_01(&map, 2);

    assert_eq!(2, actual);
}

const SAMPLE_MAZE: &str = "
###############
#...#...#.....#
#.#.#.#.#.###.#
#S#...#.#.#...#
#######.#.#.###
#######.#.#...#
#######.#.###.#
###..E#...#...#
###.#######.###
#...###...#...#
#.#####.#.###.#
#.#...#.#.#...#
#.#.#.#.#.#.###
#...#...#...###
###############";

#[test]
fn should_solve_example() {
    let solution = solve_day_20_part_01(SAMPLE_MAZE, 1);

    assert_eq!(44, solution);
}

#[test]
fn should_find_best_solution_without_cheating() {
    let map = Maze::parse(SAMPLE_MAZE.trim()).unwrap();
    let cost = a_star_pathfinding(&map);
    assert_eq!(Some(84), cost);
}

#[test]
fn should_find_best_solution_without_cheating_variation() {
    let map = Maze::parse(
        "
###############
#...#.........#
#.#.#.#.#.###.#
#S#...#.#.#...#
#######.#.#.###
#######.#.#...#
#######.#.###.#
###..E#...#...#
###.#######.###
#...###...#...#
#.#####.#.###.#
#.#...#.#.#...#
#.#.#.#.#.#.###
#...#...#...###
###############"
            .trim(),
    )
    .unwrap();
    let cost = a_star_pathfinding(&map);
    assert_eq!(Some(72), cost);
}

#[test]
fn should_solve_serpentines() {
    let map = "
###############
#S............#
#############.#
#.............#
#.#############
#.............#
#############.#
#.............#
#.#############
#.............#
#############.#
#.............#
#.#############
#............E#
###############"
        .trim();
    let actual = solve_day_20_part_01(&map, 1);

    assert_eq!(12 * 6, actual);
}

#[test]
fn should_solve_day_20_part_02_sample() {
    let input: &str = "
###############
#...#...#.....#
#.#.#.#.#.###.#
#S#...#.#.#...#
#######.#.#.###
#######.#.#...#
#######.#.###.#
###..E#...#...#
###.#######.###
#...###...#...#
#.#####.#.###.#
#.#...#.#.#...#
#.#.#.#.#.#.###
#...#...#...###
###############"
        .trim();
    let expected = 32 + 31 + 29 + 39 + 25 + 23 + 20 + 19 + 12 + 14 + 12 + 22 + 4 + 3;
    assert_eq!(expected, solve_day_20_part_02(input, 50));
}

#[test]
fn cheats_by_saving_on_the_sample() {
    // The published numbers of cheats of two steps, by what they save.
    let by_saving = [
        (2, 14),
        (4, 14),
        (6, 2),
        (8, 4),
        (10, 2),
        (12, 3),
        (20, 1),
        (36, 1),
        (38, 1),
        (40, 1),
        (64, 1),
    ];
    let map = Maze::parse(SAMPLE_MAZE).unwrap();
    let costs = build_cost_map(&map, 0);
    for (saving, number) in by_saving {
        let at_least = count_cheats(&costs, 2, saving);
        let more = count_cheats(&costs, 2, saving + 1);
        assert_eq!(number, at_least - more);
    }
    assert_eq!(0, count_cheats(&costs, 2, 65));
    assert_eq!(14 + 14 + 2 + 4 + 2 + 3 + 1 + 1 + 1 + 1 + 1, count_cheats(&costs, 2, 1));
}

#[test]
fn a_cheat_that_saves_nothing_counts_only_without_threshold() {
    let map = Maze::parse("S.E").unwrap();
    let costs = build_cost_map(&map, 0);
    // No steps: the three cells themselves. One step: two pairs forwards.
    // Two steps: one pair forwards. Backwards every pair loses.
    assert_eq!(3, count_cheats(&costs, 0, 0));
    assert_eq!(5, count_cheats(&costs, 1, 0));
    assert_eq!(6, count_cheats(&costs, 2, 0));
    assert_eq!(6, count_cheats(&costs, 255, 0));
    assert_eq!(0, count_cheats(&costs, 2, 1));
}

#[test]
fn saving_is_never_negative() {
    assert_eq!(Some(4), saving_of(0, 6, 2));
    assert_eq!(Some(0), saving_of(2, 4, 2));
    assert_eq!(None, saving_of(2, 4, 3));
    assert_eq!(None, saving_of(6, 0, 2));
    assert_eq!(None, saving_of(u64::MAX, 0, u32::MAX));
    assert_eq!(Some(u64::MAX), saving_of(0, u64::MAX, 0));
}

#[test]
fn cheating_steps() {
    let a = Point::new(1, 1);
    let b = Point::new(2, 1);
    let c = Point::new(3, 1);
    let not_yet = Cheating::new(None, None);
    let first = Cheating::new(Some(a), None);
    let over = Cheating::new(Some(a), Some(c));
    let illegal = Cheating::new(None, Some(c));
    assert_eq!(CheatingStep::NotYet, not_yet.cheating_state());
    assert_eq!(CheatingStep::FirstCheatingMove, first.cheating_state());
    assert_eq!(CheatingStep::Cheated, over.cheating_state());

    assert_eq!(Some(not_yet), not_yet.advance(a, b, Cell::Open));
    assert_eq!(Some(first), not_yet.advance(a, b, Cell::Wall));
    assert_eq!(Some(over), first.advance(b, c, Cell::Open));
    assert_eq!(None, first.advance(b, c, Cell::Wall));
    assert_eq!(Some(over), over.advance(a, b, Cell::Open));
    assert_eq!(None, over.advance(a, b, Cell::Wall));
    assert_eq!(None, illegal.advance(a, b, Cell::Open));
    assert_eq!(None, illegal.advance(a, b, Cell::Wall));
}
