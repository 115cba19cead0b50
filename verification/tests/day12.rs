use advent_of_rust_2024::day12::part1::get_regions;
use advent_of_rust_2024::day12::part1::solve_day_12_part_01;
use advent_of_rust_2024::day12::part1::Region;
use advent_of_rust_2024::day12::part2::get_edge_count;
use advent_of_rust_2024::day12::part2::solve_day_12_part_02;
use advent_of_rust_2024::util::grid::CharGrid;
use advent_of_rust_2024::util::point::Point;

const LARGE: &str = "
RRRRIICCFF
RRRRIICCCF
VVRRRCCFFF
VVRCCCJFFF
VVVVCJJCFE
VVIVCCJJEE
VVIIICJJEE
MIIIIIJJEE
MIIISIJEEE
MMMISSJEEE";

#[test]
fn should_solve_day_12_part_01_sample() {
    let input = "
AAAA
BBCD
BBCC
EEEC"
        .trim();

    assert_eq!(140, solve_day_12_part_01(input));
}

#[test]
fn should_solve_day_12_part_01_sample_2() {
    let input = LARGE.trim();

    assert_eq!(1930, solve_day_12_part_01(input));
}

#[test]
fn should_solve_day_12_part_02_sample() {
    let input = "
EEEEE
EXXXX
EEEEE
EXXXX
EEEEE"
        .trim();

    assert_eq!(236, solve_day_12_part_02(input));
}

#[test]
fn should_solve_day_12_part_02_sample_2() {
    let input = "
AAAAAA
AAABBA
AAABBA
ABBAAA
ABBAAA
AAAAAA"
        .trim();

    assert_eq!(368, solve_day_12_part_02(input));
}

#[test]
fn should_solve_day_12_part_02_sample_3() {
    let input = LARGE.trim();

    assert_eq!(1206, solve_day_12_part_02(input));
}

#[test]
fn regions_come_in_the_order_of_their_first_cells() {
    let grid = CharGrid::parse("AAAA\nBBCD\nBBCC\nEEEC");
    let regions = get_regions(&grid);
    let tokens: Vec<char> = regions.iter().map(|r| r.token).collect();
    assert_eq!(vec!['A', 'B', 'C', 'D', 'E'], tokens);
    let areas: Vec<usize> = regions.iter().map(|r| r.get_area()).collect();
    assert_eq!(vec![4, 4, 4, 1, 3], areas);
    let fences: Vec<usize> = regions.iter().map(|r| r.get_perimeter(&grid)).collect();
    assert_eq!(vec![10, 8, 10, 4, 8], fences);
    let sides: Vec<usize> =
        regions.iter().map(|r| get_edge_count(r.token, &r.area, &grid)).collect();
    assert_eq!(vec![4, 4, 8, 4, 4], sides);
    let firsts: Vec<Point> = regions.iter().map(|r| r.area[0]).collect();
    assert_eq!(
        vec![
            Point::new(0, 0),
            Point::new(0, 1),
            Point::new(2, 1),
            Point::new(3, 1),
            Point::new(0, 3)
        ],
        firsts
    );
}

#[test]
fn regions_of_one_letter_that_do_not_touch_are_two() {
    let grid = CharGrid::parse("OXO\nXOX");
    let regions = get_regions(&grid);
    assert_eq!(6, regions.len());
    assert!(regions.iter().all(|r| r.get_area() == 1));
    assert_eq!(24, solve_day_12_part_01("OXO\nXOX"));
    assert_eq!(24, solve_day_12_part_02("OXO\nXOX"));
}

#[test]
fn region_inside_another_adds_fences_to_it() {
    let input = "OOOOO\nOXOXO\nOOOOO\nOXOXO\nOOOOO";
    assert_eq!(772, solve_day_12_part_01(input));
    assert_eq!(436, solve_day_12_part_02(input));
}

#[test]
fn garden_without_cells_costs_nothing() {
    assert_eq!(0, solve_day_12_part_01(""));
    assert_eq!(0, solve_day_12_part_02(""));
    assert_eq!(0, get_regions(&CharGrid::parse("")).len());
    assert_eq!(4, solve_day_12_part_01("A"));
    assert_eq!(4, solve_day_12_part_02("A"));
}

#[test]
fn rows_of_a_garden_may_differ_in_length() {
    let grid = CharGrid::parse("AAA\nA\nBA");
    let regions = get_regions(&grid);
    assert_eq!(3, regions.len());
    assert_eq!(4, regions[0].get_area());
    assert_eq!(10, regions[0].get_perimeter(&grid));
    assert_eq!('B', regions[1].token);
    assert_eq!(Point::new(1, 2), regions[2].area[0]);
    assert_eq!(4 * 10 + 4 + 4, solve_day_12_part_01("AAA\nA\nBA"));
}

#[test]
fn region_starts_empty() {
    let region = Region::new('x');
    assert_eq!('x', region.token);
    assert_eq!(0, region.get_area());
}
