use advent_of_rust_2024::day10::part1::solve_day_10_part_01;
use advent_of_rust_2024::day10::part1::Altitude;
use advent_of_rust_2024::day10::part1::TopographicMap;
use advent_of_rust_2024::day10::part1::Trail;
use advent_of_rust_2024::day10::part2::solve_day_10_part_02;
use advent_of_rust_2024::util::point::Point;

#[test]
fn part1_should_solve_day_10_part_01_sample() {
    assert_eq!(
        2,
        solve_day_10_part_01(
            "
...0...
...1...
...2...
6543456
7.....7
8.....8
9.....9"
                .trim()
                .to_string()
        )
    );

    assert_eq!(
        36,
        solve_day_10_part_01(
            "
89010123
78121874
87430965
96549874
45678903
32019012
01329801
10456732"
                .trim()
                .to_string()
        )
    );
}

#[test]
fn part2_should_solve_day_10_part_01_sample() {
    assert_eq!(
        81,
        solve_day_10_part_02(
            "
89010123
78121874
87430965
96549874
45678903
32019012
01329801
10456732"
                .trim()
                .to_string()
        )
    );
}

#[test]
fn trails_climb_one_step_at_a_time() {
    let map = TopographicMap::parse("01\n21\nx0");
    assert_eq!(Some(Altitude(0)), map.get(&Point::new(0, 0)));
    assert_eq!(Some(Altitude(11)), map.get(&Point::new(0, 2)));
    assert_eq!(None, map.get(&Point::new(2, 0)));
    assert_eq!(
        vec![(Point::new(0, 0), Altitude(0)), (Point::new(1, 2), Altitude(0))],
        map.starting_points()
    );
    let head = Trail::new(Point::new(1, 2));
    assert!(!head.is_completed());
    let next = map.travel_adjacent(head);
    assert_eq!(vec![Trail::new_set(Point::new(1, 2), Point::new(1, 1), Altitude(1))], next);
    assert_eq!(
        vec![Trail::new_set(Point::new(1, 2), Point::new(0, 1), Altitude(2))],
        map.travel_adjacent(next[0])
    );
    assert_eq!(0, map.travel_adjacent(Trail::new_set(Point::new(0, 0), Point::new(0, 1), Altitude(2))).len());
    assert!(Trail::new_set(Point::new(0, 0), Point::new(5, 5), Altitude(9)).is_completed());
    assert!(Altitude(3).is_climbable(&Altitude(2)));
    assert!(!Altitude(3).is_climbable(&Altitude(3)));
    assert!(!Altitude(0).is_climbable(&Altitude(255)));
}

#[test]
fn score_counts_peaks_and_rating_counts_trails() {
    let fork = "
.....0.
..4321.
..5..2.
..6543.
..7..4.
..8765.
..9....";
    assert_eq!(1, solve_day_10_part_01(fork.trim().to_string()));
    assert_eq!(3, solve_day_10_part_02(fork.trim().to_string()));
    assert_eq!(0, solve_day_10_part_01(String::new()));
    assert_eq!(0, solve_day_10_part_02("0123456780".to_string()));
    assert_eq!(2, solve_day_10_part_01("0123456789876543210".to_string()));
    assert_eq!(1, TopographicMap::parse("9876543210").score(Point::new(9, 0)));
    assert_eq!(0, TopographicMap::parse("9876543210").score(Point::new(0, 0)));
}
