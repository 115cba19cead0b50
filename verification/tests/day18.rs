use advent_of_rust_2024::day18::a_star_pathfinding;
use advent_of_rust_2024::day18::solve_day_18_part_01;
use advent_of_rust_2024::day18::solve_day_18_part_02;
use advent_of_rust_2024::day18::PushdownAutomatonMap;
use advent_of_rust_2024::util::point::Point;

#[test]
fn should_solve_day_18_part_01_sample() {
    let input = "
5,4
4,2
4,5
3,0
2,1
6,3
2,4
1,5
0,6
3,3
2,6
5,1"
    .trim();

    assert_eq!(22, solve_day_18_part_01(input, 7, 12));
}

#[test]
fn should_solve_day_18_part_02_sample() {
    let input = "
5,4
4,2
4,5
3,0
2,1
6,3
2,4
1,5
0,6
3,3
2,6
5,1
1,2
5,5
2,5
6,5
1,4
0,4
6,4
1,1
6,1
1,0
0,5
1,6
2,0"
    .trim();

    assert_eq!("6,1", solve_day_18_part_02(input, 7));
}

#[test]
fn memory_space_edge_cases() {
    // No byte has fallen: the way runs along two sides.
    assert_eq!(Some(12), a_star_pathfinding(PushdownAutomatonMap::new("", 7, 0)));
    assert_eq!(Some(12), a_star_pathfinding(PushdownAutomatonMap::new("3,3\n1,1", 7, 0)));
    // Only the first bytes of the list count.
    assert_eq!(Some(2), a_star_pathfinding(PushdownAutomatonMap::new("5,5\n0,1\n1,0", 2, 1)));
    assert_eq!(Some(2), a_star_pathfinding(PushdownAutomatonMap::new("5,5\n0,1\n1,0", 2, 2)));
    assert_eq!(None, a_star_pathfinding(PushdownAutomatonMap::new("5,5\n0,1\n1,0", 2, 3)));
    // A byte on the start does not stop the walker; one on the goal does.
    assert_eq!(Some(2), a_star_pathfinding(PushdownAutomatonMap::new("0,0", 2, 1)));
    assert_eq!(None, a_star_pathfinding(PushdownAutomatonMap::new("1,1", 2, 1)));
    // A space of one cell is start and goal at once; one of none has no way.
    assert_eq!(Some(0), a_star_pathfinding(PushdownAutomatonMap::new("0,0", 1, 1)));
    assert_eq!(None, a_star_pathfinding(PushdownAutomatonMap::new("", 0, 0)));
    // Bytes outside the space and signs in front of the numbers.
    let map = PushdownAutomatonMap::new(" -1,+1 \n9,9\n+0,1", 2, 9);
    assert!(map.is_corrupt(Point::new(-1, 1)));
    assert!(map.is_corrupt(Point::new(0, 1)));
    assert!(!map.is_corrupt(Point::new(1, 0)));
    assert_eq!(2, map.size());
    assert_eq!(Some(2), a_star_pathfinding(map));
}
