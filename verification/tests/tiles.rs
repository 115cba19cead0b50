use advent_of_rust_2024::day16::dijkstra_pathfinding;
use advent_of_rust_2024::day16::solve_day_16_part_02;
use advent_of_rust_2024::maze::Maze;
use advent_of_rust_2024::tiles::find_all_min_cost_tiles;
use advent_of_rust_2024::tiles::heading_at;
use advent_of_rust_2024::tiles::step_back;
use advent_of_rust_2024::route::TravelDirection;
use advent_of_rust_2024::search::neighbor;
use advent_of_rust_2024::search::settle;
use advent_of_rust_2024::route::State;
use advent_of_rust_2024::util::point::Point;

const TEST_INPUT: &str = "
###############
#.......#....E#
#.#.###.#.###.#
#.....#.#...#.#
#.###.#####.#.#
#.#.#.......#.#
#.#.#####.###.#
#...........#.#
###.#.#####.#.#
#...#.....#.#.#
#.#.#.###.#.#.#
#.....#...#.#.#
#.###.#.#.#.#.#
#S..#.....#...#
###############";

const SECOND_INPUT: &str = "
#################
#...#...#...#..E#
#.#.#.#.#.#.#.#.#
#.#.#.#...#...#.#
#.#.#.#.###.#.#.#
#...#.#.#.....#.#
#.#.#.#.#.#####.#
#.#...#.#.#.....#
#.#.#####.#.###.#
#.#.#.......#...#
#.#.###.#####.###
#.#.#...#.....#.#
#.#.#.#####.###.#
#.#.#.........#.#
#.#.#.#########.#
#S#.............#
#################";

#[test]
fn should_solve_day_16_part_02_sample() {
    assert_eq!(45, solve_day_16_part_02(TEST_INPUT.trim()));
}

#[test]
fn should_solve_the_second_sample() {
    assert_eq!(64, solve_day_16_part_02(SECOND_INPUT));
    let map = Maze::parse(SECOND_INPUT).unwrap();
    assert_eq!(Some(11048), advent_of_rust_2024::day16::a_star_pathfinding(&map));
}

#[test]
fn two_best_routes_share_their_ends() {
    let map = Maze::parse(
        "
#######
##...E#
#S..###
#######
",
    )
    .unwrap();
    let tiles = dijkstra_pathfinding(&map).unwrap();
    // Both ways round the square cost the same, so every open cell counts.
    assert_eq!(
        vec![
            Point::new(2, 1),
            Point::new(3, 1),
            Point::new(4, 1),
            Point::new(5, 1),
            Point::new(1, 2),
            Point::new(2, 2),
            Point::new(3, 2)
        ],
        tiles
    );
}

#[test]
fn a_detour_is_no_best_route() {
    let map = Maze::parse(
        "
S...E
.###.
.....",
    )
    .unwrap();
    let tiles = find_all_min_cost_tiles(&map, 1000).unwrap();
    assert_eq!((0..5).map(|x| Point::new(x, 0)).collect::<Vec<Point>>(), tiles);
    // Without a price on turns the way below is as long as it was, and
    // still longer than the straight one.
    assert_eq!(5, find_all_min_cost_tiles(&map, 0).unwrap().len());
    let ring = Maze::parse("S.\n.E").unwrap();
    assert_eq!(3, find_all_min_cost_tiles(&ring, 1000).unwrap().len());
    assert_eq!(4, find_all_min_cost_tiles(&ring, 0).unwrap().len());
}

#[test]
fn no_route_no_tiles() {
    let map = Maze::parse("S#E").unwrap();
    assert_eq!(None, find_all_min_cost_tiles(&map, 1000));
    assert_eq!(None, dijkstra_pathfinding(&map));
}

#[test]
fn costs_of_states_depend_on_the_heading() {
    let map = Maze::parse("S..\n..E").unwrap();
    let costs = settle(&map, 1000);
    let at = |x: i128, y: i128, heading: TravelDirection| costs.get(State { at: Point::new(x, y), heading });
    assert_eq!(Some(0), at(0, 0, TravelDirection::E));
    assert_eq!(Some(2), at(2, 0, TravelDirection::E));
    assert_eq!(Some(1003), at(2, 1, TravelDirection::S));
    assert_eq!(Some(2003), at(2, 1, TravelDirection::E));
    assert_eq!(None, at(2, 1, TravelDirection::N));
    assert_eq!(Some(2002), at(0, 0, TravelDirection::N));
    assert_eq!(None, at(3, 0, TravelDirection::E));
    assert_eq!(None, at(0, -1, TravelDirection::N));
    assert_eq!(Some(4 * 2 * 3), Some(costs.size()));
    assert_eq!(Some(1), costs.slot_of(State { at: Point::new(0, 0), heading: TravelDirection::E }));
    assert_eq!(Some(23), costs.slot_of(State { at: Point::new(2, 1), heading: TravelDirection::W }));
    assert_eq!(None, costs.slot_of(State { at: Point::new(2, 2), heading: TravelDirection::W }));
}

#[test]
fn moves_and_their_way_back() {
    let p = Point::new(4, 7);
    for i in 0..4 {
        let d = heading_at(i);
        assert_eq!(i, d.ordinal());
        assert_eq!(p, neighbor(step_back(p, d), d));
        assert_eq!(p, step_back(neighbor(p, d), d));
    }
    assert_eq!(Point::new(4, 6), neighbor(p, TravelDirection::N));
    assert_eq!(Point::new(5, 7), neighbor(p, TravelDirection::E));
    assert_eq!(Point::new(4, 8), neighbor(p, TravelDirection::S));
    assert_eq!(Point::new(3, 7), neighbor(p, TravelDirection::W));
}
