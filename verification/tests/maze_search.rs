use advent_of_rust_2024::costs::build_cost_map;
use advent_of_rust_2024::costs::find_shortest_cost;
use advent_of_rust_2024::day16::a_star_pathfinding;
use advent_of_rust_2024::day16::g;
use advent_of_rust_2024::day16::h;
use advent_of_rust_2024::day16::solve_day_16_part_01;
use advent_of_rust_2024::day16::PathNode;
use advent_of_rust_2024::maze::Cell;
use advent_of_rust_2024::maze::Maze;
use advent_of_rust_2024::maze::ParseError;
use advent_of_rust_2024::route::TravelDirection;
use advent_of_rust_2024::util::point::Point;

const TEST_INPUT: &str = "
###############
#.......#....E#
#.#.###.#.###.#
#.....#.#...#.#
#.###.#####.#.#
#.#.#.......#.#
#.#.#####.###.#
#...........#.#
###.#.#####.#.#
#...#.....#.#.#
#.#.#.###.#.#.#
#.....#...#.#.#
#.###.#.#.#.#.#
#S..#.....#...#
###############";

#[test]
fn should_solve_day_16_part_01_sample() {
    assert_eq!(7036, solve_day_16_part_01(TEST_INPUT.trim()));
}

#[test]
fn part1_should_parse() {
    let map = Maze::parse(TEST_INPUT.trim()).unwrap();

    assert_eq!(Point::new(1, 13), map.start());
    assert_eq!(Point::new(13, 1), map.goal());
}

#[test]
fn should_solve_small_sample() {
    let input = "
#####
#S.E#
#####
"
    .trim();

    assert_eq!(2, solve_day_16_part_01(input));
}

#[test]
fn should_solve_small_sample_with_corner() {
    let input = "
#####
#S..#
###E#
#####
"
    .trim();

    assert_eq!(1003, solve_day_16_part_01(input));
}

#[test]
fn should_solve_small_sample_with_two_corners() {
    let input = "
#####
#S..#
###.#
#E..#
#####
"
    .trim();

    assert_eq!(2006, solve_day_16_part_01(input));
}

#[test]
fn parse_classifies_every_cell() {
    let map = Maze::parse("#####\n#S.E#\n#####").unwrap();
    assert_eq!(5, map.width());
    assert_eq!(3, map.height());
    assert_eq!(Some(Cell::Wall), map.get(Point::new(0, 0)));
    assert_eq!(Some(Cell::Open), map.get(Point::new(1, 1)));
    assert_eq!(Some(Cell::Open), map.get(Point::new(2, 1)));
    assert_eq!(Some(Cell::Open), map.get(Point::new(3, 1)));
    assert_eq!(Some(Cell::Wall), map.get(Point::new(4, 1)));
    assert_eq!(None, map.get(Point::new(5, 1)));
    assert_eq!(None, map.get(Point::new(0, 3)));
    assert_eq!(None, map.get(Point::new(-1, 0)));
    assert!(map.is_open(Point::new(1, 1)));
    assert!(!map.is_open(Point::new(0, 1)));
    assert!(!map.is_open(Point::new(9, 9)));
}

#[test]
fn parse_ignores_white_space_around_the_text() {
    let map = Maze::parse("\n\n  #S.E#\r\n#####\n  \n").unwrap();
    assert_eq!(Point::new(1, 0), map.start());
    assert_eq!(Point::new(3, 0), map.goal());
    assert_eq!(2, map.height());
}

#[test]
fn parse_reports_each_error() {
    assert_eq!(ParseError::UnknownChar, Maze::parse("#S.E?").unwrap_err());
    assert_eq!(ParseError::UnknownChar, Maze::parse("#SSx#").unwrap_err());
    assert_eq!(ParseError::MissingStart, Maze::parse("#..E#").unwrap_err());
    assert_eq!(ParseError::MissingStart, Maze::parse("").unwrap_err());
    assert_eq!(ParseError::DuplicateStart, Maze::parse("#S.S#").unwrap_err());
    assert_eq!(ParseError::DuplicateStart, Maze::parse("#S.S#\n#EE##").unwrap_err());
    assert_eq!(ParseError::MissingGoal, Maze::parse("#S..#").unwrap_err());
    assert_eq!(ParseError::DuplicateGoal, Maze::parse("#SEE#").unwrap_err());
}

#[test]
fn parse_reports_a_maze_that_is_too_large() {
    let mut text = String::new();
    text.push_str("S");
    for _ in 0..1000 {
        text.push('.');
    }
    text.push('\n');
    for _ in 0..999 {
        text.push_str(".\n");
    }
    text.push_str("E");
    assert_eq!(ParseError::TooLarge, Maze::parse(&text).unwrap_err());
}

#[test]
fn from_cells_checks_start_and_goal() {
    let rows = vec![vec![Cell::Open, Cell::Wall, Cell::Open]];
    assert!(Maze::from_cells(rows.clone(), Point::new(0, 0), Point::new(2, 0)).is_some());
    assert!(Maze::from_cells(rows.clone(), Point::new(0, 0), Point::new(1, 0)).is_none());
    assert!(Maze::from_cells(rows.clone(), Point::new(0, 0), Point::new(0, 0)).is_none());
    assert!(Maze::from_cells(rows.clone(), Point::new(3, 0), Point::new(0, 0)).is_none());
}

#[test]
fn unreachable_goal_is_no_cost() {
    let map = Maze::parse("S#E").unwrap();
    assert_eq!(None, a_star_pathfinding(&map));
    assert_eq!(None, find_shortest_cost(&map, 0));
}

#[test]
fn straight_line_costs_its_length() {
    let map = Maze::parse("#########\n#S.....E#\n#########").unwrap();
    assert_eq!(Some(6), a_star_pathfinding(&map));
    assert_eq!(Some(6), find_shortest_cost(&map, 1000));
    assert_eq!(Some(6), find_shortest_cost(&map, 0));
}

#[test]
fn first_move_away_from_east_is_a_turn() {
    let west = Maze::parse("E.S").unwrap();
    assert_eq!(Some(1002), a_star_pathfinding(&west));
    let south = Maze::parse("S\n.\nE").unwrap();
    assert_eq!(Some(1002), a_star_pathfinding(&south));
    assert_eq!(Some(2 + 7), find_shortest_cost(&south, 7));
}

#[test]
fn cost_depends_on_the_heading_of_arrival() {
    // Seven moves and three turns: east, north, west and north again.
    let map = Maze::parse(
        "
#E###
#...#
###.#
#S..#
#####",
    )
    .unwrap();
    assert_eq!(Some(2 + 2 + 2 + 1 + 3 * 1000), a_star_pathfinding(&map));
    // A state is a cell with a heading: who comes to the cell below the
    // goal facing west turns once more, who comes facing north does not.
    let fork = Maze::parse("#E#\n...\n.#S").unwrap();
    assert_eq!(Some(1001 + 1001 + 1001), a_star_pathfinding(&fork));
    let bend = Maze::parse("#E#\n#.#\n#.S").unwrap();
    assert_eq!(Some(1001 + 1001 + 1), a_star_pathfinding(&bend));
}

#[test]
fn searching_twice_gives_the_same_cost() {
    let map = Maze::parse(TEST_INPUT).unwrap();
    let first = find_shortest_cost(&map, 1000);
    let second = find_shortest_cost(&map, 1000);
    assert_eq!(Some(7036), first);
    assert_eq!(first, second);
}

#[test]
fn cost_map_holds_the_reachable_cells() {
    let map = Maze::parse("#######\n#S.#..#\n#..#E.#\n#######").unwrap();
    let costs = build_cost_map(&map, 0);
    assert_eq!(Some(0), costs.get(&Point::new(1, 1)));
    assert_eq!(Some(1), costs.get(&Point::new(2, 1)));
    assert_eq!(Some(1), costs.get(&Point::new(1, 2)));
    assert_eq!(Some(2), costs.get(&Point::new(2, 2)));
    assert_eq!(None, costs.get(&Point::new(3, 1)));
    assert_eq!(None, costs.get(&Point::new(4, 1)));
    assert_eq!(None, costs.get(&Point::new(4, 2)));
    assert_eq!(None, costs.get(&Point::new(0, 0)));
    assert_eq!(None, costs.get(&Point::new(-1, 5)));
    assert_eq!(None, costs.get(&Point::new(100, 1)));
}

#[test]
fn cost_is_never_below_the_distance_from_the_start() {
    let map = Maze::parse(TEST_INPUT).unwrap();
    let costs = build_cost_map(&map, 1000);
    let start = map.start();
    let mut seen = 0;
    for y in 0..15 {
        for x in 0..15 {
            let p = Point::new(x, y);
            if let Some(c) = costs.get(&p) {
                let d = (p.x - start.x).unsigned_abs() + (p.y - start.y).unsigned_abs();
                assert!(c as u128 >= d);
                assert!(map.is_open(p));
                seen += 1;
            }
        }
    }
    assert_eq!(104, seen);
    assert_eq!(Some(7036), costs.get(&map.goal()));
}

#[test]
fn search_node_helpers() {
    let node = PathNode::new(Point::new(3, 4), 10, 5, TravelDirection::E);
    assert_eq!(15, node.f());
    assert_eq!(Some(TravelDirection::E), node.dir_to(&Point::new(4, 4)));
    assert_eq!(Some(TravelDirection::W), node.dir_to(&Point::new(2, 4)));
    assert_eq!(Some(TravelDirection::S), node.dir_to(&Point::new(3, 5)));
    assert_eq!(Some(TravelDirection::N), node.dir_to(&Point::new(3, 3)));
    assert_eq!(None, node.dir_to(&Point::new(4, 5)));
    assert_eq!(Some((11, TravelDirection::E)), g(&Point::new(4, 4), &node));
    assert_eq!(Some((1011, TravelDirection::N)), g(&Point::new(3, 3), &node));
    assert_eq!(None, g(&Point::new(3, 4), &node));
    assert_eq!(7, h(&Point::new(1, 13), &Point::new(5, 10)));
    assert_eq!(0, h(&Point::new(-2, 3), &Point::new(-2, 3)));
}

#[test]
fn a_maze_that_is_drawn_and_read_again_keeps_its_cells() {
    let map = Maze::parse(TEST_INPUT).unwrap();
    let text = map.render();
    assert_eq!(TEST_INPUT.trim().replace('S', ".").replace('E', "."), text);
    let cells = advent_of_rust_2024::maze::parse_cells(&text).unwrap();
    assert_eq!(15, cells.len());
    for y in 0..16 {
        for x in 0..16 {
            let again = cells.get(y).and_then(|row: &Vec<Cell>| row.get(x)).copied();
            assert_eq!(map.get(Point::new(x as i128, y as i128)), again);
        }
    }
    // Rows may differ in length, and may be empty.
    let ragged = Maze::from_cells(
        vec![vec![Cell::Open, Cell::Wall], vec![], vec![Cell::Open], vec![]],
        Point::new(0, 0),
        Point::new(0, 2),
    )
    .unwrap();
    assert_eq!(".#\n\n.\n", ragged.render());
    let read = advent_of_rust_2024::maze::parse_cells(&ragged.render()).unwrap();
    assert_eq!(vec![vec![Cell::Open, Cell::Wall], vec![], vec![Cell::Open]], read);
    assert!(advent_of_rust_2024::maze::parse_cells("#.x").is_none());
    assert_eq!(Some(vec![vec![Cell::Wall, Cell::Open, Cell::Open, Cell::Open]]), advent_of_rust_2024::maze::parse_cells("#.SE"));
}
