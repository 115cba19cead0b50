use advent_of_rust_2024::util::grid::CharGrid;
use advent_of_rust_2024::util::grid::Direction;
use advent_of_rust_2024::util::point::abs_diff;
use advent_of_rust_2024::util::point::Point;
use advent_of_rust_2024::util::text::chars_of;
use advent_of_rust_2024::util::text::lines;
use advent_of_rust_2024::util::text::parse_u128;
use advent_of_rust_2024::util::text::trim;
use std::collections::HashSet;

#[test]
fn should_give_proximity() {
    let p = Point::new(0, 0);
    let actual: HashSet<Point> = p.proximity_manhattan(1).into_iter().collect();
    let expected: HashSet<Point> = vec![(0, 0), (1, 0), (0, 1), (0, -1), (-1, 0)]
        .into_iter()
        .map(|(x, y)| Point::new(x as i128, y as i128))
        .collect();

    assert_eq!(expected, actual);
}

#[test]
fn proximity_lists_each_point_once() {
    let p = Point::new(7, -3);
    for n in 0..6u8 {
        let around = p.proximity_manhattan(n);
        let distinct: HashSet<Point> = around.iter().copied().collect();
        let k = n as usize;
        assert_eq!(2 * k * k + 2 * k + 1, around.len());
        assert_eq!(around.len(), distinct.len());
        for q in around {
            assert!(p.distance_to(&q).unwrap() <= n as u128);
        }
    }
}

#[test]
fn point_steps_and_arithmetic() {
    let p = Point::new(3, 5);
    assert_eq!(Point::new(2, 5), p.left());
    assert_eq!(Point::new(4, 5), p.right());
    assert_eq!(Point::new(3, 4), p.up());
    assert_eq!(Point::new(3, 6), p.down());
    assert_eq!([p.up(), p.right(), p.down(), p.left()], p.neighbors());
    assert_eq!(Point::new(4, 7), p + Point::new(1, 2));
    assert_eq!(Point::new(2, 3), p - Point::new(1, 2));
    assert_eq!(Point::new(9, 15), p * 3);
    assert_eq!(Point::new(0, 0), Point::default());
    assert_eq!(Point::new(4, 4), p + Direction::NE);
    assert_eq!(Point::new(2, 6), p + Direction::SW);
    assert_eq!(Point::new(3, 4), p + Direction::N);
    assert_eq!(Point::new(2, 4), p + Direction::NW);
    assert_eq!(Point::new(4, 6), p + Direction::SE);
    assert_eq!(Point::new(4, 5), p + Direction::E);
    assert_eq!(Point::new(3, 6), p + Direction::S);
    assert_eq!(Point::new(2, 5), p + Direction::W);
}

#[test]
fn distances() {
    assert_eq!(7, abs_diff(-3, 4));
    assert_eq!(7, abs_diff(4, -3));
    assert_eq!(u128::MAX, abs_diff(i128::MIN, i128::MAX));
    assert_eq!(0, abs_diff(i128::MIN, i128::MIN));
    assert_eq!(Some(5), Point::new(1, 1).distance_to(&Point::new(-2, 3)));
    assert_eq!(
        None,
        Point::new(i128::MIN, i128::MIN).distance_to(&Point::new(i128::MAX, i128::MAX))
    );
}

#[test]
fn grid_cells_and_neighbors() {
    let grid = CharGrid::parse("ab\ncde\n\nf");
    assert_eq!(Some(&'a'), grid.get(&Point::new(0, 0)));
    assert_eq!(Some(&'e'), grid.get(&Point::new(2, 1)));
    assert_eq!(Some(&'f'), grid.get(&Point::new(0, 3)));
    assert_eq!(None, grid.get(&Point::new(2, 0)));
    assert_eq!(None, grid.get(&Point::new(0, 2)));
    assert_eq!(None, grid.get(&Point::new(-1, 0)));
    assert_eq!(
        vec![
            (Point::new(0, 0), 'a'),
            (Point::new(1, 0), 'b'),
            (Point::new(0, 1), 'c'),
            (Point::new(1, 1), 'd'),
            (Point::new(2, 1), 'e'),
            (Point::new(0, 3), 'f')
        ],
        grid.iter()
    );
    assert_eq!(
        vec![(Point::new(0, 1), 'c'), (Point::new(2, 1), 'e'), (Point::new(1, 0), 'b')],
        grid.neighbors(&Point::new(1, 1))
    );
}

#[test]
fn text_lines_and_trimming() {
    let text = chars_of("  ab\r\ncd\n\nef\n");
    let rows: Vec<String> = lines(&text).iter().map(|l| l.iter().collect()).collect();
    assert_eq!(vec!["  ab", "cd", "", "ef"], rows);
    let trimmed: String = trim(&text).iter().collect();
    assert_eq!("ab\r\ncd\n\nef", trimmed);
    assert_eq!(0, trim(&chars_of(" \n\t ")).len());
    assert_eq!(0, lines(&chars_of("")).len());
    assert_eq!(1, lines(&chars_of("\n")).len());
}

#[test]
fn decimal_numbers() {
    assert_eq!(Some(0), parse_u128(&chars_of("0")));
    assert_eq!(Some(1234), parse_u128(&chars_of("001234")));
    assert_eq!(Some(u128::MAX), parse_u128(&chars_of("340282366920938463463374607431768211455")));
    assert_eq!(None, parse_u128(&chars_of("340282366920938463463374607431768211456")));
    assert_eq!(None, parse_u128(&chars_of("")));
    assert_eq!(None, parse_u128(&chars_of("12a")));
    assert_eq!(None, parse_u128(&chars_of("-1")));
}

#[test]
fn point_is_made_of_a_pair_of_unsigned_numbers() {
    assert_eq!(Point::new(3, 4), Point::from(&(3u128, 4u128)));
    assert_eq!(Point::new(0, -1), Point::from(&(0u128, u128::MAX)));
}
