use advent_of_rust_2024::day01::count_of;
use advent_of_rust_2024::day01::get_lists_from_input;
use advent_of_rust_2024::day01::parse_pair;
use advent_of_rust_2024::day01::solve_day_01_part_01;
use advent_of_rust_2024::day01::solve_day_01_part_02;
use advent_of_rust_2024::day01::sorted;
use advent_of_rust_2024::util::product::cartesian_product_flat_map;
use advent_of_rust_2024::util::product::cartesian_product_mut_push;
use advent_of_rust_2024::util::product::cartesian_product_refs;

fn sample() -> Vec<String> {
    vec!["3   4", "4   3", "2   5", "1   3", "3   9", "3   3"].into_iter().map(String::from).collect()
}

#[test]
fn lists_side_by_side() {
    assert_eq!((vec![3, 4, 2, 1, 3, 3], vec![4, 3, 5, 3, 9, 3]), get_lists_from_input(sample()));
    assert_eq!(11, solve_day_01_part_01(sample()));
    assert_eq!(31, solve_day_01_part_02(sample()));
    assert_eq!(0, solve_day_01_part_01(Vec::new()));
    assert_eq!(0, solve_day_01_part_02(Vec::new()));
    assert_eq!(u32::MAX, solve_day_01_part_01(vec!["0 4294967295".to_string()]));
}

#[test]
fn a_line_holds_two_numbers() {
    assert_eq!(Some((12, 7)), parse_pair(" 12\t 7  "));
    assert_eq!(None, parse_pair("12"));
    assert_eq!(None, parse_pair("12 7 3"));
    assert_eq!(None, parse_pair("12 -7"));
    assert_eq!(None, parse_pair("12 4294967296"));
    assert_eq!(None, parse_pair(""));
}

#[test]
fn sorting_and_counting() {
    assert_eq!(vec![1, 2, 3, 3, 3, 4], sorted(&vec![3, 4, 2, 1, 3, 3]));
    assert_eq!(Vec::<u32>::new(), sorted(&vec![]));
    assert_eq!(vec![0, u32::MAX], sorted(&vec![u32::MAX, 0]));
    assert_eq!(3, count_of(&vec![4, 3, 5, 3, 9, 3], 3));
    assert_eq!(0, count_of(&vec![4, 3, 5, 3, 9, 3], 7));
}

#[test]
fn products_pair_every_element_with_every_element() {
    let expected = vec![(1, 7), (1, 8), (1, 9), (2, 7), (2, 8), (2, 9)];
    assert_eq!(expected, cartesian_product_flat_map(vec![1, 2], vec![7, 8, 9]));
    assert_eq!(expected, cartesian_product_mut_push(vec![1, 2], vec![7, 8, 9]));
    let by_ref: Vec<(i32, i32)> =
        cartesian_product_refs(&[1, 2], &[7, 8, 9]).into_iter().map(|(a, b)| (*a, *b)).collect();
    assert_eq!(expected, by_ref);
    assert_eq!(0, cartesian_product_flat_map(Vec::<u8>::new(), vec![1]).len());
    assert_eq!(0, cartesian_product_mut_push(vec![1u8], Vec::new()).len());
    assert_eq!(0, cartesian_product_refs::<u8>(&[], &[]).len());
}
