use advent_of_rust_2024::day19::part1::can_be_achieved;
use advent_of_rust_2024::day19::part1::count_ways;
use advent_of_rust_2024::day19::part1::parse;
use advent_of_rust_2024::day19::part1::solve_day_19_part_01;
use advent_of_rust_2024::day19::part1::try_parse;
use advent_of_rust_2024::day19::part1::AvailableTowels;
use advent_of_rust_2024::day19::part1::StripColor;
use advent_of_rust_2024::day19::part2::solve_day_19_part_02;

#[test]
fn should_solve_day_19_part_01_sample() {
    let input = "r, wr, b, g, bwu, rb, gb, br

brwrr
bggr
gbbr
rrbgbr
ubwu
bwurrg
brgr
bbrgwb"
        .trim();

    assert_eq!(6, solve_day_19_part_01(input));
}

#[test]
fn should_solve_day_19_part_02_sample() {
    let input = "r, wr, b, g, bwu, rb, gb, br

brwrr
bggr
gbbr
rrbgbr
ubwu
bwurrg
brgr
bbrgwb"
        .trim();

    assert_eq!(16, solve_day_19_part_02(input));
}

#[test]
fn towels_and_designs_are_read_in_order() {
    let (towels, goals) = parse("r, wr,b\n\nbr\n\nwu");
    assert_eq!(
        vec![
            vec![StripColor::Red],
            vec![StripColor::White, StripColor::Red],
            vec![StripColor::Black]
        ],
        towels.0
    );
    assert_eq!(
        vec![
            vec![StripColor::Black, StripColor::Red],
            vec![],
            vec![StripColor::White, StripColor::Blue]
        ],
        goals.0
    );
    assert!(try_parse("").is_none());
    assert!(try_parse("r, x\n\nr").is_none());
    assert!(try_parse("r, g\n\nrg \nr").is_none());
    let (one, none) = parse("g");
    assert_eq!(vec![vec![StripColor::Green]], one.0);
    assert_eq!(0, none.0.len());
}

#[test]
#[allow(non_snake_case)]
fn ways_of_a_design() {
    let (B, R) = (StripColor::Black, StripColor::Red);
    let towels = AvailableTowels(vec![vec![R], vec![R, R], vec![B, R], vec![]]);
    assert_eq!(1, count_ways(&vec![], &towels));
    assert_eq!(1, count_ways(&vec![R], &towels));
    assert_eq!(2, count_ways(&vec![R, R], &towels));
    assert_eq!(3, count_ways(&vec![R, R, R], &towels));
    assert_eq!(5, count_ways(&vec![R, R, R, R], &towels));
    assert_eq!(2, count_ways(&vec![B, R, R, R], &towels));
    assert_eq!(0, count_ways(&vec![R, B], &towels));
    assert!(can_be_achieved(&vec![B, R, B, R], &towels));
    assert!(!can_be_achieved(&vec![B, B], &towels));
    assert!(!can_be_achieved(&vec![R], &AvailableTowels(vec![])));
}

#[test]
#[allow(non_snake_case)]
fn ways_stop_at_the_largest_number() {
    let G = StripColor::Green;
    let towels = AvailableTowels(vec![vec![G], vec![G, G]]);
    let long: Vec<StripColor> = (0..200).map(|_| G).collect();
    assert_eq!(usize::MAX, count_ways(&long, &towels));
    let shorter: Vec<StripColor> = (0..20).map(|_| G).collect();
    assert_eq!(10946, count_ways(&shorter, &towels));
}
