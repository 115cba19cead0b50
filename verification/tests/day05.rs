use advent_of_rust_2024::day05::check_if_compliant;
use advent_of_rust_2024::day05::find_page;
use advent_of_rust_2024::day05::get_relevant_rules;
use advent_of_rust_2024::day05::parse_rules;
use advent_of_rust_2024::day05::parse_updates;
use advent_of_rust_2024::day05::solve_day_05_part_01;
use advent_of_rust_2024::day05::solve_day_05_part_02;
use advent_of_rust_2024::day05::sort_update;
use advent_of_rust_2024::day05::OrderRule;

const SAMPLE: &str = "47|53
97|13
97|61
97|47
75|29
61|13
75|53
29|13
97|29
53|29
61|53
97|53
61|29
47|13
75|47
97|75
47|61
75|61
47|29
75|13
53|13

75,47,61,53,29
97,61,53,29,13
75,29,13
75,97,47,61,53
61,13,29
97,13,75,29,47";

#[test]
fn should_solve_day_05_part_01_sample() {
    let input = SAMPLE.lines().map(str::to_string).collect();

    let actual = solve_day_05_part_01(input);

    assert_eq!(143, actual);
}

#[test]
fn should_solve_day_05_part_02_sample() {
    let input = SAMPLE.lines().map(str::to_string).collect();

    let actual = solve_day_05_part_02(input);

    assert_eq!(123, actual);
}

#[test]
fn rules_and_updates_of_the_sample() {
    let input: Vec<String> = SAMPLE.lines().map(str::to_string).collect();
    let rules = parse_rules(&input);
    assert_eq!(21, rules.len());
    assert_eq!(OrderRule { before: 47, after: 53 }, rules[0]);
    assert_eq!(OrderRule { before: 53, after: 13 }, rules[20]);
    let updates = parse_updates(input);
    assert_eq!(6, updates.len());
    assert_eq!(vec![75, 29, 13], updates[2]);
    assert_eq!(vec![true, true, true, false, false, false], updates.iter().map(|u| check_if_compliant(u, &rules)).collect::<Vec<bool>>());
    let relevant = get_relevant_rules(&updates[2], &rules);
    assert_eq!(vec![OrderRule { before: 75, after: 29 }, OrderRule { before: 29, after: 13 }, OrderRule { before: 75, after: 13 }], relevant);
    assert_eq!(vec![97, 75, 47, 61, 53], sort_update(updates[3].clone(), &get_relevant_rules(&updates[3], &rules)));
    assert_eq!(vec![61, 29, 13], sort_update(updates[4].clone(), &get_relevant_rules(&updates[4], &rules)));
    assert_eq!(vec![97, 75, 47, 29, 13], sort_update(updates[5].clone(), &get_relevant_rules(&updates[5], &rules)));
}

#[test]
fn pages_by_their_first_place() {
    let update = vec![7, 3, 7, 9];
    assert_eq!(Some(0), find_page(&update, 7));
    assert_eq!(Some(1), find_page(&update, 3));
    assert_eq!(Some(3), find_page(&update, 9));
    assert_eq!(None, find_page(&update, 1));
    assert_eq!(None, find_page(&vec![], 1));
    assert!(check_if_compliant(&update, &vec![OrderRule { before: 7, after: 3 }]));
    assert!(!check_if_compliant(&update, &vec![OrderRule { before: 9, after: 7 }]));
    assert!(!check_if_compliant(&update, &vec![OrderRule { before: 7, after: 7 }]));
    assert!(check_if_compliant(&update, &vec![OrderRule { before: 1, after: 7 }]));
    assert!(check_if_compliant(&update, &vec![]));
    assert_eq!(vec![9, 3, 7, 7], sort_update(vec![7, 3, 7, 9], &vec![OrderRule { before: 9, after: 7 }]));
    assert_eq!(vec![1, 2], sort_update(vec![1, 2], &vec![]));
    // Lines without a comma are no updates, and lines without a bar no rules.
    assert_eq!(0, solve_day_05_part_01(vec!["5".to_string(), "1 2".to_string()]));
    assert_eq!(2, solve_day_05_part_01(vec!["1,2,3".to_string(), "9|8".to_string()]));
    assert_eq!(0, solve_day_05_part_02(vec!["1,2,3".to_string(), "9|8".to_string()]));
    assert_eq!(2, solve_day_05_part_02(vec!["1,2,3".to_string(), "3|1".to_string()]));
    assert_eq!(vec![3, 2, 1], sort_update(vec![1, 2, 3], &vec![OrderRule { before: 3, after: 1 }]));
}
