use advent_of_rust_2024::day07::solve_day_07;
use advent_of_rust_2024::day07::Calibration;
use advent_of_rust_2024::day07::Operator;

#[test]
fn should_solve_day_07_part_01_sample() {
    let input = "
190: 10 19
3267: 81 40 27
83: 17 5
156: 15 6
7290: 6 8 6 15
161011: 16 10 13
192: 17 8 14
21037: 9 7 18 13
292: 11 6 16 20"
        .trim()
        .to_string();

    assert_eq!(3749, solve_day_07(input, false));

    assert_eq!(3, solve_day_07("3: 1 1 1".to_string(), false));

    assert_eq!(10, solve_day_07("10: 2 5 1".to_string(), false));
}

#[test]
fn should_solve_day_07_part_02_sample() {
    let input = "
190: 10 19
3267: 81 40 27
83: 17 5
156: 15 6
7290: 6 8 6 15
161011: 16 10 13
192: 17 8 14
21037: 9 7 18 13
292: 11 6 16 20"
        .trim()
        .to_string();

    assert_eq!(11387, solve_day_07(input, true));
}

#[test]
fn operators() {
    assert_eq!(42, Operator::Multiply.apply(6, 7));
    assert_eq!(13, Operator::Add.apply(6, 7));
    assert_eq!(67, Operator::Concat.apply(6, 7));
    assert_eq!(120, Operator::Concat.apply(12, 0));
    assert_eq!(345, Operator::Concat.apply(0, 345));
    assert_eq!(Some(15100), Operator::Concat.checked_apply(15, 100));
    assert_eq!(None, Operator::Concat.checked_apply(usize::MAX, 0));
    assert_eq!(None, Operator::Multiply.checked_apply(usize::MAX, 2));
    assert_eq!(None, Operator::Add.checked_apply(usize::MAX, 1));
    assert_eq!(Some(usize::MAX), Operator::Add.checked_apply(usize::MAX, 0));
}

#[test]
fn calibrations() {
    let line: Vec<char> = "7290: 6 8 6 15".chars().collect();
    let c = Calibration::from_line(&line).unwrap();
    assert_eq!((7290, vec![6, 8, 6, 15]), (c.target, c.parts.clone()));
    assert!(!c.check_if_can_meet_target(false));
    assert!(c.check_if_can_meet_target(true));
    let read = |s: &str| Calibration::from_line(&s.chars().collect());
    assert!(read("7290 6 8").is_none());
    assert!(read("x: 6 8").is_none());
    assert!(read("1: 6 -8").is_none());
    assert_eq!(0, read("5:").unwrap().parts.len());
    assert_eq!(vec![1, 2], read("5: 1 2 : 3").unwrap().parts);
    // A value above the target is given up, whatever comes behind it.
    assert!(!Calibration { target: 0, parts: vec![1, 0] }.check_if_can_meet_target(false));
    assert!(Calibration { target: 0, parts: vec![0, 5] }.check_if_can_meet_target(false));
    assert!(Calibration { target: 5, parts: vec![5] }.check_if_can_meet_target(false));
    assert!(!Calibration { target: 5, parts: vec![6] }.check_if_can_meet_target(true));
    assert!(Calibration { target: usize::MAX, parts: vec![usize::MAX, 1] }.check_if_can_meet_target(false));
    assert!(!Calibration { target: usize::MAX, parts: vec![usize::MAX, 2] }.check_if_can_meet_target(true));
}
