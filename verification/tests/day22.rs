use advent_of_rust_2024::day22::part1::parse_secrets;
use advent_of_rust_2024::day22::part1::solve_day_22_part_01;
use advent_of_rust_2024::day22::part1::Secret;
use advent_of_rust_2024::day22::part2::digit;
use advent_of_rust_2024::day22::part2::Window;

#[test]
fn should_solve_day_22_part_01_sample() {
    let expectations = vec![
        15887950,
        16495136,
        527345,
        704524,
        1553684,
        12683156,
        11100544,
        12249484,
        7753432,
        5908254,
    ];

    expectations
        .into_iter()
        .enumerate()
        .fold(Secret::new(123), |mut sec, (gen, exp)| {
            assert_eq!(exp, sec.evolve().v(), "Generation {} broken", gen + 1);
            sec
        });

    assert_eq!(5908254, Secret::new(123).evolve_n_times(10).v());

    assert_eq!(8685429, Secret::new(1).evolve_n_times(2000).v());
    assert_eq!(4700978, Secret::new(10).evolve_n_times(2000).v());
    assert_eq!(15273692, Secret::new(100).evolve_n_times(2000).v());
    assert_eq!(8667524, Secret::new(2024).evolve_n_times(2000).v());
}

#[test]
fn test() {
    assert_eq!(Secret::new(42).mix(15).v(), 37);
    assert_eq!(Secret::new(16777216).prune().v(), 0);
    assert_eq!(Secret::new(10) / 3, 3);
}

#[test]
fn should_fifo() {
    let mut window = Window::new();

    assert_eq!(window.len, 0);
    window.push(-2);
    window.push(-1);
    window.push(0);
    window.push(1);
    window.push(2);
    assert_eq!(window.as_array(), [-1, 0, 1, 2]);
    assert_eq!(window.len, 4);
}

#[test]
fn sum_of_the_secrets_of_all_buyers() {
    assert_eq!(37327623, solve_day_22_part_01("1\n10\n100\n2024"));
    assert_eq!(8685429, solve_day_22_part_01("\n  1\nnot a number\n\n"));
    assert_eq!(0, solve_day_22_part_01(""));
    assert_eq!(vec![1u64, 24], parse_secrets("1\nx\n 2\n24"));
    assert_eq!(Secret::new(7) * 6, 42);
    assert_eq!(3, digit(&Secret::new(123)));
    assert_eq!(0, Secret::new(0).evolve_n_times(5).v());
    assert_eq!(123, Secret::new(123).evolve_n_times(0).v());
}

#[test]
fn window_fills_before_it_shifts() {
    let mut window = Window::new();
    window.push(5);
    assert_eq!(([5, 0, 0, 0], 1), (window.as_array(), window.len));
    window.push(6);
    window.push(7);
    assert_eq!(([5, 6, 7, 0], 3), (window.as_array(), window.len));
    window.push(8);
    assert_eq!(([5, 6, 7, 8], 4), (window.as_array(), window.len));
    window.push(9);
    assert_eq!(([6, 7, 8, 9], 4), (window.as_array(), window.len));
}

#[test]
fn should_solve_day_22_part_02_sample() {
    let input = "1
2
3
2024"
        .trim();

    assert_eq!(23, advent_of_rust_2024::day22::part2::solve_day_22_part_02(input));
}

#[test]
fn best_changes_of_one_buyer() {
    // The prices of the buyer with the secret 123 begin 3, 0, 6, 5, 4, 4,
    // 6, 4, 4, 2: the highest price after four changes is the 6.
    let mut secret = Secret::new(123);
    let mut prices = vec![digit(&secret)];
    for _ in 0..9 {
        secret.evolve();
        prices.push(digit(&secret));
    }
    assert_eq!(vec![3, 0, 6, 5, 4, 4, 6, 4, 4, 2], prices);
    assert_eq!(0, advent_of_rust_2024::day22::part2::solve_day_22_part_02(""));
    assert_eq!(9, advent_of_rust_2024::day22::part2::solve_day_22_part_02("123"));
    assert_eq!(18, advent_of_rust_2024::day22::part2::solve_day_22_part_02("123\n123"));
}
