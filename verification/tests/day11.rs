use advent_of_rust_2024::day11::blink;
use advent_of_rust_2024::day11::count_digits;
use advent_of_rust_2024::day11::power_of_ten;
use advent_of_rust_2024::day11::BlinkCache;
use advent_of_rust_2024::day11::MagicStones;

#[test]
fn stones_after_blinks() {
    let stones = MagicStones::parse("125 17").unwrap();
    assert_eq!(vec![125, 17], stones.stones);
    assert_eq!(Some(2), stones.count(0));
    assert_eq!(Some(3), stones.count(1));
    assert_eq!(Some(4), stones.count(2));
    assert_eq!(Some(5), stones.count(3));
    assert_eq!(Some(9), stones.count(4));
    assert_eq!(Some(13), stones.count(5));
    assert_eq!(Some(22), stones.count(6));
    assert_eq!(Some(55312), stones.count(25));
    assert_eq!(Some(65601038650482), stones.count(75));
    assert_eq!(Some(0), MagicStones::parse(" \n").unwrap().count(75));
}

#[test]
fn one_stone_at_a_time() {
    let mut cache = BlinkCache::new();
    // 0 -> 1 -> 2024 -> 20 24 -> 2 0 2 4
    assert_eq!(Some(1), blink(0, 0, &mut cache));
    assert_eq!(Some(1), blink(0, 1, &mut cache));
    assert_eq!(Some(1), blink(0, 2, &mut cache));
    assert_eq!(Some(2), blink(0, 3, &mut cache));
    assert_eq!(Some(4), blink(0, 4, &mut cache));
    assert_eq!(Some(2), blink(1000, 1, &mut cache));
    assert_eq!(Some(3), blink(1000, 2, &mut cache));
    assert_eq!(Some(2), blink(253000, 2, &mut cache));
    assert_eq!(Some(5), blink(253000, 4, &mut cache));
    // The cache answers again what it has answered.
    assert_eq!(Some(4), blink(0, 4, &mut cache));
    // A number that no longer fits once it is multiplied.
    assert_eq!(None, blink(10_000_000_000_000_000, 1, &mut cache));
    assert_eq!(Some(1), blink(10_000_000_000_000_000, 0, &mut cache));
    assert_eq!(Some(2), blink(usize::MAX / 2024 + 1, 1, &mut cache));
}

#[test]
fn digits_and_powers() {
    assert_eq!(1, count_digits(0));
    assert_eq!(1, count_digits(9));
    assert_eq!(2, count_digits(10));
    assert_eq!(4, count_digits(2024));
    assert_eq!(usize::MAX.to_string().len() as u32, count_digits(usize::MAX));
    assert_eq!(1, power_of_ten(0));
    assert_eq!(1000, power_of_ten(3));
    assert_eq!(10_000_000_000, power_of_ten(10));
}

#[test]
fn stones_must_be_numbers() {
    assert!(MagicStones::parse("1 two 3").is_none());
    assert!(MagicStones::parse("-1").is_none());
    assert!(MagicStones::parse("99999999999999999999999").is_none());
    assert_eq!(vec![7, 0, 7], MagicStones::parse("\t7  0\n007 ").unwrap().stones);
}
