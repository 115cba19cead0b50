use advent_of_rust_2024::day25::solve_day_25_part_01;
use advent_of_rust_2024::day25::KeyLockSchema;
use advent_of_rust_2024::util::text::chars_of;

#[test]
fn should_solve_day_25_part_01_sample() {
    let input = "
#####
.####
.####
.####
.#.#.
.#...
.....

#####
##.##
.#.##
...##
...#.
...#.
.....

.....
#....
#....
#...#
#.#.#
#.###
#####

.....
.....
#.#..
###..
###.#
###.#
#####

.....
.....
.....
#....
#.#..
#.#.#
#####"
        .trim();

    assert_eq!(3, solve_day_25_part_01(input));
}

#[test]
fn should_pins() {
    let s = KeyLockSchema::from(
        "
    #####
    ##.##
    .#.##
    ...##
    ...#.
    ...#.
    .....",
    );

    assert_eq!([2, 3, 1, 6, 4], s.pins);
}

#[test]
fn should_fit() {
    let s1 = KeyLockSchema::from(
        "
#####
#####
.#.##
...##
...#.
...#.
.....
",
    );

    let s2 = KeyLockSchema::from(
        "
.....
.....
#.#..
###..
###.#
###.#
#####
",
    );

    assert!(s1.fits(&s2));
}

#[test]
fn shouldnt_fit() {
    let s1 = KeyLockSchema::from(
        "
#####
#####
.#.##
...##
...##
...#.
.....
",
    );

    let s2 = KeyLockSchema::from(
        "
.....
.....
#.#..
###..
###.#
###.#
#####
",
    );

    assert!(!s1.fits(&s2));
}

#[test]
fn drawings_that_are_none() {
    assert!(KeyLockSchema::parse(&chars_of("")).is_none());
    assert!(KeyLockSchema::parse(&chars_of("  \n ")).is_none());
    assert!(KeyLockSchema::parse(&chars_of("#####\n######")).is_none());
    assert!(KeyLockSchema::parse(&chars_of("#\n#\n#\n#\n#\n#\n#\n#")).is_none());
    let narrow = KeyLockSchema::parse(&chars_of("#########\n#.#")).unwrap();
    assert!(narrow.is_key);
    assert_eq!([2, 1, 2, 1, 1], narrow.pins);
    let other = KeyLockSchema::parse(&chars_of("x\nx.x\n.x")).unwrap();
    assert!(!other.is_key);
    assert_eq!([5, 5, 5, 6, 6], other.pins);
}

#[test]
fn a_drawing_that_occurs_again_is_one_partner() {
    let lock = "#####\n#....\n.....";
    let key = ".....\n....#\n#####";
    let twice = format!("{key}\n\n{key}\n\n{lock}");
    assert_eq!(1, solve_day_25_part_01(&twice));
    let thrice = format!("{lock}\n\n{key}\n\n{key}");
    assert_eq!(2, solve_day_25_part_01(&thrice));
    assert_eq!(0, solve_day_25_part_01(lock));
}
