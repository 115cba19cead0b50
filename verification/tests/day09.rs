use advent_of_rust_2024::day09::part2::solve_day_09_part_02;
use advent_of_rust_2024::day09::part2::Disk as WholeFiles;
use advent_of_rust_2024::day09::part2::File;
use advent_of_rust_2024::day09::part2::FreeBlock;
use advent_of_rust_2024::day09::part1::solve_day_09_part_01;
use advent_of_rust_2024::day09::part1::Disk;
use advent_of_rust_2024::day09::part1::MemoryType;
use advent_of_rust_2024::day09::part1::MemoryUnit;

fn picture(disk: &Disk) -> String {
    disk.units
        .iter()
        .map(|u| match u.memory_type {
            MemoryType::Free => ".".to_string(),
            MemoryType::Occupied { file_id } => file_id.to_string(),
        })
        .collect()
}

#[test]
fn should_solve_day_09_part_01_sample() {
    let input = "2333133121414131402".to_string();

    assert_eq!(1928, solve_day_09_part_01(input));
}

#[test]
fn disk_of_the_short_example() {
    let mut disk = Disk::parse("12345").unwrap();
    assert_eq!("0..111....22222", picture(&disk));
    assert_eq!(MemoryUnit { pos: 0, memory_type: MemoryType::Occupied { file_id: 0 } }, disk.units[0]);
    assert_eq!(MemoryUnit { pos: 1, memory_type: MemoryType::Free }, disk.units[1]);
    assert_eq!(MemoryUnit { pos: 4, memory_type: MemoryType::Occupied { file_id: 2 } }, disk.units[14]);
    disk.fragment();
    assert_eq!("022111222......", picture(&disk));
    assert_eq!(2 + 4 + 3 + 4 + 5 + 12 + 14 + 16, disk.checksum());
}

#[test]
fn disk_of_the_long_example() {
    let mut disk = Disk::parse("2333133121414131402").unwrap();
    assert_eq!("00...111...2...333.44.5555.6666.777.888899", picture(&disk));
    disk.fragment();
    assert_eq!("0099811188827773336446555566..............", picture(&disk));
}

#[test]
fn disks_at_the_edges() {
    let mut empty = Disk::parse("").unwrap();
    empty.fragment();
    assert_eq!(0, empty.units.len());
    assert_eq!(0, empty.checksum());
    assert_eq!(0, solve_day_09_part_01("0".to_string()));
    assert_eq!(0, solve_day_09_part_01("9".to_string()));
    assert_eq!(1 + 2, solve_day_09_part_01("102".to_string()));
    assert_eq!(1 + 2, solve_day_09_part_01("192".to_string()));
    assert_eq!(1, solve_day_09_part_01("1111".to_string()));
    assert!(Disk::parse("12a").is_none());
    assert!(Disk::parse("12\n").is_none());
    let mut free = Disk::parse("05").unwrap();
    free.fragment();
    assert_eq!(".....", picture(&free));
}

#[test]
fn should_solve_day_09_part_02_sample() {
    let input = "2333133121414131402".trim().to_string();

    assert_eq!(2858, solve_day_09_part_02(input));
}

#[test]
fn file_moves_whole_into_the_first_span_with_room() {
    assert_eq!(6, solve_day_09_part_02("133".to_string()));
    let mut disk = WholeFiles::parse("133").unwrap();
    disk.defragment();
    assert_eq!(vec![File { id: 0, start: 0, length: 1 }, File { id: 1, start: 1, length: 3 }], disk.files);
    assert_eq!(vec![FreeBlock { start: 4, length: 0 }], disk.free_blocks);
    assert_eq!(3, disk.size);
}

#[test]
fn file_stays_where_no_span_before_it_has_room() {
    assert_eq!(132, solve_day_09_part_02("12345".to_string()));
    assert_eq!(0, solve_day_09_part_02("".to_string()));
    assert_eq!(0, solve_day_09_part_02("9".to_string()));
}

#[test]
fn disk_of_whole_files_needs_digits() {
    assert!(WholeFiles::parse("12a").is_none());
    let disk = WholeFiles::parse("123").unwrap();
    assert_eq!(vec![File { id: 0, start: 0, length: 1 }, File { id: 1, start: 3, length: 3 }], disk.files);
    assert_eq!(vec![FreeBlock { start: 1, length: 2 }], disk.free_blocks);
    assert_eq!(12, disk.checksum());
}
