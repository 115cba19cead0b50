use advent_of_rust_2024::day14::part2::display;
use advent_of_rust_2024::day14::part2::picture;
use advent_of_rust_2024::day14::part2::positions_at;
use advent_of_rust_2024::day14::part2::push_le16;
use advent_of_rust_2024::day14::part2::push_le32;
use advent_of_rust_2024::day14::part2::solve_day_14_part_02;
use advent_of_rust_2024::day14::part2::write_to_bmp;
use advent_of_rust_2024::day14::part2::HEIGHT;
use advent_of_rust_2024::day14::part2::WIDTH;
use advent_of_rust_2024::day14::parse_robot;
use advent_of_rust_2024::day14::quarter_of;
use advent_of_rust_2024::day14::rem_euclid;
use advent_of_rust_2024::day14::solve_day_14_part_01;
use advent_of_rust_2024::day14::Lobby;
use advent_of_rust_2024::day14::Robot;
use advent_of_rust_2024::util::point::Point;
use advent_of_rust_2024::util::text::chars_of;

#[test]
fn should_solve_day_14_part_01_sample() {
    let input = "
            p=0,4 v=3,-3
            p=6,3 v=-1,-3
            p=10,3 v=-1,2
            p=2,0 v=2,-1
            p=0,0 v=1,3
            p=3,0 v=-2,-2
            p=7,6 v=-1,-3
            p=3,0 v=-1,-2
            p=9,3 v=2,3
            p=7,3 v=-1,2
            p=2,4 v=2,-3
            p=9,5 v=-3,-3"
        .trim();

    let actual = solve_day_14_part_01(&input, 11, 7, 100);

    assert_eq!(12, actual);
}

#[test]
fn should_parse_input() {
    let input = "
            p=0,4 v=3,-3
            p=6,3 v=-1,-3
            p=10,3 v=-1,2
            p=2,0 v=2,-1
            p=0,0 v=1,3
            p=3,0 v=-2,-2
            p=7,6 v=-1,-3
            p=3,0 v=-1,-2
            p=9,3 v=2,3
            p=7,3 v=-1,2
            p=2,4 v=2,-3
            p=9,5 v=-3,-3"
        .trim();

    let Ok(lobby) = Lobby::try_from((input, 10, 11)) else { panic!("couldn't parse input") };

    assert_eq!(lobby.width, 10);
    assert_eq!(lobby.height, 11);
    assert_eq!(lobby.robots.len(), 12);
}

#[test]
fn should_project_single_point_neg_wrap_around() {
    let r = Robot::new(Point::new(0, 0), Point::new(-1, -1));

    let actual = Robot::project_pos(&r, 3, 10, 10);

    assert_eq!(Point::new(7, 7), actual);
}

#[test]
fn should_project_single_point_pos_wrap_around() {
    let r = Robot::new(Point::new(0, 0), Point::new(3, 3));

    let actual = Robot::project_pos(&r, 4, 10, 10);

    assert_eq!(Point::new(2, 2), actual);
}

#[test]
fn should_project_single_robot() {
    let r = Robot::new(Point::new(2, 4), Point::new(2, -3));

    assert_eq!(Point::new(2, 4), Robot::project_pos(&r, 0, 11, 7));
    assert_eq!(Point::new(4, 1), Robot::project_pos(&r, 1, 11, 7));
    assert_eq!(Point::new(6, 5), Robot::project_pos(&r, 2, 11, 7));
    assert_eq!(Point::new(1, 3), Robot::project_pos(&r, 5, 11, 7));
}

#[test]
fn difference_modulo_and_remainder() {
    // https://stackoverflow.com/a/57342011/9627206
    assert_eq!(-2, -2 % 4);
    assert_eq!(2, (-2i8).rem_euclid(4));
}

#[test]
fn remainders_are_never_negative() {
    assert_eq!(2, rem_euclid(-2, 4));
    assert_eq!(0, rem_euclid(-8, 4));
    assert_eq!(3, rem_euclid(7, 4));
    assert_eq!(0, rem_euclid(0, 1));
    assert_eq!(4, rem_euclid(-(1i128 << 63) - (1 << 31), 7));
    assert_eq!((-(1i128 << 63) - (1 << 31)).rem_euclid(7) as u32, rem_euclid(-(1i128 << 63) - (1 << 31), 7));
    assert_eq!((-(1i128 << 63)).rem_euclid(1000) as u32, rem_euclid(-(1i128 << 63), 1000));
    assert_eq!(((1i128 << 63) + 5).rem_euclid(u32::MAX as i128) as u32, rem_euclid((1i128 << 63) + 5, u32::MAX));
}

#[test]
fn robots_are_read_from_lines_that_begin_with_p() {
    let robot = parse_robot(&chars_of("p=0,4 v=3,-3")).unwrap();
    assert_eq!(Robot::new(Point::new(0, 4), Point::new(3, -3)), robot);
    assert!(parse_robot(&chars_of("p=0,4  v=3,-3")).is_none());
    assert!(parse_robot(&chars_of("p=0,4 v=3")).is_none());
    assert!(parse_robot(&chars_of("p=0,4 v=3,2147483648")).is_none());
    assert!(parse_robot(&chars_of("p=0,4 v=3,-2147483648")).is_some());
    let lobby = Lobby::try_from(("some text\n p=1,2 v=3,4 \n\nq=1,1 v=1,1", 5, 5)).unwrap();
    assert_eq!(vec![Robot::new(Point::new(1, 2), Point::new(3, 4))], lobby.robots);
    assert!(Lobby::try_from(("p=1,2 v=3,4\np=1 v=2", 5, 5)).is_err());
}

#[test]
fn quarters_leave_out_the_middle_lines() {
    assert_eq!(1, quarter_of(Point::new(0, 0), 11, 7));
    assert_eq!(2, quarter_of(Point::new(6, 2), 11, 7));
    assert_eq!(3, quarter_of(Point::new(4, 4), 11, 7));
    assert_eq!(4, quarter_of(Point::new(10, 6), 11, 7));
    assert_eq!(0, quarter_of(Point::new(5, 0), 11, 7));
    assert_eq!(0, quarter_of(Point::new(0, 3), 11, 7));
    assert_eq!(1, solve_day_14_part_01("p=0,0 v=0,0\np=2,0 v=0,0\np=0,2 v=0,0\np=2,2 v=0,0\np=1,1 v=0,0", 3, 3, 9));
    assert_eq!(0, solve_day_14_part_01("p=0,0 v=1,0", 3, 3, 1));
}

fn bitmap_as_written_field_by_field(points: &[Point]) -> Vec<u8> {
    let mut display = vec![vec![false; WIDTH]; HEIGHT];
    for p in points {
        display[p.y as usize][p.x as usize] = true;
    }
    let row_size = WIDTH * 3;
    let padding = (4 - (row_size % 4)) % 4;
    let pixel_array_size = (row_size + padding) * HEIGHT;
    let header_size = 14 + 40;
    let file_size = header_size + pixel_array_size;
    let mut file: Vec<u8> = Vec::new();
    file.extend_from_slice(b"BM");
    file.extend_from_slice(&(file_size as u32).to_le_bytes());
    file.extend_from_slice(&0u16.to_le_bytes());
    file.extend_from_slice(&0u16.to_le_bytes());
    file.extend_from_slice(&(header_size as u32).to_le_bytes());
    file.extend_from_slice(&40u32.to_le_bytes());
    file.extend_from_slice(&(WIDTH as i32).to_le_bytes());
    file.extend_from_slice(&(HEIGHT as i32).to_le_bytes());
    file.extend_from_slice(&1u16.to_le_bytes());
    file.extend_from_slice(&24u16.to_le_bytes());
    file.extend_from_slice(&0u32.to_le_bytes());
    file.extend_from_slice(&(pixel_array_size as u32).to_le_bytes());
    file.extend_from_slice(&0u32.to_le_bytes());
    file.extend_from_slice(&0u32.to_le_bytes());
    file.extend_from_slice(&0u32.to_le_bytes());
    file.extend_from_slice(&0u32.to_le_bytes());
    for row in display.iter().rev() {
        for &cell in row.iter() {
            if cell {
                file.extend_from_slice(&[255, 255, 255]);
            } else {
                file.extend_from_slice(&[0, 0, 0]);
            }
        }
        file.extend_from_slice(&vec![0; padding]);
    }
    file
}

#[test]
fn bitmap_has_its_headers_and_its_rows_from_the_bottom() {
    let points = vec![Point::new(0, 0), Point::new(100, 102), Point::new(7, 50), Point::new(0, 0)];
    let bytes = write_to_bmp(&points);
    assert_eq!(31366, bytes.len());
    assert_eq!(bitmap_as_written_field_by_field(&points), bytes);
    assert_eq!(&[66, 77, 0x86, 0x7A, 0, 0], &bytes[0..6]);
    assert_eq!(&[255, 255, 255, 0], &bytes[354..358]);
    assert_eq!(&[255, 255, 255, 0, 0, 0], &bytes[54 + 102 * 304..54 + 102 * 304 + 6]);
}

#[test]
fn bitmap_without_robots_is_black() {
    let bytes = write_to_bmp(&Vec::new());
    assert_eq!(bitmap_as_written_field_by_field(&[]), bytes);
    assert!(bytes[54..].iter().all(|b| *b == 0));
}

#[test]
fn bytes_of_a_number_come_lowest_first() {
    let mut bytes = vec![9u8];
    push_le32(&mut bytes, 0x0102_0304);
    push_le16(&mut bytes, 0x0506);
    push_le32(&mut bytes, u32::MAX);
    assert_eq!(vec![9, 4, 3, 2, 1, 6, 5, 255, 255, 255, 255], bytes);
}

#[test]
fn picture_marks_the_robots() {
    let points = vec![Point::new(1, 0), Point::new(100, 102)];
    let rows = picture(&points);
    assert_eq!(HEIGHT, rows.len());
    assert!(rows.iter().all(|row| row.len() == WIDTH));
    assert_eq!(' ', rows[0][0]);
    assert_eq!('X', rows[0][1]);
    assert_eq!('X', rows[102][100]);
    assert_eq!(2, rows.iter().flatten().filter(|c| **c == 'X').count());
    let shown = display(&points);
    assert_eq!(WIDTH * HEIGHT, shown.len());
    assert!(shown[1] && shown[102 * WIDTH + 100] && !shown[0]);
}

#[test]
fn pictures_are_made_of_five_seconds() {
    let frames = solve_day_14_part_02("p=0,4 v=3,-3\np=6,3 v=-1,-3\n");
    assert_eq!(5, frames.len());
    let seconds: Vec<u32> = frames.iter().map(|f| f.iteration).collect();
    assert_eq!(vec![8175, 8176, 8177, 8178, 8179], seconds);
    let lobby = Lobby::try_from(("p=0,4 v=3,-3\np=6,3 v=-1,-3\n", 101, 103)).unwrap();
    for frame in &frames {
        let points = positions_at(&lobby, frame.iteration);
        assert_eq!(2, points.len());
        assert_eq!(Point::new((3 * frame.iteration as i128) % 101, points[0].y), points[0]);
        assert_eq!(bitmap_as_written_field_by_field(&points), frame.bytes);
    }
}
