//! Pictures of the lobby: where its robots stand, as lines of text and as
//! the bytes of a bitmap file.
//!
//! The picture is `WIDTH` columns wide and `HEIGHT` rows high. The bitmap
//! has 24 bits for each pixel, white where a robot stands and black where
//! none does. Its rows go from the bottom of the picture to the top, and
//! each is filled up to a multiple of four bytes.

use crate::day14::robots_of;
use crate::day14::Lobby;
use crate::day14::Robot;
use crate::util::point::Point;
use crate::util::text::split_lines;
use vstd::pervasive::unreached;
use vstd::prelude::*;

verus! {

/// The number of columns of the picture.
pub const WIDTH: usize = 101;

/// The number of rows of the picture.
pub const HEIGHT: usize = 103;

/// The first second of which a picture is made.
pub const FIRST_FRAME: u32 = 8175;

/// The number of seconds of which pictures are made.
pub const FRAMES: u32 = 5;

/// The number of bytes of the two headers of the bitmap.
pub const HEADER_SIZE: u32 = 54;

/// The number of bytes of the pixels of the bitmap.
pub const PIXEL_ARRAY_SIZE: u32 = 31312;

/// The number of bytes of the bitmap.
pub const FILE_SIZE: u32 = 31366;

/// Whether all points lie in the picture.
pub open spec fn on_screen(points: Seq<Point>) -> bool {
    forall|i: int|
        0 <= i < points.len() ==> 0 <= (#[trigger] points[i]).x < WIDTH && 0 <= points[i].y < HEIGHT
}

/// Whether one of the points is column `x` of row `y`.
pub open spec fn lit(points: Seq<Point>, x: int, y: int) -> bool {
    points.contains(Point { x: x as i128, y: y as i128 })
}

/// For each place of the picture, row by row, whether one of the points
/// is there.
pub fn display(points: &Vec<Point>) -> (d: Vec<bool>)
    requires
        on_screen(points@),
    ensures
        d@.len() == WIDTH * HEIGHT,
        forall|x: int, y: int|
            0 <= x < WIDTH && 0 <= y < HEIGHT ==> #[trigger] d@[y * WIDTH + x] == lit(points@, x, y),
{
    let mut d: Vec<bool> = vec![false; WIDTH * HEIGHT];
    let mut i: usize = 0;
    while i < points.len()
        invariant
            i <= points.len(),
            on_screen(points@),
            d@.len() == WIDTH * HEIGHT,
            forall|x: int, y: int|
                0 <= x < WIDTH && 0 <= y < HEIGHT ==> #[trigger] d@[y * WIDTH + x] == lit(
                    points@.take(i as int),
                    x,
                    y,
                ),
        decreases points.len() - i,
    {
        let p = points[i];
        let place: usize = p.y as usize * WIDTH + p.x as usize;
        let ghost before = points@.take(i as int);
        d.set(place, true);
        proof {
            let after = points@.take(i + 1);
            assert(after =~= before.push(p));
            assert forall|x: int, y: int| 0 <= x < WIDTH && 0 <= y < HEIGHT implies #[trigger] d@[y
                * WIDTH + x] == lit(after, x, y) by {
                let q = Point { x: x as i128, y: y as i128 };
                if before.contains(q) {
                    let j = choose|j: int| 0 <= j < before.len() && before[j] == q;
                    assert(after[j] == q);
                }
                if q == p {
                    assert(after[i as int] == q);
                }
                if after.contains(q) && q != p {
                    let j = choose|j: int| 0 <= j < after.len() && after[j] == q;
                    assert(before[j] == q);
                }
            }
        }
        i += 1;
    }
    proof {
        assert(points@.take(points@.len() as int) =~= points@);
    }
    d
}

/// Row `y` of the picture as text: an `X` where a robot stands, a blank
/// where none does.
pub open spec fn picture_row(points: Seq<Point>, y: int) -> Seq<char> {
    Seq::new(
        WIDTH as nat,
        |x: int|
            if lit(points, x, y) {
                'X'
            } else {
                ' '
            },
    )
}

/// The picture as lines of text, from the top.
pub fn picture(points: &Vec<Point>) -> (rows: Vec<Vec<char>>)
    requires
        on_screen(points@),
    ensures
        rows@.len() == HEIGHT,
        forall|y: int| 0 <= y < HEIGHT ==> (#[trigger] rows@[y])@ == picture_row(points@, y),
{
    let d = display(points);
    let mut rows: Vec<Vec<char>> = Vec::new();
    let mut y: usize = 0;
    while y < HEIGHT
        invariant
            y <= HEIGHT,
            d@.len() == WIDTH * HEIGHT,
            forall|x: int, y: int|
                0 <= x < WIDTH && 0 <= y < HEIGHT ==> #[trigger] d@[y * WIDTH + x] == lit(points@, x, y),
            rows@.len() == y,
            forall|j: int| 0 <= j < y ==> (#[trigger] rows@[j])@ == picture_row(points@, j),
        decreases HEIGHT - y,
    {
        let mut row: Vec<char> = Vec::new();
        let mut x: usize = 0;
        while x < WIDTH
            invariant
                x <= WIDTH,
                y < HEIGHT,
                d@.len() == WIDTH * HEIGHT,
                forall|x: int, y: int|
                    0 <= x < WIDTH && 0 <= y < HEIGHT ==> #[trigger] d@[y * WIDTH + x] == lit(
                        points@,
                        x,
                        y,
                    ),
                row@ == picture_row(points@, y as int).take(x as int),
            decreases WIDTH - x,
        {
            let on = d[y * WIDTH + x];
            assert(on == lit(points@, x as int, y as int)) by {
                assert(d@[y as int * WIDTH + x as int] == lit(points@, x as int, y as int));
            }
            row.push(
                if on {
                    'X'
                } else {
                    ' '
                },
            );
            proof {
                assert(row@ =~= picture_row(points@, y as int).take(x + 1));
            }
            x += 1;
        }
        proof {
            assert(row@ =~= picture_row(points@, y as int));
        }
        rows.push(row);
        y += 1;
    }
    rows
}

/// The two bytes of `v`, the low one first.
pub open spec fn le16(v: u16) -> Seq<u8> {
    seq![(v % 256) as u8, (v / 256) as u8]
}

/// The four bytes of `v`, the lowest first.
pub open spec fn le32(v: u32) -> Seq<u8> {
    seq![
        (v % 256) as u8,
        (v / 256 % 256) as u8,
        (v / 65536 % 256) as u8,
        (v / 16777216) as u8,
    ]
}

/// Appends the two bytes of `v`, the low one first.
pub fn push_le16(bytes: &mut Vec<u8>, v: u16)
    ensures
        final(bytes)@ == old(bytes)@ + le16(v),
{
    bytes.push((v % 256) as u8);
    bytes.push((v / 256) as u8);
    proof {
        assert(bytes@ =~= old(bytes)@ + le16(v));
    }
}

/// Appends the four bytes of `v`, the lowest first.
pub fn push_le32(bytes: &mut Vec<u8>, v: u32)
    ensures
        final(bytes)@ == old(bytes)@ + le32(v),
{
    bytes.push((v % 256) as u8);
    bytes.push((v / 256 % 256) as u8);
    bytes.push((v / 65536 % 256) as u8);
    bytes.push((v / 16777216) as u8);
    proof {
        assert(bytes@ =~= old(bytes)@ + le32(v));
    }
}

/// The file header and the picture header of the bitmap: the mark `BM`,
/// the size of the file, two reserved fields, the place of the pixels;
/// then the size of the picture header, the width and the height, one
/// plane, 24 bits for a pixel, no compression, the size of the pixels,
/// no resolution and no palette.
pub open spec fn bmp_header() -> Seq<u8> {
    seq![66u8, 77u8] + le32(FILE_SIZE) + le16(0) + le16(0) + le32(HEADER_SIZE) + le32(40) + le32(
        WIDTH as u32,
    ) + le32(HEIGHT as u32) + le16(1) + le16(24) + le32(0) + le32(PIXEL_ARRAY_SIZE) + le32(0)
        + le32(0) + le32(0) + le32(0)
}

/// The three bytes of a pixel.
pub open spec fn pixel(on: bool) -> Seq<u8> {
    if on {
        seq![255u8, 255u8, 255u8]
    } else {
        seq![0u8, 0u8, 0u8]
    }
}

/// The bytes of the first `x` pixels of row `y` of the picture.
pub open spec fn bmp_pixels(points: Seq<Point>, y: int, x: nat) -> Seq<u8>
    decreases x,
{
    if x == 0 {
        Seq::empty()
    } else {
        bmp_pixels(points, y, (x - 1) as nat) + pixel(lit(points, x - 1, y))
    }
}

/// The bytes of the first `k` rows of the bitmap, which are the last `k`
/// rows of the picture from the bottom up, each with a byte of filling.
pub open spec fn bmp_rows(points: Seq<Point>, k: nat) -> Seq<u8>
    decreases k,
{
    if k == 0 {
        Seq::empty()
    } else {
        bmp_rows(points, (k - 1) as nat) + bmp_pixels(points, HEIGHT - k, WIDTH as nat) + seq![0u8]
    }
}

/// The bytes of the bitmap of the picture.
pub open spec fn bmp_of(points: Seq<Point>) -> Seq<u8> {
    bmp_header() + bmp_rows(points, HEIGHT as nat)
}

/// The bytes of the bitmap of the picture.
pub fn write_to_bmp(points: &Vec<Point>) -> (bytes: Vec<u8>)
    requires
        on_screen(points@),
    ensures
        bytes@ == bmp_of(points@),
{
    let d = display(points);
    let mut bytes: Vec<u8> = Vec::new();
    bytes.push(66u8);
    bytes.push(77u8);
    assert(bytes@ =~= seq![66u8, 77u8]);
    push_le32(&mut bytes, FILE_SIZE);
    push_le16(&mut bytes, 0);
    push_le16(&mut bytes, 0);
    push_le32(&mut bytes, HEADER_SIZE);
    push_le32(&mut bytes, 40);
    push_le32(&mut bytes, WIDTH as u32);
    push_le32(&mut bytes, HEIGHT as u32);
    push_le16(&mut bytes, 1);
    push_le16(&mut bytes, 24);
    push_le32(&mut bytes, 0);
    push_le32(&mut bytes, PIXEL_ARRAY_SIZE);
    push_le32(&mut bytes, 0);
    push_le32(&mut bytes, 0);
    push_le32(&mut bytes, 0);
    push_le32(&mut bytes, 0);
    assert(bytes@ == bmp_header());
    let mut k: usize = 0;
    while k < HEIGHT
        invariant
            k <= HEIGHT,
            d@.len() == WIDTH * HEIGHT,
            forall|x: int, y: int|
                0 <= x < WIDTH && 0 <= y < HEIGHT ==> #[trigger] d@[y * WIDTH + x] == lit(points@, x, y),
            bytes@ == bmp_header() + bmp_rows(points@, k as nat),
        decreases HEIGHT - k,
    {
        let y: usize = HEIGHT - 1 - k;
        let ghost before = bytes@;
        let mut x: usize = 0;
        while x < WIDTH
            invariant
                x <= WIDTH,
                y < HEIGHT,
                d@.len() == WIDTH * HEIGHT,
                forall|x: int, y: int|
                    0 <= x < WIDTH && 0 <= y < HEIGHT ==> #[trigger] d@[y * WIDTH + x] == lit(
                        points@,
                        x,
                        y,
                    ),
                bytes@ == before + bmp_pixels(points@, y as int, x as nat),
            decreases WIDTH - x,
        {
            let on = d[y * WIDTH + x];
            assert(on == lit(points@, x as int, y as int)) by {
                assert(d@[y as int * WIDTH + x as int] == lit(points@, x as int, y as int));
            }
            let ghost so_far = bytes@;
            if on {
                bytes.push(255u8);
                bytes.push(255u8);
                bytes.push(255u8);
            } else {
                bytes.push(0u8);
                bytes.push(0u8);
                bytes.push(0u8);
            }
            proof {
                assert(bytes@ =~= so_far + pixel(on));
                assert(bytes@ =~= before + bmp_pixels(points@, y as int, (x + 1) as nat));
            }
            x += 1;
        }
        bytes.push(0u8);
        proof {
            assert(bytes@ =~= bmp_header() + bmp_rows(points@, (k + 1) as nat));
        }
        k += 1;
    }
    bytes
}

/// Where the robots stand after `iterations` seconds in a lobby as wide
/// and as high as the picture.
pub open spec fn positions(robots: Seq<Robot>, iterations: nat) -> Seq<Point> {
    Seq::new(robots.len(), |i: int| robots[i].projected(iterations, WIDTH as nat, HEIGHT as nat))
}

/// Where the robots of the lobby stand after `iterations` seconds.
pub fn positions_at(lobby: &Lobby, iterations: u32) -> (points: Vec<Point>)
    requires
        lobby.width == WIDTH,
        lobby.height == HEIGHT,
        forall|i: int|
            0 <= i < lobby.robots.len() ==> crate::day14::near((#[trigger] lobby.robots[i]).start_pos)
                && crate::day14::near(lobby.robots[i].velocity),
    ensures
        points@ == positions(lobby.robots@, iterations as nat),
        on_screen(points@),
{
    let mut points: Vec<Point> = Vec::new();
    let mut i: usize = 0;
    while i < lobby.robots.len()
        invariant
            i <= lobby.robots.len(),
            lobby.width == WIDTH,
            lobby.height == HEIGHT,
            forall|i: int|
                0 <= i < lobby.robots.len() ==> crate::day14::near(
                    (#[trigger] lobby.robots[i]).start_pos,
                ) && crate::day14::near(lobby.robots[i].velocity),
            points@ == positions(lobby.robots@, iterations as nat).take(i as int),
            on_screen(points@),
        decreases lobby.robots.len() - i,
    {
        let p = lobby.robots[i].project_pos(iterations, lobby.width, lobby.height);
        points.push(p);
        proof {
            assert(points@ =~= positions(lobby.robots@, iterations as nat).take(i + 1));
        }
        i += 1;
    }
    proof {
        assert(points@ =~= positions(lobby.robots@, iterations as nat));
    }
    points
}

/// A picture of the lobby: the second that it shows and the bytes of its
/// bitmap.
#[derive(Debug)]
pub struct Frame {
    pub iteration: u32,
    pub bytes: Vec<u8>,
}

/// The pictures of the lobby that the text describes, one for each of
/// the `FRAMES` seconds from `FIRST_FRAME` on. Every line that begins with
/// `p=` must describe a robot.
pub fn solve_day_14_part_02(input: &str) -> (frames: Vec<Frame>)
    requires
        robots_of(split_lines(input@)) is Some,
    ensures
        frames@.len() == FRAMES,
        forall|k: int|
            0 <= k < FRAMES ==> (#[trigger] frames@[k]).iteration == FIRST_FRAME + k
                && frames@[k].bytes@ == bmp_of(
                positions(robots_of(split_lines(input@))->0, (FIRST_FRAME + k) as nat),
            ),
{
    let lobby = match Lobby::try_from((input, WIDTH as u32, HEIGHT as u32)) {
        Ok(l) => l,
        Err(_) => unreached(),
    };
    let mut frames: Vec<Frame> = Vec::new();
    let mut k: u32 = 0;
    while k < FRAMES
        invariant
            k <= FRAMES,
            lobby.width == WIDTH,
            lobby.height == HEIGHT,
            robots_of(split_lines(input@)) == Some(lobby.robots@),
            forall|i: int|
                0 <= i < lobby.robots.len() ==> crate::day14::near(
                    (#[trigger] lobby.robots[i]).start_pos,
                ) && crate::day14::near(lobby.robots[i].velocity),
            frames@.len() == k,
            forall|j: int|
                0 <= j < k ==> (#[trigger] frames@[j]).iteration == FIRST_FRAME + j
                    && frames@[j].bytes@ == bmp_of(
                    positions(lobby.robots@, (FIRST_FRAME + j) as nat),
                ),
        decreases FRAMES - k,
    {
        let iteration: u32 = FIRST_FRAME + k;
        let points = positions_at(&lobby, iteration);
        let bytes = write_to_bmp(&points);
        frames.push(Frame { iteration, bytes });
        k += 1;
    }
    frames
}

} // verus!
