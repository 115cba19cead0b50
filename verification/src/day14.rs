//! Robots that walk straight lines through a lobby whose edges wrap
//! around.

pub mod part2;

use crate::util::point::Point;
use crate::util::text::chars_of;
use crate::util::text::integer_of;
use crate::util::text::lines;
use crate::util::text::parse_i128;
use crate::util::text::slice_of;
use crate::util::text::split_lines;
use crate::util::text::split_on;
use crate::util::text::split_seq;
use crate::util::text::strip_prefix;
use crate::util::text::has_prefix;
use crate::util::text::trim;
use crate::util::text::trimmed;
use crate::util::text::views;
use vstd::arithmetic::div_mod::lemma_fundamental_div_mod_converse;
use vstd::pervasive::unreached;
use vstd::prelude::*;

verus! {

/// The largest distance from zero of a coordinate of a robot.
pub const REACH: i128 = 0x7fff_ffff;

/// A robot: where it starts and how far it walks in a second.
#[derive(Debug, Clone, Copy, PartialEq, Eq, Structural)]
pub struct Robot {
    pub start_pos: Point,
    pub velocity: Point,
}

/// Whether both coordinates of `p` are within `REACH` of zero.
pub open spec fn near(p: Point) -> bool {
    -REACH - 1 <= p.x <= REACH && -REACH - 1 <= p.y <= REACH
}

/// The remainder of `a` by `m` that is not negative.
pub fn rem_euclid(a: i128, m: u32) -> (r: u32)
    requires
        m > 0,
        -0x1_0000_0000_0000_0000 <= a <= 0x1_0000_0000_0000_0000,
    ensures
        r == (a as int) % (m as int),
{
    if a >= 0 {
        ((a as u128) % (m as u128)) as u32
    } else {
        let back: u128 = (-a) as u128;
        let over: u128 = back % (m as u128);
        let q: u128 = back / (m as u128);
        let r: u32 = if over == 0 {
            0
        } else {
            (m as u128 - over) as u32
        };
        proof {
            let qi = q as int;
            let mi = m as int;
            assert(back == qi * mi + over) by {
                vstd::arithmetic::div_mod::lemma_fundamental_div_mod(back as int, mi);
                assert(qi * mi == mi * qi) by (nonlinear_arith);
            }
            if over == 0 {
                assert(a == (-qi) * mi + 0) by (nonlinear_arith)
                    requires
                        -a == qi * mi,
                ;
                lemma_fundamental_div_mod_converse(a as int, mi, -qi, 0);
            } else {
                assert(a == (-qi - 1) * mi + (mi - over)) by (nonlinear_arith)
                    requires
                        -a == qi * mi + over,
                ;
                lemma_fundamental_div_mod_converse(a as int, mi, -qi - 1, mi - over);
            }
        }
        r
    }
}

impl Robot {
    /// The robot at `start_pos` with the given velocity.
    pub fn new(start_pos: Point, velocity: Point) -> (r: Robot)
        ensures
            r == (Robot { start_pos, velocity }),
    {
        Robot { start_pos, velocity }
    }

    /// Where the robot is after `iterations` seconds in a lobby of the
    /// given width and height.
    pub open spec fn projected(self, iterations: nat, width: nat, height: nat) -> Point {
        Point {
            x: ((self.start_pos.x + self.velocity.x * iterations) % (width as int)) as i128,
            y: ((self.start_pos.y + self.velocity.y * iterations) % (height as int)) as i128,
        }
    }

    /// Where the robot is after `iterations` seconds in a lobby of the
    /// given width and height: it leaves the lobby on one side and enters
    /// it again on the other.
    pub fn project_pos(&self, iterations: u32, canvas_width: u32, canvas_height: u32) -> (p: Point)
        requires
            canvas_width > 0,
            canvas_height > 0,
            near(self.start_pos),
            near(self.velocity),
        ensures
            p == self.projected(iterations as nat, canvas_width as nat, canvas_height as nat),
            0 <= p.x < canvas_width,
            0 <= p.y < canvas_height,
    {
        proof {
            let k = iterations as int;
            let (vx, vy) = (self.velocity.x as int, self.velocity.y as int);
            assert(-0x8000_0000 * 0x1_0000_0000 <= vx * k <= 0x8000_0000 * 0x1_0000_0000)
                by (nonlinear_arith)
                requires
                    -0x8000_0000 <= vx <= 0x8000_0000,
                    0 <= k <= 0x1_0000_0000,
            ;
            assert(-0x8000_0000 * 0x1_0000_0000 <= vy * k <= 0x8000_0000 * 0x1_0000_0000)
                by (nonlinear_arith)
                requires
                    -0x8000_0000 <= vy <= 0x8000_0000,
                    0 <= k <= 0x1_0000_0000,
            ;
        }
        let raw_x: i128 = self.start_pos.x + self.velocity.x * (iterations as i128);
        let raw_y: i128 = self.start_pos.y + self.velocity.y * (iterations as i128);
        let bounded_x = rem_euclid(raw_x, canvas_width);
        let bounded_y = rem_euclid(raw_y, canvas_height);
        Point::new(bounded_x as i128, bounded_y as i128)
    }
}

/// The lobby: its width, its height and the robots in it.
#[derive(Debug, Clone, PartialEq)]
pub struct Lobby {
    pub width: u32,
    pub height: u32,
    pub robots: Vec<Robot>,
}

/// The point that a word denotes behind its first two characters: two
/// whole numbers of at most 32 bits with a comma between them.
pub open spec fn pair_of(word: Seq<char>) -> Option<Point> {
    let parts = split_seq(word.skip(2), ',');
    if word.len() >= 2 && parts.len() == 2 && integer_of(parts[0], REACH as nat) is Some
        && integer_of(parts[1], REACH as nat) is Some {
        Some(
            Point {
                x: integer_of(parts[0], REACH as nat)->0 as i128,
                y: integer_of(parts[1], REACH as nat)->0 as i128,
            },
        )
    } else {
        None
    }
}

/// The robot that a line describes: two words with one blank between
/// them, the first for the start and the second for the velocity.
pub open spec fn robot_of(line: Seq<char>) -> Option<Robot> {
    let words = split_seq(line, ' ');
    if words.len() == 2 && pair_of(words[0]) is Some && pair_of(words[1]) is Some {
        Some(Robot { start_pos: pair_of(words[0])->0, velocity: pair_of(words[1])->0 })
    } else {
        None
    }
}

/// The robots that the lines describe. Only the lines that begin with
/// `p=`, once the white space around them is gone, describe robots.
/// `None` where such a line describes none.
pub open spec fn robots_of(rows: Seq<Seq<char>>) -> Option<Seq<Robot>>
    decreases rows.len(),
{
    if rows.len() == 0 {
        Some(Seq::empty())
    } else {
        let line = trimmed(rows.last());
        match robots_of(rows.drop_last()) {
            None => None,
            Some(before) => if !has_prefix(line, "p="@) {
                Some(before)
            } else {
                match robot_of(line) {
                    Some(r) => Some(before.push(r)),
                    None => None,
                }
            },
        }
    }
}

/// Reads the point behind the first two characters of a word.
pub fn parse_pair(word: &Vec<char>) -> (r: Option<Point>)
    ensures
        r == pair_of(word@),
        r is Some ==> near(r->0),
{
    if word.len() < 2 {
        return None;
    }
    let rest = slice_of(word, 2, word.len());
    let parts = split_on(&rest, ',');
    if parts.len() != 2 {
        return None;
    }
    proof {
        assert(rest@ == word@.skip(2));
        assert(views(parts@)[0] == parts[0]@);
        assert(views(parts@)[1] == parts[1]@);
    }
    match (parse_small(&parts[0]), parse_small(&parts[1])) {
        (Some(x), Some(y)) => Some(Point { x, y }),
        _ => None,
    }
}

/// Reads a whole number of at most 32 bits.
pub fn parse_small(v: &Vec<char>) -> (r: Option<i128>)
    ensures
        match r {
            Some(n) => integer_of(v@, REACH as nat) == Some(n as int) && -REACH - 1 <= n <= REACH,
            None => integer_of(v@, REACH as nat) is None,
        },
{
    match parse_i128(v) {
        Some(n) => if -REACH - 1 <= n && n <= REACH {
            Some(n)
        } else {
            None
        },
        None => None,
    }
}

/// Reads the robot that a line describes.
pub fn parse_robot(line: &Vec<char>) -> (r: Option<Robot>)
    ensures
        r == robot_of(line@),
        r is Some ==> near(r->0.start_pos) && near(r->0.velocity),
{
    let words = split_on(line, ' ');
    if words.len() != 2 {
        return None;
    }
    proof {
        assert(views(words@)[0] == words[0]@);
        assert(views(words@)[1] == words[1]@);
    }
    match (parse_pair(&words[0]), parse_pair(&words[1])) {
        (Some(p), Some(v)) => Some(Robot::new(p, v)),
        _ => None,
    }
}

impl Lobby {
    /// Reads the robots of a lobby of the given width and height from the
    /// lines of a text. The error tells that a line that begins with `p=`
    /// describes no robot.
    pub fn try_from(value: (&str, u32, u32)) -> (r: Result<Lobby, String>)
        ensures
            match r {
                Ok(l) => robots_of(split_lines(value.0@)) == Some(l.robots@) && l.width == value.1
                    && l.height == value.2 && forall|i: int|
                    0 <= i < l.robots.len() ==> near((#[trigger] l.robots[i]).start_pos) && near(
                        l.robots[i].velocity,
                    ),
                Err(_) => robots_of(split_lines(value.0@)) is None,
            },
    {
        let (input, width, height) = value;
        let chars = chars_of(input);
        let rows = lines(&chars);
        let mut robots: Vec<Robot> = Vec::new();
        let mut i: usize = 0;
        while i < rows.len()
            invariant
                i <= rows.len(),
                views(rows@) == split_lines(value.0@),
                robots_of(views(rows@).take(i as int)) == Some(robots@),
                forall|j: int|
                    0 <= j < robots.len() ==> near((#[trigger] robots[j]).start_pos) && near(
                        robots[j].velocity,
                    ),
            decreases rows.len() - i,
        {
            proof {
                assert(views(rows@).take(i + 1).drop_last() =~= views(rows@).take(i as int));
                assert(views(rows@).take(i + 1).last() == rows[i as int]@);
            }
            let line = trim(&rows[i]);
            if strip_prefix(&line, "p=").is_some() {
                match parse_robot(&line) {
                    Some(r) => {
                        robots.push(r);
                    },
                    None => {
                        proof {
                            assert(robots_of(views(rows@).take(i + 1)) is None);
                            if robots_of(views(rows@)) is Some {
                                lemma_robots_of_prefix(views(rows@), i + 1);
                            }
                        }
                        return Err("a line that begins with p= describes no robot".to_owned());
                    },
                }
            }
            i = i + 1;
        }
        proof {
            assert(views(rows@).take(rows.len() as int) =~= views(rows@));
        }
        Ok(Lobby { width, height, robots })
    }
}

/// Where all lines can be read, so can every prefix of them.
pub proof fn lemma_robots_of_prefix(rows: Seq<Seq<char>>, k: int)
    requires
        0 <= k <= rows.len(),
        robots_of(rows) is Some,
    ensures
        robots_of(rows.take(k)) is Some,
    decreases rows.len(),
{
    if k == rows.len() {
        assert(rows.take(k) =~= rows);
    } else {
        lemma_robots_of_prefix(rows.drop_last(), k);
        assert(rows.drop_last().take(k) =~= rows.take(k));
    }
}

/// The quarter of the lobby that a point lies in: 1 for the upper left, 2
/// for the upper right, 3 for the lower left, 4 for the lower right, and
/// 0 for the points on the middle lines.
pub open spec fn quarter(p: Point, width: nat, height: nat) -> nat {
    let half_width = (width / 2) as int;
    let half_height = (height / 2) as int;
    if p.x < half_width && p.y < half_height {
        1
    } else if p.x > half_width && p.y < half_height {
        2
    } else if p.x < half_width && p.y > half_height {
        3
    } else if p.x > half_width && p.y > half_height {
        4
    } else {
        0
    }
}

/// The number of robots that are in the quarter `q` after `iterations`
/// seconds.
pub open spec fn in_quarter(
    robots: Seq<Robot>,
    iterations: nat,
    width: nat,
    height: nat,
    q: nat,
) -> nat
    decreases robots.len(),
{
    if robots.len() == 0 {
        0
    } else {
        in_quarter(robots.drop_last(), iterations, width, height, q) + if quarter(
            robots.last().projected(iterations, width, height),
            width,
            height,
        ) == q {
            1nat
        } else {
            0nat
        }
    }
}

/// The safety factor of the lobby after `iterations` seconds: the numbers
/// of robots in the four quarters, multiplied.
pub open spec fn safety(robots: Seq<Robot>, iterations: nat, width: nat, height: nat) -> nat {
    in_quarter(robots, iterations, width, height, 1) * in_quarter(
        robots,
        iterations,
        width,
        height,
        2,
    ) * in_quarter(robots, iterations, width, height, 3) * in_quarter(
        robots,
        iterations,
        width,
        height,
        4,
    )
}

/// The quarter of the lobby that a point lies in.
pub fn quarter_of(p: Point, width: u32, height: u32) -> (q: u8)
    ensures
        q == quarter(p, width as nat, height as nat),
{
    let half_width: i128 = (width / 2) as i128;
    let half_height: i128 = (height / 2) as i128;
    if p.x < half_width && p.y < half_height {
        1
    } else if p.x > half_width && p.y < half_height {
        2
    } else if p.x < half_width && p.y > half_height {
        3
    } else if p.x > half_width && p.y > half_height {
        4
    } else {
        0
    }
}

/// The safety factor of the lobby that the text describes after
/// `iterations` seconds, as far as it fits 32 bits. The lobby must have a
/// width and a height, every line that begins with `p=` must describe a
/// robot, and there must be fewer than 65536 robots.
pub fn solve_day_14_part_01(input: &str, canvas_width: u32, canvas_height: u32, iterations: u32) -> (r:
    u32)
    requires
        canvas_width > 0,
        canvas_height > 0,
        robots_of(split_lines(input@)) is Some,
        robots_of(split_lines(input@))->0.len() < 65536,
    ensures
        r == safety(
            robots_of(split_lines(input@))->0,
            iterations as nat,
            canvas_width as nat,
            canvas_height as nat,
        ) % 0x1_0000_0000,
{
    let lobby = match Lobby::try_from((input, canvas_width, canvas_height)) {
        Ok(l) => l,
        Err(_) => unreached(),
    };
    let ghost all = lobby.robots@;
    let ghost (k, w, h) = (iterations as nat, canvas_width as nat, canvas_height as nat);
    let mut q1: u64 = 0;
    let mut q2: u64 = 0;
    let mut q3: u64 = 0;
    let mut q4: u64 = 0;
    let mut i: usize = 0;
    while i < lobby.robots.len()
        invariant
            i <= lobby.robots.len() < 65536,
            all == lobby.robots@,
            canvas_width > 0,
            canvas_height > 0,
            (k, w, h) == (iterations as nat, canvas_width as nat, canvas_height as nat),
            forall|j: int|
                0 <= j < lobby.robots.len() ==> near((#[trigger] lobby.robots[j]).start_pos)
                    && near(lobby.robots[j].velocity),
            q1 == in_quarter(all.take(i as int), k, w, h, 1),
            q2 == in_quarter(all.take(i as int), k, w, h, 2),
            q3 == in_quarter(all.take(i as int), k, w, h, 3),
            q4 == in_quarter(all.take(i as int), k, w, h, 4),
            q1 <= i && q2 <= i && q3 <= i && q4 <= i,
        decreases lobby.robots.len() - i,
    {
        proof {
            assert(all.take(i + 1).drop_last() =~= all.take(i as int));
            assert(all.take(i + 1).last() == lobby.robots[i as int]);
        }
        let p = lobby.robots[i].project_pos(iterations, canvas_width, canvas_height);
        let q = quarter_of(p, canvas_width, canvas_height);
        if q == 1 {
            q1 = q1 + 1;
        } else if q == 2 {
            q2 = q2 + 1;
        } else if q == 3 {
            q3 = q3 + 1;
        } else if q == 4 {
            q4 = q4 + 1;
        }
        i = i + 1;
    }
    proof {
        assert(all.take(lobby.robots.len() as int) =~= all);
        assert(q1 * q2 <= 65536 * 65536 && q1 * q2 * q3 <= 65536 * 65536 * 65536 && q1 * q2 * q3
            * q4 <= 65535 * 65536 * 65536 * 65536) by (nonlinear_arith)
            requires
                q1 <= 65535,
                q2 <= 65535,
                q3 <= 65535,
                q4 <= 65535,
        ;
    }
    let product: u64 = q1 * q2 * q3 * q4;
    (product % 0x1_0000_0000) as u32
}

} // verus!
