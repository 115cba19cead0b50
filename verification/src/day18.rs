//! The memory space: a square of cells on which bytes fall and block the
//! way from one corner to the other.

use crate::costs::find_shortest_cost;
use crate::laws::shortest_cost_is;
use crate::maze::cells_of;
use crate::maze::Cell;
use crate::maze::Maze;
use crate::maze::MazeView;
use crate::maze::MAX_CELLS;
use crate::route::reachable;
use crate::route::reaches;
use crate::route::route_state;
use crate::route::route_valid;
use crate::route::TravelDirection;
use crate::util::point::Point;
use crate::util::text::chars_of;
use crate::util::text::integer_of;
use crate::util::text::lines;
use crate::util::text::parse_i128;
use crate::util::text::split_lines;
use crate::util::text::split_on;
use crate::util::text::split_seq;
use crate::util::text::string_from_chars;
use crate::util::text::trim;
use crate::util::text::trimmed;
use crate::util::text::views;
use vstd::pervasive::unreached;
use vstd::prelude::*;

verus! {

/// The memory space: its two corners, the cells that bytes have hit, and
/// the length of its sides.
#[derive(Debug)]
pub struct PushdownAutomatonMap {
    start: Point,
    goal: Point,
    corrupt: Vec<Point>,
    map_length: u8,
}

/// The memory space as plain values.
pub struct SpaceView {
    pub corrupt: Set<Point>,
    pub size: nat,
}

impl SpaceView {
    /// The maze that the memory space is: the cells with coordinates from
    /// 0 to `size - 1`, of which those that a byte has hit are walls. The
    /// walker starts in the corner `(0, 0)`, whatever has hit it, and wants
    /// to the opposite corner.
    pub open spec fn maze(self) -> MazeView {
        MazeView {
            cells: Map::new(
                |p: Point| 0 <= p.x < self.size && 0 <= p.y < self.size,
                |p: Point|
                    if self.corrupt.contains(p) && p != (Point { x: 0, y: 0 }) {
                        Cell::Wall
                    } else {
                        Cell::Open
                    },
            ),
            start: Point { x: 0, y: 0 },
            goal: Point { x: (self.size - 1) as i128, y: (self.size - 1) as i128 },
        }
    }
}

impl View for PushdownAutomatonMap {
    type V = SpaceView;

    closed spec fn view(&self) -> SpaceView {
        SpaceView { corrupt: self.corrupt@.to_set(), size: self.map_length as nat }
    }
}

/// The point that a line denotes: two whole numbers with a comma between
/// them, with or without white space around the line.
pub open spec fn point_of(line: Seq<char>) -> Option<Point> {
    let parts = split_seq(trimmed(line), ',');
    if parts.len() == 2 && integer_of(parts[0], i128::MAX as nat) is Some && integer_of(
        parts[1],
        i128::MAX as nat,
    ) is Some {
        Some(
            Point {
                x: integer_of(parts[0], i128::MAX as nat)->0 as i128,
                y: integer_of(parts[1], i128::MAX as nat)->0 as i128,
            },
        )
    } else {
        None
    }
}

/// The points that the first `n` lines denote, or all lines where there
/// are fewer; `None` where one of them denotes no point.
pub open spec fn points_of(rows: Seq<Seq<char>>, n: nat) -> Option<Seq<Point>>
    decreases rows.len(),
{
    if rows.len() == 0 {
        Some(Seq::empty())
    } else if rows.len() > n {
        points_of(rows.drop_last(), n)
    } else {
        match (points_of(rows.drop_last(), n), point_of(rows.last())) {
            (Some(before), Some(p)) => Some(before.push(p)),
            _ => None,
        }
    }
}

/// The rows of a list of falling bytes: the lines of the text without the
/// white space around it.
pub open spec fn byte_rows(text: Seq<char>) -> Seq<Seq<char>> {
    split_lines(trimmed(text))
}

/// Reads a point: two whole numbers with a comma between them.
pub fn parse_point(line: &Vec<char>) -> (r: Option<Point>)
    ensures
        r == point_of(line@),
{
    let body = trim(line);
    let parts = split_on(&body, ',');
    if parts.len() != 2 {
        return None;
    }
    proof {
        assert(views(parts@)[0] == parts[0]@);
        assert(views(parts@)[1] == parts[1]@);
    }
    match (parse_i128(&parts[0]), parse_i128(&parts[1])) {
        (Some(x), Some(y)) => Some(Point { x, y }),
        _ => None,
    }
}

/// Reads the points of the first `n` rows.
pub fn parse_points(rows: &Vec<Vec<char>>, n: usize) -> (r: Option<Vec<Point>>)
    ensures
        match r {
            Some(points) => points_of(views(rows@), n as nat) == Some(points@),
            None => points_of(views(rows@), n as nat) is None,
        },
{
    let mut points: Vec<Point> = Vec::new();
    let mut i: usize = 0;
    while i < rows.len() && i < n
        invariant
            i <= rows.len(),
            i <= n,
            points_of(views(rows@).take(i as int), n as nat) == Some(points@),
        decreases rows.len() - i,
    {
        proof {
            assert(views(rows@).take(i + 1).drop_last() =~= views(rows@).take(i as int));
            assert(views(rows@).take(i + 1).last() == rows[i as int]@);
        }
        match parse_point(&rows[i]) {
            Some(p) => {
                points.push(p);
            },
            None => {
                proof {
                    lemma_points_of_prefix(views(rows@), n as nat, i + 1);
                }
                return None;
            },
        }
        i = i + 1;
    }
    proof {
        lemma_points_of_prefix(views(rows@), n as nat, i as int);
    }
    Some(points)
}

/// Only the first `n` rows count, and a row that denotes no point among
/// them spoils the whole list.
pub proof fn lemma_points_of_prefix(rows: Seq<Seq<char>>, n: nat, k: int)
    requires
        0 <= k <= rows.len(),
        k <= n,
        k == n || k == rows.len() || points_of(rows.take(k), n) is None,
    ensures
        points_of(rows.take(k), n) is None ==> points_of(rows, n) is None,
        (k == n || k == rows.len()) ==> points_of(rows, n) == points_of(rows.take(k), n),
    decreases rows.len(),
{
    if k == rows.len() {
        assert(rows.take(k) =~= rows);
    } else {
        assert(rows.drop_last().take(k) =~= rows.take(k));
        lemma_points_of_prefix(rows.drop_last(), n, k);
    }
}

impl PushdownAutomatonMap {
    /// The memory space with sides of length `size` after the first `n`
    /// bytes of the list have fallen. Every one of the first `n` lines of
    /// the text must denote a point.
    pub fn new(input: &str, size: u8, n: u16) -> (r: PushdownAutomatonMap)
        requires
            points_of(byte_rows(input@), n as nat) is Some,
        ensures
            r@ == (SpaceView {
                corrupt: points_of(byte_rows(input@), n as nat)->0.to_set(),
                size: size as nat,
            }),
    {
        let chars = chars_of(input);
        let body = trim(&chars);
        let rows = lines(&body);
        let corrupt = match parse_points(&rows, n as usize) {
            Some(points) => points,
            None => unreached(),
        };
        let goal_x_y: i128 = size as i128 - 1;
        PushdownAutomatonMap {
            start: Point::new(0, 0),
            goal: Point::new(goal_x_y, goal_x_y),
            corrupt,
            map_length: size,
        }
    }

    /// Whether a byte has hit the cell `p`.
    pub fn is_corrupt(&self, p: Point) -> (b: bool)
        ensures
            b == self@.corrupt.contains(p),
    {
        let mut i: usize = 0;
        while i < self.corrupt.len()
            invariant
                i <= self.corrupt.len(),
                forall|j: int| 0 <= j < i ==> self.corrupt[j] != p,
            decreases self.corrupt.len() - i,
        {
            if self.corrupt[i] == p {
                proof {
                    assert(self.corrupt@.contains(p));
                }
                return true;
            }
            i = i + 1;
        }
        proof {
            assert(!self.corrupt@.contains(p));
        }
        false
    }

    /// The length of the sides of the memory space.
    pub fn size(&self) -> (s: u8)
        ensures
            s == self@.size,
    {
        self.map_length
    }
}

/// The number of steps of the shortest way from the corner `(0, 0)` to the
/// opposite corner of the memory space that avoids the cells that bytes
/// have hit, or `None` where there is no way.
pub fn a_star_pathfinding(map: PushdownAutomatonMap) -> (r: Option<u32>)
    ensures
        match r {
            Some(c) => shortest_cost_is(map@.maze(), 0, Some(c as u64)),
            None => shortest_cost_is(map@.maze(), 0, None),
        },
{
    let ghost m = map@.maze();
    let size: usize = map.size() as usize;
    if size == 0 {
        proof {
            assert forall|r: Seq<TravelDirection>| !reaches(m, r, m.goal) by {
                if r.len() > 0 && route_valid(m, r) {
                    assert(m.is_open(route_state(m.start, r).at));
                }
            }
        }
        return None;
    }
    if size == 1 {
        proof {
            let stay = Seq::<TravelDirection>::empty();
            assert(reaches(m, stay, m.goal) && crate::route::route_cost(0, stay) == 0);
            assert(crate::route::is_least_cost(m, 0, m.goal, 0));
        }
        return Some(0);
    }
    let mut rows: Vec<Vec<Cell>> = Vec::new();
    let mut y: usize = 0;
    while y < size
        invariant
            y <= size,
            size == map@.size,
            2 <= size <= 255,
            rows.len() == y,
            forall|i: int| 0 <= i < y ==> (#[trigger] rows[i]).len() == size,
            forall|i: int, j: int|
                0 <= i < y && 0 <= j < size ==> #[trigger] rows[i][j] == map@.maze().cells[Point {
                    x: j as i128,
                    y: i as i128,
                }],
        decreases size - y,
    {
        let mut row: Vec<Cell> = Vec::new();
        let mut x: usize = 0;
        while x < size
            invariant
                x <= size,
                y < size,
                size == map@.size,
                2 <= size <= 255,
                row.len() == x,
                forall|j: int|
                    0 <= j < x ==> #[trigger] row[j] == map@.maze().cells[Point {
                        x: j as i128,
                        y: y as i128,
                    }],
            decreases size - x,
        {
            let p = Point { x: x as i128, y: y as i128 };
            let cell = if (x != 0 || y != 0) && map.is_corrupt(p) {
                Cell::Wall
            } else {
                Cell::Open
            };
            row.push(cell);
            x = x + 1;
        }
        rows.push(row);
        y = y + 1;
    }
    let start = Point { x: 0, y: 0 };
    let goal = Point { x: size as i128 - 1, y: size as i128 - 1 };
    proof {
        assert(cells_of(rows@) =~= m.cells) by {
            assert forall|p: Point| cells_of(rows@).contains_key(p) implies cells_of(rows@)[p]
                == m.cells[p] by {
                assert(rows[p.y as int][p.x as int] == m.cells[Point { x: p.x, y: p.y }]);
            }
        }
        lemma_widest_square(rows@, size as nat);
        assert(rows@.len() * size <= MAX_CELLS) by (nonlinear_arith)
            requires
                rows@.len() == size,
                size <= 255,
        ;
    }
    if map.is_corrupt(goal) {
        proof {
            assert forall|r: Seq<TravelDirection>| !reaches(m, r, m.goal) by {
                if r.len() > 0 && route_valid(m, r) {
                    assert(m.is_open(route_state(m.start, r).at));
                }
            }
        }
        return None;
    }
    match Maze::from_cells(rows, start, goal) {
        Some(maze) => {
            match find_shortest_cost(&maze, 0) {
                Some(c) => {
                    assert(c <= 1 * (4 * MAX_CELLS));
                    Some(c as u32)
                },
                None => None,
            }
        },
        None => unreached(),
    }
}

/// Rows that all have the length `w` are as wide as `w`, if there are any.
pub proof fn lemma_widest_square(rows: Seq<Vec<Cell>>, w: nat)
    requires
        forall|i: int| 0 <= i < rows.len() ==> (#[trigger] rows[i]).len() == w,
    ensures
        crate::maze::widest(rows) <= w,
    decreases rows.len(),
{
    if rows.len() > 0 {
        lemma_widest_square(rows.drop_last(), w);
    }
}

/// The number of steps of the shortest way through the memory space with
/// sides of length `map_size` after the first `n` bytes of the list have
/// fallen. The lines must denote points, and there must be a way.
pub fn solve_day_18_part_01(input: &str, map_size: u8, n: u16) -> (r: u32)
    requires
        points_of(byte_rows(input@), n as nat) is Some,
        reachable(
            (SpaceView {
                corrupt: points_of(byte_rows(input@), n as nat)->0.to_set(),
                size: map_size as nat,
            }).maze(),
            Point { x: (map_size - 1) as i128, y: (map_size - 1) as i128 },
        ),
    ensures
        shortest_cost_is(
            (SpaceView {
                corrupt: points_of(byte_rows(input@), n as nat)->0.to_set(),
                size: map_size as nat,
            }).maze(),
            0,
            Some(r as u64),
        ),
{
    let map = PushdownAutomatonMap::new(input, map_size, n);
    match a_star_pathfinding(map) {
        Some(c) => c,
        None => unreached(),
    }
}

/// The memory space with sides of length `size` after the first `n` bytes
/// of the list `text` have fallen.
pub open spec fn space_after(text: Seq<char>, size: nat, n: nat) -> SpaceView {
    SpaceView { corrupt: points_of(byte_rows(text), n)->0.to_set(), size }
}

/// Whether no way is left after the first `n` bytes have fallen.
pub open spec fn blocked(text: Seq<char>, size: nat, n: nat) -> bool {
    shortest_cost_is(space_after(text, size, n).maze(), 0, None)
}

/// Where all rows denote points, so do the first `n` of them.
pub proof fn lemma_points_of_fewer(rows: Seq<Seq<char>>, n: nat)
    requires
        points_of(rows, rows.len()) is Some,
    ensures
        points_of(rows, n) is Some,
    decreases rows.len(),
{
    if rows.len() > 0 {
        lemma_points_of_more(rows.drop_last(), rows.len());
        lemma_points_of_fewer(rows.drop_last(), n);
    }
}

/// A limit above the number of rows is no limit.
pub proof fn lemma_points_of_more(rows: Seq<Seq<char>>, n: nat)
    requires
        n >= rows.len(),
    ensures
        points_of(rows, n) == points_of(rows, rows.len()),
    decreases rows.len(),
{
    if rows.len() > 0 {
        lemma_points_of_more(rows.drop_last(), n);
        lemma_points_of_more(rows.drop_last(), rows.len());
    }
}

/// A byte of the list that cuts the last way: the line of a byte before
/// which there is a way from corner to corner and after which there is
/// none. It is found by halving the list again and again. Every line must
/// denote a point, there must be at least two and fewer than 65536, there
/// must be a way before the first byte falls, and none before the last.
pub fn solve_day_18_part_02(input: &str, map_size: u8) -> (r: String)
    requires
        points_of(byte_rows(input@), byte_rows(input@).len()) is Some,
        2 <= byte_rows(input@).len() < 65536,
        !blocked(input@, map_size as nat, 0),
        blocked(input@, map_size as nat, (byte_rows(input@).len() - 1) as nat),
    ensures
        exists|u: int|
            1 <= u < byte_rows(input@).len() && r@ == #[trigger] byte_rows(input@)[u - 1]
                && !blocked(input@, map_size as nat, (u - 1) as nat) && blocked(
                input@,
                map_size as nat,
                u as nat,
            ),
{
    let chars = chars_of(input);
    let body = trim(&chars);
    let rows = lines(&body);
    let mut lower_boundary: usize = 0;
    let mut upper_boundary: usize = rows.len() - 1;
    while lower_boundary != upper_boundary - 1
        invariant
            views(rows@) == byte_rows(input@),
            points_of(byte_rows(input@), byte_rows(input@).len()) is Some,
            lower_boundary < upper_boundary < rows.len() < 65536,
            !blocked(input@, map_size as nat, lower_boundary as nat),
            blocked(input@, map_size as nat, upper_boundary as nat),
        decreases upper_boundary - lower_boundary,
    {
        let n: usize = (lower_boundary + upper_boundary) / 2;
        proof {
            lemma_points_of_fewer(byte_rows(input@), n as nat);
        }
        let map = PushdownAutomatonMap::new(input, map_size, n as u16);
        match a_star_pathfinding(map) {
            Some(_) => {
                proof {
                    let m = space_after(input@, map_size as nat, n as nat).maze();
                    assert(shortest_cost_is(m, 0, None) ==> !reachable(m, m.goal));
                }
                lower_boundary = n;
            },
            None => {
                upper_boundary = n;
            },
        }
    }
    let row = &rows[upper_boundary - 1];
    proof {
        assert(views(rows@)[upper_boundary - 1] == row@);
    }
    string_from_chars(row)
}

} // verus!
