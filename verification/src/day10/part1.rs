//! The map, its trails, and the score of its trailheads.

use crate::day19::part1::add_capped;
use crate::day19::part1::capped;
use crate::util::grid::grid_of;
use crate::util::point::Point;
use crate::util::text::chars_of;
use crate::util::text::lines;
use crate::util::text::split_lines;
use crate::util::text::views;
use vstd::prelude::*;

verus! {

/// A height.
#[derive(Debug, Copy, Clone, PartialEq, Eq, Hash, Structural)]
pub struct Altitude(pub u8);

impl Altitude {
    /// Whether a trail may begin at this height.
    pub fn is_trail_head(&self) -> (b: bool)
        ensures
            b == (self.0 == 0),
    {
        self.0 == 0
    }

    /// Whether a trail ends at this height.
    pub fn is_trail_goal(&self) -> (b: bool)
        ensures
            b == (self.0 == 9),
    {
        self.0 == 9
    }

    /// Whether a step from the height `from` to this height climbs by one.
    pub fn is_climbable(&self, from: &Altitude) -> (b: bool)
        ensures
            b == (self.0 == from.0 + 1),
    {
        from.0 < 255 && self.0 == from.0 + 1
    }
}

/// A trail: where it began, where it has come to, and the height there.
#[derive(Debug, Copy, Clone, PartialEq, Eq, Hash, Structural)]
pub struct Trail {
    pub start: Point,
    pub curr_pos: Point,
    pub curr_alt: Altitude,
}

impl Trail {
    /// The trail that begins at `start` and has not moved yet.
    pub fn new(start: Point) -> (t: Trail)
        ensures
            t == (Trail { start, curr_pos: start, curr_alt: Altitude(0) }),
    {
        Trail { start, curr_pos: start, curr_alt: Altitude(0) }
    }

    /// The trail with the given parts.
    pub fn new_set(start: Point, curr_pos: Point, curr_alt: Altitude) -> (t: Trail)
        ensures
            t == (Trail { start, curr_pos, curr_alt }),
    {
        Trail { start, curr_pos, curr_alt }
    }

    /// Whether the trail has come to height 9.
    pub fn is_completed(&self) -> (b: bool)
        ensures
            b == (self.curr_alt.0 == 9),
    {
        self.curr_alt.is_trail_goal()
    }
}

/// The height that a character of the map stands for: a digit stands for
/// its value, any other character for the height 11, which no trail
/// reaches.
pub open spec fn height_of(c: char) -> u8 {
    if '0' <= c <= '9' {
        (c as u32 - '0' as u32) as u8
    } else {
        11
    }
}

/// The heights that the rows of a map hold.
pub open spec fn heights_of(rows: Seq<Seq<char>>) -> Map<Point, u8> {
    Map::new(
        |p: Point| grid_of(rows).contains_key(p),
        |p: Point| height_of(grid_of(rows)[p]),
    )
}

/// A map of heights.
pub struct TopographicMap {
    rows: Vec<Vec<Altitude>>,
}

/// The heights that rows of altitudes hold.
pub open spec fn heights(rows: Seq<Vec<Altitude>>) -> Map<Point, u8> {
    Map::new(
        |p: Point| 0 <= p.y < rows.len() && 0 <= p.x < rows[p.y as int].len(),
        |p: Point| rows[p.y as int][p.x as int].0,
    )
}

impl View for TopographicMap {
    type V = Map<Point, u8>;

    closed spec fn view(&self) -> Map<Point, u8> {
        heights(self.rows@)
    }
}

/// The cell to the left of `p`.
pub open spec fn west(p: Point) -> Point {
    Point { x: (p.x - 1) as i128, y: p.y }
}

/// The cell to the right of `p`.
pub open spec fn east(p: Point) -> Point {
    Point { x: (p.x + 1) as i128, y: p.y }
}

/// The cell above `p`.
pub open spec fn north(p: Point) -> Point {
    Point { x: p.x, y: (p.y - 1) as i128 }
}

/// The cell below `p`.
pub open spec fn south(p: Point) -> Point {
    Point { x: p.x, y: (p.y + 1) as i128 }
}

/// Whether the map holds the height `k` at `p`.
pub open spec fn level(m: Map<Point, u8>, p: Point, k: nat) -> bool {
    m.contains_key(p) && m[p] == k
}

/// Whether a trail of `k` steps leads from `s` to `q`: it begins at height
/// 0 and every step climbs by one, to a cell next to the last.
pub open spec fn reaches(m: Map<Point, u8>, s: Point, q: Point, k: nat) -> bool
    decreases k,
{
    level(m, q, k) && if k == 0 {
        q == s
    } else {
        reaches(m, s, west(q), (k - 1) as nat) || reaches(m, s, east(q), (k - 1) as nat)
            || reaches(m, s, north(q), (k - 1) as nat) || reaches(m, s, south(q), (k - 1) as nat)
    }
}

/// The number of cells of the first `x` columns of row `y`, and of all
/// rows above it, to which a trail of 9 steps leads from `s`.
pub open spec fn peaks_before(rows: Seq<Vec<Altitude>>, s: Point, y: int, x: int) -> nat
    decreases y, x,
{
    if y < 0 || y >= rows.len() {
        0
    } else if x <= 0 {
        if y == 0 {
            0
        } else {
            peaks_before(rows, s, y - 1, rows[y - 1].len() as int)
        }
    } else {
        peaks_before(rows, s, y, x - 1) + if reaches(
            heights(rows),
            s,
            Point { x: (x - 1) as i128, y: y as i128 },
            9,
        ) {
            1nat
        } else {
            0nat
        }
    }
}

/// The score of the cell `s`: the number of cells with height 9 to which
/// a trail leads from it.
pub open spec fn score_of(rows: Seq<Vec<Altitude>>, s: Point) -> nat {
    if rows.len() == 0 {
        0
    } else {
        peaks_before(rows, s, rows.len() - 1, rows[rows.len() - 1].len() as int)
    }
}

/// The scores of the cells of the first `x` columns of row `y`, and of all
/// rows above it, added up.
pub open spec fn scores_before(rows: Seq<Vec<Altitude>>, y: int, x: int) -> nat
    decreases y, x,
{
    if y < 0 || y >= rows.len() {
        0
    } else if x <= 0 {
        if y == 0 {
            0
        } else {
            scores_before(rows, y - 1, rows[y - 1].len() as int)
        }
    } else {
        scores_before(rows, y, x - 1) + score_of(
            rows,
            Point { x: (x - 1) as i128, y: y as i128 },
        )
    }
}

/// The scores of all cells of the map, added up.
pub open spec fn total_score(rows: Seq<Vec<Altitude>>) -> nat {
    if rows.len() == 0 {
        0
    } else {
        scores_before(rows, rows.len() - 1, rows[rows.len() - 1].len() as int)
    }
}

/// The height that the character `c` stands for.
pub fn height_of_char(c: char) -> (h: u8)
    ensures
        h == height_of(c),
{
    if '0' <= c && c <= '9' {
        (c as u32 - '0' as u32) as u8
    } else {
        11
    }
}

/// Whether two grids have rows of the same lengths.
pub open spec fn same_shape<T>(grid: Seq<Vec<T>>, rows: Seq<Vec<Altitude>>) -> bool {
    grid.len() == rows.len() && forall|y: int|
        0 <= y < rows.len() ==> (#[trigger] grid[y]).len() == rows[y].len()
}

/// The value that a grid holds at `p`, or `default` where it has no cell
/// there.
pub fn cell_or<T: Copy>(grid: &Vec<Vec<T>>, p: Point, default: T) -> (r: T)
    ensures
        r == if 0 <= p.y < grid.len() && 0 <= p.x < grid[p.y as int].len() {
            grid[p.y as int][p.x as int]
        } else {
            default
        },
{
    if p.y < 0 || p.x < 0 {
        return default;
    }
    if p.y >= grid.len() as i128 {
        return default;
    }
    let row = &grid[p.y as usize];
    if p.x >= row.len() as i128 {
        return default;
    }
    row[p.x as usize]
}

impl TopographicMap {
    /// The rows of the map.
    pub closed spec fn rows(&self) -> Seq<Vec<Altitude>> {
        self.rows@
    }

    /// The rows of the map.
    pub fn altitudes(&self) -> (r: &Vec<Vec<Altitude>>)
        ensures
            r@ == self.rows(),
    {
        &self.rows
    }

    /// The map is made of its rows.
    pub proof fn lemma_view(&self)
        ensures
            self@ == heights(self.rows()),
    {
    }

    /// Reads a map from text, one row per line.
    pub fn parse(value: &str) -> (m: TopographicMap)
        ensures
            m@ == heights_of(split_lines(value@)),
    {
        let chars = chars_of(value);
        let ls = lines(&chars);
        let mut rows: Vec<Vec<Altitude>> = Vec::new();
        let mut y: usize = 0;
        while y < ls.len()
            invariant
                y <= ls.len(),
                rows.len() == y,
                forall|i: int| 0 <= i < y ==> (#[trigger] rows[i]).len() == ls[i].len(),
                forall|i: int, j: int|
                    0 <= i < y && 0 <= j < ls[i].len() ==> (#[trigger] rows[i][j]).0 == height_of(
                        ls[i][j],
                    ),
            decreases ls.len() - y,
        {
            let line = &ls[y];
            let mut row: Vec<Altitude> = Vec::new();
            let mut x: usize = 0;
            while x < line.len()
                invariant
                    x <= line.len(),
                    row.len() == x,
                    forall|j: int| 0 <= j < x ==> (#[trigger] row[j]).0 == height_of(line[j]),
                decreases line.len() - x,
            {
                row.push(Altitude(height_of_char(line[x])));
                x = x + 1;
            }
            rows.push(row);
            y = y + 1;
        }
        let m = TopographicMap { rows };
        proof {
            let want = heights_of(split_lines(value@));
            assert forall|p: Point| m@.contains_key(p) <==> want.contains_key(p) by {
                if 0 <= p.y < ls.len() {
                    assert(views(ls@)[p.y as int] == ls[p.y as int]@);
                }
            }
            assert forall|p: Point| m@.contains_key(p) implies m@[p] == want[p] by {
                assert(views(ls@)[p.y as int] == ls[p.y as int]@);
                assert(m.rows[p.y as int][p.x as int].0 == height_of(
                    ls[p.y as int][p.x as int],
                ));
            }
            assert(m@ =~= want);
        }
        m
    }

    /// The height at `p`, if the map has a cell there.
    pub fn get(&self, p: &Point) -> (r: Option<Altitude>)
        ensures
            match r {
                Some(a) => self@.contains_pair(*p, a.0),
                None => !self@.contains_key(*p),
            },
    {
        if p.y < 0 || p.x < 0 {
            return None;
        }
        if p.y >= self.rows.len() as i128 {
            return None;
        }
        let row = &self.rows[p.y as usize];
        if p.x >= row.len() as i128 {
            return None;
        }
        Some(row[p.x as usize])
    }

    /// The cells with height 0, row by row, each once.
    pub fn starting_points(&self) -> (r: Vec<(Point, Altitude)>)
        ensures
            forall|p: Point, a: Altitude| #[trigger]
                r@.contains((p, a)) <==> (a.0 == 0 && self@.contains_pair(p, 0)),
            r@.no_duplicates(),
    {
        let mut r: Vec<(Point, Altitude)> = Vec::new();
        let mut y: usize = 0;
        while y < self.rows.len()
            invariant
                y <= self.rows.len(),
                r@.no_duplicates(),
                forall|p: Point, a: Altitude| #[trigger]
                    r@.contains((p, a)) <==> (a.0 == 0 && self@.contains_pair(p, 0) && p.y < y),
            decreases self.rows.len() - y,
        {
            let row = &self.rows[y];
            let mut x: usize = 0;
            while x < row.len()
                invariant
                    y < self.rows.len(),
                    *row == self.rows[y as int],
                    x <= row.len(),
                    r@.no_duplicates(),
                    forall|p: Point, a: Altitude| #[trigger]
                        r@.contains((p, a)) <==> (a.0 == 0 && self@.contains_pair(p, 0) && (p.y
                            < y || (p.y == y && p.x < x))),
                decreases row.len() - x,
            {
                let here = Point { x: x as i128, y: y as i128 };
                let ghost before = r@;
                if row[x].is_trail_head() {
                    let cell = (here, row[x]);
                    r.push(cell);
                    proof {
                        assert(cell == (cell.0, cell.1));
                        assert(!before.contains((cell.0, cell.1)));
                        assert forall|p: Point, a: Altitude| #[trigger]
                            r@.contains((p, a)) <==> (a.0 == 0 && self@.contains_pair(p, 0) && (p.y
                                < y || (p.y == y && p.x < x + 1))) by {
                            crate::util::point::lemma_push_contains(before, cell, (p, a));
                            if a.0 == 0 && self@.contains_pair(p, 0) && p.y == y && p.x == x {
                                assert(p == here);
                                assert(a == row[x as int]);
                            }
                        }
                    }
                } else {
                    proof {
                        assert forall|p: Point, a: Altitude| #[trigger]
                            r@.contains((p, a)) <==> (a.0 == 0 && self@.contains_pair(p, 0) && (p.y
                                < y || (p.y == y && p.x < x + 1))) by {
                            if p.y == y && p.x == x {
                                assert(p == here);
                            }
                        }
                    }
                }
                x = x + 1;
            }
            y = y + 1;
        }
        r
    }

    /// The trails that are one step longer than `trail`: one for each of
    /// the cells to the left, to the right, above and below, in this
    /// order, that is one higher than where the trail has come to.
    pub fn travel_adjacent(&self, trail: Trail) -> (r: Vec<Trail>)
        requires
            trail.curr_pos.has_room(),
        ensures
            r@ == steps(
                self@,
                trail,
                seq![
                    west(trail.curr_pos),
                    east(trail.curr_pos),
                    north(trail.curr_pos),
                    south(trail.curr_pos),
                ],
            ),
    {
        let p = trail.curr_pos;
        let around = [p.left(), p.right(), p.up(), p.down()];
        let ghost all = seq![west(p), east(p), north(p), south(p)];
        let mut r: Vec<Trail> = Vec::new();
        let mut i: usize = 0;
        while i < 4
            invariant
                i <= 4,
                around@ == all,
                r@ == steps(self@, trail, all.take(i as int)),
            decreases 4 - i,
        {
            let next = around[i];
            proof {
                assert(all.take(i + 1).drop_last() =~= all.take(i as int));
            }
            match self.get(&next) {
                Some(a) => {
                    if a.is_climbable(&trail.curr_alt) {
                        r.push(Trail::new_set(trail.start, next, a));
                    }
                },
                None => {},
            }
            i = i + 1;
        }
        proof {
            assert(all.take(4) =~= all);
        }
        r
    }

    /// The scores of all cells of the map, added up, or the largest number
    /// that fits where it is more.
    pub fn traverse(&self) -> (r: usize)
        ensures
            r == capped(total_score(self.rows())),
    {
        let mut total: usize = 0;
        let mut y: usize = 0;
        while y < self.rows.len()
            invariant
                y <= self.rows.len(),
                total == capped(
                    if y == 0 {
                        0
                    } else {
                        scores_before(self.rows@, y - 1, self.rows[y - 1].len() as int)
                    },
                ),
            decreases self.rows.len() - y,
        {
            let mut x: usize = 0;
            while x < self.rows[y].len()
                invariant
                    y < self.rows.len(),
                    x <= self.rows[y as int].len(),
                    total == capped(scores_before(self.rows@, y as int, x as int)),
                decreases self.rows[y as int].len() - x,
            {
                let s = Point { x: x as i128, y: y as i128 };
                let score = self.score(s);
                total = add_capped(total, score);
                x = x + 1;
            }
            y = y + 1;
        }
        total
    }

    /// The score of the cell `s`, or the largest number that fits where
    /// it is more.
    pub fn score(&self, s: Point) -> (r: usize)
        ensures
            r == capped(score_of(self.rows(), s)),
    {
        if self.rows.len() == 0 {
            return 0;
        }
        let ghost m = heights(self.rows@);
        // The cells to which a trail of `k` steps leads from `s`.
        let mut reached: Vec<Vec<bool>> = Vec::new();
        let mut k: u8 = 0;
        let mut y: usize = 0;
        while y < self.rows.len()
            invariant
                y <= self.rows.len(),
                m == heights(self.rows@),
                reached.len() == y,
                forall|i: int| 0 <= i < y ==> (#[trigger] reached[i]).len() == self.rows[i].len(),
                forall|i: int, j: int|
                    0 <= i < y && 0 <= j < self.rows[i].len() ==> #[trigger] reached[i][j]
                        == reaches(m, s, Point { x: j as i128, y: i as i128 }, 0),
            decreases self.rows.len() - y,
        {
            let mut row: Vec<bool> = Vec::new();
            let mut x: usize = 0;
            while x < self.rows[y].len()
                invariant
                    y < self.rows.len(),
                    x <= self.rows[y as int].len(),
                    m == heights(self.rows@),
                    row.len() == x,
                    forall|j: int|
                        0 <= j < x ==> #[trigger] row[j] == reaches(
                            m,
                            s,
                            Point { x: j as i128, y: y as i128 },
                            0,
                        ),
                decreases self.rows[y as int].len() - x,
            {
                let here = Point { x: x as i128, y: y as i128 };
                row.push(self.rows[y][x].0 == 0 && here == s);
                x = x + 1;
            }
            reached.push(row);
            y = y + 1;
        }
        while k < 9
            invariant
                k <= 9,
                m == heights(self.rows@),
                same_shape(reached@, self.rows@),
                forall|i: int, j: int|
                    0 <= i < self.rows.len() && 0 <= j < self.rows[i].len()
                        ==> #[trigger] reached[i][j] == reaches(
                        m,
                        s,
                        Point { x: j as i128, y: i as i128 },
                        k as nat,
                    ),
            decreases 9 - k,
        {
            let mut next: Vec<Vec<bool>> = Vec::new();
            let mut y: usize = 0;
            while y < self.rows.len()
                invariant
                    y <= self.rows.len(),
                    k < 9,
                    m == heights(self.rows@),
                    same_shape(reached@, self.rows@),
                    forall|i: int, j: int|
                        0 <= i < self.rows.len() && 0 <= j < self.rows[i].len()
                            ==> #[trigger] reached[i][j] == reaches(
                            m,
                            s,
                            Point { x: j as i128, y: i as i128 },
                            k as nat,
                        ),
                    next.len() == y,
                    forall|i: int| 0 <= i < y ==> (#[trigger] next[i]).len() == self.rows[i].len(),
                    forall|i: int, j: int|
                        0 <= i < y && 0 <= j < self.rows[i].len() ==> #[trigger] next[i][j]
                            == reaches(m, s, Point { x: j as i128, y: i as i128 }, (k + 1) as nat),
                decreases self.rows.len() - y,
            {
                let mut row: Vec<bool> = Vec::new();
                let mut x: usize = 0;
                while x < self.rows[y].len()
                    invariant
                        y < self.rows.len(),
                        k < 9,
                        x <= self.rows[y as int].len(),
                        m == heights(self.rows@),
                        same_shape(reached@, self.rows@),
                        forall|i: int, j: int|
                            0 <= i < self.rows.len() && 0 <= j < self.rows[i].len()
                                ==> #[trigger] reached[i][j] == reaches(
                                m,
                                s,
                                Point { x: j as i128, y: i as i128 },
                                k as nat,
                            ),
                        row.len() == x,
                        forall|j: int|
                            0 <= j < x ==> #[trigger] row[j] == reaches(
                                m,
                                s,
                                Point { x: j as i128, y: y as i128 },
                                (k + 1) as nat,
                            ),
                    decreases self.rows[y as int].len() - x,
                {
                    let q = Point { x: x as i128, y: y as i128 };
                    let w = cell_or(&reached, q.left(), false);
                    let e = cell_or(&reached, q.right(), false);
                    let n = cell_or(&reached, q.up(), false);
                    let so = cell_or(&reached, q.down(), false);
                    proof {
                        lemma_reached(self.rows@, reached@, s, west(q), k as nat);
                        lemma_reached(self.rows@, reached@, s, east(q), k as nat);
                        lemma_reached(self.rows@, reached@, s, north(q), k as nat);
                        lemma_reached(self.rows@, reached@, s, south(q), k as nat);
                    }
                    row.push(self.rows[y][x].0 == k + 1 && (w || e || n || so));
                    x = x + 1;
                }
                next.push(row);
                y = y + 1;
            }
            reached = next;
            k = k + 1;
        }
        let mut count: usize = 0;
        let mut y: usize = 0;
        while y < self.rows.len()
            invariant
                y <= self.rows.len(),
                m == heights(self.rows@),
                same_shape(reached@, self.rows@),
                forall|i: int, j: int|
                    0 <= i < self.rows.len() && 0 <= j < self.rows[i].len()
                        ==> #[trigger] reached[i][j] == reaches(
                        m,
                        s,
                        Point { x: j as i128, y: i as i128 },
                        9,
                    ),
                count == capped(
                    if y == 0 {
                        0
                    } else {
                        peaks_before(self.rows@, s, y - 1, self.rows[y - 1].len() as int)
                    },
                ),
            decreases self.rows.len() - y,
        {
            let mut x: usize = 0;
            while x < self.rows[y].len()
                invariant
                    y < self.rows.len(),
                    x <= self.rows[y as int].len(),
                    m == heights(self.rows@),
                    same_shape(reached@, self.rows@),
                    forall|i: int, j: int|
                        0 <= i < self.rows.len() && 0 <= j < self.rows[i].len()
                            ==> #[trigger] reached[i][j] == reaches(
                            m,
                            s,
                            Point { x: j as i128, y: i as i128 },
                            9,
                        ),
                    count == capped(peaks_before(self.rows@, s, y as int, x as int)),
                decreases self.rows[y as int].len() - x,
            {
                let one: usize = if reached[y][x] {
                    1
                } else {
                    0
                };
                proof {
                    assert(one == capped(one as nat));
                }
                count = add_capped(count, one);
                x = x + 1;
            }
            y = y + 1;
        }
        count
    }
}

/// What a grid of reached cells holds for a cell, or `false` for a point
/// that is no cell, is whether a trail leads there.
pub proof fn lemma_reached(
    rows: Seq<Vec<Altitude>>,
    reached: Seq<Vec<bool>>,
    s: Point,
    q: Point,
    k: nat,
)
    requires
        same_shape(reached, rows),
        forall|i: int, j: int|
            0 <= i < rows.len() && 0 <= j < rows[i].len() ==> #[trigger] reached[i][j] == reaches(
                heights(rows),
                s,
                Point { x: j as i128, y: i as i128 },
                k,
            ),
    ensures
        reaches(heights(rows), s, q, k) == if 0 <= q.y < reached.len() && 0 <= q.x
            < reached[q.y as int].len() {
            reached[q.y as int][q.x as int]
        } else {
            false
        },
{
    if 0 <= q.y < reached.len() && 0 <= q.x < reached[q.y as int].len() {
        assert(reached[q.y as int][q.x as int] == reaches(
            heights(rows),
            s,
            Point { x: q.x as int as i128, y: q.y as int as i128 },
            k,
        ));
    }
}

/// The trails that are one step longer than `trail` and end at one of the
/// cells of `around`, in the order of `around`.
pub open spec fn steps(m: Map<Point, u8>, trail: Trail, around: Seq<Point>) -> Seq<Trail>
    decreases around.len(),
{
    if around.len() == 0 {
        Seq::empty()
    } else {
        let before = steps(m, trail, around.drop_last());
        let p = around.last();
        if m.contains_key(p) && m[p] == trail.curr_alt.0 + 1 {
            before.push(Trail { start: trail.start, curr_pos: p, curr_alt: Altitude(m[p]) })
        } else {
            before
        }
    }
}

/// The scores of the trailheads of the map that the text draws, added up,
/// or the largest number that fits where it is more. A cell scores the
/// number of cells with height 9 to which a trail leads from it.
pub fn solve_day_10_part_01(input: String) -> (r: usize)
    ensures
        exists|rows: Seq<Vec<Altitude>>|
            heights(rows) == heights_of(split_lines(input@)) && r == capped(
                #[trigger] total_score(rows),
            ),
{
    let map = TopographicMap::parse(input.as_str());
    let r = map.traverse();
    proof {
        map.lemma_view();
        assert(heights(map.rows()) == heights_of(split_lines(input@)));
    }
    r
}

} // verus!
