//! A grid of characters read from text, addressed by points.

use crate::util::point::lemma_push_contains;
use crate::util::point::Point;
use crate::util::text::chars_of;
use crate::util::text::lines;
use crate::util::text::split_lines;
use crate::util::text::views;
use vstd::prelude::*;
use vstd::std_specs::ops::AddSpecImpl;

verus! {

/// The eight compass directions. North is towards smaller `y`.
#[derive(Debug, PartialEq, Eq, Clone, Copy, Structural)]
pub enum Direction {
    N,
    NE,
    E,
    SE,
    S,
    SW,
    W,
    NW,
}

impl Direction {
    /// The change of `x` that one step in this direction makes.
    pub open spec fn dx(self) -> int {
        match self {
            Direction::NE | Direction::E | Direction::SE => 1,
            Direction::NW | Direction::W | Direction::SW => -1,
            _ => 0,
        }
    }

    /// The change of `y` that one step in this direction makes.
    pub open spec fn dy(self) -> int {
        match self {
            Direction::SE | Direction::S | Direction::SW => 1,
            Direction::NE | Direction::N | Direction::NW => -1,
            _ => 0,
        }
    }
}

impl core::ops::Add<Direction> for Point {
    type Output = Point;

    fn add(self, rhs: Direction) -> (p: Point) {
        match rhs {
            Direction::N => self.up(),
            Direction::NE => self.up().right(),
            Direction::E => self.right(),
            Direction::SE => self.down().right(),
            Direction::S => self.down(),
            Direction::SW => self.down().left(),
            Direction::W => self.left(),
            Direction::NW => self.up().left(),
        }
    }
}

impl AddSpecImpl<Direction> for Point {
    open spec fn obeys_add_spec() -> bool {
        true
    }

    open spec fn add_req(self, rhs: Direction) -> bool {
        self.has_room()
    }

    open spec fn add_spec(self, rhs: Direction) -> Point {
        Point { x: (self.x + rhs.dx()) as i128, y: (self.y + rhs.dy()) as i128 }
    }
}

/// The cells that a sequence of rows holds: the character at column `x` of
/// row `y` stands at the point `(x, y)`.
pub open spec fn grid_of(rows: Seq<Seq<char>>) -> Map<Point, char> {
    Map::new(
        |p: Point| 0 <= p.y < rows.len() && 0 <= p.x < rows[p.y as int].len(),
        |p: Point| rows[p.y as int][p.x as int],
    )
}

/// A grid of characters. Rows may differ in length.
#[derive(Debug)]
pub struct CharGrid {
    rows: Vec<Vec<char>>,
}

impl View for CharGrid {
    type V = Map<Point, char>;

    closed spec fn view(&self) -> Map<Point, char> {
        grid_of(views(self.rows@))
    }
}

/// What `f` gives for the cells of the first `x` columns of row `y`, and
/// of all rows above it, added up.
pub open spec fn cells_sum(rows: Seq<Seq<char>>, y: int, x: int, f: spec_fn(Point) -> nat) -> nat
    decreases y, x,
{
    if y < 0 || y >= rows.len() {
        0
    } else if x <= 0 {
        if y == 0 {
            0
        } else {
            cells_sum(rows, y - 1, rows[y - 1].len() as int, f)
        }
    } else {
        cells_sum(rows, y, x - 1, f) + f(Point { x: (x - 1) as i128, y: y as i128 })
    }
}

/// What `f` gives for the cells of the rows, added up.
pub open spec fn grid_sum(rows: Seq<Seq<char>>, f: spec_fn(Point) -> nat) -> nat {
    if rows.len() == 0 {
        0
    } else {
        cells_sum(rows, rows.len() - 1, rows[rows.len() - 1].len() as int, f)
    }
}

/// The sum over the first cells is no more than the sum over all.
pub proof fn lemma_cells_sum_grows(
    rows: Seq<Seq<char>>,
    y: int,
    x: int,
    f: spec_fn(Point) -> nat,
)
    requires
        0 <= y < rows.len(),
        0 <= x <= rows[y].len(),
    ensures
        cells_sum(rows, y, x, f) <= grid_sum(rows, f),
    decreases rows.len() - y, rows[y].len() - x,
{
    if x < rows[y].len() {
        lemma_cells_sum_grows(rows, y, x + 1, f);
    } else if y + 1 < rows.len() {
        lemma_cells_sum_grows(rows, y + 1, 0, f);
    }
}

impl CharGrid {
    /// The rows of the grid.
    pub closed spec fn rows(&self) -> Seq<Seq<char>> {
        views(self.rows@)
    }

    /// The cells of the grid are the cells of its rows.
    pub proof fn lemma_rows(&self)
        ensures
            self@ == grid_of(self.rows()),
    {
    }

    /// The number of rows.
    pub fn height(&self) -> (h: usize)
        ensures
            h == self.rows().len(),
    {
        self.rows.len()
    }

    /// The number of cells of row `y`.
    pub fn row_len(&self, y: usize) -> (w: usize)
        requires
            y < self.rows().len(),
        ensures
            w == self.rows()[y as int].len(),
    {
        self.rows[y].len()
    }

    /// Reads a grid from text, one row per line.
    pub fn parse(text: &str) -> (g: CharGrid)
        ensures
            g@ == grid_of(split_lines(text@)),
            g.rows() == split_lines(text@),
    {
        let chars = chars_of(text);
        CharGrid { rows: lines(&chars) }
    }

    /// The character at `p`, if the grid has a cell there.
    pub fn get(&self, p: &Point) -> (c: Option<&char>)
        ensures
            match c {
                Some(v) => self@.contains_pair(*p, *v),
                None => !self@.contains_key(*p),
            },
    {
        if p.y < 0 || p.x < 0 {
            return None;
        }
        if p.y >= self.rows.len() as i128 {
            return None;
        }
        let row = &self.rows[p.y as usize];
        if p.x >= row.len() as i128 {
            return None;
        }
        Some(&row[p.x as usize])
    }

    /// Every cell of the grid with its character, row by row, each once.
    pub fn iter(&self) -> (r: Vec<(Point, char)>)
        ensures
            forall|p: Point, c: char| r@.contains((p, c)) <==> self@.contains_pair(p, c),
            r@.no_duplicates(),
    {
        let mut r: Vec<(Point, char)> = Vec::new();
        let mut y: usize = 0;
        while y < self.rows.len()
            invariant
                y <= self.rows.len(),
                r@.no_duplicates(),
                forall|p: Point, c: char|
                    #[trigger] r@.contains((p, c)) <==> (self@.contains_pair(p, c) && p.y < y),
            decreases self.rows.len() - y,
        {
            let row = &self.rows[y];
            let mut x: usize = 0;
            while x < row.len()
                invariant
                    y < self.rows.len(),
                    *row == self.rows[y as int],
                    x <= row.len(),
                    r@.no_duplicates(),
                    forall|p: Point, c: char|
                        #[trigger] r@.contains((p, c)) <==> (self@.contains_pair(p, c) && (p.y < y || (p.y
                            == y && p.x < x))),
                decreases row.len() - x,
            {
                let cell = (Point { x: x as i128, y: y as i128 }, row[x]);
                let ghost before = r@;
                r.push(cell);
                proof {
                    assert(views(self.rows@)[y as int] == row@);
                    assert(self@.contains_pair(cell.0, cell.1));
                    assert(cell == (cell.0, cell.1));
                    assert(!before.contains((cell.0, cell.1)));
                    assert forall|p: Point, c: char|
                        #[trigger] r@.contains((p, c)) <==> (self@.contains_pair(p, c) && (p.y < y || (p.y
                            == y && p.x < x + 1))) by {
                        lemma_push_contains(before, cell, (p, c));
                        if self@.contains_pair(p, c) && p.y == y && p.x == x {
                            assert(p == cell.0);
                        }
                    }
                }
                x = x + 1;
            }
            y = y + 1;
        }
        r
    }

    /// The cells next to `p` that the grid holds, in the order left, right,
    /// up, down.
    pub fn neighbors(&self, p: &Point) -> (r: Vec<(Point, char)>)
        requires
            p.has_room(),
        ensures
            r@ == Self::present(self@, seq![
                Point { x: (p.x - 1) as i128, y: p.y },
                Point { x: (p.x + 1) as i128, y: p.y },
                Point { x: p.x, y: (p.y - 1) as i128 },
                Point { x: p.x, y: (p.y + 1) as i128 },
            ]),
    {
        let around = [p.left(), p.right(), p.up(), p.down()];
        let ghost all = seq![
            Point { x: (p.x - 1) as i128, y: p.y },
            Point { x: (p.x + 1) as i128, y: p.y },
            Point { x: p.x, y: (p.y - 1) as i128 },
            Point { x: p.x, y: (p.y + 1) as i128 },
        ];
        let mut r: Vec<(Point, char)> = Vec::new();
        let mut i: usize = 0;
        while i < 4
            invariant
                i <= 4,
                around@ == all,
                r@ == Self::present(self@, all.take(i as int)),
            decreases 4 - i,
        {
            let n = around[i];
            proof {
                assert(all.take(i + 1).drop_last() =~= all.take(i as int));
            }
            match self.get(&n) {
                Some(c) => {
                    r.push((n, *c));
                },
                None => {},
            }
            i = i + 1;
        }
        proof {
            assert(all.take(4) =~= all);
        }
        r
    }

    /// Those of `points` that `cells` holds, each with its character.
    pub open spec fn present(cells: Map<Point, char>, points: Seq<Point>) -> Seq<(Point, char)>
        decreases points.len(),
    {
        if points.len() == 0 {
            Seq::empty()
        } else {
            let before = Self::present(cells, points.drop_last());
            let p = points.last();
            if cells.contains_key(p) {
                before.push((p, cells[p]))
            } else {
                before
            }
        }
    }
}

} // verus!
