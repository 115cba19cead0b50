//! The maze model: walls, open floor, one start and one goal.

use crate::util::grid::grid_of;
use crate::util::point::Point;
use crate::util::text::chars_of;
use crate::util::text::join;
use crate::util::text::joined;
use crate::util::text::string_from_chars;
use crate::util::text::lines;
use crate::util::text::split_lines;
use crate::util::text::trim;
use crate::util::text::trimmed;
use crate::util::text::views;
use vstd::prelude::*;

verus! {

/// The largest number of cells (height times width) that a maze may span.
pub const MAX_CELLS: usize = 1_000_000;

/// What a maze cell is.
#[derive(Debug, Clone, Copy, PartialEq, Eq, Structural)]
pub enum Cell {
    Wall,
    Open,
}

/// Why a text is not a maze.
#[derive(Debug, Clone, Copy, PartialEq, Eq, Structural)]
pub enum ParseError {
    /// A character that is no wall, floor, start or goal marker.
    UnknownChar,
    /// No start marker.
    MissingStart,
    /// More than one start marker.
    DuplicateStart,
    /// No goal marker.
    MissingGoal,
    /// More than one goal marker.
    DuplicateGoal,
    /// The bounding box of the rows holds more than `MAX_CELLS` cells.
    TooLarge,
}

/// The kind of cell that a character of the text stands for.
pub open spec fn classify(c: char) -> Option<Cell> {
    if c == '#' {
        Some(Cell::Wall)
    } else if c == '.' || c == 'S' || c == 'E' {
        Some(Cell::Open)
    } else {
        None
    }
}

/// The character that a kind of cell is written as.
pub open spec fn symbol(c: Cell) -> char {
    match c {
        Cell::Wall => '#',
        Cell::Open => '.',
    }
}

/// The kind of cell that `c` stands for, if it is a maze character.
pub fn classify_char(c: char) -> (r: Option<Cell>)
    ensures
        r == classify(c),
{
    if c == '#' {
        Some(Cell::Wall)
    } else if c == '.' || c == 'S' || c == 'E' {
        Some(Cell::Open)
    } else {
        None
    }
}

/// The character for a kind of cell.
pub fn symbol_of(c: Cell) -> (r: char)
    ensures
        r == symbol(c),
        classify(r) == Some(c),
{
    match c {
        Cell::Wall => '#',
        Cell::Open => '.',
    }
}

/// Whether some cell of the grid holds a character that no maze uses.
pub open spec fn has_unknown(g: Map<Point, char>) -> bool {
    exists|p: Point| #[trigger] g.contains_key(p) && classify(g[p]) is None
}

/// Whether `p` is a cell of the grid that holds the character `c`.
pub open spec fn marked(g: Map<Point, char>, c: char, p: Point) -> bool {
    g.contains_key(p) && g[p] == c
}

/// Whether no cell of the grid holds the character `c`.
pub open spec fn mark_missing(g: Map<Point, char>, c: char) -> bool {
    forall|p: Point| !#[trigger] marked(g, c, p)
}

/// Whether two different cells of the grid hold the character `c`.
pub open spec fn mark_repeated(g: Map<Point, char>, c: char) -> bool {
    exists|p: Point, q: Point| p != q && #[trigger] marked(g, c, p) && #[trigger] marked(g, c, q)
}

/// The length of the longest row.
pub open spec fn max_len(rows: Seq<Seq<char>>) -> nat
    decreases rows.len(),
{
    if rows.len() == 0 {
        0
    } else {
        let before = max_len(rows.drop_last());
        if rows.last().len() > before {
            rows.last().len()
        } else {
            before
        }
    }
}

/// What a maze is, seen from outside: its cells, its start and its goal.
pub struct MazeView {
    pub cells: Map<Point, Cell>,
    pub start: Point,
    pub goal: Point,
}

impl MazeView {
    /// Whether `p` is a cell of the maze that can be walked on.
    pub open spec fn is_open(self, p: Point) -> bool {
        self.cells.contains_key(p) && self.cells[p] == Cell::Open
    }
}

/// The rows of the maze that a text describes: the lines of the text
/// without the white space around it.
pub open spec fn maze_rows(text: Seq<char>) -> Seq<Seq<char>> {
    split_lines(trimmed(text))
}

/// Whether the rows fit the capacity of a maze.
pub open spec fn fits(rows: Seq<Seq<char>>) -> bool {
    rows.len() * max_len(rows) <= MAX_CELLS
}

/// The error, if any, that reading a maze from `text` ends in. Unknown
/// characters are reported before trouble with the start marker, that
/// before trouble with the goal marker, and that before the size.
pub open spec fn parse_error(text: Seq<char>) -> Option<ParseError> {
    let g = grid_of(maze_rows(text));
    if has_unknown(g) {
        Some(ParseError::UnknownChar)
    } else if mark_missing(g, 'S') {
        Some(ParseError::MissingStart)
    } else if mark_repeated(g, 'S') {
        Some(ParseError::DuplicateStart)
    } else if mark_missing(g, 'E') {
        Some(ParseError::MissingGoal)
    } else if mark_repeated(g, 'E') {
        Some(ParseError::DuplicateGoal)
    } else if !fits(maze_rows(text)) {
        Some(ParseError::TooLarge)
    } else {
        None
    }
}

/// Whether `m` is the maze that `text` describes.
pub open spec fn describes(text: Seq<char>, m: MazeView) -> bool {
    let g = grid_of(maze_rows(text));
    &&& m.cells.dom() == g.dom()
    &&& forall|p: Point| #[trigger] g.contains_key(p) ==> classify(g[p]) == Some(m.cells[p])
    &&& marked(g, 'S', m.start)
    &&& marked(g, 'E', m.goal)
}

/// The maze that `text` describes, where it describes one.
pub open spec fn maze_of(text: Seq<char>) -> MazeView {
    choose|m: MazeView| describes(text, m)
}

/// A text describes at most one maze.
pub proof fn lemma_describes_one(text: Seq<char>, a: MazeView, b: MazeView)
    requires
        parse_error(text) is None,
        describes(text, a),
        describes(text, b),
    ensures
        a == b,
        a == maze_of(text),
{
    let g = grid_of(maze_rows(text));
    assert(a.cells =~= b.cells) by {
        assert forall|p: Point| a.cells.contains_key(p) implies a.cells[p] == b.cells[p] by {
            assert(g.contains_key(p));
        }
    }
    let c = maze_of(text);
    assert(a.cells =~= c.cells) by {
        assert forall|p: Point| a.cells.contains_key(p) implies a.cells[p] == c.cells[p] by {
            assert(g.contains_key(p));
        }
    }
}

/// The outcome of looking for a marker character in a grid.
pub enum Mark {
    Missing,
    At(Point),
    Repeated,
}

/// Whether `p` comes before column `x` of row `y` in reading order.
pub open spec fn before(p: Point, y: int, x: int) -> bool {
    p.y < y || (p.y == y && p.x < x)
}

/// Looks for the cells that hold the character `c`.
pub fn find_mark(rows: &Vec<Vec<char>>, c: char) -> (r: Mark)
    ensures
        match r {
            Mark::Missing => mark_missing(grid_of(views(rows@)), c),
            Mark::At(p) => marked(grid_of(views(rows@)), c, p) && !mark_repeated(
                grid_of(views(rows@)),
                c,
            ),
            Mark::Repeated => mark_repeated(grid_of(views(rows@)), c),
        },
{
    let ghost g = grid_of(views(rows@));
    let mut found: Option<Point> = None;
    let mut y: usize = 0;
    while y < rows.len()
        invariant
            y <= rows.len(),
            g == grid_of(views(rows@)),
            match found {
                None => forall|p: Point| before(p, y as int, 0) ==> !#[trigger] marked(g, c, p),
                Some(s) => marked(g, c, s) && before(s, y as int, 0) && forall|p: Point|
                    before(p, y as int, 0) && #[trigger] marked(g, c, p) ==> p == s,
            },
        decreases rows.len() - y,
    {
        let row = &rows[y];
        let mut x: usize = 0;
        while x < row.len()
            invariant
                y < rows.len(),
                *row == rows[y as int],
                x <= row.len(),
                g == grid_of(views(rows@)),
                match found {
                    None => forall|p: Point|
                        before(p, y as int, x as int) ==> !#[trigger] marked(g, c, p),
                    Some(s) => marked(g, c, s) && before(s, y as int, x as int) && forall|
                        p: Point,
                    |
                        before(p, y as int, x as int) && #[trigger] marked(g, c, p) ==> p == s,
                },
            decreases row.len() - x,
        {
            let here = Point { x: x as i128, y: y as i128 };
            proof {
                assert(views(rows@)[y as int] == row@);
                assert(g.contains_key(here) && g[here] == row@[x as int]);
                assert forall|p: Point| before(p, y as int, x + 1) implies before(
                    p,
                    y as int,
                    x as int,
                ) || p == here by {}
            }
            if row[x] == c {
                match found {
                    None => {
                        found = Some(here);
                    },
                    Some(s) => {
                        proof {
                            assert(marked(g, c, s) && marked(g, c, here) && s != here);
                        }
                        return Mark::Repeated;
                    },
                }
            }
            x = x + 1;
        }
        proof {
            assert forall|p: Point| before(p, y + 1, 0) && g.contains_key(p) implies before(
                p,
                y as int,
                x as int,
            ) by {}
        }
        y = y + 1;
    }
    match found {
        None => {
            proof {
                assert forall|p: Point| !#[trigger] marked(g, c, p) by {
                    if g.contains_key(p) {
                        assert(before(p, y as int, 0));
                    }
                }
            }
            Mark::Missing
        },
        Some(s) => {
            proof {
                assert forall|p: Point, q: Point|
                    #[trigger] marked(g, c, p) && #[trigger] marked(g, c, q) implies p == q by {
                    assert(before(p, y as int, 0));
                    assert(before(q, y as int, 0));
                }
            }
            Mark::At(s)
        },
    }
}

/// The kinds of the cells of one row, unless it holds an unknown character.
pub fn classify_row(row: &Vec<char>) -> (r: Option<Vec<Cell>>)
    ensures
        match r {
            Some(cells) => cells.len() == row.len() && forall|x: int|
                0 <= x < row.len() ==> classify(#[trigger] row[x]) == Some(cells[x]),
            None => exists|x: int| 0 <= x < row.len() && classify(#[trigger] row[x]) is None,
        },
{
    let mut cells: Vec<Cell> = Vec::new();
    let mut x: usize = 0;
    while x < row.len()
        invariant
            x <= row.len(),
            cells.len() == x,
            forall|i: int| 0 <= i < x ==> classify(#[trigger] row[i]) == Some(cells[i]),
        decreases row.len() - x,
    {
        match classify_char(row[x]) {
            Some(cell) => {
                cells.push(cell);
            },
            None => {
                return None;
            },
        }
        x = x + 1;
    }
    Some(cells)
}

/// Whether `cells` are the kinds of cells that the characters of `g` stand
/// for.
pub open spec fn classified(g: Map<Point, char>, cells: Map<Point, Cell>) -> bool {
    &&& cells.dom() == g.dom()
    &&& forall|p: Point| #[trigger] g.contains_key(p) ==> classify(g[p]) == Some(cells[p])
}

/// The kinds of the cells of all rows, unless a row holds an unknown
/// character.
pub fn classify_rows(rows: &Vec<Vec<char>>) -> (r: Option<Vec<Vec<Cell>>>)
    ensures
        match r {
            Some(cells) => !has_unknown(grid_of(views(rows@))) && classified(
                grid_of(views(rows@)),
                cells_of(cells@),
            ) && cells.len() == rows.len() && forall|i: int|
                0 <= i < rows.len() ==> (#[trigger] cells[i]).len() == rows[i].len(),
            None => has_unknown(grid_of(views(rows@))),
        },
{
    let ghost g = grid_of(views(rows@));
    let mut cells: Vec<Vec<Cell>> = Vec::new();
    let mut y: usize = 0;
    while y < rows.len()
        invariant
            y <= rows.len(),
            cells.len() == y,
            g == grid_of(views(rows@)),
            forall|i: int|
                0 <= i < y ==> (#[trigger] cells[i]).len() == rows[i].len() && forall|x: int|
                    0 <= x < rows[i].len() ==> classify(#[trigger] rows[i][x]) == Some(cells[i][x]),
        decreases rows.len() - y,
    {
        match classify_row(&rows[y]) {
            Some(row) => {
                cells.push(row);
            },
            None => {
                proof {
                    let x = choose|x: int|
                        0 <= x < rows[y as int].len() && classify(#[trigger] rows[y as int][x])
                            is None;
                    let p = Point { x: x as i128, y: y as i128 };
                    assert(views(rows@)[y as int] == rows[y as int]@);
                    assert(g.contains_key(p) && classify(g[p]) is None);
                }
                return None;
            },
        }
        y = y + 1;
    }
    proof {
        assert forall|p: Point| #[trigger] g.contains_key(p) implies classify(g[p]) == Some(
            cells[p.y as int][p.x as int],
        ) by {
            assert(views(rows@)[p.y as int] == rows[p.y as int]@);
        }
        assert(cells_of(cells@).dom() =~= g.dom()) by {
            assert forall|p: Point| cells_of(cells@).contains_key(p) <==> g.contains_key(p) by {
                if 0 <= p.y < rows.len() {
                    assert(views(rows@)[p.y as int] == rows[p.y as int]@);
                }
            }
        }
    }
    Some(cells)
}

/// The kinds of the cells that a text draws, one row per line, unless the
/// text holds a character that is no wall, floor, start or goal.
pub fn parse_cells(text: &str) -> (r: Option<Vec<Vec<Cell>>>)
    ensures
        match r {
            Some(cells) => !has_unknown(grid_of(split_lines(text@))) && classified(
                grid_of(split_lines(text@)),
                cells_of(cells@),
            ),
            None => has_unknown(grid_of(split_lines(text@))),
        },
{
    let chars = chars_of(text);
    let rows = lines(&chars);
    classify_rows(&rows)
}

/// The characters that rows of cells are written as.
pub open spec fn drawn(rows: Seq<Vec<Cell>>) -> Seq<Seq<char>> {
    Seq::new(rows.len(), |y: int| Seq::new(rows[y].len() as nat, |x: int| symbol(rows[y][x])))
}

/// The length of the longest of the rows.
pub fn longest_row(rows: &Vec<Vec<char>>) -> (w: usize)
    ensures
        w == max_len(views(rows@)),
        forall|y: int| 0 <= y < rows.len() ==> (#[trigger] rows[y]).len() <= w,
{
    let mut w: usize = 0;
    let mut y: usize = 0;
    while y < rows.len()
        invariant
            y <= rows.len(),
            w == max_len(views(rows@).take(y as int)),
            forall|i: int| 0 <= i < y ==> (#[trigger] rows[i]).len() <= w,
        decreases rows.len() - y,
    {
        proof {
            assert(views(rows@).take(y + 1).drop_last() =~= views(rows@).take(y as int));
        }
        if rows[y].len() > w {
            w = rows[y].len();
        }
        y = y + 1;
    }
    proof {
        assert(views(rows@).take(rows.len() as int) =~= views(rows@));
    }
    w
}

/// The cells that rows of cells hold: the cell at column `x` of row `y`
/// stands at the point `(x, y)`.
pub open spec fn cells_of(rows: Seq<Vec<Cell>>) -> Map<Point, Cell> {
    Map::new(
        |p: Point| 0 <= p.y < rows.len() && 0 <= p.x < rows[p.y as int].len(),
        |p: Point| rows[p.y as int][p.x as int],
    )
}

/// The length of the longest of the rows of cells.
pub open spec fn widest(rows: Seq<Vec<Cell>>) -> nat
    decreases rows.len(),
{
    if rows.len() == 0 {
        0
    } else {
        let before = widest(rows.drop_last());
        if rows.last().len() > before {
            rows.last().len() as nat
        } else {
            before
        }
    }
}

/// A maze: a grid of walls and open floor with a start and a goal.
#[derive(Debug)]
pub struct Maze {
    rows: Vec<Vec<Cell>>,
    width: usize,
    start: Point,
    goal: Point,
}

impl View for Maze {
    type V = MazeView;

    closed spec fn view(&self) -> MazeView {
        MazeView { cells: cells_of(self.rows@), start: self.start, goal: self.goal }
    }
}

impl Maze {
    /// What holds of every maze: start and goal are open cells, and the
    /// cells lie in a box of `width()` columns and `height()` rows that
    /// holds at most `MAX_CELLS` cells.
    pub closed spec fn wf(&self) -> bool {
        &&& self@.is_open(self.start)
        &&& self@.is_open(self.goal)
        &&& self.start != self.goal
        &&& forall|y: int| 0 <= y < self.rows.len() ==> (#[trigger] self.rows[y]).len() <= self.width
        &&& self.rows.len() * self.width <= MAX_CELLS
    }

    /// The number of columns of the box around the maze.
    pub closed spec fn spec_width(&self) -> nat {
        self.width as nat
    }

    /// The number of rows of the maze.
    pub closed spec fn spec_height(&self) -> nat {
        self.rows.len() as nat
    }

    /// What being well formed means for the cells, start and goal.
    pub proof fn lemma_wf(&self)
        requires
            self.wf(),
        ensures
            self@.is_open(self@.start),
            self@.is_open(self@.goal),
            self@.start != self@.goal,
            self.spec_height() * self.spec_width() <= MAX_CELLS,
            1 <= self.spec_height() <= MAX_CELLS,
            1 <= self.spec_width() <= MAX_CELLS,
            forall|p: Point| #[trigger]
                self@.cells.contains_key(p) ==> 0 <= p.x < self.spec_width() && 0 <= p.y
                    < self.spec_height(),
    {
        assert(self@.cells.contains_key(self.start));
        let w = self.width as int;
        let h = self.rows.len() as int;
        assert(w <= h * w && h <= h * w) by (nonlinear_arith)
            requires
                1 <= w,
                1 <= h,
        ;
    }

    /// Reads a maze from text. White space around the text is ignored; each
    /// line is a row; `#` is a wall, `.` open floor, `S` the start and `E`
    /// the goal, both on open floor.
    pub fn parse(text: &str) -> (r: Result<Maze, ParseError>)
        ensures
            match r {
                Ok(m) => parse_error(text@) is None && describes(text@, m@) && m@ == maze_of(text@)
                    && m.wf(),
                Err(e) => parse_error(text@) == Some(e),
            },
    {
        let chars = chars_of(text);
        let body = trim(&chars);
        let rows = lines(&body);
        let ghost g = grid_of(views(rows@));
        let cells = match classify_rows(&rows) {
            Some(cells) => cells,
            None => {
                return Err(ParseError::UnknownChar);
            },
        };
        proof {
            assert(!has_unknown(g));
        }
        let start = match find_mark(&rows, 'S') {
            Mark::Missing => {
                return Err(ParseError::MissingStart);
            },
            Mark::Repeated => {
                return Err(ParseError::DuplicateStart);
            },
            Mark::At(p) => p,
        };
        proof {
            assert(!mark_missing(g, 'S')) by {
                assert(marked(g, 'S', start));
            }
        }
        let goal = match find_mark(&rows, 'E') {
            Mark::Missing => {
                return Err(ParseError::MissingGoal);
            },
            Mark::Repeated => {
                return Err(ParseError::DuplicateGoal);
            },
            Mark::At(p) => p,
        };
        proof {
            assert(!mark_missing(g, 'E')) by {
                assert(marked(g, 'E', goal));
            }
        }
        let width = longest_row(&rows);
        let fits_box = match rows.len().checked_mul(width) {
            Some(n) => n <= MAX_CELLS,
            None => false,
        };
        if !fits_box {
            return Err(ParseError::TooLarge);
        }
        let m = Maze { rows: cells, width, start, goal };
        proof {
            assert(g.contains_key(start) && g.contains_key(goal));
            lemma_describes_one(text@, m@, m@);
        }
        Ok(m)
    }

    /// Makes a maze of rows of cells, unless the start or the goal is not
    /// an open cell of them, the two are one cell, or the box around the
    /// rows holds more than `MAX_CELLS` cells.
    pub fn from_cells(rows: Vec<Vec<Cell>>, start: Point, goal: Point) -> (r: Option<Maze>)
        ensures
            r is Some <==> {
                &&& cells_of(rows@).contains_pair(start, Cell::Open)
                &&& cells_of(rows@).contains_pair(goal, Cell::Open)
                &&& start != goal
                &&& rows@.len() * widest(rows@) <= MAX_CELLS
            },
            r is Some ==> r->0.wf() && r->0@ == (MazeView { cells: cells_of(rows@), start, goal }),
    {
        let mut width: usize = 0;
        let mut y: usize = 0;
        while y < rows.len()
            invariant
                y <= rows.len(),
                width == widest(rows@.take(y as int)),
                forall|i: int| 0 <= i < y ==> (#[trigger] rows[i]).len() <= width,
            decreases rows.len() - y,
        {
            proof {
                assert(rows@.take(y + 1).drop_last() =~= rows@.take(y as int));
            }
            if rows[y].len() > width {
                width = rows[y].len();
            }
            y = y + 1;
        }
        proof {
            assert(rows@.take(rows.len() as int) =~= rows@);
        }
        let fits_box = match rows.len().checked_mul(width) {
            Some(n) => n <= MAX_CELLS,
            None => false,
        };
        let m = Maze { rows, width, start, goal };
        proof {
            assert(m@.cells =~= cells_of(m.rows@));
        }
        if fits_box && start != goal && m.is_open(start) && m.is_open(goal) {
            Some(m)
        } else {
            None
        }
    }

    /// The text that draws the cells of the maze: a line for every row,
    /// with `#` for a wall and `.` for an open cell, and line feeds between
    /// the lines. The start and the goal are drawn as the open cells that
    /// they are.
    pub closed spec fn rendering(&self) -> Seq<char> {
        joined(drawn(self.rows@), '\n')
    }

    /// The rendering is made of the rows of the maze.
    pub proof fn lemma_rendering(&self)
        ensures
            exists|rows: Seq<Vec<Cell>>|
                #![trigger cells_of(rows)]
                cells_of(rows) == self@.cells && self.rendering() == joined(drawn(rows), '\n'),
    {
        assert(cells_of(self.rows@) == self@.cells);
    }

    /// Draws the cells of the maze as text.
    pub fn render(&self) -> (r: String)
        ensures
            r@ == self.rendering(),
    {
        let mut rows: Vec<Vec<char>> = Vec::new();
        let mut y: usize = 0;
        while y < self.rows.len()
            invariant
                y <= self.rows.len(),
                rows.len() == y,
                forall|i: int| 0 <= i < y ==> (#[trigger] rows[i])@ == drawn(self.rows@)[i],
            decreases self.rows.len() - y,
        {
            let mut row: Vec<char> = Vec::new();
            let mut x: usize = 0;
            while x < self.rows[y].len()
                invariant
                    y < self.rows.len(),
                    x <= self.rows[y as int].len(),
                    row.len() == x,
                    forall|j: int| 0 <= j < x ==> #[trigger] row[j] == symbol(self.rows[y as int][j]),
                decreases self.rows[y as int].len() - x,
            {
                row.push(symbol_of(self.rows[y][x]));
                x = x + 1;
            }
            proof {
                assert(row@ =~= drawn(self.rows@)[y as int]);
            }
            rows.push(row);
            y = y + 1;
        }
        proof {
            assert(views(rows@) =~= drawn(self.rows@));
        }
        let text = join(&rows, '\n');
        string_from_chars(&text)
    }

    /// The start of the maze.
    pub fn start(&self) -> (p: Point)
        ensures
            p == self@.start,
    {
        self.start
    }

    /// The goal of the maze.
    pub fn goal(&self) -> (p: Point)
        ensures
            p == self@.goal,
    {
        self.goal
    }

    /// The number of columns of the box around the maze.
    pub fn width(&self) -> (w: usize)
        ensures
            w == self.spec_width(),
    {
        self.width
    }

    /// The number of rows of the maze.
    pub fn height(&self) -> (h: usize)
        ensures
            h == self.spec_height(),
    {
        self.rows.len()
    }

    /// The kind of the cell at `p`, if the maze has a cell there.
    pub fn get(&self, p: Point) -> (c: Option<Cell>)
        ensures
            match c {
                Some(cell) => self@.cells.contains_pair(p, cell),
                None => !self@.cells.contains_key(p),
            },
    {
        if p.y < 0 || p.x < 0 {
            return None;
        }
        if p.y >= self.rows.len() as i128 {
            return None;
        }
        let row = &self.rows[p.y as usize];
        if p.x >= row.len() as i128 {
            return None;
        }
        Some(row[p.x as usize])
    }

    /// Whether `p` is a cell of the maze that can be walked on.
    pub fn is_open(&self, p: Point) -> (b: bool)
        ensures
            b == self@.is_open(p),
    {
        match self.get(p) {
            Some(Cell::Open) => true,
            _ => false,
        }
    }
}

} // verus!
