//! A word search: how often the word XMAS can be read, in any of eight
//! directions, and how often two MAS cross.

use crate::util::grid::cells_sum;
use crate::util::grid::grid_of;
use crate::util::grid::grid_sum;
use crate::util::grid::lemma_cells_sum_grows;
use crate::util::grid::CharGrid;
use crate::util::grid::Direction;
use crate::util::point::Point;
use crate::util::text::split_lines;
use vstd::prelude::*;

verus! {

/// The point that `k` steps in the direction `dir` lead to from `p`.
pub open spec fn walk(p: Point, dir: Direction, k: nat) -> Point
    decreases k,
{
    if k == 0 {
        p
    } else {
        let q = walk(p, dir, (k - 1) as nat);
        Point { x: (q.x + dir.dx()) as i128, y: (q.y + dir.dy()) as i128 }
    }
}

/// Whether the word can be read in the direction `dir`, its first letter
/// one step behind `entry`, its second two steps, and so on.
pub open spec fn reads(g: Map<Point, char>, word: Seq<char>, entry: Point, dir: Direction) -> bool {
    forall|i: int|
        0 <= i < word.len() ==> g.contains_pair(#[trigger] walk(entry, dir, (i + 1) as nat), word[i])
}

/// Whether both coordinates of `p` are far from the limits of their type.
pub open spec fn central(p: Point) -> bool {
    -0x1_0000_0000_0000_0000_0000 <= p.x <= 0x1_0000_0000_0000_0000_0000
        && -0x1_0000_0000_0000_0000_0000 <= p.y <= 0x1_0000_0000_0000_0000_0000
}

/// Whether both coordinates of `p` are at most two steps from a central
/// point.
pub open spec fn roomy(p: Point) -> bool {
    -0x1_0000_0000_0000_0000_0002 <= p.x <= 0x1_0000_0000_0000_0000_0002
        && -0x1_0000_0000_0000_0000_0002 <= p.y <= 0x1_0000_0000_0000_0000_0002
}

/// Where steps lead to, no farther than their number.
pub proof fn lemma_walk_bounds(p: Point, dir: Direction, k: nat)
    requires
        roomy(p),
        k <= 0x1_0000_0000_0000_0000,
    ensures
        p.x - k <= walk(p, dir, k).x <= p.x + k,
        p.y - k <= walk(p, dir, k).y <= p.y + k,
    decreases k,
{
    if k > 0 {
        lemma_walk_bounds(p, dir, (k - 1) as nat);
    }
}

/// Whether the word can be read in the direction `dir` from one step
/// behind `entry_pos` on.
pub fn search(lookup: &CharGrid, word: &Vec<char>, entry_pos: Point, dir: Direction) -> (r: bool)
    requires
        roomy(entry_pos),
    ensures
        r == reads(lookup@, word@, entry_pos, dir),
{
    let mut pos = entry_pos;
    let mut i: usize = 0;
    while i < word.len()
        invariant
            i <= word.len(),
            roomy(entry_pos),
            pos == walk(entry_pos, dir, i as nat),
            forall|j: int|
                0 <= j < i ==> lookup@.contains_pair(
                    #[trigger] walk(entry_pos, dir, (j + 1) as nat),
                    word[j],
                ),
        decreases word.len() - i,
    {
        proof {
            lemma_walk_bounds(entry_pos, dir, i as nat);
        }
        let next = pos + dir;
        let hit = match lookup.get(&next) {
            Some(letter) => *letter == word[i],
            None => false,
        };
        if !hit {
            proof {
                assert(!lookup@.contains_pair(walk(entry_pos, dir, (i + 1) as nat), word[i as int]));
            }
            return false;
        }
        pos = next;
        i = i + 1;
    }
    true
}

/// The eight directions in which a word is read.
pub fn direction_at(i: usize) -> (d: Direction)
    requires
        i < 8,
    ensures
        d == directions()[i as int],
{
    if i == 0 {
        Direction::N
    } else if i == 1 {
        Direction::E
    } else if i == 2 {
        Direction::S
    } else if i == 3 {
        Direction::W
    } else if i == 4 {
        Direction::NW
    } else if i == 5 {
        Direction::SW
    } else if i == 6 {
        Direction::NE
    } else {
        Direction::SE
    }
}

/// The eight directions in which a word is read.
pub open spec fn directions() -> Seq<Direction> {
    seq![
        Direction::N,
        Direction::E,
        Direction::S,
        Direction::W,
        Direction::NW,
        Direction::SW,
        Direction::NE,
        Direction::SE,
    ]
}

/// The word that follows the first letter of XMAS.
pub open spec fn mas() -> Seq<char> {
    seq!['M', 'A', 'S']
}

/// In how many of the first `k` directions MAS can be read behind `p`.
pub open spec fn words_from(g: Map<Point, char>, p: Point, k: nat) -> nat
    decreases k,
{
    if k == 0 || k > 8 {
        0
    } else {
        words_from(g, p, (k - 1) as nat) + if reads(g, mas(), p, directions()[k - 1]) {
            1nat
        } else {
            0nat
        }
    }
}

/// How often XMAS can be read from the cell `p` on: in as many
/// directions as MAS can be read behind it, if the cell holds an X, small
/// or capital.
pub open spec fn xmas_at(g: Map<Point, char>, p: Point) -> nat {
    if g.contains_key(p) && (g[p] == 'X' || g[p] == 'x') {
        words_from(g, p, 8)
    } else {
        0
    }
}

/// How often XMAS can be read in the rows.
pub open spec fn xmas_count(rows: Seq<Seq<char>>) -> nat {
    grid_sum(rows, |p: Point| xmas_at(grid_of(rows), p))
}

/// The word MAS as characters.
pub fn mas_word() -> (w: Vec<char>)
    ensures
        w@ == mas(),
{
    let mut w: Vec<char> = Vec::new();
    w.push('M');
    w.push('A');
    w.push('S');
    proof {
        assert(w@ =~= mas());
    }
    w
}

/// How often XMAS can be read from the cell `p` on.
pub fn count_at(letters: &CharGrid, p: Point) -> (r: u32)
    requires
        central(p),
    ensures
        r == xmas_at(letters@, p),
        r <= 8,
{
    let here = match letters.get(&p) {
        Some(c) => *c,
        None => {
            return 0;
        },
    };
    if !(here == 'X' || here == 'x') {
        return 0;
    }
    let word = mas_word();
    let mut r: u32 = 0;
    let mut i: usize = 0;
    while i < 8
        invariant
            i <= 8,
            r <= i,
            central(p),
            word@ == mas(),
            r == words_from(letters@, p, i as nat),
        decreases 8 - i,
    {
        if search(letters, &word, p, direction_at(i)) {
            r = r + 1;
        }
        i = i + 1;
    }
    r
}

/// How often the word XMAS can be read in the text, in eight directions.
/// The number must fit 32 bits.
pub fn solve_day_04_part_01(input: String) -> (r: u32)
    requires
        xmas_count(split_lines(input@)) <= u32::MAX,
    ensures
        r == xmas_count(split_lines(input@)),
{
    let letters = CharGrid::parse(input.as_str());
    let ghost rows = letters.rows();
    let ghost f = |p: Point| xmas_at(grid_of(rows), p);
    proof {
        letters.lemma_rows();
    }
    let h = letters.height();
    let mut total: u32 = 0;
    let mut y: usize = 0;
    while y < h
        invariant
            y <= h,
            h == rows.len(),
            rows == letters.rows(),
            letters@ == grid_of(rows),
            f == (|p: Point| xmas_at(grid_of(rows), p)),
            grid_sum(rows, f) <= u32::MAX,
            total == if y == 0 {
                0
            } else {
                cells_sum(rows, y - 1, rows[y - 1].len() as int, f)
            },
        decreases h - y,
    {
        let w = letters.row_len(y);
        let mut x: usize = 0;
        while x < w
            invariant
                y < h,
                x <= w,
                h == rows.len(),
                w == rows[y as int].len(),
                rows == letters.rows(),
                letters@ == grid_of(rows),
                f == (|p: Point| xmas_at(grid_of(rows), p)),
                grid_sum(rows, f) <= u32::MAX,
                total == cells_sum(rows, y as int, x as int, f),
            decreases w - x,
        {
            let p = Point { x: x as i128, y: y as i128 };
            proof {
                lemma_cells_sum_grows(rows, y as int, x + 1, f);
            }
            let n = count_at(&letters, p);
            total = total + n;
            x = x + 1;
        }
        y = y + 1;
    }
    total
}

/// Whether MAS can be read through the cell `p` in the direction `dir`:
/// the M one step before the cell, the A in it, the S one step behind it.
pub open spec fn crosses(g: Map<Point, char>, p: Point, dir: Direction) -> bool {
    reads(
        g,
        mas(),
        Point { x: (p.x - 2 * dir.dx()) as i128, y: (p.y - 2 * dir.dy()) as i128 },
        dir,
    )
}

/// Whether MAS can be read through the cell in the direction `first`, and
/// in one of the two directions that cross it too.
pub open spec fn crossed(g: Map<Point, char>, p: Point, first: Direction, a: Direction, b: Direction) -> bool {
    crosses(g, p, first) && (crosses(g, p, a) || crosses(g, p, b))
}

/// In how many of the four diagonal directions MAS can be read through
/// the cell `p` and is crossed by another MAS, if the cell holds an A,
/// small or capital.
pub open spec fn crossings_at(g: Map<Point, char>, p: Point) -> nat {
    if g.contains_key(p) && (g[p] == 'A' || g[p] == 'a') {
        (if crossed(g, p, Direction::NE, Direction::NW, Direction::SE) {
            1nat
        } else {
            0nat
        }) + (if crossed(g, p, Direction::SW, Direction::NW, Direction::SE) {
            1nat
        } else {
            0nat
        }) + (if crossed(g, p, Direction::SE, Direction::NE, Direction::SW) {
            1nat
        } else {
            0nat
        }) + (if crossed(g, p, Direction::NW, Direction::NE, Direction::SW) {
            1nat
        } else {
            0nat
        })
    } else {
        0
    }
}

/// Whether MAS can be read through the cell `(x, y)` in the diagonal
/// direction `dir`.
pub fn search_dir(letters: &CharGrid, search_word: &Vec<char>, x: i128, y: i128, dir: Direction) -> (r:
    bool)
    requires
        central(Point { x, y }),
        search_word@ == mas(),
        dir == Direction::NW || dir == Direction::SW || dir == Direction::NE || dir
            == Direction::SE,
    ensures
        r == crosses(letters@, Point { x, y }, dir),
{
    let entry_pos = match dir {
        Direction::NW => Point { x: x + 2, y: y + 2 },
        Direction::SW => Point { x: x + 2, y: y - 2 },
        Direction::NE => Point { x: x - 2, y: y + 2 },
        _ => Point { x: x - 2, y: y - 2 },
    };
    search(letters, search_word, entry_pos, dir)
}

/// Whether MAS can be read through the cell in the direction `first`, and
/// in one of the two directions that cross it too.
pub fn is_crossed(letters: &CharGrid, word: &Vec<char>, p: Point, first: Direction, a: Direction, b: Direction) -> (r:
    bool)
    requires
        central(p),
        word@ == mas(),
        first == Direction::NW || first == Direction::SW || first == Direction::NE || first
            == Direction::SE,
        a == Direction::NW || a == Direction::SW || a == Direction::NE || a == Direction::SE,
        b == Direction::NW || b == Direction::SW || b == Direction::NE || b == Direction::SE,
    ensures
        r == crossed(letters@, p, first, a, b),
{
    if !search_dir(letters, word, p.x, p.y, first) {
        return false;
    }
    if search_dir(letters, word, p.x, p.y, a) {
        return true;
    }
    search_dir(letters, word, p.x, p.y, b)
}

/// In how many diagonal directions a crossed MAS can be read through the
/// cell `p`.
pub fn crossings(letters: &CharGrid, p: Point) -> (r: u32)
    requires
        central(p),
    ensures
        r == crossings_at(letters@, p),
        r <= 4,
{
    let here = match letters.get(&p) {
        Some(c) => *c,
        None => {
            return 0;
        },
    };
    if !(here == 'A' || here == 'a') {
        return 0;
    }
    let word = mas_word();
    let mut r: u32 = 0;
    if is_crossed(letters, &word, p, Direction::NE, Direction::NW, Direction::SE) {
        r = r + 1;
    }
    if is_crossed(letters, &word, p, Direction::SW, Direction::NW, Direction::SE) {
        r = r + 1;
    }
    if is_crossed(letters, &word, p, Direction::SE, Direction::NE, Direction::SW) {
        r = r + 1;
    }
    if is_crossed(letters, &word, p, Direction::NW, Direction::NE, Direction::SW) {
        r = r + 1;
    }
    r
}

/// The number of crossed MAS in the rows, each counted in both of its
/// directions.
pub open spec fn crossing_count(rows: Seq<Seq<char>>) -> nat {
    grid_sum(rows, |p: Point| crossings_at(grid_of(rows), p))
}

/// How often two MAS cross in the text in the shape of an X: half the
/// number of diagonal directions in which a crossed MAS can be read. The
/// number of directions must fit 32 bits.
pub fn solve_day_04_part_02(input: String) -> (r: u32)
    requires
        crossing_count(split_lines(input@)) <= u32::MAX,
    ensures
        r == crossing_count(split_lines(input@)) / 2,
{
    let letters = CharGrid::parse(input.as_str());
    let ghost rows = letters.rows();
    let ghost f = |p: Point| crossings_at(grid_of(rows), p);
    proof {
        letters.lemma_rows();
    }
    let h = letters.height();
    let mut total: u32 = 0;
    let mut y: usize = 0;
    while y < h
        invariant
            y <= h,
            h == rows.len(),
            rows == letters.rows(),
            letters@ == grid_of(rows),
            f == (|p: Point| crossings_at(grid_of(rows), p)),
            grid_sum(rows, f) <= u32::MAX,
            total == if y == 0 {
                0
            } else {
                cells_sum(rows, y - 1, rows[y - 1].len() as int, f)
            },
        decreases h - y,
    {
        let w = letters.row_len(y);
        let mut x: usize = 0;
        while x < w
            invariant
                y < h,
                x <= w,
                h == rows.len(),
                w == rows[y as int].len(),
                rows == letters.rows(),
                letters@ == grid_of(rows),
                f == (|p: Point| crossings_at(grid_of(rows), p)),
                grid_sum(rows, f) <= u32::MAX,
                total == cells_sum(rows, y as int, x as int, f),
            decreases w - x,
        {
            let p = Point { x: x as i128, y: y as i128 };
            proof {
                lemma_cells_sum_grows(rows, y as int, x + 1, f);
            }
            let n = crossings(&letters, p);
            total = total + n;
            x = x + 1;
        }
        y = y + 1;
    }
    total / 2
}

} // verus!
