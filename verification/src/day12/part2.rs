//! The price of the fences of a garden by their sides.
//!
//! A region has as many sides as corners. A cell has a corner towards each
//! of its four diagonals where both neighbours on the way there hold
//! another letter, or where both hold its letter and the diagonal
//! neighbour does not. The sides of a region cost its number of cells
//! each.

use crate::day12::part1::fits;
use crate::day12::part1::one_if;
use crate::day12::part1::plain;
use crate::day12::part1::plot;
use crate::day12::part1::spot;
use crate::day12::part1::survey;
use crate::day12::part1::token;
use crate::day12::part1::token_at;
use crate::util::grid::cells_sum;
use crate::util::grid::grid_of;
use crate::util::grid::grid_sum;
use crate::util::grid::lemma_cells_sum_grows;
use crate::util::grid::CharGrid;
use crate::util::point::Point;
use crate::util::text::split_lines;
use vstd::prelude::*;

verus! {

/// The point `dx` columns and `dy` rows from `p`.
pub open spec fn shifted(p: Point, dx: int, dy: int) -> Point {
    Point { x: (p.x + dx) as i128, y: (p.y + dy) as i128 }
}

/// The number of corners of the cell `p` towards the diagonal `(dx, dy)`,
/// for a region with the letter `own`.
pub open spec fn corners_toward(m: Map<Point, char>, own: char, p: Point, dx: int, dy: int) -> nat {
    let beside = token_at(m, shifted(p, dx, 0));
    let above = token_at(m, shifted(p, 0, dy));
    let across = token_at(m, shifted(p, dx, dy));
    one_if(own != beside && own != above) + one_if(own == beside && own == above && own != across)
}

/// The number of corners of the cell `p`, for a region with the letter
/// `own`.
pub open spec fn corners(m: Map<Point, char>, own: char, p: Point) -> nat {
    corners_toward(m, own, p, -1, -1) + corners_toward(m, own, p, -1, 1) + corners_toward(
        m,
        own,
        p,
        1,
        -1,
    ) + corners_toward(m, own, p, 1, 1)
}

/// The corners of the first `k` cells of `area`, added up.
pub open spec fn edge_count(m: Map<Point, char>, own: char, area: Seq<Point>, k: nat) -> nat
    decreases k,
{
    if k == 0 {
        0
    } else {
        edge_count(m, own, area, (k - 1) as nat) + corners(m, own, area[k - 1])
    }
}

/// The point `dx` columns and `dy` rows from `p`.
pub fn shift(p: Point, dx: i8, dy: i8) -> (q: Point)
    requires
        -1 <= dx <= 1,
        -1 <= dy <= 1,
        p.has_room(),
    ensures
        q == shifted(p, dx as int, dy as int),
{
    Point { x: p.x + dx as i128, y: p.y + dy as i128 }
}

/// The number of corners of the cell `p` towards the diagonal `(dx, dy)`,
/// for a region with the letter `own`.
pub fn corners_from(grid: &CharGrid, own: char, p: Point, dx: i8, dy: i8) -> (n: usize)
    requires
        dx == -1 || dx == 1,
        dy == -1 || dy == 1,
        p.has_room(),
    ensures
        n == corners_toward(grid@, own, p, dx as int, dy as int),
        n <= 1,
{
    let beside = token(grid, shift(p, dx, 0));
    let above = token(grid, shift(p, 0, dy));
    let across = token(grid, shift(p, dx, dy));
    let mut n: usize = 0;
    if own != beside && own != above {
        n += 1;
    }
    if own == beside && own == above && own != across {
        n += 1;
    }
    n
}

/// The number of corners of the cell `p`, for a region with the letter
/// `own`.
pub fn corners_at(grid: &CharGrid, own: char, p: Point) -> (n: usize)
    requires
        p.has_room(),
    ensures
        n == corners(grid@, own, p),
        n <= 4,
{
    corners_from(grid, own, p, -1, -1) + corners_from(grid, own, p, -1, 1) + corners_from(
        grid,
        own,
        p,
        1,
        -1,
    ) + corners_from(grid, own, p, 1, 1)
}

/// The number of sides of a region with the letter `own` and the cells
/// `edge_points`: the corners of its cells, added up.
pub fn get_edge_count(own: char, edge_points: &Vec<Point>, grid: &CharGrid) -> (n: usize)
    requires
        4 * edge_points@.len() <= usize::MAX,
        forall|j: int| 0 <= j < edge_points@.len() ==> (#[trigger] edge_points@[j]).has_room(),
    ensures
        n == edge_count(grid@, own, edge_points@, edge_points@.len()),
{
    let mut n: usize = 0;
    let mut k: usize = 0;
    while k < edge_points.len()
        invariant
            k <= edge_points@.len(),
            4 * edge_points@.len() <= usize::MAX,
            forall|j: int| 0 <= j < edge_points@.len() ==> (#[trigger] edge_points@[j]).has_room(),
            n == edge_count(grid@, own, edge_points@, k as nat),
            n <= 4 * k,
        decreases edge_points@.len() - k,
    {
        let c = corners_at(grid, own, edge_points[k]);
        n += c;
        k += 1;
    }
    n
}

/// What a cell adds to the price of the fences by their sides: the number
/// of its corners for each cell of its region.
pub open spec fn side_cost_at(m: Map<Point, char>, p: Point) -> nat {
    corners(m, token_at(m, p), p) * plot(m, p).len()
}

/// The price of all fences of the garden by their sides: for each region,
/// the number of its cells times the number of its sides.
pub open spec fn price_by_sides(rows: Seq<Seq<char>>) -> nat {
    grid_sum(rows, |p: Point| side_cost_at(grid_of(rows), p))
}

/// The price of all fences of the garden by their sides.
pub fn solve_day_12_part_02(input: &str) -> (r: usize)
    requires
        plain(grid_of(split_lines(input@))),
        fits(split_lines(input@)),
        price_by_sides(split_lines(input@)) <= usize::MAX,
    ensures
        r == price_by_sides(split_lines(input@)),
{
    let grid = CharGrid::parse(input);
    let ghost rows = grid.rows();
    let ghost m = grid@;
    let ghost f = |p: Point| side_cost_at(grid_of(rows), p);
    let found = survey(&grid);
    let h = grid.height();
    let mut total: usize = 0;
    let mut y: usize = 0;
    while y < h
        invariant
            y <= h,
            h == rows.len(),
            rows == grid.rows(),
            m == grid@,
            m == grid_of(rows),
            f == (|p: Point| side_cost_at(grid_of(rows), p)),
            grid_sum(rows, f) <= usize::MAX,
            found.inv(m),
            found.area@.len() == 0,
            forall|p: Point| #[trigger] m.contains_key(p) ==> found.marked@[spot(found.w as nat, p)],
            total == if y == 0 {
                0
            } else {
                cells_sum(rows, y - 1, rows[y - 1].len() as int, f)
            },
        decreases h - y,
    {
        let w = grid.row_len(y);
        let mut x: usize = 0;
        while x < w
            invariant
                y < h,
                x <= w,
                h == rows.len(),
                w == rows[y as int].len(),
                rows == grid.rows(),
                m == grid@,
                m == grid_of(rows),
                f == (|p: Point| side_cost_at(grid_of(rows), p)),
                grid_sum(rows, f) <= usize::MAX,
                found.inv(m),
                found.area@.len() == 0,
                forall|p: Point| #[trigger] m.contains_key(p) ==> found.marked@[spot(found.w as nat, p)],
                total == cells_sum(rows, y as int, x as int, f),
            decreases w - x,
        {
            let p = Point { x: x as i128, y: y as i128 };
            proof {
                lemma_cells_sum_grows(rows, y as int, x + 1, f);
                assert(m.contains_key(p));
            }
            let size = found.size_at(Ghost(m), p);
            let n = corners_at(&grid, token(&grid, p), p);
            assert(n * size == side_cost_at(m, p)) by (nonlinear_arith)
                requires
                    n == corners(m, token_at(m, p), p),
                    size == plot(m, p).len(),
                    side_cost_at(m, p) == corners(m, token_at(m, p), p) * plot(m, p).len(),
            ;
            total = total + n * size;
            x = x + 1;
        }
        y = y + 1;
    }
    total
}

} // verus!
