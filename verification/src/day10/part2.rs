//! The rating of the trailheads: how many trails begin at each.

use crate::day10::part1::cell_or;
use crate::day10::part1::east;
use crate::day10::part1::heights;
use crate::day10::part1::heights_of;
use crate::day10::part1::level;
use crate::day10::part1::north;
use crate::day10::part1::same_shape;
use crate::day10::part1::south;
use crate::day10::part1::west;
use crate::day10::part1::Altitude;
use crate::day10::part1::TopographicMap;
use crate::day19::part1::add_capped;
use crate::day19::part1::capped;
use crate::util::point::Point;
use crate::util::text::split_lines;
use vstd::prelude::*;

verus! {

/// The number of trails that lead from the cell `p`, which must have the
/// height `k`, up to a cell with height 9.
pub open spec fn trails_from(m: Map<Point, u8>, p: Point, k: nat) -> nat
    decreases 9 - k,
{
    if !level(m, p, k) || k > 9 {
        0
    } else if k == 9 {
        1
    } else {
        trails_from(m, west(p), k + 1) + trails_from(m, east(p), k + 1) + trails_from(
            m,
            north(p),
            k + 1,
        ) + trails_from(m, south(p), k + 1)
    }
}

/// The ratings of the cells of the first `x` columns of row `y`, and of
/// all rows above it, added up. The rating of a cell is the number of
/// trails that lead from it, as a trailhead, to a cell with height 9.
pub open spec fn ratings_before(rows: Seq<Vec<Altitude>>, y: int, x: int) -> nat
    decreases y, x,
{
    if y < 0 || y >= rows.len() {
        0
    } else if x <= 0 {
        if y == 0 {
            0
        } else {
            ratings_before(rows, y - 1, rows[y - 1].len() as int)
        }
    } else {
        ratings_before(rows, y, x - 1) + trails_from(
            heights(rows),
            Point { x: (x - 1) as i128, y: y as i128 },
            0,
        )
    }
}

/// The ratings of all cells of the map, added up.
pub open spec fn total_rating(rows: Seq<Vec<Altitude>>) -> nat {
    if rows.len() == 0 {
        0
    } else {
        ratings_before(rows, rows.len() - 1, rows[rows.len() - 1].len() as int)
    }
}

/// What a grid of numbers of trails holds for a cell, or 0 for a point
/// that is no cell, is the number of trails from there.
pub proof fn lemma_counted(
    rows: Seq<Vec<Altitude>>,
    ways: Seq<Vec<usize>>,
    q: Point,
    k: nat,
)
    requires
        same_shape(ways, rows),
        forall|i: int, j: int|
            0 <= i < rows.len() && 0 <= j < rows[i].len() ==> #[trigger] ways[i][j] == capped(
                trails_from(heights(rows), Point { x: j as i128, y: i as i128 }, k),
            ),
    ensures
        capped(trails_from(heights(rows), q, k)) == if 0 <= q.y < ways.len() && 0 <= q.x
            < ways[q.y as int].len() {
            ways[q.y as int][q.x as int]
        } else {
            0
        },
{
    if 0 <= q.y < ways.len() && 0 <= q.x < ways[q.y as int].len() {
        assert(ways[q.y as int][q.x as int] == capped(
            trails_from(heights(rows), Point { x: q.x as int as i128, y: q.y as int as i128 }, k),
        ));
    }
}

/// The ratings of all cells of the map, added up, or the largest number
/// that fits where it is more.
pub fn traverse_ratings(map: &TopographicMap) -> (r: usize)
    ensures
        r == capped(total_rating(map.rows())),
{
    let rows = map.altitudes();
    let ghost m = heights(rows@);
    // The numbers of trails from each cell, taken as a cell of height `k`.
    let mut ways: Vec<Vec<usize>> = Vec::new();
    let mut y: usize = 0;
    while y < rows.len()
        invariant
            y <= rows.len(),
            m == heights(rows@),
            ways.len() == y,
            forall|i: int| 0 <= i < y ==> (#[trigger] ways[i]).len() == rows[i].len(),
            forall|i: int, j: int|
                0 <= i < y && 0 <= j < rows[i].len() ==> #[trigger] ways[i][j] == capped(
                    trails_from(m, Point { x: j as i128, y: i as i128 }, 9),
                ),
        decreases rows.len() - y,
    {
        let mut row: Vec<usize> = Vec::new();
        let mut x: usize = 0;
        while x < rows[y].len()
            invariant
                y < rows.len(),
                x <= rows[y as int].len(),
                m == heights(rows@),
                row.len() == x,
                forall|j: int|
                    0 <= j < x ==> #[trigger] row[j] == capped(
                        trails_from(m, Point { x: j as i128, y: y as i128 }, 9),
                    ),
            decreases rows[y as int].len() - x,
        {
            row.push(
                if rows[y][x].0 == 9 {
                    1
                } else {
                    0
                },
            );
            x = x + 1;
        }
        ways.push(row);
        y = y + 1;
    }
    let mut k: u8 = 9;
    while k > 0
        invariant
            k <= 9,
            m == heights(rows@),
            same_shape(ways@, rows@),
            forall|i: int, j: int|
                0 <= i < rows.len() && 0 <= j < rows[i].len() ==> #[trigger] ways[i][j] == capped(
                    trails_from(m, Point { x: j as i128, y: i as i128 }, k as nat),
                ),
        decreases k,
    {
        let mut next: Vec<Vec<usize>> = Vec::new();
        let mut y: usize = 0;
        while y < rows.len()
            invariant
                y <= rows.len(),
                0 < k <= 9,
                m == heights(rows@),
                same_shape(ways@, rows@),
                forall|i: int, j: int|
                    0 <= i < rows.len() && 0 <= j < rows[i].len() ==> #[trigger] ways[i][j]
                        == capped(trails_from(m, Point { x: j as i128, y: i as i128 }, k as nat)),
                next.len() == y,
                forall|i: int| 0 <= i < y ==> (#[trigger] next[i]).len() == rows[i].len(),
                forall|i: int, j: int|
                    0 <= i < y && 0 <= j < rows[i].len() ==> #[trigger] next[i][j] == capped(
                        trails_from(m, Point { x: j as i128, y: i as i128 }, (k - 1) as nat),
                    ),
            decreases rows.len() - y,
        {
            let mut row: Vec<usize> = Vec::new();
            let mut x: usize = 0;
            while x < rows[y].len()
                invariant
                    y < rows.len(),
                    0 < k <= 9,
                    x <= rows[y as int].len(),
                    m == heights(rows@),
                    same_shape(ways@, rows@),
                    forall|i: int, j: int|
                        0 <= i < rows.len() && 0 <= j < rows[i].len() ==> #[trigger] ways[i][j]
                            == capped(
                            trails_from(m, Point { x: j as i128, y: i as i128 }, k as nat),
                        ),
                    row.len() == x,
                    forall|j: int|
                        0 <= j < x ==> #[trigger] row[j] == capped(
                            trails_from(m, Point { x: j as i128, y: y as i128 }, (k - 1) as nat),
                        ),
                decreases rows[y as int].len() - x,
            {
                let q = Point { x: x as i128, y: y as i128 };
                let w = cell_or(&ways, q.left(), 0);
                let e = cell_or(&ways, q.right(), 0);
                let n = cell_or(&ways, q.up(), 0);
                let so = cell_or(&ways, q.down(), 0);
                proof {
                    lemma_counted(rows@, ways@, west(q), k as nat);
                    lemma_counted(rows@, ways@, east(q), k as nat);
                    lemma_counted(rows@, ways@, north(q), k as nat);
                    lemma_counted(rows@, ways@, south(q), k as nat);
                }
                let we = add_capped(w, e);
                let ns = add_capped(n, so);
                let all = add_capped(we, ns);
                proof {
                    let (tw, te, tn, ts) = (
                        trails_from(m, west(q), k as nat),
                        trails_from(m, east(q), k as nat),
                        trails_from(m, north(q), k as nat),
                        trails_from(m, south(q), k as nat),
                    );
                    assert(we == capped(tw + te));
                    assert(ns == capped(tn + ts));
                    assert(all == capped((tw + te) + (tn + ts)));
                }
                row.push(
                    if rows[y][x].0 == k - 1 {
                        all
                    } else {
                        0
                    },
                );
                x = x + 1;
            }
            next.push(row);
            y = y + 1;
        }
        ways = next;
        k = k - 1;
    }
    let mut total: usize = 0;
    let mut y: usize = 0;
    while y < rows.len()
        invariant
            y <= rows.len(),
            m == heights(rows@),
            rows@ == map.rows(),
            same_shape(ways@, rows@),
            forall|i: int, j: int|
                0 <= i < rows.len() && 0 <= j < rows[i].len() ==> #[trigger] ways[i][j] == capped(
                    trails_from(m, Point { x: j as i128, y: i as i128 }, 0),
                ),
            total == capped(
                if y == 0 {
                    0
                } else {
                    ratings_before(rows@, y - 1, rows[y - 1].len() as int)
                },
            ),
        decreases rows.len() - y,
    {
        let mut x: usize = 0;
        while x < rows[y].len()
            invariant
                y < rows.len(),
                x <= rows[y as int].len(),
                m == heights(rows@),
                same_shape(ways@, rows@),
                forall|i: int, j: int|
                    0 <= i < rows.len() && 0 <= j < rows[i].len() ==> #[trigger] ways[i][j]
                        == capped(trails_from(m, Point { x: j as i128, y: i as i128 }, 0)),
                total == capped(ratings_before(rows@, y as int, x as int)),
            decreases rows[y as int].len() - x,
        {
            total = add_capped(total, ways[y][x]);
            x = x + 1;
        }
        y = y + 1;
    }
    total
}

/// The ratings of the trailheads of the map that the text draws, added
/// up, or the largest number that fits where it is more. A cell rates the
/// number of trails that lead from it to a cell with height 9.
pub fn solve_day_10_part_02(input: String) -> (r: usize)
    ensures
        exists|rows: Seq<Vec<Altitude>>|
            heights(rows) == heights_of(split_lines(input@)) && r == capped(
                #[trigger] total_rating(rows),
            ),
{
    let map = TopographicMap::parse(input.as_str());
    let r = traverse_ratings(&map);
    proof {
        map.lemma_view();
        assert(heights(map.rows()) == heights_of(split_lines(input@)));
    }
    r
}

} // verus!
