//! The least cost of reaching each cell of a maze, whatever the heading.

use crate::laws::shortest_cost_is;
use crate::maze::Maze;
use crate::maze::MazeView;
use crate::maze::MAX_CELLS;
use crate::route::arrives;
use crate::route::is_least_cost;
use crate::route::reachable;
use crate::route::reaches;
use crate::route::route_cost;
use crate::route::route_state;
use crate::route::State;
use crate::route::TravelDirection;
use crate::search::settle;
use crate::search::StateCosts;
use crate::search::UNREACHED;
use crate::util::point::Point;
use vstd::prelude::*;

verus! {

/// The smaller of two costs, where `None` stands for no cost at all.
pub fn least_of(a: Option<u64>, b: Option<u64>) -> (r: Option<u64>)
    ensures
        r is None <==> (a is None && b is None),
        r is Some ==> (a == r || b == r),
        a is Some ==> r->0 <= a->0,
        b is Some ==> r->0 <= b->0,
{
    match (a, b) {
        (None, _) => b,
        (_, None) => a,
        (Some(x), Some(y)) => if x <= y {
            a
        } else {
            b
        },
    }
}

/// The least cost of a route that ends at `p`, with any heading.
pub(crate) fn best_at(maze: &Maze, Ghost(penalty): Ghost<nat>, costs: &StateCosts, p: Point) -> (r: Option<
    u64,
>)
    requires
        costs.wf(),
        costs.exact(maze@, penalty),
        costs.capped(penalty),
    ensures
        match r {
            Some(c) => is_least_cost(maze@, penalty, p, c as nat) && c <= (1 + penalty) * (4
                * MAX_CELLS),
            None => !reachable(maze@, p),
        },
{
    let ghost m = maze@;
    let n = costs.get(State { at: p, heading: TravelDirection::N });
    let e = costs.get(State { at: p, heading: TravelDirection::E });
    let s = costs.get(State { at: p, heading: TravelDirection::S });
    let w = costs.get(State { at: p, heading: TravelDirection::W });
    let r = least_of(least_of(n, e), least_of(s, w));
    proof {
        assert(costs.fits(m, penalty, State { at: p, heading: TravelDirection::N }));
        assert(costs.fits(m, penalty, State { at: p, heading: TravelDirection::E }));
        assert(costs.fits(m, penalty, State { at: p, heading: TravelDirection::S }));
        assert(costs.fits(m, penalty, State { at: p, heading: TravelDirection::W }));
        match r {
            Some(c) => {
                let st = if n == r {
                    State { at: p, heading: TravelDirection::N }
                } else if e == r {
                    State { at: p, heading: TravelDirection::E }
                } else if s == r {
                    State { at: p, heading: TravelDirection::S }
                } else {
                    State { at: p, heading: TravelDirection::W }
                };
                assert(costs.cost(st) == Some(c as nat));
                let rt = choose|rt: Seq<TravelDirection>|
                    arrives(m, rt, st) && route_cost(penalty, rt) == c;
                assert(reaches(m, rt, p) && route_cost(penalty, rt) == c);
                assert forall|rt: Seq<TravelDirection>| reaches(m, rt, p) implies c <= route_cost(
                    penalty,
                    rt,
                ) by {
                    let end = route_state(m.start, rt);
                    assert(arrives(m, rt, end));
                    assert(costs.fits(m, penalty, end));
                }
            },
            None => {
                assert forall|rt: Seq<TravelDirection>| !reaches(m, rt, p) by {
                    let end = route_state(m.start, rt);
                    if reaches(m, rt, p) {
                        assert(arrives(m, rt, end));
                        assert(costs.fits(m, penalty, end));
                    }
                }
            },
        }
    }
    r
}

/// The least cost of a route from the start of the maze to its goal, where
/// a move that keeps the heading costs 1 and any other `1 + penalty`.
/// `None` where no route leads to the goal.
pub fn find_shortest_cost(maze: &Maze, penalty: u32) -> (r: Option<u64>)
    requires
        maze.wf(),
    ensures
        shortest_cost_is(maze@, penalty as nat, r),
        r is Some ==> r->0 <= (1 + penalty) * (4 * MAX_CELLS),
{
    let costs = settle(maze, penalty);
    best_at(maze, Ghost(penalty as nat), &costs, maze.goal())
}

/// The least cost of reaching each cell that can be reached.
#[derive(Debug)]
pub struct CostMap {
    rows: Vec<Vec<u64>>,
}

impl View for CostMap {
    type V = Map<Point, nat>;

    closed spec fn view(&self) -> Map<Point, nat> {
        Map::new(
            |p: Point|
                0 <= p.y < self.rows.len() && 0 <= p.x < self.rows[p.y as int].len()
                    && self.rows[p.y as int][p.x as int] < UNREACHED,
            |p: Point| self.rows[p.y as int][p.x as int] as nat,
        )
    }
}

/// The largest coordinate, and the largest cost, that a cost map holds.
pub const MAX_COST: u64 = 0x1_0000_0000 * 4_000_000;

impl CostMap {
    /// Whether the map holds at most `MAX_CELLS` rows of at most as many
    /// cells each, and no cost above `MAX_COST`.
    pub closed spec fn wf(&self) -> bool {
        &&& self.rows.len() <= MAX_CELLS
        &&& forall|y: int| 0 <= y < self.rows.len() ==> (#[trigger] self.rows[y]).len() <= MAX_CELLS
        &&& forall|y: int, x: int|
            0 <= y < self.rows.len() && 0 <= x < self.rows[y].len() && self.rows[y][x] < UNREACHED
                ==> #[trigger] self.rows[y][x] <= MAX_COST
    }

    /// Whether the map holds exactly the cells that routes through `m`
    /// reach, each with the least cost of such a route.
    pub open spec fn exact(&self, m: MazeView, penalty: nat) -> bool {
        &&& forall|p: Point| #[trigger] self@.contains_key(p) <==> reachable(m, p)
        &&& forall|p: Point| #[trigger]
            self@.contains_key(p) ==> is_least_cost(m, penalty, p, self@[p])
    }

    /// The limits of a well-formed map.
    pub proof fn lemma_limits(&self)
        requires
            self.wf(),
        ensures
            forall|p: Point| #[trigger]
                self@.contains_key(p) ==> 0 <= p.x < MAX_CELLS && 0 <= p.y < MAX_CELLS && self@[p]
                    <= MAX_COST,
    {
    }

    /// The number of rows of the map.
    pub fn height(&self) -> (h: usize)
        requires
            self.wf(),
        ensures
            h <= MAX_CELLS,
            forall|p: Point| #[trigger] self@.contains_key(p) ==> p.y < h,
    {
        self.rows.len()
    }

    /// The number of cells of row `y`, with or without a cost.
    pub fn row_len(&self, y: usize) -> (w: usize)
        requires
            self.wf(),
            y < MAX_CELLS,
        ensures
            w <= MAX_CELLS,
            forall|p: Point| #[trigger] self@.contains_key(p) && p.y == y ==> p.x < w,
    {
        if y < self.rows.len() {
            self.rows[y].len()
        } else {
            0
        }
    }

    /// The least cost of reaching `p`, if it can be reached.
    pub fn get(&self, p: &Point) -> (c: Option<u64>)
        ensures
            match c {
                Some(v) => self@.contains_pair(*p, v as nat),
                None => !self@.contains_key(*p),
            },
    {
        if p.y < 0 || p.x < 0 {
            return None;
        }
        if p.y >= self.rows.len() as i128 {
            return None;
        }
        let row = &self.rows[p.y as usize];
        if p.x >= row.len() as i128 {
            return None;
        }
        let v: u64 = row[p.x as usize];
        if v < UNREACHED {
            Some(v)
        } else {
            None
        }
    }
}

/// Finds, for every cell that a route from the start reaches, the least
/// cost of such a route. The search does not stop at the goal.
pub fn build_cost_map(maze: &Maze, penalty: u32) -> (r: CostMap)
    requires
        maze.wf(),
    ensures
        r.wf(),
        r.exact(maze@, penalty as nat),
{
    let ghost m = maze@;
    let ghost pen = penalty as nat;
    let costs = settle(maze, penalty);
    let h: usize = maze.height();
    let w: usize = maze.width();
    proof {
        maze.lemma_wf();
        assert((1 + pen) * (4 * MAX_CELLS) <= MAX_COST) by (nonlinear_arith)
            requires
                pen < 0x1_0000_0000,
        ;
    }
    let mut rows: Vec<Vec<u64>> = Vec::new();
    let mut y: usize = 0;
    while y < h
        invariant
            y <= h <= MAX_CELLS,
            w <= MAX_CELLS,
            rows.len() == y,
            costs.wf(),
            costs.exact(m, pen),
            costs.capped(pen),
            m == maze@,
            (1 + pen) * (4 * MAX_CELLS) <= MAX_COST,
            forall|i: int| 0 <= i < y ==> (#[trigger] rows[i]).len() == w,
            forall|i: int, j: int|
                0 <= i < y && 0 <= j < w ==> known(
                    m,
                    pen,
                    Point { x: j as i128, y: i as i128 },
                    #[trigger] rows[i][j],
                ),
        decreases h - y,
    {
        let mut row: Vec<u64> = Vec::new();
        let mut x: usize = 0;
        while x < w
            invariant
                x <= w <= MAX_CELLS,
                y < MAX_CELLS,
                row.len() == x,
                costs.wf(),
                costs.exact(m, pen),
                costs.capped(pen),
                m == maze@,
                (1 + pen) * (4 * MAX_CELLS) <= MAX_COST,
                forall|j: int|
                    0 <= j < x ==> known(
                        m,
                        pen,
                        Point { x: j as i128, y: y as i128 },
                        #[trigger] row[j],
                    ),
            decreases w - x,
        {
            let p = Point { x: x as i128, y: y as i128 };
            let v: u64 = match best_at(maze, Ghost(pen), &costs, p) {
                Some(c) => c,
                None => UNREACHED,
            };
            row.push(v);
            x = x + 1;
        }
        rows.push(row);
        y = y + 1;
    }
    let r = CostMap { rows };
    proof {
        assert forall|p: Point| #[trigger] r@.contains_key(p) <==> reachable(m, p) by {
            if reachable(m, p) {
                let rt = choose|rt: Seq<TravelDirection>| reaches(m, rt, p);
                crate::route::lemma_route_length(m, pen, w as nat, h as nat, rt);
                assert(m.cells.contains_key(p));
                assert(known(m, pen, p, r.rows[p.y as int][p.x as int]));
            }
            if r@.contains_key(p) {
                assert(known(m, pen, p, r.rows[p.y as int][p.x as int]));
            }
        }
        assert forall|p: Point| #[trigger] r@.contains_key(p) implies is_least_cost(
            m,
            pen,
            p,
            r@[p],
        ) by {
            assert(known(m, pen, p, r.rows[p.y as int][p.x as int]));
        }
        assert forall|y: int, x: int|
            0 <= y < r.rows.len() && 0 <= x < r.rows[y].len() && r.rows[y][x]
                < UNREACHED implies #[trigger] r.rows[y][x] <= MAX_COST by {
            assert(known(m, pen, Point { x: x as i128, y: y as i128 }, r.rows[y][x]));
        }
    }
    r
}

/// Whether `v` is what a cost map holds for the cell `p`: the least cost
/// of reaching it, or the mark of a cell that no route reaches.
pub open spec fn known(m: MazeView, penalty: nat, p: Point, v: u64) -> bool {
    if v < UNREACHED {
        is_least_cost(m, penalty, p, v as nat) && v <= (1 + penalty) * (4 * MAX_CELLS)
    } else {
        !reachable(m, p)
    }
}

} // verus!
