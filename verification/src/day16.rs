//! The reindeer maze: every move costs 1, and every move that changes the
//! heading 1000 more. The walker starts facing east.

use crate::best::on_best_route;
use crate::costs::find_shortest_cost;
use crate::maze::MazeView;
use crate::tiles::find_all_min_cost_tiles;
use crate::tiles::tiles_are;
use crate::maze::maze_of;
use crate::maze::parse_error;
use crate::maze::Maze;
use crate::maze::MAX_CELLS;
use crate::route::is_least_cost;
use crate::route::move_cost;
use crate::route::reachable;
use crate::route::step;
use crate::route::TravelDirection;
use crate::util::point::abs_diff;
use crate::util::point::manhattan;
use crate::util::point::Point;
use vstd::pervasive::unreached;
use vstd::prelude::*;

verus! {

/// What a change of heading costs on top of the move.
pub const TURN_PENALTY: u32 = 1000;

/// A node of the search: a cell, the cost `g` of the way to it, the
/// estimate `h` of the way from it to the goal, and the heading with which
/// it was entered.
#[derive(Debug, Clone, Copy, PartialEq, Eq, Structural)]
pub struct PathNode {
    pub p: Point,
    pub g: u32,
    pub h: u32,
    pub dir: TravelDirection,
}

impl PathNode {
    /// The node at `p` with the cost `g` so far, the estimate `h` and the
    /// heading `dir`.
    pub fn new(p: Point, g: u32, h: u32, dir: TravelDirection) -> (n: PathNode)
        ensures
            n == (PathNode { p, g, h, dir }),
    {
        PathNode { p, g, h, dir }
    }

    /// The cost so far plus the estimate of the rest.
    pub fn f(&self) -> (r: u32)
        requires
            self.g + self.h <= u32::MAX,
        ensures
            r == self.g + self.h,
    {
        self.g + self.h
    }

    /// The heading of the move from this node to the cell `other`, if
    /// `other` is one step away.
    pub fn dir_to(&self, other: &Point) -> (d: Option<TravelDirection>)
        requires
            self.p.has_room(),
        ensures
            match d {
                Some(dir) => step(self.p, dir) == *other,
                None => forall|dir: TravelDirection| step(self.p, dir) != *other,
            },
    {
        if *other == self.p.right() {
            Some(TravelDirection::E)
        } else if *other == self.p.left() {
            Some(TravelDirection::W)
        } else if *other == self.p.down() {
            Some(TravelDirection::S)
        } else if *other == self.p.up() {
            Some(TravelDirection::N)
        } else {
            None
        }
    }
}

/// The cost of the way to the cell `p` through its neighbour `parent`, and
/// the heading of the last move: going on straight is cheap, turning is not.
/// `None` where `p` is not one step from `parent`.
pub fn g(p: &Point, parent: &PathNode) -> (r: Option<(u32, TravelDirection)>)
    requires
        parent.p.has_room(),
        parent.g + 1 + TURN_PENALTY <= u32::MAX,
    ensures
        match r {
            Some((cost, dir)) => step(parent.p, dir) == *p && cost == parent.g + move_cost(
                TURN_PENALTY as nat,
                parent.dir,
                dir,
            ),
            None => forall|dir: TravelDirection| step(parent.p, dir) != *p,
        },
{
    match parent.dir_to(p) {
        Some(new_dir) => {
            if parent.dir == new_dir {
                Some((parent.g + 1, new_dir))
            } else {
                Some((parent.g + 1 + TURN_PENALTY, new_dir))
            }
        },
        None => None,
    }
}

/// The estimate of the way from `n` to `goal`: their Manhattan distance,
/// which no route undercuts.
pub fn h(n: &Point, goal: &Point) -> (r: u32)
    requires
        manhattan(*n, *goal) <= u32::MAX,
    ensures
        r == manhattan(*n, *goal),
{
    let dx: u128 = abs_diff(n.x, goal.x);
    let dy: u128 = abs_diff(n.y, goal.y);
    (dx + dy) as u32
}

/// The least cost of a route from the start to the goal of the maze, or
/// `None` where the goal cannot be reached.
pub fn a_star_pathfinding(map: &Maze) -> (r: Option<u32>)
    requires
        map.wf(),
    ensures
        match r {
            Some(c) => is_least_cost(map@, TURN_PENALTY as nat, map@.goal, c as nat),
            None => !reachable(map@, map@.goal),
        },
{
    match find_shortest_cost(map, TURN_PENALTY) {
        Some(c) => {
            assert(c <= 1001 * (4 * MAX_CELLS));
            Some(c as u32)
        },
        None => None,
    }
}

/// The least cost of a route through the maze that `input` describes.
/// The text must describe a maze whose goal can be reached.
pub fn solve_day_16_part_01(input: &str) -> (r: u32)
    requires
        parse_error(input@) is None,
        reachable(maze_of(input@), maze_of(input@).goal),
    ensures
        is_least_cost(maze_of(input@), TURN_PENALTY as nat, maze_of(input@).goal, r as nat),
{
    match Maze::parse(input) {
        Ok(map) => match a_star_pathfinding(&map) {
            Some(c) => c,
            None => unreached(),
        },
        Err(_) => unreached(),
    }
}

/// The cells that best routes through the maze pass.
pub open spec fn best_tiles(m: MazeView) -> Set<Point> {
    Set::new(|p: Point| on_best_route(m, TURN_PENALTY as nat, p))
}

/// The cells that lie on at least one best route through the maze, each
/// once, or `None` where the goal cannot be reached.
pub fn dijkstra_pathfinding(map: &Maze) -> (r: Option<Vec<Point>>)
    requires
        map.wf(),
    ensures
        tiles_are(map@, TURN_PENALTY as nat, r),
        r is Some ==> r->0@.to_set() == best_tiles(map@) && r->0@.len() == best_tiles(map@).len(),
{
    let r = find_all_min_cost_tiles(map, TURN_PENALTY);
    proof {
        if r is Some {
            let v = r->0@;
            v.unique_seq_to_set();
            assert(v.to_set() =~= best_tiles(map@));
        }
    }
    r
}

/// The number of cells that lie on at least one best route through the
/// maze that `input` describes. The text must describe a maze whose goal
/// can be reached.
pub fn solve_day_16_part_02(input: &str) -> (r: u32)
    requires
        parse_error(input@) is None,
        reachable(maze_of(input@), maze_of(input@).goal),
    ensures
        r == best_tiles(maze_of(input@)).len(),
{
    match Maze::parse(input) {
        Ok(map) => match dijkstra_pathfinding(&map) {
            Some(tiles) => tiles.len() as u32,
            None => unreached(),
        },
        Err(_) => unreached(),
    }
}

} // verus!
