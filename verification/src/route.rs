//! Routes through a maze and what they cost.
//!
//! A route is the sequence of headings that a walker takes, one cell per
//! move, from the start of the maze, which it leaves facing east. A move
//! that keeps the heading costs 1; a move that changes it costs 1 plus the
//! turn penalty.

use crate::maze::MazeView;
use crate::util::point::manhattan;
use crate::util::point::Point;
use vstd::prelude::*;

verus! {

/// The heading of a move, north being towards smaller `y`.
#[derive(Debug, Clone, Copy, PartialEq, Eq, Hash, Structural)]
pub enum TravelDirection {
    N,
    E,
    S,
    W,
}

impl TravelDirection {
    /// The position of the heading in the order north, east, south, west.
    pub open spec fn index(self) -> int {
        match self {
            TravelDirection::N => 0,
            TravelDirection::E => 1,
            TravelDirection::S => 2,
            TravelDirection::W => 3,
        }
    }

    /// The position of the heading in the order north, east, south, west.
    pub fn ordinal(self) -> (i: usize)
        ensures
            i == self.index(),
    {
        match self {
            TravelDirection::N => 0,
            TravelDirection::E => 1,
            TravelDirection::S => 2,
            TravelDirection::W => 3,
        }
    }
}

/// A place and the heading with which it was entered.
#[derive(Debug, Clone, Copy, PartialEq, Eq, Structural)]
pub struct State {
    pub at: Point,
    pub heading: TravelDirection,
}

/// The cell that one move with heading `d` leads to from `p`.
pub open spec fn step(p: Point, d: TravelDirection) -> Point {
    match d {
        TravelDirection::N => Point { x: p.x, y: (p.y - 1) as i128 },
        TravelDirection::E => Point { x: (p.x + 1) as i128, y: p.y },
        TravelDirection::S => Point { x: p.x, y: (p.y + 1) as i128 },
        TravelDirection::W => Point { x: (p.x - 1) as i128, y: p.y },
    }
}

/// The cost of one move with heading `to` after one with heading `from`.
pub open spec fn move_cost(penalty: nat, from: TravelDirection, to: TravelDirection) -> nat {
    if from == to {
        1
    } else {
        1 + penalty
    }
}

/// Where a walker stands and faces after the moves of `r` from `start`.
pub open spec fn route_state(start: Point, r: Seq<TravelDirection>) -> State
    decreases r.len(),
{
    if r.len() == 0 {
        State { at: start, heading: TravelDirection::E }
    } else {
        State { at: step(route_state(start, r.drop_last()).at, r.last()), heading: r.last() }
    }
}

/// The heading after the moves of `r`.
pub open spec fn route_heading(r: Seq<TravelDirection>) -> TravelDirection {
    if r.len() == 0 {
        TravelDirection::E
    } else {
        r.last()
    }
}

/// The cost of all moves of `r`.
pub open spec fn route_cost(penalty: nat, r: Seq<TravelDirection>) -> nat
    decreases r.len(),
{
    if r.len() == 0 {
        0
    } else {
        route_cost(penalty, r.drop_last()) + move_cost(
            penalty,
            route_heading(r.drop_last()),
            r.last(),
        )
    }
}

/// Whether every move of `r` enters an open cell of the maze.
pub open spec fn route_valid(m: MazeView, r: Seq<TravelDirection>) -> bool
    decreases r.len(),
{
    if r.len() == 0 {
        true
    } else {
        route_valid(m, r.drop_last()) && m.is_open(route_state(m.start, r).at)
    }
}

/// Whether `r` is a route through the maze that ends in the state `s`.
pub open spec fn arrives(m: MazeView, r: Seq<TravelDirection>, s: State) -> bool {
    route_valid(m, r) && route_state(m.start, r) == s
}

/// Whether `r` is a route through the maze that ends at the cell `p`.
pub open spec fn reaches(m: MazeView, r: Seq<TravelDirection>, p: Point) -> bool {
    route_valid(m, r) && route_state(m.start, r).at == p
}

/// Whether some route through the maze ends at `p`.
pub open spec fn reachable(m: MazeView, p: Point) -> bool {
    exists|r: Seq<TravelDirection>| reaches(m, r, p)
}

/// Whether `c` is the least cost of a route that ends in the state `s`.
pub open spec fn is_least_state_cost(m: MazeView, penalty: nat, s: State, c: nat) -> bool {
    &&& exists|r: Seq<TravelDirection>| arrives(m, r, s) && route_cost(penalty, r) == c
    &&& forall|r: Seq<TravelDirection>| arrives(m, r, s) ==> c <= route_cost(penalty, r)
}

/// Whether `c` is the least cost of a route that ends at the cell `p`.
pub open spec fn is_least_cost(m: MazeView, penalty: nat, p: Point, c: nat) -> bool {
    &&& exists|r: Seq<TravelDirection>| reaches(m, r, p) && route_cost(penalty, r) == c
    &&& forall|r: Seq<TravelDirection>| reaches(m, r, p) ==> c <= route_cost(penalty, r)
}

/// What one more move does to a route.
pub proof fn lemma_route_push(m: MazeView, penalty: nat, r: Seq<TravelDirection>, d: TravelDirection)
    ensures
        route_state(m.start, r.push(d)) == (State {
            at: step(route_state(m.start, r).at, d),
            heading: d,
        }),
        route_heading(r) == route_state(m.start, r).heading,
        route_cost(penalty, r.push(d)) == route_cost(penalty, r) + move_cost(
            penalty,
            route_heading(r),
            d,
        ),
        route_valid(m, r.push(d)) == (route_valid(m, r) && m.is_open(
            step(route_state(m.start, r).at, d),
        )),
{
    assert(r.push(d).drop_last() =~= r);
}

/// Whether the cells of a maze lie in the box of `w` columns and `h` rows,
/// far from the limits of the coordinates.
pub open spec fn boxed(m: MazeView, w: nat, h: nat) -> bool {
    &&& w <= 0x1_0000_0000 && h <= 0x1_0000_0000
    &&& forall|p: Point| #[trigger] m.cells.contains_key(p) ==> 0 <= p.x < w && 0 <= p.y < h
}

/// A route costs at least one unit per move, and ends no farther from the
/// start than it has moves.
pub proof fn lemma_route_length(m: MazeView, penalty: nat, w: nat, h: nat, r: Seq<TravelDirection>)
    requires
        boxed(m, w, h),
        m.is_open(m.start),
        route_valid(m, r),
    ensures
        r.len() <= route_cost(penalty, r),
        manhattan(m.start, route_state(m.start, r).at) <= r.len(),
        m.is_open(route_state(m.start, r).at),
    decreases r.len(),
{
    if r.len() > 0 {
        lemma_route_length(m, penalty, w, h, r.drop_last());
        let before = route_state(m.start, r.drop_last()).at;
        assert(m.cells.contains_key(before));
        assert(m.cells.contains_key(m.start));
    }
}

} // verus!
