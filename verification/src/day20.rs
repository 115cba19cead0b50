//! The race track: every move costs 1, and once per race a walker may pass
//! through walls for a few steps. Counts the cheats that pay.

use crate::cheats::cheats;
use crate::cheats::count_cheats;
use crate::costs::build_cost_map;
use crate::costs::find_shortest_cost;
use crate::laws::shortest_cost_is;
use crate::maze::maze_of;
use crate::maze::parse_error;
use crate::maze::Cell;
use crate::maze::Maze;
use crate::maze::MazeView;
use crate::route::is_least_cost;
use crate::route::reachable;
use crate::util::point::Point;
use vstd::pervasive::unreached;
use vstd::prelude::*;

verus! {

/// How far a walker is with the one cheat of a race.
#[derive(Debug, Clone, Copy, PartialEq, Eq, Hash, Structural)]
pub enum CheatingStep {
    /// The cheat is still to come.
    NotYet,
    /// The walker stands in a wall: the next move ends the cheat.
    FirstCheatingMove,
    /// The cheat is over.
    Cheated,
}

/// The cheat of a walker: the cell where it began, once it has begun, and
/// the cell where it ended, once it has ended.
#[derive(Debug, Clone, Copy, PartialEq, Eq, Hash, Structural)]
pub struct Cheating {
    pub start: Option<Point>,
    pub end: Option<Point>,
}

/// The step that a cheat is at. A cheat without a start has no end.
pub open spec fn step_of(c: Cheating) -> Option<CheatingStep> {
    match (c.start, c.end) {
        (None, None) => Some(CheatingStep::NotYet),
        (Some(_), None) => Some(CheatingStep::FirstCheatingMove),
        (Some(_), Some(_)) => Some(CheatingStep::Cheated),
        (None, Some(_)) => None,
    }
}

/// What a move from the cell `from` to the neighbour `to`, which is of the
/// kind `cell`, makes of the cheat `c`; `None` where the walker may not
/// make the move. A wall is entered only by a walker who has not cheated
/// yet, and the cheat begins where the walker came from; the move out of
/// the wall ends the cheat where it leads to.
pub open spec fn after_move(c: Cheating, from: Point, to: Point, cell: Cell) -> Option<Cheating> {
    match (cell, step_of(c)) {
        (_, None) => None,
        (Cell::Wall, Some(CheatingStep::NotYet)) => Some(Cheating { start: Some(from), end: None }),
        (Cell::Wall, Some(_)) => None,
        (Cell::Open, Some(CheatingStep::FirstCheatingMove)) => Some(
            Cheating { start: c.start, end: Some(to) },
        ),
        (Cell::Open, Some(_)) => Some(c),
    }
}

impl Cheating {
    /// The record of a cheat with the given ends.
    pub fn new(start: Option<Point>, end: Option<Point>) -> (c: Cheating)
        ensures
            c == (Cheating { start, end }),
    {
        Cheating { start, end }
    }

    /// The step that this cheat is at.
    pub fn cheating_state(&self) -> (s: CheatingStep)
        requires
            step_of(*self) is Some,
        ensures
            Some(s) == step_of(*self),
    {
        match (self.start, self.end) {
            (None, None) => CheatingStep::NotYet,
            (Some(_), None) => CheatingStep::FirstCheatingMove,
            (Some(_), Some(_)) => CheatingStep::Cheated,
            (None, Some(_)) => unreached(),
        }
    }

    /// The cheat after a move from `from` to the neighbour `to`, which is
    /// of the kind `cell`, or `None` where the walker may not make it.
    pub fn advance(&self, from: Point, to: Point, cell: Cell) -> (r: Option<Cheating>)
        ensures
            r == after_move(*self, from, to, cell),
    {
        match (self.start, self.end) {
            (None, Some(_)) => None,
            (None, None) => match cell {
                Cell::Wall => Some(Cheating { start: Some(from), end: None }),
                Cell::Open => Some(*self),
            },
            (Some(_), None) => match cell {
                Cell::Wall => None,
                Cell::Open => Some(Cheating { start: self.start, end: Some(to) }),
            },
            (Some(_), Some(_)) => match cell {
                Cell::Wall => None,
                Cell::Open => Some(*self),
            },
        }
    }
}

/// A cheat never goes back: a move leaves its step as it is or takes it
/// one further, and a cheat that is over stays what it is.
pub proof fn law_cheating_moves_on(c: Cheating, from: Point, to: Point, cell: Cell)
    requires
        after_move(c, from, to, cell) is Some,
    ensures
        step_of(after_move(c, from, to, cell)->0) is Some,
        step_of(c) == Some(CheatingStep::NotYet) ==> step_of(after_move(c, from, to, cell)->0)
            != Some(CheatingStep::Cheated),
        step_of(c) == Some(CheatingStep::FirstCheatingMove) ==> step_of(
            after_move(c, from, to, cell)->0,
        ) == Some(CheatingStep::Cheated),
        step_of(c) == Some(CheatingStep::Cheated) ==> after_move(c, from, to, cell) == Some(c),
{
}

/// The number of moves of the shortest way from the start to the goal
/// without cheating, or `None` where there is no way.
pub fn a_star_pathfinding(map: &Maze) -> (r: Option<u64>)
    requires
        map.wf(),
    ensures
        shortest_cost_is(map@, 0, r),
{
    find_shortest_cost(map, 0)
}

/// The cost map of the race track that `m` is: the number of moves of the
/// shortest way to each cell that can be reached.
pub open spec fn track_costs(m: MazeView, costs: Map<Point, nat>) -> bool {
    &&& forall|p: Point| #[trigger] costs.contains_key(p) <==> reachable(m, p)
    &&& forall|p: Point| #[trigger] costs.contains_key(p) ==> is_least_cost(m, 0, p, costs[p])
}

/// A race track has one cost map.
pub proof fn lemma_track_costs_one(m: MazeView, a: Map<Point, nat>, b: Map<Point, nat>)
    requires
        track_costs(m, a),
        track_costs(m, b),
    ensures
        a == b,
{
    assert forall|p: Point| a.contains_key(p) implies a[p] == b[p] by {
        assert(b.contains_key(p));
        let ra = choose|r: Seq<crate::route::TravelDirection>|
            crate::route::reaches(m, r, p) && crate::route::route_cost(0, r) == a[p];
        let rb = choose|r: Seq<crate::route::TravelDirection>|
            crate::route::reaches(m, r, p) && crate::route::route_cost(0, r) == b[p];
        assert(crate::route::reaches(m, ra, p));
        assert(crate::route::reaches(m, rb, p));
    }
    assert(a =~= b);
}

/// The cost map of the race track that `m` is.
pub open spec fn costs_of(m: MazeView) -> Map<Point, nat> {
    choose|costs: Map<Point, nat>| track_costs(m, costs)
}

/// Counts the cheats of at most `max_steps` steps that save at least
/// `min_saving` moves on the race track that `input` describes.
pub fn count_track_cheats(input: &str, max_steps: u8, min_saving: u32) -> (r: u64)
    requires
        parse_error(input@) is None,
    ensures
        r == cheats(costs_of(maze_of(input@)), max_steps as nat, min_saving as nat).len(),
{
    match Maze::parse(input) {
        Ok(map) => {
            let cost_map = build_cost_map(&map, 0);
            proof {
                assert(track_costs(map@, cost_map@));
                lemma_track_costs_one(map@, cost_map@, costs_of(map@));
            }
            count_cheats(&cost_map, max_steps, min_saving)
        },
        Err(_) => unreached(),
    }
}

/// The number of cheats of at most 2 steps that save at least `offset`
/// moves on the race track that `input` describes.
pub fn solve_day_20_part_01(input: &str, offset: u32) -> (r: u64)
    requires
        parse_error(input@) is None,
    ensures
        r == cheats(costs_of(maze_of(input@)), 2, offset as nat).len(),
{
    count_track_cheats(input, 2, offset)
}

/// The number of cheats of at most 20 steps that save at least `threshold`
/// moves on the race track that `input` describes.
pub fn solve_day_20_part_02(input: &str, threshold: u32) -> (r: u64)
    requires
        parse_error(input@) is None,
    ensures
        r == cheats(costs_of(maze_of(input@)), 20, threshold as nat).len(),
{
    count_track_cheats(input, 20, threshold)
}

} // verus!
