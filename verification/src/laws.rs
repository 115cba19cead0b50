//! What holds of every maze, its routes and their costs.

use crate::maze::Maze;
use crate::maze::MazeView;
use crate::route::is_least_cost;
use crate::route::lemma_route_length;
use crate::route::lemma_route_push;
use crate::route::reachable;
use crate::route::reaches;
use crate::route::route_cost;
use crate::route::route_state;
use crate::route::route_valid;
use crate::route::step;
use crate::route::State;
use crate::route::TravelDirection;
use crate::util::point::manhattan;
use crate::util::point::Point;
use vstd::prelude::*;

verus! {

/// The route of `k` moves to the east.
pub open spec fn eastward(k: nat) -> Seq<TravelDirection> {
    Seq::new(k, |i: int| TravelDirection::E)
}

/// Whether the goal lies to the east of the start, in its row, with open
/// cells all the way: the walker, who starts facing east, never turns.
pub open spec fn straight_east(m: MazeView) -> bool {
    &&& m.goal.y == m.start.y
    &&& m.goal.x >= m.start.x
    &&& forall|p: Point|
        p.y == m.start.y && m.start.x <= p.x <= m.goal.x ==> #[trigger] m.is_open(p)
}

/// What the first `k` moves of the straight way east come to.
proof fn lemma_eastward(maze: Maze, penalty: nat, k: nat)
    requires
        maze.wf(),
        straight_east(maze@),
        k <= maze@.goal.x - maze@.start.x,
    ensures
        route_valid(maze@, eastward(k)),
        route_state(maze@.start, eastward(k)) == (State {
            at: Point { x: (maze@.start.x + k) as i128, y: maze@.start.y },
            heading: TravelDirection::E,
        }),
        route_cost(penalty, eastward(k)) == k,
    decreases k,
{
    let m = maze@;
    maze.lemma_wf();
    if k > 0 {
        lemma_eastward(maze, penalty, (k - 1) as nat);
        assert(eastward(k).drop_last() =~= eastward((k - 1) as nat));
        let here = Point { x: (m.start.x + k) as i128, y: m.start.y };
        let was = Point { x: (m.start.x + k - 1) as i128, y: m.start.y };
        assert(m.is_open(here));
        assert(m.is_open(was));
        assert(m.cells.contains_key(here) && m.cells.contains_key(was));
        assert(step(was, TravelDirection::E) == here);
    }
}

/// Where the way from the start to the goal is a straight line that needs
/// no turn, the least cost is the Manhattan distance of the two: the turn
/// penalty is never applied.
pub proof fn law_straight_line(maze: Maze, penalty: nat, c: nat)
    requires
        maze.wf(),
        straight_east(maze@),
        is_least_cost(maze@, penalty, maze@.goal, c),
    ensures
        c == manhattan(maze@.start, maze@.goal),
{
    let m = maze@;
    maze.lemma_wf();
    let k = (m.goal.x - m.start.x) as nat;
    lemma_eastward(maze, penalty, k);
    assert(reaches(m, eastward(k), m.goal));
    let r = choose|r: Seq<TravelDirection>| reaches(m, r, m.goal) && route_cost(penalty, r) == c;
    lemma_route_length(m, penalty, maze.spec_width(), maze.spec_height(), r);
}

/// The cells that routes reach are the closure of the start under steps
/// into open cells: the start is reached; from a reached cell every open
/// neighbour is reached; and every reached cell but the start is an open
/// neighbour of a reached cell.
pub proof fn law_reachable_closure(maze: Maze, p: Point, d: TravelDirection)
    requires
        maze.wf(),
    ensures
        reachable(maze@, maze@.start),
        reachable(maze@, p) && maze@.is_open(step(p, d)) ==> reachable(maze@, step(p, d)),
        reachable(maze@, p) ==> maze@.is_open(p),
        reachable(maze@, p) && p != maze@.start ==> exists|q: Point, e: TravelDirection|
            reachable(maze@, q) && step(q, e) == p,
{
    let m = maze@;
    maze.lemma_wf();
    assert(reaches(m, Seq::<TravelDirection>::empty(), m.start));
    if reachable(m, p) {
        let r = choose|r: Seq<TravelDirection>| reaches(m, r, p);
        lemma_route_length(m, 0, maze.spec_width(), maze.spec_height(), r);
        if m.is_open(step(p, d)) {
            lemma_route_push(m, 0, r, d);
            assert(reaches(m, r.push(d), step(p, d)));
        }
        if p != m.start {
            let q = route_state(m.start, r.drop_last()).at;
            assert(reaches(m, r.drop_last(), q));
            assert(reachable(m, q) && step(q, r.last()) == p);
        }
    }
}

/// The outcome of a search for the least cost of reaching the goal.
pub open spec fn shortest_cost_is(m: MazeView, penalty: nat, r: Option<u64>) -> bool {
    match r {
        Some(c) => is_least_cost(m, penalty, m.goal, c as nat),
        None => !reachable(m, m.goal),
    }
}

/// A maze has one least cost: two searches of the same maze with the same
/// penalty give the same answer.
pub proof fn law_shortest_cost_unique(m: MazeView, penalty: nat, a: Option<u64>, b: Option<u64>)
    requires
        shortest_cost_is(m, penalty, a),
        shortest_cost_is(m, penalty, b),
    ensures
        a == b,
{
    if a is Some {
        let r = choose|r: Seq<TravelDirection>|
            reaches(m, r, m.goal) && route_cost(penalty, r) == a->0;
        assert(reaches(m, r, m.goal));
    }
    if b is Some {
        let r = choose|r: Seq<TravelDirection>|
            reaches(m, r, m.goal) && route_cost(penalty, r) == b->0;
        assert(reaches(m, r, m.goal));
    }
}

/// The least cost of reaching a cell is never below its Manhattan
/// distance from the start.
pub proof fn law_cost_at_least_distance(maze: Maze, penalty: nat, p: Point, c: nat)
    requires
        maze.wf(),
        is_least_cost(maze@, penalty, p, c),
    ensures
        c >= manhattan(maze@.start, p),
{
    let m = maze@;
    maze.lemma_wf();
    let r = choose|r: Seq<TravelDirection>| reaches(m, r, p) && route_cost(penalty, r) == c;
    lemma_route_length(m, penalty, maze.spec_width(), maze.spec_height(), r);
}

} // verus!
