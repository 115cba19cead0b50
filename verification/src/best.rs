//! The routes of least cost from the start to the goal, and the cells and
//! states that they pass.

use crate::maze::MazeView;
use crate::route::arrives;
use crate::route::is_least_cost;
use crate::route::is_least_state_cost;
use crate::route::lemma_route_push;
use crate::route::move_cost;
use crate::route::reaches;
use crate::route::route_cost;
use crate::route::route_state;
use crate::route::route_valid;
use crate::route::step;
use crate::route::State;
use crate::route::TravelDirection;
use crate::util::point::Point;
use vstd::prelude::*;

verus! {

/// Whether `r` is a route to the goal that no other route to the goal
/// undercuts.
pub open spec fn best_route(m: MazeView, penalty: nat, r: Seq<TravelDirection>) -> bool {
    reaches(m, r, m.goal) && is_least_cost(m, penalty, m.goal, route_cost(penalty, r))
}

/// Whether some best route passes the state `s`: the walker stands and
/// faces like `s` after some of its moves.
pub open spec fn on_best_state(m: MazeView, penalty: nat, s: State) -> bool {
    exists|r: Seq<TravelDirection>, k: int|
        best_route(m, penalty, r) && 0 <= k <= r.len() && #[trigger] route_state(
            m.start,
            r.take(k),
        ) == s
}

/// Whether some best route passes the cell `p`.
pub open spec fn on_best_route(m: MazeView, penalty: nat, p: Point) -> bool {
    exists|r: Seq<TravelDirection>, k: int|
        best_route(m, penalty, r) && 0 <= k <= r.len() && (#[trigger] route_state(
            m.start,
            r.take(k),
        )).at == p
}

/// The first moves of a route through the maze are a route through it.
pub proof fn lemma_prefix_valid(m: MazeView, r: Seq<TravelDirection>, k: int)
    requires
        route_valid(m, r),
        0 <= k <= r.len(),
    ensures
        route_valid(m, r.take(k)),
    decreases r.len(),
{
    if k == r.len() {
        assert(r.take(k) =~= r);
    } else {
        lemma_prefix_valid(m, r.drop_last(), k);
        assert(r.drop_last().take(k) =~= r.take(k));
    }
}

/// Two routes that end in the same state can take the same moves from
/// there: they end in the same state again, and the moves cost the same
/// after either.
pub proof fn lemma_splice(
    m: MazeView,
    penalty: nat,
    a: Seq<TravelDirection>,
    b: Seq<TravelDirection>,
    suf: Seq<TravelDirection>,
)
    requires
        route_valid(m, a),
        route_valid(m, b + suf),
        route_state(m.start, a) == route_state(m.start, b),
    ensures
        route_valid(m, a + suf),
        route_state(m.start, a + suf) == route_state(m.start, b + suf),
        route_cost(penalty, a + suf) + route_cost(penalty, b) == route_cost(penalty, b + suf)
            + route_cost(penalty, a),
    decreases suf.len(),
{
    if suf.len() == 0 {
        assert(a + suf =~= a);
        assert(b + suf =~= b);
    } else {
        let short = suf.drop_last();
        let d = suf.last();
        assert((b + suf).drop_last() =~= b + short);
        assert((a + suf).drop_last() =~= a + short);
        assert((a + short).push(d) =~= a + suf);
        assert((b + short).push(d) =~= b + suf);
        lemma_splice(m, penalty, a, b, short);
        lemma_route_push(m, penalty, a + short, d);
        lemma_route_push(m, penalty, b + short, d);
    }
}

/// A state has one least cost.
pub proof fn lemma_least_state_cost_one(m: MazeView, penalty: nat, s: State, a: nat, b: nat)
    requires
        is_least_state_cost(m, penalty, s, a),
        is_least_state_cost(m, penalty, s, b),
    ensures
        a == b,
{
    let ra = choose|r: Seq<TravelDirection>| arrives(m, r, s) && route_cost(penalty, r) == a;
    let rb = choose|r: Seq<TravelDirection>| arrives(m, r, s) && route_cost(penalty, r) == b;
    assert(arrives(m, ra, s));
    assert(arrives(m, rb, s));
}

/// The first moves of a best route are a route of least cost to the state
/// in which they end.
pub proof fn lemma_prefix_least(m: MazeView, penalty: nat, r: Seq<TravelDirection>, k: int)
    requires
        best_route(m, penalty, r),
        0 <= k <= r.len(),
    ensures
        is_least_state_cost(
            m,
            penalty,
            route_state(m.start, r.take(k)),
            route_cost(penalty, r.take(k)),
        ),
{
    let b = r.take(k);
    let suf = r.skip(k);
    let s = route_state(m.start, b);
    lemma_prefix_valid(m, r, k);
    assert(b + suf =~= r);
    assert(arrives(m, b, s));
    assert forall|a: Seq<TravelDirection>| arrives(m, a, s) implies route_cost(penalty, b)
        <= route_cost(penalty, a) by {
        lemma_splice(m, penalty, a, b, suf);
        assert(reaches(m, a + suf, m.goal));
    }
}

/// Where a best route passes the state `t`, and a move leads from the
/// state `s` to `t` that costs the difference of their least costs, a
/// best route passes `s` too.
pub proof fn lemma_pred_on_best(m: MazeView, penalty: nat, s: State, t: State, cs: nat, ct: nat)
    requires
        is_least_state_cost(m, penalty, s, cs),
        is_least_state_cost(m, penalty, t, ct),
        t.at == step(s.at, t.heading),
        m.is_open(t.at),
        cs + move_cost(penalty, s.heading, t.heading) == ct,
        on_best_state(m, penalty, t),
    ensures
        on_best_state(m, penalty, s),
{
    let (r, k) = choose|r: Seq<TravelDirection>, k: int|
        best_route(m, penalty, r) && 0 <= k <= r.len() && #[trigger] route_state(
            m.start,
            r.take(k),
        ) == t;
    let ws = choose|ws: Seq<TravelDirection>| arrives(m, ws, s) && route_cost(penalty, ws) == cs;
    let a = ws.push(t.heading);
    let b = r.take(k);
    let suf = r.skip(k);
    assert(b + suf =~= r);
    lemma_route_push(m, penalty, ws, t.heading);
    lemma_prefix_least(m, penalty, r, k);
    lemma_least_state_cost_one(m, penalty, t, ct, route_cost(penalty, b));
    lemma_splice(m, penalty, a, b, suf);
    let better = a + suf;
    assert(best_route(m, penalty, better));
    assert(better.take(ws.len() as int) =~= ws);
    assert(route_state(m.start, better.take(ws.len() as int)) == s);
}

} // verus!
