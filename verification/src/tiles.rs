//! The cells that lie on a best route from the start to the goal.
//!
//! Once the least cost of every state is known, the states on best routes
//! are found backwards from the goal: a state is on a best route where a
//! move leads from it to a state on a best route and costs exactly the
//! difference of the two least costs.

use crate::best::best_route;
use crate::best::lemma_least_state_cost_one;
use crate::best::lemma_pred_on_best;
use crate::best::lemma_prefix_least;
use crate::best::lemma_prefix_valid;
use crate::best::on_best_route;
use crate::best::on_best_state;
use crate::costs::best_at;
use crate::maze::Maze;
use crate::maze::MazeView;
use crate::maze::MAX_CELLS;
use crate::route::arrives;
use crate::route::boxed;
use crate::route::is_least_cost;
use crate::route::lemma_route_length;
use crate::route::lemma_route_push;
use crate::route::move_cost;
use crate::route::reachable;
use crate::route::reaches;
use crate::route::route_cost;
use crate::route::route_state;
use crate::route::step;
use crate::route::State;
use crate::route::TravelDirection;
use crate::search::count_true;
use crate::search::in_box;
use crate::search::lemma_count_true_bound;
use crate::search::lemma_count_true_set;
use crate::search::lemma_slot_injective;
use crate::search::lemma_slot_range;
use crate::search::settle;
use crate::search::slot;
use crate::search::Pending;
use crate::search::StateCosts;
use crate::util::point::lemma_push_contains;
use crate::util::point::Point;
use vstd::prelude::*;

verus! {

/// The cell from which one move with heading `d` leads to `p`.
pub open spec fn back(p: Point, d: TravelDirection) -> Point {
    match d {
        TravelDirection::N => Point { x: p.x, y: (p.y + 1) as i128 },
        TravelDirection::E => Point { x: (p.x - 1) as i128, y: p.y },
        TravelDirection::S => Point { x: p.x, y: (p.y - 1) as i128 },
        TravelDirection::W => Point { x: (p.x + 1) as i128, y: p.y },
    }
}

/// The state with heading `hd` from which one move leads to the state `t`.
pub open spec fn pred(t: State, hd: TravelDirection) -> State {
    State { at: back(t.at, t.heading), heading: hd }
}

/// Whether the move from `s` to `t` costs the difference of their least
/// costs.
pub open spec fn tight(costs: &StateCosts, penalty: nat, s: State, t: State) -> bool {
    costs.cost(s) is Some && costs.cost(t) is Some && costs.cost(s)->0 + move_cost(
        penalty,
        s.heading,
        t.heading,
    ) == costs.cost(t)->0
}

/// Every marked state is on a best route.
pub open spec fn sound(m: MazeView, penalty: nat, w: nat, h: nat, marks: Seq<bool>) -> bool {
    forall|s: State|
        in_box(w, h, s.at) && marks[#[trigger] slot(w, s)] ==> on_best_state(m, penalty, s)
}

/// Whether the state with heading `hd` before `t` is marked, if the move
/// from it to `t` is tight.
pub open spec fn closed_at(
    costs: &StateCosts,
    penalty: nat,
    w: nat,
    marks: Seq<bool>,
    t: State,
    hd: TravelDirection,
) -> bool {
    tight(costs, penalty, pred(t, hd), t) ==> marks[slot(w, pred(t, hd))]
}

/// Every state before a marked state that is looked at already is marked.
pub open spec fn closed(
    costs: &StateCosts,
    penalty: nat,
    w: nat,
    h: nat,
    marks: Seq<bool>,
    stack: Seq<State>,
    exempt: Option<Pending>,
) -> bool {
    forall|t: State, hd: TravelDirection|
        in_box(w, h, t.at) && marks[slot(w, t)] && !stack.contains(t) && !(exempt is Some
            && exempt->0.state == t && hd.index() >= exempt->0.from) ==> #[trigger] closed_at(
            costs,
            penalty,
            w,
            marks,
            t,
            hd,
        )
}

/// Every state that waits is a marked state of the box.
pub open spec fn stacked(w: nat, h: nat, marks: Seq<bool>, stack: Seq<State>) -> bool {
    forall|i: int|
        0 <= i < stack.len() ==> in_box(w, h, (#[trigger] stack[i]).at) && marks[slot(
            w,
            stack[i],
        )]
}

/// Every state at the goal that costs `best` is marked.
pub open spec fn goal_marked(
    costs: &StateCosts,
    m: MazeView,
    w: nat,
    marks: Seq<bool>,
    best: nat,
    upto: int,
) -> bool {
    forall|d: TravelDirection|
        d.index() < upto && costs.cost(State { at: m.goal, heading: d }) == Some(best)
            ==> marks[#[trigger] slot(w, State { at: m.goal, heading: d })]
}

/// What holds while the states on best routes are marked.
pub open spec fn marking(
    costs: &StateCosts,
    m: MazeView,
    penalty: nat,
    marks: Seq<bool>,
    stack: Seq<State>,
    best: nat,
    exempt: Option<Pending>,
) -> bool {
    let w = costs.spec_width();
    let h = costs.spec_height();
    &&& costs.wf()
    &&& costs.exact(m, penalty)
    &&& boxed(m, w, h)
    &&& m.is_open(m.start)
    &&& is_least_cost(m, penalty, m.goal, best)
    &&& marks.len() == 4 * (h * w)
    &&& sound(m, penalty, w, h, marks)
    &&& closed(costs, penalty, w, h, marks, stack, exempt)
    &&& stacked(w, h, marks, stack)
    &&& exempt is Some ==> in_box(w, h, exempt->0.state.at) && marks[slot(w, exempt->0.state)]
}

/// Whether every mark of `a` is a mark of `b`.
pub open spec fn grown(a: Seq<bool>, b: Seq<bool>) -> bool {
    a.len() == b.len() && forall|i: int| 0 <= i < a.len() && a[i] ==> b[i]
}

/// The four headings in the order of their index.
pub fn heading_at(i: usize) -> (d: TravelDirection)
    requires
        i < 4,
    ensures
        d.index() == i,
{
    if i == 0 {
        TravelDirection::N
    } else if i == 1 {
        TravelDirection::E
    } else if i == 2 {
        TravelDirection::S
    } else {
        TravelDirection::W
    }
}

/// The cell from which one move with heading `d` leads to `p`.
pub fn step_back(p: Point, d: TravelDirection) -> (q: Point)
    requires
        p.has_room(),
    ensures
        q == back(p, d),
        q.has_room() ==> step(q, d) == p,
{
    match d {
        TravelDirection::N => p.down(),
        TravelDirection::E => p.left(),
        TravelDirection::S => p.up(),
        TravelDirection::W => p.right(),
    }
}

/// Marks the state `s`, which is on a best route, and lets it wait, unless
/// it is marked already.
fn mark(
    costs: &StateCosts,
    Ghost(m): Ghost<MazeView>,
    Ghost(penalty): Ghost<nat>,
    Ghost(best): Ghost<nat>,
    Ghost(exempt): Ghost<Option<Pending>>,
    marks: &mut Vec<bool>,
    stack: &mut Vec<State>,
    s: State,
)
    requires
        marking(costs, m, penalty, old(marks)@, old(stack)@, best, exempt),
        in_box(costs.spec_width(), costs.spec_height(), s.at),
        on_best_state(m, penalty, s),
    ensures
        marking(costs, m, penalty, final(marks)@, final(stack)@, best, exempt),
        if old(marks)@[slot(costs.spec_width(), s)] {
            final(marks)@ == old(marks)@ && final(stack)@ == old(stack)@
        } else {
            final(marks)@ == old(marks)@.update(slot(costs.spec_width(), s), true) && final(stack)@ == old(stack)@.push(s) && count_true(final(marks)@) == count_true(old(marks)@) + 1
        },
{
    let ghost w = costs.spec_width();
    let ghost h = costs.spec_height();
    let ghost marks0 = marks@;
    let ghost stack0 = stack@;
    let k = match costs.slot_of(s) {
        Some(k) => k,
        None => vstd::pervasive::unreached(),
    };
    if !marks[k] {
        marks.set(k, true);
        stack.push(s);
        proof {
            lemma_count_true_set(marks0, k as int);
            let marks1 = marks@;
            let stack1 = stack@;
            assert forall|u: State| in_box(w, h, u.at) && marks1[#[trigger] slot(w, u)] implies
                on_best_state(m, penalty, u) by {
                lemma_slot_range(w, h, u);
                if slot(w, u) == k {
                    lemma_slot_injective(w, h, u, s);
                }
            }
            assert forall|t: State, hd: TravelDirection|
                in_box(w, h, t.at) && marks1[slot(w, t)] && !stack1.contains(t) && !(exempt is Some
                    && exempt->0.state == t && hd.index() >= exempt->0.from) implies
                #[trigger] closed_at(costs, penalty, w, marks1, t, hd) by {
                lemma_slot_range(w, h, t);
                lemma_push_contains(stack0, s, t);
                if slot(w, t) == k {
                    lemma_slot_injective(w, h, t, s);
                }
                assert(closed_at(costs, penalty, w, marks0, t, hd));
                if tight(costs, penalty, pred(t, hd), t) {
                    costs.lemma_cost_in_box(pred(t, hd));
                    lemma_slot_range(w, h, pred(t, hd));
                }
            }
            assert forall|i: int| 0 <= i < stack1.len() implies in_box(
                w,
                h,
                (#[trigger] stack1[i]).at,
            ) && marks1[slot(w, stack1[i])] by {
                if i < stack0.len() {
                    assert(stack1[i] == stack0[i]);
                    lemma_slot_range(w, h, stack0[i]);
                }
            }
            if exempt is Some {
                lemma_slot_range(w, h, exempt->0.state);
            }
        }
    }
}

/// Looks at the state with heading `hd` before the state `t`, which was
/// taken from the waiting states: where the move from it to `t` is tight,
/// it is marked.
fn look_back(
    costs: &StateCosts,
    maze: &Maze,
    penalty: u32,
    Ghost(best): Ghost<nat>,
    marks: &mut Vec<bool>,
    stack: &mut Vec<State>,
    t: State,
    hd: TravelDirection,
)
    requires
        maze.wf(),
        costs.capped(penalty as nat),
        marking(
            costs,
            maze@,
            penalty as nat,
            old(marks)@,
            old(stack)@,
            best,
            Some(Pending { state: t, from: hd.index() }),
        ),
    ensures
        marking(
            costs,
            maze@,
            penalty as nat,
            final(marks)@,
            final(stack)@,
            best,
            Some(Pending { state: t, from: hd.index() + 1 }),
        ),
        grown(old(marks)@, final(marks)@),
        2 * count_true(final(marks)@) - final(stack)@.len() >= 2 * count_true(old(marks)@) - old(stack)@.len(),
        final(stack)@.len() >= old(stack)@.len(),
{
    let ghost m = maze@;
    let ghost pen = penalty as nat;
    let ghost w = costs.spec_width();
    let ghost h = costs.spec_height();
    let ghost marks0 = marks@;
    let ghost stack0 = stack@;
    let ghost exempt0 = Some(Pending { state: t, from: hd.index() });
    let ghost exempt1 = Some(Pending { state: t, from: hd.index() + 1 });
    let s = State { at: step_back(t.at, t.heading), heading: hd };
    proof {
        assert(s == pred(t, hd));
        assert(costs.fits(m, pen, s));
        assert(costs.fits(m, pen, t));
        lemma_slot_range(w, h, t);
        assert((1 + pen) * (4 * MAX_CELLS) <= 0x1_0000_0000 * 4_000_000) by (nonlinear_arith)
            requires
                pen < 0x1_0000_0000,
        ;
    }
    let is_tight: bool = match (costs.get(s), costs.get(t)) {
        (Some(cs), Some(ct)) => {
            let c: u64 = if hd == t.heading {
                1
            } else {
                1 + penalty as u64
            };
            cs + c == ct
        },
        _ => false,
    };
    proof {
        assert(is_tight == tight(costs, pen, s, t));
    }
    if is_tight {
        proof {
            costs.lemma_cost_in_box(s);
            let cs = costs.cost(s)->0;
            let ct = costs.cost(t)->0;
            let rt = choose|rt: Seq<TravelDirection>| arrives(m, rt, t) && route_cost(pen, rt) == ct;
            lemma_route_length(m, pen, w, h, rt);
            lemma_pred_on_best(m, pen, s, t, cs, ct);
            lemma_slot_range(w, h, s);
        }
        mark(costs, Ghost(m), Ghost(pen), Ghost(best), Ghost(exempt0), marks, stack, s);
    }
    proof {
        let marks1 = marks@;
        let stack1 = stack@;
        assert forall|u: State, d2: TravelDirection|
            in_box(w, h, u.at) && marks1[slot(w, u)] && !stack1.contains(u) && !(exempt1 is Some
                && exempt1->0.state == u && d2.index() >= exempt1->0.from) implies
            #[trigger] closed_at(costs, pen, w, marks1, u, d2) by {
            if u == t && d2 == hd {
            } else {
                assert(!(exempt0 is Some && exempt0->0.state == u && d2.index()
                    >= exempt0->0.from));
            }
        }
    }
}

/// Marks the states at the goal that cost `best`, and from them backwards
/// all states on best routes.
fn mark_best(costs: &StateCosts, maze: &Maze, penalty: u32, best: u64) -> (marks: Vec<bool>)
    requires
        maze.wf(),
        costs.wf(),
        costs.exact(maze@, penalty as nat),
        costs.capped(penalty as nat),
        costs.spec_width() == maze.spec_width(),
        costs.spec_height() == maze.spec_height(),
        is_least_cost(maze@, penalty as nat, maze@.goal, best as nat),
    ensures
        marking(costs, maze@, penalty as nat, marks@, Seq::empty(), best as nat, None),
        goal_marked(costs, maze@, costs.spec_width(), marks@, best as nat, 4),
{
    let ghost m = maze@;
    let ghost pen = penalty as nat;
    let ghost w = costs.spec_width();
    let ghost h = costs.spec_height();
    proof {
        maze.lemma_wf();
    }
    let n = costs.size();
    let mut marks: Vec<bool> = vec![false; n];
    let mut stack: Vec<State> = Vec::new();
    let goal = maze.goal();
    proof {
        assert forall|u: State| in_box(w, h, u.at) implies !marks@[#[trigger] slot(w, u)] by {
            lemma_slot_range(w, h, u);
        }
        assert forall|t: State, hd: TravelDirection|
            in_box(w, h, t.at) && marks@[slot(w, t)] && !stack@.contains(t) implies
            #[trigger] closed_at(costs, pen, w, marks@, t, hd) by {
            lemma_slot_range(w, h, t);
        }
    }
    let mut i: usize = 0;
    while i < 4
        invariant
            i <= 4,
            goal == m.goal,
            m == maze@,
            pen == penalty,
            w == costs.spec_width(),
            h == costs.spec_height(),
            marking(costs, m, pen, marks@, stack@, best as nat, None),
            goal_marked(costs, m, w, marks@, best as nat, i as int),
            forall|t: State| in_box(w, h, t.at) && marks@[#[trigger] slot(w, t)] ==> stack@.contains(t),
        decreases 4 - i,
    {
        let d = heading_at(i);
        let s = State { at: goal, heading: d };
        let ghost marks0 = marks@;
        let ghost stack0 = stack@;
        proof {
            assert(costs.fits(m, pen, s));
        }
        match costs.get(s) {
            Some(c) => {
                if c == best {
                    proof {
                        costs.lemma_cost_in_box(s);
                        let r = choose|r: Seq<TravelDirection>|
                            arrives(m, r, s) && route_cost(pen, r) == c;
                        assert(best_route(m, pen, r));
                        assert(r.take(r.len() as int) =~= r);
                        assert(route_state(m.start, r.take(r.len() as int)) == s);
                    }
                    mark(
                        costs,
                        Ghost(m),
                        Ghost(pen),
                        Ghost(best as nat),
                        Ghost(None),
                        &mut marks,
                        &mut stack,
                        s,
                    );
                }
            },
            None => {},
        }
        proof {
            assert forall|d2: TravelDirection|
                d2.index() < i + 1 && costs.cost(State { at: m.goal, heading: d2 }) == Some(
                    best as nat,
                ) implies marks@[#[trigger] slot(w, State { at: m.goal, heading: d2 })] by {
                let s2 = State { at: m.goal, heading: d2 };
                costs.lemma_cost_in_box(s2);
                lemma_slot_range(w, h, s2);
                lemma_slot_range(w, h, s);
                if d2.index() < i {
                    assert(marks0[slot(w, s2)]);
                } else {
                    assert(d2 == d);
                }
            }
            assert forall|t: State| in_box(w, h, t.at) && marks@[#[trigger] slot(w, t)] implies
                stack@.contains(t) by {
                lemma_slot_range(w, h, t);
                lemma_slot_range(w, h, s);
                if marks0[slot(w, t)] {
                    assert(stack0.contains(t));
                    lemma_push_contains(stack0, s, t);
                } else {
                    if slot(w, t) == slot(w, s) {
                        lemma_slot_injective(w, h, t, s);
                    }
                    lemma_push_contains(stack0, s, t);
                }
            }
        }
        i = i + 1;
    }
    while stack.len() > 0
        invariant
            maze.wf(),
            costs.capped(penalty as nat),
            m == maze@,
            pen == penalty,
            w == costs.spec_width(),
            h == costs.spec_height(),
            marking(costs, m, pen, marks@, stack@, best as nat, None),
            goal_marked(costs, m, w, marks@, best as nat, 4),
        decreases 2 * (marks@.len() - count_true(marks@)) + stack@.len(),
    {
        let ghost marks0 = marks@;
        let ghost stack0 = stack@;
        let t = match stack.pop() {
            Some(t) => t,
            None => vstd::pervasive::unreached(),
        };
        proof {
            assert(stack0[stack0.len() - 1] == t);
            assert(stack0 =~= stack@.push(t));
            let exempt = Some(Pending { state: t, from: 0 });
            assert forall|u: State, d2: TravelDirection|
                in_box(w, h, u.at) && marks@[slot(w, u)] && !stack@.contains(u) && !(exempt is Some
                    && exempt->0.state == u && d2.index() >= exempt->0.from) implies
                #[trigger] closed_at(costs, pen, w, marks@, u, d2) by {
                lemma_push_contains(stack@, t, u);
            }
            assert forall|i: int| 0 <= i < stack@.len() implies in_box(
                w,
                h,
                (#[trigger] stack@[i]).at,
            ) && marks@[slot(w, stack@[i])] by {
                assert(stack@[i] == stack0[i]);
            }
        }
        look_back(costs, maze, penalty, Ghost(best as nat), &mut marks, &mut stack, t, TravelDirection::N);
        look_back(costs, maze, penalty, Ghost(best as nat), &mut marks, &mut stack, t, TravelDirection::E);
        look_back(costs, maze, penalty, Ghost(best as nat), &mut marks, &mut stack, t, TravelDirection::S);
        look_back(costs, maze, penalty, Ghost(best as nat), &mut marks, &mut stack, t, TravelDirection::W);
        proof {
            lemma_count_true_bound(marks@);
            assert forall|d2: TravelDirection|
                d2.index() < 4 && costs.cost(State { at: m.goal, heading: d2 }) == Some(best as nat)
                implies marks@[#[trigger] slot(w, State { at: m.goal, heading: d2 })] by {
                let s2 = State { at: m.goal, heading: d2 };
                costs.lemma_cost_in_box(s2);
                lemma_slot_range(w, h, s2);
                assert(marks0[slot(w, s2)]);
            }
        }
    }
    proof {
        assert(stack@ =~= Seq::empty());
    }
    marks
}

/// A cell has one least cost.
pub proof fn lemma_least_cost_one(m: MazeView, penalty: nat, p: Point, a: nat, b: nat)
    requires
        is_least_cost(m, penalty, p, a),
        is_least_cost(m, penalty, p, b),
    ensures
        a == b,
{
    let ra = choose|r: Seq<TravelDirection>| reaches(m, r, p) && route_cost(penalty, r) == a;
    let rb = choose|r: Seq<TravelDirection>| reaches(m, r, p) && route_cost(penalty, r) == b;
    assert(reaches(m, ra, p));
    assert(reaches(m, rb, p));
}

/// Once no state waits, every state that a best route passes is marked.
proof fn lemma_complete(
    costs: &StateCosts,
    m: MazeView,
    penalty: nat,
    marks: Seq<bool>,
    best: nat,
    r: Seq<TravelDirection>,
    k: int,
)
    requires
        marking(costs, m, penalty, marks, Seq::empty(), best, None),
        goal_marked(costs, m, costs.spec_width(), marks, best, 4),
        best_route(m, penalty, r),
        0 <= k <= r.len(),
    ensures
        in_box(costs.spec_width(), costs.spec_height(), route_state(m.start, r.take(k)).at),
        marks[slot(costs.spec_width(), route_state(m.start, r.take(k)))],
        costs.cost(route_state(m.start, r.take(k))) == Some(route_cost(penalty, r.take(k))),
    decreases r.len() - k,
{
    let w = costs.spec_width();
    let h = costs.spec_height();
    let s = route_state(m.start, r.take(k));
    lemma_prefix_least(m, penalty, r, k);
    assert(costs.fits(m, penalty, s));
    lemma_prefix_valid(m, r, k);
    assert(arrives(m, r.take(k), s));
    lemma_least_state_cost_one(m, penalty, s, costs.cost(s)->0, route_cost(penalty, r.take(k)));
    costs.lemma_cost_in_box(s);
    if k == r.len() {
        assert(r.take(k) =~= r);
        lemma_least_cost_one(m, penalty, m.goal, best, route_cost(penalty, r));
        assert(s == State { at: m.goal, heading: s.heading });
        assert(s.heading.index() < 4);
    } else {
        lemma_complete(costs, m, penalty, marks, best, r, k + 1);
        let t = route_state(m.start, r.take(k + 1));
        let d = r[k];
        assert(r.take(k + 1) =~= r.take(k).push(d));
        lemma_route_push(m, penalty, r.take(k), d);
        assert(pred(t, s.heading) == s);
        assert(tight(costs, penalty, s, t));
        assert(!Seq::<State>::empty().contains(t));
        assert(closed_at(costs, penalty, w, marks, t, s.heading));
    }
}

/// Whether one of the four states at the cell `p` is marked.
pub open spec fn tile_marked(w: nat, marks: Seq<bool>, p: Point) -> bool {
    marks[slot(w, State { at: p, heading: TravelDirection::N })] || marks[slot(
        w,
        State { at: p, heading: TravelDirection::E },
    )] || marks[slot(w, State { at: p, heading: TravelDirection::S })] || marks[slot(
        w,
        State { at: p, heading: TravelDirection::W },
    )]
}

/// Once no state waits, the cells with a marked state are the cells that
/// best routes pass.
proof fn lemma_tiles(
    costs: &StateCosts,
    m: MazeView,
    penalty: nat,
    marks: Seq<bool>,
    best: nat,
    p: Point,
)
    requires
        marking(costs, m, penalty, marks, Seq::empty(), best, None),
        goal_marked(costs, m, costs.spec_width(), marks, best, 4),
    ensures
        on_best_route(m, penalty, p) <==> (in_box(costs.spec_width(), costs.spec_height(), p)
            && tile_marked(costs.spec_width(), marks, p)),
{
    let w = costs.spec_width();
    let h = costs.spec_height();
    if on_best_route(m, penalty, p) {
        let (r, k) = choose|r: Seq<TravelDirection>, k: int|
            best_route(m, penalty, r) && 0 <= k <= r.len() && (#[trigger] route_state(
                m.start,
                r.take(k),
            )).at == p;
        lemma_complete(costs, m, penalty, marks, best, r, k);
        let s = route_state(m.start, r.take(k));
        assert(s == State { at: p, heading: s.heading });
    }
    if in_box(w, h, p) && tile_marked(w, marks, p) {
        let s = if marks[slot(w, State { at: p, heading: TravelDirection::N })] {
            State { at: p, heading: TravelDirection::N }
        } else if marks[slot(w, State { at: p, heading: TravelDirection::E })] {
            State { at: p, heading: TravelDirection::E }
        } else if marks[slot(w, State { at: p, heading: TravelDirection::S })] {
            State { at: p, heading: TravelDirection::S }
        } else {
            State { at: p, heading: TravelDirection::W }
        };
        assert(on_best_state(m, penalty, s));
        let (r, k) = choose|r: Seq<TravelDirection>, k: int|
            best_route(m, penalty, r) && 0 <= k <= r.len() && #[trigger] route_state(
                m.start,
                r.take(k),
            ) == s;
        assert(route_state(m.start, r.take(k)).at == p);
    }
}

/// Whether `r` holds the cells that best routes through the maze pass,
/// each once; `None` where no route leads to the goal.
pub open spec fn tiles_are(m: MazeView, penalty: nat, r: Option<Vec<Point>>) -> bool {
    match r {
        Some(v) => {
            &&& reachable(m, m.goal)
            &&& v@.no_duplicates()
            &&& v@.len() <= MAX_CELLS
            &&& forall|p: Point| #[trigger] v@.contains(p) <==> on_best_route(m, penalty, p)
        },
        None => !reachable(m, m.goal),
    }
}

/// The cells that lie on at least one route of least cost from the start
/// to the goal, row by row, each once. `None` where no route leads to the
/// goal.
pub fn find_all_min_cost_tiles(maze: &Maze, penalty: u32) -> (r: Option<Vec<Point>>)
    requires
        maze.wf(),
    ensures
        tiles_are(maze@, penalty as nat, r),
{
    let ghost m = maze@;
    let ghost pen = penalty as nat;
    let costs = settle(maze, penalty);
    let best = match best_at(maze, Ghost(pen), &costs, maze.goal()) {
        Some(b) => b,
        None => {
            return None;
        },
    };
    let marks = mark_best(&costs, maze, penalty, best);
    let h: usize = maze.height();
    let w: usize = maze.width();
    proof {
        maze.lemma_wf();
        let r0 = choose|r0: Seq<TravelDirection>|
            reaches(m, r0, m.goal) && route_cost(pen, r0) == best;
        assert(reaches(m, r0, m.goal));
    }
    let mut v: Vec<Point> = Vec::new();
    let mut y: usize = 0;
    while y < h
        invariant
            y <= h,
            h * w <= MAX_CELLS,
            costs.wf(),
            w == costs.spec_width(),
            h == costs.spec_height(),
            marks.len() == 4 * (h * w),
            v@.no_duplicates(),
            v.len() <= y * w,
            forall|p: Point| #[trigger]
                v@.contains(p) <==> (in_box(w as nat, h as nat, p) && tile_marked(
                    w as nat,
                    marks@,
                    p,
                ) && p.y < y),
        decreases h - y,
    {
        let mut x: usize = 0;
        while x < w
            invariant
                y < h,
                x <= w,
                h * w <= MAX_CELLS,
                costs.wf(),
                w == costs.spec_width(),
                h == costs.spec_height(),
                marks.len() == 4 * (h * w),
                v@.no_duplicates(),
                v.len() <= y * w + x,
                forall|p: Point| #[trigger]
                    v@.contains(p) <==> (in_box(w as nat, h as nat, p) && tile_marked(
                        w as nat,
                        marks@,
                        p,
                    ) && (p.y < y || (p.y == y && p.x < x))),
            decreases w - x,
        {
            let p = Point { x: x as i128, y: y as i128 };
            let mut on: bool = false;
            let mut i: usize = 0;
            while i < 4
                invariant
                    i <= 4,
                    costs.wf(),
                    w == costs.spec_width(),
                    h == costs.spec_height(),
                    marks.len() == 4 * (h * w),
                    in_box(w as nat, h as nat, p),
                    on == exists|d: TravelDirection|
                        d.index() < i && #[trigger] marks@[slot(
                            w as nat,
                            State { at: p, heading: d },
                        )],
                decreases 4 - i,
            {
                let d = heading_at(i);
                let ghost was = on;
                match costs.slot_of(State { at: p, heading: d }) {
                    Some(k) => {
                        if marks[k] {
                            on = true;
                        }
                    },
                    None => {},
                }
                proof {
                    let here = marks@[slot(w as nat, State { at: p, heading: d })];
                    assert(on == (was || here));
                    if was {
                        let d0 = choose|d0: TravelDirection|
                            d0.index() < i && #[trigger] marks@[slot(
                                w as nat,
                                State { at: p, heading: d0 },
                            )];
                        assert(d0.index() < i + 1);
                    }
                    if !on {
                        assert forall|d1: TravelDirection| d1.index() < i + 1 implies !#[trigger] marks@[slot(
                            w as nat,
                            State { at: p, heading: d1 },
                        )] by {
                            if d1.index() == i {
                                assert(d1 == d);
                            }
                        }
                    }
                }
                i = i + 1;
            }
            proof {
                assert(on == tile_marked(w as nat, marks@, p)) by {
                    if on {
                        let d0 = choose|d0: TravelDirection|
                            d0.index() < 4 && #[trigger] marks@[slot(
                                w as nat,
                                State { at: p, heading: d0 },
                            )];
                        assert(d0 == TravelDirection::N || d0 == TravelDirection::E || d0
                            == TravelDirection::S || d0 == TravelDirection::W);
                    }
                    if tile_marked(w as nat, marks@, p) {
                        assert(TravelDirection::N.index() < 4 && TravelDirection::E.index() < 4
                            && TravelDirection::S.index() < 4 && TravelDirection::W.index() < 4);
                    }
                }
            }
            let ghost before = v@;
            proof {
                assert(!before.contains(p));
            }
            if on {
                v.push(p);
            }
            proof {
                assert forall|q: Point| #[trigger]
                    v@.contains(q) <==> (in_box(w as nat, h as nat, q) && tile_marked(
                        w as nat,
                        marks@,
                        q,
                    ) && (q.y < y || (q.y == y && q.x < x + 1))) by {
                    if on {
                        lemma_push_contains(before, p, q);
                    }
                    if q.y == y && q.x == x {
                        assert(q == p);
                    }
                }
            }
            x = x + 1;
        }
        proof {
            assert((y + 1) * w == y * w + w) by (nonlinear_arith);
        }
        y = y + 1;
    }
    proof {
        assert(v.len() <= h * w);
        assert forall|p: Point| #[trigger] v@.contains(p) <==> on_best_route(m, pen, p) by {
            lemma_tiles(&costs, m, pen, marks@, best as nat, p);
        }
    }
    Some(v)
}

} // verus!
