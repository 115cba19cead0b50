//! Best-first search over the states (cell, heading) of a maze.
//!
//! The search settles states in the order of their cost. It keeps the best
//! known cost of every state, a flag for the states that are settled, and
//! the list of the entries that wait to be settled. With every cost it
//! keeps, as ghost data, a route that has that cost.

use crate::maze::Maze;
use crate::maze::MazeView;
use crate::maze::MAX_CELLS;
use crate::route::arrives;
use crate::route::boxed;
use crate::route::is_least_state_cost;
use crate::route::lemma_route_push;
use crate::route::move_cost;
use crate::route::route_cost;
use crate::route::route_state;
use crate::route::route_valid;
use crate::route::step;
use crate::route::State;
use crate::route::TravelDirection;
use crate::util::point::Point;
use vstd::prelude::*;

verus! {

/// The cost that marks a state that no route has reached.
pub const UNREACHED: u64 = u64::MAX;

/// Whether `p` lies in the box of `w` columns and `h` rows.
pub open spec fn in_box(w: nat, h: nat, p: Point) -> bool {
    0 <= p.x < w && 0 <= p.y < h
}

/// The place of a state in the tables of the search.
pub open spec fn slot(w: nat, s: State) -> int {
    (s.at.y * w + s.at.x) * 4 + s.heading.index()
}

/// The number of `true` values in a sequence.
pub open spec fn count_true(s: Seq<bool>) -> nat
    decreases s.len(),
{
    if s.len() == 0 {
        0
    } else {
        count_true(s.drop_last()) + if s.last() {
            1nat
        } else {
            0nat
        }
    }
}

/// A table has no more true entries than entries.
pub proof fn lemma_count_true_bound(s: Seq<bool>)
    ensures
        count_true(s) <= s.len(),
    decreases s.len(),
{
    if s.len() > 0 {
        lemma_count_true_bound(s.drop_last());
    }
}

/// A table with a false entry is not full, and setting that entry adds
/// one true entry.
pub proof fn lemma_count_true_set(s: Seq<bool>, i: int)
    requires
        0 <= i < s.len(),
        !s[i],
    ensures
        count_true(s.update(i, true)) == count_true(s) + 1,
        count_true(s) < s.len(),
    decreases s.len(),
{
    if i == s.len() - 1 {
        assert(s.update(i, true).drop_last() =~= s.drop_last());
        lemma_count_true_bound(s.drop_last());
    } else {
        assert(s.update(i, true).drop_last() =~= s.drop_last().update(i, true));
        lemma_count_true_set(s.drop_last(), i);
    }
}

/// The place of a state of the box lies within the table.
pub proof fn lemma_slot_range(w: nat, h: nat, s: State)
    requires
        in_box(w, h, s.at),
    ensures
        0 <= slot(w, s) < 4 * (h * w),
{
    let x = s.at.x as int;
    let y = s.at.y as int;
    assert(0 <= y * w + x < h * w) by (nonlinear_arith)
        requires
            0 <= x < w,
            0 <= y < h,
    ;
}

/// Two states of the box with one place in the table are one state.
pub proof fn lemma_slot_injective(w: nat, h: nat, s: State, t: State)
    requires
        in_box(w, h, s.at),
        in_box(w, h, t.at),
        slot(w, s) == slot(w, t),
    ensures
        s == t,
{
    let a = s.at.y * w + s.at.x;
    let b = t.at.y * w + t.at.x;
    assert(a == b && s.heading.index() == t.heading.index());
    let (x1, y1, x2, y2) = (s.at.x as int, s.at.y as int, t.at.x as int, t.at.y as int);
    assert(y1 == y2 && x1 == x2) by (nonlinear_arith)
        requires
            y1 * w + x1 == y2 * w + x2,
            0 <= x1 < w,
            0 <= x2 < w,
            0 <= y1,
            0 <= y2,
    ;
}

/// What remains of a sequence when the element at `i` is replaced by the
/// last one and the last place is dropped.
pub proof fn lemma_swap_remove<T>(s: Seq<T>, i: int)
    requires
        0 <= i < s.len(),
    ensures
        forall|j: int|
            0 <= j < s.len() && j != i ==> s.update(i, s.last()).drop_last().contains(
                #[trigger] s[j],
            ),
        forall|j: int|
            0 <= j < s.len() - 1 ==> s.contains(#[trigger] s.update(i, s.last()).drop_last()[j]),
{
    let t = s.update(i, s.last()).drop_last();
    assert forall|j: int| 0 <= j < s.len() && j != i implies t.contains(#[trigger] s[j]) by {
        if j == s.len() - 1 {
            assert(t[i] == s[j]);
        } else {
            assert(t[j] == s[j]);
        }
    }
    assert forall|j: int| 0 <= j < s.len() - 1 implies s.contains(#[trigger] t[j]) by {
        if j == i {
            assert(s[s.len() - 1] == t[j]);
        } else {
            assert(s[j] == t[j]);
        }
    }
}

/// An entry of the waiting list: a state and the cost it was reached with.
#[derive(Debug, Clone, Copy, PartialEq, Eq, Structural)]
pub struct Entry {
    pub key: u64,
    pub state: State,
}

/// The position of an entry with the least key.
pub fn min_index(open: &Vec<Entry>) -> (i: usize)
    requires
        open.len() > 0,
    ensures
        i < open.len(),
        forall|j: int| 0 <= j < open.len() ==> open[i as int].key <= (#[trigger] open[j]).key,
{
    let mut best: usize = 0;
    let mut j: usize = 1;
    while j < open.len()
        invariant
            best < open.len(),
            1 <= j <= open.len(),
            forall|k: int| 0 <= k < j ==> open[best as int].key <= (#[trigger] open[k]).key,
        decreases open.len() - j,
    {
        if open[j].key < open[best].key {
            best = j;
        }
        j = j + 1;
    }
    best
}

/// A state that was settled a moment ago: its moves with an index of
/// `from` or more are still to be looked at.
pub ghost struct Pending {
    pub state: State,
    pub from: int,
}

/// The tables of a search in progress.
pub struct Search {
    w: usize,
    h: usize,
    penalty: u32,
    dist: Vec<u64>,
    closed: Vec<bool>,
    open: Vec<Entry>,
    routes: Ghost<Seq<Seq<TravelDirection>>>,
    floor: Ghost<nat>,
    settled: Ghost<nat>,
}

/// The state in which every route starts.
pub open spec fn start_state(m: MazeView) -> State {
    State { at: m.start, heading: TravelDirection::E }
}

/// The cost that the table `dist` holds for the state `s`.
pub open spec fn cost_in(w: nat, dist: Seq<u64>, s: State) -> nat {
    dist[slot(w, s)] as nat
}

/// Every known cost is the cost of the route kept with it.
pub open spec fn witnessed(
    m: MazeView,
    pen: nat,
    w: nat,
    h: nat,
    dist: Seq<u64>,
    routes: Seq<Seq<TravelDirection>>,
) -> bool {
    forall|s: State|
        in_box(w, h, s.at) && dist[#[trigger] slot(w, s)] < UNREACHED ==> arrives(
            m,
            routes[slot(w, s)],
            s,
        ) && route_cost(pen, routes[slot(w, s)]) == dist[slot(w, s)]
}

/// Whether the move `dir` from `s` cannot improve the cost of its target.
pub open spec fn edge_relaxed(
    m: MazeView,
    pen: nat,
    w: nat,
    dist: Seq<u64>,
    s: State,
    dir: TravelDirection,
) -> bool {
    m.is_open(step(s.at, dir)) ==> cost_in(w, dist, State { at: step(s.at, dir), heading: dir })
        <= cost_in(w, dist, s) + move_cost(pen, s.heading, dir)
}

/// No move from a settled state can improve a cost; the moves of a
/// pending state that are still to be looked at are left out.
pub open spec fn relaxed(
    m: MazeView,
    pen: nat,
    w: nat,
    h: nat,
    dist: Seq<u64>,
    closed: Seq<bool>,
    exempt: Option<Pending>,
) -> bool {
    forall|s: State, dir: TravelDirection|
        in_box(w, h, s.at) && closed[slot(w, s)] && !(exempt is Some && exempt->0.state == s
            && dir.index() >= exempt->0.from) ==> #[trigger] edge_relaxed(m, pen, w, dist, s, dir)
}

/// Every reached state that is not settled waits with its cost.
pub open spec fn frontier_complete(
    w: nat,
    h: nat,
    dist: Seq<u64>,
    closed: Seq<bool>,
    open: Seq<Entry>,
) -> bool {
    forall|s: State|
        in_box(w, h, s.at) && !closed[#[trigger] slot(w, s)] && dist[slot(w, s)] < UNREACHED
            ==> open.contains(Entry { key: dist[slot(w, s)], state: s })
}

/// Every waiting entry is for a state of the box, with a cost that is
/// not below the best known one nor below the last settled one.
pub open spec fn entries_sound(w: nat, h: nat, dist: Seq<u64>, open: Seq<Entry>, floor: nat) -> bool {
    forall|i: int|
        0 <= i < open.len() ==> {
            let e = #[trigger] open[i];
            &&& in_box(w, h, e.state.at)
            &&& cost_in(w, dist, e.state) <= e.key < UNREACHED
            &&& floor <= e.key
        }
}

/// Settled states cost at most as much as the last settled one, and
/// the others at least as much; a settled state was reached.
pub open spec fn ordered(w: nat, h: nat, dist: Seq<u64>, closed: Seq<bool>, floor: nat) -> bool {
    forall|s: State|
        in_box(w, h, s.at) ==> if closed[#[trigger] slot(w, s)] {
            dist[slot(w, s)] <= floor && dist[slot(w, s)] < UNREACHED
        } else {
            floor <= dist[slot(w, s)]
        }
}

/// No known cost exceeds what as many moves as there are settled states
/// can cost.
pub open spec fn bounded(w: nat, h: nat, dist: Seq<u64>, pen: nat, settled: nat) -> bool {
    forall|s: State|
        in_box(w, h, s.at) && dist[#[trigger] slot(w, s)] < UNREACHED ==> dist[slot(w, s)] <= (1
            + pen) * settled
}

impl Search {
    /// Whether `s` is a state of the box that the search works in.
    pub closed spec fn valid(&self, s: State) -> bool {
        in_box(self.w as nat, self.h as nat, s.at)
    }

    /// The place of the state `s` in the tables.
    pub closed spec fn at(&self, s: State) -> int {
        slot(self.w as nat, s)
    }

    /// The best known cost of `s`.
    pub closed spec fn d(&self, s: State) -> nat {
        cost_in(self.w as nat, self.dist@, s)
    }

    /// Whether `s` is settled.
    pub closed spec fn done(&self, s: State) -> bool {
        self.closed@[self.at(s)]
    }

    /// The turn penalty.
    pub closed spec fn pen(&self) -> nat {
        self.penalty as nat
    }

    /// The number of columns of the box.
    pub closed spec fn width(&self) -> nat {
        self.w as nat
    }

    /// The number of rows of the box.
    pub closed spec fn height(&self) -> nat {
        self.h as nat
    }

    /// What holds of the tables between two steps of the search.
    pub closed spec fn inv(&self, m: MazeView, exempt: Option<Pending>) -> bool {
        let w = self.w as nat;
        let h = self.h as nat;
        &&& self.h * self.w <= MAX_CELLS
        &&& self.dist@.len() == 4 * (self.h * self.w)
        &&& self.closed@.len() == 4 * (self.h * self.w)
        &&& self.routes@.len() == 4 * (self.h * self.w)
        &&& boxed(m, w, h)
        &&& m.is_open(m.start)
        &&& self.d(start_state(m)) == 0
        &&& self.settled@ == count_true(self.closed@)
        &&& witnessed(m, self.pen(), w, h, self.dist@, self.routes@)
        &&& relaxed(m, self.pen(), w, h, self.dist@, self.closed@, exempt)
        &&& frontier_complete(w, h, self.dist@, self.closed@, self.open@)
        &&& entries_sound(w, h, self.dist@, self.open@, self.floor@)
        &&& ordered(w, h, self.dist@, self.closed@, self.floor@)
        &&& bounded(w, h, self.dist@, self.pen(), self.settled@)
        &&& match exempt {
            Some(p) => {
                &&& self.valid(p.state)
                &&& self.done(p.state)
                &&& self.d(p.state) == self.floor@
                &&& self.d(p.state) + 1 + self.pen() <= (1 + self.pen()) * self.settled@
                &&& 0 <= p.from <= 4
            },
            None => true,
        }
    }

    /// How much work is left at most.
    pub closed spec fn fuel(&self) -> int {
        5 * (4 * (self.h * self.w) - self.settled@) + self.open@.len()
    }

    /// The number of entries of the open list.
    pub closed spec fn waiting(&self) -> nat {
        self.open@.len()
    }

    /// The place of `s` in the tables.
    fn slot_of(&self, s: State) -> (i: usize)
        requires
            self.valid(s),
            self.h * self.w <= MAX_CELLS,
        ensures
            i == self.at(s),
            i < 4 * (self.h * self.w),
    {
        proof {
            lemma_slot_range(self.w as nat, self.h as nat, s);
            let x = s.at.x as int;
            let y = s.at.y as int;
            let w = self.w as int;
            let h = self.h as int;
            assert(0 <= y * w && y * w + x < h * w) by (nonlinear_arith)
                requires
                    0 <= x < w,
                    0 <= y < h,
            ;
        }
        let x: usize = s.at.x as usize;
        let y: usize = s.at.y as usize;
        (y * self.w + x) * 4 + s.heading.ordinal()
    }

    /// The tables before the first step: only the start is reached.
    fn new(maze: &Maze, penalty: u32) -> (r: Search)
        requires
            maze.wf(),
        ensures
            r.inv(maze@, None),
            r.pen() == penalty,
            r.width() == maze.spec_width(),
            r.height() == maze.spec_height(),
    {
        proof {
            maze.lemma_wf();
        }
        let w: usize = maze.width();
        let h: usize = maze.height();
        let n: usize = 4 * (h * w);
        let mut r = Search {
            w,
            h,
            penalty,
            dist: vec![UNREACHED; n],
            closed: vec![false; n],
            open: Vec::new(),
            routes: Ghost(Seq::new(n as nat, |i: int| Seq::empty())),
            floor: Ghost(0),
            settled: Ghost(0),
        };
        let s0 = State { at: maze.start(), heading: TravelDirection::E };
        let k = r.slot_of(s0);
        r.dist.set(k, 0);
        r.open.push(Entry { key: 0, state: s0 });
        proof {
            let m = maze@;
            assert(count_true(r.closed@) == 0) by {
                lemma_count_all_false(r.closed@);
            }
            assert forall|s: State|
                in_box(w as nat, h as nat, s.at) && r.dist@[#[trigger] slot(w as nat, s)]
                    < UNREACHED implies s == s0 by {
                lemma_slot_range(w as nat, h as nat, s);
                lemma_slot_injective(w as nat, h as nat, s, s0);
            }
            assert(r.routes@[k as int] =~= Seq::<TravelDirection>::empty());
            assert(r.open@[0] == Entry { key: 0, state: s0 });
            assert forall|s: State| in_box(w as nat, h as nat, s.at) implies !r.closed@[#[trigger] slot(
                w as nat,
                s,
            )] by {
                lemma_slot_range(w as nat, h as nat, s);
            }
        }
        r
    }

    /// Takes the entry with the least cost from the waiting list. Where its
    /// state is settled already, nothing else changes. Otherwise the state
    /// is settled now and returned: its moves are still to be looked at.
    fn close_next(&mut self, Ghost(m): Ghost<MazeView>) -> (r: Option<State>)
        requires
            old(self).inv(m, None),
            old(self).waiting() > 0,
        ensures
            final(self).pen() == old(self).pen(),
            final(self).width() == old(self).width(),
            final(self).height() == old(self).height(),
            match r {
                None => final(self).inv(m, None) && final(self).fuel() < old(self).fuel(),
                Some(s) => final(self).inv(m, Some(Pending { state: s, from: 0 }))
                    && final(self).fuel() + 4 < old(self).fuel(),
            },
    {
        let ghost w = self.w as nat;
        let ghost h = self.h as nat;
        let ghost before = self.open@;
        let i = min_index(&self.open);
        let e = self.open.swap_remove(i);
        let s = e.state;
        proof {
            lemma_swap_remove(before, i as int);
            assert(before[i as int] == e);
            lemma_count_true_bound(self.closed@);
        }
        let k = self.slot_of(s);
        if self.closed[k] {
            proof {
                assert forall|t: State|
                    in_box(w, h, t.at) && !self.closed@[#[trigger] slot(w, t)] && self.dist@[slot(
                        w,
                        t,
                    )] < UNREACHED implies self.open@.contains(
                    Entry { key: self.dist@[slot(w, t)], state: t },
                ) by {
                    lemma_slot_range(w, h, t);
                    let want = Entry { key: self.dist@[slot(w, t)], state: t };
                    let j = choose|j: int| 0 <= j < before.len() && before[j] == want;
                    assert(j != i);
                }
                assert forall|j: int| 0 <= j < self.open@.len() implies {
                    let e = #[trigger] self.open@[j];
                    &&& in_box(w, h, e.state.at)
                    &&& cost_in(w, self.dist@, e.state) <= e.key < UNREACHED
                    &&& self.floor@ <= e.key
                } by {
                    let jj = choose|jj: int| 0 <= jj < before.len() && before[jj] == self.open@[j];
                }
            }
            None
        } else {
            let ghost dist = self.dist@;
            let ghost was_closed = self.closed@;
            let ghost was_settled = self.settled@;
            self.closed.set(k, true);
            self.floor = Ghost(e.key as nat);
            self.settled = Ghost(was_settled + 1);
            proof {
                let pen = self.penalty as nat;
                let closed = self.closed@;
                lemma_count_true_set(was_closed, k as int);
                // The entry taken out holds the best known cost of its state.
                let own = Entry { key: dist[slot(w, s)], state: s };
                let jo = choose|j: int| 0 <= j < before.len() && before[j] == own;
                assert(before[jo].key >= e.key);
                assert(e.key == dist[slot(w, s)]);
                assert forall|t: State| in_box(w, h, t.at) implies if closed[#[trigger] slot(w, t)] {
                    dist[slot(w, t)] <= e.key && dist[slot(w, t)] < UNREACHED
                } else {
                    e.key <= dist[slot(w, t)]
                } by {
                    lemma_slot_range(w, h, t);
                    if t != s {
                        if slot(w, t) == slot(w, s) {
                            lemma_slot_injective(w, h, t, s);
                        }
                        if !was_closed[slot(w, t)] && dist[slot(w, t)] < UNREACHED {
                            let want = Entry { key: dist[slot(w, t)], state: t };
                            let j = choose|j: int| 0 <= j < before.len() && before[j] == want;
                            assert(before[j].key >= e.key);
                        }
                    }
                }
                assert forall|t: State|
                    in_box(w, h, t.at) && !closed[#[trigger] slot(w, t)] && dist[slot(w, t)]
                        < UNREACHED implies self.open@.contains(
                    Entry { key: dist[slot(w, t)], state: t },
                ) by {
                    lemma_slot_range(w, h, t);
                    let want = Entry { key: dist[slot(w, t)], state: t };
                    let j = choose|j: int| 0 <= j < before.len() && before[j] == want;
                    assert(j != i);
                }
                assert forall|j: int| 0 <= j < self.open@.len() implies {
                    let e2 = #[trigger] self.open@[j];
                    &&& in_box(w, h, e2.state.at)
                    &&& cost_in(w, dist, e2.state) <= e2.key < UNREACHED
                    &&& e.key <= e2.key
                } by {
                    let jj = choose|jj: int| 0 <= jj < before.len() && before[jj] == self.open@[j];
                    assert(before[jj].key >= e.key);
                }
                assert forall|t: State, dir: TravelDirection|
                    in_box(w, h, t.at) && closed[slot(w, t)] && !(t == s && dir.index()
                        >= 0) implies #[trigger] edge_relaxed(m, pen, w, dist, t, dir) by {
                    lemma_slot_range(w, h, t);
                    if slot(w, t) == slot(w, s) {
                        lemma_slot_injective(w, h, t, s);
                    }
                }
                assert forall|t: State|
                    in_box(w, h, t.at) && dist[#[trigger] slot(w, t)] < UNREACHED implies dist[slot(
                        w,
                        t,
                    )] <= (1 + pen) * (was_settled + 1) by {
                    assert((1 + pen) * was_settled <= (1 + pen) * (was_settled + 1))
                        by (nonlinear_arith);
                }
                assert(dist[slot(w, s)] + 1 + pen <= (1 + pen) * (was_settled + 1)) by {
                    assert((1 + pen) * was_settled + (1 + pen) == (1 + pen) * (was_settled + 1))
                        by (nonlinear_arith);
                }
            }
            Some(s)
        }
    }

    /// Looks at the move `dir` from the state `s` that was settled last:
    /// where it enters an open cell more cheaply than any route known so
    /// far, the cost of its target is lowered and the target waits with it.
    fn relax(&mut self, maze: &Maze, s: State, dir: TravelDirection)
        requires
            maze.wf(),
            old(self).inv(maze@, Some(Pending { state: s, from: dir.index() })),
        ensures
            final(self).inv(maze@, Some(Pending { state: s, from: dir.index() + 1 })),
            final(self).fuel() <= old(self).fuel() + 1,
            final(self).pen() == old(self).pen(),
            final(self).width() == old(self).width(),
            final(self).height() == old(self).height(),
    {
        let ghost m = maze@;
        let ghost w = self.w as nat;
        let ghost h = self.h as nat;
        let ghost pen = self.penalty as nat;
        let ghost dist0 = self.dist@;
        let ghost open0 = self.open@;
        let ghost routes0 = self.routes@;
        let ghost closed = self.closed@;
        let ghost floor = self.floor@;
        let ghost settled = self.settled@;
        let q = neighbor(s.at, dir);
        if maze.is_open(q) {
            let t = State { at: q, heading: dir };
            proof {
                assert(m.cells.contains_key(q));
                lemma_slot_range(w, h, s);
                lemma_slot_range(w, h, t);
                lemma_count_true_bound(closed);
                assert((1 + pen) * settled <= 0x1_0000_0000 * 4_000_000) by (nonlinear_arith)
                    requires
                        pen < 0x1_0000_0000,
                        settled <= 4_000_000,
                ;
            }
            let ks = self.slot_of(s);
            let kt = self.slot_of(t);
            let c: u64 = if s.heading == dir {
                1
            } else {
                1 + self.penalty as u64
            };
            let cand: u64 = self.dist[ks] + c;
            if cand < self.dist[kt] {
                self.dist.set(kt, cand);
                self.routes = Ghost(routes0.update(kt as int, routes0[ks as int].push(dir)));
                self.open.push(Entry { key: cand, state: t });
                proof {
                    let dist1 = self.dist@;
                    let routes1 = self.routes@;
                    let open1 = self.open@;
                    assert(!closed[kt as int]);
                    assert(t != s);
                    lemma_route_push(m, pen, routes0[ks as int], dir);
                    assert forall|u: State|
                        in_box(w, h, u.at) && dist1[#[trigger] slot(w, u)] < UNREACHED implies arrives(
                        m,
                        routes1[slot(w, u)],
                        u,
                    ) && route_cost(pen, routes1[slot(w, u)]) == dist1[slot(w, u)] by {
                        lemma_slot_range(w, h, u);
                        if slot(w, u) == kt {
                            lemma_slot_injective(w, h, u, t);
                        }
                    }
                    assert forall|u: State, d2: TravelDirection|
                        in_box(w, h, u.at) && closed[slot(w, u)] && !(u == s && d2.index()
                            >= dir.index() + 1) implies #[trigger] edge_relaxed(
                        m,
                        pen,
                        w,
                        dist1,
                        u,
                        d2,
                    ) by {
                        lemma_slot_range(w, h, u);
                        let v = State { at: step(u.at, d2), heading: d2 };
                        if m.is_open(v.at) {
                            assert(m.cells.contains_key(v.at));
                            lemma_slot_range(w, h, v);
                            if u == s && d2 == dir {
                            } else {
                                assert(edge_relaxed(m, pen, w, dist0, u, d2));
                            }
                        }
                    }
                    assert forall|u: State|
                        in_box(w, h, u.at) && !closed[#[trigger] slot(w, u)] && dist1[slot(w, u)]
                            < UNREACHED implies open1.contains(
                        Entry { key: dist1[slot(w, u)], state: u },
                    ) by {
                        lemma_slot_range(w, h, u);
                        let want = Entry { key: dist1[slot(w, u)], state: u };
                        if slot(w, u) == kt {
                            lemma_slot_injective(w, h, u, t);
                            assert(open1[open0.len() as int] == want);
                        } else {
                            let j = choose|j: int| 0 <= j < open0.len() && open0[j] == want;
                            assert(open1[j] == want);
                        }
                    }
                    assert forall|j: int| 0 <= j < open1.len() implies {
                        let e = #[trigger] open1[j];
                        &&& in_box(w, h, e.state.at)
                        &&& cost_in(w, dist1, e.state) <= e.key < UNREACHED
                        &&& floor <= e.key
                    } by {
                        if j < open0.len() {
                            assert(open1[j] == open0[j]);
                            lemma_slot_range(w, h, open0[j].state);
                        }
                    }
                    assert forall|u: State| in_box(w, h, u.at) implies if closed[#[trigger] slot(
                        w,
                        u,
                    )] {
                        dist1[slot(w, u)] <= floor && dist1[slot(w, u)] < UNREACHED
                    } else {
                        floor <= dist1[slot(w, u)]
                    } by {
                        lemma_slot_range(w, h, u);
                    }
                    assert forall|u: State|
                        in_box(w, h, u.at) && dist1[#[trigger] slot(w, u)] < UNREACHED implies dist1[slot(
                            w,
                            u,
                        )] <= (1 + pen) * settled by {
                        lemma_slot_range(w, h, u);
                    }
                    lemma_slot_range(w, h, start_state(m));
                }
            } else {
                proof {
                    assert forall|u: State, d2: TravelDirection|
                        in_box(w, h, u.at) && closed[slot(w, u)] && !(u == s && d2.index()
                            >= dir.index() + 1) implies #[trigger] edge_relaxed(
                        m,
                        pen,
                        w,
                        dist0,
                        u,
                        d2,
                    ) by {
                        if u == s && d2 == dir {
                        } else {
                            assert(edge_relaxed(m, pen, w, dist0, u, d2));
                        }
                    }
                }
            }
        } else {
            proof {
                assert forall|u: State, d2: TravelDirection|
                    in_box(w, h, u.at) && closed[slot(w, u)] && !(u == s && d2.index()
                        >= dir.index() + 1) implies #[trigger] edge_relaxed(m, pen, w, dist0, u, d2) by {
                    if u == s && d2 == dir {
                    } else {
                        assert(edge_relaxed(m, pen, w, dist0, u, d2));
                    }
                }
            }
        }
    }

    /// Settles states until none waits.
    fn run(&mut self, maze: &Maze)
        requires
            maze.wf(),
            old(self).inv(maze@, None),
        ensures
            final(self).inv(maze@, None),
            final(self).waiting() == 0,
            final(self).pen() == old(self).pen(),
            final(self).width() == old(self).width(),
            final(self).height() == old(self).height(),
    {
        while self.open.len() > 0
            invariant
                maze.wf(),
                self.inv(maze@, None),
                self.pen() == old(self).pen(),
                self.width() == old(self).width(),
                self.height() == old(self).height(),
            decreases self.fuel(),
        {
            match self.close_next(Ghost(maze@)) {
                None => {},
                Some(s) => {
                    self.relax(maze, s, TravelDirection::N);
                    self.relax(maze, s, TravelDirection::E);
                    self.relax(maze, s, TravelDirection::S);
                    self.relax(maze, s, TravelDirection::W);
                },
            }
            proof {
                lemma_count_true_bound(self.closed@);
            }
        }
    }
}

impl Search {
    /// Once nothing waits, every route ends in a settled state whose cost
    /// in the table is at most the cost of the route.
    proof fn lemma_lower_bound(&self, m: MazeView, r: Seq<TravelDirection>)
        requires
            self.inv(m, None),
            self.waiting() == 0,
            route_valid(m, r),
        ensures
            self.valid(route_state(m.start, r)),
            self.closed@[slot(self.w as nat, route_state(m.start, r))],
            self.d(route_state(m.start, r)) <= route_cost(self.pen(), r),
        decreases r.len(),
    {
        let w = self.w as nat;
        let h = self.h as nat;
        let pen = self.pen();
        let s = route_state(m.start, r);
        if r.len() == 0 {
            assert(m.cells.contains_key(m.start));
            lemma_slot_range(w, h, s);
            if !self.closed@[slot(w, s)] {
                assert(self.open@.contains(Entry { key: self.dist@[slot(w, s)], state: s }));
            }
        } else {
            let r0 = r.drop_last();
            let dir = r.last();
            self.lemma_lower_bound(m, r0);
            let u = route_state(m.start, r0);
            assert(r0.push(dir) =~= r);
            lemma_route_push(m, pen, r0, dir);
            assert(m.cells.contains_key(s.at));
            lemma_slot_range(w, h, s);
            lemma_slot_range(w, h, u);
            assert(edge_relaxed(m, pen, w, self.dist@, u, dir));
            lemma_count_true_bound(self.closed@);
            assert((1 + pen) * self.settled@ <= 0x1_0000_0000 * 4_000_000) by (nonlinear_arith)
                requires
                    pen < 0x1_0000_0000,
                    self.settled@ <= 4_000_000,
            ;
            if !self.closed@[slot(w, s)] {
                assert(self.open@.contains(Entry { key: self.dist@[slot(w, s)], state: s }));
            }
        }
    }

    /// The costs that the search has found.
    fn finish(self, Ghost(m): Ghost<MazeView>) -> (r: StateCosts)
        requires
            self.inv(m, None),
            self.waiting() == 0,
        ensures
            r.exact(m, self.pen()),
            r.capped(self.pen()),
            r.spec_width() == self.width(),
            r.spec_height() == self.height(),
            r.wf(),
    {
        let ghost w = self.w as nat;
        let ghost h = self.h as nat;
        let ghost pen = self.pen();
        let r = StateCosts { w: self.w, h: self.h, dist: self.dist };
        proof {
            lemma_count_true_bound(self.closed@);
            assert forall|s: State| (#[trigger] r.cost(s)) is Some implies r.cost(s)->0 <= (1 + pen)
                * (4 * MAX_CELLS) by {
                let k = self.settled@;
                assert(self.dist@[slot(w, s)] <= (1 + pen) * k);
                assert((1 + pen) * k <= (1 + pen) * (4 * MAX_CELLS)) by (nonlinear_arith)
                    requires
                        k <= 4 * MAX_CELLS,
                ;
            }
            assert forall|s: State| r.fits(m, pen, s) by {
                if in_box(w, h, s.at) {
                    lemma_slot_range(w, h, s);
                }
                match r.cost(s) {
                    Some(c) => {
                        assert(arrives(m, self.routes@[slot(w, s)], s));
                        assert forall|rt: Seq<TravelDirection>| arrives(m, rt, s) implies c
                            <= route_cost(pen, rt) by {
                            self.lemma_lower_bound(m, rt);
                        }
                    },
                    None => {
                        assert forall|rt: Seq<TravelDirection>| !arrives(m, rt, s) by {
                            if arrives(m, rt, s) {
                                self.lemma_lower_bound(m, rt);
                                lemma_slot_range(w, h, s);
                            }
                        }
                    },
                }
            }
        }
        r
    }
}

/// The least cost of every state of a maze.
pub struct StateCosts {
    w: usize,
    h: usize,
    dist: Vec<u64>,
}

impl StateCosts {
    /// The least cost of a route that ends in `s`, if there is a route.
    pub closed spec fn cost(&self, s: State) -> Option<nat> {
        if in_box(self.w as nat, self.h as nat, s.at) && self.dist@[slot(self.w as nat, s)]
            < UNREACHED {
            Some(self.dist@[slot(self.w as nat, s)] as nat)
        } else {
            None
        }
    }

    /// Whether what the table holds for `s` is right for the maze `m`.
    pub open spec fn fits(&self, m: MazeView, penalty: nat, s: State) -> bool {
        match self.cost(s) {
            Some(c) => is_least_state_cost(m, penalty, s, c),
            None => forall|r: Seq<TravelDirection>| !arrives(m, r, s),
        }
    }

    /// Whether the table holds, for every state, the least cost of a route
    /// through `m` that ends in it, and nothing for the states in which no
    /// route ends.
    pub open spec fn exact(&self, m: MazeView, penalty: nat) -> bool {
        forall|s: State| #[trigger] self.fits(m, penalty, s)
    }

    /// The number of columns of the box.
    pub closed spec fn spec_width(&self) -> nat {
        self.w as nat
    }

    /// The number of rows of the box.
    pub closed spec fn spec_height(&self) -> nat {
        self.h as nat
    }

    /// The table has a place for every state of its box.
    pub closed spec fn wf(&self) -> bool {
        &&& self.h * self.w <= MAX_CELLS
        &&& self.dist@.len() == 4 * (self.h * self.w)
    }

    /// Whether no cost in the table exceeds what four moves per cell of the
    /// largest maze can cost.
    pub open spec fn capped(&self, penalty: nat) -> bool {
        forall|s: State| (#[trigger] self.cost(s)) is Some ==> self.cost(s)->0 <= (1 + penalty) * (4 * MAX_CELLS)
    }

    /// A cost is kept only for the states of the box.
    pub proof fn lemma_cost_in_box(&self, s: State)
        requires
            self.cost(s) is Some,
        ensures
            in_box(self.spec_width(), self.spec_height(), s.at),
    {
    }

    /// The number of states that the table has a place for.
    pub fn size(&self) -> (n: usize)
        requires
            self.wf(),
        ensures
            n == 4 * (self.spec_height() * self.spec_width()),
            self.spec_height() * self.spec_width() <= MAX_CELLS,
    {
        self.dist.len()
    }

    /// The place of the state `s` in the table, if it is a state of the
    /// box.
    pub fn slot_of(&self, s: State) -> (r: Option<usize>)
        requires
            self.wf(),
        ensures
            match r {
                Some(i) => in_box(self.spec_width(), self.spec_height(), s.at) && i == slot(
                    self.spec_width(),
                    s,
                ) && i < 4 * (self.spec_height() * self.spec_width()),
                None => !in_box(self.spec_width(), self.spec_height(), s.at),
            },
    {
        if s.at.x < 0 || s.at.y < 0 || s.at.x >= self.w as i128 || s.at.y >= self.h as i128 {
            return None;
        }
        proof {
            lemma_slot_range(self.w as nat, self.h as nat, s);
            let x = s.at.x as int;
            let y = s.at.y as int;
            let w = self.w as int;
            let h = self.h as int;
            assert(0 <= y * w && y * w + x < h * w) by (nonlinear_arith)
                requires
                    0 <= x < w,
                    0 <= y < h,
            ;
        }
        let x: usize = s.at.x as usize;
        let y: usize = s.at.y as usize;
        Some((y * self.w + x) * 4 + s.heading.ordinal())
    }

    /// The least cost of a route that ends in `s`, if there is a route.
    pub fn get(&self, s: State) -> (c: Option<u64>)
        requires
            self.wf(),
        ensures
            match c {
                Some(v) => self.cost(s) == Some(v as nat),
                None => self.cost(s) is None,
            },
    {
        if s.at.x < 0 || s.at.y < 0 || s.at.x >= self.w as i128 || s.at.y >= self.h as i128 {
            return None;
        }
        proof {
            lemma_slot_range(self.w as nat, self.h as nat, s);
            let x = s.at.x as int;
            let y = s.at.y as int;
            let w = self.w as int;
            let h = self.h as int;
            assert(0 <= y * w && y * w + x < h * w) by (nonlinear_arith)
                requires
                    0 <= x < w,
                    0 <= y < h,
            ;
        }
        let x: usize = s.at.x as usize;
        let y: usize = s.at.y as usize;
        let v: u64 = self.dist[(y * self.w + x) * 4 + s.heading.ordinal()];
        if v < UNREACHED {
            Some(v)
        } else {
            None
        }
    }
}

/// Finds the least cost of every state of the maze: of every pair of a
/// cell and the heading with which a route enters it.
pub fn settle(maze: &Maze, penalty: u32) -> (r: StateCosts)
    requires
        maze.wf(),
    ensures
        r.exact(maze@, penalty as nat),
        r.capped(penalty as nat),
        r.wf(),
        r.spec_width() == maze.spec_width(),
        r.spec_height() == maze.spec_height(),
{
    let mut search = Search::new(maze, penalty);
    search.run(maze);
    search.finish(Ghost(maze@))
}

/// The cell that one move with heading `d` leads to from `p`.
pub fn neighbor(p: Point, d: TravelDirection) -> (q: Point)
    requires
        p.has_room(),
    ensures
        q == step(p, d),
{
    match d {
        TravelDirection::N => p.up(),
        TravelDirection::E => p.right(),
        TravelDirection::S => p.down(),
        TravelDirection::W => p.left(),
    }
}

/// A table of false entries has no true entry.
pub proof fn lemma_count_all_false(s: Seq<bool>)
    requires
        forall|i: int| 0 <= i < s.len() ==> !s[i],
    ensures
        count_true(s) == 0,
    decreases s.len(),
{
    if s.len() > 0 {
        lemma_count_all_false(s.drop_last());
    }
}

} // verus!
