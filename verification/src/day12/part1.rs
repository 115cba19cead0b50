//! The regions of a garden and the price of their fences by length.
//!
//! Two cells are linked where one lies directly left of, right of, above
//! or below the other and both hold the same letter. A region is what can
//! be reached from a cell over linked cells. A cell has a fence on each
//! side where the neighbour holds another letter or lies outside the
//! garden, and the fences of a region cost its number of cells each.

use crate::maze::max_len;
use crate::route::step;
use crate::route::TravelDirection;
use crate::search::count_true;
use crate::search::in_box;
use crate::search::lemma_count_all_false;
use crate::search::lemma_count_true_bound;
use crate::search::lemma_count_true_set;
use crate::search::neighbor;
use crate::util::grid::cells_sum;
use crate::util::grid::grid_of;
use crate::util::grid::grid_sum;
use crate::util::grid::lemma_cells_sum_grows;
use crate::util::grid::CharGrid;
use crate::util::point::Point;
use crate::util::text::split_lines;
use vstd::pervasive::unreached;
use vstd::prelude::*;

verus! {

/// The letter at `p`, or a question mark where `p` lies outside.
pub open spec fn token_at(m: Map<Point, char>, p: Point) -> char {
    if m.contains_key(p) {
        m[p]
    } else {
        '?'
    }
}

/// Whether no cell of the garden holds a question mark.
pub open spec fn plain(m: Map<Point, char>) -> bool {
    forall|p: Point| #[trigger] m.contains_key(p) ==> m[p] != '?'
}

/// Whether the cells of the garden have coordinates that are machine
/// numbers.
pub open spec fn tame(m: Map<Point, char>) -> bool {
    forall|p: Point| #[trigger] m.contains_key(p) ==> 0 <= p.x <= usize::MAX && 0 <= p.y <= usize::MAX
}

/// Whether `q` lies directly left of, right of, above or below `p`.
pub open spec fn adjacent(p: Point, q: Point) -> bool {
    q == step(p, TravelDirection::N) || q == step(p, TravelDirection::E) || q == step(
        p,
        TravelDirection::S,
    ) || q == step(p, TravelDirection::W)
}

/// Whether `p` and `q` are neighbouring cells with the same letter.
pub open spec fn linked(m: Map<Point, char>, p: Point, q: Point) -> bool {
    adjacent(p, q) && m.contains_key(p) && m.contains_key(q) && m[p] == m[q]
}

/// Whether `path` is a walk over linked cells.
pub open spec fn chain(m: Map<Point, char>, path: Seq<Point>) -> bool {
    &&& path.len() >= 1
    &&& m.contains_key(path[0])
    &&& forall|i: int| 0 <= i < path.len() - 1 ==> linked(m, #[trigger] path[i], path[i + 1])
}

/// Whether a walk over linked cells leads from `p` to `q`.
pub open spec fn connected(m: Map<Point, char>, p: Point, q: Point) -> bool {
    exists|path: Seq<Point>| #[trigger] chain(m, path) && path[0] == p && path.last() == q
}

/// The region of the cell `p`.
pub open spec fn plot(m: Map<Point, char>, p: Point) -> Set<Point> {
    Set::new(|q: Point| connected(m, p, q))
}

/// Whether the cells of `area` have all their linked cells in `area`.
pub open spec fn closed(m: Map<Point, char>, area: Seq<Point>) -> bool {
    forall|j: int, q: Point|
        0 <= j < area.len() && #[trigger] linked(m, area[j], q) ==> area.contains(q)
}

/// Linked cells are linked both ways.
pub proof fn lemma_linked_both_ways(m: Map<Point, char>, p: Point, q: Point)
    requires
        tame(m),
        linked(m, p, q),
    ensures
        linked(m, q, p),
{
}

/// A cell of the garden is connected to itself.
pub proof fn lemma_connected_self(m: Map<Point, char>, p: Point)
    requires
        m.contains_key(p),
    ensures
        connected(m, p, p),
{
    assert(chain(m, seq![p]));
    assert(seq![p][0] == p && seq![p].last() == p);
}

/// A walk goes on over a link.
pub proof fn lemma_connected_on(m: Map<Point, char>, p: Point, q: Point, r: Point)
    requires
        connected(m, p, q),
        linked(m, q, r),
    ensures
        connected(m, p, r),
{
    let path = choose|path: Seq<Point>| #[trigger] chain(m, path) && path[0] == p && path.last() == q;
    let longer = path.push(r);
    assert forall|i: int| 0 <= i < longer.len() - 1 implies linked(
        m,
        #[trigger] longer[i],
        longer[i + 1],
    ) by {
        if i < path.len() - 1 {
            assert(linked(m, path[i], path[i + 1]));
        }
    }
    assert(chain(m, longer));
    assert(longer[0] == p && longer.last() == r);
}

/// Every cell of a walk lies in the garden and holds the letter of the
/// first.
pub proof fn lemma_chain_cells(m: Map<Point, char>, path: Seq<Point>, i: int)
    requires
        chain(m, path),
        0 <= i < path.len(),
    ensures
        m.contains_key(path[i]),
        m[path[i]] == m[path[0]],
    decreases i,
{
    if i > 0 {
        lemma_chain_cells(m, path, i - 1);
        assert(linked(m, path[i - 1], path[i]));
    }
}

/// A walk can be gone backwards.
pub proof fn lemma_connected_back(m: Map<Point, char>, p: Point, q: Point)
    requires
        tame(m),
        connected(m, p, q),
    ensures
        connected(m, q, p),
{
    let path = choose|path: Seq<Point>| #[trigger] chain(m, path) && path[0] == p && path.last() == q;
    let n = path.len() as int;
    let back = Seq::new(path.len(), |i: int| path[n - 1 - i]);
    lemma_chain_cells(m, path, n - 1);
    assert forall|i: int| 0 <= i < back.len() - 1 implies linked(m, #[trigger] back[i], back[i + 1]) by {
        assert(linked(m, path[n - 2 - i], path[n - 2 - i + 1]));
        lemma_linked_both_ways(m, path[n - 2 - i], path[n - 1 - i]);
    }
    assert(chain(m, back));
    assert(back[0] == q && back.last() == p);
}

/// Two walks, the second from the end of the first, make one walk.
pub proof fn lemma_connected_through(m: Map<Point, char>, p: Point, q: Point, r: Point)
    requires
        connected(m, p, q),
        connected(m, q, r),
    ensures
        connected(m, p, r),
{
    let first = choose|path: Seq<Point>| #[trigger] chain(m, path) && path[0] == p && path.last() == q;
    let second = choose|path: Seq<Point>| #[trigger] chain(m, path) && path[0] == q && path.last() == r;
    let whole = first + second.skip(1);
    let n = first.len() as int;
    assert forall|i: int| 0 <= i < whole.len() - 1 implies linked(
        m,
        #[trigger] whole[i],
        whole[i + 1],
    ) by {
        if i < n - 1 {
            assert(linked(m, first[i], first[i + 1]));
        } else {
            assert(linked(m, second[i - n + 1], second[i - n + 1 + 1]));
            assert(whole[i + 1] == second[i - n + 2]);
            if i == n - 1 {
                assert(whole[i] == first[n - 1]);
            } else {
                assert(whole[i] == second[i - n + 1]);
            }
        }
    }
    assert(chain(m, whole));
    assert(whole[0] == p);
    if second.len() == 1 {
        assert(whole.last() == first.last());
    } else {
        assert(whole.last() == second.last());
    }
}

/// A list of cells that holds all linked cells of its cells holds every
/// cell of a walk that starts in it.
pub proof fn lemma_closed_holds(m: Map<Point, char>, area: Seq<Point>, path: Seq<Point>, i: int)
    requires
        closed(m, area),
        chain(m, path),
        area.contains(path[0]),
        0 <= i < path.len(),
    ensures
        area.contains(path[i]),
    decreases i,
{
    if i > 0 {
        lemma_closed_holds(m, area, path, i - 1);
        let j = choose|j: int| 0 <= j < area.len() && area[j] == path[i - 1];
        assert(linked(m, path[i - 1], path[i]));
        assert(linked(m, area[j], path[i]));
    }
}

/// A region: its letter and its cells, each once.
#[derive(Debug)]
pub struct Region {
    pub token: char,
    pub area: Vec<Point>,
}

/// Whether `r` is a region of the garden: the cells that are connected to
/// its first cell, each once, with their letter.
#[verifier::opaque]
pub open spec fn whole(m: Map<Point, char>, r: Region) -> bool {
    &&& r.area@.len() > 0
    &&& r.area@.no_duplicates()
    &&& m.contains_key(r.area@[0])
    &&& r.token == m[r.area@[0]]
    &&& forall|q: Point| r.area@.contains(q) <==> connected(m, r.area@[0], q)
}

/// Whether `p` comes before `q` when the garden is read line by line.
pub open spec fn before(p: Point, q: Point) -> bool {
    p.y < q.y || (p.y == q.y && p.x < q.x)
}

/// Whether one of the first `n` regions holds `p`.
pub open spec fn covered(regions: Seq<Region>, n: int, p: Point) -> bool {
    exists|k: int| 0 <= k < n && k < regions.len() && (#[trigger] regions[k]).area@.contains(p)
}

/// Whether `regions` are the regions of the garden in the order of the
/// garden: each is a region, every cell lies in one, and every cell that
/// comes before the first cell of a region lies in a region before it.
pub open spec fn partition(m: Map<Point, char>, regions: Seq<Region>) -> bool {
    &&& forall|k: int| 0 <= k < regions.len() ==> whole(m, #[trigger] regions[k])
    &&& forall|p: Point| #[trigger] m.contains_key(p) ==> covered(regions, regions.len() as int, p)
    &&& forall|k: int, p: Point|
        0 <= k < regions.len() && m.contains_key(p) && #[trigger] before(p, regions[k].area@[0])
            ==> covered(regions, k, p)
}

/// The place of the cell `p` in a table of the cells of a box that is `w`
/// columns wide.
pub open spec fn spot(w: nat, p: Point) -> int {
    p.y * w + p.x
}

/// The place of a cell of the box lies within the table.
pub proof fn lemma_spot_range(w: nat, h: nat, p: Point)
    requires
        in_box(w, h, p),
    ensures
        0 <= spot(w, p) < h * w,
{
    let x = p.x as int;
    let y = p.y as int;
    assert(0 <= y * w + x < h * w) by (nonlinear_arith)
        requires
            0 <= x < w,
            0 <= y < h,
    ;
}

/// Two cells of the box with one place in the table are one cell.
pub proof fn lemma_spot_one(w: nat, h: nat, p: Point, q: Point)
    requires
        in_box(w, h, p),
        in_box(w, h, q),
        spot(w, p) == spot(w, q),
    ensures
        p == q,
{
    let (x1, y1, x2, y2) = (p.x as int, p.y as int, q.x as int, q.y as int);
    assert(y1 == y2 && x1 == x2) by (nonlinear_arith)
        requires
            y1 * w + x1 == y2 * w + x2,
            0 <= x1 < w,
            0 <= x2 < w,
            0 <= y1,
            0 <= y2,
    ;
}

/// The survey of a garden while its regions are found: the box of the
/// garden, for each cell whether it lies in a region and in which, the
/// regions found, and the cells found of the region that is being filled.
pub struct Survey {
    pub w: usize,
    pub h: usize,
    pub marked: Vec<bool>,
    pub owner: Vec<usize>,
    pub regions: Vec<Region>,
    pub area: Vec<Point>,
}

impl Survey {
    /// Whether the cell `p` is marked as a cell of region `i`.
    pub open spec fn owns(&self, i: int, p: Point) -> bool {
        self.marked@[spot(self.w as nat, p)] && self.owner@[spot(self.w as nat, p)] == i
    }

    /// Whether the region that the table names for `p` holds `p`.
    pub open spec fn held(&self, p: Point) -> bool {
        let o = self.owner@[spot(self.w as nat, p)] as int;
        if o < self.regions@.len() {
            self.regions@[o].area@.contains(p)
        } else {
            o == self.regions@.len() && self.area@.contains(p)
        }
    }

    /// Whether the tables have a place for every cell of the garden.
    pub open spec fn sized(&self, m: Map<Point, char>) -> bool {
        &&& self.h * self.w <= usize::MAX
        &&& self.marked@.len() == self.h * self.w
        &&& self.owner@.len() == self.h * self.w
        &&& self.regions@.len() < usize::MAX
        &&& forall|p: Point| #[trigger] m.contains_key(p) ==> in_box(self.w as nat, self.h as nat, p)
    }

    /// Whether the regions found are regions of the garden.
    pub open spec fn regions_whole(&self, m: Map<Point, char>) -> bool {
        forall|i: int|
            0 <= i < self.regions@.len() ==> whole(m, #[trigger] self.regions@[i])
                && self.regions@[i].area@.len() > 0
    }

    /// Whether the cells of the regions found are cells of the garden and
    /// marked as theirs.
    pub open spec fn regions_own(&self, m: Map<Point, char>) -> bool {
        forall|i: int, j: int|
            0 <= i < self.regions@.len() && 0 <= j < self.regions@[i].area@.len()
                ==> m.contains_key(#[trigger] self.regions@[i].area@[j]) && self.owns(
                i,
                self.regions@[i].area@[j],
            )
    }

    /// Whether the cells found of the region that is being filled are
    /// cells of the garden, connected to the first of them, each once,
    /// and marked as cells of that region.
    pub open spec fn area_sound(&self, m: Map<Point, char>) -> bool {
        &&& self.area@.no_duplicates()
        &&& forall|j: int|
            0 <= j < self.area@.len() ==> m.contains_key(#[trigger] self.area@[j]) && connected(
                m,
                self.area@[0],
                self.area@[j],
            ) && self.owns(self.regions@.len() as int, self.area@[j])
    }

    /// Whether every marked cell lies in the region that the table names.
    pub open spec fn marks_held(&self, m: Map<Point, char>) -> bool {
        forall|p: Point|
            m.contains_key(p) && #[trigger] self.marked@[spot(self.w as nat, p)] ==> self.held(p)
    }

    /// Whether every cell before the first cell of a region found lies in
    /// a region before it.
    pub open spec fn ordered(&self, m: Map<Point, char>) -> bool {
        forall|i: int, p: Point|
            0 <= i < self.regions@.len() && m.contains_key(p) && #[trigger] before(
                p,
                self.regions@[i].area@[0],
            ) ==> self.marked@[spot(self.w as nat, p)] && self.owner@[spot(self.w as nat, p)] < i
    }

    /// What holds of the survey of the garden `m` at every time.
    #[verifier::opaque]
    pub open spec fn inv(&self, m: Map<Point, char>) -> bool {
        &&& plain(m)
        &&& tame(m)
        &&& self.sized(m)
        &&& self.regions_whole(m)
        &&& self.regions_own(m)
        &&& self.area_sound(m)
        &&& self.marks_held(m)
        &&& self.ordered(m)
    }

    /// The place of the cell `p` in the tables.
    pub fn spot_of(&self, p: Point) -> (s: usize)
        requires
            in_box(self.w as nat, self.h as nat, p),
            self.h * self.w <= usize::MAX,
        ensures
            s == spot(self.w as nat, p),
            s < self.h * self.w,
    {
        proof {
            lemma_spot_range(self.w as nat, self.h as nat, p);
            let x = p.x as int;
            let y = p.y as int;
            let w = self.w as int;
            let h = self.h as int;
            assert(0 <= y * w && y * w + x < h * w) by (nonlinear_arith)
                requires
                    0 <= x < w,
                    0 <= y < h,
            ;
        }
        let x: usize = p.x as usize;
        let y: usize = p.y as usize;
        y * self.w + x
    }

    /// Starts a region at the cell `seed`, which lies in none.
    pub fn begin(&mut self, Ghost(m): Ghost<Map<Point, char>>, seed: Point)
        requires
            old(self).inv(m),
            old(self).area@.len() == 0,
            m.contains_key(seed),
            !old(self).marked@[spot(old(self).w as nat, seed)],
        ensures
            final(self).inv(m),
            final(self).area@ == seq![seed],
            final(self).marked@[spot(old(self).w as nat, seed)],
            final(self).regions == old(self).regions,
            final(self).w == old(self).w,
            final(self).h == old(self).h,
            final(self).marked@.len() == old(self).marked@.len(),
            final(self).owner@.len() == old(self).owner@.len(),
            forall|s: int|
                0 <= s < old(self).marked@.len() && old(self).marked@[s] ==> final(self).marked@[s]
                    && final(self).owner@[s] == old(self).owner@[s],
            count_true(final(self).marked@) == count_true(old(self).marked@) + 1,
    {
        proof {
            reveal(Survey::inv);
        }
        let s = self.spot_of(seed);
        let k = self.regions.len();
        let ghost w = self.w as nat;
        let ghost h = self.h as nat;
        proof {
            lemma_count_true_set(self.marked@, s as int);
            lemma_connected_self(m, seed);
        }
        self.marked.set(s, true);
        self.owner.set(s, k);
        self.area.push(seed);
        proof {
            assert(self.area@ =~= seq![seed]);
            assert(self.area@[0] == seed);
            assert(self.sized(m));
            assert(self.regions_whole(m));
            assert(self.regions_own(m)) by {
                assert forall|i: int, j: int|
                    0 <= i < self.regions@.len() && 0 <= j < self.regions@[i].area@.len()
                    implies m.contains_key(#[trigger] self.regions@[i].area@[j]) && self.owns(
                    i,
                    self.regions@[i].area@[j],
                ) by {
                    let p = self.regions@[i].area@[j];
                    lemma_spot_range(w, h, p);
                    assert(old(self).owns(i, p));
                }
            }
            assert(self.area_sound(m));
            assert(self.marks_held(m)) by {
                assert forall|p: Point|
                    m.contains_key(p) && #[trigger] self.marked@[spot(w, p)] implies self.held(
                    p,
                ) by {
                    lemma_spot_range(w, h, p);
                    if spot(w, p) == s {
                        lemma_spot_one(w, h, p, seed);
                    } else {
                        assert(old(self).marked@[spot(w, p)]);
                        assert(old(self).held(p));
                    }
                }
            }
            assert(self.ordered(m)) by {
                assert forall|i: int, p: Point|
                    0 <= i < self.regions@.len() && m.contains_key(p) && #[trigger] before(
                        p,
                        self.regions@[i].area@[0],
                    ) implies self.marked@[spot(w, p)] && self.owner@[spot(w, p)] < i by {
                    lemma_spot_range(w, h, p);
                    assert(old(self).marked@[spot(w, p)]);
                }
            }
        }
    }

    /// Takes the cell `q` beside the cell `p` of the region that is being
    /// filled into that region, if it is linked to `p` and not yet in it.
    pub fn absorb(&mut self, grid: &CharGrid, token: char, p: Point, q: Point)
        requires
            old(self).inv(grid@),
            old(self).area@.contains(p),
            adjacent(p, q),
            token == grid@[old(self).area@[0]],
        ensures
            final(self).inv(grid@),
            final(self).regions == old(self).regions,
            final(self).w == old(self).w,
            final(self).h == old(self).h,
            final(self).marked@.len() == old(self).marked@.len(),
            final(self).owner@.len() == old(self).owner@.len(),
            grown(old(self).area@, final(self).area@),
            linked(grid@, p, q) ==> final(self).area@.contains(q),
            forall|s: int|
                0 <= s < old(self).marked@.len() && old(self).marked@[s] ==> final(self).marked@[s]
                    && final(self).owner@[s] == old(self).owner@[s],
            count_true(final(self).marked@) - count_true(old(self).marked@) == final(self).area@.len()
                - old(self).area@.len(),
    {
        let ghost m = grid@;
        let ghost w = self.w as nat;
        let ghost h = self.h as nat;
        let ghost jp = choose|j: int| 0 <= j < self.area@.len() && self.area@[j] == p;
        proof {
            reveal(Survey::inv);
            let path = choose|path: Seq<Point>| #[trigger]
                chain(m, path) && path[0] == self.area@[0] && path.last() == p;
            lemma_chain_cells(m, path, path.len() - 1);
        }
        let hit = match grid.get(&q) {
            Some(c) => *c == token,
            None => false,
        };
        if !hit {
            return ;
        }
        assert(linked(m, p, q));
        let s = self.spot_of(q);
        let k = self.regions.len();
        if self.marked[s] {
            proof {
                self.lemma_taken(m, p, q);
            }
            return ;
        }
        proof {
            lemma_count_true_set(self.marked@, s as int);
        }
        self.marked.set(s, true);
        self.owner.set(s, k);
        self.area.push(q);
        proof {
            Survey::lemma_absorbed(*old(self), *self, m, p, q);
            assert(self.area@[self.area@.len() - 1] == q);
        }
    }

    /// A marked cell that is linked to a cell of the region that is being
    /// filled is a cell of that region.
    pub proof fn lemma_taken(&self, m: Map<Point, char>, p: Point, q: Point)
        requires
            self.inv(m),
            self.area@.contains(p),
            linked(m, p, q),
            self.marked@[spot(self.w as nat, q)],
        ensures
            self.area@.contains(q),
    {
        reveal(Survey::inv);
        let k = self.regions@.len() as int;
        let jp = choose|j: int| 0 <= j < self.area@.len() && self.area@[j] == p;
        assert(self.held(q));
        let o = self.owner@[spot(self.w as nat, q)] as int;
        if o < k {
            let r = self.regions@[o];
            assert(whole(m, r));
            assert(connected(m, r.area@[0], q)) by {
                reveal(whole);
            }
            lemma_linked_both_ways(m, p, q);
            lemma_connected_on(m, r.area@[0], q, p);
            assert(r.area@.contains(p)) by {
                reveal(whole);
            }
            let j = choose|j: int| 0 <= j < r.area@.len() && r.area@[j] == p;
            assert(m.contains_key(self.regions@[o].area@[j]) && self.owns(o, self.regions@[o].area@[j]));
            assert(self.owns(k, self.area@[jp]));
            assert(false);
        }
    }

    /// The survey after a cell has been taken into the region that is
    /// being filled is a survey of the garden.
    pub proof fn lemma_absorbed(was: Survey, now: Survey, m: Map<Point, char>, p: Point, q: Point)
        requires
            was.inv(m),
            was.area@.contains(p),
            linked(m, p, q),
            !was.marked@[spot(was.w as nat, q)],
            now.w == was.w,
            now.h == was.h,
            now.regions == was.regions,
            now.marked@ == was.marked@.update(spot(was.w as nat, q), true),
            now.owner@ == was.owner@.update(
                spot(was.w as nat, q),
                was.regions@.len() as usize,
            ),
            now.area@ == was.area@.push(q),
        ensures
            now.inv(m),
    {
        reveal(Survey::inv);
        let w = was.w as nat;
        let h = was.h as nat;
        let k = was.regions@.len();
        let s = spot(w, q);
        let before_area = was.area@;
        lemma_spot_range(w, h, q);
        lemma_connected_on(m, was.area@[0], p, q);
        assert forall|j: int| 0 <= j < was.area@.len() implies was.area@[j] != q by {
            assert(was.owns(k as int, was.area@[j]));
        }
        assert(now.area@[0] == before_area[0]);
        assert(now.area@[before_area.len() as int] == q);
        assert(now.sized(m));
        assert(now.regions_whole(m));
        assert(now.regions_own(m)) by {
            assert forall|i: int, j: int|
                0 <= i < now.regions@.len() && 0 <= j < now.regions@[i].area@.len()
                implies m.contains_key(#[trigger] now.regions@[i].area@[j]) && now.owns(
                i,
                now.regions@[i].area@[j],
            ) by {
                let c = now.regions@[i].area@[j];
                assert(m.contains_key(was.regions@[i].area@[j]) && was.owns(i, c));
                lemma_spot_range(w, h, c);
            }
        }
        assert(now.area_sound(m)) by {
            assert forall|j: int| 0 <= j < now.area@.len() implies m.contains_key(
                #[trigger] now.area@[j],
            ) && connected(m, now.area@[0], now.area@[j]) && now.owns(
                now.regions@.len() as int,
                now.area@[j],
            ) by {
                if j < before_area.len() {
                    let c = before_area[j];
                    assert(now.area@[j] == c);
                    assert(m.contains_key(was.area@[j]) && was.owns(k as int, c));
                    lemma_spot_range(w, h, c);
                }
            }
        }
        assert(now.marks_held(m)) by {
            assert forall|c: Point|
                m.contains_key(c) && #[trigger] now.marked@[spot(w, c)] implies now.held(c) by {
                lemma_spot_range(w, h, c);
                if spot(w, c) == s {
                    lemma_spot_one(w, h, c, q);
                } else {
                    assert(was.marked@[spot(w, c)]);
                    assert(was.held(c));
                    if was.owner@[spot(w, c)] == k {
                        let j = choose|j: int| 0 <= j < before_area.len() && before_area[j] == c;
                        assert(now.area@[j] == c);
                    }
                }
            }
        }
        assert(now.ordered(m)) by {
            assert forall|i: int, c: Point|
                0 <= i < now.regions@.len() && m.contains_key(c) && #[trigger] before(
                    c,
                    now.regions@[i].area@[0],
                ) implies now.marked@[spot(w, c)] && now.owner@[spot(w, c)] < i by {
                lemma_spot_range(w, h, c);
                assert(before(c, was.regions@[i].area@[0]));
                assert(was.marked@[spot(w, c)]);
            }
        }
    }

    /// A cell of the garden has its place in the tables.
    pub proof fn lemma_box(&self, m: Map<Point, char>, p: Point)
        requires
            self.inv(m),
            m.contains_key(p),
        ensures
            in_box(self.w as nat, self.h as nat, p),
            self.h * self.w <= usize::MAX,
            0 <= spot(self.w as nat, p) < self.h * self.w,
            self.marked@.len() == self.h * self.w,
            self.owner@.len() == self.h * self.w,
            p.has_room(),
    {
        reveal(Survey::inv);
        lemma_spot_range(self.w as nat, self.h as nat, p);
    }

    /// A marked cell lies in the region that the table names.
    pub proof fn lemma_held(&self, m: Map<Point, char>, p: Point)
        requires
            self.inv(m),
            m.contains_key(p),
            self.marked@[spot(self.w as nat, p)],
        ensures
            self.held(p),
    {
        reveal(Survey::inv);
    }

    /// The cells found of the region that is being filled are cells of
    /// the garden with the letter of the first.
    pub proof fn lemma_found(&self, m: Map<Point, char>, j: int)
        requires
            self.inv(m),
            0 <= j < self.area@.len(),
        ensures
            m.contains_key(self.area@[j]),
            m[self.area@[j]] == m[self.area@[0]],
            self.marked@[spot(self.w as nat, self.area@[j])],
    {
        reveal(Survey::inv);
        let path = choose|path: Seq<Point>| #[trigger]
            chain(m, path) && path[0] == self.area@[0] && path.last() == self.area@[j];
        lemma_chain_cells(m, path, path.len() - 1);
    }

    /// The regions found are regions of the garden in its order.
    pub proof fn lemma_regions(&self, m: Map<Point, char>)
        requires
            self.inv(m),
        ensures
            self.regions_whole(m),
            self.ordered(m),
    {
        reveal(Survey::inv);
    }

    /// Takes the cells beside cell `i` of the region that is being filled
    /// into that region, as far as they are linked to it.
    pub fn spread(&mut self, grid: &CharGrid, token: char, i: usize)
        requires
            old(self).inv(grid@),
            i < old(self).area@.len(),
            token == grid@[old(self).area@[0]],
        ensures
            final(self).inv(grid@),
            final(self).regions == old(self).regions,
            final(self).w == old(self).w,
            final(self).h == old(self).h,
            final(self).marked@.len() == old(self).marked@.len(),
            final(self).owner@.len() == old(self).owner@.len(),
            grown(old(self).area@, final(self).area@),
            forall|q: Point| #[trigger]
                linked(grid@, old(self).area@[i as int], q) ==> final(self).area@.contains(q),
            forall|s: int|
                0 <= s < old(self).marked@.len() && old(self).marked@[s] ==> final(self).marked@[s]
                    && final(self).owner@[s] == old(self).owner@[s],
            count_true(final(self).marked@) - count_true(old(self).marked@) == final(self).area@.len()
                - old(self).area@.len(),
    {
        let ghost m = grid@;
        let c = self.area[i];
        let ghost start = self.area@;
        proof {
            self.lemma_found(m, i as int);
            self.lemma_box(m, c);
        }
        let north = neighbor(c, TravelDirection::N);
        self.absorb(grid, token, c, north);
        let ghost first = self.area@;
        proof {
            lemma_grown_holds(start, first, c);
        }
        let east = neighbor(c, TravelDirection::E);
        self.absorb(grid, token, c, east);
        let ghost second = self.area@;
        proof {
            lemma_grown_holds(first, second, c);
        }
        let south = neighbor(c, TravelDirection::S);
        self.absorb(grid, token, c, south);
        let ghost third = self.area@;
        proof {
            lemma_grown_holds(second, third, c);
        }
        let west = neighbor(c, TravelDirection::W);
        self.absorb(grid, token, c, west);
        let ghost last = self.area@;
        proof {
            assert(grown(start, last));
            assert forall|q: Point| #[trigger] linked(m, c, q) implies last.contains(q) by {
                if q == north {
                    lemma_grown_holds(first, last, q);
                } else if q == east {
                    lemma_grown_holds(second, last, q);
                } else if q == south {
                    lemma_grown_holds(third, last, q);
                }
            }
        }
    }

    /// The number of cells of the region of the cell `p`, once all
    /// regions are found.
    pub fn size_at(&self, Ghost(m): Ghost<Map<Point, char>>, p: Point) -> (n: usize)
        requires
            self.inv(m),
            self.area@.len() == 0,
            m.contains_key(p),
            self.marked@[spot(self.w as nat, p)],
        ensures
            plot(m, p).finite(),
            n == plot(m, p).len(),
    {
        proof {
            self.lemma_box(m, p);
            self.lemma_held(m, p);
            self.lemma_regions(m);
            reveal(Survey::inv);
        }
        let s = self.spot_of(p);
        let o = self.owner[s];
        proof {
            lemma_plot_size(m, self.regions@[o as int], p);
        }
        self.regions[o].area.len()
    }

    /// Closes the region that is being filled, once it holds all linked
    /// cells of its cells.
    pub fn finish(&mut self, Ghost(m): Ghost<Map<Point, char>>, token: char)
        requires
            old(self).inv(m),
            old(self).area@.len() > 0,
            closed(m, old(self).area@),
            token == m[old(self).area@[0]],
            old(self).regions@.len() + 1 < usize::MAX,
            forall|c: Point|
                m.contains_key(c) && #[trigger] before(c, old(self).area@[0]) ==> old(
                    self,
                ).marked@[spot(old(self).w as nat, c)] && old(self).owner@[spot(
                    old(self).w as nat,
                    c,
                )] < old(self).regions@.len(),
        ensures
            final(self).inv(m),
            final(self).area@.len() == 0,
            final(self).regions@.len() == old(self).regions@.len() + 1,
            final(self).marked == old(self).marked,
            final(self).owner == old(self).owner,
            final(self).w == old(self).w,
            final(self).h == old(self).h,
            final(self).marked@.len() == old(self).marked@.len(),
            final(self).owner@.len() == old(self).owner@.len(),
    {
        proof {
            reveal(Survey::inv);
        }
        let ghost w = self.w as nat;
        let ghost h = self.h as nat;
        let ghost k = self.regions@.len() as int;
        let mut area: Vec<Point> = Vec::new();
        core::mem::swap(&mut self.area, &mut area);
        let region = Region { token, area };
        proof {
            reveal(whole);
            assert forall|q: Point| connected(m, region.area@[0], q) implies region.area@.contains(
                q,
            ) by {
                let path = choose|path: Seq<Point>| #[trigger]
                    chain(m, path) && path[0] == region.area@[0] && path.last() == q;
                lemma_closed_holds(m, region.area@, path, path.len() - 1);
            }
            assert forall|q: Point| region.area@.contains(q) implies connected(
                m,
                region.area@[0],
                q,
            ) by {
                let j = choose|j: int| 0 <= j < region.area@.len() && region.area@[j] == q;
                assert(m.contains_key(old(self).area@[j]));
            }
            assert(m.contains_key(old(self).area@[0]));
            assert(whole(m, region));
        }
        self.regions.push(region);
        proof {
            assert(self.sized(m));
            assert(self.regions_whole(m)) by {
                assert forall|i: int| 0 <= i < self.regions@.len() implies whole(
                    m,
                    #[trigger] self.regions@[i],
                ) && self.regions@[i].area@.len() > 0 by {
                    if i < k {
                        assert(self.regions@[i] == old(self).regions@[i]);
                    }
                }
            }
            assert(self.regions_own(m)) by {
                assert forall|i: int, j: int|
                    0 <= i < self.regions@.len() && 0 <= j < self.regions@[i].area@.len()
                    implies m.contains_key(#[trigger] self.regions@[i].area@[j]) && self.owns(
                    i,
                    self.regions@[i].area@[j],
                ) by {
                    if i < k {
                        assert(self.regions@[i] == old(self).regions@[i]);
                        assert(old(self).owns(i, old(self).regions@[i].area@[j]));
                    } else {
                        assert(old(self).owns(k, old(self).area@[j]));
                    }
                }
            }
            assert(self.area_sound(m));
            assert(self.marks_held(m)) by {
                assert forall|c: Point|
                    m.contains_key(c) && #[trigger] self.marked@[spot(w, c)] implies self.held(
                    c,
                ) by {
                    assert(old(self).held(c));
                    let o = old(self).owner@[spot(w, c)] as int;
                    if o < k {
                        assert(self.regions@[o] == old(self).regions@[o]);
                    }
                }
            }
            assert(self.ordered(m)) by {
                assert forall|i: int, c: Point|
                    0 <= i < self.regions@.len() && m.contains_key(c) && #[trigger] before(
                        c,
                        self.regions@[i].area@[0],
                    ) implies self.marked@[spot(w, c)] && self.owner@[spot(w, c)] < i by {
                    if i < k {
                        assert(self.regions@[i] == old(self).regions@[i]);
                        assert(before(c, old(self).regions@[i].area@[0]));
                    } else {
                        assert(before(c, old(self).area@[0]));
                    }
                }
            }
        }
    }
}

/// Whether the list `after` begins with the list `before`.
pub open spec fn grown(before: Seq<Point>, after: Seq<Point>) -> bool {
    before.len() <= after.len() && forall|j: int|
        0 <= j < before.len() ==> #[trigger] after[j] == before[j]
}

/// What a list holds it holds after it has grown.
pub proof fn lemma_grown_holds(before: Seq<Point>, after: Seq<Point>, q: Point)
    requires
        grown(before, after),
        before.contains(q),
    ensures
        after.contains(q),
{
    let j = choose|j: int| 0 <= j < before.len() && before[j] == q;
    assert(after[j] == q);
}

/// Whether a table with a place for every cell of the box of the rows
/// can be had.
pub open spec fn fits(rows: Seq<Seq<char>>) -> bool {
    rows.len() * max_len(rows) <= isize::MAX
}

/// The length of the longest row of the garden.
pub fn widest(grid: &CharGrid) -> (w: usize)
    ensures
        w == max_len(grid.rows()),
        forall|y: int| 0 <= y < grid.rows().len() ==> (#[trigger] grid.rows()[y]).len() <= w,
{
    let h = grid.height();
    let mut w: usize = 0;
    let mut y: usize = 0;
    while y < h
        invariant
            y <= h,
            h == grid.rows().len(),
            w == max_len(grid.rows().take(y as int)),
            forall|i: int| 0 <= i < y ==> (#[trigger] grid.rows()[i]).len() <= w,
        decreases h - y,
    {
        let n = grid.row_len(y);
        proof {
            assert(grid.rows().take(y + 1).drop_last() =~= grid.rows().take(y as int));
        }
        if n > w {
            w = n;
        }
        y += 1;
    }
    proof {
        assert(grid.rows().take(h as int) =~= grid.rows());
    }
    w
}

/// The survey of the garden when all its regions are found.
pub fn survey(grid: &CharGrid) -> (r: Survey)
    requires
        plain(grid@),
        fits(grid.rows()),
    ensures
        r.inv(grid@),
        r.area@.len() == 0,
        forall|p: Point| #[trigger] grid@.contains_key(p) ==> r.marked@[spot(r.w as nat, p)],
        partition(grid@, r.regions@),
{
    let ghost m = grid@;
    let h = grid.height();
    let w = widest(grid);
    let n: usize = h * w;
    let mut survey = Survey {
        w,
        h,
        marked: vec![false; n],
        owner: vec![0usize; n],
        regions: Vec::new(),
        area: Vec::new(),
    };
    proof {
        reveal(Survey::inv);
        grid.lemma_rows();
        assert forall|p: Point| #[trigger] m.contains_key(p) implies in_box(w as nat, h as nat, p) by {
            assert(grid.rows()[p.y as int].len() <= w);
        }
        assert(tame(m));
        assert(survey.sized(m));
        assert(survey.marks_held(m)) by {
            assert forall|p: Point|
                m.contains_key(p) && #[trigger] survey.marked@[spot(w as nat, p)] implies survey.held(
                p,
            ) by {
                lemma_spot_range(w as nat, h as nat, p);
            }
        }
        assert(survey.inv(m));
        lemma_count_all_false(survey.marked@);
    }
    let mut y: usize = 0;
    while y < h
        invariant
            y <= h,
            h == grid.rows().len(),
            m == grid@,
            m == grid_of(grid.rows()),
            survey.w == w,
            survey.h == h,
            n == h * w,
            n <= isize::MAX,
            survey.marked@.len() == n,
            survey.inv(m),
            survey.area@.len() == 0,
            survey.regions@.len() <= count_true(survey.marked@),
            forall|p: Point| #[trigger] m.contains_key(p) && p.y < y ==> survey.marked@[spot(w as nat, p)],
        decreases h - y,
    {
        let len = grid.row_len(y);
        let mut x: usize = 0;
        while x < len
            invariant
                y < h,
                x <= len,
                h == grid.rows().len(),
                len == grid.rows()[y as int].len(),
                m == grid@,
                m == grid_of(grid.rows()),
                survey.w == w,
                survey.h == h,
                n == h * w,
                n <= isize::MAX,
                survey.marked@.len() == n,
                survey.inv(m),
                survey.area@.len() == 0,
                survey.regions@.len() <= count_true(survey.marked@),
                forall|p: Point| #[trigger]
                    m.contains_key(p) && (p.y < y || (p.y == y && p.x < x)) ==> survey.marked@[spot(
                        w as nat,
                        p,
                    )],
            decreases len - x,
        {
            let seed = Point { x: x as i128, y: y as i128 };
            proof {
                assert(m.contains_key(seed));
                survey.lemma_box(m, seed);
            }
            let s = survey.spot_of(seed);
            if !survey.marked[s] {
                let token = match grid.get(&seed) {
                    Some(c) => *c,
                    None => unreached(),
                };
                let ghost k = survey.regions@.len();
                proof {
                    assert forall|c: Point| m.contains_key(c) && #[trigger] before(c, seed)
                        implies survey.marked@[spot(w as nat, c)] && survey.owner@[spot(w as nat, c)]
                        < k by {
                        survey.lemma_held(m, c);
                    }
                }
                let ghost pre = survey;
                survey.begin(Ghost(m), seed);
                proof {
                    assert forall|c: Point| m.contains_key(c) && #[trigger] before(c, seed)
                        implies survey.marked@[spot(w as nat, c)] && survey.owner@[spot(w as nat, c)]
                        < k by {
                        pre.lemma_box(m, c);
                        assert(pre.marked@[spot(w as nat, c)]);
                    }
                    assert forall|p: Point| #[trigger]
                        m.contains_key(p) && (p.y < y || (p.y == y && p.x < x))
                        implies survey.marked@[spot(w as nat, p)] by {
                        pre.lemma_box(m, p);
                        assert(pre.marked@[spot(w as nat, p)]);
                    }
                }
                let mut i: usize = 0;
                while i < survey.area.len()
                    invariant
                        m == grid@,
                        survey.w == w,
                        survey.h == h,
                        n == h * w,
                        n <= isize::MAX,
                        survey.marked@.len() == n,
                        survey.inv(m),
                        survey.regions@.len() == k,
                        k + 1 <= count_true(survey.marked@),
                        survey.area@.len() >= 1,
                        survey.area@[0] == seed,
                        token == m[seed],
                        i <= survey.area@.len(),
                        forall|j: int, q: Point|
                            0 <= j < i && #[trigger] linked(m, survey.area@[j], q)
                                ==> survey.area@.contains(q),
                        forall|c: Point|
                            m.contains_key(c) && #[trigger] before(c, seed) ==> survey.marked@[spot(
                                w as nat,
                                c,
                            )] && survey.owner@[spot(w as nat, c)] < k,
                        forall|p: Point| #[trigger]
                            m.contains_key(p) && (p.y < y || (p.y == y && p.x < x))
                                ==> survey.marked@[spot(w as nat, p)],
                    decreases n - count_true(survey.marked@) + (survey.area@.len() - i),
                {
                    let ghost start = survey;
                    proof {
                        lemma_count_true_bound(survey.marked@);
                    }
                    survey.spread(grid, token, i);
                    proof {
                        lemma_count_true_bound(survey.marked@);
                        let last = survey.area@;
                        assert forall|j: int, q: Point|
                            0 <= j < i + 1 && #[trigger] linked(m, last[j], q) implies last.contains(
                            q,
                        ) by {
                            assert(last[j] == start.area@[j]);
                            if j < i {
                                assert(linked(m, start.area@[j], q));
                                lemma_grown_holds(start.area@, last, q);
                            }
                        }
                        assert forall|p: Point| #[trigger]
                            m.contains_key(p) && (p.y < y || (p.y == y && p.x < x))
                            implies survey.marked@[spot(w as nat, p)] by {
                            start.lemma_box(m, p);
                        }
                        assert forall|p: Point| m.contains_key(p) && #[trigger] before(p, seed)
                            implies survey.marked@[spot(w as nat, p)] && survey.owner@[spot(
                            w as nat,
                            p,
                        )] < k by {
                            start.lemma_box(m, p);
                            assert(start.marked@[spot(w as nat, p)]);
                        }
                    }
                    i += 1;
                }
                proof {
                    lemma_count_true_bound(survey.marked@);
                    survey.lemma_found(m, 0);
                }
                survey.finish(Ghost(m), token);
            }
            proof {
                assert forall|p: Point| #[trigger]
                    m.contains_key(p) && (p.y < y || (p.y == y && p.x < x + 1))
                    implies survey.marked@[spot(w as nat, p)] by {
                    if p.y == y && p.x == x {
                        assert(p == seed);
                    }
                }
            }
            x += 1;
        }
        y += 1;
    }
    proof {
        let regions = survey.regions@;
        survey.lemma_regions(m);
        assert forall|p: Point| #[trigger] m.contains_key(p) implies covered(
            regions,
            regions.len() as int,
            p,
        ) by {
            survey.lemma_box(m, p);
            assert(survey.marked@[spot(w as nat, p)]);
            survey.lemma_held(m, p);
            let o = survey.owner@[spot(w as nat, p)] as int;
            assert(regions[o].area@.contains(p));
        }
        assert forall|i: int, p: Point|
            0 <= i < regions.len() && m.contains_key(p) && #[trigger] before(p, regions[i].area@[0])
            implies covered(regions, i, p) by {
            survey.lemma_box(m, p);
            assert(survey.marked@[spot(w as nat, p)]);
            survey.lemma_held(m, p);
            let o = survey.owner@[spot(w as nat, p)] as int;
            assert(regions[o].area@.contains(p));
        }
    }
    survey
}

/// The regions of the garden, in the order in which their first cells
/// stand in it.
pub fn get_regions(grid: &CharGrid) -> (regions: Vec<Region>)
    requires
        plain(grid@),
        fits(grid.rows()),
    ensures
        partition(grid@, regions@),
{
    survey(grid).regions
}

/// A region has as many cells as the region of each of its cells.
pub proof fn lemma_plot_size(m: Map<Point, char>, r: Region, p: Point)
    requires
        tame(m),
        whole(m, r),
        r.area@.contains(p),
    ensures
        plot(m, p).finite(),
        plot(m, p).len() == r.area@.len(),
{
    reveal(whole);
    let seed = r.area@[0];
    lemma_connected_back(m, seed, p);
    assert forall|q: Point| r.area@.contains(q) <==> plot(m, p).contains(q) by {
        if r.area@.contains(q) {
            lemma_connected_through(m, p, seed, q);
        }
        if connected(m, p, q) {
            lemma_connected_through(m, seed, p, q);
        }
    }
    assert(r.area@.to_set() =~= plot(m, p));
    r.area@.unique_seq_to_set();
}

/// Whether the neighbour of `p` in the direction `d` holds another letter
/// than `token` or lies outside: whether a fence stands on that side.
pub open spec fn fenced(m: Map<Point, char>, token: char, p: Point, d: TravelDirection) -> bool {
    token_at(m, step(p, d)) != token
}

/// One where the condition holds, nothing where it does not.
pub open spec fn one_if(b: bool) -> nat {
    if b {
        1
    } else {
        0
    }
}

/// The number of sides of the cell `p` on which a fence stands round a
/// region with the letter `token`.
pub open spec fn fences(m: Map<Point, char>, token: char, p: Point) -> nat {
    one_if(fenced(m, token, p, TravelDirection::W)) + one_if(fenced(m, token, p, TravelDirection::E))
        + one_if(fenced(m, token, p, TravelDirection::N)) + one_if(
        fenced(m, token, p, TravelDirection::S),
    )
}

/// The neighbours of `p` to the left, to the right, above and below, each
/// with its letter, or a question mark where it lies outside.
pub open spec fn around(m: Map<Point, char>, p: Point) -> Seq<(Point, char)> {
    seq![
        (step(p, TravelDirection::W), token_at(m, step(p, TravelDirection::W))),
        (step(p, TravelDirection::E), token_at(m, step(p, TravelDirection::E))),
        (step(p, TravelDirection::N), token_at(m, step(p, TravelDirection::N))),
        (step(p, TravelDirection::S), token_at(m, step(p, TravelDirection::S))),
    ]
}

/// The letter at `p`, or a question mark where `p` lies outside.
pub fn token(grid: &CharGrid, p: Point) -> (c: char)
    ensures
        c == token_at(grid@, p),
{
    match grid.get(&p) {
        Some(c) => *c,
        None => '?',
    }
}

impl CharGrid {
    /// The neighbours of `p` to the left, to the right, above and below,
    /// each with its letter, or a question mark where it lies outside.
    pub fn neighbors_incl_outs(&self, p: &Point) -> (r: Vec<(Point, char)>)
        requires
            p.has_room(),
        ensures
            r@ == around(self@, *p),
    {
        let left = neighbor(*p, TravelDirection::W);
        let right = neighbor(*p, TravelDirection::E);
        let up = neighbor(*p, TravelDirection::N);
        let down = neighbor(*p, TravelDirection::S);
        let mut r: Vec<(Point, char)> = Vec::new();
        r.push((left, token(self, left)));
        r.push((right, token(self, right)));
        r.push((up, token(self, up)));
        r.push((down, token(self, down)));
        proof {
            assert(r@ =~= around(self@, *p));
        }
        r
    }
}

/// The number of sides of the cell `p` on which a fence stands round a
/// region with the letter `token`.
pub fn fences_at(grid: &CharGrid, token: char, p: Point) -> (n: usize)
    requires
        p.has_room(),
    ensures
        n == fences(grid@, token, p),
        n <= 4,
{
    let near = grid.neighbors_incl_outs(&p);
    let mut n: usize = 0;
    if near[0].1 != token {
        n += 1;
    }
    if near[1].1 != token {
        n += 1;
    }
    if near[2].1 != token {
        n += 1;
    }
    if near[3].1 != token {
        n += 1;
    }
    n
}

/// The fences round the first `k` cells of `area`, added up.
pub open spec fn perimeter(m: Map<Point, char>, token: char, area: Seq<Point>, k: nat) -> nat
    decreases k,
{
    if k == 0 {
        0
    } else {
        perimeter(m, token, area, (k - 1) as nat) + fences(m, token, area[k - 1])
    }
}

/// There are at most four fences for each cell.
pub proof fn lemma_perimeter_bound(m: Map<Point, char>, token: char, area: Seq<Point>, k: nat)
    ensures
        perimeter(m, token, area, k) <= 4 * k,
    decreases k,
{
    if k > 0 {
        lemma_perimeter_bound(m, token, area, (k - 1) as nat);
    }
}

impl Region {
    /// The region with the letter `c` and no cell yet.
    pub fn new(c: char) -> (r: Region)
        ensures
            r.token == c,
            r.area@.len() == 0,
    {
        Region { token: c, area: Vec::new() }
    }

    /// The number of cells of the region.
    pub fn get_area(&self) -> (n: usize)
        ensures
            n == self.area@.len(),
    {
        self.area.len()
    }

    /// The number of fences round the region: for each of its cells, its
    /// sides on which the neighbour holds another letter or lies outside.
    pub fn get_perimeter(&self, grid: &CharGrid) -> (n: usize)
        requires
            4 * self.area@.len() <= usize::MAX,
            forall|j: int| 0 <= j < self.area@.len() ==> (#[trigger] self.area@[j]).has_room(),
        ensures
            n == perimeter(grid@, self.token, self.area@, self.area@.len()),
    {
        let mut n: usize = 0;
        let mut k: usize = 0;
        while k < self.area.len()
            invariant
                k <= self.area@.len(),
                4 * self.area@.len() <= usize::MAX,
                forall|j: int| 0 <= j < self.area@.len() ==> (#[trigger] self.area@[j]).has_room(),
                n == perimeter(grid@, self.token, self.area@, k as nat),
                n <= 4 * k,
            decreases self.area@.len() - k,
        {
            let f = fences_at(grid, self.token, self.area[k]);
            n += f;
            k += 1;
        }
        n
    }
}

/// What a cell adds to the price of the fences by their length: the
/// number of its fences for each cell of its region.
pub open spec fn cost_at(m: Map<Point, char>, p: Point) -> nat {
    fences(m, token_at(m, p), p) * plot(m, p).len()
}

/// The price of all fences of the garden by their length: for each
/// region, the number of its cells times the number of its fences.
pub open spec fn price(rows: Seq<Seq<char>>) -> nat {
    grid_sum(rows, |p: Point| cost_at(grid_of(rows), p))
}

/// The price of all fences of the garden by their length.
pub fn solve_day_12_part_01(input: &str) -> (r: usize)
    requires
        plain(grid_of(split_lines(input@))),
        fits(split_lines(input@)),
        price(split_lines(input@)) <= usize::MAX,
    ensures
        r == price(split_lines(input@)),
{
    let grid = CharGrid::parse(input);
    let ghost rows = grid.rows();
    let ghost m = grid@;
    let ghost f = |p: Point| cost_at(grid_of(rows), p);
    let found = survey(&grid);
    let h = grid.height();
    let mut total: usize = 0;
    let mut y: usize = 0;
    while y < h
        invariant
            y <= h,
            h == rows.len(),
            rows == grid.rows(),
            m == grid@,
            m == grid_of(rows),
            f == (|p: Point| cost_at(grid_of(rows), p)),
            grid_sum(rows, f) <= usize::MAX,
            found.inv(m),
            found.area@.len() == 0,
            forall|p: Point| #[trigger] m.contains_key(p) ==> found.marked@[spot(found.w as nat, p)],
            total == if y == 0 {
                0
            } else {
                cells_sum(rows, y - 1, rows[y - 1].len() as int, f)
            },
        decreases h - y,
    {
        let w = grid.row_len(y);
        let mut x: usize = 0;
        while x < w
            invariant
                y < h,
                x <= w,
                h == rows.len(),
                w == rows[y as int].len(),
                rows == grid.rows(),
                m == grid@,
                m == grid_of(rows),
                f == (|p: Point| cost_at(grid_of(rows), p)),
                grid_sum(rows, f) <= usize::MAX,
                found.inv(m),
                found.area@.len() == 0,
                forall|p: Point| #[trigger] m.contains_key(p) ==> found.marked@[spot(found.w as nat, p)],
                total == cells_sum(rows, y as int, x as int, f),
            decreases w - x,
        {
            let p = Point { x: x as i128, y: y as i128 };
            proof {
                lemma_cells_sum_grows(rows, y as int, x + 1, f);
                assert(m.contains_key(p));
            }
            let size = found.size_at(Ghost(m), p);
            let n = fences_at(&grid, token(&grid, p), p);
            assert(n * size == cost_at(m, p)) by (nonlinear_arith)
                requires
                    n == fences(m, token_at(m, p), p),
                    size == plot(m, p).len(),
                    cost_at(m, p) == fences(m, token_at(m, p), p) * plot(m, p).len(),
            ;
            total = total + n * size;
            x = x + 1;
        }
        y = y + 1;
    }
    total
}

} // verus!
