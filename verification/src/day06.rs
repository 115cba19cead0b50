//! A guard who patrols a mapped room.
//!
//! The map is a text of `.` for free floor, `#` for an obstacle and `^` for
//! the place where the guard starts, facing north, towards the first line.
//! The guard walks straight on; in front of an obstacle she turns right
//! where she stands. What lies outside the map is out: a guard who steps
//! there has left. Of one patrol this module counts the places visited, and
//! it counts the places where one more obstacle would keep the guard in the
//! room for ever.

use crate::maze::longest_row;
use crate::maze::max_len;
use crate::route::step;
use crate::route::State;
use crate::route::TravelDirection;
use crate::search::count_true;
use crate::search::in_box;
use crate::search::lemma_count_all_false;
use crate::search::lemma_count_true_bound;
use crate::search::lemma_count_true_set;
use crate::search::lemma_slot_injective;
use crate::search::lemma_slot_range;
use crate::search::neighbor;
use crate::search::slot;
use crate::util::point::Point;
use crate::util::text::chars_of;
use crate::util::text::lines;
use crate::util::text::split_lines;
use crate::util::text::views;
use vstd::pervasive::unreached;
use vstd::prelude::*;

verus! {

/// What a place of the room holds.
#[derive(Debug, Clone, Copy, PartialEq, Eq, Structural)]
pub enum FieldType {
    /// Floor that the guard can walk on.
    Free,
    /// An obstacle.
    Occupied,
    /// No place of the map.
    Out,
}

/// Whether `p` is a place of the map with the lines `rows`.
pub open spec fn inside(rows: Seq<Seq<char>>, p: Point) -> bool {
    0 <= p.y < rows.len() && 0 <= p.x < rows[p.y as int].len()
}

/// What the place `p` holds in the map with the lines `rows` and one more
/// obstacle at `wall`, if there is one.
pub open spec fn field(rows: Seq<Seq<char>>, wall: Option<Point>, p: Point) -> FieldType {
    if !inside(rows, p) {
        FieldType::Out
    } else if wall == Some(p) || rows[p.y as int][p.x as int] == '#' {
        FieldType::Occupied
    } else {
        FieldType::Free
    }
}

/// Whether `c` is a character of a map.
pub open spec fn known(c: char) -> bool {
    c == '#' || c == '.' || c == '^'
}

/// Whether the lines hold characters of a map only.
pub open spec fn well_formed(rows: Seq<Seq<char>>) -> bool {
    forall|y: int, x: int|
        0 <= y < rows.len() && 0 <= x < rows[y].len() ==> known(#[trigger] rows[y][x])
}

/// The last start mark of the line `row`, which is line `y` of the map.
pub open spec fn start_in_row(row: Seq<char>, y: int) -> Option<Point>
    decreases row.len(),
{
    if row.len() == 0 {
        None
    } else if row.last() == '^' {
        Some(Point { x: (row.len() - 1) as i128, y: y as i128 })
    } else {
        start_in_row(row.drop_last(), y)
    }
}

/// The place where the guard starts: the last start mark of the map.
pub open spec fn start_of(rows: Seq<Seq<char>>) -> Option<Point>
    decreases rows.len(),
{
    if rows.len() == 0 {
        None
    } else {
        match start_in_row(rows.last(), rows.len() - 1) {
            Some(p) => Some(p),
            None => start_of(rows.drop_last()),
        }
    }
}

/// Whether the lines are a map that this module can hold: known
/// characters only, a start, and an area of which a table with four entries
/// for each place can be had.
pub open spec fn readable(rows: Seq<Seq<char>>) -> bool {
    &&& well_formed(rows)
    &&& start_of(rows) is Some
    &&& 4 * (rows.len() * max_len(rows)) <= isize::MAX
}

/// The heading to the right of `d`.
pub open spec fn turned(d: TravelDirection) -> TravelDirection {
    match d {
        TravelDirection::N => TravelDirection::E,
        TravelDirection::E => TravelDirection::S,
        TravelDirection::S => TravelDirection::W,
        TravelDirection::W => TravelDirection::N,
    }
}

/// The guard after one step from the state `s`: moved on, turned where she
/// stood, or none where she has left the map.
pub open spec fn advance(rows: Seq<Seq<char>>, wall: Option<Point>, s: State) -> Option<State> {
    match field(rows, wall, step(s.at, s.heading)) {
        FieldType::Out => None,
        FieldType::Occupied => Some(State { at: s.at, heading: turned(s.heading) }),
        FieldType::Free => Some(State { at: step(s.at, s.heading), heading: s.heading }),
    }
}

/// The guard after `n` steps from `start`, or none where she has left the
/// map by then.
pub open spec fn walk(rows: Seq<Seq<char>>, wall: Option<Point>, start: Point, n: nat) -> Option<
    State,
>
    decreases n,
{
    if n == 0 {
        Some(State { at: start, heading: TravelDirection::N })
    } else {
        match walk(rows, wall, start, (n - 1) as nat) {
            Some(s) => advance(rows, wall, s),
            None => None,
        }
    }
}

/// Whether the guard leaves the map at some time.
pub open spec fn leaves(rows: Seq<Seq<char>>, wall: Option<Point>, start: Point) -> bool {
    exists|n: nat| walk(rows, wall, start, n) is None
}

/// Where the guard stands after `n` steps, if she is in the room.
pub open spec fn place(rows: Seq<Seq<char>>, wall: Option<Point>, start: Point, n: nat) -> Option<
    Point,
> {
    match walk(rows, wall, start, n) {
        Some(s) => Some(s.at),
        None => None,
    }
}

/// Whether the guard stands at `p` at some time.
pub open spec fn visits(rows: Seq<Seq<char>>, wall: Option<Point>, start: Point, p: Point) -> bool {
    exists|n: nat| place(rows, wall, start, n) == Some(p)
}

/// The places that the guard visits.
pub open spec fn visited(rows: Seq<Seq<char>>, wall: Option<Point>, start: Point) -> Set<Point> {
    Set::new(|p: Point| visits(rows, wall, start, p))
}

/// Whether an obstacle at `c` would keep the guard in the room for ever:
/// `c` is a place that she visits, other than the start, and with the
/// obstacle there she never leaves.
pub open spec fn traps(rows: Seq<Seq<char>>, start: Point, c: Point) -> bool {
    c != start && visits(rows, None, start, c) && !leaves(rows, Some(c), start)
}

/// The places where one more obstacle would keep the guard in the room.
pub open spec fn traps_of(rows: Seq<Seq<char>>, start: Point) -> Set<Point> {
    Set::new(|c: Point| traps(rows, start, c))
}

/// A guard who is in the room after `n` steps was there after each
/// smaller number of steps.
pub proof fn lemma_walk_before(rows: Seq<Seq<char>>, wall: Option<Point>, start: Point, n: nat, k: nat)
    requires
        k <= n,
        walk(rows, wall, start, n) is Some,
    ensures
        walk(rows, wall, start, k) is Some,
    decreases n,
{
    if k < n {
        lemma_walk_before(rows, wall, start, (n - 1) as nat, k);
    }
}

/// A guard whose state after `n + 1` steps is her state after `k <= n`
/// steps goes round for ever: after any number of steps she is in the room,
/// in a state that she was in within the first `n` steps.
pub proof fn lemma_cycle(
    rows: Seq<Seq<char>>,
    wall: Option<Point>,
    start: Point,
    n: nat,
    k: nat,
    m: nat,
) -> (j: nat)
    requires
        k <= n,
        walk(rows, wall, start, n + 1) is Some,
        walk(rows, wall, start, n + 1) == walk(rows, wall, start, k),
    ensures
        j <= n,
        walk(rows, wall, start, m) is Some,
        walk(rows, wall, start, m) == walk(rows, wall, start, j),
    decreases m,
{
    if m <= n {
        lemma_walk_before(rows, wall, start, n + 1, m);
        m
    } else {
        let i = lemma_cycle(rows, wall, start, n, k, (m - 1) as nat);
        lemma_walk_before(rows, wall, start, n + 1, i + 1);
        assert(walk(rows, wall, start, m) == walk(rows, wall, start, i + 1));
        if i + 1 <= n {
            i + 1
        } else {
            k
        }
    }
}

/// The start of a map is one of its places.
pub proof fn lemma_start_inside(rows: Seq<Seq<char>>)
    requires
        start_of(rows) is Some,
        rows.len() <= usize::MAX,
        forall|y: int| 0 <= y < rows.len() ==> (#[trigger] rows[y]).len() <= usize::MAX,
    ensures
        inside(rows, start_of(rows)->0),
    decreases rows.len(),
{
    if rows.len() > 0 {
        match start_in_row(rows.last(), rows.len() - 1) {
            Some(p) => {
                lemma_start_in_row(rows.last(), rows.len() - 1);
            },
            None => {
                lemma_start_inside(rows.drop_last());
            },
        }
    }
}

/// The start mark found in a line is a place of that line.
pub proof fn lemma_start_in_row(row: Seq<char>, y: int)
    requires
        start_in_row(row, y) is Some,
        0 <= y <= i128::MAX,
        row.len() <= i128::MAX,
    ensures
        start_in_row(row, y)->0.y == y,
        0 <= start_in_row(row, y)->0.x < row.len(),
    decreases row.len(),
{
    if row.len() > 0 && row.last() != '^' {
        lemma_start_in_row(row.drop_last(), y);
    }
}

/// A map with the place where the guard starts and the length of its
/// longest line.
#[derive(Debug)]
pub struct Lab {
    pub rows: Vec<Vec<char>>,
    pub start: Point,
    pub width: usize,
}

impl Lab {
    /// The lines of the map.
    pub open spec fn lines(&self) -> Seq<Seq<char>> {
        views(self.rows@)
    }

    /// Whether the map is one that this module can hold, with its start
    /// and its width.
    pub open spec fn wf(&self) -> bool {
        &&& readable(self.lines())
        &&& start_of(self.lines()) == Some(self.start)
        &&& self.width == max_len(self.lines())
        &&& self.rows@.len() <= usize::MAX
        &&& forall|y: int| 0 <= y < self.rows@.len() ==> (#[trigger] self.rows@[y]).len() <= self.width
    }

    /// The places of a map lie in the box of its width and height.
    pub proof fn lemma_in_box(&self, p: Point)
        requires
            self.wf(),
            inside(self.lines(), p),
        ensures
            in_box(self.width as nat, self.rows@.len() as nat, p),
            p.has_room(),
    {
        assert(self.lines()[p.y as int] == self.rows@[p.y as int]@);
        assert(self.rows@[p.y as int].len() <= self.width);
    }

    /// The start of a map is one of its places.
    pub proof fn lemma_start(&self)
        requires
            self.wf(),
        ensures
            inside(self.lines(), self.start),
    {
        let ls = self.lines();
        assert forall|y: int| 0 <= y < ls.len() implies (#[trigger] ls[y]).len() <= usize::MAX by {
            assert(ls[y] == self.rows@[y]@);
            assert(self.rows@[y].len() <= self.width);
        }
        lemma_start_inside(ls);
    }
}

/// The heading to the right of `d`.
pub fn turn(d: TravelDirection) -> (r: TravelDirection)
    ensures
        r == turned(d),
{
    match d {
        TravelDirection::N => TravelDirection::E,
        TravelDirection::E => TravelDirection::S,
        TravelDirection::S => TravelDirection::W,
        TravelDirection::W => TravelDirection::N,
    }
}

/// Whether the lines hold characters of a map only.
pub fn all_known(rows: &Vec<Vec<char>>) -> (b: bool)
    ensures
        b == well_formed(views(rows@)),
{
    let ghost ls = views(rows@);
    let mut y: usize = 0;
    while y < rows.len()
        invariant
            y <= rows.len(),
            ls == views(rows@),
            forall|i: int, x: int| 0 <= i < y && 0 <= x < ls[i].len() ==> known(#[trigger] ls[i][x]),
        decreases rows.len() - y,
    {
        let row = &rows[y];
        assert(ls[y as int] == row@);
        let mut x: usize = 0;
        while x < row.len()
            invariant
                x <= row.len(),
                y < rows.len(),
                ls == views(rows@),
                ls[y as int] == row@,
                forall|j: int| 0 <= j < x ==> known(#[trigger] row@[j]),
            decreases row.len() - x,
        {
            let c = row[x];
            if !(c == '#' || c == '.' || c == '^') {
                assert(!known(ls[y as int][x as int]));
                return false;
            }
            x += 1;
        }
        y += 1;
    }
    true
}

/// The last start mark of a line.
pub fn start_in(row: &Vec<char>, y: usize) -> (r: Option<Point>)
    ensures
        r == start_in_row(row@, y as int),
{
    let mut found: Option<Point> = None;
    let mut x: usize = 0;
    while x < row.len()
        invariant
            x <= row.len(),
            found == start_in_row(row@.take(x as int), y as int),
        decreases row.len() - x,
    {
        assert(row@.take(x + 1).drop_last() =~= row@.take(x as int));
        if row[x] == '^' {
            found = Some(Point { x: x as i128, y: y as i128 });
        }
        x += 1;
    }
    assert(row@.take(x as int) =~= row@);
    found
}

/// The place where the guard starts.
pub fn find_start(rows: &Vec<Vec<char>>) -> (r: Option<Point>)
    ensures
        r == start_of(views(rows@)),
{
    let ghost ls = views(rows@);
    let mut found: Option<Point> = None;
    let mut y: usize = 0;
    while y < rows.len()
        invariant
            y <= rows.len(),
            ls == views(rows@),
            found == start_of(ls.take(y as int)),
        decreases rows.len() - y,
    {
        assert(ls.take(y + 1).drop_last() =~= ls.take(y as int));
        assert(ls.take(y + 1).last() == rows@[y as int]@);
        match start_in(&rows[y], y) {
            Some(p) => {
                found = Some(p);
            },
            None => {},
        }
        y += 1;
    }
    assert(ls.take(y as int) =~= ls);
    found
}

/// Reads a map. There is none where the text holds another character than
/// those of a map, or no start, or is too large.
pub fn parse_to_map(input: &str) -> (r: Option<Lab>)
    ensures
        r is Some <==> readable(split_lines(input@)),
        r is Some ==> r->0.wf() && r->0.lines() == split_lines(input@),
{
    let chars = chars_of(input);
    let rows = lines(&chars);
    if !all_known(&rows) {
        return None;
    }
    let start = match find_start(&rows) {
        Some(p) => p,
        None => {
            return None;
        },
    };
    let width = longest_row(&rows);
    let height = rows.len();
    assert(height * width <= usize::MAX * usize::MAX) by (nonlinear_arith)
        requires
            height <= usize::MAX,
            width <= usize::MAX,
    ;
    let area: u128 = (height as u128) * (width as u128);
    if area > (isize::MAX / 4) as u128 {
        return None;
    }
    Some(Lab { rows, start, width })
}

/// What the place `p` holds in the map with one more obstacle at `wall`,
/// if there is one.
pub fn look(lab: &Lab, wall: Option<Point>, p: Point) -> (f: FieldType)
    ensures
        f == field(lab.lines(), wall, p),
{
    if p.y < 0 || p.x < 0 || p.y >= lab.rows.len() as i128 {
        return FieldType::Out;
    }
    let row = &lab.rows[p.y as usize];
    assert(lab.lines()[p.y as int] == row@);
    if p.x >= row.len() as i128 {
        return FieldType::Out;
    }
    let walled = match wall {
        Some(q) => q.x == p.x && q.y == p.y,
        None => false,
    };
    if walled || row[p.x as usize] == '#' {
        FieldType::Occupied
    } else {
        FieldType::Free
    }
}

/// The place of a state in a table with four entries for each place of
/// the box of `w` columns and `h` rows.
pub fn slot_at(w: usize, h: usize, s: State) -> (i: usize)
    requires
        in_box(w as nat, h as nat, s.at),
        4 * (h * w) <= isize::MAX,
    ensures
        i == slot(w as nat, s),
        i < 4 * (h * w),
{
    proof {
        lemma_slot_range(w as nat, h as nat, s);
        let x = s.at.x as int;
        let y = s.at.y as int;
        assert(0 <= y * w && y * w + x < h * w) by (nonlinear_arith)
            requires
                0 <= x < w,
                0 <= y < h,
        ;
    }
    let x: usize = s.at.x as usize;
    let y: usize = s.at.y as usize;
    (y * w + x) * 4 + s.heading.ordinal()
}

/// The first of the four table entries of the place `p`.
pub open spec fn base(w: nat, p: Point) -> int {
    slot(w, State { at: p, heading: TravelDirection::N })
}

/// What a patrol comes to: the places visited, each once, in the order of
/// the first visit, and whether the guard leaves the map.
#[derive(Debug)]
pub struct Patrol {
    pub cells: Vec<Point>,
    pub leaves: bool,
}

/// Follows the guard through the map with one more obstacle at `wall`, if
/// there is one, until she leaves or is in a state for the second time.
pub fn patrol(lab: &Lab, wall: Option<Point>) -> (r: Patrol)
    requires
        lab.wf(),
    ensures
        r.leaves == leaves(lab.lines(), wall, lab.start),
        r.cells@.no_duplicates(),
        forall|p: Point| r.cells@.contains(p) <==> visits(lab.lines(), wall, lab.start, p),
        r.cells@.len() > 0,
        r.cells@[0] == lab.start,
        r.cells@.len() <= isize::MAX,
{
    let ghost rows = lab.lines();
    let start = lab.start;
    let w = lab.width;
    let h = lab.rows.len();
    proof {
        lab.lemma_start();
        lab.lemma_in_box(start);
    }
    let mut s = State { at: start, heading: TravelDirection::N };
    let first_slot = slot_at(w, h, s);
    let n: usize = 4 * (h * w);
    let mut seen: Vec<bool> = vec![false; n];
    let mut marked: Vec<bool> = vec![false; n];
    proof {
        lemma_count_all_false(seen@);
        lemma_count_true_set(seen@, first_slot as int);
        lemma_count_all_false(marked@);
        lemma_count_true_set(marked@, first_slot as int);
    }
    seen.set(first_slot, true);
    marked.set(first_slot, true);
    let mut cells: Vec<Point> = Vec::new();
    cells.push(start);
    let ghost mut path: Seq<State> = seq![s];
    proof {
        assert(cells@[0] == start);
        assert(place(rows, wall, start, 0) == Some(start));
        assert(base(w as nat, cells@[0]) == first_slot);
    }
    let ghost mut since: Seq<int> = Seq::new(n as nat, |i: int| 0int);
    loop
        invariant
            lab.wf(),
            rows == lab.lines(),
            start == lab.start,
            w == lab.width,
            h == lab.rows.len(),
            n == 4 * (h * w),
            seen.len() == n,
            marked.len() == n,
            since.len() == n,
            path.len() >= 1,
            s == path.last(),
            forall|k: int| 0 <= k < path.len() ==> walk(rows, wall, start, k as nat) == Some(#[trigger] path[k]),
            forall|k: int| 0 <= k < path.len() ==> inside(rows, (#[trigger] path[k]).at),
            forall|k: int|
                0 <= k < path.len() ==> 0 <= slot(w as nat, #[trigger] path[k]) < n && seen@[slot(
                    w as nat,
                    path[k],
                )],
            forall|k: int| 0 <= k < path.len() ==> cells@.contains((#[trigger] path[k]).at),
            forall|i: int| 0 <= i < n && #[trigger] seen@[i] ==> 0 <= since[i] < path.len() && slot(w as nat, path[since[i]]) == i,
            forall|j: int|
                0 <= j < cells.len() ==> inside(rows, #[trigger] cells@[j]) && visits(
                    rows,
                    wall,
                    start,
                    cells@[j],
                ) && 0 <= base(w as nat, cells@[j]) < n && marked@[base(w as nat, cells@[j])],
            forall|i: int| 0 <= i < n && #[trigger] marked@[i] ==> exists|j: int| 0 <= j < cells.len() && base(w as nat, cells@[j]) == i,
            cells@.no_duplicates(),
            cells.len() >= 1,
            cells@[0] == start,
            cells.len() == count_true(marked@),
        decreases n - count_true(seen@),
    {
        proof {
            lab.lemma_in_box(s.at);
        }
        let ahead = neighbor(s.at, s.heading);
        let t = match look(lab, wall, ahead) {
            FieldType::Out => {
                proof {
                    let steps = path.len() as nat;
                    assert(walk(rows, wall, start, steps) is None);
                    assert forall|p: Point| visits(rows, wall, start, p) implies cells@.contains(p) by {
                        let m = choose|m: nat| place(rows, wall, start, m) == Some(p);
                        if m >= steps {
                            lemma_walk_before(rows, wall, start, m, steps);
                        }
                        assert(path[m as int].at == p);
                    }
                    lemma_count_true_bound(marked@);
                }
                return Patrol { cells, leaves: true };
            },
            FieldType::Occupied => State { at: s.at, heading: turn(s.heading) },
            FieldType::Free => State { at: ahead, heading: s.heading },
        };
        proof {
            assert(walk(rows, wall, start, path.len() as nat) == Some(t));
            lab.lemma_in_box(t.at);
        }
        let i = slot_at(w, h, t);
        if seen[i] {
            proof {
                let steps = (path.len() - 1) as nat;
                let k = since[i as int] as nat;
                lemma_slot_injective(w as nat, h as nat, path[k as int], t);
                assert(walk(rows, wall, start, steps + 1) == walk(rows, wall, start, k));
                assert forall|m: nat| walk(rows, wall, start, m) is Some by {
                    let j = lemma_cycle(rows, wall, start, steps, k, m);
                }
                assert forall|p: Point| visits(rows, wall, start, p) implies cells@.contains(p) by {
                    let m = choose|m: nat| place(rows, wall, start, m) == Some(p);
                    let j = lemma_cycle(rows, wall, start, steps, k, m);
                    assert(path[j as int].at == p);
                }
                lemma_count_true_bound(marked@);
            }
            return Patrol { cells, leaves: false };
        }
        let c = slot_at(w, h, State { at: t.at, heading: TravelDirection::N });
        proof {
            lemma_count_true_set(seen@, i as int);
            assert(place(rows, wall, start, path.len() as nat) == Some(t.at));
        }
        seen.set(i, true);
        proof {
            since = since.update(i as int, path.len() as int);
            path = path.push(t);
        }
        if !marked[c] {
            proof {
                lemma_count_true_set(marked@, c as int);
                assert forall|j: int| 0 <= j < cells.len() implies cells@[j] != t.at by {
                    if cells@[j] == t.at {
                        assert(marked@[base(w as nat, cells@[j])]);
                    }
                }
            }
            let ghost before = cells@;
            marked.set(c, true);
            cells.push(t.at);
            proof {
                assert forall|k: int| 0 <= k < path.len() implies cells@.contains((#[trigger] path[k]).at) by {
                    if k < path.len() - 1 {
                        let j = choose|j: int| 0 <= j < before.len() && before[j] == path[k].at;
                        assert(cells@[j] == path[k].at);
                    } else {
                        assert(cells@[cells.len() - 1] == t.at);
                    }
                }
                assert forall|i2: int| 0 <= i2 < n && #[trigger] marked@[i2] implies exists|j: int|
                    0 <= j < cells.len() && base(w as nat, cells@[j]) == i2 by {
                    if i2 == c {
                        assert(cells@[cells.len() - 1] == t.at);
                    } else {
                        let j = choose|j: int| 0 <= j < before.len() && base(w as nat, before[j]) == i2;
                        assert(cells@[j] == before[j]);
                    }
                }
            }
        } else {
            proof {
                let j = choose|j: int| 0 <= j < cells.len() && base(w as nat, cells@[j]) == c;
                lab.lemma_in_box(cells@[j]);
                lemma_slot_injective(
                    w as nat,
                    h as nat,
                    State { at: cells@[j], heading: TravelDirection::N },
                    State { at: t.at, heading: TravelDirection::N },
                );
                assert(cells@[j] == t.at);
            }
        }
        s = t;
    }
}

/// The number of places that the guard visits.
pub fn traverse_map(lab: &Lab) -> (count: isize)
    requires
        lab.wf(),
    ensures
        visited(lab.lines(), None, lab.start).finite(),
        count == visited(lab.lines(), None, lab.start).len(),
{
    let r = patrol(lab, None);
    proof {
        r.cells@.unique_seq_to_set();
        assert(r.cells@.to_set() =~= visited(lab.lines(), None, lab.start));
    }
    r.cells.len() as isize
}

/// The number of places where one more obstacle would keep the guard in
/// the room for ever.
pub fn traverse_map_with_obstacle_loops(lab: &Lab) -> (count: usize)
    requires
        lab.wf(),
    ensures
        traps_of(lab.lines(), lab.start).finite(),
        count == traps_of(lab.lines(), lab.start).len(),
{
    let ghost rows = lab.lines();
    let ghost start = lab.start;
    let main = patrol(lab, None);
    let mut count: usize = 0;
    let mut i: usize = 1;
    let ghost mut acc: Set<Point> = Set::empty();
    assert(main.cells@.take(1) =~= seq![start]);
    while i < main.cells.len()
        invariant
            lab.wf(),
            rows == lab.lines(),
            start == lab.start,
            1 <= i <= main.cells.len(),
            main.cells@.no_duplicates(),
            main.cells@[0] == start,
            forall|p: Point| main.cells@.contains(p) <==> visits(rows, None, start, p),
            acc.finite(),
            acc.len() == count,
            count < i,
            forall|c: Point| #[trigger]
                acc.contains(c) <==> traps(rows, start, c) && main.cells@.take(i as int).contains(c),
        decreases main.cells.len() - i,
    {
        let c = main.cells[i];
        let r = patrol(lab, Some(c));
        proof {
            assert(main.cells@.take(i + 1) =~= main.cells@.take(i as int).push(c));
            assert(!main.cells@.take(i as int).contains(c));
            assert(main.cells@.contains(c));
            assert forall|x: Point|
                main.cells@.take(i + 1).contains(x) <==> main.cells@.take(i as int).contains(x) || x
                    == c by {
                if main.cells@.take(i as int).contains(x) {
                    let j = choose|j: int| 0 <= j < i && main.cells@.take(i as int)[j] == x;
                    assert(main.cells@.take(i + 1)[j] == x);
                }
                if x == c {
                    assert(main.cells@.take(i + 1)[i as int] == x);
                }
            }
        }
        if !r.leaves {
            proof {
                acc = acc.insert(c);
            }
            count += 1;
        }
        i += 1;
    }
    proof {
        assert(main.cells@.take(i as int) =~= main.cells@);
        assert(acc =~= traps_of(rows, start));
    }
    count
}

/// The number of places that the guard visits on the map that `input`
/// draws.
pub fn solve_day_06_part_01(input: String) -> (count: isize)
    requires
        readable(split_lines(input@)),
    ensures
        count == visited(split_lines(input@), None, start_of(split_lines(input@))->0).len(),
{
    match parse_to_map(input.as_str()) {
        Some(lab) => traverse_map(&lab),
        None => unreached(),
    }
}

/// The number of places of the map that `input` draws where one more
/// obstacle would keep the guard in the room for ever.
pub fn solve_day_06_part_02(input: String) -> (count: usize)
    requires
        readable(split_lines(input@)),
    ensures
        count == traps_of(split_lines(input@), start_of(split_lines(input@))->0).len(),
{
    match parse_to_map(input.as_str()) {
        Some(lab) => traverse_map_with_obstacle_loops(&lab),
        None => unreached(),
    }
}

/// The side of the largest square map that the fast count takes.
pub const MAX_MAP_SIZE: usize = 130;

/// The number of places where one more obstacle would keep the guard in
/// the room for ever, for a map of at most `MAX_MAP_SIZE` lines of at most
/// as many characters.
pub fn solve_day_06_part_02_fast(input: String) -> (count: usize)
    requires
        readable(split_lines(input@)),
        split_lines(input@).len() <= MAX_MAP_SIZE,
        max_len(split_lines(input@)) <= MAX_MAP_SIZE,
    ensures
        count == traps_of(split_lines(input@), start_of(split_lines(input@))->0).len(),
{
    match parse_to_map(input.as_str()) {
        Some(lab) => traverse_map_with_obstacle_loops(&lab),
        None => unreached(),
    }
}

} // verus!
