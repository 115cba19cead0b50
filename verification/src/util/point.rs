//! Integer points in the plane with unit steps and Manhattan distance.

use vstd::prelude::*;
use vstd::std_specs::convert::FromSpecImpl;
use vstd::std_specs::ops::AddSpecImpl;
use vstd::std_specs::ops::MulSpecImpl;
use vstd::std_specs::ops::SubSpecImpl;

verus! {

/// A cell coordinate. `x` grows to the right, `y` grows downwards.
#[derive(Debug, Copy, Clone, PartialEq, Eq, Hash, Structural)]
pub struct Point {
    pub x: i128,
    pub y: i128,
}

/// The absolute value of an integer.
pub open spec fn abs(v: int) -> nat {
    if v < 0 {
        (-v) as nat
    } else {
        v as nat
    }
}

/// The Manhattan distance between two points.
pub open spec fn manhattan(a: Point, b: Point) -> nat {
    abs(a.x - b.x) + abs(a.y - b.y)
}

/// Membership in a sequence after one more element was appended.
pub proof fn lemma_push_contains<T>(s: Seq<T>, a: T, p: T)
    ensures
        s.push(a).contains(p) <==> (s.contains(p) || p == a),
{
    if s.contains(p) {
        let i = choose|i: int| 0 <= i < s.len() && s[i] == p;
        assert(s.push(a)[i] == p);
    }
    if p == a {
        assert(s.push(a)[s.len() as int] == p);
    }
    if s.push(a).contains(p) {
        let i = choose|i: int| 0 <= i < s.push(a).len() && s.push(a)[i] == p;
        if i < s.len() {
            assert(s[i] == p);
        }
    }
}

/// The distance between two coordinates on one axis.
pub fn abs_diff(a: i128, b: i128) -> (d: u128)
    ensures
        d == abs(a - b),
{
    let (hi, lo) = if a >= b {
        (a, b)
    } else {
        (b, a)
    };
    if lo >= 0 || hi < 0 {
        (hi - lo) as u128
    } else {
        (hi as u128) + ((-(lo + 1)) as u128) + 1
    }
}

impl Default for Point {
    fn default() -> (p: Point)
        ensures
            p.x == 0,
            p.y == 0,
    {
        Point { x: 0, y: 0 }
    }
}

impl Point {
    /// The point with the coordinates `x` and `y`.
    pub fn new(x: i128, y: i128) -> (p: Point)
        ensures
            p.x == x,
            p.y == y,
    {
        Point { x, y }
    }

    /// The point one step to the left.
    pub fn left(&self) -> (p: Point)
        requires
            self.x > i128::MIN,
        ensures
            p.x == self.x - 1,
            p.y == self.y,
    {
        Point { x: self.x - 1, y: self.y }
    }

    /// The point one step up (towards smaller `y`).
    pub fn up(&self) -> (p: Point)
        requires
            self.y > i128::MIN,
        ensures
            p.x == self.x,
            p.y == self.y - 1,
    {
        Point { x: self.x, y: self.y - 1 }
    }

    /// The point one step to the right.
    pub fn right(&self) -> (p: Point)
        requires
            self.x < i128::MAX,
        ensures
            p.x == self.x + 1,
            p.y == self.y,
    {
        Point { x: self.x + 1, y: self.y }
    }

    /// The point one step down (towards larger `y`).
    pub fn down(&self) -> (p: Point)
        requires
            self.y < i128::MAX,
        ensures
            p.x == self.x,
            p.y == self.y + 1,
    {
        Point { x: self.x, y: self.y + 1 }
    }

    /// Whether all four unit steps from this point stay representable.
    pub open spec fn has_room(&self) -> bool {
        i128::MIN < self.x < i128::MAX && i128::MIN < self.y < i128::MAX
    }

    /// The four direct neighbours in the order up, right, down, left.
    pub fn neighbors(&self) -> (r: [Point; 4])
        requires
            self.has_room(),
        ensures
            r[0] == (Point { x: self.x, y: (self.y - 1) as i128 }),
            r[1] == (Point { x: (self.x + 1) as i128, y: self.y }),
            r[2] == (Point { x: self.x, y: (self.y + 1) as i128 }),
            r[3] == (Point { x: (self.x - 1) as i128, y: self.y }),
    {
        [self.up(), self.right(), self.down(), self.left()]
    }

    /// The Manhattan distance to `other`, if it fits the result type.
    pub fn distance_to(&self, other: &Point) -> (d: Option<u128>)
        ensures
            match d {
                Some(v) => v == manhattan(*self, *other),
                None => manhattan(*self, *other) > u128::MAX,
            },
    {
        let dx: u128 = abs_diff(self.x, other.x);
        let dy: u128 = abs_diff(self.y, other.y);
        dx.checked_add(dy)
    }

    /// All points whose Manhattan distance to `self` is at most `n`, each once.
    pub fn proximity_manhattan(&self, n: u8) -> (r: Vec<Point>)
        requires
            i128::MIN <= self.x - n,
            self.x + n <= i128::MAX,
            i128::MIN <= self.y - n,
            self.y + n <= i128::MAX,
        ensures
            forall|p: Point| r@.contains(p) <==> manhattan(*self, p) <= n,
            r@.no_duplicates(),
    {
        let n: i128 = n as i128;
        let mut r: Vec<Point> = Vec::new();
        let mut dx: i128 = -n;
        while dx <= n
            invariant
                0 <= n <= 255,
                -n <= dx <= n + 1,
                i128::MIN <= self.x - n,
                self.x + n <= i128::MAX,
                i128::MIN <= self.y - n,
                self.y + n <= i128::MAX,
                r@.no_duplicates(),
                forall|p: Point|
                    r@.contains(p) <==> (manhattan(*self, p) <= n && p.x - self.x < dx),
            decreases n - dx + 1,
        {
            let max_dy: i128 = if dx < 0 {
                n + dx
            } else {
                n - dx
            };
            let mut dy: i128 = -max_dy;
            while dy <= max_dy
                invariant
                    0 <= n <= 255,
                    -n <= dx <= n,
                    max_dy == n - abs(dx as int),
                    -max_dy <= dy <= max_dy + 1,
                    i128::MIN <= self.x - n,
                    self.x + n <= i128::MAX,
                    i128::MIN <= self.y - n,
                    self.y + n <= i128::MAX,
                    r@.no_duplicates(),
                    forall|p: Point|
                        r@.contains(p) <==> (manhattan(*self, p) <= n && (p.x - self.x < dx || (p.x
                            - self.x == dx && p.y - self.y < dy))),
                decreases max_dy - dy + 1,
            {
                let q = Point { x: self.x + dx, y: self.y + dy };
                proof {
                    assert(!r@.contains(q));
                    assert forall|p: Point|
                        r@.push(q).contains(p) <==> (manhattan(*self, p) <= n && (p.x - self.x < dx
                            || (p.x - self.x == dx && p.y - self.y < dy + 1))) by {
                        lemma_push_contains(r@, q, p);
                    }
                }
                r.push(q);
                dy = dy + 1;
            }
            dx = dx + 1;
        }
        r
    }
}

impl core::ops::Add<Point> for Point {
    type Output = Point;

    fn add(self, rhs: Point) -> (p: Point) {
        Point { x: self.x + rhs.x, y: self.y + rhs.y }
    }
}

impl AddSpecImpl<Point> for Point {
    open spec fn obeys_add_spec() -> bool {
        true
    }

    open spec fn add_req(self, rhs: Point) -> bool {
        &&& i128::MIN <= self.x + rhs.x <= i128::MAX
        &&& i128::MIN <= self.y + rhs.y <= i128::MAX
    }

    open spec fn add_spec(self, rhs: Point) -> Point {
        Point { x: (self.x + rhs.x) as i128, y: (self.y + rhs.y) as i128 }
    }
}

impl core::ops::Sub<Point> for Point {
    type Output = Point;

    fn sub(self, rhs: Point) -> (p: Point) {
        Point { x: self.x - rhs.x, y: self.y - rhs.y }
    }
}

impl SubSpecImpl<Point> for Point {
    open spec fn obeys_sub_spec() -> bool {
        true
    }

    open spec fn sub_req(self, rhs: Point) -> bool {
        &&& i128::MIN <= self.x - rhs.x <= i128::MAX
        &&& i128::MIN <= self.y - rhs.y <= i128::MAX
    }

    open spec fn sub_spec(self, rhs: Point) -> Point {
        Point { x: (self.x - rhs.x) as i128, y: (self.y - rhs.y) as i128 }
    }
}

impl core::ops::Mul<usize> for Point {
    type Output = Point;

    fn mul(self, rhs: usize) -> (p: Point) {
        Point { x: self.x * (rhs as i128), y: self.y * (rhs as i128) }
    }
}

impl MulSpecImpl<usize> for Point {
    open spec fn obeys_mul_spec() -> bool {
        true
    }

    open spec fn mul_req(self, rhs: usize) -> bool {
        &&& i128::MIN <= self.x * rhs <= i128::MAX
        &&& i128::MIN <= self.y * rhs <= i128::MAX
    }

    open spec fn mul_spec(self, rhs: usize) -> Point {
        Point { x: (self.x * rhs) as i128, y: (self.y * rhs) as i128 }
    }
}

impl From<&(u128, u128)> for Point {
    fn from(value: &(u128, u128)) -> (p: Point) {
        Point { x: value.0 as i128, y: value.1 as i128 }
    }
}

impl FromSpecImpl<&(u128, u128)> for Point {
    open spec fn obeys_from_spec() -> bool {
        true
    }

    /// The point with the given coordinates, each taken as a signed
    /// number of the same bits.
    open spec fn from_spec(value: &(u128, u128)) -> Point {
        Point { x: value.0 as i128, y: value.1 as i128 }
    }
}

} // verus!
