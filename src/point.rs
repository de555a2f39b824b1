use vstd::prelude::*;

verus! {

/// A coordinate on the grid plane.
#[derive(Clone, Copy, PartialEq, Eq, Structural, Debug)]
pub struct Point {
    pub x: i64,
    pub y: i64,
}

pub open spec fn abs_int(v: int) -> int {
    if v < 0 { -v } else { v }
}

/// Manhattan distance between two points.
pub open spec fn manhattan(a: Point, b: Point) -> int {
    abs_int(b.x - a.x) + abs_int(b.y - a.y)
}

/// Two points are four-adjacent when they are one unit step apart.
pub open spec fn adjacent(a: Point, b: Point) -> bool {
    manhattan(a, b) == 1
}

pub proof fn lemma_manhattan_nonneg(a: Point, b: Point)
    ensures
        manhattan(a, b) >= 0,
        manhattan(a, b) == 0 <==> a == b,
{
}

impl Point {
    /// The point moved back by `(x, y)`.
    pub fn offset(self, x: i64, y: i64) -> (r: Point)
        requires
            i64::MIN <= self.x - x <= i64::MAX,
            i64::MIN <= self.y - y <= i64::MAX,
        ensures
            r.x == self.x - x,
            r.y == self.y - y,
    {
        Point { x: self.x - x, y: self.y - y }
    }

    /// Manhattan distance to `other`.
    pub fn dist(self, other: Point) -> (r: u64)
        requires
            manhattan(self, other) <= u64::MAX,
        ensures
            r == manhattan(self, other),
    {
        let dx: i128 = other.x as i128 - self.x as i128;
        let dy: i128 = other.y as i128 - self.y as i128;
        let ax: i128 = if dx < 0 { -dx } else { dx };
        let ay: i128 = if dy < 0 { -dy } else { dy };
        (ax + ay) as u64
    }
}

} // verus!
