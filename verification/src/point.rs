//! Points in sub-pixel coordinates and the orientation test built on them.
use vstd::prelude::*;
use crate::fixed::MAX_COORD;

verus! {

/// A position in sub-pixel steps; `x` grows to the right and `y` downward.
#[derive(Clone, Copy, Debug, PartialEq, Eq, Structural)]
pub struct Point {
    pub x: i64,
    pub y: i64,
}

/// The point lies in the square that holds every accepted image.
pub open spec fn in_range(p: Point) -> bool {
    0 <= p.x <= MAX_COORD && 0 <= p.y <= MAX_COORD
}

/// Every point of the sequence lies in the accepted square.
pub open spec fn all_in_range(pts: Seq<Point>) -> bool {
    forall|i: int| 0 <= i < pts.len() ==> in_range(#[trigger] pts[i])
}

/// The cross product of the vectors `o -> a` and `o -> b`: positive when `b`
/// lies to the left of the directed line from `o` through `a` (with `y`
/// pointing up), zero when the three are collinear.
pub open spec fn cross(o: Point, a: Point, b: Point) -> int {
    (a.x - o.x) * (b.y - o.y) - (a.y - o.y) * (b.x - o.x)
}

/// Lexicographic order on points: by `x`, then by `y`.
pub open spec fn lex_lt(a: Point, b: Point) -> bool {
    a.x < b.x || (a.x == b.x && a.y < b.y)
}

/// The squared distance between two points.
pub open spec fn dist2(a: Point, b: Point) -> nat {
    ((b.x - a.x) * (b.x - a.x) + (b.y - a.y) * (b.y - a.y)) as nat
}

impl Point {
    /// Builds a point from sub-pixel coordinates.
    pub fn new(x: i64, y: i64) -> (p: Point)
        ensures
            p.x == x,
            p.y == y,
    {
        Point { x, y }
    }

    /// Builds the point at the corner of a pixel given by whole-pixel
    /// coordinates.
    pub fn from_pixel(px: i32, py: i32) -> (p: Point)
        ensures
            p.x == px * 64,
            p.y == py * 64,
    {
        Point { x: (px as i64) * 64, y: (py as i64) * 64 }
    }

    /// Whether the point lies in the accepted square.
    pub fn is_in_range(&self) -> (ok: bool)
        ensures
            ok == in_range(*self),
    {
        0 <= self.x && self.x <= MAX_COORD && 0 <= self.y && self.y <= MAX_COORD
    }

    /// Whether `self` comes before `other` in lexicographic order.
    pub fn precedes(&self, other: &Point) -> (lt: bool)
        ensures
            lt == lex_lt(*self, *other),
    {
        self.x < other.x || (self.x == other.x && self.y < other.y)
    }
}

/// Computes the cross product of `o -> a` and `o -> b`.
pub fn cross_product(o: &Point, a: &Point, b: &Point) -> (c: i64)
    requires
        in_range(*o),
        in_range(*a),
        in_range(*b),
    ensures
        c == cross(*o, *a, *b),
{
    let ax: i64 = a.x - o.x;
    let ay: i64 = a.y - o.y;
    let bx: i64 = b.x - o.x;
    let by: i64 = b.y - o.y;
    assert(-4_398_046_511_104 <= ax * by <= 4_398_046_511_104) by (nonlinear_arith)
        requires
            -2_097_152 <= ax <= 2_097_152,
            -2_097_152 <= by <= 2_097_152,
    ;
    assert(-4_398_046_511_104 <= ay * bx <= 4_398_046_511_104) by (nonlinear_arith)
        requires
            -2_097_152 <= ay <= 2_097_152,
            -2_097_152 <= bx <= 2_097_152,
    ;
    ax * by - ay * bx
}

/// Computes the squared distance between two points.
pub fn distance_squared(a: &Point, b: &Point) -> (d: u64)
    requires
        in_range(*a),
        in_range(*b),
    ensures
        d == dist2(*a, *b),
        d <= 8_796_093_022_208,
{
    let dx: i64 = b.x - a.x;
    let dy: i64 = b.y - a.y;
    assert(0 <= dx * dx <= 4_398_046_511_104) by (nonlinear_arith)
        requires
            -2_097_152 <= dx <= 2_097_152,
    ;
    assert(0 <= dy * dy <= 4_398_046_511_104) by (nonlinear_arith)
        requires
            -2_097_152 <= dy <= 2_097_152,
    ;
    (dx * dx + dy * dy) as u64
}

} // verus!
