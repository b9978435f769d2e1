//! The smallest rectangle, among those with a side along an edge of a
//! polygon, that encloses the polygon.
use vstd::prelude::*;
use crate::bbox::{max_int, min_int};
use crate::fixed::PPM;
use crate::point::{all_in_range, Point};
use crate::polygon::{succ_index, Polygon};

verus! {

/// How far `q` lies from `a` along the direction `(dx, dy)`, times the length
/// of the direction.
pub open spec fn along(a: Point, dx: int, dy: int, q: Point) -> int {
    dx * (q.x - a.x) + dy * (q.y - a.y)
}

/// How far `q` lies from the line through `a` with direction `(dx, dy)`,
/// times the length of the direction.
pub open spec fn across(a: Point, dx: int, dy: int, q: Point) -> int {
    dx * (q.y - a.y) - dy * (q.x - a.x)
}

/// The offsets of all vertices along the direction.
pub open spec fn offsets_along(pts: Seq<Point>, a: Point, dx: int, dy: int) -> Seq<int> {
    Seq::new(pts.len(), |j: int| along(a, dx, dy, pts[j]))
}

/// The offsets of all vertices across the direction.
pub open spec fn offsets_across(pts: Seq<Point>, a: Point, dx: int, dy: int) -> Seq<int> {
    Seq::new(pts.len(), |j: int| across(a, dx, dy, pts[j]))
}

/// The least of the first `k` values, `k` being at least one.
pub open spec fn low(s: Seq<int>, k: nat) -> int
    decreases k,
{
    if k <= 1 {
        s[0]
    } else {
        min_int(low(s, (k - 1) as nat), s[k - 1])
    }
}

/// The greatest of the first `k` values, `k` being at least one.
pub open spec fn high(s: Seq<int>, k: nat) -> int
    decreases k,
{
    if k <= 1 {
        s[0]
    } else {
        max_int(high(s, (k - 1) as nat), s[k - 1])
    }
}

/// Every one of the first `k` values lies between the least and the
/// greatest.
pub proof fn lemma_low_high(s: Seq<int>, k: nat, j: int)
    requires
        0 <= j < k <= s.len(),
    ensures
        low(s, k) <= s[j] <= high(s, k),
    decreases k,
{
    if k > 1 && j < k - 1 {
        lemma_low_high(s, (k - 1) as nat, j);
    }
}

/// What an `Mbr` stands for: the rectangle of the points whose offset along
/// the direction `(dx, dy)` from `(ax, ay)` lies between `u0` and `u1` and
/// whose offset across it lies between `v0` and `v1`, both offsets scaled by
/// the length of the direction.
pub struct MbrModel {
    pub ax: int,
    pub ay: int,
    pub dx: int,
    pub dy: int,
    pub u0: int,
    pub u1: int,
    pub v0: int,
    pub v1: int,
    pub confidence: nat,
    pub id: nat,
}

/// The rectangle with a side along the edge that leaves vertex `i`, just
/// large enough for every vertex, with confidence zero and class zero.
pub open spec fn frame_at(pts: Seq<Point>, i: int) -> MbrModel {
    let a = pts[i];
    let b = pts[succ_index(i, pts.len() as int)];
    let dx = b.x - a.x;
    let dy = b.y - a.y;
    MbrModel {
        ax: a.x as int,
        ay: a.y as int,
        dx,
        dy,
        u0: low(offsets_along(pts, a, dx, dy), pts.len()),
        u1: high(offsets_along(pts, a, dx, dy), pts.len()),
        v0: low(offsets_across(pts, a, dx, dy), pts.len()),
        v1: high(offsets_across(pts, a, dx, dy), pts.len()),
        confidence: 0,
        id: 0,
    }
}

/// The area of a rectangle, in squared sub-pixel steps, rounded down.
pub open spec fn frame_area(m: MbrModel) -> int {
    ((m.u1 - m.u0) * (m.v1 - m.v0)) / (m.dx * m.dx + m.dy * m.dy)
}

/// The edge, among the first `k`, whose rectangle has the least area; the
/// earliest of them when several do.
pub open spec fn best_edge(pts: Seq<Point>, k: nat) -> int
    decreases k,
{
    if k <= 1 {
        0
    } else {
        let b = best_edge(pts, (k - 1) as nat);
        if frame_area(frame_at(pts, k - 1)) < frame_area(frame_at(pts, b)) {
            k - 1
        } else {
            b
        }
    }
}

/// The polygon has three vertices or more and no edge of length zero.
pub open spec fn has_frames(pts: Seq<Point>) -> bool {
    pts.len() >= 3 && forall|i: int| 0 <= i < pts.len() ==> #[trigger] pts[i] != pts[succ_index(i, pts.len() as int)]
}

/// The smallest edge-aligned rectangle around the polygon.
pub open spec fn min_frame(pts: Seq<Point>) -> MbrModel {
    frame_at(pts, best_edge(pts, pts.len()))
}

/// The best edge is one of the edges, and no edge has a smaller rectangle.
pub proof fn lemma_best_edge(pts: Seq<Point>, k: nat, i: int)
    requires
        0 <= i < k,
    ensures
        0 <= best_edge(pts, k) < k,
        frame_area(frame_at(pts, best_edge(pts, k))) <= frame_area(frame_at(pts, i)),
    decreases k,
{
    if k > 1 {
        if i < k - 1 {
            lemma_best_edge(pts, (k - 1) as nat, i);
        } else {
            lemma_best_edge(pts, (k - 1) as nat, 0);
        }
    }
}

/// The rectangle along any edge holds every vertex of the polygon.
pub proof fn lemma_frame_holds_vertices(pts: Seq<Point>, i: int, j: int)
    requires
        0 <= i < pts.len(),
        0 <= j < pts.len(),
    ensures
        ({
            let m = frame_at(pts, i);
            let a = pts[i];
            m.u0 <= along(a, m.dx, m.dy, pts[j]) <= m.u1 && m.v0 <= across(a, m.dx, m.dy, pts[j]) <= m.v1
        }),
{
    let m = frame_at(pts, i);
    let a = pts[i];
    lemma_low_high(offsets_along(pts, a, m.dx, m.dy), pts.len(), j);
    lemma_low_high(offsets_across(pts, a, m.dx, m.dy), pts.len(), j);
}

/// A rotated rectangle around a polygon, with a confidence and a class.
#[derive(Clone, Copy, Debug)]
pub struct Mbr {
    anchor: Point,
    dx: i64,
    dy: i64,
    u0: i64,
    u1: i64,
    v0: i64,
    v1: i64,
    confidence: u32,
    id: usize,
}

impl View for Mbr {
    type V = MbrModel;

    closed spec fn view(&self) -> MbrModel {
        MbrModel {
            ax: self.anchor.x as int,
            ay: self.anchor.y as int,
            dx: self.dx as int,
            dy: self.dy as int,
            u0: self.u0 as int,
            u1: self.u1 as int,
            v0: self.v0 as int,
            v1: self.v1 as int,
            confidence: self.confidence as nat,
            id: self.id as nat,
        }
    }
}

impl Mbr {
    /// The vertex at which the base edge starts.
    pub fn anchor(&self) -> (p: Point)
        ensures
            p.x == self@.ax,
            p.y == self@.ay,
    {
        self.anchor
    }

    /// The direction of the base edge.
    pub fn direction(&self) -> (d: (i64, i64))
        ensures
            d.0 == self@.dx,
            d.1 == self@.dy,
    {
        (self.dx, self.dy)
    }

    /// The least and greatest offsets along the base edge.
    pub fn extent_along(&self) -> (e: (i64, i64))
        ensures
            e.0 == self@.u0,
            e.1 == self@.u1,
    {
        (self.u0, self.u1)
    }

    /// The least and greatest offsets across the base edge.
    pub fn extent_across(&self) -> (e: (i64, i64))
        ensures
            e.0 == self@.v0,
            e.1 == self@.v1,
    {
        (self.v0, self.v1)
    }

    /// The confidence, in millionths.
    pub fn confidence(&self) -> (c: u32)
        ensures
            c == self@.confidence,
    {
        self.confidence
    }

    /// The class id.
    pub fn id(&self) -> (id: usize)
        ensures
            id == self@.id,
    {
        self.id
    }

    /// The same rectangle with another confidence; a value above 1.0 counts
    /// as 1.0.
    pub fn with_confidence(self, confidence: u32) -> (m: Mbr)
        ensures
            m@ == (MbrModel { confidence: min_int(confidence as int, PPM as int) as nat, ..self@ }),
    {
        let c: u32 = if confidence > PPM { PPM } else { confidence };
        Mbr { confidence: c, ..self }
    }

    /// The same rectangle with another class id.
    pub fn with_id(self, id: usize) -> (m: Mbr)
        ensures
            m@ == (MbrModel { id: id as nat, ..self@ }),
    {
        Mbr { id, ..self }
    }
}

fn offsets(a: &Point, dx: i64, dy: i64, q: &Point) -> (r: (i64, i64))
    requires
        crate::point::in_range(*a),
        crate::point::in_range(*q),
        -2_097_152 <= dx <= 2_097_152,
        -2_097_152 <= dy <= 2_097_152,
    ensures
        r.0 == along(*a, dx as int, dy as int, *q),
        r.1 == across(*a, dx as int, dy as int, *q),
        -8_796_093_022_208 <= r.0 <= 8_796_093_022_208,
        -8_796_093_022_208 <= r.1 <= 8_796_093_022_208,
{
    let ex: i64 = q.x - a.x;
    let ey: i64 = q.y - a.y;
    assert(-4_398_046_511_104 <= dx * ex <= 4_398_046_511_104 && -4_398_046_511_104 <= dy * ey
        <= 4_398_046_511_104 && -4_398_046_511_104 <= dx * ey <= 4_398_046_511_104 && -4_398_046_511_104 <= dy
        * ex <= 4_398_046_511_104) by (nonlinear_arith)
        requires
            -2_097_152 <= dx <= 2_097_152,
            -2_097_152 <= dy <= 2_097_152,
            -2_097_152 <= ex <= 2_097_152,
            -2_097_152 <= ey <= 2_097_152,
    ;
    (dx * ex + dy * ey, dx * ey - dy * ex)
}

impl Polygon {
    /// Whether the polygon has three vertices or more and no edge of length
    /// zero.
    pub fn has_frames(&self) -> (ok: bool)
        ensures
            ok == has_frames(self@),
    {
        let pts: &Vec<Point> = self.points();
        let n: usize = pts.len();
        if n < 3 {
            return false;
        }
        let mut i: usize = 0;
        while i < n
            invariant
                i <= n,
                n == pts@.len(),
                n >= 3,
                pts@ == self@,
                forall|t: int| 0 <= t < i ==> #[trigger] pts@[t] != pts@[succ_index(t, n as int)],
            decreases n - i,
        {
            let j: usize = if i + 1 >= n { 0 } else { i + 1 };
            if pts[i] == pts[j] {
                assert(pts@[i as int] == pts@[succ_index(i as int, n as int)]);
                return false;
            }
            i += 1;
        }
        true
    }

    /// The rectangle with a side along the edge that leaves vertex `i`,
    /// together with its area.
    fn frame(&self, i: usize) -> (r: (Mbr, u128))
        requires
            i < self@.len(),
            self@[i as int] != self@[succ_index(i as int, self@.len() as int)],
        ensures
            r.0@ == frame_at(self@, i as int),
            r.1 == frame_area(r.0@),
    {
        let pts: &Vec<Point> = self.points();
        let n: usize = pts.len();
        let a: Point = pts[i];
        let b: Point = pts[if i + 1 >= n { 0 } else { i + 1 }];
        let dx: i64 = b.x - a.x;
        let dy: i64 = b.y - a.y;
        let ghost us = offsets_along(pts@, a, dx as int, dy as int);
        let ghost vs = offsets_across(pts@, a, dx as int, dy as int);
        let first = offsets(&a, dx, dy, &pts[0]);
        let mut u0: i64 = first.0;
        let mut u1: i64 = first.0;
        let mut v0: i64 = first.1;
        let mut v1: i64 = first.1;
        let mut j: usize = 1;
        while j < n
            invariant
                1 <= j <= n,
                n == pts@.len(),
                all_in_range(pts@),
                crate::point::in_range(a),
                -2_097_152 <= dx <= 2_097_152,
                -2_097_152 <= dy <= 2_097_152,
                us == offsets_along(pts@, a, dx as int, dy as int),
                vs == offsets_across(pts@, a, dx as int, dy as int),
                u0 == low(us, j as nat),
                u1 == high(us, j as nat),
                v0 == low(vs, j as nat),
                v1 == high(vs, j as nat),
                -8_796_093_022_208 <= u0 <= u1 <= 8_796_093_022_208,
                -8_796_093_022_208 <= v0 <= v1 <= 8_796_093_022_208,
            decreases n - j,
        {
            let o = offsets(&a, dx, dy, &pts[j]);
            if o.0 < u0 {
                u0 = o.0;
            }
            if o.0 > u1 {
                u1 = o.0;
            }
            if o.1 < v0 {
                v0 = o.1;
            }
            if o.1 > v1 {
                v1 = o.1;
            }
            j += 1;
        }
        let su: u128 = (u1 - u0) as u128;
        let sv: u128 = (v1 - v0) as u128;
        assert(su * sv <= 17_592_186_044_416 * 17_592_186_044_416) by (nonlinear_arith)
            requires
                su <= 17_592_186_044_416,
                sv <= 17_592_186_044_416,
        ;
        assert(0 <= dx * dx <= 4_398_046_511_104 && 0 <= dy * dy <= 4_398_046_511_104 && 0 < dx * dx + dy * dy)
            by (nonlinear_arith)
            requires
                -2_097_152 <= dx <= 2_097_152,
                -2_097_152 <= dy <= 2_097_152,
                dx != 0 || dy != 0,
        ;
        let len2: u128 = (dx * dx + dy * dy) as u128;
        let area: u128 = (su * sv) / len2;
        (Mbr { anchor: a, dx, dy, u0, u1, v0, v1, confidence: 0, id: 0 }, area)
    }

    /// The smallest rectangle around the polygon among those with a side
    /// along one of its edges, with confidence zero and class zero; nothing
    /// for a polygon with fewer than three vertices or with an edge of length
    /// zero.
    pub fn mbr(&self) -> (m: Option<Mbr>)
        ensures
            m.is_some() <==> has_frames(self@),
            m.is_some() ==> m.unwrap()@ == min_frame(self@),
    {
        if !self.has_frames() {
            return None;
        }
        let n: usize = self.count();
        let (mut best, mut best_area) = self.frame(0);
        let mut i: usize = 1;
        while i < n
            invariant
                1 <= i <= n,
                n == self@.len(),
                has_frames(self@),
                best@ == frame_at(self@, best_edge(self@, i as nat)),
                best_area == frame_area(best@),
            decreases n - i,
        {
            let (cand, area) = self.frame(i);
            if area < best_area {
                best = cand;
                best_area = area;
            }
            i += 1;
        }
        Some(best)
    }
}

} // verus!
