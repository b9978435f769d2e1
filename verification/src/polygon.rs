//! Closed polygons in sub-pixel coordinates: area, perimeter, bounding box and
//! the final validity test.
use vstd::prelude::*;
use crate::bbox::{Bbox, BoxModel};
use crate::fixed::{floor_sqrt, isqrt, lemma_floor_sqrt_below, MAX_VERTICES};
use crate::point::{all_in_range, dist2, distance_squared, in_range, Point};

verus! {

/// The index that follows `i` on a closed boundary of `n` vertices.
pub open spec fn succ_index(i: int, n: int) -> int {
    if i + 1 >= n { 0 } else { i + 1 }
}

/// The index that precedes `i` on a closed boundary of `n` vertices.
pub open spec fn pred_index(i: int, n: int) -> int {
    if i <= 0 { n - 1 } else { i - 1 }
}

/// The contribution of the edge that leaves vertex `i` to twice the signed
/// area.
pub open spec fn shoelace_term(pts: Seq<Point>, i: int) -> int {
    let a = pts[i];
    let b = pts[succ_index(i, pts.len() as int)];
    a.x * b.y - b.x * a.y
}

/// The sum of the shoelace terms of the first `k` edges.
pub open spec fn shoelace_sum(pts: Seq<Point>, k: nat) -> int
    decreases k,
{
    if k == 0 {
        0
    } else {
        shoelace_sum(pts, (k - 1) as nat) + shoelace_term(pts, k - 1)
    }
}

/// Twice the signed area enclosed by the boundary.
pub open spec fn signed_area2(pts: Seq<Point>) -> int {
    shoelace_sum(pts, pts.len())
}

/// Twice the area enclosed by the boundary.
pub open spec fn area2(pts: Seq<Point>) -> nat {
    let s = signed_area2(pts);
    if s >= 0 { s as nat } else { (-s) as nat }
}

/// The length of the edge that leaves vertex `i`, rounded down to a whole
/// sub-pixel step.
pub open spec fn edge_length(pts: Seq<Point>, i: int) -> nat {
    floor_sqrt(dist2(pts[i], pts[succ_index(i, pts.len() as int)]))
}

/// The total length of the first `k` edges.
pub open spec fn path_length(pts: Seq<Point>, k: nat) -> nat
    decreases k,
{
    if k == 0 {
        0
    } else {
        path_length(pts, (k - 1) as nat) + edge_length(pts, k - 1)
    }
}

/// The length of the closed boundary.
pub open spec fn perimeter(pts: Seq<Point>) -> nat {
    path_length(pts, pts.len())
}

/// `b` is the smallest axis-aligned box that holds every point of `pts`.
pub open spec fn is_bounding_box(pts: Seq<Point>, b: BoxModel) -> bool {
    &&& forall|i: int| 0 <= i < pts.len() ==> b.x <= (#[trigger] pts[i]).x <= b.x + b.w
    &&& forall|i: int| 0 <= i < pts.len() ==> b.y <= (#[trigger] pts[i]).y <= b.y + b.h
    &&& exists|i: int| 0 <= i < pts.len() && (#[trigger] pts[i]).x == b.x
    &&& exists|i: int| 0 <= i < pts.len() && (#[trigger] pts[i]).x == b.x + b.w
    &&& exists|i: int| 0 <= i < pts.len() && (#[trigger] pts[i]).y == b.y
    &&& exists|i: int| 0 <= i < pts.len() && (#[trigger] pts[i]).y == b.y + b.h
}

/// The smallest axis-aligned box around the points, with confidence zero and
/// class zero.
pub open spec fn bounding_box(pts: Seq<Point>) -> BoxModel {
    choose|b: BoxModel| is_bounding_box(pts, b) && b.confidence == 0 && b.id == 0
}

/// The smallest box around the points is unique.
pub proof fn lemma_bounding_box_unique(pts: Seq<Point>, b: BoxModel)
    requires
        is_bounding_box(pts, b),
    ensures
        bounding_box(pts) == (BoxModel { confidence: 0, id: 0, ..b }),
{
    let z = BoxModel { confidence: 0, id: 0, ..b };
    assert(is_bounding_box(pts, z));
    let c = bounding_box(pts);
    assert(is_bounding_box(pts, c) && c.confidence == 0 && c.id == 0);
    let i0 = choose|i: int| 0 <= i < pts.len() && (#[trigger] pts[i]).x == b.x;
    let i1 = choose|i: int| 0 <= i < pts.len() && (#[trigger] pts[i]).x == b.x + b.w;
    let i2 = choose|i: int| 0 <= i < pts.len() && (#[trigger] pts[i]).y == b.y;
    let i3 = choose|i: int| 0 <= i < pts.len() && (#[trigger] pts[i]).y == b.y + b.h;
    let j0 = choose|i: int| 0 <= i < pts.len() && (#[trigger] pts[i]).x == c.x;
    let j1 = choose|i: int| 0 <= i < pts.len() && (#[trigger] pts[i]).x == c.x + c.w;
    let j2 = choose|i: int| 0 <= i < pts.len() && (#[trigger] pts[i]).y == c.y;
    let j3 = choose|i: int| 0 <= i < pts.len() && (#[trigger] pts[i]).y == c.y + c.h;
    assert(c.x <= pts[i0].x && b.x <= pts[j0].x);
    assert(pts[i1].x <= c.x + c.w && pts[j1].x <= b.x + b.w);
    assert(c.y <= pts[i2].y && b.y <= pts[j2].y);
    assert(pts[i3].y <= c.y + c.h && pts[j3].y <= b.y + b.h);
}

/// How far the edge that leaves vertex `i` runs to the left.
pub open spec fn run_left(pts: Seq<Point>, i: int) -> int {
    pts[i].x - pts[succ_index(i, pts.len() as int)].x
}

/// The boundary runs to the right, or straight up or down, on its first `k`
/// edges and to the left, or straight up or down, on the others.
pub open spec fn turns_back_at(pts: Seq<Point>, k: int) -> bool {
    &&& 0 <= k <= pts.len()
    &&& forall|i: int| 0 <= i < k ==> #[trigger] run_left(pts, i) <= 0
    &&& forall|i: int| k <= i < pts.len() ==> #[trigger] run_left(pts, i) >= 0
}

/// The boundary runs once to the right and once back to the left.
pub open spec fn x_bitonic(pts: Seq<Point>) -> bool {
    exists|k: int| turns_back_at(pts, k)
}

/// The vertex at which the first `k` edges end: vertex `k`, or the first
/// vertex when the boundary has closed.
pub open spec fn end_of(pts: Seq<Point>, k: int) -> Point {
    if k >= pts.len() { pts[0] } else { pts[k] }
}

/// The area under the first `k` edges, twice and signed, measured from the
/// height `y0`.
pub open spec fn trapezoid_sum(pts: Seq<Point>, k: nat, y0: int) -> int
    decreases k,
{
    if k == 0 {
        0
    } else {
        trapezoid_sum(pts, (k - 1) as nat, y0) + run_left(pts, k - 1) * (pts[k - 1].y + pts[succ_index(
            k - 1,
            pts.len() as int,
        )].y - 2 * y0)
    }
}

/// How far the first `k` edges run to the left, all told.
pub open spec fn leftward(pts: Seq<Point>, k: nat) -> int
    decreases k,
{
    if k == 0 {
        0
    } else {
        leftward(pts, (k - 1) as nat) + if run_left(pts, k - 1) > 0 { run_left(pts, k - 1) } else { 0 }
    }
}

/// How far the first `k` edges run to the right, all told.
pub open spec fn rightward_run(pts: Seq<Point>, k: nat) -> int
    decreases k,
{
    if k == 0 {
        0
    } else {
        rightward_run(pts, (k - 1) as nat) + if run_left(pts, k - 1) < 0 { -run_left(pts, k - 1) } else { 0 }
    }
}

/// The shoelace sum of the first `k` edges is the area under them, up to
/// what the end points contribute.
pub proof fn lemma_shoelace_is_trapezoids(pts: Seq<Point>, k: nat, y0: int)
    requires
        k <= pts.len(),
        pts.len() > 0,
    ensures
        shoelace_sum(pts, k) == trapezoid_sum(pts, k, y0) + end_of(pts, k as int).x * end_of(pts, k as int).y
            - pts[0].x * pts[0].y + 2 * y0 * (pts[0].x - end_of(pts, k as int).x),
    decreases k,
{
    if k > 0 {
        lemma_shoelace_is_trapezoids(pts, (k - 1) as nat, y0);
        let a = pts[k - 1];
        let b = pts[succ_index(k - 1, pts.len() as int)];
        assert(b == end_of(pts, k as int));
        assert(a == end_of(pts, k - 1));
        assert(a.x * b.y - b.x * a.y == (a.x - b.x) * (a.y + b.y - 2 * y0) + b.x * b.y - a.x * a.y + 2 * y0 * (a.x
            - b.x)) by (nonlinear_arith);
        assert(2 * y0 * (pts[0].x - a.x) + 2 * y0 * (a.x - b.x) == 2 * y0 * (pts[0].x - b.x)) by (nonlinear_arith);
    } else {
        assert(2 * y0 * (pts[0].x - pts[0].x) == 0) by (nonlinear_arith);
    }
}

/// The area under edges between the heights `y0` and `y0 + h` is at most
/// `2 * h` times their run to the left and at least minus `2 * h` times their
/// run to the right.
pub proof fn lemma_trapezoids_bounded(pts: Seq<Point>, k: nat, y0: int, h: int)
    requires
        k <= pts.len(),
        forall|i: int| 0 <= i < pts.len() ==> y0 <= (#[trigger] pts[i]).y <= y0 + h,
    ensures
        -(2 * h * rightward_run(pts, k)) <= trapezoid_sum(pts, k, y0) <= 2 * h * leftward(pts, k),
        leftward(pts, k) >= 0,
        rightward_run(pts, k) >= 0,
    decreases k,
{
    if k > 0 {
        lemma_trapezoids_bounded(pts, (k - 1) as nat, y0, h);
        let d = run_left(pts, k - 1);
        let s = pts[k - 1].y + pts[succ_index(k - 1, pts.len() as int)].y - 2 * y0;
        let l = leftward(pts, (k - 1) as nat);
        let r = rightward_run(pts, (k - 1) as nat);
        assert(0 <= s <= 2 * h);
        if d > 0 {
            assert(0 <= d * s <= 2 * h * d && 2 * h * (l + d) == 2 * h * l + 2 * h * d) by (nonlinear_arith)
                requires
                    d > 0,
                    0 <= s <= 2 * h,
            ;
        } else if d < 0 {
            assert(-(2 * h * (-d)) <= d * s <= 0 && 2 * h * (r + (-d)) == 2 * h * r + 2 * h * (-d))
                by (nonlinear_arith)
                requires
                    d < 0,
                    0 <= s <= 2 * h,
            ;
        } else {
            assert(d * s == 0) by (nonlinear_arith)
                requires
                    d == 0,
            ;
        }
    } else {
        assert(2 * h * 0 == 0) by (nonlinear_arith);
    }
}

/// On a boundary that turns back at edge `t`, the run to the right is over
/// once it has turned and the run to the left begins there.
pub proof fn lemma_runs_of_bitonic(pts: Seq<Point>, t: int, k: nat)
    requires
        turns_back_at(pts, t),
        k <= pts.len(),
        pts.len() > 0,
    ensures
        k <= t ==> leftward(pts, k) == 0 && rightward_run(pts, k) == end_of(pts, k as int).x - pts[0].x,
        k >= t ==> leftward(pts, k) == end_of(pts, t).x - end_of(pts, k as int).x && rightward_run(pts, k)
            == end_of(pts, t).x - pts[0].x,
    decreases k,
{
    if k > 0 {
        lemma_runs_of_bitonic(pts, t, (k - 1) as nat);
        let b = pts[succ_index(k - 1, pts.len() as int)];
        assert(b == end_of(pts, k as int));
        assert(pts[k - 1] == end_of(pts, k - 1));
        if k <= t {
            assert(run_left(pts, k - 1) <= 0);
        } else {
            assert(run_left(pts, k - 1) >= 0);
        }
    }
}

/// A boundary that runs once to the right and once back encloses no more
/// than the box around it.
pub proof fn lemma_area_within_box(pts: Seq<Point>, b: BoxModel)
    requires
        pts.len() > 0,
        is_bounding_box(pts, b),
        x_bitonic(pts),
    ensures
        area2(pts) <= 2 * (b.w * b.h),
{
    let t = choose|t: int| turns_back_at(pts, t);
    let n = pts.len();
    lemma_shoelace_is_trapezoids(pts, n, b.y);
    lemma_trapezoids_bounded(pts, n, b.y, b.h);
    lemma_runs_of_bitonic(pts, t, n);
    let top = end_of(pts, t).x - pts[0].x;
    assert(end_of(pts, n as int) == pts[0]);
    assert(leftward(pts, n) == top && rightward_run(pts, n) == top);
    assert(0 <= top <= b.w) by {
        if t < n {
            assert(b.x <= pts[t].x <= b.x + b.w);
        }
        assert(b.x <= pts[0].x <= b.x + b.w);
    }
    assert(2 * pts[0].y * 0 == 0 && 2 * b.y * (pts[0].x - pts[0].x) == 0) by (nonlinear_arith);
    assert(b.h >= 0) by {
        assert(b.y <= pts[0].y <= b.y + b.h);
    }
    assert(2 * b.h * top <= 2 * (b.w * b.h)) by (nonlinear_arith)
        requires
            0 <= top <= b.w,
            b.h >= 0,
    ;
}

/// A polygon that survives refinement has three vertices or more and encloses
/// a positive area.
pub open spec fn is_proper(pts: Seq<Point>) -> bool {
    pts.len() >= 3 && area2(pts) > 0
}

/// The vertices may be held by a `Polygon`.
pub open spec fn admissible(pts: Seq<Point>) -> bool {
    all_in_range(pts) && pts.len() <= MAX_VERTICES
}

/// Each edge of an admissible boundary is shorter than 2^22 steps.
pub proof fn lemma_edge_length_bound(pts: Seq<Point>, i: int)
    requires
        all_in_range(pts),
        0 <= i < pts.len(),
    ensures
        edge_length(pts, i) < 4_194_304,
{
    let a = pts[i];
    let b = pts[succ_index(i, pts.len() as int)];
    let dx = b.x - a.x;
    let dy = b.y - a.y;
    assert(0 <= dx * dx <= 4_398_046_511_104) by (nonlinear_arith)
        requires
            -2_097_152 <= dx <= 2_097_152,
    ;
    assert(0 <= dy * dy <= 4_398_046_511_104) by (nonlinear_arith)
        requires
            -2_097_152 <= dy <= 2_097_152,
    ;
    assert(4_194_304nat * 4_194_304nat == 17_592_186_044_416) by (nonlinear_arith);
    lemma_floor_sqrt_below(dist2(a, b), 4_194_304);
}

/// The length of a path grows with the number of edges, by less than 2^22
/// steps per edge.
pub proof fn lemma_path_length_bound(pts: Seq<Point>, k: nat)
    requires
        all_in_range(pts),
        k <= pts.len(),
    ensures
        path_length(pts, k) <= k * 4_194_303,
    decreases k,
{
    if k > 0 {
        lemma_path_length_bound(pts, (k - 1) as nat);
        lemma_edge_length_bound(pts, k - 1);
    }
}

/// Copies a vector of points.
pub fn copy_points(points: &Vec<Point>) -> (copy: Vec<Point>)
    ensures
        copy@ == points@,
{
    let mut copy: Vec<Point> = Vec::new();
    let mut i: usize = 0;
    while i < points.len()
        invariant
            i <= points.len(),
            copy@ == points@.subrange(0, i as int),
        decreases points.len() - i,
    {
        copy.push(points[i]);
        assert(copy@ == points@.subrange(0, i + 1));
        i += 1;
    }
    assert(points@.subrange(0, points@.len() as int) == points@);
    copy
}

/// A closed polygon with an optional class id.
#[derive(Debug)]
pub struct Polygon {
    points: Vec<Point>,
    id: Option<usize>,
}

impl View for Polygon {
    type V = Seq<Point>;

    closed spec fn view(&self) -> Seq<Point> {
        self.points@
    }
}

impl Default for Polygon {
    fn default() -> (p: Polygon)
        ensures
            p@.len() == 0,
            p.class_id().is_none(),
    {
        Polygon::new()
    }
}

impl Clone for Polygon {
    fn clone(&self) -> (p: Polygon)
        ensures
            p@ == self@,
            p.class_id() == self.class_id(),
    {
        proof {
            use_type_invariant(self);
        }
        Polygon { points: copy_points(&self.points), id: self.id }
    }
}

impl Polygon {
    #[verifier::type_invariant]
    spec fn inv(self) -> bool {
        admissible(self.points@)
    }

    /// The class id, if one was given.
    pub closed spec fn class_id(&self) -> Option<usize> {
        self.id
    }

    /// The polygon without vertices and without a class.
    pub fn new() -> (p: Polygon)
        ensures
            p@.len() == 0,
            p.class_id().is_none(),
    {
        Polygon { points: Vec::new(), id: None }
    }

    /// Builds a polygon from vertices that are known to be admissible.
    pub(crate) fn assemble(points: Vec<Point>, id: Option<usize>) -> (p: Polygon)
        requires
            admissible(points@),
        ensures
            p@ == points@,
            p.class_id() == id,
    {
        Polygon { points, id }
    }

    /// Whether `points` may be held by a polygon.
    pub fn admits(points: &Vec<Point>) -> (ok: bool)
        ensures
            ok == admissible(points@),
    {
        if points.len() as u64 > MAX_VERTICES {
            return false;
        }
        let mut i: usize = 0;
        while i < points.len()
            invariant
                i <= points.len(),
                forall|j: int| 0 <= j < i ==> in_range(#[trigger] points@[j]),
            decreases points.len() - i,
        {
            if !points[i].is_in_range() {
                return false;
            }
            i += 1;
        }
        true
    }

    /// The same polygon with `points` as its vertices, or nothing when there
    /// are too many of them or one lies outside the accepted square.
    pub fn with_points(self, points: Vec<Point>) -> (p: Option<Polygon>)
        ensures
            p.is_some() <==> admissible(points@),
            p.is_some() ==> p.unwrap()@ == points@ && p.unwrap().class_id() == self.class_id(),
    {
        if Polygon::admits(&points) {
            Some(Polygon { points, id: self.id })
        } else {
            None
        }
    }

    /// The same polygon with a class id.
    pub fn with_id(self, id: usize) -> (p: Polygon)
        ensures
            p@ == self@,
            p.class_id() == Some(id),
    {
        proof {
            use_type_invariant(&self);
        }
        Polygon { points: self.points, id: Some(id) }
    }

    /// The class id, if one was given.
    pub fn id(&self) -> (id: Option<usize>)
        ensures
            id == self.class_id(),
    {
        self.id
    }

    /// The vertices, in order.
    pub fn points(&self) -> (pts: &Vec<Point>)
        ensures
            pts@ == self@,
            admissible(pts@),
    {
        proof {
            use_type_invariant(self);
        }
        &self.points
    }

    /// The number of vertices.
    pub fn count(&self) -> (n: usize)
        ensures
            n == self@.len(),
            n <= MAX_VERTICES,
    {
        proof {
            use_type_invariant(self);
        }
        self.points.len()
    }

    /// Twice the signed area: positive when the vertices run counter-clockwise
    /// with `y` pointing up.
    pub fn signed_area2(&self) -> (s: i128)
        ensures
            s == signed_area2(self@),
            -(self@.len() * 8_796_093_022_208) <= s <= self@.len() * 8_796_093_022_208,
    {
        proof {
            use_type_invariant(self);
        }
        let n: usize = self.points.len();
        let mut acc: i128 = 0;
        let mut i: usize = 0;
        while i < n
            invariant
                i <= n,
                n == self.points@.len(),
                n <= MAX_VERTICES,
                all_in_range(self.points@),
                acc == shoelace_sum(self.points@, i as nat),
                -(i * 8_796_093_022_208) <= acc <= i * 8_796_093_022_208,
            decreases n - i,
        {
            let a: Point = self.points[i];
            let j: usize = if i + 1 >= n { 0 } else { i + 1 };
            let b: Point = self.points[j];
            let (ax, ay, bx, by) = (a.x, a.y, b.x, b.y);
            assert(0 <= ax * by <= 4_398_046_511_104) by (nonlinear_arith)
                requires
                    0 <= ax <= 2_097_152,
                    0 <= by <= 2_097_152,
            ;
            assert(0 <= bx * ay <= 4_398_046_511_104) by (nonlinear_arith)
                requires
                    0 <= bx <= 2_097_152,
                    0 <= ay <= 2_097_152,
            ;
            let term: i64 = ax * by - bx * ay;
            assert(term == shoelace_term(self.points@, i as int));
            acc = acc + term as i128;
            i += 1;
        }
        acc
    }

    /// Twice the enclosed area, in squared sub-pixel steps.
    pub fn area2(&self) -> (a: u128)
        ensures
            a == area2(self@),
            a <= self@.len() * 8_796_093_022_208,
    {
        let s: i128 = self.signed_area2();
        let n: usize = self.count();
        if s >= 0 {
            s as u128
        } else {
            (-s) as u128
        }
    }

    /// The length of the closed boundary, each edge rounded down to a whole
    /// sub-pixel step.
    pub fn perimeter(&self) -> (len: u64)
        ensures
            len == perimeter(self@),
            len <= self@.len() * 4_194_303,
    {
        proof {
            use_type_invariant(self);
        }
        let n: usize = self.points.len();
        let mut acc: u64 = 0;
        let mut i: usize = 0;
        while i < n
            invariant
                i <= n,
                n == self.points@.len(),
                n <= MAX_VERTICES,
                all_in_range(self.points@),
                acc == path_length(self.points@, i as nat),
                acc <= i * 4_194_303,
            decreases n - i,
        {
            let j: usize = if i + 1 >= n { 0 } else { i + 1 };
            let d: u64 = distance_squared(&self.points[i], &self.points[j]);
            let e: u64 = isqrt(d);
            proof {
                lemma_edge_length_bound(self.points@, i as int);
            }
            acc = acc + e;
            i += 1;
        }
        acc
    }

    /// The smallest axis-aligned box around the vertices, with confidence zero
    /// and the polygon's class (class 0 when it has none); nothing for a
    /// polygon without vertices.
    pub fn bbox(&self) -> (b: Option<Bbox>)
        ensures
            b.is_some() <==> self@.len() > 0,
            b.is_some() ==> is_bounding_box(self@, b.unwrap()@),
            b.is_some() ==> b.unwrap()@ == (BoxModel {
                id: match self.class_id() {
                    Some(id) => id as nat,
                    None => 0,
                },
                ..bounding_box(self@)
            }),
    {
        proof {
            use_type_invariant(self);
        }
        let n: usize = self.points.len();
        if n == 0 {
            return None;
        }
        let first: Point = self.points[0];
        let mut x0: i64 = first.x;
        let mut x1: i64 = first.x;
        let mut y0: i64 = first.y;
        let mut y1: i64 = first.y;
        let mut i: usize = 1;
        while i < n
            invariant
                1 <= i <= n,
                n == self.points@.len(),
                all_in_range(self.points@),
                forall|j: int| 0 <= j < i ==> x0 <= (#[trigger] self.points@[j]).x <= x1,
                forall|j: int| 0 <= j < i ==> y0 <= (#[trigger] self.points@[j]).y <= y1,
                exists|j: int| 0 <= j < i && (#[trigger] self.points@[j]).x == x0,
                exists|j: int| 0 <= j < i && (#[trigger] self.points@[j]).x == x1,
                exists|j: int| 0 <= j < i && (#[trigger] self.points@[j]).y == y0,
                exists|j: int| 0 <= j < i && (#[trigger] self.points@[j]).y == y1,
            decreases n - i,
        {
            let p: Point = self.points[i];
            if p.x < x0 {
                x0 = p.x;
            }
            if p.x > x1 {
                x1 = p.x;
            }
            if p.y < y0 {
                y0 = p.y;
            }
            if p.y > y1 {
                y1 = p.y;
            }
            i += 1;
        }
        let id: usize = match self.id {
            Some(id) => id,
            None => 0,
        };
        let b = Bbox::new(x0, y0, x1 - x0, y1 - y0, 0, id);
        proof {
            lemma_bounding_box_unique(self@, b.unwrap()@);
        }
        b
    }

    /// Keeps the polygon when it has three vertices or more and a positive
    /// area, and rejects it otherwise.
    pub fn verify(self) -> (p: Option<Polygon>)
        ensures
            p.is_some() <==> is_proper(self@),
            p.is_some() ==> p.unwrap()@ == self@ && p.unwrap().class_id() == self.class_id(),
    {
        if self.points.len() >= 3 && self.area2() > 0 {
            Some(self)
        } else {
            None
        }
    }
}

} // verus!
