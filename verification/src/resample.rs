//! Resampling of a closed boundary to a fixed number of vertices, spaced
//! evenly by arc length.
use vstd::prelude::*;
use crate::fixed::{isqrt, scale_div, scale_toward_zero, MAX_VERTICES};
use crate::point::{all_in_range, distance_squared, in_range, Point};
use crate::polygon::{
    edge_length, lemma_edge_length_bound, lemma_path_length_bound, path_length, perimeter, succ_index, Polygon,
};

verus! {

/// The arc position of sample `k` out of `target` on a boundary of length
/// `total`.
pub open spec fn sample_offset(total: nat, k: nat, target: nat) -> nat {
    (k * total) / target
}

/// The arc position `s` falls on edge `j`: at or after its start and before
/// its end.
pub open spec fn on_edge(pts: Seq<Point>, s: nat, j: int) -> bool {
    0 <= j < pts.len() && path_length(pts, j as nat) <= s < path_length(pts, (j + 1) as nat)
}

/// The edge on which the arc position `s` falls.
pub open spec fn edge_at(pts: Seq<Point>, s: nat) -> int {
    choose|j: int| on_edge(pts, s, j)
}

/// The point `t` steps along edge `j`, by linear interpolation between its
/// two ends.
pub open spec fn point_on_edge(pts: Seq<Point>, j: int, t: nat) -> Point {
    let a = pts[j];
    let b = pts[succ_index(j, pts.len() as int)];
    let e = edge_length(pts, j);
    Point {
        x: (a.x + scale_toward_zero(b.x - a.x, t, e)) as i64,
        y: (a.y + scale_toward_zero(b.y - a.y, t, e)) as i64,
    }
}

/// The point at arc position `s` on the boundary.
pub open spec fn point_at(pts: Seq<Point>, s: nat) -> Point {
    let j = edge_at(pts, s);
    point_on_edge(pts, j, (s - path_length(pts, j as nat)) as nat)
}

/// The boundary resampled to `target` vertices spaced evenly by arc length,
/// the first one at the first vertex.
pub open spec fn resampled(pts: Seq<Point>, target: nat) -> Seq<Point> {
    Seq::new(target, |k: int| point_at(pts, sample_offset(perimeter(pts), k as nat, target)))
}

/// The path length never shrinks as edges are added.
pub proof fn lemma_path_length_monotone(pts: Seq<Point>, a: nat, b: nat)
    requires
        a <= b,
    ensures
        path_length(pts, a) <= path_length(pts, b),
    decreases b - a,
{
    if a < b {
        lemma_path_length_monotone(pts, a, (b - 1) as nat);
    }
}

/// An arc position falls on one edge at most.
pub proof fn lemma_on_edge_unique(pts: Seq<Point>, s: nat, j1: int, j2: int)
    requires
        on_edge(pts, s, j1),
        on_edge(pts, s, j2),
    ensures
        j1 == j2,
{
    if j1 < j2 {
        lemma_path_length_monotone(pts, (j1 + 1) as nat, j2 as nat);
    }
    if j2 < j1 {
        lemma_path_length_monotone(pts, (j2 + 1) as nat, j1 as nat);
    }
}

/// A value scaled by a fraction of at most one keeps its sign and does not
/// grow.
pub proof fn lemma_scale_fraction(v: int, t: nat, e: nat)
    requires
        e > 0,
        t <= e,
    ensures
        v >= 0 ==> 0 <= scale_toward_zero(v, t, e) <= v,
        v <= 0 ==> v <= scale_toward_zero(v, t, e) <= 0,
{
    let m: int = if v >= 0 { v } else { -v };
    assert(0 <= m * t <= m * e) by (nonlinear_arith)
        requires
            0 <= m,
            0 <= t <= e,
    ;
    vstd::arithmetic::div_mod::lemma_div_pos_is_pos(m * t, e as int);
    vstd::arithmetic::div_mod::lemma_div_is_ordered(m * t, m * e, e as int);
    vstd::arithmetic::div_mod::lemma_div_multiples_vanish(m, e as int);
    assert(m * e == e * m) by (nonlinear_arith);
}

/// A point interpolated along an edge of an admissible boundary lies in the
/// accepted square.
pub proof fn lemma_point_on_edge_in_range(pts: Seq<Point>, j: int, t: nat)
    requires
        all_in_range(pts),
        0 <= j < pts.len(),
        t <= edge_length(pts, j),
        edge_length(pts, j) > 0,
    ensures
        in_range(point_on_edge(pts, j, t)),
        point_on_edge(pts, j, t).x == pts[j].x + scale_toward_zero(
            pts[succ_index(j, pts.len() as int)].x - pts[j].x,
            t,
            edge_length(pts, j),
        ),
        point_on_edge(pts, j, t).y == pts[j].y + scale_toward_zero(
            pts[succ_index(j, pts.len() as int)].y - pts[j].y,
            t,
            edge_length(pts, j),
        ),
{
    let a = pts[j];
    let b = pts[succ_index(j, pts.len() as int)];
    lemma_scale_fraction(b.x - a.x, t, edge_length(pts, j));
    lemma_scale_fraction(b.y - a.y, t, edge_length(pts, j));
}

impl Polygon {
    /// Resamples the boundary to `target` vertices spaced evenly by arc
    /// length; nothing when the boundary has no length, or when `target` is
    /// zero or above `MAX_VERTICES`.
    pub fn resample(&self, target: usize) -> (p: Option<Polygon>)
        ensures
            p.is_some() <==> perimeter(self@) > 0 && 1 <= target <= MAX_VERTICES,
            p.is_some() ==> p.unwrap()@ == resampled(self@, target as nat),
            p.is_some() ==> p.unwrap().class_id() == self.class_id(),
    {
        let total: u64 = self.perimeter();
        if total == 0 || target == 0 || target as u64 > MAX_VERTICES {
            return None;
        }
        let pts: &Vec<Point> = self.points();
        let n: usize = pts.len();
        proof {
            assert(n > 0) by {
                if n == 0 {
                    assert(path_length(pts@, 0) == 0);
                }
            }
        }
        let mut out: Vec<Point> = Vec::new();
        let mut j: usize = 0;
        let mut start: u64 = 0;
        let mut len: u64 = isqrt(distance_squared(&pts[0], &pts[if 1 >= n { 0 } else { 1 }]));
        let mut k: usize = 0;
        while k < target
            invariant
                k <= target,
                1 <= target <= MAX_VERTICES,
                n == pts@.len(),
                n > 0,
                n <= MAX_VERTICES,
                pts@ == self@,
                all_in_range(pts@),
                total == perimeter(pts@),
                total > 0,
                total <= n * 4_194_303,
                j < n,
                start == path_length(pts@, j as nat),
                len == edge_length(pts@, j as int),
                k > 0 ==> start <= sample_offset(total as nat, (k - 1) as nat, target as nat),
                k == 0 ==> start == 0,
                out@.len() == k,
                all_in_range(out@),
                forall|i: int|
                    0 <= i < k ==> out@[i] == point_at(pts@, sample_offset(total as nat, i as nat, target as nat)),
            decreases target - k,
        {
            assert(k * total <= 274_877_906_944 * 1_152_921_504_606_846_976) by (nonlinear_arith)
                requires
                    k <= 274_877_906_944,
                    total <= n * 4_194_303,
                    n <= 274_877_906_944,
            ;
            let wide: u128 = (k as u128 * total as u128) / (target as u128);
            proof {
                assert(wide == sample_offset(total as nat, k as nat, target as nat));
                if k > 0 {
                    assert((k - 1) * total <= k * total) by (nonlinear_arith)
                        requires
                            k >= 1,
                            total >= 0,
                    ;
                    vstd::arithmetic::div_mod::lemma_div_is_ordered((k - 1) * total, k * total, target as int);
                }
                assert(k * total < target * total) by (nonlinear_arith)
                    requires
                        k < target,
                        total > 0,
                ;
                assert(target * total == total * target) by (nonlinear_arith);
                vstd::arithmetic::div_mod::lemma_div_by_multiple_is_strongly_ordered(
                    k * total,
                    total * target,
                    total as int,
                    target as int,
                );
                vstd::arithmetic::div_mod::lemma_div_multiples_vanish(total as int, target as int);
                assert(wide < total);
            }
            let s: u64 = wide as u64;
            while s - start >= len
                invariant
                    n == pts@.len(),
                    n > 0,
                    n <= MAX_VERTICES,
                    all_in_range(pts@),
                    total == perimeter(pts@),
                    s < total,
                    j < n,
                    start == path_length(pts@, j as nat),
                    len == edge_length(pts@, j as int),
                    start <= s,
                decreases n - j,
            {
                proof {
                    assert(path_length(pts@, (j + 1) as nat) == start + len);
                    if j + 1 == n {
                        assert(false);
                    }
                    lemma_path_length_bound(pts@, (j + 1) as nat);
                }
                start = start + len;
                j = j + 1;
                let next: usize = if j + 1 >= n { 0 } else { j + 1 };
                len = isqrt(distance_squared(&pts[j], &pts[next]));
            }
            let t: u64 = s - start;
            let a: Point = pts[j];
            let b: Point = pts[if j + 1 >= n { 0 } else { j + 1 }];
            let dx: i128 = scale_div(b.x - a.x, t, len);
            let dy: i128 = scale_div(b.y - a.y, t, len);
            proof {
                assert(path_length(pts@, (j + 1) as nat) == start + len);
                assert(on_edge(pts@, s as nat, j as int));
                lemma_on_edge_unique(pts@, s as nat, j as int, edge_at(pts@, s as nat));
                lemma_point_on_edge_in_range(pts@, j as int, t as nat);
            }
            let sample: Point = Point { x: (a.x as i128 + dx) as i64, y: (a.y as i128 + dy) as i64 };
            assert(sample == point_at(pts@, s as nat));
            out.push(sample);
            k += 1;
        }
        assert(out@ =~= resampled(self@, target as nat));
        Some(Polygon::assemble(out, self.id()))
    }
}

} // verus!
