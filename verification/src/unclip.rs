//! Dilation of a polygon: every vertex moves outward along the normal of the
//! chord through its two neighbours, then is limited to the image.
use vstd::prelude::*;
use crate::fixed::{floor_sqrt, isqrt, rounded_ratio, scale_div, scale_toward_zero, MAX_DIMENSION};
use crate::point::{all_in_range, dist2, distance_squared, Point};
use crate::polygon::{area2, perimeter, pred_index, signed_area2, succ_index, Polygon};
use crate::scale::{clamped, ScaleInfo};

verus! {

/// The length of an image side in sub-pixel steps; sides longer than
/// `MAX_DIMENSION` pixels count as `MAX_DIMENSION`.
pub open spec fn span_steps(side: nat) -> int {
    if side > MAX_DIMENSION { MAX_DIMENSION * 64 } else { (side * 64) as int }
}

/// The distance by which a contour is dilated: its area, times the rounded
/// scale ratio, times the unclip ratio, over its perimeter. It saturates at the
/// largest `u64`.
pub open spec fn unclip_distance(pts: Seq<Point>, ratio_ppm: nat, unclip_ppm: nat) -> nat {
    let exact = (area2(pts) * rounded_ratio(ratio_ppm) * unclip_ppm) / (2_000_000 * perimeter(pts));
    if exact > u64::MAX { u64::MAX as nat } else { exact }
}

/// The outward normal at vertex `i`: the chord from the previous to the next
/// vertex, turned a quarter away from the interior.
pub open spec fn outward_normal(pts: Seq<Point>, i: int) -> (int, int) {
    let n = pts.len() as int;
    let prev = pts[pred_index(i, n)];
    let next = pts[succ_index(i, n)];
    if signed_area2(pts) >= 0 {
        (next.y - prev.y, prev.x - next.x)
    } else {
        (prev.y - next.y, next.x - prev.x)
    }
}

/// Vertex `i` moved outward by `delta` steps and limited to the rectangle from
/// the origin to `(max_x, max_y)`. A vertex whose neighbours coincide does not
/// move.
pub open spec fn unclipped_point(pts: Seq<Point>, i: int, delta: nat, max_x: int, max_y: int) -> Point {
    let n = pts.len() as int;
    let len = floor_sqrt(dist2(pts[pred_index(i, n)], pts[succ_index(i, n)]));
    let normal = outward_normal(pts, i);
    if len == 0 {
        Point { x: clamped(pts[i].x as int, 0, max_x) as i64, y: clamped(pts[i].y as int, 0, max_y) as i64 }
    } else {
        Point {
            x: clamped(pts[i].x + scale_toward_zero(normal.0, delta, len), 0, max_x) as i64,
            y: clamped(pts[i].y + scale_toward_zero(normal.1, delta, len), 0, max_y) as i64,
        }
    }
}

/// A vertex of the dilated polygon lies in the rectangle to which it was
/// limited, and a vertex inside that rectangle stays where it is when the
/// distance is zero.
pub proof fn lemma_unclipped_point(pts: Seq<Point>, i: int, delta: nat, max_x: int, max_y: int)
    requires
        0 <= i < pts.len(),
        0 <= max_x <= 2_097_152,
        0 <= max_y <= 2_097_152,
    ensures
        0 <= unclipped_point(pts, i, delta, max_x, max_y).x <= max_x,
        0 <= unclipped_point(pts, i, delta, max_x, max_y).y <= max_y,
        delta == 0 && 0 <= pts[i].x <= max_x && 0 <= pts[i].y <= max_y ==> unclipped_point(
            pts,
            i,
            delta,
            max_x,
            max_y,
        ) == pts[i],
{
    let n = pts.len() as int;
    let len = floor_sqrt(dist2(pts[pred_index(i, n)], pts[succ_index(i, n)]));
    let normal = outward_normal(pts, i);
    if len > 0 && delta == 0 {
        crate::fixed::lemma_scale_magnitude(normal.0, 0, len);
        crate::fixed::lemma_scale_magnitude(normal.1, 0, len);
        assert(normal.0 * 0 == 0 && normal.1 * 0 == 0) by (nonlinear_arith);
    }
}

/// The polygon with every vertex moved outward.
pub open spec fn unclipped(pts: Seq<Point>, delta: nat, max_x: int, max_y: int) -> Seq<Point> {
    Seq::new(pts.len(), |i: int| unclipped_point(pts, i, delta, max_x, max_y))
}

fn clamp_coord(v: i128, limit: i64) -> (r: i64)
    requires
        0 <= limit,
    ensures
        r == clamped(v as int, 0, limit as int),
        0 <= r <= limit,
{
    if v < 0 {
        0
    } else if v > limit as i128 {
        limit
    } else {
        v as i64
    }
}

/// The length of an image side in sub-pixel steps.
pub fn side_steps(side: u32) -> (steps: i64)
    ensures
        steps == span_steps(side as nat),
        0 <= steps <= 2_097_152,
{
    if side > MAX_DIMENSION {
        (MAX_DIMENSION as i64) * 64
    } else {
        (side as i64) * 64
    }
}

impl Polygon {
    /// The distance by which this polygon is to be dilated for an image
    /// scaled by `scale`; nothing when its perimeter is zero.
    pub fn unclip_distance(&self, scale: &ScaleInfo, unclip_ppm: u32) -> (d: Option<u64>)
        ensures
            d.is_some() <==> perimeter(self@) > 0,
            d.is_some() ==> d.unwrap() == unclip_distance(self@, scale@.ratio_ppm, unclip_ppm as nat),
    {
        let per: u64 = self.perimeter();
        if per == 0 {
            return None;
        }
        let n: usize = self.count();
        let a: u128 = self.area2();
        let r: u64 = scale.rounded_ratio();
        assert(a * r <= 79_228_162_514_264_337_593_543_950_336) by (nonlinear_arith)
            requires
                a <= n * 8_796_093_022_208,
                n <= 274_877_906_944,
                r <= 32_768,
        ;
        let ar: u128 = a * (r as u128);
        assert(ar * unclip_ppm <= 79_228_162_514_264_337_593_543_950_336 * 4_294_967_295) by (nonlinear_arith)
            requires
                ar <= 79_228_162_514_264_337_593_543_950_336,
                unclip_ppm <= 4_294_967_295,
        ;
        assert(per <= 1_152_921_504_606_846_976) by (nonlinear_arith)
            requires
                per <= n * 4_194_303,
                n <= 274_877_906_944,
        ;
        let num: u128 = ar * (unclip_ppm as u128);
        let den: u128 = 2_000_000 * (per as u128);
        let exact: u128 = num / den;
        if exact > u64::MAX as u128 {
            Some(u64::MAX)
        } else {
            Some(exact as u64)
        }
    }

    /// Dilates the polygon by `delta` sub-pixel steps inside an image of
    /// `width` by `height` pixels.
    pub fn unclip(&self, delta: u64, width: u32, height: u32) -> (p: Polygon)
        ensures
            p@ == unclipped(self@, delta as nat, span_steps(width as nat), span_steps(height as nat)),
            p.class_id() == self.class_id(),
    {
        let max_x: i64 = side_steps(width);
        let max_y: i64 = side_steps(height);
        let pts: &Vec<Point> = self.points();
        let n: usize = pts.len();
        let ccw: bool = self.signed_area2() >= 0;
        let mut out: Vec<Point> = Vec::new();
        let mut i: usize = 0;
        while i < n
            invariant
                i <= n,
                n == pts@.len(),
                pts@ == self@,
                all_in_range(pts@),
                ccw == (signed_area2(pts@) >= 0),
                0 <= max_x <= 2_097_152,
                0 <= max_y <= 2_097_152,
                out@.len() == i,
                all_in_range(out@),
                forall|j: int| 0 <= j < i ==> out@[j] == unclipped_point(pts@, j, delta as nat, max_x as int, max_y as int),
            decreases n - i,
        {
            let ip: usize = if i == 0 { n - 1 } else { i - 1 };
            let is: usize = if i + 1 >= n { 0 } else { i + 1 };
            let prev: Point = pts[ip];
            let next: Point = pts[is];
            let here: Point = pts[i];
            let len: u64 = isqrt(distance_squared(&prev, &next));
            let moved: Point = if len == 0 {
                Point { x: clamp_coord(here.x as i128, max_x), y: clamp_coord(here.y as i128, max_y) }
            } else {
                let nx: i64 = if ccw { next.y - prev.y } else { prev.y - next.y };
                let ny: i64 = if ccw { prev.x - next.x } else { next.x - prev.x };
                let ox: i128 = scale_div(nx, delta, len);
                let oy: i128 = scale_div(ny, delta, len);
                proof {
                    crate::fixed::lemma_scale_magnitude(nx as int, delta as nat, len as nat);
                    crate::fixed::lemma_scale_magnitude(ny as int, delta as nat, len as nat);
                    assert(-38_685_626_227_668_133_590_597_632 <= nx * delta <= 38_685_626_227_668_133_590_597_632)
                        by (nonlinear_arith)
                        requires
                            -2_097_152 <= nx <= 2_097_152,
                            0 <= delta <= 18_446_744_073_709_551_615,
                    ;
                    assert(-38_685_626_227_668_133_590_597_632 <= ny * delta <= 38_685_626_227_668_133_590_597_632)
                        by (nonlinear_arith)
                        requires
                            -2_097_152 <= ny <= 2_097_152,
                            0 <= delta <= 18_446_744_073_709_551_615,
                    ;
                }
                Point { x: clamp_coord(here.x as i128 + ox, max_x), y: clamp_coord(here.y as i128 + oy, max_y) }
            };
            assert(moved == unclipped_point(pts@, i as int, delta as nat, max_x as int, max_y as int));
            out.push(moved);
            i += 1;
        }
        assert(out@ =~= unclipped(self@, delta as nat, max_x as int, max_y as int));
        Polygon::assemble(out, self.id())
    }
}

} // verus!
