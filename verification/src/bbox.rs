//! Axis-aligned boxes with a confidence and a class, and their overlap.
use vstd::prelude::*;
use crate::fixed::{MAX_COORD, PPM};
use crate::point::Point;

verus! {

/// What a `Bbox` stands for: lengths in sub-pixel steps, the confidence in
/// millionths.
pub struct BoxModel {
    pub x: int,
    pub y: int,
    pub w: int,
    pub h: int,
    pub confidence: nat,
    pub id: nat,
}

/// The box lies in the accepted square and its confidence is at most 1.0.
pub open spec fn box_valid(b: BoxModel) -> bool {
    &&& 0 <= b.x
    &&& 0 <= b.y
    &&& 0 <= b.w
    &&& 0 <= b.h
    &&& b.x + b.w <= MAX_COORD
    &&& b.y + b.h <= MAX_COORD
    &&& b.confidence <= PPM
}

/// The area of a box, in squared sub-pixel steps.
pub open spec fn box_area(b: BoxModel) -> int {
    b.w * b.h
}

pub open spec fn min_int(a: int, b: int) -> int {
    if a <= b { a } else { b }
}

pub open spec fn max_int(a: int, b: int) -> int {
    if a >= b { a } else { b }
}

/// The point lies in the box or on its border.
pub open spec fn box_contains(b: BoxModel, p: Point) -> bool {
    b.x <= p.x <= b.x + b.w && b.y <= p.y <= b.y + b.h
}

/// The area shared by two boxes.
pub open spec fn intersection_area(a: BoxModel, b: BoxModel) -> int {
    let iw = max_int(0, min_int(a.x + a.w, b.x + b.w) - max_int(a.x, b.x));
    let ih = max_int(0, min_int(a.y + a.h, b.y + b.h) - max_int(a.y, b.y));
    iw * ih
}

/// The area covered by either of two boxes.
pub open spec fn union_area(a: BoxModel, b: BoxModel) -> int {
    box_area(a) + box_area(b) - intersection_area(a, b)
}

/// The intersection-over-union of `a` and `b` is strictly above
/// `threshold_ppm` millionths. Two boxes that cover no area overlap by nothing.
pub open spec fn iou_exceeds(a: BoxModel, b: BoxModel, threshold_ppm: nat) -> bool {
    union_area(a, b) > 0 && intersection_area(a, b) * 1_000_000 > threshold_ppm * union_area(a, b)
}

/// The overlap of two boxes does not depend on their order.
pub proof fn lemma_iou_symmetric(a: BoxModel, b: BoxModel, threshold_ppm: nat)
    ensures
        intersection_area(a, b) == intersection_area(b, a),
        union_area(a, b) == union_area(b, a),
        iou_exceeds(a, b, threshold_ppm) == iou_exceeds(b, a, threshold_ppm),
{
}

/// An axis-aligned box: top-left corner, width and height in sub-pixel steps,
/// a confidence in millionths and a class id.
#[derive(Clone, Copy, Debug)]
pub struct Bbox {
    x: i64,
    y: i64,
    w: i64,
    h: i64,
    confidence: u32,
    id: usize,
}

impl View for Bbox {
    type V = BoxModel;

    closed spec fn view(&self) -> BoxModel {
        BoxModel {
            x: self.x as int,
            y: self.y as int,
            w: self.w as int,
            h: self.h as int,
            confidence: self.confidence as nat,
            id: self.id as nat,
        }
    }
}

impl Bbox {
    #[verifier::type_invariant]
    spec fn inv(self) -> bool {
        box_valid(self@)
    }

    /// Builds a box, or nothing when it would leave the accepted square, have a
    /// negative side or a confidence above 1.0.
    pub fn new(x: i64, y: i64, w: i64, h: i64, confidence: u32, id: usize) -> (b: Option<Bbox>)
        ensures
            b.is_some() <==> box_valid(
                (BoxModel { x: x as int, y: y as int, w: w as int, h: h as int, confidence: confidence as nat, id: id as nat }),
            ),
            b.is_some() ==> b.unwrap()@ == (BoxModel {
                x: x as int,
                y: y as int,
                w: w as int,
                h: h as int,
                confidence: confidence as nat,
                id: id as nat,
            }),
    {
        if 0 <= x && 0 <= y && 0 <= w && 0 <= h && x <= MAX_COORD && w <= MAX_COORD - x && y
            <= MAX_COORD && h <= MAX_COORD - y && confidence <= PPM {
            Some(Bbox { x, y, w, h, confidence, id })
        } else {
            None
        }
    }

    /// The left edge.
    pub fn xmin(&self) -> (v: i64)
        ensures
            v == self@.x,
            0 <= v <= MAX_COORD,
    {
        proof {
            use_type_invariant(self);
        }
        self.x
    }

    /// The top edge.
    pub fn ymin(&self) -> (v: i64)
        ensures
            v == self@.y,
            0 <= v <= MAX_COORD,
    {
        proof {
            use_type_invariant(self);
        }
        self.y
    }

    /// The right edge.
    pub fn xmax(&self) -> (v: i64)
        ensures
            v == self@.x + self@.w,
            0 <= v <= MAX_COORD,
    {
        proof {
            use_type_invariant(self);
        }
        self.x + self.w
    }

    /// The bottom edge.
    pub fn ymax(&self) -> (v: i64)
        ensures
            v == self@.y + self@.h,
            0 <= v <= MAX_COORD,
    {
        proof {
            use_type_invariant(self);
        }
        self.y + self.h
    }

    /// The width.
    pub fn width(&self) -> (v: i64)
        ensures
            v == self@.w,
            0 <= v <= MAX_COORD,
    {
        proof {
            use_type_invariant(self);
        }
        self.w
    }

    /// The height.
    pub fn height(&self) -> (v: i64)
        ensures
            v == self@.h,
            0 <= v <= MAX_COORD,
    {
        proof {
            use_type_invariant(self);
        }
        self.h
    }

    /// The confidence, in millionths.
    pub fn confidence(&self) -> (v: u32)
        ensures
            v == self@.confidence,
            v <= PPM,
    {
        proof {
            use_type_invariant(self);
        }
        self.confidence
    }

    /// The class id.
    pub fn id(&self) -> (v: usize)
        ensures
            v == self@.id,
    {
        self.id
    }

    /// The same box with another confidence; a value above 1.0 counts as 1.0.
    pub fn with_confidence(self, confidence: u32) -> (b: Bbox)
        ensures
            b@ == (BoxModel { confidence: min_int(confidence as int, PPM as int) as nat, ..self@ }),
    {
        proof {
            use_type_invariant(&self);
        }
        let c: u32 = if confidence > PPM { PPM } else { confidence };
        Bbox { x: self.x, y: self.y, w: self.w, h: self.h, confidence: c, id: self.id }
    }

    /// The same box with another class id.
    pub fn with_id(self, id: usize) -> (b: Bbox)
        ensures
            b@ == (BoxModel { id: id as nat, ..self@ }),
    {
        proof {
            use_type_invariant(&self);
        }
        Bbox { x: self.x, y: self.y, w: self.w, h: self.h, confidence: self.confidence, id }
    }

    /// The area of the box, in squared sub-pixel steps.
    pub fn area(&self) -> (a: u64)
        ensures
            a == box_area(self@),
            a <= 4_398_046_511_104,
    {
        proof {
            use_type_invariant(self);
        }
        let w: i64 = self.w;
        let h: i64 = self.h;
        assert(0 <= w * h <= 4_398_046_511_104) by (nonlinear_arith)
            requires
                0 <= w <= 2_097_152,
                0 <= h <= 2_097_152,
        ;
        (w * h) as u64
    }

    /// Whether the point lies in the box or on its border.
    pub fn contains(&self, p: &Point) -> (inside: bool)
        ensures
            inside == box_contains(self@, *p),
    {
        proof {
            use_type_invariant(self);
        }
        self.x <= p.x && p.x <= self.x + self.w && self.y <= p.y && p.y <= self.y + self.h
    }

    /// The area shared with `other`.
    pub fn intersect(&self, other: &Bbox) -> (a: u64)
        ensures
            a == intersection_area(self@, other@),
            a <= box_area(self@),
            a <= box_area(other@),
    {
        proof {
            use_type_invariant(self);
            use_type_invariant(other);
        }
        let left: i64 = if self.x >= other.x { self.x } else { other.x };
        let top: i64 = if self.y >= other.y { self.y } else { other.y };
        let right: i64 = if self.x + self.w <= other.x + other.w { self.x + self.w } else { other.x + other.w };
        let bottom: i64 = if self.y + self.h <= other.y + other.h { self.y + self.h } else { other.y + other.h };
        let iw: i64 = if right > left { right - left } else { 0 };
        let ih: i64 = if bottom > top { bottom - top } else { 0 };
        let (sw, sh, ow, oh) = (self.w, self.h, other.w, other.h);
        assert(0 <= iw * ih <= sw * sh && iw * ih <= ow * oh) by (nonlinear_arith)
            requires
                0 <= iw <= sw,
                0 <= iw <= ow,
                0 <= ih <= sh,
                0 <= ih <= oh,
        ;
        assert(sw * sh <= 4_398_046_511_104) by (nonlinear_arith)
            requires
                0 <= sw <= 2_097_152,
                0 <= sh <= 2_097_152,
        ;
        (iw * ih) as u64
    }

    /// Whether the intersection-over-union with `other` is strictly above
    /// `threshold_ppm` millionths.
    pub fn iou_above(&self, other: &Bbox, threshold_ppm: u32) -> (above: bool)
        ensures
            above == iou_exceeds(self@, other@, threshold_ppm as nat),
    {
        let inter: u64 = self.intersect(other);
        let total: u64 = self.area() + other.area() - inter;
        if total == 0 {
            return false;
        }
        assert(threshold_ppm * total <= 0xFFFF_FFFF * 8_796_093_022_208) by (nonlinear_arith)
            requires
                threshold_ppm <= 0xFFFF_FFFF,
                total <= 8_796_093_022_208,
        ;
        (inter as u128) * 1_000_000 > (threshold_ppm as u128) * (total as u128)
    }
}

} // verus!
