//! The decoder for detection models: per-anchor box regressions and class
//! scores become boxes in the source image, thinned by non-maximum
//! suppression.
use vstd::prelude::*;
use crate::bbox::{Bbox, BoxModel};
use crate::db::{image_record, DB};
use crate::dynconf::DynConf;
use crate::fixed::PPM;
use crate::nms::{nms, suppressed};
use crate::scale::{clamped, inverted, lemma_inverted_monotone, ScaleInfo, ScaleModel};
use crate::unclip::{side_steps, span_steps};
use crate::y::{box_models, empty_record, merged, YModel, Y};

verus! {

/// The largest magnitude, in sub-pixel steps, that a regressed centre or side
/// may have.
pub const ANCHOR_LIMIT: i64 = 1_099_511_627_776;

/// One anchor of a detection model: the centre, width and height of its box
/// in the model input, in sub-pixel steps, and one score per class, in
/// millionths.
#[derive(Debug)]
pub struct Anchor {
    pub cx: i64,
    pub cy: i64,
    pub w: i64,
    pub h: i64,
    pub scores: Vec<u32>,
}

/// What an `Anchor` stands for.
pub struct AnchorModel {
    pub cx: int,
    pub cy: int,
    pub w: int,
    pub h: int,
    pub scores: Seq<u32>,
}

impl View for Anchor {
    type V = AnchorModel;

    open spec fn view(&self) -> AnchorModel {
        AnchorModel {
            cx: self.cx as int,
            cy: self.cy as int,
            w: self.w as int,
            h: self.h as int,
            scores: self.scores@,
        }
    }
}

/// The models of a sequence of anchors.
pub open spec fn anchor_models(s: Seq<Anchor>) -> Seq<AnchorModel> {
    Seq::new(s.len(), |i: int| s[i]@)
}

/// The class with the highest of the first `k` scores; the lowest such class
/// when several share it.
pub open spec fn best_class(scores: Seq<u32>, k: nat) -> int
    decreases k,
{
    if k <= 1 {
        0
    } else {
        let b = best_class(scores, (k - 1) as nat);
        if scores[k - 1] > scores[b] {
            k - 1
        } else {
            b
        }
    }
}

/// The best class is a class, and no class scores higher.
pub proof fn lemma_best_class(scores: Seq<u32>, k: nat, i: int)
    requires
        0 <= i < k,
    ensures
        0 <= best_class(scores, k) < k,
        scores[best_class(scores, k)] >= scores[i],
    decreases k,
{
    if k > 1 {
        if i < k - 1 {
            lemma_best_class(scores, (k - 1) as nat, i);
        } else {
            lemma_best_class(scores, (k - 1) as nat, 0);
        }
    }
}

/// The regression lies within `ANCHOR_LIMIT` and the sides are not negative.
pub open spec fn anchor_in_limits(a: AnchorModel) -> bool {
    &&& -ANCHOR_LIMIT <= a.cx <= ANCHOR_LIMIT
    &&& -ANCHOR_LIMIT <= a.cy <= ANCHOR_LIMIT
    &&& 0 <= a.w <= ANCHOR_LIMIT
    &&& 0 <= a.h <= ANCHOR_LIMIT
}

/// A score, at most 1.0.
pub open spec fn capped(score: u32) -> nat {
    if score > PPM { PPM as nat } else { score as nat }
}

/// The box that an anchor proposes in the source image, or nothing when the
/// anchor is dropped: when it has no scores or lies beyond the limits, when
/// the confidence table has no threshold for its best class, or when its
/// best score is below that threshold. The corners are freed of the offset,
/// mapped back to the source image and only then limited to it.
pub open spec fn candidate(a: AnchorModel, confs: Seq<u32>, scale: ScaleModel) -> Option<BoxModel> {
    if a.scores.len() == 0 || !anchor_in_limits(a) {
        None
    } else {
        let c = best_class(a.scores, a.scores.len());
        let s = capped(a.scores[c]);
        if c >= confs.len() || s < confs[c] {
            None
        } else {
            let left = a.cx - a.w / 2 - scale.pad_x;
            let top = a.cy - a.h / 2 - scale.pad_y;
            let x0 = clamped(inverted(left, scale.ratio_ppm), 0, span_steps(scale.width));
            let x1 = clamped(inverted(left + a.w, scale.ratio_ppm), 0, span_steps(scale.width));
            let y0 = clamped(inverted(top, scale.ratio_ppm), 0, span_steps(scale.height));
            let y1 = clamped(inverted(top + a.h, scale.ratio_ppm), 0, span_steps(scale.height));
            Some(BoxModel { x: x0, y: y0, w: x1 - x0, h: y1 - y0, confidence: s, id: c as nat })
        }
    }
}

/// The boxes proposed by the first `k` anchors, in the order of the anchors.
pub open spec fn candidates(anchors: Seq<AnchorModel>, confs: Seq<u32>, scale: ScaleModel, k: nat) -> Seq<
    BoxModel,
>
    decreases k,
{
    if k == 0 {
        Seq::empty()
    } else {
        let front = candidates(anchors, confs, scale, (k - 1) as nat);
        match candidate(anchors[k - 1], confs, scale) {
            Some(b) => front.push(b),
            None => front,
        }
    }
}

/// The boxes decoded from the anchors of one image.
pub open spec fn decoded_boxes(
    anchors: Seq<AnchorModel>,
    confs: Seq<u32>,
    scale: ScaleModel,
    iou_threshold_ppm: nat,
) -> Seq<BoxModel> {
    suppressed(candidates(anchors, confs, scale, anchors.len()), iou_threshold_ppm)
}

/// Finds the class with the highest score, the lowest such class when
/// several share it; nothing when there are no scores.
pub fn argmax(scores: &Vec<u32>) -> (best: Option<usize>)
    ensures
        best.is_some() <==> scores@.len() > 0,
        best.is_some() ==> best.unwrap() == best_class(scores@, scores@.len()) && best.unwrap() < scores@.len(),
{
    if scores.len() == 0 {
        return None;
    }
    let mut best: usize = 0;
    let mut k: usize = 1;
    while k < scores.len()
        invariant
            1 <= k <= scores@.len(),
            best < k,
            best == best_class(scores@, k as nat),
        decreases scores@.len() - k,
    {
        if scores[k] > scores[best] {
            best = k;
        }
        k += 1;
    }
    Some(best)
}

/// Turns one anchor into the box it proposes in the source image, if it
/// passes the confidence table.
pub fn propose(anchor: &Anchor, confs: &DynConf, scale: &ScaleInfo) -> (b: Option<Bbox>)
    ensures
        match b {
            Some(b) => candidate(anchor@, confs@, scale@) == Some(b@),
            None => candidate(anchor@, confs@, scale@).is_none(),
        },
{
    let class: usize = match argmax(&anchor.scores) {
        Some(c) => c,
        None => {
            return None;
        },
    };
    if anchor.cx < -ANCHOR_LIMIT || anchor.cx > ANCHOR_LIMIT || anchor.cy < -ANCHOR_LIMIT || anchor.cy
        > ANCHOR_LIMIT || anchor.w < 0 || anchor.w > ANCHOR_LIMIT || anchor.h < 0 || anchor.h > ANCHOR_LIMIT {
        return None;
    }
    let raw: u32 = anchor.scores[class];
    let score: u32 = if raw > PPM { PPM } else { raw };
    let threshold: u32 = match confs.get(class) {
        Some(t) => t,
        None => {
            return None;
        },
    };
    if score < threshold {
        return None;
    }
    let pad: (i64, i64) = scale.offset();
    let left: i64 = anchor.cx - anchor.w / 2 - pad.0;
    let top: i64 = anchor.cy - anchor.h / 2 - pad.1;
    let ratio: u64 = scale.ratio_ppm();
    let max_x: i64 = side_steps(scale.width());
    let max_y: i64 = side_steps(scale.height());
    let x0: i64 = scale.invert_clamped(left, max_x);
    let x1: i64 = scale.invert_clamped(left + anchor.w, max_x);
    let y0: i64 = scale.invert_clamped(top, max_y);
    let y1: i64 = scale.invert_clamped(top + anchor.h, max_y);
    proof {
        lemma_inverted_monotone(left as int, left + anchor.w, ratio as nat);
        lemma_inverted_monotone(top as int, top + anchor.h, ratio as nat);
    }
    Bbox::new(x0, y0, x1 - x0, y1 - y0, score, class)
}

/// Decodes the anchors of one image: each anchor's best class is held
/// against the confidence table, the surviving boxes are mapped back to the
/// source image, and non-maximum suppression thins them.
pub fn decode_anchors(anchors: &Vec<Anchor>, confs: &DynConf, scale: &ScaleInfo, iou_threshold_ppm: u32) -> (out:
    Vec<Bbox>)
    ensures
        box_models(out@) == decoded_boxes(anchor_models(anchors@), confs@, scale@, iou_threshold_ppm as nat),
        out@.len() <= anchors@.len(),
{
    let ghost models = anchor_models(anchors@);
    let mut found: Vec<Bbox> = Vec::new();
    let mut k: usize = 0;
    assert(box_models(found@) =~= candidates(models, confs@, scale@, 0));
    while k < anchors.len()
        invariant
            k <= anchors@.len(),
            models == anchor_models(anchors@),
            found@.len() <= k,
            box_models(found@) == candidates(models, confs@, scale@, k as nat),
        decreases anchors@.len() - k,
    {
        let ghost before = box_models(found@);
        assert(models[k as int] == anchors@[k as int]@);
        match propose(&anchors[k], confs, scale) {
            Some(b) => {
                found.push(b);
                assert(box_models(found@) =~= before.push(b@));
            },
            None => {},
        }
        k += 1;
    }
    nms(&found, iou_threshold_ppm)
}

/// The record of a model that detects and segments at once: the boxes
/// decoded from its anchors, followed by what its probability map yields.
pub open spec fn multitask_record(boxes: Seq<BoxModel>, segments: YModel) -> YModel {
    merged((YModel { bboxes: boxes, ..empty_record() }), segments)
}

/// Decodes the two outputs of a model that detects and segments at once, for
/// one image, into one record: first the boxes of the detections, then the
/// boxes, polygons and rotated rectangles of the segmented regions.
pub fn decode_multitask(
    anchors: &Vec<Anchor>,
    confs: &DynConf,
    iou_threshold_ppm: u32,
    segmenter: &DB,
    probs: &[u32],
    scale: &ScaleInfo,
) -> (y: Y)
    ensures
        y@ == multitask_record(
            decoded_boxes(anchor_models(anchors@), confs@, scale@, iou_threshold_ppm as nat),
            image_record(segmenter@, scale@, probs@),
        ),
{
    let boxes: Vec<Bbox> = decode_anchors(anchors, confs, scale, iou_threshold_ppm);
    let segments: Y = segmenter.decode_image(probs, scale);
    Y::new().with_bboxes(boxes).merge(segments)
}

} // verus!
