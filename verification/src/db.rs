//! The decoder for binary-segmentation models: a probability map becomes a
//! mask, the mask becomes contours, and each contour is refined into a
//! polygon with its box and rotated rectangle.
use vstd::prelude::*;
use crate::bbox::{Bbox, BoxModel};
use crate::contours::{
    contour_models, extract_contours, is_degenerate_hole, lemma_background_has_no_borders, mask_contours,
    Contour, ContourModel,
};
use crate::dynconf::{padded_confs, confs_valid, DynConf};
use crate::fixed::{MAX_COORD, MAX_DIMENSION, MAX_VERTICES, PPM};
use crate::options::MAX_RESAMPLE_TARGET;
use crate::hull::{hull_points, is_convex_polygon};
use crate::mask::{
    binarize, binarized, crop_mask, cropped, lemma_cropped_of_blank, lemma_resized_of_blank, resize_mask, resized,
    Interpolation,
};
use crate::mbr::{has_frames, min_frame, Mbr, MbrModel};
use crate::options::{
    Options, DEFAULT_BINARY_THRESH, DEFAULT_MIN_HEIGHT, DEFAULT_MIN_WIDTH, DEFAULT_MODEL_SIDE,
    DEFAULT_RESAMPLE_TARGET, DEFAULT_UNCLIP_RATIO,
};
use crate::point::Point;
use crate::polygon::{
    area2, bounding_box, is_bounding_box, is_proper, lemma_area_within_box, perimeter, succ_index, Polygon,
};
use crate::resample::resampled;
use crate::scale::{occupied, ScaleInfo, ScaleModel};
use crate::unclip::{span_steps, unclip_distance, unclipped};
use crate::xs::{image_probs, Xs};
use crate::y::{box_models, empty_record, mbr_models, polygon_ids, polygon_models, YModel, Y};

verus! {

/// The intensity strictly above which a pixel of the resized mask is
/// foreground.
pub const CONTOUR_CUTOFF: u8 = 1;

/// Why a decoder cannot be built from the given settings.
#[derive(Clone, Copy, Debug, PartialEq, Eq, Structural)]
pub enum ConfigError {
    /// No confidence threshold was given.
    NoConfidence,
    /// A confidence threshold is above 1.0.
    ConfidenceOutOfRange,
    /// The foreground cutoff is above 1.0.
    ThresholdOutOfRange,
    /// A side of the model input is zero or above `MAX_DIMENSION`.
    BadModelSize,
    /// A least box side is negative or above `MAX_COORD`.
    BadMinimumSize,
    /// The resample target is below three or above `MAX_RESAMPLE_TARGET`.
    BadResampleTarget,
}

/// Why a batch cannot be decoded.
#[derive(Clone, Copy, Debug, PartialEq, Eq, Structural)]
pub enum DecodeError {
    /// The maps do not have the size of the model input.
    ShapeMismatch,
    /// The number of scale descriptors differs from the number of maps.
    BatchMismatch,
}

/// What a `DB` stands for.
pub struct DbModel {
    pub height: nat,
    pub width: nat,
    pub batch: nat,
    pub confs: Seq<u32>,
    pub unclip_ppm: nat,
    pub binary_thresh: u32,
    pub min_width: int,
    pub min_height: int,
    pub resample_target: nat,
    pub interpolation: Interpolation,
}

/// The settings are in the ranges that a decoder accepts.
pub open spec fn config_valid(m: DbModel) -> bool {
    &&& 1 <= m.height <= MAX_DIMENSION
    &&& 1 <= m.width <= MAX_DIMENSION
    &&& m.confs.len() == 1
    &&& m.confs[0] <= PPM
    &&& m.binary_thresh <= PPM
    &&& 0 <= m.min_width <= MAX_COORD
    &&& 0 <= m.min_height <= MAX_COORD
    &&& 3 <= m.resample_target <= MAX_RESAMPLE_TARGET
}

/// The value of a setting, or its default when it is unset.
pub open spec fn or_default<T>(v: Option<T>, d: T) -> T {
    match v {
        Some(x) => x,
        None => d,
    }
}

/// The decoder that the options describe, every unset option taking its
/// default.
pub open spec fn settings(o: Options) -> DbModel {
    DbModel {
        height: or_default(o.model_height, DEFAULT_MODEL_SIDE) as nat,
        width: or_default(o.model_width, DEFAULT_MODEL_SIDE) as nat,
        batch: or_default(o.batch, 1usize) as nat,
        confs: padded_confs(o.class_confs@, 1),
        unclip_ppm: or_default(o.unclip_ratio, DEFAULT_UNCLIP_RATIO) as nat,
        binary_thresh: or_default(o.binary_thresh, DEFAULT_BINARY_THRESH),
        min_width: or_default(o.min_width, DEFAULT_MIN_WIDTH) as int,
        min_height: or_default(o.min_height, DEFAULT_MIN_HEIGHT) as int,
        resample_target: or_default(o.resample_target, DEFAULT_RESAMPLE_TARGET) as nat,
        interpolation: or_default(o.interpolation, Interpolation::Bilinear),
    }
}

/// The first fault of the options, if they have one.
pub open spec fn config_error(o: Options) -> Option<ConfigError> {
    let m = settings(o);
    if o.class_confs@.len() == 0 {
        Some(ConfigError::NoConfidence)
    } else if !confs_valid(o.class_confs@) {
        Some(ConfigError::ConfidenceOutOfRange)
    } else if m.binary_thresh > PPM {
        Some(ConfigError::ThresholdOutOfRange)
    } else if !(1 <= m.height <= MAX_DIMENSION && 1 <= m.width <= MAX_DIMENSION) {
        Some(ConfigError::BadModelSize)
    } else if !(0 <= m.min_width <= MAX_COORD && 0 <= m.min_height <= MAX_COORD) {
        Some(ConfigError::BadMinimumSize)
    } else if !(3 <= m.resample_target <= MAX_RESAMPLE_TARGET) {
        Some(ConfigError::BadResampleTarget)
    } else {
        None
    }
}

/// What a `Detection` stands for.
pub struct DetectionModel {
    pub polygon: Seq<Point>,
    pub polygon_id: Option<usize>,
    pub bbox: BoxModel,
    pub mbr: Option<MbrModel>,
}

/// One accepted region: its polygon, the box around it and, where the polygon
/// allows one, the rotated rectangle around it.
#[derive(Debug)]
pub struct Detection {
    pub polygon: Polygon,
    pub bbox: Bbox,
    pub mbr: Option<Mbr>,
}

impl View for Detection {
    type V = DetectionModel;

    open spec fn view(&self) -> DetectionModel {
        DetectionModel {
            polygon: self.polygon@,
            polygon_id: self.polygon.class_id(),
            bbox: self.bbox@,
            mbr: match self.mbr {
                Some(m) => Some(m@),
                None => None,
            },
        }
    }
}

/// The model of a detection that may be missing.
pub open spec fn detection_model(d: Option<Detection>) -> Option<DetectionModel> {
    match d {
        Some(d) => Some(d@),
        None => None,
    }
}

/// The contour has at most `MAX_VERTICES` points, all of them pixels of an
/// image of accepted size.
pub open spec fn contour_admissible(points: Seq<(i32, i32)>) -> bool {
    &&& points.len() <= MAX_VERTICES
    &&& forall|i: int|
        0 <= i < points.len() ==> 0 <= (#[trigger] points[i]).0 <= MAX_DIMENSION && 0 <= points[i].1
            <= MAX_DIMENSION
}

/// The outline of a contour: its pixels as points in sub-pixel steps.
pub open spec fn contour_polygon(points: Seq<(i32, i32)>) -> Seq<Point> {
    Seq::new(points.len(), |i: int| Point { x: (points[i].0 * 64) as i64, y: (points[i].1 * 64) as i64 })
}

/// The outline after dilation, resampling and convex hull, or nothing when a
/// stage rejects it: when the outline or the dilated outline has no length,
/// or when the hull is not a proper polygon.
pub open spec fn refined_outline(cfg: DbModel, scale: ScaleModel, outline: Seq<Point>) -> Option<Seq<Point>> {
    if perimeter(outline) == 0 {
        None
    } else {
        let delta = unclip_distance(outline, scale.ratio_ppm, cfg.unclip_ppm);
        let grown = unclipped(outline, delta, span_steps(scale.width), span_steps(scale.height));
        if perimeter(grown) == 0 {
            None
        } else {
            let hull = hull_points(resampled(grown, cfg.resample_target));
            if is_proper(hull) {
                Some(hull)
            } else {
                None
            }
        }
    }
}

/// The share of a box of `w` by `h` that a polygon of twice the area `area2`
/// fills, in millionths, rounded down and at most 1.0.
pub open spec fn fill_ratio(area2: nat, w: int, h: int) -> nat {
    let r = ((area2 * 1_000_000) as int) / (2 * (w * h));
    if r > PPM { PPM as nat } else { r as nat }
}

/// For a polygon that encloses no more than its box, the fill ratio is the
/// exact quotient of the two areas rounded down: it lies less than one
/// millionth under it.
pub proof fn lemma_fill_ratio_is_close(area2: nat, w: int, h: int)
    requires
        w * h > 0,
        area2 <= 2 * (w * h),
    ensures
        fill_ratio(area2, w, h) * (2 * (w * h)) <= area2 * 1_000_000 < (fill_ratio(area2, w, h) + 1) * (2 * (w
            * h)),
{
    let num = (area2 * 1_000_000) as int;
    let den = 2 * (w * h);
    let q = num / den;
    vstd::arithmetic::div_mod::lemma_fundamental_div_mod(num, den);
    vstd::arithmetic::div_mod::lemma_mod_bound(num, den);
    vstd::arithmetic::div_mod::lemma_div_pos_is_pos(num, den);
    assert(den * q == q * den && (q + 1) * den == q * den + den) by (nonlinear_arith);
    assert(q <= 1_000_000) by (nonlinear_arith)
        requires
            q * den <= num,
            num <= den * 1_000_000,
            den > 0,
    ;
}

/// In a sound record, every confidence lies less than one millionth under
/// the area of its polygon over the area of its box, and every rotated
/// rectangle carries that confidence.
pub proof fn lemma_confidence_is_close(cfg: DbModel, y: YModel, i: int)
    requires
        record_sound(cfg, y),
        0 <= i < y.bboxes.len(),
    ensures
        y.bboxes[i].confidence * (2 * (y.bboxes[i].w * y.bboxes[i].h)) <= area2(y.polygons[i]) * 1_000_000 < (
        y.bboxes[i].confidence + 1) * (2 * (y.bboxes[i].w * y.bboxes[i].h)),
        y.mbrs[i].confidence == y.bboxes[i].confidence,
{
    lemma_fill_ratio_is_close(area2(y.polygons[i]), y.bboxes[i].w, y.bboxes[i].h);
}

/// The detection that a refined polygon of class `id` yields: the polygon
/// with its class, its box and its rotated rectangle, both of class 0 and
/// with the fill ratio as confidence. Nothing when it is
/// filtered out: when its box is lower than the least height, narrower than
/// the least width or without area, or when its confidence is below the
/// threshold of class 0.
pub open spec fn detection_of(cfg: DbModel, hull: Seq<Point>, id: Option<usize>) -> Option<DetectionModel> {
    let b = bounding_box(hull);
    if hull.len() == 0 || b.h < cfg.min_height || b.w < cfg.min_width || b.w * b.h == 0 {
        None
    } else {
        let c = fill_ratio(area2(hull), b.w, b.h);
        if c < cfg.confs[0] {
            None
        } else {
            Some(
                DetectionModel {
                    polygon: hull,
                    polygon_id: id,
                    bbox: BoxModel { confidence: c, id: 0, ..b },
                    mbr: if has_frames(hull) {
                        Some(MbrModel { confidence: c, id: 0, ..min_frame(hull) })
                    } else {
                        None
                    },
                },
            )
        }
    }
}

/// The detection that a contour yields, its polygon of class 0, or nothing
/// when the contour is dropped.
pub open spec fn refined(cfg: DbModel, scale: ScaleModel, c: ContourModel) -> Option<DetectionModel> {
    if is_degenerate_hole(c) || !contour_admissible(c.points) {
        None
    } else {
        match refined_outline(cfg, scale, contour_polygon(c.points)) {
            Some(hull) => detection_of(cfg, hull, Some(0usize)),
            None => None,
        }
    }
}

/// The record with one more detection.
pub open spec fn extended(y: YModel, d: DetectionModel) -> YModel {
    YModel {
        bboxes: y.bboxes.push(d.bbox),
        polygons: y.polygons.push(d.polygon),
        polygon_ids: y.polygon_ids.push(d.polygon_id),
        mbrs: match d.mbr {
            Some(m) => y.mbrs.push(m),
            None => y.mbrs,
        },
        ..y
    }
}

/// The record of the first `k` contours: the detections of those that are
/// accepted, in the order of the contours.
pub open spec fn decoded_record(cfg: DbModel, scale: ScaleModel, contours: Seq<ContourModel>, k: nat) -> YModel
    decreases k,
{
    if k == 0 {
        empty_record()
    } else {
        let y = decoded_record(cfg, scale, contours, (k - 1) as nat);
        match refined(cfg, scale, contours[k - 1]) {
            Some(d) => extended(y, d),
            None => y,
        }
    }
}

/// The record of one image: its probabilities are thresholded, the part of
/// the mask that the scaled source occupies is resized to the source image,
/// and the contours of the resized mask are refined. A map that does not have
/// the size of the model input gives the empty record.
pub open spec fn image_record(cfg: DbModel, scale: ScaleModel, probs: Seq<u32>) -> YModel {
    let mask = binarized(probs, cfg.binary_thresh);
    if mask.len() != cfg.width * cfg.height {
        empty_record()
    } else {
        let window = occupied(scale, cfg.height, cfg.width);
        let full = resized(
            cropped(mask, cfg.width as int, window),
            window.width as int,
            window.height as int,
            scale.width as int,
            scale.height as int,
            cfg.interpolation,
        );
        let contours = mask_contours(full, scale.width as u32, scale.height as u32, CONTOUR_CUTOFF);
        decoded_record(cfg, scale, contours, contours.len())
    }
}

/// The box of the detection bounds its polygon, has an area, is of class 0,
/// is at least as wide and as high as the settings ask, and carries as confidence the share of the box
/// that the polygon fills, which is at least the threshold of class 0.
pub open spec fn filters_passed(cfg: DbModel, d: DetectionModel) -> bool {
    &&& is_bounding_box(d.polygon, d.bbox)
    &&& d.bbox.w >= cfg.min_width
    &&& d.bbox.h >= cfg.min_height
    &&& d.bbox.confidence == fill_ratio(area2(d.polygon), d.bbox.w, d.bbox.h)
    &&& d.bbox.confidence >= cfg.confs[0]
    &&& d.bbox.id == 0
    &&& d.bbox.w * d.bbox.h > 0
}

/// The polygon is convex, encloses an area and has no more vertices than
/// the resample target.
pub open spec fn polygon_sound(cfg: DbModel, polygon: Seq<Point>) -> bool {
    is_convex_polygon(polygon) && area2(polygon) > 0 && polygon.len() <= cfg.resample_target
}

/// The rotated rectangle is the smallest edge-aligned one around the
/// polygon, of class 0 and with the confidence of the box.
pub open spec fn frame_of(polygon: Seq<Point>, bbox: BoxModel) -> MbrModel {
    MbrModel { confidence: bbox.confidence, id: 0, ..min_frame(polygon) }
}

/// The detection passed the filters, its polygon is sound and of class 0 and
/// encloses no more than its box, and it has its rotated rectangle.
pub open spec fn detection_sound(cfg: DbModel, d: DetectionModel) -> bool {
    &&& filters_passed(cfg, d)
    &&& polygon_sound(cfg, d.polygon)
    &&& d.polygon_id == Some(0usize)
    &&& d.mbr == Some(frame_of(d.polygon, d.bbox))
    &&& area2(d.polygon) <= 2 * (d.bbox.w * d.bbox.h)
}

/// A convex polygon has three vertices or more and no edge of length zero.
pub proof fn lemma_convex_has_frames(pts: Seq<Point>)
    requires
        is_convex_polygon(pts),
    ensures
        has_frames(pts),
{
    assert forall|i: int| 0 <= i < pts.len() implies #[trigger] pts[i] != pts[succ_index(i, pts.len() as int)] by {
        let j = succ_index(i, pts.len() as int);
        assert(i != j);
    }
}

/// A sound record with one more sound detection is sound.
pub proof fn lemma_extended_sound(cfg: DbModel, y: YModel, d: DetectionModel)
    requires
        record_sound(cfg, y),
        detection_sound(cfg, d),
    ensures
        record_sound(cfg, extended(y, d)),
{
    let next = extended(y, d);
    assert forall|i: int| 0 <= i < next.bboxes.len() implies (#[trigger] next.bboxes[i]).w >= cfg.min_width
        && next.bboxes[i].h >= cfg.min_height && is_bounding_box(next.polygons[i], next.bboxes[i])
        && next.bboxes[i].confidence == fill_ratio(
        area2(next.polygons[i]),
        next.bboxes[i].w,
        next.bboxes[i].h,
    ) && next.bboxes[i].confidence >= cfg.confs[0] && next.bboxes[i].id == 0 && next.bboxes[i].w
        * next.bboxes[i].h > 0 && area2(next.polygons[i]) <= 2 * (next.bboxes[i].w * next.bboxes[i].h) by {
        if i < y.bboxes.len() {
            assert(next.bboxes[i] == y.bboxes[i] && next.polygons[i] == y.polygons[i]);
        }
    }
    assert forall|i: int| 0 <= i < next.polygon_ids.len() implies #[trigger] next.polygon_ids[i] == Some(
        0usize,
    ) by {
        if i < y.polygon_ids.len() {
            assert(next.polygon_ids[i] == y.polygon_ids[i]);
        }
    }
    assert forall|i: int| 0 <= i < next.mbrs.len() implies #[trigger] next.mbrs[i] == frame_of(
        next.polygons[i],
        next.bboxes[i],
    ) by {
        if i < y.mbrs.len() {
            assert(next.mbrs[i] == y.mbrs[i] && next.bboxes[i] == y.bboxes[i] && next.polygons[i]
                == y.polygons[i]);
        }
    }
    assert forall|i: int| 0 <= i < next.polygons.len() implies polygon_sound(
        cfg,
        #[trigger] next.polygons[i],
    ) by {
        if i < y.polygons.len() {
            assert(next.polygons[i] == y.polygons[i]);
        }
    }
}

/// No probability of the map is above the foreground cutoff.
pub open spec fn blank(probs: Seq<u32>, threshold: u32) -> bool {
    forall|i: int| 0 <= i < probs.len() ==> #[trigger] probs[i] <= threshold
}

/// Every box of the record is at least as wide and as high as the settings
/// ask, belongs to the polygon at its place, bounds it, and carries as
/// confidence the share of the box that the polygon fills, which is no more
/// than the whole; every polygon is
/// convex, encloses an area, has between three vertices and as many as the
/// resample target, and is of class 0, as are the boxes and the rotated
/// rectangles; every polygon has its rotated rectangle, the smallest
/// edge-aligned one around it, with the confidence of its box.
pub open spec fn record_sound(cfg: DbModel, y: YModel) -> bool {
    &&& y.bboxes.len() == y.polygons.len()
    &&& forall|i: int|
        0 <= i < y.bboxes.len() ==> (#[trigger] y.bboxes[i]).w >= cfg.min_width && y.bboxes[i].h
            >= cfg.min_height
    &&& forall|i: int| 0 <= i < y.polygons.len() ==> polygon_sound(cfg, #[trigger] y.polygons[i])
    &&& forall|i: int|
        0 <= i < y.bboxes.len() ==> is_bounding_box(y.polygons[i], #[trigger] y.bboxes[i])
            && y.bboxes[i].confidence == fill_ratio(area2(y.polygons[i]), y.bboxes[i].w, y.bboxes[i].h)
            && y.bboxes[i].confidence >= cfg.confs[0] && y.bboxes[i].id == 0 && y.bboxes[i].w
            * y.bboxes[i].h > 0 && area2(y.polygons[i]) <= 2 * (y.bboxes[i].w * y.bboxes[i].h)
    &&& y.polygon_ids.len() == y.polygons.len()
    &&& forall|i: int| 0 <= i < y.polygon_ids.len() ==> #[trigger] y.polygon_ids[i] == Some(0usize)
    &&& y.mbrs.len() == y.polygons.len()
    &&& forall|i: int| 0 <= i < y.mbrs.len() ==> #[trigger] y.mbrs[i] == frame_of(y.polygons[i], y.bboxes[i])
}

/// The decoder of a binary-segmentation model.
#[derive(Debug)]
pub struct DB {
    height: u32,
    width: u32,
    batch: usize,
    confs: DynConf,
    unclip_ratio: u32,
    binary_thresh: u32,
    min_width: i64,
    min_height: i64,
    resample_target: usize,
    interpolation: Interpolation,
}

impl View for DB {
    type V = DbModel;

    closed spec fn view(&self) -> DbModel {
        DbModel {
            height: self.height as nat,
            width: self.width as nat,
            batch: self.batch as nat,
            confs: self.confs@,
            unclip_ppm: self.unclip_ratio as nat,
            binary_thresh: self.binary_thresh,
            min_width: self.min_width as int,
            min_height: self.min_height as int,
            resample_target: self.resample_target as nat,
            interpolation: self.interpolation,
        }
    }
}

/// Turns the pixels of a contour into a polygon; nothing when there are too
/// many of them or one lies outside every accepted image.
pub fn outline_of(points: &Vec<(i32, i32)>) -> (p: Option<Polygon>)
    ensures
        p.is_some() <==> contour_admissible(points@),
        p.is_some() ==> p.unwrap()@ == contour_polygon(points@) && p.unwrap().class_id().is_none(),
{
    let n: usize = points.len();
    if n as u64 > MAX_VERTICES {
        return None;
    }
    let mut out: Vec<Point> = Vec::new();
    let mut i: usize = 0;
    while i < n
        invariant
            i <= n,
            n == points@.len(),
            n <= MAX_VERTICES,
            out@.len() == i,
            crate::point::all_in_range(out@),
            forall|j: int|
                0 <= j < i ==> 0 <= (#[trigger] points@[j]).0 <= MAX_DIMENSION && 0 <= points@[j].1
                    <= MAX_DIMENSION,
            forall|j: int| 0 <= j < i ==> out@[j] == contour_polygon(points@)[j],
        decreases n - i,
    {
        let q: (i32, i32) = points[i];
        if q.0 < 0 || q.0 > MAX_DIMENSION as i32 || q.1 < 0 || q.1 > MAX_DIMENSION as i32 {
            return None;
        }
        out.push(Point::from_pixel(q.0, q.1));
        i += 1;
    }
    assert(out@ =~= contour_polygon(points@));
    Some(Polygon::assemble(out, None))
}

impl DB {
    #[verifier::type_invariant]
    spec fn inv(self) -> bool {
        config_valid(self@)
    }

    /// Builds a decoder from the options, or names their first fault.
    pub fn new(options: Options) -> (r: Result<DB, ConfigError>)
        ensures
            match r {
                Ok(db) => config_error(options).is_none() && db@ == settings(options) && config_valid(db@),
                Err(e) => config_error(options) == Some(e),
            },
    {
        if options.class_confs.len() == 0 {
            return Err(ConfigError::NoConfidence);
        }
        let confs = match DynConf::new(&options.class_confs, 1) {
            Some(c) => c,
            None => {
                return Err(ConfigError::ConfidenceOutOfRange);
            },
        };
        let binary_thresh: u32 = match options.binary_thresh {
            Some(v) => v,
            None => DEFAULT_BINARY_THRESH,
        };
        let unclip_ratio: u32 = match options.unclip_ratio {
            Some(v) => v,
            None => DEFAULT_UNCLIP_RATIO,
        };
        let min_width: i64 = match options.min_width {
            Some(v) => v,
            None => DEFAULT_MIN_WIDTH,
        };
        let min_height: i64 = match options.min_height {
            Some(v) => v,
            None => DEFAULT_MIN_HEIGHT,
        };
        let height: u32 = match options.model_height {
            Some(v) => v,
            None => DEFAULT_MODEL_SIDE,
        };
        let width: u32 = match options.model_width {
            Some(v) => v,
            None => DEFAULT_MODEL_SIDE,
        };
        let batch: usize = match options.batch {
            Some(v) => v,
            None => 1,
        };
        let resample_target: usize = match options.resample_target {
            Some(v) => v,
            None => DEFAULT_RESAMPLE_TARGET,
        };
        let interpolation: Interpolation = match options.interpolation {
            Some(v) => v,
            None => Interpolation::Bilinear,
        };
        if binary_thresh > PPM {
            return Err(ConfigError::ThresholdOutOfRange);
        }
        if height < 1 || height > MAX_DIMENSION || width < 1 || width > MAX_DIMENSION {
            return Err(ConfigError::BadModelSize);
        }
        if min_width < 0 || min_width > MAX_COORD || min_height < 0 || min_height > MAX_COORD {
            return Err(ConfigError::BadMinimumSize);
        }
        if resample_target < 3 || resample_target > MAX_RESAMPLE_TARGET {
            return Err(ConfigError::BadResampleTarget);
        }
        proof {
            assert(confs@[0] == options.class_confs@[0]);
        }
        Ok(
            DB {
                height,
                width,
                batch,
                confs,
                unclip_ratio,
                binary_thresh,
                min_width,
                min_height,
                resample_target,
                interpolation,
            },
        )
    }

    /// The height of the model input, in pixels.
    pub fn height(&self) -> (v: u32)
        ensures
            v == self@.height,
    {
        self.height
    }

    /// The width of the model input, in pixels.
    pub fn width(&self) -> (v: u32)
        ensures
            v == self@.width,
    {
        self.width
    }

    /// The number of images in a batch.
    pub fn batch(&self) -> (v: usize)
        ensures
            v == self@.batch,
    {
        self.batch
    }

    /// The confidence thresholds.
    pub fn confs(&self) -> (v: &DynConf)
        ensures
            v@ == self@.confs,
    {
        &self.confs
    }

    /// The scale of the dilation, in millionths.
    pub fn unclip_ratio(&self) -> (v: u32)
        ensures
            v == self@.unclip_ppm,
    {
        self.unclip_ratio
    }

    /// The foreground cutoff, in millionths.
    pub fn binary_thresh(&self) -> (v: u32)
        ensures
            v == self@.binary_thresh,
    {
        self.binary_thresh
    }

    /// The least width of an accepted box, in sub-pixel steps.
    pub fn min_width(&self) -> (v: i64)
        ensures
            v == self@.min_width,
    {
        self.min_width
    }

    /// The least height of an accepted box, in sub-pixel steps.
    pub fn min_height(&self) -> (v: i64)
        ensures
            v == self@.min_height,
    {
        self.min_height
    }

    /// The number of vertices to which outlines are resampled.
    pub fn resample_target(&self) -> (v: usize)
        ensures
            v == self@.resample_target,
    {
        self.resample_target
    }

    /// How masks are resized to the source image.
    pub fn interpolation(&self) -> (v: Interpolation)
        ensures
            v == self@.interpolation,
    {
        self.interpolation
    }

    /// Derives the box, the confidence and the rotated rectangle of a refined
    /// polygon and applies the size and confidence filters.
    pub fn accept(&self, hull: Polygon) -> (d: Option<Detection>)
        ensures
            detection_model(d) == detection_of(self@, hull@, hull.class_id()),
            d.is_some() ==> d.unwrap().polygon@ == hull@ && d.unwrap().polygon.class_id() == hull.class_id()
                && filters_passed(self@, d.unwrap()@),
    {
        proof {
            use_type_invariant(self);
        }
        let b: Bbox = match hull.bbox() {
            Some(b) => b,
            None => {
                return None;
            },
        };
        if b.height() < self.min_height || b.width() < self.min_width {
            return None;
        }
        let box_area: u64 = b.area();
        if box_area == 0 {
            return None;
        }
        let n: usize = hull.count();
        let a2: u128 = hull.area2();
        assert(a2 * 1_000_000 <= 2_417_851_639_229_258_349_412_352 * 1_000_000) by (nonlinear_arith)
            requires
                a2 <= n * 8_796_093_022_208,
                n <= 274_877_906_944,
        ;
        let ratio: u128 = (a2 * 1_000_000) / (2 * (box_area as u128));
        let confidence: u32 = if ratio > PPM as u128 { PPM } else { ratio as u32 };
        let threshold: u32 = match self.confs.get(0) {
            Some(t) => t,
            None => {
                return None;
            },
        };
        if confidence < threshold {
            return None;
        }
        let bbox: Bbox = b.with_confidence(confidence).with_id(0);
        let mbr: Option<Mbr> = match hull.mbr() {
            Some(m) => Some(m.with_confidence(confidence).with_id(0)),
            None => None,
        };
        Some(Detection { polygon: hull, bbox, mbr })
    }

    /// Refines one contour: builds its polygon, dilates it, resamples it,
    /// takes its convex hull, checks it, and derives and filters its box.
    pub fn refine(&self, contour: &Contour, scale: &ScaleInfo) -> (d: Option<Detection>)
        ensures
            detection_model(d) == refined(self@, scale@, contour@),
            d.is_some() ==> detection_sound(self@, d.unwrap()@),
            d.is_some() ==> d.unwrap().polygon.class_id() == Some(0usize),
    {
        proof {
            use_type_invariant(self);
        }
        if contour.is_degenerate_hole() {
            return None;
        }
        let outline: Polygon = match outline_of(&contour.points) {
            Some(p) => p.with_id(0),
            None => {
                return None;
            },
        };
        let delta: u64 = match outline.unclip_distance(scale, self.unclip_ratio) {
            Some(d) => d,
            None => {
                return None;
            },
        };
        let grown: Polygon = outline.unclip(delta, scale.width(), scale.height());
        let sampled: Polygon = match grown.resample(self.resample_target) {
            Some(p) => p,
            None => {
                return None;
            },
        };
        let hull: Polygon = match sampled.convex_hull().verify() {
            Some(p) => p,
            None => {
                return None;
            },
        };
        let ghost outline = hull@;
        proof {
            lemma_convex_has_frames(outline);
        }
        let d = self.accept(hull);
        proof {
            if d.is_some() {
                lemma_area_within_box(outline, d.unwrap().bbox@);
            }
        }
        d
    }

    /// Refines every contour of one image and collects what is accepted, in
    /// the order of the contours.
    pub fn decode_contours(&self, contours: &Vec<Contour>, scale: &ScaleInfo) -> (y: Y)
        ensures
            y@ == decoded_record(self@, scale@, contour_models(contours@), contours@.len()),
            record_sound(self@, y@),
    {
        let n: usize = contours.len();
        let ghost models = contour_models(contours@);
        let mut bboxes: Vec<Bbox> = Vec::new();
        let mut polygons: Vec<Polygon> = Vec::new();
        let mut mbrs: Vec<Mbr> = Vec::new();
        let ghost mut acc: YModel = empty_record();
        proof {
            assert(box_models(bboxes@) =~= acc.bboxes);
            assert(polygon_models(polygons@) =~= acc.polygons);
            assert(polygon_ids(polygons@) =~= acc.polygon_ids);
            assert(mbr_models(mbrs@) =~= acc.mbrs);
        }
        let mut i: usize = 0;
        while i < n
            invariant
                i <= n,
                n == contours@.len(),
                models == contour_models(contours@),
                acc == decoded_record(self@, scale@, models, i as nat),
                box_models(bboxes@) == acc.bboxes,
                polygon_models(polygons@) == acc.polygons,
                polygon_ids(polygons@) == acc.polygon_ids,
                mbr_models(mbrs@) == acc.mbrs,
                acc.keypoints == empty_record().keypoints,
                acc.masks == empty_record().masks,
                record_sound(self@, acc),
            decreases n - i,
        {
            assert(models[i as int] == contours@[i as int]@);
            match self.refine(&contours[i], scale) {
                Some(d) => {
                    let ghost dm = d@;
                    let Detection { polygon, bbox, mbr } = d;
                    bboxes.push(bbox);
                    polygons.push(polygon);
                    match mbr {
                        Some(m) => {
                            mbrs.push(m);
                        },
                        None => {},
                    }
                    proof {
                        let next = extended(acc, dm);
                        assert(box_models(bboxes@) =~= next.bboxes);
                        assert(polygon_models(polygons@) =~= next.polygons);
                        assert(polygon_ids(polygons@) =~= next.polygon_ids);
                        assert(mbr_models(mbrs@) =~= next.mbrs);
                        lemma_extended_sound(self@, acc, dm);
                        acc = next;
                    }
                },
                None => {},
            }
            i += 1;
        }
        Y::new().with_bboxes(bboxes).with_polygons(polygons).with_mbrs(mbrs)
    }

    /// Decodes the probability map of one image: the map is thresholded, the
    /// part of the mask that the scaled source occupies is cut out and resized
    /// to the source image, and its contours are refined. A map without a
    /// pixel above the foreground cutoff gives the empty record.
    pub fn decode_image(&self, probs: &[u32], scale: &ScaleInfo) -> (y: Y)
        ensures
            y@ == image_record(self@, scale@, probs@),
            record_sound(self@, y@),
            blank(probs@, self@.binary_thresh) ==> y@ == empty_record(),
    {
        proof {
            use_type_invariant(self);
        }
        let mask: Vec<u8> = binarize(probs, self.binary_thresh);
        let (sw, sh) = (scale.width(), scale.height());
        let window = match scale.occupied(self.height, self.width) {
            Some(w) => w,
            None => {
                assert(false);
                return Y::new();
            },
        };
        let part: Vec<u8> = match crop_mask(&mask, self.width, self.height, window) {
            Some(p) => p,
            None => {
                assert(self.width * self.height == self.height * self.width) by (nonlinear_arith);
                return Y::new();
            },
        };
        match resize_mask(&part, window.width, window.height, sw, sh, self.interpolation) {
            Some(full) => {
                let ghost pixels = full@;
                let contours: Vec<Contour> = extract_contours(full, sw, sh, CONTOUR_CUTOFF);
                proof {
                    assert(sw * sh == pixels.len()) by (nonlinear_arith)
                        requires
                            pixels.len() == (sw as int * sh as int) as nat,
                            sw >= 0,
                            sh >= 0,
                    ;
                    if blank(probs@, self@.binary_thresh) {
                        assert forall|k: int| 0 <= k < mask@.len() implies mask@[k] == 0 by {}
                        lemma_cropped_of_blank(mask@, self.width, self.height, window);
                        lemma_resized_of_blank(
                            part@,
                            window.width as int,
                            window.height as int,
                            sw as int,
                            sh as int,
                            self.interpolation,
                        );
                        lemma_background_has_no_borders(contour_models(contours@), sw, sh, pixels, CONTOUR_CUTOFF);
                    }
                }
                self.decode_contours(&contours, scale)
            },
            None => {
                assert(false);
                Y::new()
            },
        }
    }

    /// Decodes a batch: one record per image, in the order of the images.
    /// Fails as a whole when the maps do not have the size of the model
    /// input or when the number of scale descriptors is not the number of
    /// images.
    pub fn postprocess(&self, xs: &Xs, scales: &Vec<ScaleInfo>) -> (r: Result<Vec<Y>, DecodeError>)
        ensures
            xs@.height != self@.height || xs@.width != self@.width ==> r == Err::<Vec<Y>, DecodeError>(
                DecodeError::ShapeMismatch,
            ),
            xs@.height == self@.height && xs@.width == self@.width && scales@.len() != xs@.batch ==> r == Err::<
                Vec<Y>,
                DecodeError,
            >(DecodeError::BatchMismatch),
            xs@.height == self@.height && xs@.width == self@.width && scales@.len() == xs@.batch ==> r.is_ok()
                && r.unwrap()@.len() == xs@.batch && forall|i: int|
                0 <= i < xs@.batch ==> (#[trigger] r.unwrap()@[i])@ == image_record(
                    self@,
                    scales@[i]@,
                    image_probs(xs@, i),
                ) && record_sound(self@, r.unwrap()@[i]@) && (blank(image_probs(xs@, i), self@.binary_thresh)
                    ==> r.unwrap()@[i]@ == empty_record()),
    {
        if xs.height() != self.height || xs.width() != self.width {
            return Err(DecodeError::ShapeMismatch);
        }
        let n: usize = xs.batch();
        if scales.len() != n {
            return Err(DecodeError::BatchMismatch);
        }
        let mut ys: Vec<Y> = Vec::new();
        let mut i: usize = 0;
        while i < n
            invariant
                i <= n,
                n == xs@.batch,
                n == scales@.len(),
                ys@.len() == i,
                forall|j: int|
                    0 <= j < i ==> (#[trigger] ys@[j])@ == image_record(self@, scales@[j]@, image_probs(xs@, j))
                        && record_sound(self@, ys@[j]@) && (blank(image_probs(xs@, j), self@.binary_thresh)
                        ==> ys@[j]@ == empty_record()),
            decreases n - i,
        {
            let y: Y = match xs.image(i) {
                Some(probs) => self.decode_image(probs, &scales[i]),
                None => Y::new(),
            };
            ys.push(y);
            i += 1;
        }
        Ok(ys)
    }
}

} // verus!
