//! The results decoded for one image.
use vstd::prelude::*;
use crate::bbox::{Bbox, BoxModel};
use crate::fixed::MAX_DIMENSION;
use crate::mbr::{Mbr, MbrModel};
use crate::point::Point;
use crate::polygon::Polygon;

verus! {

/// A point of interest: a position in sub-pixel steps, a confidence in
/// millionths and the index of the point within its set.
#[derive(Clone, Copy, Debug, PartialEq, Eq, Structural)]
pub struct Keypoint {
    pub x: i64,
    pub y: i64,
    pub confidence: u32,
    pub id: usize,
}

/// What a `Mask` stands for: the intensities of `height` rows of `width`
/// pixels, row by row, and the class of the masked instance.
pub struct MaskModel {
    pub width: nat,
    pub height: nat,
    pub pixels: Seq<u8>,
    pub id: nat,
}

/// Both sides are at most `MAX_DIMENSION` and the mask holds one intensity
/// for each pixel.
pub open spec fn mask_valid(m: MaskModel) -> bool {
    m.width <= MAX_DIMENSION && m.height <= MAX_DIMENSION && m.pixels.len() == m.width * m.height
}

/// The mask of one instance.
#[derive(Debug)]
pub struct Mask {
    width: u32,
    height: u32,
    pixels: Vec<u8>,
    id: usize,
}

impl View for Mask {
    type V = MaskModel;

    closed spec fn view(&self) -> MaskModel {
        MaskModel {
            width: self.width as nat,
            height: self.height as nat,
            pixels: self.pixels@,
            id: self.id as nat,
        }
    }
}

impl Mask {
    #[verifier::type_invariant]
    spec fn inv(self) -> bool {
        mask_valid(self@)
    }

    /// Builds a mask; nothing when a side is above `MAX_DIMENSION` or the
    /// pixels are not `width * height` in number.
    pub fn new(pixels: Vec<u8>, width: u32, height: u32, id: usize) -> (m: Option<Mask>)
        ensures
            m.is_some() <==> mask_valid(
                (MaskModel { width: width as nat, height: height as nat, pixels: pixels@, id: id as nat }),
            ),
            m.is_some() ==> m.unwrap()@ == (MaskModel {
                width: width as nat,
                height: height as nat,
                pixels: pixels@,
                id: id as nat,
            }),
    {
        if width > MAX_DIMENSION || height > MAX_DIMENSION {
            return None;
        }
        assert(width * height <= 32_768 * 32_768) by (nonlinear_arith)
            requires
                width <= 32_768,
                height <= 32_768,
        ;
        if pixels.len() as u64 != (width as u64) * (height as u64) {
            return None;
        }
        Some(Mask { width, height, pixels, id })
    }

    /// The width, in pixels.
    pub fn width(&self) -> (w: u32)
        ensures
            w == self@.width,
    {
        self.width
    }

    /// The height, in pixels.
    pub fn height(&self) -> (h: u32)
        ensures
            h == self@.height,
    {
        self.height
    }

    /// The class of the masked instance.
    pub fn id(&self) -> (id: usize)
        ensures
            id == self@.id,
    {
        self.id
    }

    /// The intensities, row by row.
    pub fn pixels(&self) -> (p: &Vec<u8>)
        ensures
            p@ == self@.pixels,
            p@.len() == self@.width * self@.height,
    {
        proof {
            use_type_invariant(self);
        }
        &self.pixels
    }
}

/// What a `Y` stands for: the boxes, the outlines of the polygons and, at the
/// same places, their classes, the rotated rectangles, the sets of keypoints and the masks, each kind in the
/// order in which it was found.
pub struct YModel {
    pub bboxes: Seq<BoxModel>,
    pub polygons: Seq<Seq<Point>>,
    pub polygon_ids: Seq<Option<usize>>,
    pub mbrs: Seq<MbrModel>,
    pub keypoints: Seq<Seq<Keypoint>>,
    pub masks: Seq<MaskModel>,
}

/// The models of a sequence of boxes.
pub open spec fn box_models(s: Seq<Bbox>) -> Seq<BoxModel> {
    Seq::new(s.len(), |i: int| s[i]@)
}

/// The outlines of a sequence of polygons.
pub open spec fn polygon_models(s: Seq<Polygon>) -> Seq<Seq<Point>> {
    Seq::new(s.len(), |i: int| s[i]@)
}

/// The classes of a sequence of polygons.
pub open spec fn polygon_ids(s: Seq<Polygon>) -> Seq<Option<usize>> {
    Seq::new(s.len(), |i: int| s[i].class_id())
}

/// The models of a sequence of rotated rectangles.
pub open spec fn mbr_models(s: Seq<Mbr>) -> Seq<MbrModel> {
    Seq::new(s.len(), |i: int| s[i]@)
}

/// The sets of keypoints as sequences.
pub open spec fn keypoint_sets(s: Seq<Vec<Keypoint>>) -> Seq<Seq<Keypoint>> {
    Seq::new(s.len(), |i: int| s[i]@)
}

/// The models of a sequence of masks.
pub open spec fn mask_models(s: Seq<Mask>) -> Seq<MaskModel> {
    Seq::new(s.len(), |i: int| s[i]@)
}

/// The record that holds nothing.
pub open spec fn empty_record() -> YModel {
    YModel {
        bboxes: Seq::empty(),
        polygons: Seq::empty(),
        polygon_ids: Seq::empty(),
        mbrs: Seq::empty(),
        keypoints: Seq::empty(),
        masks: Seq::empty(),
    }
}

/// The record `a` followed, kind by kind, by the record `b`.
pub open spec fn merged(a: YModel, b: YModel) -> YModel {
    YModel {
        bboxes: a.bboxes + b.bboxes,
        polygons: a.polygons + b.polygons,
        polygon_ids: a.polygon_ids + b.polygon_ids,
        mbrs: a.mbrs + b.mbrs,
        keypoints: a.keypoints + b.keypoints,
        masks: a.masks + b.masks,
    }
}

/// The results for one image: boxes, polygons, rotated rectangles, sets of
/// keypoints and masks.
#[derive(Debug)]
pub struct Y {
    bboxes: Vec<Bbox>,
    polygons: Vec<Polygon>,
    mbrs: Vec<Mbr>,
    keypoints: Vec<Vec<Keypoint>>,
    masks: Vec<Mask>,
}

impl View for Y {
    type V = YModel;

    closed spec fn view(&self) -> YModel {
        YModel {
            bboxes: box_models(self.bboxes@),
            polygons: polygon_models(self.polygons@),
            polygon_ids: polygon_ids(self.polygons@),
            mbrs: mbr_models(self.mbrs@),
            keypoints: keypoint_sets(self.keypoints@),
            masks: mask_models(self.masks@),
        }
    }
}

impl Default for Y {
    fn default() -> (y: Y)
        ensures
            y@ == empty_record(),
    {
        Y::new()
    }
}

impl Y {
    /// The record that holds nothing.
    pub fn new() -> (y: Y)
        ensures
            y@ == empty_record(),
    {
        let y = Y {
            bboxes: Vec::new(),
            polygons: Vec::new(),
            mbrs: Vec::new(),
            keypoints: Vec::new(),
            masks: Vec::new(),
        };
        assert(y@.bboxes =~= Seq::empty() && y@.polygons =~= Seq::empty() && y@.mbrs =~= Seq::empty()
            && y@.keypoints =~= Seq::empty() && y@.masks =~= Seq::empty() && y@.polygon_ids
            =~= Seq::empty());
        y
    }

    /// The same record with `bboxes` as its boxes.
    pub fn with_bboxes(self, bboxes: Vec<Bbox>) -> (y: Y)
        ensures
            y@ == (YModel { bboxes: box_models(bboxes@), ..self@ }),
    {
        Y { bboxes, ..self }
    }

    /// The same record with `polygons` as its polygons.
    pub fn with_polygons(self, polygons: Vec<Polygon>) -> (y: Y)
        ensures
            y@ == (YModel {
                polygons: polygon_models(polygons@),
                polygon_ids: polygon_ids(polygons@),
                ..self@
            }),
    {
        Y { polygons, ..self }
    }

    /// The same record with `mbrs` as its rotated rectangles.
    pub fn with_mbrs(self, mbrs: Vec<Mbr>) -> (y: Y)
        ensures
            y@ == (YModel { mbrs: mbr_models(mbrs@), ..self@ }),
    {
        Y { mbrs, ..self }
    }

    /// The same record with `keypoints` as its sets of keypoints.
    pub fn with_keypoints(self, keypoints: Vec<Vec<Keypoint>>) -> (y: Y)
        ensures
            y@ == (YModel { keypoints: keypoint_sets(keypoints@), ..self@ }),
    {
        Y { keypoints, ..self }
    }

    /// The same record with `masks` as its masks.
    pub fn with_masks(self, masks: Vec<Mask>) -> (y: Y)
        ensures
            y@ == (YModel { masks: mask_models(masks@), ..self@ }),
    {
        Y { masks, ..self }
    }

    /// The sets of keypoints, in the order in which they were found.
    pub fn keypoints(&self) -> (k: &Vec<Vec<Keypoint>>)
        ensures
            keypoint_sets(k@) == self@.keypoints,
    {
        &self.keypoints
    }

    /// The masks, in the order in which they were found.
    pub fn masks(&self) -> (m: &Vec<Mask>)
        ensures
            mask_models(m@) == self@.masks,
    {
        &self.masks
    }

    /// The boxes, in the order in which they were found.
    pub fn bboxes(&self) -> (b: &Vec<Bbox>)
        ensures
            box_models(b@) == self@.bboxes,
            b@.len() == self@.bboxes.len(),
            forall|i: int| 0 <= i < b@.len() ==> (#[trigger] b@[i])@ == self@.bboxes[i],
    {
        &self.bboxes
    }

    /// The polygons, in the order in which they were found.
    pub fn polygons(&self) -> (p: &Vec<Polygon>)
        ensures
            polygon_models(p@) == self@.polygons,
            polygon_ids(p@) == self@.polygon_ids,
            p@.len() == self@.polygons.len(),
            p@.len() == self@.polygon_ids.len(),
            forall|i: int|
                0 <= i < p@.len() ==> (#[trigger] p@[i])@ == self@.polygons[i] && p@[i].class_id()
                    == self@.polygon_ids[i],
    {
        &self.polygons
    }

    /// The rotated rectangles, in the order in which they were found.
    pub fn mbrs(&self) -> (m: &Vec<Mbr>)
        ensures
            mbr_models(m@) == self@.mbrs,
            m@.len() == self@.mbrs.len(),
            forall|i: int| 0 <= i < m@.len() ==> (#[trigger] m@[i])@ == self@.mbrs[i],
    {
        &self.mbrs
    }

    /// Whether the record holds nothing.
    pub fn is_empty(&self) -> (empty: bool)
        ensures
            empty == (self@ == empty_record()),
    {
        let empty = self.bboxes.len() == 0 && self.polygons.len() == 0 && self.mbrs.len() == 0
            && self.keypoints.len() == 0 && self.masks.len() == 0;
        proof {
            if empty {
                assert(self@.bboxes =~= Seq::empty() && self@.polygons =~= Seq::empty() && self@.mbrs
                    =~= Seq::empty() && self@.keypoints =~= Seq::empty() && self@.masks =~= Seq::empty()
                    && self@.polygon_ids =~= Seq::empty());
            } else {
                assert(self@.bboxes.len() + self@.polygons.len() + self@.mbrs.len() + self@.keypoints.len()
                    + self@.masks.len() > 0);
            }
        }
        empty
    }

    /// The record `self` followed, kind by kind, by `other`.
    pub fn merge(self, other: Y) -> (y: Y)
        ensures
            y@ == merged(self@, other@),
    {
        let Y { bboxes: mut boxes, polygons: mut polygons, mbrs: mut mbrs, keypoints: mut keypoints, masks: mut masks } =
            self;
        let Y {
            bboxes: mut more_boxes,
            polygons: mut more_polygons,
            mbrs: mut more_mbrs,
            keypoints: mut more_keypoints,
            masks: mut more_masks,
        } = other;
        let ghost before = (boxes@, polygons@, mbrs@, keypoints@, masks@);
        let ghost added = (more_boxes@, more_polygons@, more_mbrs@, more_keypoints@, more_masks@);
        boxes.append(&mut more_boxes);
        polygons.append(&mut more_polygons);
        mbrs.append(&mut more_mbrs);
        keypoints.append(&mut more_keypoints);
        masks.append(&mut more_masks);
        let y = Y { bboxes: boxes, polygons, mbrs, keypoints, masks };
        proof {
            assert(y@.bboxes =~= box_models(before.0) + box_models(added.0));
            assert(y@.polygons =~= polygon_models(before.1) + polygon_models(added.1));
            assert(y@.polygon_ids =~= polygon_ids(before.1) + polygon_ids(added.1));
            assert(y@.mbrs =~= mbr_models(before.2) + mbr_models(added.2));
            assert(y@.keypoints =~= keypoint_sets(before.3) + keypoint_sets(added.3));
            assert(y@.masks =~= mask_models(before.4) + mask_models(added.4));
        }
        y
    }
}

} // verus!
