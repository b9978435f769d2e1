//! The batch of probability maps that a model hands to the decoder.
use vstd::prelude::*;
use crate::fixed::MAX_DIMENSION;

verus! {

/// What an `Xs` stands for: `batch` maps of `height` by `width`
/// probabilities, in millionths, one map after the other, each row by row.
pub struct XsModel {
    pub batch: nat,
    pub height: nat,
    pub width: nat,
    pub data: Seq<u32>,
}

/// Both sides are between 1 and `MAX_DIMENSION` and the data holds exactly
/// `batch * height * width` values.
pub open spec fn shape_valid(x: XsModel) -> bool {
    &&& 1 <= x.height <= MAX_DIMENSION
    &&& 1 <= x.width <= MAX_DIMENSION
    &&& x.data.len() == x.batch * (x.height * x.width)
}

/// The probabilities of image `i` of the batch.
pub open spec fn image_probs(x: XsModel, i: int) -> Seq<u32> {
    x.data.subrange(i * (x.height * x.width), (i + 1) * (x.height * x.width))
}

/// A batch of probability maps.
#[derive(Debug)]
pub struct Xs {
    batch: usize,
    height: u32,
    width: u32,
    data: Vec<u32>,
}

impl View for Xs {
    type V = XsModel;

    closed spec fn view(&self) -> XsModel {
        XsModel { batch: self.batch as nat, height: self.height as nat, width: self.width as nat, data: self.data@ }
    }
}

impl Xs {
    #[verifier::type_invariant]
    spec fn inv(self) -> bool {
        shape_valid(self@)
    }

    /// Builds a batch; nothing when a side is zero or above `MAX_DIMENSION`,
    /// or when the data does not hold `batch * height * width` values.
    pub fn new(batch: usize, height: u32, width: u32, data: Vec<u32>) -> (xs: Option<Xs>)
        ensures
            xs.is_some() <==> shape_valid(
                (XsModel { batch: batch as nat, height: height as nat, width: width as nat, data: data@ }),
            ),
            xs.is_some() ==> xs.unwrap()@ == (XsModel {
                batch: batch as nat,
                height: height as nat,
                width: width as nat,
                data: data@,
            }),
    {
        if height < 1 || height > MAX_DIMENSION || width < 1 || width > MAX_DIMENSION {
            return None;
        }
        assert(height * width <= 32_768 * 32_768) by (nonlinear_arith)
            requires
                height <= 32_768,
                width <= 32_768,
        ;
        let plane: u128 = (height as u128) * (width as u128);
        assert(batch * plane <= 0xFFFF_FFFF_FFFF_FFFF * 1_073_741_824) by (nonlinear_arith)
            requires
                batch <= 0xFFFF_FFFF_FFFF_FFFF,
                0 <= plane <= 1_073_741_824,
        ;
        if (batch as u128) * plane != data.len() as u128 {
            return None;
        }
        Some(Xs { batch, height, width, data })
    }

    /// The number of images.
    pub fn batch(&self) -> (n: usize)
        ensures
            n == self@.batch,
    {
        self.batch
    }

    /// The height of each map.
    pub fn height(&self) -> (h: u32)
        ensures
            h == self@.height,
            1 <= h <= MAX_DIMENSION,
    {
        proof {
            use_type_invariant(self);
        }
        self.height
    }

    /// The width of each map.
    pub fn width(&self) -> (w: u32)
        ensures
            w == self@.width,
            1 <= w <= MAX_DIMENSION,
    {
        proof {
            use_type_invariant(self);
        }
        self.width
    }

    /// The probabilities of image `i`, or nothing when the batch has no such
    /// image.
    pub fn image(&self, i: usize) -> (probs: Option<&[u32]>)
        ensures
            probs.is_some() <==> i < self@.batch,
            probs.is_some() ==> probs.unwrap()@ == image_probs(self@, i as int),
            probs.is_some() ==> probs.unwrap()@.len() == self@.height * self@.width,
    {
        proof {
            use_type_invariant(self);
        }
        if i >= self.batch {
            return None;
        }
        let (h, w, n) = (self.height, self.width, self.batch);
        assert(h * w <= 32_768 * 32_768) by (nonlinear_arith)
            requires
                h <= 32_768,
                w <= 32_768,
        ;
        let plane: usize = (h as usize) * (w as usize);
        let len: usize = self.data.len();
        assert(len == n * plane) by (nonlinear_arith)
            requires
                len == n * (h * w),
                plane == h * w,
        ;
        assert(0 <= i * plane && i * plane + plane <= len) by (nonlinear_arith)
            requires
                0 <= i < n,
                0 <= plane,
                len == n * plane,
        ;
        assert(i * plane + plane == (i + 1) * plane) by (nonlinear_arith);
        let start: usize = i * plane;
        Some(vstd::slice::slice_subrange(self.data.as_slice(), start, start + plane))
    }
}

} // verus!
