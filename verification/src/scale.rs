//! The record of how a source image was resized for the model, and the
//! mapping of model-input coordinates back to the source image.
use vstd::prelude::*;
use crate::fixed::{rounded_ratio, scale_div, scale_toward_zero, MAX_COORD, MAX_DIMENSION};

verus! {

/// Largest scale ratio, in millionths, that a descriptor may hold.
pub const MAX_RATIO_PPM: u64 = 32_768_000_000;

/// What a `ScaleInfo` stands for: the source size in pixels, the ratio, in
/// millionths, by which the source was scaled to the model input, and the
/// offset, in sub-pixel steps, at which the scaled source was placed in it.
pub struct ScaleModel {
    pub height: nat,
    pub width: nat,
    pub ratio_ppm: nat,
    pub pad_x: int,
    pub pad_y: int,
}

/// Both sides are between 1 and `MAX_DIMENSION` pixels, the ratio is
/// positive and at most `MAX_RATIO_PPM`, and the offsets lie between 0 and
/// `MAX_COORD`.
pub open spec fn scale_valid(s: ScaleModel) -> bool {
    &&& 1 <= s.height <= MAX_DIMENSION
    &&& 1 <= s.width <= MAX_DIMENSION
    &&& 1 <= s.ratio_ppm <= MAX_RATIO_PPM
    &&& 0 <= s.pad_x <= MAX_COORD
    &&& 0 <= s.pad_y <= MAX_COORD
}

/// The largest ratio, in millionths and rounded down, by which a source of
/// `height` by `width` pixels can be scaled to fit a model input of
/// `model_height` by `model_width` pixels.
pub open spec fn fitted_ratio(model_height: nat, model_width: nat, height: nat, width: nat) -> nat {
    let by_width = (model_width * 1_000_000) / width;
    let by_height = (model_height * 1_000_000) / height;
    if by_width <= by_height { by_width } else { by_height }
}

/// A rectangle of pixels of the model input.
#[derive(Clone, Copy, Debug, PartialEq, Eq, Structural)]
pub struct Window {
    pub x: u32,
    pub y: u32,
    pub width: u32,
    pub height: u32,
}

/// The pixel at which the scaled source begins along one side of the model
/// input: the whole pixels of the offset, and the last pixel when the offset
/// lies beyond the side.
pub open spec fn window_start(pad: int, side: nat) -> nat {
    let px = pad / 64;
    if px >= side { (side - 1) as nat } else { px as nat }
}

/// The number of pixels that the scaled source takes along one side: the
/// source side times the ratio, rounded to the nearest pixel, at least one
/// pixel and at most the `room` that is left.
pub open spec fn window_span(source: nat, ratio_ppm: nat, room: nat) -> nat {
    let scaled = (source * ratio_ppm + 500_000) / 1_000_000;
    if scaled < 1 { 1 } else if scaled > room { room } else { scaled }
}

/// The part of a model input of `model_height` by `model_width` pixels that
/// the scaled source occupies: it begins at the offset and is as large as the
/// source times the ratio, limited to the model input.
pub open spec fn occupied(s: ScaleModel, model_height: nat, model_width: nat) -> Window {
    let x = window_start(s.pad_x, model_width);
    let y = window_start(s.pad_y, model_height);
    Window {
        x: x as u32,
        y: y as u32,
        width: window_span(s.width, s.ratio_ppm, (model_width - x) as nat) as u32,
        height: window_span(s.height, s.ratio_ppm, (model_height - y) as nat) as u32,
    }
}

/// The window has a pixel and lies in an image of `height` by `width`
/// pixels.
pub open spec fn window_fits(w: Window, height: nat, width: nat) -> bool {
    1 <= w.width && w.x + w.width <= width && 1 <= w.height && w.y + w.height <= height
}

/// A model-input coordinate mapped back to the source image: divided by the
/// scale ratio, rounded toward zero.
pub open spec fn inverted(v: int, ratio_ppm: nat) -> int {
    scale_toward_zero(v, 1_000_000, ratio_ppm)
}

/// `v` limited to the range from `lo` to `hi`.
pub open spec fn clamped(v: int, lo: int, hi: int) -> int {
    if v < lo { lo } else if v > hi { hi } else { v }
}

/// The inverted coordinate is the exact quotient rounded toward zero: it lies
/// less than one sub-pixel step from it.
pub proof fn lemma_inverted_is_close(v: int, ratio_ppm: nat)
    requires
        ratio_ppm > 0,
    ensures
        v >= 0 ==> inverted(v, ratio_ppm) * ratio_ppm <= v * 1_000_000 < (inverted(v, ratio_ppm) + 1) * ratio_ppm,
        v < 0 ==> (inverted(v, ratio_ppm) - 1) * ratio_ppm < v * 1_000_000 <= inverted(v, ratio_ppm) * ratio_ppm,
{
    let r = ratio_ppm as int;
    let m: int = if v >= 0 { v * 1_000_000 } else { (-v) * 1_000_000 };
    let q = m / r;
    vstd::arithmetic::div_mod::lemma_fundamental_div_mod(m, r);
    vstd::arithmetic::div_mod::lemma_mod_bound(m, r);
    assert(r * q == q * r) by (nonlinear_arith);
    assert((q + 1) * r == q * r + r) by (nonlinear_arith);
    assert((-q - 1) * r == -(q * r) - r) by (nonlinear_arith);
    assert((-q) * r == -(q * r)) by (nonlinear_arith);
}

/// Inversion keeps the order of coordinates.
pub proof fn lemma_inverted_monotone(a: int, b: int, ratio_ppm: nat)
    requires
        ratio_ppm > 0,
        a <= b,
    ensures
        inverted(a, ratio_ppm) <= inverted(b, ratio_ppm),
{
    let r = ratio_ppm as int;
    if a >= 0 {
        vstd::arithmetic::div_mod::lemma_div_is_ordered(a * 1_000_000, b * 1_000_000, r);
    } else if b < 0 {
        vstd::arithmetic::div_mod::lemma_div_is_ordered((-b) * 1_000_000, (-a) * 1_000_000, r);
    } else {
        vstd::arithmetic::div_mod::lemma_div_pos_is_pos((-a) * 1_000_000, r);
        vstd::arithmetic::div_mod::lemma_div_pos_is_pos(b * 1_000_000, r);
    }
}

fn start_pixel(pad: i64, side: u32) -> (x: u32)
    requires
        0 <= pad <= MAX_COORD,
        1 <= side <= MAX_DIMENSION,
    ensures
        x == window_start(pad as int, side as nat),
        x < side,
{
    let px: i64 = pad / 64;
    if px >= side as i64 {
        side - 1
    } else {
        px as u32
    }
}

fn span_pixels(source: u32, ratio_ppm: u64, room: u32) -> (n: u32)
    requires
        source <= MAX_DIMENSION,
        ratio_ppm <= MAX_RATIO_PPM,
        1 <= room <= MAX_DIMENSION,
    ensures
        n == window_span(source as nat, ratio_ppm as nat, room as nat),
        1 <= n <= room,
{
    assert(source * ratio_ppm <= 32_768 * 32_768_000_000) by (nonlinear_arith)
        requires
            source <= 32_768,
            ratio_ppm <= 32_768_000_000,
    ;
    let scaled: u64 = ((source as u64) * ratio_ppm + 500_000) / 1_000_000;
    if scaled < 1 {
        1
    } else if scaled > room as u64 {
        room
    } else {
        scaled as u32
    }
}

/// The source size of one image, the ratio by which it was scaled and the
/// offset at which it was placed in the model input.
#[derive(Clone, Copy, Debug)]
pub struct ScaleInfo {
    height: u32,
    width: u32,
    ratio_ppm: u64,
    pad_x: i64,
    pad_y: i64,
}

impl View for ScaleInfo {
    type V = ScaleModel;

    closed spec fn view(&self) -> ScaleModel {
        ScaleModel {
            height: self.height as nat,
            width: self.width as nat,
            ratio_ppm: self.ratio_ppm as nat,
            pad_x: self.pad_x as int,
            pad_y: self.pad_y as int,
        }
    }
}

impl ScaleInfo {
    #[verifier::type_invariant]
    spec fn inv(self) -> bool {
        scale_valid(self@)
    }

    /// Records the source size, in pixels, and the scale ratio, in millionths,
    /// with no offset; nothing when a side is zero or too long or the ratio is
    /// zero or too large.
    pub fn new(height: u32, width: u32, ratio_ppm: u64) -> (s: Option<ScaleInfo>)
        ensures
            s.is_some() <==> scale_valid(
                (ScaleModel {
                    height: height as nat,
                    width: width as nat,
                    ratio_ppm: ratio_ppm as nat,
                    pad_x: 0,
                    pad_y: 0,
                }),
            ),
            s.is_some() ==> s.unwrap()@ == (ScaleModel {
                height: height as nat,
                width: width as nat,
                ratio_ppm: ratio_ppm as nat,
                pad_x: 0,
                pad_y: 0,
            }),
    {
        if 1 <= height && height <= MAX_DIMENSION && 1 <= width && width <= MAX_DIMENSION && 1 <= ratio_ppm
            && ratio_ppm <= MAX_RATIO_PPM {
            Some(ScaleInfo { height, width, ratio_ppm, pad_x: 0, pad_y: 0 })
        } else {
            None
        }
    }

    /// Records the source size together with the largest ratio by which the
    /// source fits the model input; nothing when a side of either is zero or
    /// too long, or when the ratio would be below one millionth.
    pub fn fit(model_height: u32, model_width: u32, height: u32, width: u32) -> (s: Option<ScaleInfo>)
        ensures
            s.is_some() <==> 1 <= model_height <= MAX_DIMENSION && 1 <= model_width <= MAX_DIMENSION && 1
                <= height <= MAX_DIMENSION && 1 <= width <= MAX_DIMENSION && fitted_ratio(
                model_height as nat,
                model_width as nat,
                height as nat,
                width as nat,
            ) >= 1,
            s.is_some() ==> s.unwrap()@ == (ScaleModel {
                height: height as nat,
                width: width as nat,
                ratio_ppm: fitted_ratio(model_height as nat, model_width as nat, height as nat, width as nat),
                pad_x: 0,
                pad_y: 0,
            }),
    {
        if model_height < 1 || model_height > MAX_DIMENSION || model_width < 1 || model_width > MAX_DIMENSION
            || height < 1 || height > MAX_DIMENSION || width < 1 || width > MAX_DIMENSION {
            return None;
        }
        let by_width: u64 = (model_width as u64 * 1_000_000) / (width as u64);
        let by_height: u64 = (model_height as u64 * 1_000_000) / (height as u64);
        let ratio: u64 = if by_width <= by_height { by_width } else { by_height };
        proof {
            vstd::arithmetic::div_mod::lemma_div_is_ordered_by_denominator(model_width * 1_000_000, 1, width as int);
            vstd::arithmetic::div_mod::lemma_div_basics(model_width * 1_000_000);
        }
        if ratio < 1 {
            return None;
        }
        Some(ScaleInfo { height, width, ratio_ppm: ratio, pad_x: 0, pad_y: 0 })
    }

    /// The same descriptor with the offset, in sub-pixel steps, at which the
    /// scaled source was placed in the model input; nothing when an offset is
    /// negative or above `MAX_COORD`.
    pub fn with_offset(self, pad_x: i64, pad_y: i64) -> (s: Option<ScaleInfo>)
        ensures
            s.is_some() <==> 0 <= pad_x <= MAX_COORD && 0 <= pad_y <= MAX_COORD,
            s.is_some() ==> s.unwrap()@ == (ScaleModel { pad_x: pad_x as int, pad_y: pad_y as int, ..self@ }),
    {
        proof {
            use_type_invariant(&self);
        }
        if 0 <= pad_x && pad_x <= MAX_COORD && 0 <= pad_y && pad_y <= MAX_COORD {
            Some(ScaleInfo { pad_x, pad_y, ..self })
        } else {
            None
        }
    }

    /// The offset of the scaled source in the model input, in sub-pixel
    /// steps.
    pub fn offset(&self) -> (pad: (i64, i64))
        ensures
            pad.0 == self@.pad_x,
            pad.1 == self@.pad_y,
            0 <= pad.0 <= MAX_COORD,
            0 <= pad.1 <= MAX_COORD,
    {
        proof {
            use_type_invariant(self);
        }
        (self.pad_x, self.pad_y)
    }

    /// The height of the source image, in pixels.
    pub fn height(&self) -> (h: u32)
        ensures
            h == self@.height,
            1 <= h <= MAX_DIMENSION,
    {
        proof {
            use_type_invariant(self);
        }
        self.height
    }

    /// The width of the source image, in pixels.
    pub fn width(&self) -> (w: u32)
        ensures
            w == self@.width,
            1 <= w <= MAX_DIMENSION,
    {
        proof {
            use_type_invariant(self);
        }
        self.width
    }

    /// The scale ratio, in millionths.
    pub fn ratio_ppm(&self) -> (r: u64)
        ensures
            r == self@.ratio_ppm,
            1 <= r <= MAX_RATIO_PPM,
    {
        proof {
            use_type_invariant(self);
        }
        self.ratio_ppm
    }

    /// The part of a model input of the given size that the scaled source
    /// occupies; nothing when a side of the model input is zero or above
    /// `MAX_DIMENSION`.
    pub fn occupied(&self, model_height: u32, model_width: u32) -> (w: Option<Window>)
        ensures
            w.is_some() <==> 1 <= model_height <= MAX_DIMENSION && 1 <= model_width <= MAX_DIMENSION,
            w.is_some() ==> w.unwrap() == occupied(self@, model_height as nat, model_width as nat)
                && window_fits(w.unwrap(), model_height as nat, model_width as nat),
    {
        proof {
            use_type_invariant(self);
        }
        if model_height < 1 || model_height > MAX_DIMENSION || model_width < 1 || model_width > MAX_DIMENSION {
            return None;
        }
        let x: u32 = start_pixel(self.pad_x, model_width);
        let y: u32 = start_pixel(self.pad_y, model_height);
        let width: u32 = span_pixels(self.width, self.ratio_ppm, model_width - x);
        let height: u32 = span_pixels(self.height, self.ratio_ppm, model_height - y);
        Some(Window { x, y, width, height })
    }

    /// The scale ratio rounded to the nearest whole number.
    pub fn rounded_ratio(&self) -> (r: u64)
        ensures
            r == rounded_ratio(self@.ratio_ppm),
            r <= 32_768,
    {
        proof {
            use_type_invariant(self);
        }
        (self.ratio_ppm + 500_000) / 1_000_000
    }

    /// Maps one length or offset-free coordinate of the model input, in
    /// sub-pixel steps, back to the source image. The result is not limited
    /// to the image.
    pub fn invert(&self, v: i64) -> (r: i128)
        ensures
            r == inverted(v as int, self@.ratio_ppm),
    {
        proof {
            use_type_invariant(self);
        }
        scale_div(v, 1_000_000, self.ratio_ppm)
    }

    /// Maps one model-input coordinate back to the source image and limits it
    /// to the range from 0 to `limit`.
    pub fn invert_clamped(&self, v: i64, limit: i64) -> (r: i64)
        requires
            limit >= 0,
        ensures
            r == clamped(inverted(v as int, self@.ratio_ppm), 0, limit as int),
    {
        let raw: i128 = self.invert(v);
        if raw < 0 {
            0
        } else if raw > limit as i128 {
            limit
        } else {
            raw as i64
        }
    }
}

} // verus!
