//! Binary masks: thresholding of a probability map and resizing of the mask
//! to the size of the source image.
use vstd::prelude::*;
use crate::fixed::MAX_DIMENSION;
use crate::scale::{window_fits, Window};

verus! {

/// The intensity of a foreground pixel of a mask.
pub const FOREGROUND: u8 = 255;

/// How a mask is resized.
#[derive(Clone, Copy, Debug, PartialEq, Eq, Structural)]
pub enum Interpolation {
    /// Each pixel takes the value of the nearest source pixel.
    Nearest,
    /// Each pixel blends the four source pixels around it.
    Bilinear,
}

/// The mask of a probability map: a pixel is foreground when its
/// probability is strictly above the threshold.
pub open spec fn binarized(probs: Seq<u32>, threshold: u32) -> Seq<u8> {
    Seq::new(probs.len(), |i: int| if probs[i] > threshold { 255u8 } else { 0u8 })
}

/// Pixel `k` of the window, counted row by row, in a mask `sw` pixels wide.
pub open spec fn cropped_pixel(src: Seq<u8>, sw: int, win: Window, k: int) -> u8 {
    src[(win.y + k / (win.width as int)) * sw + win.x + k % (win.width as int)]
}

/// The pixels of the mask that lie in the window, row by row.
pub open spec fn cropped(src: Seq<u8>, sw: int, win: Window) -> Seq<u8> {
    Seq::new((win.width * win.height) as nat, |k: int| cropped_pixel(src, sw, win, k))
}

/// Both sides of the mask are between 1 and `MAX_DIMENSION`, the mask holds
/// exactly `sw * sh` pixels, and the window has a pixel and lies in the mask.
pub open spec fn croppable(len: nat, sw: u32, sh: u32, win: Window) -> bool {
    &&& 1 <= sw <= MAX_DIMENSION
    &&& 1 <= sh <= MAX_DIMENSION
    &&& len == sw * sh
    &&& window_fits(win, sh as nat, sw as nat)
}

/// Pixel `k` of a window is a pixel of the mask.
pub proof fn lemma_cropped_index(sw: int, sh: int, win: Window, k: int)
    requires
        window_fits(win, sh as nat, sw as nat),
        1 <= sw,
        1 <= sh,
        0 <= k < win.width * win.height,
    ensures
        0 <= k % (win.width as int) < win.width,
        0 <= k / (win.width as int) < win.height,
        0 <= (win.y + k / (win.width as int)) * sw + win.x + k % (win.width as int) < sw * sh,
{
    let w = win.width as int;
    let x = k % w;
    let y = k / w;
    vstd::arithmetic::div_mod::lemma_fundamental_div_mod(k, w);
    vstd::arithmetic::div_mod::lemma_mod_bound(k, w);
    vstd::arithmetic::div_mod::lemma_div_pos_is_pos(k, w);
    assert(y < win.height) by (nonlinear_arith)
        requires
            k == w * y + x,
            0 <= x,
            k < w * win.height,
            w >= 1,
    ;
    assert(0 <= (win.y + y) * sw + win.x + x < sw * sh) by (nonlinear_arith)
        requires
            0 <= win.y + y < sh,
            0 <= win.x + x < sw,
    ;
}

/// The window of a mask without foreground has no foreground.
pub proof fn lemma_cropped_of_blank(src: Seq<u8>, sw: u32, sh: u32, win: Window)
    requires
        croppable(src.len(), sw, sh, win),
        forall|k: int| 0 <= k < src.len() ==> src[k] == 0,
    ensures
        forall|k: int| 0 <= k < cropped(src, sw as int, win).len() ==> cropped(src, sw as int, win)[k] == 0,
{
    let out = cropped(src, sw as int, win);
    assert forall|k: int| 0 <= k < out.len() implies out[k] == 0 by {
        lemma_cropped_index(sw as int, sh as int, win, k);
    }
}

/// The source pixel nearest to the centre of pixel `d` when `src` pixels are
/// stretched over `dst`.
pub open spec fn nearest_index(d: int, dst: int, src: int) -> int {
    ((2 * d + 1) * src) / (2 * dst)
}

/// The position of the centre of pixel `d` among the centres of the source
/// pixels, in units of `1 / (2 * dst)` of a source pixel, and not before the
/// first centre.
pub open spec fn centre_offset(d: int, dst: int, src: int) -> int {
    let num = (2 * d + 1) * src - dst;
    if num <= 0 { 0 } else { num }
}

/// The source pixel at or before that centre.
pub open spec fn blend_base(d: int, dst: int, src: int) -> int {
    centre_offset(d, dst, src) / (2 * dst)
}

/// How far the centre lies beyond that source pixel, in units of
/// `1 / (2 * dst)`.
pub open spec fn blend_weight(d: int, dst: int, src: int) -> int {
    centre_offset(d, dst, src) % (2 * dst)
}

/// The source pixel after the base, or the base at the last pixel.
pub open spec fn blend_next(d: int, dst: int, src: int) -> int {
    let b = blend_base(d, dst, src);
    if b + 1 < src { b + 1 } else { b }
}

/// The weighted mean of four intensities, rounded down.
pub open spec fn blended(p00: int, p10: int, p01: int, p11: int, fx: int, wx: int, fy: int, wy: int) -> int {
    (p00 * ((wx - fx) * (wy - fy)) + p10 * (fx * (wy - fy)) + p01 * ((wx - fx) * fy) + p11 * (fx * fy)) / (wx
        * wy)
}

/// The intensity of pixel `(x, y)` of the resized mask.
pub open spec fn resized_pixel(
    src: Seq<u8>,
    sw: int,
    sh: int,
    dw: int,
    dh: int,
    mode: Interpolation,
    x: int,
    y: int,
) -> u8 {
    match mode {
        Interpolation::Nearest => src[nearest_index(y, dh, sh) * sw + nearest_index(x, dw, sw)],
        Interpolation::Bilinear => {
            let x0 = blend_base(x, dw, sw);
            let x1 = blend_next(x, dw, sw);
            let y0 = blend_base(y, dh, sh);
            let y1 = blend_next(y, dh, sh);
            blended(
                src[y0 * sw + x0] as int,
                src[y0 * sw + x1] as int,
                src[y1 * sw + x0] as int,
                src[y1 * sw + x1] as int,
                blend_weight(x, dw, sw),
                2 * dw,
                blend_weight(y, dh, sh),
                2 * dh,
            ) as u8
        },
    }
}

/// The mask of `sw` by `sh` pixels resized to `dw` by `dh` pixels, row by
/// row.
pub open spec fn resized(src: Seq<u8>, sw: int, sh: int, dw: int, dh: int, mode: Interpolation) -> Seq<u8> {
    Seq::new((dw * dh) as nat, |k: int| resized_pixel(src, sw, sh, dw, dh, mode, k % dw, k / dw))
}

/// All four sides are between 1 and `MAX_DIMENSION` and the source holds
/// exactly `sw * sh` pixels.
pub open spec fn resizable(len: nat, sw: u32, sh: u32, dw: u32, dh: u32) -> bool {
    &&& 1 <= sw <= MAX_DIMENSION
    &&& 1 <= sh <= MAX_DIMENSION
    &&& 1 <= dw <= MAX_DIMENSION
    &&& 1 <= dh <= MAX_DIMENSION
    &&& len == sw * sh
}

/// The nearest source pixel is a pixel of the source.
pub proof fn lemma_nearest_index_bound(d: int, dst: int, src: int)
    requires
        0 <= d < dst,
        1 <= src,
    ensures
        0 <= nearest_index(d, dst, src) < src,
{
    let num = (2 * d + 1) * src;
    let den = 2 * dst;
    assert(0 <= num < src * den) by (nonlinear_arith)
        requires
            num == (2 * d + 1) * src,
            den == 2 * dst,
            0 <= d < dst,
            1 <= src,
    ;
    vstd::arithmetic::div_mod::lemma_div_by_multiple_is_strongly_ordered(num, src * den, src, den);
    vstd::arithmetic::div_mod::lemma_div_multiples_vanish(src, den);
    vstd::arithmetic::div_mod::lemma_div_pos_is_pos(num, den);
}

/// The two source pixels that are blended are pixels of the source, and the
/// weight is a proper fraction.
pub proof fn lemma_blend_bounds(d: int, dst: int, src: int)
    requires
        0 <= d < dst,
        1 <= src,
    ensures
        0 <= blend_base(d, dst, src) < src,
        0 <= blend_next(d, dst, src) < src,
        0 <= blend_weight(d, dst, src) < 2 * dst,
{
    let num = centre_offset(d, dst, src);
    let den = 2 * dst;
    assert(0 <= num < src * den) by (nonlinear_arith)
        requires
            num == if (2 * d + 1) * src - dst <= 0 { 0 } else { (2 * d + 1) * src - dst },
            den == 2 * dst,
            0 <= d < dst,
            1 <= src,
    ;
    vstd::arithmetic::div_mod::lemma_div_by_multiple_is_strongly_ordered(num, src * den, src, den);
    vstd::arithmetic::div_mod::lemma_div_multiples_vanish(src, den);
    vstd::arithmetic::div_mod::lemma_div_pos_is_pos(num, den);
    vstd::arithmetic::div_mod::lemma_mod_bound(num, den);
}

/// A mask without foreground stays without foreground when it is resized.
pub proof fn lemma_resized_of_blank(src: Seq<u8>, sw: int, sh: int, dw: int, dh: int, mode: Interpolation)
    requires
        1 <= sw,
        1 <= sh,
        1 <= dw,
        1 <= dh,
        src.len() == sw * sh,
        forall|k: int| 0 <= k < src.len() ==> src[k] == 0,
    ensures
        forall|k: int|
            0 <= k < resized(src, sw, sh, dw, dh, mode).len() ==> resized(src, sw, sh, dw, dh, mode)[k] == 0,
{
    let out = resized(src, sw, sh, dw, dh, mode);
    assert forall|k: int| 0 <= k < out.len() implies out[k] == 0 by {
        let x = k % dw;
        let y = k / dw;
        vstd::arithmetic::div_mod::lemma_fundamental_div_mod(k, dw);
        vstd::arithmetic::div_mod::lemma_mod_bound(k, dw);
        vstd::arithmetic::div_mod::lemma_div_pos_is_pos(k, dw);
        assert(y < dh) by (nonlinear_arith)
            requires
                k == dw * y + x,
                0 <= x,
                k < dw * dh,
                dw >= 1,
        ;
        lemma_nearest_index_bound(x, dw, sw);
        lemma_nearest_index_bound(y, dh, sh);
        lemma_blend_bounds(x, dw, sw);
        lemma_blend_bounds(y, dh, sh);
        let ny = nearest_index(y, dh, sh);
        let nx = nearest_index(x, dw, sw);
        let (x0, x1) = (blend_base(x, dw, sw), blend_next(x, dw, sw));
        let (y0, y1) = (blend_base(y, dh, sh), blend_next(y, dh, sh));
        assert(0 <= ny * sw + nx < sw * sh && 0 <= y0 * sw + x0 < sw * sh && 0 <= y0 * sw + x1 < sw * sh && 0
            <= y1 * sw + x0 < sw * sh && 0 <= y1 * sw + x1 < sw * sh) by (nonlinear_arith)
            requires
                0 <= ny < sh,
                0 <= nx < sw,
                0 <= x0 < sw,
                0 <= x1 < sw,
                0 <= y0 < sh,
                0 <= y1 < sh,
        ;
        let (fx, fy) = (blend_weight(x, dw, sw), blend_weight(y, dh, sh));
        assert(blended(0, 0, 0, 0, fx, 2 * dw, fy, 2 * dh) == 0) by {
            assert(0 * ((2 * dw - fx) * (2 * dh - fy)) + 0 * (fx * (2 * dh - fy)) + 0 * ((2 * dw - fx) * fy) + 0 * (
            fx * fy) == 0) by (nonlinear_arith);
            assert(2 * dw * (2 * dh) > 0) by (nonlinear_arith)
                requires
                    dw >= 1,
                    dh >= 1,
            ;
            vstd::arithmetic::div_mod::lemma_div_basics(2 * dw * (2 * dh));
        }
    }
}

/// Thresholds a probability map, given in millionths.
pub fn binarize(probs: &[u32], threshold: u32) -> (mask: Vec<u8>)
    ensures
        mask@ == binarized(probs@, threshold),
{
    let mut mask: Vec<u8> = Vec::new();
    let mut i: usize = 0;
    while i < probs.len()
        invariant
            i <= probs@.len(),
            mask@.len() == i,
            forall|j: int| 0 <= j < i ==> mask@[j] == binarized(probs@, threshold)[j],
        decreases probs@.len() - i,
    {
        mask.push(if probs[i] > threshold { FOREGROUND } else { 0 });
        i += 1;
    }
    assert(mask@ =~= binarized(probs@, threshold));
    mask
}

fn nearest_coord(d: u32, dst: u32, src: u32) -> (i: u32)
    requires
        d < dst <= MAX_DIMENSION,
        1 <= src <= MAX_DIMENSION,
    ensures
        i == nearest_index(d as int, dst as int, src as int),
        i < src,
{
    let a: u64 = 2 * (d as u64) + 1;
    assert(a * src <= 65_536 * 32_768) by (nonlinear_arith)
        requires
            a < 65_536,
            1 <= src <= 32_768,
    ;
    proof {
        lemma_nearest_index_bound(d as int, dst as int, src as int);
    }
    ((a * (src as u64)) / (2 * (dst as u64))) as u32
}

fn blend_coord(d: u32, dst: u32, src: u32) -> (r: (u32, u32, u32))
    requires
        d < dst <= MAX_DIMENSION,
        1 <= src <= MAX_DIMENSION,
    ensures
        r.0 == blend_base(d as int, dst as int, src as int),
        r.1 == blend_next(d as int, dst as int, src as int),
        r.2 == blend_weight(d as int, dst as int, src as int),
        r.0 < src,
        r.1 < src,
        r.2 < 2 * dst,
{
    let a: u64 = 2 * (d as u64) + 1;
    assert(a * src <= 65_536 * 32_768) by (nonlinear_arith)
        requires
            a < 65_536,
            1 <= src <= 32_768,
    ;
    let full: u64 = a * (src as u64);
    let num: u64 = if full <= dst as u64 { 0 } else { full - dst as u64 };
    let den: u64 = 2 * (dst as u64);
    proof {
        lemma_blend_bounds(d as int, dst as int, src as int);
    }
    let base: u32 = (num / den) as u32;
    let next: u32 = if base + 1 < src { base + 1 } else { base };
    (base, next, (num % den) as u32)
}

fn fetch(src: &Vec<u8>, sw: u32, sh: u32, x: u32, y: u32) -> (p: u8)
    requires
        src@.len() == sw * sh,
        x < sw <= MAX_DIMENSION,
        y < sh <= MAX_DIMENSION,
    ensures
        p == src@[y * sw + x],
{
    assert(0 <= y * sw + x < sw * sh && sw * sh <= 32_768 * 32_768) by (nonlinear_arith)
        requires
            x < sw <= 32_768,
            y < sh <= 32_768,
    ;
    src[(y as usize) * (sw as usize) + (x as usize)]
}

fn blend(p00: u8, p10: u8, p01: u8, p11: u8, fx: u32, wx: u32, fy: u32, wy: u32) -> (v: u8)
    requires
        fx < wx <= 65_536,
        fy < wy <= 65_536,
    ensures
        v == blended(p00 as int, p10 as int, p01 as int, p11 as int, fx as int, wx as int, fy as int, wy as int),
{
    let gx: u64 = (wx - fx) as u64;
    let gy: u64 = (wy - fy) as u64;
    let (fx, fy) = (fx as u64, fy as u64);
    assert(gx * gy + fx * gy + gx * fy + fx * fy == wx * wy && gx * gy >= 0 && fx * gy >= 0 && gx * fy >= 0 && fx
        * fy >= 0 && 0 < wx * wy <= 65_536 * 65_536) by (nonlinear_arith)
        requires
            gx == wx - fx,
            gy == wy - fy,
            0 <= fx < wx <= 65_536,
            0 <= fy < wy <= 65_536,
    ;
    let w00: u64 = gx * gy;
    let w10: u64 = fx * gy;
    let w01: u64 = gx * fy;
    let w11: u64 = fx * fy;
    assert(p00 * w00 <= 255 * w00 && p10 * w10 <= 255 * w10 && p01 * w01 <= 255 * w01 && p11 * w11 <= 255 * w11)
        by (nonlinear_arith)
        requires
            p00 <= 255,
            p10 <= 255,
            p01 <= 255,
            p11 <= 255,
            w00 >= 0,
            w10 >= 0,
            w01 >= 0,
            w11 >= 0,
    ;
    let total: u64 = (wx as u64) * (wy as u64);
    let sum: u64 = (p00 as u64) * w00 + (p10 as u64) * w10 + (p01 as u64) * w01 + (p11 as u64) * w11;
    proof {
        assert(255 * total == total * 255) by (nonlinear_arith);
        vstd::arithmetic::div_mod::lemma_div_is_ordered(sum as int, total * 255, total as int);
        vstd::arithmetic::div_mod::lemma_div_multiples_vanish(255, total as int);
    }
    (sum / total) as u8
}

/// Cuts the window out of a mask of `sw` by `sh` pixels; nothing when a side
/// of the mask is zero or above `MAX_DIMENSION`, when the mask does not hold
/// `sw * sh` pixels, or when the window is empty or leaves the mask.
pub fn crop_mask(src: &Vec<u8>, sw: u32, sh: u32, win: Window) -> (out: Option<Vec<u8>>)
    ensures
        out.is_some() <==> croppable(src@.len(), sw, sh, win),
        out.is_some() ==> out.unwrap()@ == cropped(src@, sw as int, win),
        out.is_some() ==> out.unwrap()@.len() == win.width * win.height,
{
    if sw < 1 || sw > MAX_DIMENSION || sh < 1 || sh > MAX_DIMENSION {
        return None;
    }
    assert(sw * sh <= 32_768 * 32_768) by (nonlinear_arith)
        requires
            sw <= 32_768,
            sh <= 32_768,
    ;
    if src.len() as u64 != (sw as u64) * (sh as u64) {
        return None;
    }
    if win.width < 1 || win.height < 1 || win.x > sw || win.width > sw - win.x || win.y > sh || win.height > sh
        - win.y {
        return None;
    }
    let mut out: Vec<u8> = Vec::new();
    let mut y: u32 = 0;
    while y < win.height
        invariant
            y <= win.height,
            croppable(src@.len(), sw, sh, win),
            out@.len() == y * win.width,
            forall|k: int| 0 <= k < out@.len() ==> out@[k] == cropped_pixel(src@, sw as int, win, k),
        decreases win.height - y,
    {
        let mut x: u32 = 0;
        while x < win.width
            invariant
                x <= win.width,
                y < win.height,
                croppable(src@.len(), sw, sh, win),
                out@.len() == y * win.width + x,
                forall|k: int| 0 <= k < out@.len() ==> out@[k] == cropped_pixel(src@, sw as int, win, k),
            decreases win.width - x,
        {
            let v: u8 = fetch(src, sw, sh, win.x + x, win.y + y);
            proof {
                let k = y * win.width + x;
                assert(k == win.width * y + x) by (nonlinear_arith)
                    requires
                        k == y * win.width + x,
                ;
                vstd::arithmetic::div_mod::lemma_fundamental_div_mod_converse(
                    k,
                    win.width as int,
                    y as int,
                    x as int,
                );
            }
            out.push(v);
            x += 1;
        }
        assert((y + 1) * win.width == y * win.width + win.width) by (nonlinear_arith);
        y += 1;
    }
    assert(win.height * win.width == win.width * win.height) by (nonlinear_arith);
    assert(out@ =~= cropped(src@, sw as int, win));
    Some(out)
}

/// Resizes a mask of `sw` by `sh` pixels to `dw` by `dh` pixels; nothing when
/// a side is zero or above `MAX_DIMENSION`, or when the mask does not hold
/// `sw * sh` pixels.
pub fn resize_mask(src: &Vec<u8>, sw: u32, sh: u32, dw: u32, dh: u32, mode: Interpolation) -> (out: Option<
    Vec<u8>,
>)
    ensures
        out.is_some() <==> resizable(src@.len(), sw, sh, dw, dh),
        out.is_some() ==> out.unwrap()@ == resized(src@, sw as int, sh as int, dw as int, dh as int, mode),
{
    if sw < 1 || sw > MAX_DIMENSION || sh < 1 || sh > MAX_DIMENSION || dw < 1 || dw > MAX_DIMENSION || dh < 1
        || dh > MAX_DIMENSION {
        return None;
    }
    assert(sw * sh <= 32_768 * 32_768) by (nonlinear_arith)
        requires
            sw <= 32_768,
            sh <= 32_768,
    ;
    if src.len() as u64 != (sw as u64) * (sh as u64) {
        return None;
    }
    let mut out: Vec<u8> = Vec::new();
    let mut y: u32 = 0;
    while y < dh
        invariant
            y <= dh,
            resizable(src@.len(), sw, sh, dw, dh),
            out@.len() == y * dw,
            forall|k: int|
                0 <= k < out@.len() ==> out@[k] == resized_pixel(
                    src@,
                    sw as int,
                    sh as int,
                    dw as int,
                    dh as int,
                    mode,
                    k % (dw as int),
                    k / (dw as int),
                ),
        decreases dh - y,
    {
        let ny: u32 = nearest_coord(y, dh, sh);
        let (y0, y1, fy) = blend_coord(y, dh, sh);
        let mut x: u32 = 0;
        while x < dw
            invariant
                x <= dw,
                y < dh,
                resizable(src@.len(), sw, sh, dw, dh),
                ny == nearest_index(y as int, dh as int, sh as int),
                y0 == blend_base(y as int, dh as int, sh as int),
                y1 == blend_next(y as int, dh as int, sh as int),
                fy == blend_weight(y as int, dh as int, sh as int),
                ny < sh,
                y0 < sh,
                y1 < sh,
                fy < 2 * dh,
                out@.len() == y * dw + x,
                forall|k: int|
                    0 <= k < out@.len() ==> out@[k] == resized_pixel(
                        src@,
                        sw as int,
                        sh as int,
                        dw as int,
                        dh as int,
                        mode,
                        k % (dw as int),
                        k / (dw as int),
                    ),
            decreases dw - x,
        {
            let v: u8 = match mode {
                Interpolation::Nearest => fetch(src, sw, sh, nearest_coord(x, dw, sw), ny),
                Interpolation::Bilinear => {
                    let (x0, x1, fx) = blend_coord(x, dw, sw);
                    blend(
                        fetch(src, sw, sh, x0, y0),
                        fetch(src, sw, sh, x1, y0),
                        fetch(src, sw, sh, x0, y1),
                        fetch(src, sw, sh, x1, y1),
                        fx,
                        2 * dw,
                        fy,
                        2 * dh,
                    )
                },
            };
            proof {
                let k = y * dw + x;
                assert(k == dw * y + x) by (nonlinear_arith)
                    requires
                        k == y * dw + x,
                ;
                vstd::arithmetic::div_mod::lemma_fundamental_div_mod_converse(k, dw as int, y as int, x as int);
                assert(v == resized_pixel(src@, sw as int, sh as int, dw as int, dh as int, mode, x as int, y as int));
            }
            out.push(v);
            x += 1;
        }
        assert((y + 1) * dw == y * dw + dw) by (nonlinear_arith);
        y += 1;
    }
    assert(dh * dw == dw * dh) by (nonlinear_arith);
    assert(out@ =~= resized(src@, sw as int, sh as int, dw as int, dh as int, mode));
    Some(out)
}

} // verus!
