//! Borders of the foreground regions of a mask, traced by `imageproc`.
use vstd::prelude::*;
use crate::fixed::MAX_DIMENSION;

verus! {

/// Whether a border encloses a foreground region from outside or surrounds a
/// hole inside one.
#[derive(Clone, Copy, Debug, PartialEq, Eq, Structural)]
pub enum BorderType {
    Outer,
    Hole,
}

/// A closed border of a foreground region: its pixels in tracing order, its
/// kind, and the index of the border that encloses it, if any.
#[derive(Debug)]
pub struct Contour {
    pub points: Vec<(i32, i32)>,
    pub border_type: BorderType,
    pub parent: Option<usize>,
}

/// What a `Contour` stands for.
pub struct ContourModel {
    pub points: Seq<(i32, i32)>,
    pub border_type: BorderType,
    pub parent: Option<usize>,
}

impl View for Contour {
    type V = ContourModel;

    open spec fn view(&self) -> ContourModel {
        ContourModel { points: self.points@, border_type: self.border_type, parent: self.parent }
    }
}

/// The models of a sequence of contours.
pub open spec fn contour_models(contours: Seq<Contour>) -> Seq<ContourModel> {
    Seq::new(contours.len(), |i: int| contours[i]@)
}

/// An 8-bit single-channel image held by the `image` crate.
#[verifier::external_body]
pub struct Raster {
    inner: image::ImageBuffer<image::Luma<u8>, Vec<u8>>,
}

/// The width and the height of a raster, in pixels.
pub uninterp spec fn raster_size(raster: Raster) -> (u32, u32);

/// The intensities of a raster, row by row.
pub uninterp spec fn raster_pixels(raster: Raster) -> Seq<u8>;

/// The borders that `imageproc` traces in an image of the given size and
/// intensities when every pixel strictly above `threshold` is foreground.
pub uninterp spec fn traced_contours(width: u32, height: u32, pixels: Seq<u8>, threshold: u8) -> Seq<
    ContourModel,
>;

/// The pixel `(x, y)` of a `width`-wide image is strictly above `threshold`.
pub open spec fn is_foreground(width: u32, height: u32, pixels: Seq<u8>, threshold: u8, x: int, y: int) -> bool {
    0 <= x < width && 0 <= y < height && pixels[y * width + x] > threshold
}

/// Every border has a point, and every point of a border is a foreground
/// pixel of the image.
pub open spec fn borders_on_foreground(
    borders: Seq<ContourModel>,
    width: u32,
    height: u32,
    pixels: Seq<u8>,
    threshold: u8,
) -> bool {
    forall|i: int|
        0 <= i < borders.len() ==> (#[trigger] borders[i]).points.len() > 0 && forall|j: int|
            0 <= j < borders[i].points.len() ==> is_foreground(
                width,
                height,
                pixels,
                threshold,
                (#[trigger] borders[i].points[j]).0 as int,
                borders[i].points[j].1 as int,
            )
}

/// Wraps `image::ImageBuffer::from_raw` for 8-bit single-channel pixels: the
/// buffer becomes an image of the given size when it holds at least
/// `width * height` bytes, and nothing otherwise. Only the first
/// `width * height` bytes are pixels of the image.
#[verifier::external_body]
pub(crate) fn raster_from_raw(width: u32, height: u32, buf: Vec<u8>) -> (raster: Option<Raster>)
    ensures
        raster.is_some() <==> width * height <= buf@.len(),
        raster.is_some() ==> raster_size(raster.unwrap()) == (width, height) && raster_pixels(
            raster.unwrap(),
        ) == buf@.take(width * height),
{
    match image::ImageBuffer::from_raw(width, height, buf) {
        Some(inner) => Some(Raster { inner }),
        None => None,
    }
}

/// Wraps `imageproc::contours::find_contours_with_threshold`: the result is
/// the crate's tracing of the borders of the pixels strictly above
/// `threshold`, a function of the image alone. As the crate's source shows,
/// each border holds at least one point and each of its points is a
/// foreground pixel inside the image.
#[verifier::external_body]
pub(crate) fn find_borders(raster: &Raster, threshold: u8) -> (borders: Vec<Contour>)
    requires
        raster_size(*raster).0 <= MAX_DIMENSION + 2,
        raster_size(*raster).1 <= MAX_DIMENSION + 2,
    ensures
        contour_models(borders@) == traced_contours(
            raster_size(*raster).0,
            raster_size(*raster).1,
            raster_pixels(*raster),
            threshold,
        ),
        borders_on_foreground(
            contour_models(borders@),
            raster_size(*raster).0,
            raster_size(*raster).1,
            raster_pixels(*raster),
            threshold,
        ),
{
    imageproc::contours::find_contours_with_threshold::<i32>(&raster.inner, threshold)
        .into_iter()
        .map(|c| Contour {
            points: c.points.into_iter().map(|p| (p.x, p.y)).collect(),
            border_type: match c.border_type {
                imageproc::contours::BorderType::Outer => BorderType::Outer,
                imageproc::contours::BorderType::Hole => BorderType::Hole,
            },
            parent: c.parent,
        })
        .collect()
}

/// A hole border of one or two points cannot bound a region and is
/// discarded at once.
pub open spec fn is_degenerate_hole(c: ContourModel) -> bool {
    c.border_type == BorderType::Hole && c.points.len() <= 2
}

impl Contour {
    /// Builds a contour.
    pub fn new(points: Vec<(i32, i32)>, border_type: BorderType, parent: Option<usize>) -> (c: Contour)
        ensures
            c@ == (ContourModel { points: points@, border_type, parent }),
    {
        Contour { points, border_type, parent }
    }

    /// Whether this is a hole border of one or two points.
    pub fn is_degenerate_hole(&self) -> (degenerate: bool)
        ensures
            degenerate == is_degenerate_hole(self@),
    {
        self.border_type == BorderType::Hole && self.points.len() <= 2
    }
}

/// The mask with a frame of background, one pixel wide, around it. The
/// tracing takes whatever lies beyond the left side of an image for
/// foreground; the frame lets a region that touches a side of the mask have
/// its outer border.
pub open spec fn framed(mask: Seq<u8>, width: int, height: int) -> Seq<u8> {
    Seq::new(((width + 2) * (height + 2)) as nat, |k: int| framed_pixel(mask, width, height, k))
}

/// Pixel `k` of the framed mask: background on the frame, and inside it the
/// pixel of the mask one up and one to the left.
pub open spec fn framed_pixel(mask: Seq<u8>, width: int, height: int, k: int) -> u8 {
    let x = k % (width + 2);
    let y = k / (width + 2);
    if 1 <= x <= width && 1 <= y <= height {
        mask[(y - 1) * width + (x - 1)]
    } else {
        0u8
    }
}

/// The contour moved one pixel up and to the left, from the framed mask back
/// to the mask.
pub open spec fn unframed(c: ContourModel) -> ContourModel {
    ContourModel {
        points: Seq::new(c.points.len(), |j: int| ((c.points[j].0 - 1) as i32, (c.points[j].1 - 1) as i32)),
        border_type: c.border_type,
        parent: c.parent,
    }
}

/// The borders of the foreground of a mask of `width` by `height` pixels:
/// those that `imageproc` traces in the framed mask, moved back to the mask.
/// A mask that does not hold `width * height` pixels, or has a side of zero
/// or above `MAX_DIMENSION`, has no borders.
pub open spec fn mask_contours(mask: Seq<u8>, width: u32, height: u32, threshold: u8) -> Seq<ContourModel> {
    if 1 <= width <= MAX_DIMENSION && 1 <= height <= MAX_DIMENSION && width * height == mask.len() {
        let traced = traced_contours(
            (width + 2) as u32,
            (height + 2) as u32,
            framed(mask, width as int, height as int),
            threshold,
        );
        Seq::new(traced.len(), |i: int| unframed(traced[i]))
    } else {
        Seq::empty()
    }
}

/// Puts a frame of background around a mask.
fn frame(mask: &Vec<u8>, width: u32, height: u32) -> (out: Vec<u8>)
    requires
        1 <= width <= MAX_DIMENSION,
        1 <= height <= MAX_DIMENSION,
        mask@.len() == width * height,
    ensures
        out@ == framed(mask@, width as int, height as int),
        out@.len() == (width + 2) * (height + 2),
{
    let fw: u32 = width + 2;
    let fh: u32 = height + 2;
    let mut out: Vec<u8> = Vec::new();
    let mut y: u32 = 0;
    while y < fh
        invariant
            y <= fh,
            fw == width + 2,
            fh == height + 2,
            1 <= width <= MAX_DIMENSION,
            1 <= height <= MAX_DIMENSION,
            mask@.len() == width * height,
            out@.len() == y * fw,
            forall|k: int| 0 <= k < out@.len() ==> out@[k] == framed_pixel(mask@, width as int, height as int, k),
        decreases fh - y,
    {
        let mut x: u32 = 0;
        while x < fw
            invariant
                x <= fw,
                y < fh,
                fw == width + 2,
                fh == height + 2,
                1 <= width <= MAX_DIMENSION,
                1 <= height <= MAX_DIMENSION,
                mask@.len() == width * height,
                out@.len() == y * fw + x,
                forall|k: int| 0 <= k < out@.len() ==> out@[k] == framed_pixel(mask@, width as int, height as int, k),
            decreases fw - x,
        {
            let v: u8 = if 1 <= x && x <= width && 1 <= y && y <= height {
                assert(0 <= (y - 1) * width + (x - 1) < width * height && width * height <= 32_768 * 32_768)
                    by (nonlinear_arith)
                    requires
                        1 <= x <= width,
                        1 <= y <= height,
                        width <= 32_768,
                        height <= 32_768,
                ;
                mask[((y - 1) as usize) * (width as usize) + ((x - 1) as usize)]
            } else {
                0
            };
            proof {
                let k = y * fw + x;
                assert(k == fw * y + x && k < fw * fh) by (nonlinear_arith)
                    requires
                        k == y * fw + x,
                        0 <= x < fw,
                        0 <= y < fh,
                ;
                vstd::arithmetic::div_mod::lemma_fundamental_div_mod_converse(k, fw as int, y as int, x as int);
            }
            out.push(v);
            x += 1;
        }
        assert((y + 1) * fw == y * fw + fw) by (nonlinear_arith);
        y += 1;
    }
    assert(fh * fw == (width + 2) * (height + 2)) by (nonlinear_arith)
        requires
            fw == width + 2,
            fh == height + 2,
    ;
    assert(out@ =~= framed(mask@, width as int, height as int));
    out
}

/// A foreground pixel of the framed mask lies inside the frame, over a
/// foreground pixel of the mask.
proof fn lemma_framed_foreground(mask: Seq<u8>, width: u32, height: u32, threshold: u8, x: int, y: int)
    requires
        1 <= width <= MAX_DIMENSION,
        1 <= height <= MAX_DIMENSION,
        is_foreground(
            (width + 2) as u32,
            (height + 2) as u32,
            framed(mask, width as int, height as int),
            threshold,
            x,
            y,
        ),
    ensures
        is_foreground(width, height, mask, threshold, x - 1, y - 1),
{
    let fw = width + 2;
    let k = y * fw + x;
    assert(k == fw * y + x && 0 <= k < fw * (height + 2)) by (nonlinear_arith)
        requires
            k == y * fw + x,
            0 <= x < fw,
            0 <= y < height + 2,
    ;
    assert(fw * (height + 2) == (width + 2) * (height + 2));
    vstd::arithmetic::div_mod::lemma_fundamental_div_mod_converse(k, fw, y, x);
}

/// Moves the contours traced in a framed mask back to the mask.
fn unframe(traced: Vec<Contour>, Ghost(mask): Ghost<Seq<u8>>, width: u32, height: u32, threshold: u8) -> (out:
    Vec<Contour>)
    requires
        1 <= width <= MAX_DIMENSION,
        1 <= height <= MAX_DIMENSION,
        borders_on_foreground(
            contour_models(traced@),
            (width + 2) as u32,
            (height + 2) as u32,
            framed(mask, width as int, height as int),
            threshold,
        ),
    ensures
        contour_models(out@) == Seq::new(traced@.len(), |i: int| unframed(contour_models(traced@)[i])),
        borders_on_foreground(contour_models(out@), width, height, mask, threshold),
{
    let ghost models = contour_models(traced@);
    let mut out: Vec<Contour> = Vec::new();
    let mut i: usize = 0;
    while i < traced.len()
        invariant
            i <= traced@.len(),
            1 <= width <= MAX_DIMENSION,
            1 <= height <= MAX_DIMENSION,
            models == contour_models(traced@),
            borders_on_foreground(
                models,
                (width + 2) as u32,
                (height + 2) as u32,
                framed(mask, width as int, height as int),
                threshold,
            ),
            out@.len() == i,
            forall|t: int| 0 <= t < i ==> (#[trigger] out@[t])@ == unframed(models[t]),
            borders_on_foreground(contour_models(out@), width, height, mask, threshold),
        decreases traced@.len() - i,
    {
        let c: &Contour = &traced[i];
        let ghost cm = models[i as int];
        assert(cm == c@);
        assert(cm.points.len() > 0);
        let mut points: Vec<(i32, i32)> = Vec::new();
        let mut j: usize = 0;
        while j < c.points.len()
            invariant
                j <= c.points@.len(),
                cm == c@,
                cm == models[i as int],
                0 <= i < models.len(),
                1 <= width <= MAX_DIMENSION,
                1 <= height <= MAX_DIMENSION,
                borders_on_foreground(
                    models,
                    (width + 2) as u32,
                    (height + 2) as u32,
                    framed(mask, width as int, height as int),
                    threshold,
                ),
                points@.len() == j,
                forall|t: int| 0 <= t < j ==> #[trigger] points@[t] == unframed(cm).points[t],
                forall|t: int|
                    0 <= t < j ==> is_foreground(
                        width,
                        height,
                        mask,
                        threshold,
                        (#[trigger] points@[t]).0 as int,
                        points@[t].1 as int,
                    ),
            decreases c.points@.len() - j,
        {
            let q: (i32, i32) = c.points[j];
            proof {
                assert(q == models[i as int].points[j as int]);
                lemma_framed_foreground(mask, width, height, threshold, q.0 as int, q.1 as int);
            }
            points.push((q.0 - 1, q.1 - 1));
            j += 1;
        }
        assert(points@ =~= unframed(cm).points);
        let ghost before = contour_models(out@);
        let moved = Contour { points, border_type: c.border_type, parent: c.parent };
        assert(moved@ == unframed(cm));
        out.push(moved);
        proof {
            let after = contour_models(out@);
            assert(after =~= before.push(unframed(cm)));
            assert forall|t: int| 0 <= t < after.len() implies (#[trigger] after[t]).points.len() > 0 && forall|
                u: int,
            |
                0 <= u < after[t].points.len() ==> is_foreground(
                    width,
                    height,
                    mask,
                    threshold,
                    (#[trigger] after[t].points[u]).0 as int,
                    after[t].points[u].1 as int,
                ) by {
                if t < before.len() {
                    assert(after[t] == before[t]);
                } else {
                    assert(after[t] == unframed(cm));
                }
            }
        }
        i += 1;
    }
    assert(contour_models(out@) =~= Seq::new(traced@.len(), |i: int| unframed(models[i])));
    out
}

/// Traces the borders of the foreground of a mask of `width` by `height`
/// pixels, in which every intensity strictly above `threshold` is
/// foreground. Each border has a point, and all its points are foreground
/// pixels of the mask.
pub fn extract_contours(mask: Vec<u8>, width: u32, height: u32, threshold: u8) -> (contours: Vec<Contour>)
    ensures
        contour_models(contours@) == mask_contours(mask@, width, height, threshold),
        borders_on_foreground(contour_models(contours@), width, height, mask@, threshold),
{
    if width < 1 || width > MAX_DIMENSION || height < 1 || height > MAX_DIMENSION {
        let none: Vec<Contour> = Vec::new();
        assert(contour_models(none@) =~= Seq::empty());
        return none;
    }
    assert(width * height <= 32_768 * 32_768) by (nonlinear_arith)
        requires
            width <= 32_768,
            height <= 32_768,
    ;
    if mask.len() as u64 != (width as u64) * (height as u64) {
        let none: Vec<Contour> = Vec::new();
        assert(contour_models(none@) =~= Seq::empty());
        return none;
    }
    let padded: Vec<u8> = frame(&mask, width, height);
    let ghost pixels = padded@;
    match raster_from_raw(width + 2, height + 2, padded) {
        Some(raster) => {
            assert(pixels.take((width + 2) * (height + 2)) == pixels);
            let traced: Vec<Contour> = find_borders(&raster, threshold);
            unframe(traced, Ghost(mask@), width, height, threshold)
        },
        None => {
            assert(false);
            Vec::new()
        },
    }
}

/// A mask without a foreground pixel has no borders.
pub proof fn lemma_background_has_no_borders(
    borders: Seq<ContourModel>,
    width: u32,
    height: u32,
    pixels: Seq<u8>,
    threshold: u8,
)
    requires
        borders_on_foreground(borders, width, height, pixels, threshold),
        forall|k: int| 0 <= k < pixels.len() ==> pixels[k] <= threshold,
        width * height <= pixels.len(),
    ensures
        borders.len() == 0,
{
    if borders.len() > 0 {
        let b = borders[0];
        assert(b.points.len() > 0);
        let x = b.points[0].0 as int;
        let y = b.points[0].1 as int;
        assert(is_foreground(width, height, pixels, threshold, x, y));
        assert(0 <= y * width + x < width * height) by (nonlinear_arith)
            requires
                0 <= x < width,
                0 <= y < height,
        ;
    }
}

} // verus!
