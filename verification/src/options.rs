//! The settings from which a decoder is built.
use vstd::prelude::*;
use crate::mask::Interpolation;

verus! {

/// The foreground cutoff used when none is set: 0.2.
pub const DEFAULT_BINARY_THRESH: u32 = 200_000;

/// The dilation scale used when none is set: 1.5.
pub const DEFAULT_UNCLIP_RATIO: u32 = 1_500_000;

/// The least box width used when none is set: 12 pixels.
pub const DEFAULT_MIN_WIDTH: i64 = 768;

/// The least box height used when none is set: 5 pixels.
pub const DEFAULT_MIN_HEIGHT: i64 = 320;

/// The side of the model input used when none is set, in pixels.
pub const DEFAULT_MODEL_SIDE: u32 = 960;

/// The number of vertices to which outlines are resampled when none is set.
pub const DEFAULT_RESAMPLE_TARGET: usize = 50;

/// The largest number of vertices to which outlines may be resampled.
pub const MAX_RESAMPLE_TARGET: usize = 1_048_576;

/// The confidence threshold used when none is set: 0.3.
pub const DEFAULT_CONFIDENCE: u32 = 300_000;

/// The settings of a decoder. Ratios, probabilities and confidences are in
/// millionths, lengths in sub-pixel steps, model sides in pixels. A setting
/// left unset takes its default when the decoder is built.
#[derive(Debug)]
pub struct Options {
    /// The confidence thresholds, one per class.
    pub class_confs: Vec<u32>,
    /// The probability strictly above which a pixel is foreground.
    pub binary_thresh: Option<u32>,
    /// The scale of the dilation.
    pub unclip_ratio: Option<u32>,
    /// The least width of an accepted box.
    pub min_width: Option<i64>,
    /// The least height of an accepted box.
    pub min_height: Option<i64>,
    /// The height of the model input.
    pub model_height: Option<u32>,
    /// The width of the model input.
    pub model_width: Option<u32>,
    /// The number of images in a batch.
    pub batch: Option<usize>,
    /// The number of vertices to which outlines are resampled.
    pub resample_target: Option<usize>,
    /// How masks are resized to the source image.
    pub interpolation: Option<Interpolation>,
}

impl Options {
    /// The settings with one confidence threshold of 0.3 and everything else
    /// unset.
    pub fn new() -> (o: Options)
        ensures
            o.class_confs@ == seq![DEFAULT_CONFIDENCE],
            o.binary_thresh.is_none(),
            o.unclip_ratio.is_none(),
            o.min_width.is_none(),
            o.min_height.is_none(),
            o.model_height.is_none(),
            o.model_width.is_none(),
            o.batch.is_none(),
            o.resample_target.is_none(),
            o.interpolation.is_none(),
    {
        let mut confs: Vec<u32> = Vec::new();
        confs.push(DEFAULT_CONFIDENCE);
        assert(confs@ =~= seq![DEFAULT_CONFIDENCE]);
        Options {
            class_confs: confs,
            binary_thresh: None,
            unclip_ratio: None,
            min_width: None,
            min_height: None,
            model_height: None,
            model_width: None,
            batch: None,
            resample_target: None,
            interpolation: None,
        }
    }

    /// Sets the confidence thresholds.
    pub fn with_class_confs(self, confs: Vec<u32>) -> (o: Options)
        ensures
            o == (Options { class_confs: confs, ..self }),
    {
        Options { class_confs: confs, ..self }
    }

    /// Sets the foreground cutoff.
    pub fn with_binary_thresh(self, thresh: u32) -> (o: Options)
        ensures
            o == (Options { binary_thresh: Some(thresh), ..self }),
    {
        Options { binary_thresh: Some(thresh), ..self }
    }

    /// Sets the scale of the dilation.
    pub fn with_unclip_ratio(self, ratio: u32) -> (o: Options)
        ensures
            o == (Options { unclip_ratio: Some(ratio), ..self }),
    {
        Options { unclip_ratio: Some(ratio), ..self }
    }

    /// Sets the least width of an accepted box.
    pub fn with_min_width(self, width: i64) -> (o: Options)
        ensures
            o == (Options { min_width: Some(width), ..self }),
    {
        Options { min_width: Some(width), ..self }
    }

    /// Sets the least height of an accepted box.
    pub fn with_min_height(self, height: i64) -> (o: Options)
        ensures
            o == (Options { min_height: Some(height), ..self }),
    {
        Options { min_height: Some(height), ..self }
    }

    /// Sets the size of the model input, in pixels.
    pub fn with_model_size(self, height: u32, width: u32) -> (o: Options)
        ensures
            o == (Options { model_height: Some(height), model_width: Some(width), ..self }),
    {
        Options { model_height: Some(height), model_width: Some(width), ..self }
    }

    /// Sets the number of images in a batch.
    pub fn with_batch(self, batch: usize) -> (o: Options)
        ensures
            o == (Options { batch: Some(batch), ..self }),
    {
        Options { batch: Some(batch), ..self }
    }

    /// Sets the number of vertices to which outlines are resampled.
    pub fn with_resample_target(self, target: usize) -> (o: Options)
        ensures
            o == (Options { resample_target: Some(target), ..self }),
    {
        Options { resample_target: Some(target), ..self }
    }

    /// Sets how masks are resized.
    pub fn with_interpolation(self, mode: Interpolation) -> (o: Options)
        ensures
            o == (Options { interpolation: Some(mode), ..self }),
    {
        Options { interpolation: Some(mode), ..self }
    }
}

impl Default for Options {
    fn default() -> (o: Options)
        ensures
            o.class_confs@ == seq![DEFAULT_CONFIDENCE],
            o.binary_thresh.is_none(),
            o.unclip_ratio.is_none(),
            o.min_width.is_none(),
            o.min_height.is_none(),
            o.model_height.is_none(),
            o.model_width.is_none(),
            o.batch.is_none(),
            o.resample_target.is_none(),
            o.interpolation.is_none(),
    {
        Options::new()
    }
}

} // verus!
