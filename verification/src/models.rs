//! The decoders, one per model family.
pub use crate::anchors::{decode_anchors, decode_multitask};
pub use crate::db::DB;
