//! Decoding of raw vision-model outputs into geometry in the source image:
//! boxes, polygons and rotated rectangles.
//!
//! All arithmetic is in integers. Coordinates and lengths are counted in
//! sub-pixel steps, 64 to the pixel; probabilities, confidences, thresholds
//! and ratios are counted in millionths.
pub mod anchors;
pub mod bbox;
pub mod contours;
pub mod db;
pub mod dynconf;
pub mod fixed;
pub mod hull;
pub mod mask;
pub mod mbr;
pub mod models;
pub mod nms;
pub mod options;
pub mod point;
pub mod polygon;
pub mod resample;
pub mod scale;
pub mod unclip;
pub mod xs;
pub mod y;

pub use anchors::Anchor;
pub use bbox::Bbox;
pub use contours::Contour;
pub use dynconf::DynConf;
pub use mbr::Mbr;
pub use options::Options;
pub use point::Point;
pub use polygon::Polygon;
pub use scale::ScaleInfo;
pub use xs::Xs;
pub use y::Y;
