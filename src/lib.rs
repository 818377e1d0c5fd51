//! Canny edge detection over single-channel grids: directional
//! non-maximum suppression of gradient magnitudes, then double thresholding
//! and hysteresis linking into an edge mask.
//!
//! Magnitudes and thresholds are levels (`u64`) compared by order only;
//! orientations are thousandths of a degree (`i64`).
pub mod array;
pub mod canny;
pub mod link;
pub mod suppress;
