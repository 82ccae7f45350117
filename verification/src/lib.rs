//! Post-processing for single-stage object detectors: decoding of raw grid
//! tensors into image-space boxes, confidence filtering, score-based top-k
//! trimming, and greedy non-maximum suppression.
//!
//! All quantities that the original model emits as floating-point numbers are
//! carried here as decimal fixed-point integers: an `i64` holds the real value
//! multiplied by [`fixed::SCALE`] (one million). This keeps every arithmetic
//! step exact and lets each public function state precisely what it computes.

pub mod boxes;
pub mod decode;
pub mod fixed;
pub mod nms;
pub mod sorting;
