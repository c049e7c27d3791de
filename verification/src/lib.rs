//! Perceptual color and edge engine.
//!
//! The engine works on decoded pixel buffers (flat byte sequences with
//! explicit dimensions) and provides: sRGB <-> LAB color conversion in
//! fixed-point arithmetic, perceptual k-means clustering, color
//! quantization, region segmentation, local-contrast saliency, Sobel edge
//! detection with single- and three-level thresholding, edge-map blending,
//! and a batched execution layer with a capability-gated dispatch.
//!
//! All LAB quantities are carried as integers in milli-units: an `l` field
//! of 100_000 stands for a lightness of 100.0.

use vstd::prelude::*;

pub mod roots;
pub mod color;
pub mod cluster;
pub mod quantize;
pub mod segment;
pub mod saliency;
pub mod edges;
pub mod dispatch;
pub mod model;

verus! {

/// Error kinds of the engine.
///
/// `InvalidImage` reports a buffer whose length does not match the stated
/// dimensions; `InvalidParameter` reports a degenerate request (`k == 0`,
/// an empty sample set, or mismatched buffer lengths for blending);
/// `UnsupportedOperation` reports an operation the engine refuses by design.
#[derive(Clone, Copy, PartialEq, Eq, Structural, Debug)]
pub enum ImageError {
    InvalidImage,
    InvalidParameter,
    UnsupportedOperation,
}

} // verus!
