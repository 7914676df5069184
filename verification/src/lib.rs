//! A verified image transformation engine: pure, deterministic pixel-level
//! transforms over an in-memory raster image (geometric flips, nearest-neighbor
//! resampling, photometric adjustments, 3x3 convolution, and intensity
//! histograms), together with a dispatcher that maps a requested operation to
//! the corresponding function.

pub mod convolution;
pub mod geometry;
pub mod histogram;
pub mod ops;
pub mod photometric;
pub mod pixel;
pub mod zoom;
