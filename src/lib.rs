//! Ordered and stochastic dithering of grayscale rasters into a compact,
//! compressed one-bit-per-pixel format, and its reconstruction.

pub mod codec;
pub mod dither;
pub mod error;
pub mod matrix;
pub mod packing;

pub use error::DitherpackError;
pub use packing::{pack, unpack, DitherType, RgbImage};
