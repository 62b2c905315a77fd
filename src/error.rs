//! Errors of the library.

use vstd::prelude::*;
use crate::codec::FrameError;

verus! {

/// std's I/O error, carried opaquely as the cause of a compressor failure.
#[verifier::external_type_specification]
#[verifier::external_body]
pub struct ExIoError(std::io::Error);

/// Why packing or unpacking failed.
#[derive(Debug)]
pub enum DitherpackError {
    /// A matrix parameter is out of range (a Bayer power of zero or too large).
    InvalidMethodParameter,
    /// The bundled blue-noise tile could not be decoded.
    Asset,
    /// The operating system's random source failed.
    RandomSource,
    /// The decompressed bytes are not a well-formed frame.
    Decode(FrameError),
    /// The compressor failed.
    Compression(std::io::Error),
    /// The compressed bytes are corrupt or truncated.
    Decompression(std::io::Error),
}

} // verus!
