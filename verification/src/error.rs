//! Error taxonomy of the deduplication engine.

use vstd::prelude::*;

verus! {

/// Everything that can go wrong while indexing, hashing, caching or
/// comparing images.
///
/// Per-image and per-pair failures (`UnsupportedFormat`, `DecodeError`,
/// `DifferentAspectRatio`) are expected and are counted and skipped by the
/// callers; `InvalidParameter` and `StoreError` abort the operation that
/// raised them.
#[derive(Clone, Copy, Debug, PartialEq, Eq, Structural)]
pub enum AppError {
    /// The file extension names a format the engine refuses (heic).
    UnsupportedFormat,
    /// The image bytes could not be decoded into a pixel buffer.
    DecodeError,
    /// A filesystem operation failed.
    IoError,
    /// A parameter lies outside its valid range (a sample fraction outside
    /// (0, 1]).
    InvalidParameter,
    /// Two images cannot be compared because their aspect ratios differ by
    /// more than the tolerance.
    DifferentAspectRatio,
    /// The persistent hash store failed.
    StoreError,
    /// Encoding a result for output failed.
    SerializationError,
}

} // verus!
