use vstd::prelude::*;

verus! {

/// The errors of the library.
///
/// Image decoding and the computer-vision primitives run outside this crate;
/// their failures reach the library as plain messages, carried by the first
/// two variants.
#[derive(Debug, Clone, PartialEq, Eq)]
pub enum ShapeMatchError {
    /// The path could not be decoded into a non-empty pixel buffer.
    ImageLoadError(String),
    /// A computer-vision primitive failed; the failure is opaque and
    /// non-recoverable for that single operation.
    OpenCvError(String),
    /// A similarity query found zero usable candidates: the cache was empty
    /// or every comparison failed.
    NoMatchesFound,
    /// A lookup named a path that is not in the cache.
    ImageNotCached(String),
}

} // verus!
