//! Shape-based image matching.
//!
//! The library compares images by the silhouette of their dominant contour.
//! Pixel decoding, blurring, edge detection, contour tracing and the
//! moment-based shape metric are the business of an external computer-vision
//! collaborator; everything that can be decided on plain values — the contour
//! model, the selection of the largest contour, the distance bookkeeping and
//! the in-memory cache of processed images — lives here and is verified.

pub mod distance;
pub mod error;
pub mod matcher;
pub mod types;

pub use distance::Distance;
pub use error::ShapeMatchError;
pub use matcher::CacheEntry;
pub use matcher::LoadResult;
pub use matcher::ShapeMatcher;
pub use types::ContourSet;
pub use types::ImageMatch;
pub use types::Point;
