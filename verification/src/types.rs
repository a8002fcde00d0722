use crate::distance::Distance;
use vstd::prelude::*;

verus! {

/// A 2-D point on the pixel grid of an image.
#[derive(Debug, Clone, Copy, PartialEq, Eq, Structural)]
pub struct Point {
    pub x: i32,
    pub y: i32,
}

/// The contour representation of one image: an ordered sequence of closed
/// polylines, each an ordered sequence of points, in the order the contour
/// extractor returned them. May be empty (the image had no detectable edges).
/// Immutable once produced.
#[derive(Debug)]
pub struct ContourSet {
    pub polylines: Vec<Vec<Point>>,
}

impl ContourSet {
    /// The mathematical value of the contour set: a sequence of polylines,
    /// each a sequence of points.
    pub open spec fn polys(&self) -> Seq<Seq<Point>> {
        self.polylines@.map_values(|p: Vec<Point>| p@)
    }

    /// True when the set holds no polyline at all.
    pub fn is_empty(&self) -> (r: bool)
        ensures
            r == (self.polys().len() == 0),
    {
        self.polylines.is_empty()
    }

    /// The number of polylines in the set.
    pub fn len(&self) -> (r: usize)
        ensures
            r == self.polys().len(),
    {
        self.polylines.len()
    }
}

/// A matched image: the path of a cached image together with its distance to
/// the query. Lower means more similar, despite the field's name. Produced
/// fresh per query, never stored.
#[derive(Debug, Clone)]
pub struct ImageMatch {
    /// Path of the matched image.
    pub path: String,
    /// Shape distance to the query (lower means more similar).
    pub similarity: Distance,
}

} // verus!
