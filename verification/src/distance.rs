use crate::types::ContourSet;
use vstd::prelude::*;

verus! {

/// A shape distance. The moment-based metric of the computer-vision
/// collaborator yields a non-negative score, handed to this library as an
/// order-preserving integer rank; two contour sets of which at least one is
/// empty are maximally dissimilar, which the metric's range itself cannot
/// express, so that case is a distance of its own kind.
#[derive(Debug, Clone, Copy, PartialEq, Eq, Structural)]
pub enum Distance {
    /// An order-preserving integer rank of a non-negative metric score:
    /// of two scores, the smaller one has the smaller rank.
    Finite(u64),
    /// Maximally dissimilar: at least one of the compared contour sets was
    /// empty. Sorts above every finite distance.
    Infinite,
}

/// The order on distances: finite ranks compare as integers, and the
/// infinite distance sorts above everything (and ties with itself).
pub open spec fn dist_le(a: Distance, b: Distance) -> bool {
    match (a, b) {
        (Distance::Finite(x), Distance::Finite(y)) => x <= y,
        (Distance::Finite(_), Distance::Infinite) => true,
        (Distance::Infinite, Distance::Finite(_)) => false,
        (Distance::Infinite, Distance::Infinite) => true,
    }
}

impl Distance {
    /// Decides `dist_le`: whether `self` is at most `other`.
    pub fn le(&self, other: &Distance) -> (r: bool)
        ensures
            r == dist_le(*self, *other),
    {
        match (self, other) {
            (Distance::Finite(x), Distance::Finite(y)) => *x <= *y,
            (Distance::Finite(_), Distance::Infinite) => true,
            (Distance::Infinite, Distance::Finite(_)) => false,
            (Distance::Infinite, Distance::Infinite) => true,
        }
    }
}

/// What the shape-distance orchestration decides before any metric runs:
/// `Some(Distance::Infinite)` when at least one contour set is empty,
/// `None` when both are non-empty and the metric must be consulted.
pub open spec fn spec_empty_shape_distance(a: ContourSet, b: ContourSet) -> Option<Distance> {
    if a.polys().len() == 0 || b.polys().len() == 0 {
        Some(Distance::Infinite)
    } else {
        None
    }
}

/// The degenerate case of the shape distance: an empty contour set is
/// maximally dissimilar to everything. Returns `None` exactly when both sets
/// are non-empty, in which case the caller selects the largest contour of
/// each side and consults the moment-based metric.
pub fn empty_shape_distance(a: &ContourSet, b: &ContourSet) -> (r: Option<Distance>)
    ensures
        r == spec_empty_shape_distance(*a, *b),
{
    if a.is_empty() || b.is_empty() {
        Some(Distance::Infinite)
    } else {
        None
    }
}

/// The distance the orchestration reports for a pair of contour sets, given
/// the rank the metric assigned to their largest contours in the case where
/// both sets are non-empty.
pub open spec fn spec_shape_distance(a: ContourSet, b: ContourSet, rank: u64) -> Distance {
    match spec_empty_shape_distance(a, b) {
        Some(d) => d,
        None => Distance::Finite(rank),
    }
}

/// The shape distance is infinite exactly when at least one input contour
/// set is empty, whatever rank the metric assigned.
pub proof fn lemma_shape_distance_infinite_iff_empty(a: ContourSet, b: ContourSet, rank: u64)
    ensures
        spec_shape_distance(a, b, rank) == Distance::Infinite <==> (a.polys().len() == 0
            || b.polys().len() == 0),
{
}

/// Swapping the two contour sets does not change the reported distance,
/// provided the metric assigns the swapped pair the same rank — as a
/// symmetric metric does.
pub proof fn lemma_shape_distance_symmetric(a: ContourSet, b: ContourSet, rank: u64)
    ensures
        spec_shape_distance(a, b, rank) == spec_shape_distance(b, a, rank),
{
}

/// The distance is infinite exactly when at least one input is empty; the
/// metric is consulted exactly when neither is.
pub proof fn lemma_infinite_iff_empty(a: ContourSet, b: ContourSet)
    ensures
        spec_empty_shape_distance(a, b) == Some(Distance::Infinite) <==> (a.polys().len() == 0
            || b.polys().len() == 0),
        spec_empty_shape_distance(a, b) is None <==> (a.polys().len() > 0 && b.polys().len() > 0),
{
}

/// The degenerate case is symmetric: swapping the two contour sets does not
/// change what the orchestration decides.
pub proof fn lemma_empty_shape_distance_symmetric(a: ContourSet, b: ContourSet)
    ensures
        spec_empty_shape_distance(a, b) == spec_empty_shape_distance(b, a),
{
}

/// The index the largest-contour selection must pick from a sequence of
/// areas: the first position holding the maximum.
pub open spec fn is_first_max(areas: Seq<u64>, i: int) -> bool {
    &&& 0 <= i < areas.len()
    &&& forall|j: int| 0 <= j < areas.len() ==> areas[j] <= areas[i]
    &&& forall|j: int| 0 <= j < i ==> areas[j] < areas[i]
}

/// Selects the polyline enclosing the largest area, given one area per
/// polyline as order-preserving integer ranks: returns the index of the
/// first maximal area, so ties fall to the earliest polyline.
pub fn largest_area_index(areas: &Vec<u64>) -> (r: usize)
    requires
        areas@.len() > 0,
    ensures
        is_first_max(areas@, r as int),
{
    let mut idx: usize = 0;
    let mut largest: u64 = areas[0];
    let mut i: usize = 1;
    while i < areas.len()
        invariant
            1 <= i <= areas@.len(),
            0 <= idx < i,
            largest == areas@[idx as int],
            forall|j: int| 0 <= j < i ==> areas@[j] <= largest,
            forall|j: int| 0 <= j < idx ==> areas@[j] < largest,
        decreases areas@.len() - i,
    {
        if areas[i] > largest {
            largest = areas[i];
            idx = i;
        }
        i = i + 1;
    }
    idx
}

/// The position a best-match search must report among the outcomes of the
/// per-entry comparisons: a computed distance that is least among all
/// computed distances, at the first position attaining it — failed
/// comparisons (`None`) are passed over.
pub open spec fn is_first_best(outcomes: Seq<Option<Distance>>, i: int) -> bool {
    &&& 0 <= i < outcomes.len()
    &&& outcomes[i] is Some
    &&& forall|j: int|
        0 <= j < outcomes.len() && outcomes[j] is Some ==> dist_le(outcomes[i]->0, outcomes[j]->0)
    &&& forall|j: int| 0 <= j < i && outcomes[j] is Some ==> !dist_le(outcomes[j]->0, outcomes[i]->0)
}

/// The selection is deterministic: a sequence of areas has at most one
/// first-maximal index. In particular, comparing a contour set with itself
/// selects the same polyline on both sides.
pub proof fn lemma_first_max_unique(areas: Seq<u64>, i: int, j: int)
    requires
        is_first_max(areas, i),
        is_first_max(areas, j),
    ensures
        i == j,
{
    if i < j {
        assert(areas[i] < areas[j]);
        assert(areas[j] <= areas[i]);
    }
    if j < i {
        assert(areas[j] < areas[i]);
        assert(areas[i] <= areas[j]);
    }
}

} // verus!
