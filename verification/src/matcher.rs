use crate::distance::Distance;
use crate::distance::dist_le;
use crate::distance::is_first_best;
use crate::error::ShapeMatchError;
use crate::types::ContourSet;
use crate::types::ImageMatch;
use vstd::prelude::*;

verus! {

/// One cached image: its source path (the unique key of the cache) paired
/// with its precomputed contour representation.
#[derive(Debug)]
pub struct CacheEntry {
    /// Path of the image, equal to the key under which the entry is cached.
    pub path: String,
    /// The contour representation the pipeline produced for the image.
    pub contours: ContourSet,
}

/// The outcome of running the processing pipeline on one path: the contours
/// on success, `None` where the image failed to decode or process.
#[derive(Debug)]
pub struct LoadResult {
    /// The path the pipeline ran on.
    pub path: String,
    /// The extracted contours, or `None` when processing failed.
    pub contours: Option<ContourSet>,
}

/// No two entries share a path: the invariant of the cache.
pub open spec fn distinct_paths(s: Seq<CacheEntry>) -> bool {
    forall|i: int, j: int|
        #![trigger s[i], s[j]]
        0 <= i < j < s.len() ==> s[i].path@ != s[j].path@
}

/// The mapping a sequence of cache entries stands for, later entries
/// overwriting earlier ones of the same path.
pub open spec fn entries_map(s: Seq<CacheEntry>) -> Map<Seq<char>, ContourSet>
    decreases s.len(),
{
    if s.len() == 0 {
        Map::empty()
    } else {
        entries_map(s.drop_last()).insert(s.last().path@, s.last().contours)
    }
}

/// The mapping that constructing a matcher from a sequence of pipeline
/// outcomes yields: each successful result inserted in order, failures
/// skipped.
pub open spec fn loaded_map(s: Seq<LoadResult>) -> Map<Seq<char>, ContourSet>
    decreases s.len(),
{
    if s.len() == 0 {
        Map::empty()
    } else {
        match s.last().contours {
            Some(c) => loaded_map(s.drop_last()).insert(s.last().path@, c),
            None => loaded_map(s.drop_last()),
        }
    }
}

/// How many of the pipeline outcomes succeeded.
pub open spec fn ok_count(s: Seq<LoadResult>) -> nat
    decreases s.len(),
{
    if s.len() == 0 {
        0
    } else {
        ok_count(s.drop_last()) + if s.last().contours is Some {
            1nat
        } else {
            0nat
        }
    }
}

/// No two pipeline outcomes name the same path.
pub open spec fn distinct_result_paths(s: Seq<LoadResult>) -> bool {
    forall|i: int, j: int|
        #![trigger s[i], s[j]]
        0 <= i < j < s.len() ==> s[i].path@ != s[j].path@
}

proof fn lemma_entries_map_contains(s: Seq<CacheEntry>, k: Seq<char>)
    ensures
        entries_map(s).contains_key(k) <==> exists|i: int| 0 <= i < s.len() && s[i].path@ == k,
    decreases s.len(),
{
    if s.len() > 0 {
        let dl = s.drop_last();
        lemma_entries_map_contains(dl, k);
        if s.last().path@ == k {
            assert(s[s.len() - 1].path@ == k);
        } else {
            if entries_map(s).contains_key(k) {
                let i = choose|i: int| 0 <= i < dl.len() && dl[i].path@ == k;
                assert(s[i].path@ == k);
            }
            if exists|i: int| 0 <= i < s.len() && s[i].path@ == k {
                let i = choose|i: int| 0 <= i < s.len() && s[i].path@ == k;
                assert(i < s.len() - 1);
                assert(dl[i].path@ == k);
            }
        }
    }
}

proof fn lemma_entries_map_finite(s: Seq<CacheEntry>)
    ensures
        entries_map(s).dom().finite(),
    decreases s.len(),
{
    if s.len() > 0 {
        lemma_entries_map_finite(s.drop_last());
    }
}

proof fn lemma_entries_map_len(s: Seq<CacheEntry>)
    requires
        distinct_paths(s),
    ensures
        entries_map(s).dom().len() == s.len(),
    decreases s.len(),
{
    if s.len() > 0 {
        let dl = s.drop_last();
        let k = s.last().path@;
        assert(distinct_paths(dl));
        lemma_entries_map_len(dl);
        lemma_entries_map_finite(dl);
        lemma_entries_map_contains(dl, k);
        assert forall|i: int| 0 <= i < dl.len() implies dl[i].path@ != k by {
            assert(s[i].path@ == dl[i].path@);
            assert(s[s.len() - 1].path@ == k);
        }
        assert(!entries_map(dl).contains_key(k));
    }
}

proof fn lemma_entries_map_get(s: Seq<CacheEntry>, k: Seq<char>, i: int)
    requires
        distinct_paths(s),
        0 <= i < s.len(),
        s[i].path@ == k,
    ensures
        entries_map(s).contains_key(k),
        entries_map(s)[k] == s[i].contours,
    decreases s.len(),
{
    if i == s.len() - 1 {
    } else {
        let dl = s.drop_last();
        assert(distinct_paths(dl));
        assert(dl[i].path@ == k);
        lemma_entries_map_get(dl, k, i);
        assert(s.last().path@ != k);
    }
}

proof fn lemma_entries_map_remove_at(s: Seq<CacheEntry>, i: int)
    requires
        distinct_paths(s),
        0 <= i < s.len(),
    ensures
        entries_map(s.remove(i)) =~= entries_map(s).remove(s[i].path@),
        distinct_paths(s.remove(i)),
    decreases s.len(),
{
    let k = s[i].path@;
    let t = s.remove(i);
    assert forall|p: int, q: int|
        #![trigger t[p], t[q]]
        0 <= p < q < t.len() implies t[p].path@ != t[q].path@ by {
        let p0: int = if p < i {
            p
        } else {
            p + 1
        };
        let q0: int = if q < i {
            q
        } else {
            q + 1
        };
        assert(t[p] == s[p0]);
        assert(t[q] == s[q0]);
    }
    if i == s.len() - 1 {
        let dl = s.drop_last();
        assert(t =~= dl);
        lemma_entries_map_contains(dl, k);
        assert forall|j: int| 0 <= j < dl.len() implies dl[j].path@ != k by {
            assert(s[j].path@ == dl[j].path@);
            assert(s[s.len() - 1].path@ == k);
        }
        assert(!entries_map(dl).contains_key(k));
        assert(entries_map(s).remove(k) =~= entries_map(dl));
    } else {
        let dl = s.drop_last();
        assert(distinct_paths(dl));
        lemma_entries_map_remove_at(dl, i);
        assert(t.drop_last() =~= dl.remove(i));
        assert(t.last() == s.last());
        let lastk = s.last().path@;
        let lastc = s.last().contours;
        assert(lastk != k) by {
            assert(s[i].path@ == k);
            assert(s[s.len() - 1].path@ == lastk);
        }
        assert(entries_map(t) == entries_map(dl.remove(i)).insert(lastk, lastc));
        assert(entries_map(dl.remove(i)).insert(lastk, lastc) =~= entries_map(dl).remove(k).insert(
            lastk,
            lastc,
        ));
        assert(entries_map(dl).remove(k).insert(lastk, lastc) =~= entries_map(dl).insert(
            lastk,
            lastc,
        ).remove(k));
    }
}

proof fn lemma_loaded_map_contains(s: Seq<LoadResult>, k: Seq<char>)
    ensures
        loaded_map(s).contains_key(k) <==> exists|i: int|
            0 <= i < s.len() && s[i].path@ == k && s[i].contours is Some,
    decreases s.len(),
{
    if s.len() > 0 {
        let dl = s.drop_last();
        lemma_loaded_map_contains(dl, k);
        if s.last().path@ == k && s.last().contours is Some {
            assert(s[s.len() - 1].path@ == k && s[s.len() - 1].contours is Some);
        } else {
            if loaded_map(s).contains_key(k) {
                let i = choose|i: int|
                    0 <= i < dl.len() && dl[i].path@ == k && dl[i].contours is Some;
                assert(s[i].path@ == k && s[i].contours is Some);
            }
            if exists|i: int| 0 <= i < s.len() && s[i].path@ == k && s[i].contours is Some {
                let i = choose|i: int| 0 <= i < s.len() && s[i].path@ == k && s[i].contours is Some;
                assert(i < s.len() - 1);
                assert(dl[i].path@ == k && dl[i].contours is Some);
            }
        }
    }
}

proof fn lemma_loaded_map_finite(s: Seq<LoadResult>)
    ensures
        loaded_map(s).dom().finite(),
    decreases s.len(),
{
    if s.len() > 0 {
        lemma_loaded_map_finite(s.drop_last());
    }
}

/// Constructing a matcher from outcomes for distinct paths caches exactly
/// the successes: the number of cached images equals the number of
/// successful results, however many failed.
pub proof fn lemma_new_count(results: Seq<LoadResult>)
    requires
        distinct_result_paths(results),
    ensures
        loaded_map(results).dom().len() == ok_count(results),
    decreases results.len(),
{
    if results.len() > 0 {
        let dl = results.drop_last();
        let k = results.last().path@;
        assert(distinct_result_paths(dl));
        lemma_new_count(dl);
        lemma_loaded_map_finite(dl);
        lemma_loaded_map_contains(dl, k);
        assert forall|i: int| 0 <= i < dl.len() implies dl[i].path@ != k by {
            assert(results[i].path@ == dl[i].path@);
            assert(results[results.len() - 1].path@ == k);
        }
        assert(!loaded_map(dl).contains_key(k));
    }
}

/// Compares a query image against a cache of reference images by shape.
///
/// Owns a mapping from image path to cached contours, plus the two fixed
/// edge-detection thresholds shared read-only by every pipeline run for the
/// lifetime of the matcher.
#[derive(Debug)]
pub struct ShapeMatcher {
    images: Vec<CacheEntry>,
    canny_threshold1: u64,
    canny_threshold2: u64,
}

impl ShapeMatcher {
    /// The cached entries, in cache order.
    pub closed spec fn entries(&self) -> Seq<CacheEntry> {
        self.images@
    }

    /// The mathematical value of the cache: the mapping from image path to
    /// cached contours.
    pub closed spec fn cache(&self) -> Map<Seq<char>, ContourSet> {
        entries_map(self.images@)
    }

    /// Well-formedness: every path is cached at most once.
    pub closed spec fn wf(&self) -> bool {
        distinct_paths(self.images@)
    }

    /// The lower edge-detection threshold, fixed at construction.
    pub closed spec fn threshold_low(&self) -> u64 {
        self.canny_threshold1
    }

    /// The upper edge-detection threshold, fixed at construction.
    pub closed spec fn threshold_high(&self) -> u64 {
        self.canny_threshold2
    }

    /// Builds a matcher from the outcomes of the processing pipeline, one
    /// per requested path. Successes are cached, a later outcome for the
    /// same path overwriting an earlier one; failures are skipped, so
    /// construction itself never fails, even when every path failed.
    pub fn new(results: Vec<LoadResult>) -> (r: ShapeMatcher)
        ensures
            r.wf(),
            r.cache() == loaded_map(results@),
            r.entries().len() == r.cache().dom().len(),
            r.threshold_low() == 100,
            r.threshold_high() == 200,
    {
        let mut m = ShapeMatcher {
            images: Vec::new(),
            canny_threshold1: 100,
            canny_threshold2: 200,
        };
        let mut rest = results;
        let ghost all: Seq<LoadResult> = rest@;
        let ghost done: int = 0;
        assert(entries_map(m.images@) =~= loaded_map(all.take(0)));
        while rest.len() > 0
            invariant
                0 <= done <= all.len(),
                rest@ == all.skip(done),
                m.wf(),
                m.cache() == loaded_map(all.take(done)),
                m.threshold_low() == 100,
                m.threshold_high() == 200,
            decreases rest@.len(),
        {
            let first = rest.remove(0);
            proof {
                assert(all.skip(done)[0] == first);
                assert(all[done] == first);
                assert(rest@ =~= all.skip(done + 1));
                assert(all.take(done + 1).drop_last() =~= all.take(done));
                assert(all.take(done + 1).last() == all[done]);
            }
            match first.contours {
                Some(c) => {
                    m.add_image(first.path, c);
                },
                None => {
                },
            }
            proof {
                done = done + 1;
            }
        }
        proof {
            assert(all.take(done) =~= all);
            lemma_entries_map_len(m.images@);
        }
        m
    }

    /// Caches contours under a path, overwriting whatever the path held
    /// before: the cache afterwards is the cache before with this one
    /// binding inserted.
    pub fn add_image(&mut self, path: String, contours: ContourSet)
        requires
            old(self).wf(),
        ensures
            final(self).wf(),
            final(self).cache() == old(self).cache().insert(path@, contours),
            final(self).entries().len() == old(self).entries().len() + (if old(
                self,
            ).cache().contains_key(path@) {
                0int
            } else {
                1int
            }),
            final(self).threshold_low() == old(self).threshold_low(),
            final(self).threshold_high() == old(self).threshold_high(),
    {
        self.remove_image(path.as_str());
        let ghost mid: Seq<CacheEntry> = self.images@;
        let ghost k: Seq<char> = path@;
        self.images.push(CacheEntry { path, contours });
        proof {
            assert(self.images@.drop_last() =~= mid);
            assert(self.images@.last().path@ == k);
            assert(entries_map(self.images@) == entries_map(mid).insert(k, contours));
            assert(entries_map(mid).insert(k, contours) =~= old(self).cache().remove(k).insert(
                k,
                contours,
            ));
            assert(old(self).cache().remove(k).insert(k, contours) =~= old(self).cache().insert(
                k,
                contours,
            ));
            assert forall|i: int, j: int|
                #![trigger self.images@[i], self.images@[j]]
                0 <= i < j < self.images@.len() implies self.images@[i].path@
                != self.images@[j].path@ by {
                if j == self.images@.len() - 1 {
                    assert(self.images@[i] == mid[i]);
                } else {
                    assert(self.images@[i] == mid[i]);
                    assert(self.images@[j] == mid[j]);
                }
            }
            lemma_entries_map_contains(old(self).images@, k);
            lemma_entries_map_contains(mid, k);
        }
    }

    /// Removes the entry cached under a path. Afterwards the path is not in
    /// the cache; if it was not there to begin with, the matcher is left
    /// exactly as it was — removing an absent path is a no-op, not an error.
    pub fn remove_image(&mut self, path: &str)
        requires
            old(self).wf(),
        ensures
            final(self).wf(),
            final(self).cache() == old(self).cache().remove(path@),
            forall|i: int|
                0 <= i < final(self).entries().len() ==> final(self).entries()[i].path@ != path@,
            old(self).cache().contains_key(path@) ==> final(self).entries().len() == old(
                self,
            ).entries().len() - 1,
            !old(self).cache().contains_key(path@) ==> *final(self) == *old(self),
            final(self).threshold_low() == old(self).threshold_low(),
            final(self).threshold_high() == old(self).threshold_high(),
    {
        let key: String = path.to_owned();
        let mut j: usize = 0;
        while j < self.images.len()
            invariant
                *self == *old(self),
                old(self).wf(),
                key@ == path@,
                0 <= j <= self.images@.len(),
                forall|i: int| 0 <= i < j ==> self.images@[i].path@ != key@,
            decreases self.images@.len() - j,
        {
            if self.images[j].path == key {
                proof {
                    lemma_entries_map_remove_at(self.images@, j as int);
                    lemma_entries_map_contains(self.images@, key@);
                    assert forall|i: int|
                        0 <= i < self.images@.len() && i != j implies self.images@[i].path@
                        != key@ by {
                        assert(self.images@[j as int].path@ == key@);
                    }
                }
                self.images.remove(j);
                return ;
            }
            j = j + 1;
        }
        proof {
            lemma_entries_map_contains(self.images@, path@);
            assert(!old(self).cache().contains_key(path@));
            assert(old(self).cache().remove(path@) =~= old(self).cache());
        }
    }

    /// The two fixed edge-detection thresholds, lower then upper, as set at
    /// construction.
    pub fn thresholds(&self) -> (r: (u64, u64))
        ensures
            r.0 == self.threshold_low(),
            r.1 == self.threshold_high(),
    {
        (self.canny_threshold1, self.canny_threshold2)
    }

    /// The cache entry at a position, for iterating the cache by index.
    pub fn entry_at(&self, i: usize) -> (r: &CacheEntry)
        requires
            i < self.entries().len(),
        ensures
            *r == self.entries()[i as int],
    {
        &self.images[i]
    }

    /// The number of cached images, which is also the size of the cache
    /// mapping's domain.
    pub fn image_count(&self) -> (r: usize)
        requires
            self.wf(),
        ensures
            r == self.entries().len(),
            r as nat == self.cache().dom().len(),
    {
        proof {
            lemma_entries_map_len(self.images@);
        }
        self.images.len()
    }

    /// An unordered snapshot of the cached paths: one per cache entry, in
    /// cache order, and on a well-formed matcher without repetition — a path
    /// added twice is listed once.
    pub fn get_image_paths(&self) -> (r: Vec<String>)
        ensures
            r@.len() == self.entries().len(),
            forall|i: int| 0 <= i < r@.len() ==> r@[i]@ == self.entries()[i].path@,
            self.wf() ==> forall|i: int, j: int|
                #![trigger r@[i], r@[j]]
                0 <= i < j < r@.len() ==> r@[i]@ != r@[j]@,
    {
        let mut out: Vec<String> = Vec::new();
        let mut i: usize = 0;
        while i < self.images.len()
            invariant
                0 <= i <= self.images@.len(),
                out@.len() == i,
                forall|p: int| 0 <= p < i ==> out@[p]@ == self.images@[p].path@,
            decreases self.images@.len() - i,
        {
            out.push(self.images[i].path.clone());
            i = i + 1;
        }
        out
    }

    /// Looks up the contours cached under a path: the cached value when the
    /// path is present, `ImageNotCached` naming the path when it is absent —
    /// if and only if.
    pub fn get_contours(&self, path: &str) -> (r: Result<&ContourSet, ShapeMatchError>)
        requires
            self.wf(),
        ensures
            self.cache().contains_key(path@) ==> (r matches Ok(c) && *c == self.cache()[path@]),
            !self.cache().contains_key(path@) ==> (r matches Err(e) && e
                matches ShapeMatchError::ImageNotCached(p) && p@ == path@),
    {
        let key: String = path.to_owned();
        let mut j: usize = 0;
        while j < self.images.len()
            invariant
                self.wf(),
                key@ == path@,
                0 <= j <= self.images@.len(),
                forall|i: int| 0 <= i < j ==> self.images@[i].path@ != key@,
            decreases self.images@.len() - j,
        {
            if self.images[j].path == key {
                proof {
                    lemma_entries_map_get(self.images@, key@, j as int);
                }
                return Ok(&self.images[j].contours);
            }
            j = j + 1;
        }
        proof {
            lemma_entries_map_contains(self.images@, path@);
        }
        Err(ShapeMatchError::ImageNotCached(key))
    }

    /// Selects the best match from the outcomes of comparing a query against
    /// every cache entry, `outcomes[i]` belonging to entry `i`: `Some` is a
    /// computed distance, `None` a comparison that failed and is silently
    /// dropped. Returns the entry with the least distance, ties falling to
    /// the first such entry, and `NoMatchesFound` exactly when no usable
    /// outcome exists — the cache was empty or every comparison failed.
    pub fn find_most_similar(&self, outcomes: &Vec<Option<Distance>>) -> (r: Result<
        ImageMatch,
        ShapeMatchError,
    >)
        requires
            outcomes@.len() == self.entries().len(),
        ensures
            match r {
                Ok(m) => exists|i: int|
                    0 <= i < outcomes@.len() && is_first_best(outcomes@, i) && outcomes@[i] == Some(
                        m.similarity,
                    ) && m.path@ == self.entries()[i].path@,
                Err(e) => e == ShapeMatchError::NoMatchesFound && forall|i: int|
                    0 <= i < outcomes@.len() ==> outcomes@[i] is None,
            },
    {
        let mut best: Option<Distance> = None;
        let mut best_idx: usize = 0;
        let mut i: usize = 0;
        while i < outcomes.len()
            invariant
                0 <= i <= outcomes@.len(),
                best is None ==> forall|j: int| 0 <= j < i ==> outcomes@[j] is None,
                best matches Some(bd) ==> {
                    &&& 0 <= best_idx < i
                    &&& outcomes@[best_idx as int] == Some(bd)
                    &&& forall|j: int|
                        0 <= j < i && outcomes@[j] is Some ==> dist_le(bd, outcomes@[j]->0)
                    &&& forall|j: int|
                        0 <= j < best_idx && outcomes@[j] is Some ==> !dist_le(outcomes@[j]->0, bd)
                },
            decreases outcomes@.len() - i,
        {
            let cur = outcomes[i];
            match cur {
                Some(d) => {
                    match best {
                        None => {
                            best = Some(d);
                            best_idx = i;
                        },
                        Some(bd) => {
                            if !bd.le(&d) {
                                best = Some(d);
                                best_idx = i;
                            }
                        },
                    }
                },
                None => {
                },
            }
            i = i + 1;
        }
        match best {
            None => Err(ShapeMatchError::NoMatchesFound),
            Some(bd) => {
                assert(is_first_best(outcomes@, best_idx as int));
                Ok(
                    ImageMatch {
                        path: self.images[best_idx].path.clone(),
                        similarity: bd,
                    },
                )
            },
        }
    }
}

/// A cached path occupies exactly one slot of the cache, so the snapshot of
/// `get_image_paths` lists it exactly once — adding an image twice overwrites
/// rather than duplicates.
pub proof fn lemma_cached_path_slot_unique(m: ShapeMatcher, k: Seq<char>)
    requires
        m.wf(),
        m.cache().contains_key(k),
    ensures
        exists|i: int| 0 <= i < m.entries().len() && m.entries()[i].path@ == k,
        forall|i: int, j: int|
            #![trigger m.entries()[i], m.entries()[j]]
            (0 <= i < m.entries().len() && 0 <= j < m.entries().len() && m.entries()[i].path@ == k
                && m.entries()[j].path@ == k) ==> i == j,
{
    lemma_entries_map_contains(m.entries(), k);
    assert forall|i: int, j: int|
        #![trigger m.entries()[i], m.entries()[j]]
        (0 <= i < m.entries().len() && 0 <= j < m.entries().len() && m.entries()[i].path@ == k
            && m.entries()[j].path@ == k) implies i == j by {
        if i < j {
            assert(m.entries()[i].path@ != m.entries()[j].path@);
        }
        if j < i {
            assert(m.entries()[j].path@ != m.entries()[i].path@);
        }
    }
}

} // verus!
