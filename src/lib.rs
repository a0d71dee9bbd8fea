//! Hands out non-overlapping integer subranges of one initial range.
//!
//! The free part of the range is kept in a [`collection::FreeIntervals`]:
//! taking a subrange picks the best fit among the free intervals, and giving
//! one back merges it with the free intervals it touches.
use vstd::prelude::*;

pub mod collection;
pub mod interval;

use crate::collection::{best_aligned_fit, best_fit, covered, fits_aligned, pad, total_len};
use crate::collection::FreeIntervals;
use crate::interval::Interval;

verus! {

/// Provides non-intersecting integer subranges of an initial range.
pub struct Subranges {
    free: FreeIntervals,
    len: u64,
}

impl Subranges {
    /// The free part of the range.
    pub closed spec fn free_set(&self) -> FreeIntervals {
        self.free
    }

    /// Length of the initial range.
    pub closed spec fn total(&self) -> int {
        self.len as int
    }

    pub open(crate) spec fn wf(&self) -> bool {
        self.free_set().wf()
    }

    /// Starts with all of `range` free.
    pub fn new(range: Interval) -> (r: Self)
        requires
            range.wf(),
        ensures
            r.wf(),
            covered(r.free_set()@) == range.points(),
            total_len(r.free_set()@) == range.size(),
            r.total() == range.size(),
    {
        let mut free = FreeIntervals::default();
        free.insert(range);
        proof {
            assert(covered(Seq::<Interval>::empty()) =~= Set::<int>::empty());
            assert(covered(Seq::<Interval>::empty()).union(range.points()) =~= range.points());
        }
        Subranges { free, len: range.len() }
    }

    /// Takes `length` free points in a row, from the best-fitting free
    /// interval, or `None` when no free interval is long enough.
    pub fn take_free_subrange(&mut self, length: u64) -> (r: Option<Interval>)
        requires
            old(self).wf(),
            length > 0,
        ensures
            final(self).wf(),
            final(self).total() == old(self).total(),
            r is None <==> (forall|j: int|
                0 <= j < old(self).free_set()@.len() ==> (#[trigger] old(
                    self,
                ).free_set()@[j]).size() < length),
            r is None ==> final(self).free_set()@ == old(self).free_set()@,
            r matches Some(t) ==> exists|k: int|
                best_fit(old(self).free_set()@, length as int, k) && t.lo() == old(
                    self,
                ).free_set()@[k].lo(),
            r matches Some(t) ==> t.size() == length && t.wf(),
            r matches Some(t) ==> t.points().subset_of(covered(old(self).free_set()@))
                && covered(final(self).free_set()@) == covered(old(self).free_set()@).difference(
                t.points(),
            ),
    {
        self.free.take_exact(length)
    }

    /// Takes `length` free points in a row that start at a multiple of
    /// `align`, or `None` when no free interval can hold them.
    pub fn take_free_align_subrange(&mut self, length: u64, align: u64) -> (r: Option<Interval>)
        requires
            old(self).wf(),
            length > 0,
        ensures
            final(self).wf(),
            final(self).total() == old(self).total(),
            r is None <==> (forall|j: int|
                0 <= j < old(self).free_set()@.len() ==> !fits_aligned(
                    #[trigger] old(self).free_set()@[j],
                    length as int,
                    align as int,
                )),
            r is None ==> final(self).free_set()@ == old(self).free_set()@,
            r matches Some(t) ==> exists|k: int|
                best_aligned_fit(old(self).free_set()@, length as int, align as int, k) && t.lo()
                    == old(self).free_set()@[k].lo() + pad(
                    old(self).free_set()@[k].lo(),
                    align as int,
                ),
            r matches Some(t) ==> t.size() == length && t.wf(),
            r matches Some(t) ==> align > 0 ==> t.lo() % (align as int) == 0,
            r matches Some(t) ==> t.points().subset_of(covered(old(self).free_set()@))
                && covered(final(self).free_set()@) == covered(old(self).free_set()@).difference(
                t.points(),
            ),
    {
        self.free.take_exact_aligned(length, align)
    }

    /// Frees every point of `subrange`, merging it with the free intervals
    /// that it overlaps or touches.
    pub fn erase_subrange(&mut self, subrange: Interval)
        requires
            old(self).wf(),
            subrange.wf(),
        ensures
            final(self).wf(),
            final(self).total() == old(self).total(),
            covered(final(self).free_set()@) == covered(old(self).free_set()@).union(
                subrange.points(),
            ),
    {
        self.free.insert(subrange)
    }

    /// Length of the initial range.
    pub fn len(&self) -> (r: u64)
        ensures
            r == self.total(),
    {
        self.len
    }

    /// True when the initial range is empty.
    pub fn is_empty(&self) -> (r: bool)
        ensures
            r == (self.total() == 0),
    {
        self.len == 0
    }
}

} // verus!
