use vstd::prelude::*;

use vstd::arithmetic::div_mod::{lemma_fundamental_div_mod, lemma_mod_multiples_basic};
use vstd::std_specs::slice::into_iter_elts;
use vstd::set_lib::{lemma_int_range, lemma_set_difference_len, lemma_set_disjoint_lens, set_int_range};

use crate::interval::Interval;

verus! {

/// `a` comes before `b` in the order of the set: shorter first, then lower start.
pub open(crate) spec fn precedes(a: Interval, b: Interval) -> bool {
    a.size() < b.size() || (a.size() == b.size() && a.lo() < b.lo())
}

/// Every member fits in `u64` and holds at least one point.
pub open(crate) spec fn members_valid(s: Seq<Interval>) -> bool {
    forall|i: int| 0 <= i < s.len() ==> (#[trigger] s[i]).wf() && s[i].size() > 0
}

/// Members stand in ascending `(length, start)` order.
pub open(crate) spec fn sorted(s: Seq<Interval>) -> bool {
    forall|i: int, j: int| 0 <= i < j < s.len() ==> precedes(#[trigger] s[i], #[trigger] s[j])
}

/// No two members overlap or touch.
pub open(crate) spec fn coalesced(s: Seq<Interval>) -> bool {
    forall|i: int, j: int|
        0 <= i < s.len() && 0 <= j < s.len() && i != j ==> !(#[trigger] s[i]).is_near(
            #[trigger] s[j],
        )
}

/// No two members share a point.
pub open(crate) spec fn disjoint(s: Seq<Interval>) -> bool {
    forall|i: int, j: int|
        0 <= i < s.len() && 0 <= j < s.len() && i != j ==> !(#[trigger] s[i]).meets(
            #[trigger] s[j],
        )
}

/// The shape every free set keeps between operations.
pub open(crate) spec fn canonical(s: Seq<Interval>) -> bool {
    members_valid(s) && sorted(s) && coalesced(s)
}

/// `p` lies in some member.
pub open(crate) spec fn covers(s: Seq<Interval>, p: int) -> bool {
    exists|i: int| 0 <= i < s.len() && (#[trigger] s[i]).has(p)
}

/// All free points.
pub open(crate) spec fn covered(s: Seq<Interval>) -> Set<int> {
    Set::new(|p: int| covers(s, p))
}

/// The sum of the members' lengths.
pub open(crate) spec fn total_len(s: Seq<Interval>) -> int
    decreases s.len(),
{
    if s.len() == 0 {
        0
    } else {
        total_len(s.drop_last()) + s.last().size()
    }
}

/// `k` is the best fit for `length`: the first member, in the set's order,
/// that is long enough.
pub open(crate) spec fn best_fit(s: Seq<Interval>, length: int, k: int) -> bool {
    &&& 0 <= k < s.len()
    &&& s[k].size() >= length
    &&& forall|j: int| 0 <= j < k ==> (#[trigger] s[j]).size() < length
}

/// Padding that moves `start` up to the next multiple of `align`; none when
/// `align` is zero.
pub open(crate) spec fn pad(start: int, align: int) -> int {
    if align == 0 || start % align == 0 {
        0
    } else {
        align - start % align
    }
}

/// `m` still holds `length` points once its start is aligned.
pub open(crate) spec fn fits_aligned(m: Interval, length: int, align: int) -> bool {
    m.size() >= length + pad(m.lo(), align)
}

/// `k` is the first member, in the set's order, that fits `length` once aligned.
pub open(crate) spec fn best_aligned_fit(s: Seq<Interval>, length: int, align: int, k: int) -> bool {
    &&& 0 <= k < s.len()
    &&& fits_aligned(s[k], length, align)
    &&& forall|j: int| 0 <= j < k ==> !fits_aligned(#[trigger] s[j], length, align)
}

/// Collection of free intervals, kept maximally merged and ordered by
/// `(length, start)`.
///
/// Parts of free intervals can be taken out, and freed intervals put back.
pub struct FreeIntervals {
    members: Vec<Interval>,
}

impl View for FreeIntervals {
    type V = Seq<Interval>;

    /// The free members in ascending `(length, start)` order.
    closed spec fn view(&self) -> Seq<Interval> {
        self.members@
    }
}

/// Removing one member keeps the shape and frees exactly that member's points.
proof fn lemma_remove_member(s: Seq<Interval>, k: int)
    requires
        canonical(s),
        0 <= k < s.len(),
    ensures
        canonical(s.remove(k)),
        covered(s.remove(k)) == covered(s).difference(s[k].points()),
        s[k].points().subset_of(covered(s)),
{
    let r = s.remove(k);
    assert forall|a: int| 0 <= a < r.len() implies r[a] == s[if a < k { a } else { a + 1 }] by {}
    assert forall|a: int, b: int| 0 <= a < b < r.len() implies precedes(r[a], r[b]) by {
        let ia = if a < k { a } else { a + 1 };
        let ib = if b < k { b } else { b + 1 };
        assert(precedes(s[ia], s[ib]));
    }
    assert forall|a: int, b: int|
        0 <= a < r.len() && 0 <= b < r.len() && a != b implies !r[a].is_near(r[b]) by {
        let ia = if a < k { a } else { a + 1 };
        let ib = if b < k { b } else { b + 1 };
        assert(!s[ia].is_near(s[ib]));
    }
    assert forall|p: int| covers(r, p) == (covers(s, p) && !s[k].has(p)) by {
        if covers(r, p) {
            let a = choose|a: int| 0 <= a < r.len() && (#[trigger] r[a]).has(p);
            let ia = if a < k { a } else { a + 1 };
            assert(s[ia].has(p));
            assert(!s[ia].is_near(s[k]));
        }
        if covers(s, p) && !s[k].has(p) {
            let i = choose|i: int| 0 <= i < s.len() && (#[trigger] s[i]).has(p);
            let a = if i < k { i } else { i - 1 };
            assert(r[a].has(p));
        }
    }
    assert(covered(r) =~= covered(s).difference(s[k].points()));
    assert forall|p: int| s[k].points().contains(p) implies covered(s).contains(p) by {
        assert(s[k].has(p));
    }
}

/// The points of an interval form a finite set of its length.
proof fn lemma_points_len(iv: Interval)
    requires
        iv.size() >= 0,
    ensures
        iv.points().finite(),
        iv.points().len() == iv.size(),
{
    lemma_int_range(iv.lo(), iv.hi());
    assert(iv.points() =~= set_int_range(iv.lo(), iv.hi()));
}

/// In a canonical set the free points are finite, and there are as many of
/// them as the members' lengths add up to.
pub proof fn lemma_covered_len(s: Seq<Interval>)
    requires
        canonical(s),
    ensures
        covered(s).finite(),
        covered(s).len() == total_len(s),
    decreases s.len(),
{
    if s.len() == 0 {
        assert(covered(s) =~= Set::empty());
    } else {
        let init = s.drop_last();
        let last = s.last();
        assert forall|a: int| 0 <= a < init.len() implies init[a] == s[a] by {}
        assert(canonical(init));
        lemma_covered_len(init);
        lemma_points_len(last);
        assert forall|p: int| covers(s, p) == (covers(init, p) || last.has(p)) by {
            if covers(s, p) {
                let k = choose|k: int| 0 <= k < s.len() && (#[trigger] s[k]).has(p);
                if k < init.len() {
                    assert(init[k].has(p));
                }
            }
            if covers(init, p) {
                let k = choose|k: int| 0 <= k < init.len() && (#[trigger] init[k]).has(p);
                assert(s[k].has(p));
            }
            if last.has(p) {
                assert(s[s.len() - 1].has(p));
            }
        }
        assert(covered(s) =~= covered(init) + last.points());
        assert forall|p: int| covered(init).contains(p) implies !last.points().contains(p) by {
            let k = choose|k: int| 0 <= k < init.len() && (#[trigger] init[k]).has(p);
            assert(!s[k].is_near(s[s.len() - 1]));
        }
        lemma_set_disjoint_lens(covered(init), last.points());
    }
}

/// Taking the points of `iv` out of a canonical set, when they were all free,
/// shortens the free total by its length.
proof fn lemma_len_after_take(before: Seq<Interval>, after: Seq<Interval>, iv: Interval)
    requires
        canonical(before),
        canonical(after),
        iv.size() >= 0,
        iv.points().subset_of(covered(before)),
        covered(after) == covered(before).difference(iv.points()),
    ensures
        total_len(after) + iv.size() == total_len(before),
{
    lemma_covered_len(before);
    lemma_covered_len(after);
    lemma_points_len(iv);
    lemma_set_difference_len(covered(before), iv.points());
    assert(covered(before).intersect(iv.points()) =~= iv.points());
}

/// Adding the points of `iv`, none of them free yet, lengthens the free total
/// by its length.
proof fn lemma_len_after_insert(before: Seq<Interval>, after: Seq<Interval>, iv: Interval)
    requires
        canonical(before),
        canonical(after),
        iv.size() >= 0,
        covered(before).disjoint(iv.points()),
        covered(after) == covered(before).union(iv.points()),
    ensures
        total_len(after) == total_len(before) + iv.size(),
{
    lemma_covered_len(before);
    lemma_covered_len(after);
    lemma_points_len(iv);
    lemma_set_disjoint_lens(covered(before), iv.points());
}

/// Moving a start up by its padding lands on a multiple of `align`.
proof fn lemma_pad_aligns(start: int, align: int)
    requires
        align > 0,
    ensures
        (start + pad(start, align)) % align == 0,
{
    lemma_fundamental_div_mod(start, align);
    if start % align != 0 {
        assert(start + pad(start, align) == align * (start / align + 1)) by (nonlinear_arith)
            requires
                start == align * (start / align) + start % align,
                pad(start, align) == align - start % align,
        ;
        lemma_mod_multiples_basic(start / align + 1, align);
    }
}

/// The point just below a member, and the point at its end, are not free:
/// each member is a whole run of free points.
proof fn lemma_member_is_maximal(s: Seq<Interval>, i: int)
    requires
        canonical(s),
        0 <= i < s.len(),
    ensures
        !covers(s, s[i].lo() - 1),
        !covers(s, s[i].hi()),
{
    if covers(s, s[i].lo() - 1) {
        let j = choose|j: int| 0 <= j < s.len() && (#[trigger] s[j]).has(s[i].lo() - 1);
        assert(s[i].is_near(s[j]));
    }
    if covers(s, s[i].hi()) {
        let j = choose|j: int| 0 <= j < s.len() && (#[trigger] s[j]).has(s[i].hi());
        assert(s[i].is_near(s[j]));
    }
}

/// Each member of a canonical set is a member of any canonical set with the
/// same free points.
proof fn lemma_member_found(s: Seq<Interval>, t: Seq<Interval>, i: int) -> (j: int)
    requires
        canonical(s),
        canonical(t),
        covered(s) == covered(t),
        0 <= i < s.len(),
    ensures
        0 <= j < t.len(),
        t[j] == s[i],
{
    let m = s[i];
    assert(m.has(m.lo()));
    assert(covered(s).contains(m.lo()));
    assert(covers(t, m.lo()));
    let j = choose|j: int| 0 <= j < t.len() && (#[trigger] t[j]).has(m.lo());
    let n = t[j];
    lemma_member_is_maximal(s, i);
    lemma_member_is_maximal(t, j);
    if n.lo() < m.lo() {
        assert(n.has(m.lo() - 1));
        assert(covered(t).contains(m.lo() - 1));
    }
    if n.hi() > m.hi() {
        assert(n.has(m.hi()));
        assert(covered(t).contains(m.hi()));
    }
    if n.hi() < m.hi() {
        assert(m.has(n.hi()));
        assert(covered(s).contains(n.hi()));
    }
    j
}

/// Two sequences in strictly ascending order that hold the same members
/// are the same sequence.
proof fn lemma_sorted_unique(s: Seq<Interval>, t: Seq<Interval>)
    requires
        sorted(s),
        sorted(t),
        forall|i: int| 0 <= i < s.len() ==> t.contains(#[trigger] s[i]),
        forall|j: int| 0 <= j < t.len() ==> s.contains(#[trigger] t[j]),
    ensures
        s == t,
    decreases s.len(),
{
    if s.len() == 0 {
        if t.len() > 0 {
            assert(s.contains(t[0]));
        }
        assert(s =~= t);
    } else {
        assert(t.contains(s[0]));
        assert(s.contains(t[0]));
        let j0 = choose|j: int| 0 <= j < t.len() && t[j] == s[0];
        let i0 = choose|i: int| 0 <= i < s.len() && s[i] == t[0];
        if j0 > 0 {
            assert(precedes(t[0], t[j0]));
            if i0 > 0 {
                assert(precedes(s[0], s[i0]));
            }
        }
        let s1 = s.drop_first();
        let t1 = t.drop_first();
        assert forall|a: int| 0 <= a < s1.len() implies t1.contains(#[trigger] s1[a]) by {
            assert(s1[a] == s[a + 1]);
            assert(t.contains(s[a + 1]));
            let j = choose|j: int| 0 <= j < t.len() && t[j] == s[a + 1];
            assert(precedes(s[0], s[a + 1]));
            assert(j != 0);
            assert(t1[j - 1] == s1[a]);
        }
        assert forall|b: int| 0 <= b < t1.len() implies s1.contains(#[trigger] t1[b]) by {
            assert(t1[b] == t[b + 1]);
            assert(s.contains(t[b + 1]));
            let i = choose|i: int| 0 <= i < s.len() && s[i] == t[b + 1];
            assert(precedes(t[0], t[b + 1]));
            assert(i != 0);
            assert(s1[i - 1] == t1[b]);
        }
        assert forall|a: int, b: int| 0 <= a < b < s1.len() implies precedes(s1[a], s1[b]) by {
            assert(precedes(s[a + 1], s[b + 1]));
        }
        assert forall|a: int, b: int| 0 <= a < b < t1.len() implies precedes(t1[a], t1[b]) by {
            assert(precedes(t[a + 1], t[b + 1]));
        }
        lemma_sorted_unique(s1, t1);
        assert(s[0] == t[0]);
        assert(s.len() == t.len());
        assert forall|a: int| 0 <= a < s.len() implies s[a] == t[a] by {
            if a > 0 {
                assert(s1[a - 1] == t1[a - 1]);
            }
        }
        assert(s =~= t);
    }
}

/// A free set is fixed by its free points alone: two canonical sequences of
/// members that cover the same points are the same sequence.
pub proof fn lemma_canonical_unique(s: Seq<Interval>, t: Seq<Interval>)
    requires
        canonical(s),
        canonical(t),
        covered(s) == covered(t),
    ensures
        s == t,
{
    assert forall|i: int| 0 <= i < s.len() implies t.contains(#[trigger] s[i]) by {
        let j = lemma_member_found(s, t, i);
    }
    assert forall|j: int| 0 <= j < t.len() implies s.contains(#[trigger] t[j]) by {
        let i = lemma_member_found(t, s, j);
    }
    lemma_sorted_unique(s, t);
}

/// No two free members share a point, and no two of them touch: a set is
/// kept that way by every operation.
pub proof fn lemma_members_disjoint(free: FreeIntervals)
    requires
        free.wf(),
    ensures
        disjoint(free@),
        coalesced(free@),
{
    assert forall|i: int, j: int|
        0 <= i < free@.len() && 0 <= j < free@.len() && i != j implies !free@[i].meets(
        free@[j],
    ) by {
        assert(!free@[i].is_near(free@[j]));
    }
}

/// Freeing what `take_exact` has just returned gives back the set as it was
/// before: `before` is the set that `take_exact` was called on, `taken` the
/// set it left and `t` what it returned, and `after` the set that `insert(t)`
/// left.
pub proof fn lemma_take_exact_insert_round_trip(
    before: FreeIntervals,
    taken: FreeIntervals,
    t: Interval,
    after: FreeIntervals,
)
    requires
        before.wf(),
        taken.wf(),
        after.wf(),
        t.points().subset_of(covered(before@)),
        covered(taken@) == covered(before@).difference(t.points()),
        covered(after@) == covered(taken@).union(t.points()),
    ensures
        after@ == before@,
{
    assert(covered(after@) =~= covered(before@));
    lemma_canonical_unique(after@, before@);
}

impl FreeIntervals {
    /// The shape the set keeps between operations.
    pub open(crate) spec fn wf(&self) -> bool {
        canonical(self@)
    }

    /// A set whose only free interval is `free_interval`; an empty interval
    /// gives an empty set.
    pub fn new(free_interval: Interval) -> (r: Self)
        requires
            free_interval.wf(),
        ensures
            r.wf(),
            r@ == (if free_interval.size() == 0 {
                Seq::<Interval>::empty()
            } else {
                seq![free_interval]
            }),
    {
        let mut members: Vec<Interval> = Vec::new();
        if free_interval.length > 0 {
            members.push(free_interval);
        }
        FreeIntervals { members }
    }

    /// The set keeps no record of an earlier state, so there is nothing to
    /// restore: the set is left as it is.
    pub fn clear(&mut self)
        ensures
            final(self)@ == old(self)@,
    {
    }

    /// The free members, one by one in ascending `(length, start)` order
    /// (not in address order).
    pub fn iter(&self) -> (r: std::slice::Iter<'_, Interval>)
        ensures
            into_iter_elts(r) == self@,
    {
        self.members.as_slice().iter()
    }

    /// Takes out the best fit for `length`, the shortest member that holds at
    /// least `length` points (the lowest start among equals), and returns it
    /// whole. `None` when no member is long enough.
    pub fn take_enough(&mut self, length: u64) -> (r: Option<Interval>)
        requires
            old(self).wf(),
        ensures
            final(self).wf(),
            r is None <==> (forall|j: int|
                0 <= j < old(self)@.len() ==> (#[trigger] old(self)@[j]).size() < length),
            r is None ==> final(self)@ == old(self)@,
            r matches Some(c) ==> exists|k: int|
                best_fit(old(self)@, length as int, k) && c == old(self)@[k] && final(self)@
                    == old(self)@.remove(k),
            r matches Some(c) ==> forall|j: int|
                0 <= j < old(self)@.len() && (#[trigger] old(self)@[j]).size() >= length ==> c
                    == old(self)@[j] || precedes(c, old(self)@[j]),
            r matches Some(c) ==> c.points().subset_of(covered(old(self)@)) && covered(final(self)@)
                == covered(old(self)@).difference(c.points()) && total_len(final(self)@) + c.size()
                == total_len(old(self)@),
    {
        let ghost before = self@;
        let mut i: usize = 0;
        while i < self.members.len()
            invariant
                self@ == before,
                before == old(self)@,
                canonical(before),
                0 <= i <= before.len(),
                forall|j: int| 0 <= j < i ==> (#[trigger] before[j]).size() < length,
            decreases before.len() - i,
        {
            if self.members[i].length >= length {
                assert(before[i as int].size() >= length);
                let c = self.members.remove(i);
                proof {
                    lemma_remove_member(before, i as int);
                    lemma_len_after_take(before, self@, c);
                    assert(best_fit(before, length as int, i as int));
                    assert(c == before[i as int] && self@ == before.remove(i as int));
                }
                return Some(c);
            }
            i = i + 1;
        }
        None
    }

    /// Frees `interval`: adds its points to the set, merging it with every
    /// member that it overlaps or touches. Points that are free already may be
    /// freed again: they merge like the others. An empty interval changes
    /// nothing.
    pub fn insert(&mut self, interval: Interval)
        requires
            old(self).wf(),
            interval.wf(),
        ensures
            final(self).wf(),
            covered(final(self)@) == covered(old(self)@).union(interval.points()),
            covered(old(self)@).disjoint(interval.points()) ==> total_len(final(self)@) == total_len(
                old(self)@,
            ) + interval.size(),
    {
        let ghost before = self@;
        if interval.length == 0 {
            assert(covered(before) =~= covered(before).union(interval.points()));
            return;
        }
        let mut merged = interval;
        let mut kept: Vec<Interval> = Vec::new();
        let mut i: usize = 0;
        while i < self.members.len()
            invariant
                self@ == before,
                before == old(self)@,
                canonical(before),
                interval.wf(),
                interval.size() > 0,
                0 <= i <= before.len(),
                merged.wf(),
                merged.lo() <= interval.lo(),
                merged.hi() >= interval.hi(),
                canonical(kept@),
                forall|k: int, j: int|
                    0 <= k < kept@.len() && i <= j < before.len() ==> precedes(
                        #[trigger] kept@[k],
                        #[trigger] before[j],
                    ) && !kept@[k].is_near(before[j]),
                forall|k: int| 0 <= k < kept@.len() ==> !(#[trigger] kept@[k]).is_near(merged),
                forall|j: int|
                    i <= j < before.len() && !(#[trigger] before[j]).is_near(interval)
                        ==> !before[j].is_near(merged),
                forall|p: int|
                    (covers(kept@, p) || merged.has(p)) == ((exists|j: int|
                        0 <= j < i && (#[trigger] before[j]).has(p)) || interval.has(p)),
            decreases before.len() - i,
        {
            let m = self.members[i];
            let ghost prev_kept = kept@;
            let ghost prev_merged = merged;
            if interval.near(&m) {
                merged = merged.connect(&m);
                assert forall|p: int|
                    (covers(kept@, p) || merged.has(p)) == ((exists|j: int|
                        0 <= j < i + 1 && (#[trigger] before[j]).has(p)) || interval.has(p)) by {
                    if exists|j: int| 0 <= j < i + 1 && (#[trigger] before[j]).has(p) {
                        let j = choose|j: int| 0 <= j < i + 1 && (#[trigger] before[j]).has(p);
                        if j < i {
                            assert(covers(kept@, p) || prev_merged.has(p));
                        }
                    }
                    if prev_merged.has(p) && !interval.has(p) {
                        assert(exists|j: int| 0 <= j < i && (#[trigger] before[j]).has(p));
                    }
                }
            } else {
                kept.push(m);
                assert(kept@[kept@.len() - 1] == m);
                assert forall|k: int| 0 <= k < prev_kept.len() implies kept@[k] == prev_kept[k] by {}
                assert forall|p: int|
                    (covers(kept@, p) || merged.has(p)) == ((exists|j: int|
                        0 <= j < i + 1 && (#[trigger] before[j]).has(p)) || interval.has(p)) by {
                    if covers(kept@, p) {
                        let k = choose|k: int| 0 <= k < kept@.len() && (#[trigger] kept@[k]).has(p);
                        if k < prev_kept.len() {
                            assert(covers(prev_kept, p));
                        } else {
                            assert(before[i as int].has(p));
                        }
                    }
                    if covers(prev_kept, p) {
                        let k = choose|k: int| 0 <= k < prev_kept.len() && (#[trigger] prev_kept[k]).has(p);
                        assert(kept@[k].has(p));
                    }
                    if exists|j: int| 0 <= j < i + 1 && (#[trigger] before[j]).has(p) {
                        let j = choose|j: int| 0 <= j < i + 1 && (#[trigger] before[j]).has(p);
                        if j == i {
                            assert(kept@[kept@.len() - 1].has(p));
                        }
                    }
                }
            }
            i = i + 1;
        }
        let mut pos: usize = 0;
        while pos < kept.len() && Self::comes_before(&kept[pos], &merged)
            invariant
                0 <= pos <= kept@.len(),
                forall|k: int| 0 <= k < pos ==> precedes(#[trigger] kept@[k], merged),
            decreases kept@.len() - pos,
        {
            pos = pos + 1;
        }
        let ghost rest = kept@;
        kept.insert(pos, merged);
        self.members = kept;
        proof {
            assert(before.take(before.len() as int) == before);
            let s = self@;
            assert forall|k: int| 0 <= k < s.len() implies s[k] == (if k < pos {
                rest[k]
            } else if k == pos {
                merged
            } else {
                rest[k - 1]
            }) by {}
            assert forall|p: int| covers(s, p) == (covers(rest, p) || merged.has(p)) by {
                if covers(s, p) {
                    let k = choose|k: int| 0 <= k < s.len() && (#[trigger] s[k]).has(p);
                    if k < pos {
                        assert(rest[k].has(p));
                    } else if k > pos {
                        assert(rest[k - 1].has(p));
                    }
                }
                if covers(rest, p) {
                    let k = choose|k: int| 0 <= k < rest.len() && (#[trigger] rest[k]).has(p);
                    if k < pos {
                        assert(s[k].has(p));
                    } else {
                        assert(s[k + 1].has(p));
                    }
                }
                if merged.has(p) {
                    assert(s[pos as int].has(p));
                }
                if covers(before, p) {
                    let j = choose|j: int| 0 <= j < before.len() && (#[trigger] before[j]).has(p);
                    assert(exists|j: int| 0 <= j < before.len() && (#[trigger] before[j]).has(p));
                }
            }
            assert(covered(s) =~= covered(before).union(interval.points()));
            if covered(before).disjoint(interval.points()) {
                lemma_len_after_insert(before, s, interval);
            }
        }
    }

    /// Takes out the best fit for `length` (see `take_enough`) and returns
    /// its first `length` points; the rest of it stays free. `None` when no
    /// member is long enough.
    pub fn take_exact(&mut self, length: u64) -> (r: Option<Interval>)
        requires
            old(self).wf(),
        ensures
            final(self).wf(),
            r is None <==> (forall|j: int|
                0 <= j < old(self)@.len() ==> (#[trigger] old(self)@[j]).size() < length),
            r is None ==> final(self)@ == old(self)@,
            r matches Some(t) ==> exists|k: int|
                best_fit(old(self)@, length as int, k) && t.lo() == old(self)@[k].lo(),
            r matches Some(t) ==> t.size() == length && t.wf(),
            r matches Some(t) ==> t.points().subset_of(covered(old(self)@)) && covered(final(self)@)
                == covered(old(self)@).difference(t.points()) && total_len(final(self)@) + t.size()
                == total_len(old(self)@),
    {
        let ghost before = self@;
        match self.take_enough(length) {
            None => None,
            Some(c) => {
                let ghost k = choose|k: int|
                    best_fit(before, length as int, k) && c == before[k] && self@ == before.remove(k);
                proof {
                    lemma_remove_member(before, k);
                }
                if c.length > length {
                    let (req, extra) = c.split(length);
                    let ghost taken = self@;
                    self.insert(extra);
                    proof {
                        assert(covered(self@) =~= covered(before).difference(req.points()));
                        lemma_len_after_take(before, self@, req);
                    }
                    Some(req)
                } else {
                    Some(c)
                }
            },
        }
    }

    /// Padding that moves the start of `iv` up to a multiple of `align`.
    fn align_pad(iv: &Interval, align: u64) -> (r: u64)
        ensures
            r == pad(iv.lo(), align as int),
    {
        if align == 0 {
            return 0;
        }
        let rem = iv.start % align;
        if rem == 0 {
            return 0;
        }
        align - rem
    }

    /// Takes out the first member, in the set's order, that still holds
    /// `length` points once its start is moved up to a multiple of `align`,
    /// and returns it whole. An `align` of zero asks for no alignment.
    /// `None` when no member fits.
    pub fn take_enough_aligned(&mut self, length: u64, align: u64) -> (r: Option<Interval>)
        requires
            old(self).wf(),
        ensures
            final(self).wf(),
            r is None <==> (forall|j: int|
                0 <= j < old(self)@.len() ==> !fits_aligned(
                    #[trigger] old(self)@[j],
                    length as int,
                    align as int,
                )),
            r is None ==> final(self)@ == old(self)@,
            r matches Some(c) ==> exists|k: int|
                best_aligned_fit(old(self)@, length as int, align as int, k) && c == old(self)@[k]
                    && final(self)@ == old(self)@.remove(k),
            r matches Some(c) ==> c.points().subset_of(covered(old(self)@)) && covered(final(self)@)
                == covered(old(self)@).difference(c.points()) && total_len(final(self)@) + c.size()
                == total_len(old(self)@),
    {
        let ghost before = self@;
        let mut i: usize = 0;
        while i < self.members.len()
            invariant
                self@ == before,
                before == old(self)@,
                canonical(before),
                0 <= i <= before.len(),
                forall|j: int|
                    0 <= j < i ==> !fits_aligned(#[trigger] before[j], length as int, align as int),
            decreases before.len() - i,
        {
            let m = self.members[i];
            let pad = Self::align_pad(&m, align);
            if pad <= m.length && m.length - pad >= length {
                assert(fits_aligned(before[i as int], length as int, align as int));
                let c = self.members.remove(i);
                proof {
                    lemma_remove_member(before, i as int);
                    lemma_len_after_take(before, self@, c);
                    assert(best_aligned_fit(before, length as int, align as int, i as int));
                    assert(c == before[i as int] && self@ == before.remove(i as int));
                }
                return Some(c);
            }
            i = i + 1;
        }
        None
    }

    /// Takes out the member chosen by `take_enough_aligned` and returns
    /// `length` points of it that start at a multiple of `align`, right
    /// after the padding. The padding before them and whatever lies after
    /// them stay free.
    pub fn take_exact_aligned(&mut self, length: u64, align: u64) -> (r: Option<Interval>)
        requires
            old(self).wf(),
        ensures
            final(self).wf(),
            r is None <==> (forall|j: int|
                0 <= j < old(self)@.len() ==> !fits_aligned(
                    #[trigger] old(self)@[j],
                    length as int,
                    align as int,
                )),
            r is None ==> final(self)@ == old(self)@,
            r matches Some(t) ==> exists|k: int|
                best_aligned_fit(old(self)@, length as int, align as int, k) && t.lo() == old(
                    self,
                )@[k].lo() + pad(old(self)@[k].lo(), align as int),
            r matches Some(t) ==> t.size() == length && t.wf(),
            r matches Some(t) ==> align > 0 ==> t.lo() % (align as int) == 0,
            r matches Some(t) ==> t.points().subset_of(covered(old(self)@)) && covered(final(self)@)
                == covered(old(self)@).difference(t.points()) && total_len(final(self)@) + t.size()
                == total_len(old(self)@),
    {
        let ghost before = self@;
        match self.take_enough_aligned(length, align) {
            None => None,
            Some(c) => {
                let ghost k = choose|k: int|
                    best_aligned_fit(before, length as int, align as int, k) && c == before[k]
                        && self@ == before.remove(k);
                proof {
                    lemma_remove_member(before, k);
                }
                let pad = Self::align_pad(&c, align);
                if pad > 0 {
                    let head = Interval::new(c.start, pad);
                    self.insert(head);
                }
                let rest = Interval::new(c.start + pad, c.length - pad);
                proof {
                    assert(covered(self@) =~= covered(before).difference(rest.points()));
                    if align > 0 {
                        lemma_pad_aligns(c.lo(), align as int);
                    }
                }
                if rest.length > length {
                    let (req, extra) = rest.split(length);
                    self.insert(extra);
                    proof {
                        assert(covered(self@) =~= covered(before).difference(req.points()));
                        lemma_len_after_take(before, self@, req);
                    }
                    Some(req)
                } else {
                    proof {
                        lemma_len_after_take(before, self@, rest);
                    }
                    Some(rest)
                }
            },
        }
    }

    /// `a` comes before `b` in the set's order.
    fn comes_before(a: &Interval, b: &Interval) -> (r: bool)
        ensures
            r == precedes(*a, *b),
    {
        a.length < b.length || (a.length == b.length && a.start < b.start)
    }
}

impl Default for FreeIntervals {
    /// A set with no free interval.
    fn default() -> (r: Self)
        ensures
            r.wf(),
            r@ == Seq::<Interval>::empty(),
    {
        FreeIntervals { members: Vec::new() }
    }
}

} // verus!
