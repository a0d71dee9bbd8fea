use vstd::prelude::*;

verus! {

/// A half-open range of integers `[start, start + length)`.
///
/// An interval is a value: operations build new intervals and never change
/// the one they are called on. Every interval that can be built has its end
/// within `u64`, so `end()` never overflows.
#[derive(Clone, Copy, Debug, PartialEq, Eq, Structural, Hash)]
pub struct Interval {
    pub(crate) start: u64,
    pub(crate) length: u64,
}

impl Interval {
    /// First point, as a mathematical integer.
    pub open(crate) spec fn lo(self) -> int {
        self.start as int
    }

    /// The point just past the last one.
    pub open(crate) spec fn hi(self) -> int {
        self.start + self.length
    }

    /// Number of points.
    pub open(crate) spec fn size(self) -> int {
        self.length as int
    }

    /// The end fits in `u64`.
    pub open(crate) spec fn wf(self) -> bool {
        self.hi() <= u64::MAX
    }

    pub open(crate) spec fn has(self, p: int) -> bool {
        self.lo() <= p < self.hi()
    }

    /// The set of points covered.
    pub open(crate) spec fn points(self) -> Set<int> {
        Set::new(|p: int| self.has(p))
    }

    /// No integer lies strictly between the two intervals: they overlap or touch.
    pub open(crate) spec fn is_near(self, other: Interval) -> bool {
        self.lo() <= other.hi() && other.lo() <= self.hi()
    }

    /// The two intervals share at least one point.
    pub open(crate) spec fn meets(self, other: Interval) -> bool {
        &&& self.lo() < other.hi()
        &&& other.lo() < self.hi()
        &&& self.lo() < self.hi()
        &&& other.lo() < other.hi()
    }

    /// The smallest interval that covers both.
    pub open(crate) spec fn hull(self, other: Interval) -> Interval {
        let lo = if self.start <= other.start { self.start } else { other.start };
        let hi = if self.hi() >= other.hi() { self.hi() } else { other.hi() };
        Interval { start: lo, length: (hi - lo) as u64 }
    }

    /// Builds `[start, start + length)`.
    pub fn new(start: u64, length: u64) -> (r: Self)
        requires
            start + length <= u64::MAX,
        ensures
            r.lo() == start,
            r.size() == length,
            r.wf(),
    {
        Interval { start, length }
    }

    /// Number of points in `self`.
    pub fn len(&self) -> (r: u64)
        ensures
            r == self.size(),
    {
        self.length
    }

    /// True when `self` holds no point.
    pub fn is_empty(&self) -> (r: bool)
        ensures
            r == (self.size() == 0),
    {
        self.length == 0
    }

    /// First point of `self`.
    pub fn start(&self) -> (r: u64)
        ensures
            r == self.lo(),
    {
        self.start
    }

    /// The point just past the last one of `self`.
    pub fn end(&self) -> (r: u64)
        requires
            self.wf(),
        ensures
            r == self.hi(),
    {
        self.start + self.length
    }

    /// True when `p` is one of the points of `self`.
    pub fn contains(&self, p: u64) -> (r: bool)
        requires
            self.wf(),
        ensures
            r == self.has(p as int),
    {
        p >= self.start && p < self.end()
    }

    /// True when `self` and `other` share at least one point.
    ///
    /// The bounding interval of two intervals is shorter than their two lengths
    /// together exactly when they overlap.
    pub fn intersect(&self, other: &Self) -> (r: bool)
        requires
            self.wf(),
            other.wf(),
        ensures
            r == self.meets(*other),
    {
        let connected = self.connect(other);
        connected.length - self.length < other.length
    }

    /// True when no integer lies between `self` and `other`.
    ///
    /// The bounding interval is at most as long as the two lengths together
    /// exactly when there is no gap.
    pub fn near(&self, other: &Self) -> (r: bool)
        requires
            self.wf(),
            other.wf(),
        ensures
            r == self.is_near(*other),
    {
        let connected = self.connect(other);
        connected.length - self.length <= other.length
    }

    /// The interval from the smaller start to the larger end, whether or not
    /// the two touch.
    pub fn connect(&self, other: &Self) -> (r: Self)
        requires
            self.wf(),
            other.wf(),
        ensures
            r == self.hull(*other),
            r.wf(),
            r.size() >= self.size(),
            r.size() >= other.size(),
    {
        let min_start = if self.start <= other.start { self.start } else { other.start };
        let max_end = if self.end() >= other.end() { self.end() } else { other.end() };
        Interval::new(min_start, max_end - min_start)
    }

    /// Cuts `self` into `[start, start + length)` and `[start + length, end)`.
    pub fn split(&self, length: u64) -> (r: (Self, Self))
        requires
            self.wf(),
            length <= self.size(),
        ensures
            r.0.lo() == self.lo(),
            r.0.size() == length,
            r.1.lo() == self.lo() + length,
            r.1.size() == self.size() - length,
            r.0.wf(),
            r.1.wf(),
    {
        let left = Self::new(self.start, length);
        let right = Self::new(self.start + length, self.length - length);
        (left, right)
    }

    /// The union of `self` and `other` when they are near, else `None`.
    pub fn try_join(&self, other: &Self) -> (r: Option<Self>)
        requires
            self.wf(),
            other.wf(),
        ensures
            r == (if self.is_near(*other) {
                Some(self.hull(*other))
            } else {
                None
            }),
    {
        if self.near(other) {
            Some(self.connect(other))
        } else {
            None
        }
    }

    /// The points of `self`, one by one in ascending order.
    pub fn iter(&self) -> (r: IntervalIterator)
        requires
            self.wf(),
        ensures
            r@ == self.point_seq(),
    {
        IntervalIterator { next: self.start, end: self.end() }
    }

    /// The points of `self` in ascending order.
    pub open(crate) spec fn point_seq(self) -> Seq<u64> {
        Seq::new(self.length as nat, |i: int| (self.start + i) as u64)
    }
}

/// Builds the interval that holds the same points as a `Range`; a range whose
/// end lies before its start holds none.
impl From<std::ops::Range<u64>> for Interval {
    fn from(range: std::ops::Range<u64>) -> (r: Self) {
        let length = if range.end >= range.start { range.end - range.start } else { 0 };
        Interval { start: range.start, length }
    }
}

impl vstd::std_specs::convert::FromSpecImpl<std::ops::Range<u64>> for Interval {
    open spec fn obeys_from_spec() -> bool {
        true
    }

    closed spec fn from_spec(range: std::ops::Range<u64>) -> Interval {
        Interval {
            start: range.start,
            length: if range.end >= range.start { (range.end - range.start) as u64 } else { 0 },
        }
    }
}

/// Walks the points of an interval in ascending order.
pub struct IntervalIterator {
    pub(crate) next: u64,
    pub(crate) end: u64,
}

impl View for IntervalIterator {
    type V = Seq<u64>;

    /// The points not handed out yet.
    closed spec fn view(&self) -> Seq<u64> {
        Seq::new(
            if self.next <= self.end { (self.end - self.next) as nat } else { 0 },
            |i: int| (self.next + i) as u64,
        )
    }
}

impl IntervalIterator {
    /// Hands out the next point, or `None` once all were handed out.
    pub fn next(&mut self) -> (r: Option<u64>)
        ensures
            old(self)@.len() == 0 ==> r is None && final(self)@ == old(self)@,
            old(self)@.len() > 0 ==> r == Some(old(self)@[0]) && final(self)@ == old(
                self,
            )@.drop_first(),
    {
        if self.next < self.end {
            let p = self.next;
            self.next = self.next + 1;
            Some(p)
        } else {
            None
        }
    }
}

} // verus!
