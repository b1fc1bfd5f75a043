//! Closed ranges of modification times.
use vstd::prelude::*;

verus! {

/// A closed range `[lo, hi]` of modification times; empty when `lo > hi`.
#[derive(Debug, Clone, Copy, PartialEq, Eq)]
pub struct Interval {
    pub lo: i64,
    pub hi: i64,
}

impl Interval {
    /// The interval holds no value at all.
    pub open spec fn spec_is_empty(&self) -> bool {
        self.lo > self.hi
    }

    /// `p` lies within the interval.
    pub open spec fn spec_contains(&self, p: int) -> bool {
        self.lo <= p <= self.hi
    }

    /// Some value lies in both intervals.
    pub open spec fn spec_overlaps(&self, other: &Interval) -> bool {
        !self.spec_is_empty() && !other.spec_is_empty() && self.lo <= other.hi && other.lo <= self.hi
    }

    pub fn is_empty(&self) -> (r: bool)
        ensures
            r == self.spec_is_empty(),
            r <==> forall|p: int| !self.spec_contains(p),
    {
        if self.lo > self.hi {
            true
        } else {
            assert(self.spec_contains(self.lo as int));
            false
        }
    }

    /// Widens the interval so that it reaches `val`: the upper end becomes the
    /// larger of `hi` and `val`, the lower end the smaller of `lo` and `val`.
    pub fn expand(&mut self, val: &i64)
        ensures
            final(self).hi == if *val > old(self).hi { *val } else { old(self).hi },
            final(self).lo == if *val < old(self).lo { *val } else { old(self).lo },
            final(self).spec_contains(*val as int),
            forall|p: int| old(self).spec_contains(p) ==> final(self).spec_contains(p),
    {
        if *val > self.hi {
            self.hi = *val;
        }
        if *val < self.lo {
            self.lo = *val;
        }
    }

    pub fn overlaps(&self, other: &Interval) -> (r: bool)
        ensures
            r == self.spec_overlaps(other),
            r <==> exists|p: int| self.spec_contains(p) && other.spec_contains(p),
    {
        let r = self.lo <= self.hi && other.lo <= other.hi && self.lo <= other.hi && other.lo <= self.hi;
        if r {
            let p = if self.lo > other.lo { self.lo } else { other.lo };
            assert(self.spec_contains(p as int) && other.spec_contains(p as int));
        }
        r
    }

    pub fn contains(&self, p: &i64) -> (r: bool)
        ensures
            r == self.spec_contains(*p as int),
    {
        self.lo <= *p && *p <= self.hi
    }
}

} // verus!
