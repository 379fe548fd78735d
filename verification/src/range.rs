//! Half-open integer ranges and their mathematical model.

use vstd::prelude::*;

verus! {

/// The half-open interval `[start, end)` of mathematical integers.
pub struct Interval {
    pub start: int,
    pub end: int,
}

impl Interval {
    /// The bounds are in order; the interval may be empty.
    pub open spec fn wf(self) -> bool {
        self.start <= self.end
    }

    /// Both bounds are values of `i64`.
    pub open spec fn fits_i64(self) -> bool {
        i64::MIN <= self.start <= i64::MAX && i64::MIN <= self.end <= i64::MAX
    }

    pub open spec fn contains(self, v: int) -> bool {
        self.start <= v < self.end
    }

    pub open spec fn is_empty(self) -> bool {
        self.end <= self.start
    }

    /// Number of integers in the interval.
    pub open spec fn len(self) -> nat {
        if self.start <= self.end {
            (self.end - self.start) as nat
        } else {
            0
        }
    }

    /// The two intervals share at least one integer.
    pub open spec fn overlaps(self, other: Interval) -> bool {
        self.start < other.end && other.start < self.end && self.start < self.end && other.start
            < other.end
    }
}

/// `overlaps` holds exactly when some integer lies in both intervals.
pub proof fn lemma_overlaps_iff_common_point(a: Interval, b: Interval)
    ensures
        a.overlaps(b) <==> exists|v: int| a.contains(v) && b.contains(v),
{
    if a.overlaps(b) {
        let v = if a.start >= b.start {
            a.start
        } else {
            b.start
        };
        assert(a.contains(v) && b.contains(v));
    }
}

/// A half-open range `[start, end)` of `i64` values with `start <= end`.
#[derive(Clone, Copy, Debug, PartialEq, Eq)]
pub struct Range {
    start: i64,
    end: i64,
}

impl View for Range {
    type V = Interval;

    closed spec fn view(&self) -> Interval {
        Interval { start: self.start as int, end: self.end as int }
    }
}

impl Range {
    /// Holds of every range that `new` hands out.
    pub open spec fn wf(&self) -> bool {
        self@.wf() && self@.fits_i64()
    }

    /// The range `[start, end)`, or `None` when `start > end`.
    pub fn new(start: i64, end: i64) -> (r: Option<Range>)
        ensures
            r.is_some() <==> start <= end,
            r matches Some(range) ==> range.wf() && range@ == (Interval {
                start: start as int,
                end: end as int,
            }),
    {
        if start <= end {
            Some(Range { start, end })
        } else {
            None
        }
    }

    /// The range of `len` values from `start` on; `None` when `len` is
    /// negative or the end is not an `i64`.
    pub fn with_len(start: i64, len: i64) -> (r: Option<Range>)
        ensures
            r.is_some() <==> 0 <= len && start + len <= i64::MAX,
            r matches Some(range) ==> range.wf() && range@ == (Interval {
                start: start as int,
                end: start + len,
            }),
    {
        if len < 0 {
            return None;
        }
        match start.checked_add(len) {
            Some(end) => Some(Range { start, end }),
            None => None,
        }
    }

    pub fn start(&self) -> (s: i64)
        ensures
            s == self@.start,
    {
        self.start
    }

    pub fn end(&self) -> (e: i64)
        ensures
            e == self@.end,
    {
        self.end
    }

    pub fn is_empty(&self) -> (b: bool)
        ensures
            b == self@.is_empty(),
    {
        self.end <= self.start
    }

    /// Number of values in the range.
    pub fn len(&self) -> (n: u64)
        requires
            self.wf(),
        ensures
            n == self@.len(),
    {
        let width: i128 = self.end as i128 - self.start as i128;
        width as u64
    }

    pub fn contains(&self, v: i64) -> (b: bool)
        ensures
            b == self@.contains(v as int),
    {
        self.start <= v && v < self.end
    }

    /// Whether some value lies in both ranges.
    pub fn overlaps(&self, other: &Range) -> (b: bool)
        ensures
            b == self@.overlaps(other@),
    {
        self.start < other.end && other.start < self.end && self.start < self.end && other.start
            < other.end
    }
}

} // verus!
