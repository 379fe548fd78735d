//! Candidate ranges and their expansion from a flat `(start, length)` list.

use crate::range::{Interval, Range};
use vstd::prelude::*;

verus! {

/// Why a flat seed list cannot be read as `(start, length)` pairs.
#[derive(Clone, Copy, Debug, PartialEq, Eq)]
pub enum InvalidInputError {
    /// The list has an odd number of values, so the last start has no length.
    OddLength,
    /// A length is zero or negative.
    NonPositiveLength,
    /// `start + length` is larger than any `i64`.
    RangeOverflow,
}

/// What is wrong with the pair `(start, len)`, if anything.
pub open spec fn pair_error(start: int, len: int) -> Option<InvalidInputError> {
    if len <= 0 {
        Some(InvalidInputError::NonPositiveLength)
    } else if start + len > i64::MAX {
        Some(InvalidInputError::RangeOverflow)
    } else {
        None
    }
}

/// What is wrong with the `k`-th pair of the flat list `s`, if anything.
pub open spec fn pair_error_at(s: Seq<i64>, k: int) -> Option<InvalidInputError> {
    pair_error(s[2 * k] as int, s[2 * k + 1] as int)
}

/// The interval that the `k`-th pair of the flat list `s` stands for.
pub open spec fn pair_interval(s: Seq<i64>, k: int) -> Interval {
    Interval { start: s[2 * k] as int, end: s[2 * k] + s[2 * k + 1] }
}

/// The flat list `s` is an even number of values whose pairs are all valid.
pub open spec fn expandable(s: Seq<i64>) -> bool {
    &&& s.len() % 2 == 0
    &&& forall|k: int| 0 <= k < s.len() / 2 ==> (#[trigger] pair_error_at(s, k)).is_none()
}

/// The intervals of an expandable list, one per pair and in the same order.
pub open spec fn expanded(s: Seq<i64>) -> Seq<Interval> {
    Seq::new(s.len() / 2, |k: int| pair_interval(s, k))
}

/// The error that expansion of `s` reports: an odd length first, otherwise
/// whatever is wrong with the first invalid pair.
pub open spec fn expansion_error(s: Seq<i64>, e: InvalidInputError) -> bool {
    if s.len() % 2 != 0 {
        e == InvalidInputError::OddLength
    } else {
        exists|k: int|
            {
                &&& 0 <= k < s.len() / 2
                &&& #[trigger] pair_error_at(s, k) == Some(e)
                &&& forall|j: int| 0 <= j < k ==> (#[trigger] pair_error_at(s, j)).is_none()
            }
    }
}

/// A non-empty range of candidate values, given by its start and length.
#[derive(Clone, Copy, Debug, PartialEq, Eq)]
pub struct SeedRange {
    start: i64,
    length: i64,
}

impl View for SeedRange {
    type V = Interval;

    closed spec fn view(&self) -> Interval {
        Interval { start: self.start as int, end: self.start + self.length }
    }
}

impl SeedRange {
    /// Holds of every seed range that `new` hands out: it is not empty and
    /// its bounds are values of `i64`.
    pub open spec fn wf(&self) -> bool {
        self@.start < self@.end && self@.fits_i64()
    }

    /// The range of `length` values from `start` on.
    pub fn new(start: i64, length: i64) -> (r: Result<SeedRange, InvalidInputError>)
        ensures
            match r {
                Ok(range) => {
                    &&& pair_error(start as int, length as int).is_none()
                    &&& range.wf()
                    &&& range@ == (Interval { start: start as int, end: start + length })
                },
                Err(e) => pair_error(start as int, length as int) == Some(e),
            },
    {
        if length <= 0 {
            return Err(InvalidInputError::NonPositiveLength);
        }
        match start.checked_add(length) {
            Some(_) => Ok(SeedRange { start, length }),
            None => Err(InvalidInputError::RangeOverflow),
        }
    }

    pub fn start(&self) -> (s: i64)
        ensures
            s == self@.start,
    {
        self.start
    }

    /// Number of values in the range.
    pub fn length(&self) -> (n: i64)
        requires
            self.wf(),
        ensures
            n == self@.end - self@.start,
            n > 0,
    {
        self.length
    }

    /// One past the last value.
    pub fn end(&self) -> (e: i64)
        requires
            self.wf(),
        ensures
            e == self@.end,
    {
        self.start + self.length
    }

    /// The same values as a plain range.
    pub fn to_range(&self) -> (r: Range)
        requires
            self.wf(),
        ensures
            r.wf(),
            r@ == self@,
    {
        let end = self.start + self.length;
        let r = Range::new(self.start, end);
        r.unwrap()
    }
}

/// The intervals that a list of seed ranges stands for.
pub open spec fn seed_intervals(ranges: Seq<SeedRange>) -> Seq<Interval> {
    Seq::new(ranges.len(), |k: int| ranges[k]@)
}

/// Reads `seeds` as consecutive `(start, length)` pairs and returns one range
/// per pair, in the order of the pairs. Ranges may overlap one another.
///
/// Fails when the list has odd length, and otherwise at the first pair whose
/// length is not positive or whose end is not an `i64`.
pub fn expand_ranges(seeds: &Vec<i64>) -> (r: Result<Vec<SeedRange>, InvalidInputError>)
    ensures
        r.is_ok() <==> expandable(seeds@),
        r matches Ok(ranges) ==> {
            &&& ranges@.len() == seeds@.len() / 2
            &&& forall|k: int| 0 <= k < ranges@.len() ==> (#[trigger] ranges@[k]).wf()
            &&& seed_intervals(ranges@) == expanded(seeds@)
        },
        r matches Err(e) ==> expansion_error(seeds@, e),
{
    let n = seeds.len();
    if n % 2 != 0 {
        return Err(InvalidInputError::OddLength);
    }
    let pairs = n / 2;
    let mut ranges: Vec<SeedRange> = Vec::new();
    let mut k: usize = 0;
    while k < pairs
        invariant
            k <= pairs,
            n == seeds@.len(),
            n % 2 == 0,
            pairs == n / 2,
            ranges@.len() == k,
            forall|j: int| 0 <= j < k ==> (#[trigger] pair_error_at(seeds@, j)).is_none(),
            forall|j: int| 0 <= j < k ==> (#[trigger] ranges@[j]).wf(),
            forall|j: int| 0 <= j < k ==> (#[trigger] ranges@[j])@ == pair_interval(seeds@, j),
        decreases pairs - k,
    {
        let start = seeds[2 * k];
        let length = seeds[2 * k + 1];
        match SeedRange::new(start, length) {
            Ok(range) => {
                ranges.push(range);
            },
            Err(e) => {
                assert(pair_error_at(seeds@, k as int) == Some(e));
                return Err(e);
            },
        }
        k += 1;
    }
    assert(seed_intervals(ranges@) =~= expanded(seeds@));
    Ok(ranges)
}

} // verus!
