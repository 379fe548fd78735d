//! A single source-to-destination range mapping.

use crate::range::{Interval, Range};
use vstd::prelude::*;

verus! {

/// Model of a mapping: the integers of `source` move, in order, onto `dest`.
pub struct MappingView {
    pub source: Interval,
    pub dest: Interval,
}

impl MappingView {
    /// Both intervals are in order and equally long.
    pub open spec fn wf(self) -> bool {
        &&& self.source.wf()
        &&& self.dest.wf()
        &&& self.dest.end - self.dest.start == self.source.end - self.source.start
    }

    pub open spec fn fits_i64(self) -> bool {
        self.source.fits_i64() && self.dest.fits_i64()
    }

    /// `v` lies in the source interval.
    pub open spec fn covers(self, v: int) -> bool {
        self.source.contains(v)
    }

    /// Where a covered value goes.
    pub open spec fn apply(self, v: int) -> int {
        self.dest.start + (v - self.source.start)
    }
}

/// A pair of equally long ranges: values of `source` shift onto `dest`.
#[derive(Clone, Copy, Debug, PartialEq, Eq)]
pub struct IntervalMapping {
    source: Range,
    dest: Range,
}

impl View for IntervalMapping {
    type V = MappingView;

    closed spec fn view(&self) -> MappingView {
        MappingView { source: self.source@, dest: self.dest@ }
    }
}

/// The models of a list of mappings, in the same order.
pub open spec fn mapping_views(mappings: Seq<IntervalMapping>) -> Seq<MappingView> {
    Seq::new(mappings.len(), |i: int| mappings[i]@)
}

impl IntervalMapping {
    /// Holds of every mapping that a constructor hands out.
    pub open spec fn wf(&self) -> bool {
        self@.wf() && self@.fits_i64()
    }

    /// Pairs `source` with `dest`; `None` when their lengths differ.
    pub fn new(source: Range, dest: Range) -> (r: Option<IntervalMapping>)
        requires
            source.wf(),
            dest.wf(),
        ensures
            r.is_some() <==> source@.len() == dest@.len(),
            r matches Some(m) ==> m.wf() && m@ == (MappingView { source: source@, dest: dest@ }),
    {
        if source.len() == dest.len() {
            Some(IntervalMapping { source, dest })
        } else {
            None
        }
    }

    /// The mapping of `[src_start, src_start + len)` onto
    /// `[dest_start, dest_start + len)`.
    ///
    /// `None` when `len` is negative or an end of either range is not an `i64`.
    pub fn from_parts(dest_start: i64, src_start: i64, len: i64) -> (r: Option<IntervalMapping>)
        ensures
            r.is_some() <==> 0 <= len && src_start + len <= i64::MAX && dest_start + len
                <= i64::MAX,
            r matches Some(m) ==> m.wf() && m@ == (MappingView {
                source: Interval { start: src_start as int, end: src_start + len },
                dest: Interval { start: dest_start as int, end: dest_start + len },
            }),
    {
        let source = match Range::with_len(src_start, len) {
            Some(r) => r,
            None => {
                return None;
            },
        };
        let dest = match Range::with_len(dest_start, len) {
            Some(r) => r,
            None => {
                return None;
            },
        };
        Some(IntervalMapping { source, dest })
    }

    pub fn source(&self) -> (r: Range)
        ensures
            r@ == self@.source,
            self.wf() ==> r.wf(),
    {
        self.source
    }

    pub fn dest(&self) -> (r: Range)
        ensures
            r@ == self@.dest,
            self.wf() ==> r.wf(),
    {
        self.dest
    }

    /// Whether `v` lies in the source range.
    pub fn covers(&self, v: i64) -> (b: bool)
        ensures
            b == self@.covers(v as int),
    {
        self.source.contains(v)
    }

    /// The image of `v`, or `None` when the mapping does not cover `v`.
    pub fn translate(&self, v: i64) -> (r: Option<i64>)
        requires
            self.wf(),
        ensures
            r.is_some() <==> self@.covers(v as int),
            r matches Some(w) ==> w == self@.apply(v as int),
    {
        if self.source.contains(v) {
            let moved: i128 = self.dest.start() as i128 + (v as i128 - self.source.start() as i128);
            Some(moved as i64)
        } else {
            None
        }
    }
}

} // verus!
