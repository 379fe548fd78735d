//! One stage of the pipeline: disjoint mappings with identity fallback.

use crate::mapping::{mapping_views, IntervalMapping, MappingView};
use crate::range::lemma_overlaps_iff_common_point;
use vstd::prelude::*;

verus! {

/// No two mappings of `t` have a source value in common.
pub open spec fn sources_disjoint(t: Seq<MappingView>) -> bool {
    forall|i: int, j: int|
        0 <= i < j < t.len() ==> !(#[trigger] t[i]).source.overlaps((#[trigger] t[j]).source)
}

/// Every mapping is well formed and the sources are pairwise disjoint.
pub open spec fn table_wf(t: Seq<MappingView>) -> bool {
    &&& forall|i: int| 0 <= i < t.len() ==> (#[trigger] t[i]).wf() && t[i].fits_i64()
    &&& sources_disjoint(t)
}

/// Some mapping of `t` covers `v`.
pub open spec fn covered(t: Seq<MappingView>, v: int) -> bool {
    exists|i: int| 0 <= i < t.len() && (#[trigger] t[i]).covers(v)
}

/// Some mapping's source overlaps `m`'s source.
pub open spec fn conflicts(t: Seq<MappingView>, m: MappingView) -> bool {
    exists|i: int| 0 <= i < t.len() && (#[trigger] t[i]).source.overlaps(m.source)
}

/// What a table does to a value: the mapping that covers `v` moves it, and a
/// value that no mapping covers stays as it is.
pub open spec fn table_lookup(t: Seq<MappingView>, v: int) -> int {
    if covered(t, v) {
        let i = choose|i: int| 0 <= i < t.len() && (#[trigger] t[i]).covers(v);
        t[i].apply(v)
    } else {
        v
    }
}

/// A value outside every source range passes through unchanged.
pub proof fn lemma_lookup_identity(t: Seq<MappingView>, v: int)
    requires
        forall|i: int| 0 <= i < t.len() ==> !(#[trigger] t[i]).covers(v),
    ensures
        table_lookup(t, v) == v,
{
}

/// A value inside the source range of a mapping of the table moves by that
/// mapping: `lookup(v) == dest.start + (v - source.start)`.
pub proof fn lemma_lookup_mapped(t: Seq<MappingView>, k: int, v: int)
    requires
        sources_disjoint(t),
        0 <= k < t.len(),
        t[k].covers(v),
    ensures
        table_lookup(t, v) == t[k].dest.start + (v - t[k].source.start),
{
    let i = choose|i: int| 0 <= i < t.len() && (#[trigger] t[i]).covers(v);
    if i != k {
        lemma_overlaps_iff_common_point(t[i].source, t[k].source);
        lemma_overlaps_iff_common_point(t[k].source, t[i].source);
        assert(t[i].source.contains(v) && t[k].source.contains(v));
    }
}

/// Raised when a mapping's source range intersects one already in the table.
#[derive(Clone, Copy, Debug, PartialEq, Eq)]
pub struct OverlappingRangeError;

/// A set of mappings with pairwise disjoint source ranges.
#[derive(Debug)]
pub struct IntervalTable {
    mappings: Vec<IntervalMapping>,
}

/// The models of a list of tables, in the same order.
pub open spec fn table_views(tables: Seq<IntervalTable>) -> Seq<Seq<MappingView>> {
    Seq::new(tables.len(), |i: int| tables[i]@)
}

impl View for IntervalTable {
    type V = Seq<MappingView>;

    closed spec fn view(&self) -> Seq<MappingView> {
        Seq::new(self.mappings@.len(), |i: int| self.mappings@[i]@)
    }
}

impl IntervalTable {
    /// Holds of every table built by `new`, `insert` and `from_mappings`.
    pub open spec fn wf(&self) -> bool {
        table_wf(self@)
    }

    /// The empty table, which maps every value to itself.
    pub fn new() -> (t: IntervalTable)
        ensures
            t.wf(),
            t@ == Seq::<MappingView>::empty(),
    {
        IntervalTable { mappings: Vec::new() }
    }

    /// Number of mappings.
    pub fn len(&self) -> (n: usize)
        ensures
            n == self@.len(),
    {
        self.mappings.len()
    }

    /// The mapping at position `i`, in order of insertion.
    pub fn get(&self, i: usize) -> (m: Option<IntervalMapping>)
        ensures
            m.is_some() <==> i < self@.len(),
            m matches Some(mapping) ==> mapping@ == self@[i as int] && (self.wf()
                ==> mapping.wf()),
    {
        if i < self.mappings.len() {
            Some(self.mappings[i])
        } else {
            None
        }
    }

    /// Adds `m` unless its source range intersects that of a stored mapping.
    ///
    /// On success `m` is appended; on failure the table is unchanged.
    pub fn insert(&mut self, m: IntervalMapping) -> (r: Result<(), OverlappingRangeError>)
        requires
            old(self).wf(),
            m.wf(),
        ensures
            final(self).wf(),
            r.is_err() <==> conflicts(old(self)@, m@),
            r.is_ok() ==> final(self)@ == old(self)@.push(m@),
            r.is_err() ==> final(self)@ == old(self)@,
    {
        let source = m.source();
        let n = self.mappings.len();
        let mut i: usize = 0;
        while i < n
            invariant
                i <= n,
                n == self.mappings@.len(),
                *self == *old(self),
                self.wf(),
                source@ == m@.source,
                forall|j: int| 0 <= j < i ==> !(#[trigger] self@[j]).source.overlaps(m@.source),
            decreases n - i,
        {
            let existing = self.mappings[i].source();
            if existing.overlaps(&source) {
                assert(self@[i as int].source.overlaps(m@.source));
                return Err(OverlappingRangeError);
            }
            i += 1;
        }
        self.mappings.push(m);
        assert(self@ =~= old(self)@.push(m@));
        assert forall|a: int, b: int| 0 <= a < b < self@.len() implies !(#[trigger] self@[a]).source.overlaps(
            (#[trigger] self@[b]).source,
        ) by {
            if b < old(self)@.len() {
                assert(self@[a] == old(self)@[a] && self@[b] == old(self)@[b]);
            } else {
                assert(self@[a] == old(self)@[a]);
            }
        }
        Ok(())
    }

    /// Builds a table from `mappings`, inserting them in order.
    ///
    /// Fails at the first mapping whose source range intersects an earlier one.
    pub fn from_mappings(mappings: &Vec<IntervalMapping>) -> (r: Result<
        IntervalTable,
        OverlappingRangeError,
    >)
        requires
            forall|i: int| 0 <= i < mappings@.len() ==> (#[trigger] mappings@[i]).wf(),
        ensures
            r.is_ok() <==> sources_disjoint(mapping_views(mappings@)),
            r matches Ok(t) ==> t.wf() && t@ == mapping_views(mappings@),
    {
        let ghost all = mapping_views(mappings@);
        let mut table = IntervalTable::new();
        let mut i: usize = 0;
        while i < mappings.len()
            invariant
                i <= mappings@.len(),
                table.wf(),
                table@ == all.take(i as int),
                all == mapping_views(mappings@),
                forall|k: int| 0 <= k < mappings@.len() ==> (#[trigger] mappings@[k]).wf(),
            decreases mappings@.len() - i,
        {
            let m = mappings[i];
            assert(m@ == all[i as int]);
            match table.insert(m) {
                Ok(()) => {
                    assert(table@ =~= all.take(i + 1));
                },
                Err(e) => {
                    proof {
                        let k = choose|k: int|
                            0 <= k < all.take(i as int).len() && (#[trigger] all.take(
                                i as int,
                            )[k]).source.overlaps(m@.source);
                        assert(all[k].source.overlaps(all[i as int].source));
                    }
                    return Err(e);
                },
            }
            i += 1;
        }
        assert(table@ =~= all);
        Ok(table)
    }

    /// Maps `v` through the table.
    ///
    /// A value inside the source range of a mapping moves to
    /// `dest.start + (v - source.start)`; any other value is returned as it is.
    pub fn lookup(&self, v: i64) -> (r: i64)
        requires
            self.wf(),
        ensures
            r == table_lookup(self@, v as int),
            !covered(self@, v as int) ==> r == v,
            forall|k: int|
                0 <= k < self@.len() && (#[trigger] self@[k]).covers(v as int) ==> r
                    == self@[k].dest.start + (v - self@[k].source.start),
    {
        let n = self.mappings.len();
        let mut i: usize = 0;
        while i < n
            invariant
                i <= n,
                n == self.mappings@.len(),
                self.wf(),
                forall|j: int| 0 <= j < i ==> !(#[trigger] self@[j]).covers(v as int),
            decreases n - i,
        {
            let m = &self.mappings[i];
            assert(m@ == self@[i as int]);
            match m.translate(v) {
                Some(w) => {
                    proof {
                        lemma_lookup_mapped(self@, i as int, v as int);
                        assert forall|k: int|
                            0 <= k < self@.len() && (#[trigger] self@[k]).covers(
                                v as int,
                            ) implies w == self@[k].dest.start + (v - self@[k].source.start) by {
                            lemma_lookup_mapped(self@, k, v as int);
                        }
                    }
                    return w;
                },
                None => {},
            }
            i += 1;
        }
        v
    }
}

} // verus!
