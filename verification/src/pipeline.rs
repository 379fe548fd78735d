//! An ordered sequence of tables applied one after another.

use crate::mapping::MappingView;
use crate::range::Interval;
use crate::table::{table_lookup, table_views, table_wf, IntervalTable};
use vstd::prelude::*;

verus! {

/// Model of a pipeline: the stages' mappings, first stage first.
pub type Stages = Seq<Seq<MappingView>>;

/// Every stage is a well-formed table.
pub open spec fn stages_wf(p: Stages) -> bool {
    forall|i: int| 0 <= i < p.len() ==> table_wf(#[trigger] p[i])
}

/// The value that leaves the last stage when `v` enters the first: each
/// stage looks up what the stage before it put out.
pub open spec fn resolve_spec(p: Stages, v: int) -> int
    decreases p.len(),
{
    if p.len() == 0 {
        v
    } else {
        table_lookup(p.last(), resolve_spec(p.drop_last(), v))
    }
}

/// Appending a stage applies its lookup to the earlier result.
pub proof fn lemma_resolve_push(p: Stages, t: Seq<MappingView>, v: int)
    ensures
        resolve_spec(p.push(t), v) == table_lookup(t, resolve_spec(p, v)),
{
    assert(p.push(t).drop_last() =~= p);
    assert(p.push(t).last() == t);
}

/// Resolving through the first `n + 1` stages is a lookup in stage `n` of the
/// value resolved through the first `n`.
pub proof fn lemma_resolve_step(p: Stages, n: int, v: int)
    requires
        0 <= n < p.len(),
    ensures
        resolve_spec(p.take(n + 1), v) == table_lookup(p[n], resolve_spec(p.take(n), v)),
{
    assert(p.take(n + 1).drop_last() =~= p.take(n));
    assert(p.take(n + 1).last() == p[n]);
}

/// Stage order matters: when stage `b` leaves `v` alone but moves what stage
/// `a` makes of `v`, the pipeline `a, b` and its reverse disagree on `v`.
pub proof fn lemma_order_sensitive(a: Seq<MappingView>, b: Seq<MappingView>, v: int)
    requires
        table_lookup(b, v) == v,
        table_lookup(b, table_lookup(a, v)) != table_lookup(a, v),
    ensures
        resolve_spec(seq![a, b], v) != resolve_spec(seq![a, b].reverse(), v),
        resolve_spec(seq![a, b], v) == table_lookup(b, table_lookup(a, v)),
        resolve_spec(seq![a, b].reverse(), v) == table_lookup(a, v),
{
    let empty = Seq::<Seq<MappingView>>::empty();
    assert(seq![a, b] =~= empty.push(a).push(b));
    assert(seq![a, b].reverse() =~= empty.push(b).push(a));
    lemma_resolve_push(empty, a, v);
    lemma_resolve_push(empty.push(a), b, v);
    lemma_resolve_push(empty, b, v);
    lemma_resolve_push(empty.push(b), a, v);
}

/// Some well-formed pipeline and some input exist on which reversing the
/// stage order changes the result.
pub proof fn lemma_order_sensitive_witness()
    ensures
        exists|p: Stages, v: int|
            stages_wf(p) && #[trigger] resolve_spec(p.reverse(), v) != resolve_spec(p, v),
{
    let m1 = MappingView {
        source: Interval { start: 0, end: 10 },
        dest: Interval { start: 100, end: 110 },
    };
    let m2 = MappingView {
        source: Interval { start: 100, end: 110 },
        dest: Interval { start: 200, end: 210 },
    };
    let a = seq![m1];
    let b = seq![m2];
    let v = 5int;
    assert(a[0].covers(v));
    assert(!b[0].covers(v));
    assert(b[0].covers(105));
    assert(table_lookup(a, v) == 105);
    assert(table_lookup(b, v) == v);
    assert(table_lookup(b, 105) == 205);
    lemma_order_sensitive(a, b, v);
    let p = seq![a, b];
    assert(stages_wf(p));
    assert(resolve_spec(p.reverse(), v) != resolve_spec(p, v));
}

/// An immutable, ordered sequence of tables.
#[derive(Debug)]
pub struct Pipeline {
    stages: Vec<IntervalTable>,
}

impl View for Pipeline {
    type V = Stages;

    closed spec fn view(&self) -> Stages {
        table_views(self.stages@)
    }
}

impl Pipeline {
    /// Holds of every pipeline built by `new`.
    pub open spec fn wf(&self) -> bool {
        stages_wf(self@)
    }

    /// The pipeline that applies `stages` in the order given.
    pub fn new(stages: Vec<IntervalTable>) -> (p: Pipeline)
        requires
            forall|i: int| 0 <= i < stages@.len() ==> (#[trigger] stages@[i]).wf(),
        ensures
            p.wf(),
            p@ == table_views(stages@),
    {
        Pipeline { stages }
    }

    /// Number of stages.
    pub fn stage_count(&self) -> (n: usize)
        ensures
            n == self@.len(),
    {
        self.stages.len()
    }

    /// Sends `v` through every stage in order and returns what comes out.
    pub fn resolve(&self, v: i64) -> (r: i64)
        requires
            self.wf(),
        ensures
            r == resolve_spec(self@, v as int),
    {
        let n = self.stages.len();
        let mut cur = v;
        let mut i: usize = 0;
        while i < n
            invariant
                i <= n,
                n == self@.len(),
                n == self.stages@.len(),
                self.wf(),
                cur == resolve_spec(self@.take(i as int), v as int),
            decreases n - i,
        {
            let stage = &self.stages[i];
            assert(stage@ == self@[i as int]);
            proof {
                lemma_resolve_step(self@, i as int, v as int);
            }
            cur = stage.lookup(cur);
            i += 1;
        }
        assert(self@.take(n as int) =~= self@);
        cur
    }
}

} // verus!
