//! The least pipeline output over candidate ranges and candidate points.

use crate::chunks::{
    chunk_count, chunk_interval, lemma_chunk_covers, lemma_chunk_not_empty,
    lemma_chunk_offset_step, lemma_chunk_within, split_chunks,
};
use crate::pipeline::{resolve_spec, Pipeline, Stages};
use crate::range::{Interval, Range};
use crate::seeds::{seed_intervals, SeedRange};
use rayon::iter::{IntoParallelRefIterator, ParallelIterator};
use vstd::prelude::*;

verus! {

/// `m` is the least value that the pipeline puts out for an input in `r`.
pub open spec fn is_min_over(p: Stages, r: Interval, m: int) -> bool {
    &&& exists|v: int| r.contains(v) && #[trigger] resolve_spec(p, v) == m
    &&& forall|v: int| r.contains(v) ==> m <= #[trigger] resolve_spec(p, v)
}

/// The least output over `r`. Meaningful when `r` is not empty.
pub open spec fn range_min(p: Stages, r: Interval) -> int {
    choose|m: int| is_min_over(p, r, m)
}

/// `m` occurs in `s` and nothing in `s` is smaller.
pub open spec fn is_least_of(m: int, s: Seq<int>) -> bool {
    &&& exists|i: int| 0 <= i < s.len() && #[trigger] s[i] == m
    &&& forall|i: int| 0 <= i < s.len() ==> m <= #[trigger] s[i]
}

/// A least output is unique, so it is the one that `range_min` names.
pub proof fn lemma_range_min_is(p: Stages, r: Interval, m: int)
    requires
        is_min_over(p, r, m),
    ensures
        range_min(p, r) == m,
{
    let c = range_min(p, r);
    assert(is_min_over(p, r, c));
    let v = choose|v: int| r.contains(v) && #[trigger] resolve_spec(p, v) == m;
    let w = choose|w: int| r.contains(w) && #[trigger] resolve_spec(p, w) == c;
    assert(c <= resolve_spec(p, v));
    assert(m <= resolve_spec(p, w));
}

/// Every non-empty interval has a least output.
pub proof fn lemma_range_min_exists(p: Stages, r: Interval)
    requires
        r.start < r.end,
    ensures
        is_min_over(p, r, range_min(p, r)),
    decreases r.end - r.start,
{
    let last = r.end - 1;
    let out = resolve_spec(p, last);
    if r.start == last {
        assert(r.contains(last));
        assert(is_min_over(p, r, out));
    } else {
        let head = Interval { start: r.start, end: last };
        lemma_range_min_exists(p, head);
        let m = range_min(p, head);
        let v = choose|v: int| head.contains(v) && #[trigger] resolve_spec(p, v) == m;
        assert(r.contains(v));
        assert(r.contains(last));
        let best = if out < m {
            out
        } else {
            m
        };
        assert forall|w: int| r.contains(w) implies best <= #[trigger] resolve_spec(p, w) by {
            if w != last {
                assert(head.contains(w));
            }
        }
        assert(is_min_over(p, r, best));
    }
}

/// The sequential scan: resolves every value of a non-empty `range` in turn
/// and keeps the least output seen.
pub fn scan_chunk(pipeline: &Pipeline, range: &Range) -> (m: i64)
    requires
        pipeline.wf(),
        range.wf(),
        !range@.is_empty(),
    ensures
        is_min_over(pipeline@, range@, m as int),
        m == range_min(pipeline@, range@),
{
    let lo = range.start();
    let hi = range.end();
    let mut best = pipeline.resolve(lo);
    let mut v = lo + 1;
    while v < hi
        invariant
            lo < v <= hi,
            pipeline.wf(),
            lo == range@.start,
            hi == range@.end,
            exists|w: int| lo <= w < v && #[trigger] resolve_spec(pipeline@, w) == best,
            forall|w: int| lo <= w < v ==> best <= #[trigger] resolve_spec(pipeline@, w),
        decreases hi - v,
    {
        let out = pipeline.resolve(v);
        if out < best {
            best = out;
        }
        v += 1;
    }
    proof {
        lemma_range_min_is(pipeline@, range@, best as int);
    }
    best
}

/// The least output over `range`, found by one sequential scan; `None` when
/// the range is empty.
pub fn sequential_min(pipeline: &Pipeline, range: &Range) -> (r: Option<i64>)
    requires
        pipeline.wf(),
        range.wf(),
    ensures
        r.is_none() <==> range@.is_empty(),
        r matches Some(m) ==> is_min_over(pipeline@, range@, m as int),
{
    if range.is_empty() {
        None
    } else {
        Some(scan_chunk(pipeline, range))
    }
}

/// The least output of each chunk, in the order of the chunks.
pub open spec fn chunk_minima(p: Stages, chunks: Seq<Range>) -> Seq<int> {
    Seq::new(chunks.len(), |k: int| range_min(p, chunks[k]@))
}

/// The outputs for a list of single inputs, in the order of the inputs.
pub open spec fn outputs(p: Stages, inputs: Seq<i64>) -> Seq<int> {
    Seq::new(inputs.len(), |i: int| resolve_spec(p, inputs[i] as int))
}

/// `m` is the least output over all values of all the intervals `rs`.
pub open spec fn is_min_of_ranges(p: Stages, rs: Seq<Interval>, m: int) -> bool {
    &&& exists|k: int, v: int|
        0 <= k < rs.len() && (#[trigger] rs[k]).contains(v) && #[trigger] resolve_spec(p, v) == m
    &&& forall|k: int, v: int|
        0 <= k < rs.len() && (#[trigger] rs[k]).contains(v) ==> m <= #[trigger] resolve_spec(p, v)
}

/// The least outputs of the chunks that `r` splits into, chunk by chunk.
pub open spec fn split_minima(p: Stages, r: Interval, parts: int) -> Seq<int> {
    Seq::new(
        chunk_count(r.len() as int, parts) as nat,
        |k: int| range_min(p, chunk_interval(r, parts, k)),
    )
}

/// A chunked scan and a scan of the whole range agree: into however many
/// parts a non-empty interval is split, the least of the chunks' least
/// outputs is the least output over the interval.
pub proof fn lemma_split_min(p: Stages, r: Interval, parts: int, m: int)
    requires
        r.start < r.end,
        is_least_of(m, split_minima(p, r, parts)),
    ensures
        is_min_over(p, r, m),
        m == range_min(p, r),
{
    let len = r.len() as int;
    let minima = split_minima(p, r, parts);
    let i = choose|i: int| 0 <= i < minima.len() && #[trigger] minima[i] == m;
    let chunk = chunk_interval(r, parts, i);
    lemma_chunk_within(len, parts, i);
    lemma_chunk_within(len, parts, i + 1);
    lemma_chunk_not_empty(len, parts, i);
    lemma_chunk_offset_step(len, parts, i);
    lemma_range_min_exists(p, chunk);
    let v = choose|v: int| chunk.contains(v) && #[trigger] resolve_spec(p, v) == m;
    assert(r.contains(v));
    assert forall|w: int| r.contains(w) implies m <= #[trigger] resolve_spec(p, w) by {
        let k = lemma_chunk_covers(len, parts, w - r.start);
        assert(chunk_interval(r, parts, k).contains(w));
        lemma_range_min_exists(p, chunk_interval(r, parts, k));
        assert(m <= minima[k]);
    }
    lemma_range_min_is(p, r, m);
}

/// Scans all chunks on rayon's thread pool and reduces the results there:
/// `chunks.par_iter().map(..).min()`, where the mapped function is
/// [`scan_chunk`].
///
/// Trusted: `map` hands every chunk to the function exactly once, and `min`
/// returns `None` for no items and otherwise the least of the items. Hence
/// the result is the least of the chunks' own least outputs. The workers
/// share nothing while they scan, and rayon merges their results pairwise
/// without taking a lock.
#[verifier::external_body]
fn par_scan(pipeline: &Pipeline, chunks: &Vec<Range>) -> (r: Option<i64>)
    requires
        pipeline.wf(),
        forall|k: int|
            0 <= k < chunks@.len() ==> (#[trigger] chunks@[k]).wf() && !chunks@[k]@.is_empty(),
    ensures
        r.is_none() <==> chunks@.len() == 0,
        r matches Some(m) ==> is_least_of(m as int, chunk_minima(pipeline@, chunks@)),
{
    chunks.par_iter().map(|chunk| scan_chunk(pipeline, chunk)).min()
}

/// `rayon::current_num_threads`: how many threads the pool in use has.
///
/// Trusted, and nothing is claimed of the number: it depends on the machine
/// and on how the pool was set up.
#[verifier::external_body]
fn worker_count() -> usize {
    rayon::current_num_threads()
}

/// The least output over `range`, scanned in parallel by `workers` workers.
///
/// The range is split into one contiguous chunk per worker. Each worker
/// scans its chunk on its own and keeps a private minimum; the private
/// minima are then reduced to one. The result does not depend on `workers`.
pub fn minimize_range_with(pipeline: &Pipeline, range: &SeedRange, workers: usize) -> (m: i64)
    requires
        pipeline.wf(),
        range.wf(),
    ensures
        is_min_over(pipeline@, range@, m as int),
        m == range_min(pipeline@, range@),
{
    let whole = range.to_range();
    let chunks = split_chunks(&whole, workers);
    let found = par_scan(pipeline, &chunks);
    assert(chunks@.len() > 0);
    let m = found.unwrap();
    proof {
        assert(chunk_minima(pipeline@, chunks@) =~= split_minima(
            pipeline@,
            whole@,
            workers as int,
        ));
        lemma_split_min(pipeline@, whole@, workers as int, m as int);
    }
    m
}

/// The least output over `range`, scanned in parallel with one chunk per
/// thread of rayon's pool. Equal to what a sequential scan finds.
pub fn minimize_range(pipeline: &Pipeline, range: &SeedRange) -> (m: i64)
    requires
        pipeline.wf(),
        range.wf(),
    ensures
        is_min_over(pipeline@, range@, m as int),
        m == range_min(pipeline@, range@),
{
    let workers = worker_count();
    minimize_range_with(pipeline, range, workers)
}

/// The least output over all values of all `ranges`; `None` when there is no
/// range. Each range is scanned in parallel, one range after the other.
pub fn minimize(pipeline: &Pipeline, ranges: &Vec<SeedRange>) -> (r: Option<i64>)
    requires
        pipeline.wf(),
        forall|k: int| 0 <= k < ranges@.len() ==> (#[trigger] ranges@[k]).wf(),
    ensures
        r.is_none() <==> ranges@.len() == 0,
        r matches Some(m) ==> is_min_of_ranges(pipeline@, seed_intervals(ranges@), m as int),
{
    let n = ranges.len();
    if n == 0 {
        return None;
    }
    let ghost rs = seed_intervals(ranges@);
    let mut best = minimize_range(pipeline, &ranges[0]);
    proof {
        let v = choose|v: int| rs[0].contains(v) && #[trigger] resolve_spec(pipeline@, v) == best;
        assert(rs[0].contains(v) && resolve_spec(pipeline@, v) == best);
    }
    let mut i: usize = 1;
    while i < n
        invariant
            1 <= i <= n,
            n == ranges@.len(),
            pipeline.wf(),
            rs == seed_intervals(ranges@),
            forall|k: int| 0 <= k < ranges@.len() ==> (#[trigger] ranges@[k]).wf(),
            exists|k: int, v: int|
                0 <= k < i && (#[trigger] rs[k]).contains(v) && #[trigger] resolve_spec(
                    pipeline@,
                    v,
                ) == best,
            forall|k: int, v: int|
                0 <= k < i && (#[trigger] rs[k]).contains(v) ==> best <= #[trigger] resolve_spec(
                    pipeline@,
                    v,
                ),
        decreases n - i,
    {
        let m = minimize_range(pipeline, &ranges[i]);
        proof {
            let v = choose|v: int|
                rs[i as int].contains(v) && #[trigger] resolve_spec(pipeline@, v) == m;
            assert(rs[i as int].contains(v) && resolve_spec(pipeline@, v) == m);
        }
        if m < best {
            best = m;
        }
        i += 1;
    }
    Some(best)
}

/// The least output over the single inputs `seeds`; `None` when there is
/// none. Sequential: the list is short.
pub fn point_min(pipeline: &Pipeline, seeds: &Vec<i64>) -> (r: Option<i64>)
    requires
        pipeline.wf(),
    ensures
        r.is_none() <==> seeds@.len() == 0,
        r matches Some(m) ==> is_least_of(m as int, outputs(pipeline@, seeds@)),
{
    let n = seeds.len();
    if n == 0 {
        return None;
    }
    let ghost outs = outputs(pipeline@, seeds@);
    let mut best = pipeline.resolve(seeds[0]);
    assert(outs[0] == best);
    let mut i: usize = 1;
    while i < n
        invariant
            1 <= i <= n,
            n == seeds@.len(),
            pipeline.wf(),
            outs == outputs(pipeline@, seeds@),
            exists|k: int| 0 <= k < i && #[trigger] outs[k] == best,
            forall|k: int| 0 <= k < i ==> best <= #[trigger] outs[k],
        decreases n - i,
    {
        let out = pipeline.resolve(seeds[i]);
        assert(outs[i as int] == out);
        if out < best {
            best = out;
        }
        i += 1;
    }
    Some(best)
}

} // verus!
