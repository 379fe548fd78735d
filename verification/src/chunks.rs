//! Splitting a range into contiguous chunks of nearly equal length.

use crate::range::{Interval, Range};
use vstd::arithmetic::div_mod::{
    lemma_basic_div, lemma_div_pos_is_pos, lemma_fundamental_div_mod, lemma_mod_pos_bound,
    lemma_small_mod,
};
use vstd::prelude::*;

verus! {

/// The number of parts asked for, with zero read as one.
pub open spec fn part_count(parts: int) -> int {
    if parts <= 0 {
        1
    } else {
        parts
    }
}

/// Number of chunks that `len` values are split into: one per part, but no
/// more than there are values, so that no chunk is empty.
pub open spec fn chunk_count(len: int, parts: int) -> int {
    if len < part_count(parts) {
        len
    } else {
        part_count(parts)
    }
}

/// Distance from the start of the range to the start of chunk `k`. Every
/// chunk has `len / n` values and the first `len % n` chunks have one more.
pub open spec fn chunk_offset(len: int, parts: int, k: int) -> int {
    let n = part_count(parts);
    k * (len / n) + if k < len % n {
        k
    } else {
        len % n
    }
}

/// Chunk `k` of the interval `r` split into `parts` parts.
pub open spec fn chunk_interval(r: Interval, parts: int, k: int) -> Interval {
    Interval {
        start: r.start + chunk_offset(r.len() as int, parts, k),
        end: r.start + chunk_offset(r.len() as int, parts, k + 1),
    }
}

/// Length of chunk `k`.
pub open spec fn chunk_len(len: int, parts: int, k: int) -> int {
    let n = part_count(parts);
    len / n + if k < len % n {
        1int
    } else {
        0int
    }
}

/// Each chunk starts where the one before it ends.
pub proof fn lemma_chunk_offset_step(len: int, parts: int, k: int)
    requires
        0 <= len,
        0 <= k,
    ensures
        chunk_offset(len, parts, k + 1) == chunk_offset(len, parts, k) + chunk_len(len, parts, k),
{
    let n = part_count(parts);
    let q = len / n;
    assert((k + 1) * q == k * q + q) by (nonlinear_arith);
}

/// No chunk is empty.
pub proof fn lemma_chunk_not_empty(len: int, parts: int, k: int)
    requires
        0 <= len,
        0 <= k < chunk_count(len, parts),
    ensures
        chunk_len(len, parts, k) >= 1,
{
    let n = part_count(parts);
    lemma_div_pos_is_pos(len, n);
    if len < n {
        lemma_basic_div(len, n);
        lemma_small_mod(len as nat, n as nat);
    } else {
        vstd::arithmetic::div_mod::lemma_div_non_zero(len, n);
    }
}

/// The first chunk starts at the start of the range and the last one ends at
/// its end.
pub proof fn lemma_chunk_offset_ends(len: int, parts: int)
    requires
        0 <= len,
    ensures
        chunk_offset(len, parts, 0) == 0,
        chunk_offset(len, parts, chunk_count(len, parts)) == len,
{
    let n = part_count(parts);
    lemma_mod_pos_bound(len, n);
    lemma_fundamental_div_mod(len, n);
    if len < n {
        lemma_basic_div(len, n);
        lemma_small_mod(len as nat, n as nat);
        assert(len * 0 == 0);
    } else {
        assert(n * (len / n) == (len / n) * n) by (nonlinear_arith);
    }
    assert(0 * (len / n) == 0);
}

/// Chunk starts do not decrease.
pub proof fn lemma_chunk_offset_monotone(len: int, parts: int, j: int, k: int)
    requires
        0 <= len,
        0 <= j <= k,
    ensures
        chunk_offset(len, parts, j) <= chunk_offset(len, parts, k),
{
    let n = part_count(parts);
    let q = len / n;
    lemma_div_pos_is_pos(len, n);
    lemma_mod_pos_bound(len, n);
    assert(j * q <= k * q) by (nonlinear_arith)
        requires
            0 <= j <= k,
            0 <= q,
    ;
}

/// Every chunk lies inside the range.
pub proof fn lemma_chunk_within(len: int, parts: int, k: int)
    requires
        0 <= len,
        0 <= k <= chunk_count(len, parts),
    ensures
        0 <= chunk_offset(len, parts, k) <= len,
{
    lemma_chunk_offset_ends(len, parts);
    lemma_chunk_offset_monotone(len, parts, 0, k);
    lemma_chunk_offset_monotone(len, parts, k, chunk_count(len, parts));
}

/// Every position of the range falls into one of the chunks.
pub proof fn lemma_chunk_covers(len: int, parts: int, d: int) -> (k: int)
    requires
        0 <= d < len,
    ensures
        0 <= k < chunk_count(len, parts),
        chunk_offset(len, parts, k) <= d < chunk_offset(len, parts, k + 1),
{
    lemma_chunk_offset_ends(len, parts);
    lemma_chunk_search(len, parts, d, 0)
}

proof fn lemma_chunk_search(len: int, parts: int, d: int, j: int) -> (k: int)
    requires
        0 <= d < len,
        0 <= j < chunk_count(len, parts),
        chunk_offset(len, parts, j) <= d,
    ensures
        j <= k < chunk_count(len, parts),
        chunk_offset(len, parts, k) <= d < chunk_offset(len, parts, k + 1),
    decreases chunk_count(len, parts) - j,
{
    if d < chunk_offset(len, parts, j + 1) {
        j
    } else {
        if j + 1 >= chunk_count(len, parts) {
            lemma_chunk_offset_ends(len, parts);
            assert(false);
        }
        lemma_chunk_search(len, parts, d, j + 1)
    }
}

/// Splits `range` into contiguous chunks, one per part, whose lengths differ
/// by at most one, the longer ones first. A range with fewer values than
/// parts gives one chunk per value; `parts == 0` counts as one part.
pub fn split_chunks(range: &Range, parts: usize) -> (chunks: Vec<Range>)
    requires
        range.wf(),
    ensures
        chunks@.len() == chunk_count(range@.len() as int, parts as int),
        forall|k: int|
            0 <= k < chunks@.len() ==> {
                &&& (#[trigger] chunks@[k]).wf()
                &&& chunks@[k]@ == chunk_interval(range@, parts as int, k)
                &&& !chunks@[k]@.is_empty()
            },
{
    let len: u64 = range.len();
    let n: u64 = if parts == 0 {
        1
    } else {
        parts as u64
    };
    let quot: u64 = len / n;
    let rem: u64 = len % n;
    let count: u64 = if len < n {
        len
    } else {
        n
    };
    let mut chunks: Vec<Range> = Vec::new();
    let mut cur: i64 = range.start();
    let mut k: u64 = 0;
    while k < count
        invariant
            range.wf(),
            len == range@.len(),
            n == part_count(parts as int),
            quot == len as int / n as int,
            rem == len as int % n as int,
            count == chunk_count(len as int, parts as int),
            k <= count,
            chunks@.len() == k,
            cur == range@.start + chunk_offset(len as int, parts as int, k as int),
            forall|j: int|
                0 <= j < k ==> {
                    &&& (#[trigger] chunks@[j]).wf()
                    &&& chunks@[j]@ == chunk_interval(range@, parts as int, j)
                    &&& !chunks@[j]@.is_empty()
                },
        decreases count - k,
    {
        proof {
            lemma_chunk_offset_step(len as int, parts as int, k as int);
            lemma_chunk_not_empty(len as int, parts as int, k as int);
            lemma_chunk_within(len as int, parts as int, k as int);
            lemma_chunk_within(len as int, parts as int, k + 1);
        }
        let extra: i128 = if k < rem {
            1
        } else {
            0
        };
        let next: i128 = cur as i128 + quot as i128 + extra;
        let end: i64 = next as i64;
        let chunk = Range::new(cur, end);
        chunks.push(chunk.unwrap());
        cur = end;
        k += 1;
    }
    chunks
}

} // verus!
