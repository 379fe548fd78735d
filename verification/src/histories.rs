//! Extending number sequences at both ends by repeated differences.

use vstd::prelude::*;

verus! {

/// The values of a row as integers.
pub open spec fn ints(v: Seq<i32>) -> Seq<int> {
    Seq::new(v.len(), |i: int| v[i] as int)
}

pub open spec fn all_zero(v: Seq<int>) -> bool {
    forall|i: int| 0 <= i < v.len() ==> #[trigger] v[i] == 0
}

/// The differences of neighbours: one entry less than `v`.
pub open spec fn differences(v: Seq<int>) -> Seq<int> {
    Seq::new((v.len() - 1) as nat, |i: int| v[i + 1] - v[i])
}

pub open spec fn fits_i32(v: Seq<int>) -> bool {
    forall|i: int| 0 <= i < v.len() ==> i32::MIN <= #[trigger] v[i] <= i32::MAX
}

/// Taking differences again and again reaches a row of zeros before the
/// row runs out, and every difference on the way is an `i32`.
pub open spec fn settles(v: Seq<int>) -> bool
    decreases v.len(),
{
    v.len() >= 1 && (all_zero(v) || (v.len() >= 2 && fits_i32(differences(v)) && settles(
        differences(v),
    )))
}

/// The value that follows the last one: the last value plus what follows
/// the differences, and zero after a row of zeros.
pub open spec fn value_after(v: Seq<int>) -> int
    decreases v.len(),
{
    if v.len() < 2 || all_zero(v) {
        0
    } else {
        v.last() + value_after(differences(v))
    }
}

/// The value that comes before the first one: the first value minus what
/// comes before the differences, and zero before a row of zeros.
pub open spec fn value_before(v: Seq<int>) -> int
    decreases v.len(),
{
    if v.len() < 2 || all_zero(v) {
        0
    } else {
        v[0] - value_before(differences(v))
    }
}

/// Sum of `value_before` over the rows.
pub open spec fn sum_before(rows: Seq<Vec<i32>>) -> int
    decreases rows.len(),
{
    if rows.len() == 0 {
        0
    } else {
        sum_before(rows.drop_last()) + value_before(ints(rows.last()@))
    }
}

/// Sum of `value_after` over the rows.
pub open spec fn sum_after(rows: Seq<Vec<i32>>) -> int
    decreases rows.len(),
{
    if rows.len() == 0 {
        0
    } else {
        sum_after(rows.drop_last()) + value_after(ints(rows.last()@))
    }
}

fn is_all_zero(v: &Vec<i32>) -> (b: bool)
    ensures
        b == all_zero(ints(v@)),
{
    let mut i: usize = 0;
    while i < v.len()
        invariant
            i <= v@.len(),
            forall|k: int| 0 <= k < i ==> #[trigger] ints(v@)[k] == 0,
        decreases v@.len() - i,
    {
        if v[i] != 0 {
            assert(ints(v@)[i as int] != 0);
            return false;
        }
        i += 1;
    }
    true
}

fn difference_row(v: &Vec<i32>) -> (d: Vec<i32>)
    requires
        v@.len() >= 2,
        fits_i32(differences(ints(v@))),
    ensures
        ints(d@) == differences(ints(v@)),
        d@.len() == v@.len() - 1,
{
    let mut d: Vec<i32> = Vec::new();
    let n = v.len();
    let mut i: usize = 0;
    while i + 1 < n
        invariant
            i + 1 <= n,
            n == v@.len(),
            n >= 2,
            fits_i32(differences(ints(v@))),
            d@.len() == i,
            forall|k: int| 0 <= k < i ==> #[trigger] d@[k] == differences(ints(v@))[k],
        decreases n - i,
    {
        assert(differences(ints(v@))[i as int] == v@[i + 1] - v@[i as int]);
        d.push(v[i + 1] - v[i]);
        i += 1;
    }
    assert(ints(d@) =~= differences(ints(v@)));
    d
}

/// The values before and after one row, as wide integers.
fn extend_row(row: &Vec<i32>) -> (r: (i128, i128))
    requires
        settles(ints(row@)),
    ensures
        r.0 == value_before(ints(row@)),
        r.1 == value_after(ints(row@)),
        -(row@.len() * 0x1_0000_0000) <= r.0 <= row@.len() * 0x1_0000_0000,
        -(row@.len() * 0x1_0000_0000) <= r.1 <= row@.len() * 0x1_0000_0000,
{
    let mut before: i128 = 0;
    let mut after: i128 = 0;
    let mut positive = true;
    let mut cur: Vec<i32> = Vec::new();
    let mut k: usize = 0;
    while k < row.len()
        invariant
            k <= row@.len(),
            cur@.len() == k,
            forall|i: int| 0 <= i < k ==> #[trigger] cur@[i] == row@[i],
        decreases row@.len() - k,
    {
        cur.push(row[k]);
        k += 1;
    }
    assert(cur@ =~= row@);
    let ghost total = row@.len() as int;
    loop
        invariant
            settles(ints(cur@)),
            total == row@.len(),
            total <= usize::MAX,
            1 <= cur@.len() <= total,
            value_before(ints(row@)) == if positive {
                before + value_before(ints(cur@))
            } else {
                before - value_before(ints(cur@))
            },
            value_after(ints(row@)) == after + value_after(ints(cur@)),
            -((total - cur@.len()) * 0x1_0000_0000) <= before <= (total - cur@.len())
                * 0x1_0000_0000,
            -((total - cur@.len()) * 0x1_0000_0000) <= after <= (total - cur@.len())
                * 0x1_0000_0000,
        decreases cur@.len(),
    {
        if is_all_zero(&cur) {
            return (before, after);
        }
        let n = cur.len();
        assert(ints(cur@).len() == n);
        assert(n >= 2);
        assert(ints(cur@).last() == cur@[n - 1]);
        assert(ints(cur@)[0] == cur@[0]);
        after = after + cur[n - 1] as i128;
        if positive {
            before = before + cur[0] as i128;
        } else {
            before = before - cur[0] as i128;
        }
        positive = !positive;
        cur = difference_row(&cur);
    }
}

/// Every running sum over the rows is an `i32`.
pub open spec fn sums_fit(rows: Seq<Vec<i32>>) -> bool
    decreases rows.len(),
{
    rows.len() == 0 || (sums_fit(rows.drop_last()) && i32::MIN <= sum_before(rows) <= i32::MAX
        && i32::MIN <= sum_after(rows) <= i32::MAX)
}

proof fn lemma_sums_fit_prefix(rows: Seq<Vec<i32>>, k: int)
    requires
        sums_fit(rows),
        0 <= k <= rows.len(),
    ensures
        sums_fit(rows.take(k)),
    decreases rows.len(),
{
    if k == rows.len() {
        assert(rows.take(k) =~= rows);
    } else {
        assert(rows.drop_last().take(k) =~= rows.take(k));
        lemma_sums_fit_prefix(rows.drop_last(), k);
    }
}

/// For every row, the value before its first and the value after its last
/// entry, each summed over the rows: `(sum before, sum after)`.
pub fn interpolate(input: &[Vec<i32>]) -> (r: (i32, i32))
    requires
        forall|i: int| 0 <= i < input@.len() ==> settles(ints(#[trigger] input@[i]@)),
        sums_fit(input@),
    ensures
        r.0 == sum_before(input@),
        r.1 == sum_after(input@),
{
    let n = input.len();
    let mut before: i128 = 0;
    let mut after: i128 = 0;
    let mut i: usize = 0;
    while i < n
        invariant
            i <= n,
            n == input@.len(),
            forall|k: int| 0 <= k < input@.len() ==> settles(ints(#[trigger] input@[k]@)),
            before == sum_before(input@.take(i as int)),
            after == sum_after(input@.take(i as int)),
            sums_fit(input@),
            i32::MIN <= before <= i32::MAX,
            i32::MIN <= after <= i32::MAX,
        decreases n - i,
    {
        assert(input@.take(i + 1).drop_last() =~= input@.take(i as int));
        assert(input@.take(i + 1).last() == input@[i as int]);
        let row = &input[i];
        let (b, a) = extend_row(row);
        proof {
            lemma_sums_fit_prefix(input@, i + 1);
        }
        before = before + b;
        after = after + a;
        i += 1;
    }
    assert(input@.take(n as int) =~= input@);
    (before as i32, after as i32)
}

} // verus!
