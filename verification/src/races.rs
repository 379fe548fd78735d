//! Races against a record: in how many ways the record can be beaten.

use vstd::prelude::*;

verus! {

/// A race: the time it lasts and the distance to beat.
#[derive(Debug, Clone, Copy, PartialEq, Eq)]
pub struct Race {
    /// How long the race lasts.
    pub distance: i64,
    /// The best distance so far.
    pub record: i64,
}

/// Charging for `speed` out of `time` beats `record`.
pub open spec fn beats_record(time: int, record: int, speed: int) -> bool {
    speed * (time - speed) > record
}

/// Number of speeds from 1 up to, not including, `k` that beat the record.
pub open spec fn ways_upto(time: int, record: int, k: int) -> int
    decreases k,
{
    if k <= 1 {
        0
    } else {
        ways_upto(time, record, k - 1) + if beats_record(time, record, k - 1) {
            1int
        } else {
            0int
        }
    }
}

/// Number of ways to beat the record of a race.
pub open spec fn ways(race: Race) -> int {
    ways_upto(race.distance as int, race.record as int, race.distance as int)
}

/// Product of the ways of the first `k` races.
pub open spec fn ways_product(races: Seq<Race>, k: int) -> int
    decreases k,
{
    if k <= 0 {
        1
    } else {
        ways_product(races, k - 1) * ways(races[k - 1])
    }
}

/// Every running product is an `i64`.
pub open spec fn product_fits(races: Seq<Race>, k: int) -> bool
    decreases k,
{
    k <= 0 || (product_fits(races, k - 1) && ways_product(races, k) <= i64::MAX)
}

/// The power of ten that has one digit more than `b` has.
pub open spec fn shift_of(b: int) -> int
    decreases b,
{
    if b < 10 {
        10
    } else {
        10 * shift_of(b / 10)
    }
}

/// The number whose digits are those of `a` followed by those of `b`.
pub open spec fn joined(a: int, b: int) -> int {
    a * shift_of(b) + b
}

/// The number whose digits are those of the first `k` values, one after the
/// other.
pub open spec fn joined_upto(values: Seq<int>, k: int) -> int
    decreases k,
{
    if k <= 0 {
        0
    } else {
        joined(joined_upto(values, k - 1), values[k - 1])
    }
}

/// Every value is non-negative and every running join is an `i64`.
pub open spec fn join_fits(values: Seq<int>, k: int) -> bool
    decreases k,
{
    k <= 0 || (join_fits(values, k - 1) && 0 <= values[k - 1] && joined_upto(values, k)
        <= i64::MAX)
}

pub open spec fn distances(races: Seq<Race>) -> Seq<int> {
    Seq::new(races.len(), |i: int| races[i].distance as int)
}

pub open spec fn records(races: Seq<Race>) -> Seq<int> {
    Seq::new(races.len(), |i: int| races[i].record as int)
}

proof fn lemma_ways_bounds(time: int, record: int, k: int)
    ensures
        0 <= ways_upto(time, record, k),
        k >= 1 ==> ways_upto(time, record, k) <= k - 1,
    decreases k,
{
    if k > 1 {
        lemma_ways_bounds(time, record, k - 1);
    }
}

proof fn lemma_shift_bounds(b: int)
    requires
        0 <= b,
    ensures
        10 <= shift_of(b),
        b < shift_of(b),
        b >= 1 ==> shift_of(b) <= 10 * b,
    decreases b,
{
    if b >= 10 {
        lemma_shift_bounds(b / 10);
    }
}

/// Number of ways to beat the record of one race.
pub fn count_ways(race: &Race) -> (n: i64)
    ensures
        n == ways(*race),
{
    let time = race.distance;
    let record = race.record;
    let mut n: i64 = 0;
    let mut speed: i64 = 1;
    proof {
        lemma_ways_bounds(time as int, record as int, 1);
    }
    while speed < time
        invariant
            1 <= speed,
            speed <= time || (time < 1 && speed == 1),
            n == ways_upto(time as int, record as int, speed as int),
            0 <= n <= speed - 1,
        decreases time - speed,
    {
        assert(0 <= speed * (time - speed) <= 0x4000_0000_0000_0000_0000_0000_0000_0000)
            by (nonlinear_arith)
            requires
                1 <= speed < time <= 0x7fff_ffff_ffff_ffff,
        ;
        let travelled: i128 = (speed as i128) * (time as i128 - speed as i128);
        if travelled > record as i128 {
            n += 1;
        }
        speed += 1;
    }
    n
}

/// The product, over all races, of the number of ways to beat the record.
pub fn part1(races: &[Race]) -> (r: i64)
    requires
        product_fits(races@, races@.len() as int),
    ensures
        r == ways_product(races@, races@.len() as int),
{
    let n = races.len();
    let mut product: i64 = 1;
    let mut i: usize = 0;
    while i < n
        invariant
            i <= n,
            n == races@.len(),
            product_fits(races@, n as int),
            product == ways_product(races@, i as int),
            0 <= product,
        decreases n - i,
    {
        let w = count_ways(&races[i]);
        proof {
            lemma_product_prefix(races@, i + 1, n as int);
            lemma_ways_bounds(
                races@[i as int].distance as int,
                races@[i as int].record as int,
                races@[i as int].distance as int,
            );
            assert(product * w >= 0) by (nonlinear_arith)
                requires
                    product >= 0,
                    w >= 0,
            ;
        }
        product = product * w;
        i += 1;
    }
    product
}

proof fn lemma_product_prefix(races: Seq<Race>, k: int, n: int)
    requires
        0 <= k <= n,
        product_fits(races, n),
    ensures
        product_fits(races, k),
    decreases n - k,
{
    if k < n {
        lemma_product_prefix(races, k, n - 1);
    }
}

proof fn lemma_join_prefix(values: Seq<int>, k: int, n: int)
    requires
        0 <= k <= n,
        join_fits(values, n),
    ensures
        join_fits(values, k),
        0 <= joined_upto(values, k),
    decreases n - k,
{
    if k < n {
        lemma_join_prefix(values, k, n - 1);
    } else {
        lemma_join_sign(values, k);
    }
}

proof fn lemma_join_sign(values: Seq<int>, k: int)
    requires
        join_fits(values, k),
    ensures
        0 <= joined_upto(values, k),
    decreases k,
{
    if k > 0 {
        lemma_join_sign(values, k - 1);
        lemma_shift_bounds(values[k - 1]);
        assert(joined_upto(values, k - 1) * shift_of(values[k - 1]) >= 0) by (nonlinear_arith)
            requires
                joined_upto(values, k - 1) >= 0,
                shift_of(values[k - 1]) >= 10,
        ;
    }
}

/// The digits of `a` followed by the digits of `b`, for non-negative numbers
/// whose join is an `i64`.
fn join_digits(a: i64, b: i64) -> (r: i64)
    requires
        0 <= a,
        0 <= b,
        joined(a as int, b as int) <= i64::MAX,
    ensures
        r == joined(a as int, b as int),
{
    let mut scale: i128 = 1;
    let mut rest: i64 = b;
    proof {
        lemma_shift_bounds(b as int);
    }
    while rest >= 10
        invariant
            0 <= rest <= b,
            1 <= scale,
            shift_of(b as int) == scale * shift_of(rest as int),
            shift_of(b as int) <= 10 * b || b == 0,
        decreases rest,
    {
        proof {
            lemma_shift_bounds(rest as int);
            lemma_shift_bounds(rest as int / 10);
            assert(scale * (10 * shift_of(rest as int / 10)) == (scale * 10) * shift_of(
                rest as int / 10,
            )) by (nonlinear_arith);
            assert(scale * 10 <= scale * shift_of(rest as int)) by (nonlinear_arith)
                requires
                    scale >= 1,
                    shift_of(rest as int) >= 10,
            ;
        }
        scale = scale * 10;
        rest = rest / 10;
    }
    proof {
        lemma_shift_bounds(b as int);
        assert(shift_of(rest as int) == 10);
        assert(a * (scale * 10) <= i64::MAX) by (nonlinear_arith)
            requires
                a * shift_of(b as int) + b <= i64::MAX,
                shift_of(b as int) == scale * 10,
                b >= 0,
        ;
        assert(a * (scale * 10) >= 0) by (nonlinear_arith)
            requires
                a >= 0,
                scale >= 1,
        ;
    }
    let shift: i128 = scale * 10;
    let wide: i128 = (a as i128) * shift + b as i128;
    wide as i64
}

/// The number of ways to beat the record of the one race that the races
/// spell when their times, and their records, are written as one number.
pub fn part2(races: &[Race]) -> (r: i64)
    requires
        races@.len() >= 1,
        join_fits(distances(races@), races@.len() as int),
        join_fits(records(races@), races@.len() as int),
    ensures
        r == ways(
            Race {
                distance: joined_upto(distances(races@), races@.len() as int) as i64,
                record: joined_upto(records(races@), races@.len() as int) as i64,
            },
        ),
{
    let n = races.len();
    let mut distance: i64 = 0;
    let mut record: i64 = 0;
    let mut i: usize = 0;
    while i < n
        invariant
            i <= n,
            n == races@.len(),
            join_fits(distances(races@), n as int),
            join_fits(records(races@), n as int),
            distance == joined_upto(distances(races@), i as int),
            record == joined_upto(records(races@), i as int),
            0 <= distance,
            0 <= record,
        decreases n - i,
    {
        proof {
            lemma_join_prefix(distances(races@), i + 1, n as int);
            lemma_join_prefix(records(races@), i + 1, n as int);
        }
        distance = join_digits(distance, races[i].distance);
        record = join_digits(record, races[i].record);
        i += 1;
    }
    let race = Race { distance, record };
    count_ways(&race)
}

} // verus!
