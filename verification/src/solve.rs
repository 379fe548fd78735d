//! The two answers that a seed list and a pipeline give.

use crate::minimizer::{is_least_of, is_min_of_ranges, minimize, outputs, point_min};
use crate::pipeline::Pipeline;
use crate::seeds::{expand_ranges, expandable, expanded, expansion_error, InvalidInputError};
use vstd::prelude::*;

verus! {

/// Point mode: every seed is one input, and the answer is the least output.
pub fn part1(seeds: &Vec<i64>, maps: &Pipeline) -> (r: i64)
    requires
        maps.wf(),
        seeds@.len() > 0,
    ensures
        is_least_of(r as int, outputs(maps@, seeds@)),
{
    let least = point_min(maps, seeds);
    least.unwrap()
}

/// Range mode: the seeds are `(start, length)` pairs, and the answer is the
/// least output over every value of every range.
///
/// Fails when the seed list cannot be read as pairs of a start and a
/// positive length.
pub fn part2(seeds: &Vec<i64>, maps: &Pipeline) -> (r: Result<i64, InvalidInputError>)
    requires
        maps.wf(),
        seeds@.len() > 0,
    ensures
        r.is_ok() <==> expandable(seeds@),
        r matches Ok(m) ==> is_min_of_ranges(maps@, expanded(seeds@), m as int),
        r matches Err(e) ==> expansion_error(seeds@, e),
{
    let ranges = match expand_ranges(seeds) {
        Ok(ranges) => ranges,
        Err(e) => {
            return Err(e);
        },
    };
    let least = minimize(maps, &ranges);
    Ok(least.unwrap())
}

} // verus!
