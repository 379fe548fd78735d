//! Games of coloured cubes: the fewest cubes that make a game possible.

use vstd::prelude::*;

verus! {

/// How many cubes of each colour were shown at once.
#[derive(Debug, Clone, Copy, PartialEq, Eq)]
pub struct CubeSet {
    pub blues: i32,
    pub reds: i32,
    pub greens: i32,
}

/// A game and the sets of cubes shown in it.
#[derive(Debug)]
pub struct Game {
    pub id: i32,
    pub sets: Vec<CubeSet>,
}

pub open spec fn larger(a: int, b: int) -> int {
    if a >= b {
        a
    } else {
        b
    }
}

/// The largest number of blue cubes among the first `k` sets, at least 0.
pub open spec fn most_blues(sets: Seq<CubeSet>, k: int) -> int
    decreases k,
{
    if k <= 0 {
        0
    } else {
        larger(most_blues(sets, k - 1), sets[k - 1].blues as int)
    }
}

/// The largest number of red cubes among the first `k` sets, at least 0.
pub open spec fn most_reds(sets: Seq<CubeSet>, k: int) -> int
    decreases k,
{
    if k <= 0 {
        0
    } else {
        larger(most_reds(sets, k - 1), sets[k - 1].reds as int)
    }
}

/// The largest number of green cubes among the first `k` sets, at least 0.
pub open spec fn most_greens(sets: Seq<CubeSet>, k: int) -> int
    decreases k,
{
    if k <= 0 {
        0
    } else {
        larger(most_greens(sets, k - 1), sets[k - 1].greens as int)
    }
}

/// The power of a game: the product of the fewest cubes of each colour that
/// the game needs.
pub open spec fn power(sets: Seq<CubeSet>) -> int {
    let n = sets.len() as int;
    most_blues(sets, n) * most_reds(sets, n) * most_greens(sets, n)
}

/// Sum of the powers of the first `k` games.
pub open spec fn power_sum(games: Seq<Game>, k: int) -> int
    decreases k,
{
    if k <= 0 {
        0
    } else {
        power_sum(games, k - 1) + power(games[k - 1].sets@)
    }
}

/// Every running sum of powers is an `i32`.
pub open spec fn powers_fit(games: Seq<Game>, k: int) -> bool
    decreases k,
{
    k <= 0 || (powers_fit(games, k - 1) && power_sum(games, k) <= i32::MAX)
}

proof fn lemma_powers_prefix(games: Seq<Game>, k: int, n: int)
    requires
        0 <= k <= n,
        powers_fit(games, n),
    ensures
        powers_fit(games, k),
    decreases n - k,
{
    if k < n {
        lemma_powers_prefix(games, k, n - 1);
    }
}

/// The fewest cubes of each colour with which the game is possible.
pub fn fewest_cubes(sets: &Vec<CubeSet>) -> (r: CubeSet)
    ensures
        r.blues == most_blues(sets@, sets@.len() as int),
        r.reds == most_reds(sets@, sets@.len() as int),
        r.greens == most_greens(sets@, sets@.len() as int),
        r.blues >= 0 && r.reds >= 0 && r.greens >= 0,
{
    let mut best = CubeSet { blues: 0, reds: 0, greens: 0 };
    let mut k: usize = 0;
    while k < sets.len()
        invariant
            k <= sets@.len(),
            best.blues == most_blues(sets@, k as int),
            best.reds == most_reds(sets@, k as int),
            best.greens == most_greens(sets@, k as int),
            best.blues >= 0 && best.reds >= 0 && best.greens >= 0,
        decreases sets@.len() - k,
    {
        let set = sets[k];
        if set.blues > best.blues {
            best.blues = set.blues;
        }
        if set.reds > best.reds {
            best.reds = set.reds;
        }
        if set.greens > best.greens {
            best.greens = set.greens;
        }
        k += 1;
    }
    best
}

/// The sum of the powers of all games.
pub fn part2(games: &[Game]) -> (r: i32)
    requires
        powers_fit(games@, games@.len() as int),
    ensures
        r == power_sum(games@, games@.len() as int),
{
    let n = games.len();
    let mut total: i128 = 0;
    let mut i: usize = 0;
    while i < n
        invariant
            i <= n,
            n == games@.len(),
            powers_fit(games@, n as int),
            total == power_sum(games@, i as int),
            0 <= total <= i32::MAX,
        decreases n - i,
    {
        let few = fewest_cubes(&games[i].sets);
        proof {
            lemma_powers_prefix(games@, i + 1, n as int);
            let b = few.blues as int;
            let r = few.reds as int;
            let g = few.greens as int;
            assert(0 <= b * r <= 0x4000_0000_0000_0000) by (nonlinear_arith)
                requires
                    0 <= b <= 0x7fff_ffff,
                    0 <= r <= 0x7fff_ffff,
            ;
            assert(0 <= (b * r) * g <= 0x2000_0000_0000_0000_0000_0000) by (nonlinear_arith)
                requires
                    0 <= b * r <= 0x4000_0000_0000_0000,
                    0 <= g <= 0x7fff_ffff,
            ;
        }
        let product: i128 = (few.blues as i128) * (few.reds as i128) * (few.greens as i128);
        total = total + product;
        i += 1;
    }
    total as i32
}

/// The set shows more cubes than the bag holds: 12 red, 13 green, 14 blue.
pub open spec fn too_many(set: CubeSet) -> bool {
    set.reds > 12 || set.greens > 13 || set.blues > 14
}

/// No set of the game shows more cubes than the bag holds.
pub open spec fn possible(sets: Seq<CubeSet>) -> bool {
    forall|i: int| 0 <= i < sets.len() ==> !too_many(#[trigger] sets[i])
}

/// Sum of the numbers of the possible games among the first `k`.
pub open spec fn possible_sum(games: Seq<Game>, k: int) -> int
    decreases k,
{
    if k <= 0 {
        0
    } else {
        possible_sum(games, k - 1) + if possible(games[k - 1].sets@) {
            games[k - 1].id as int
        } else {
            0
        }
    }
}

/// Every running sum of game numbers is an `i32`.
pub open spec fn ids_fit(games: Seq<Game>, k: int) -> bool
    decreases k,
{
    k <= 0 || (ids_fit(games, k - 1) && i32::MIN <= possible_sum(games, k) <= i32::MAX)
}

proof fn lemma_ids_prefix(games: Seq<Game>, k: int, n: int)
    requires
        0 <= k <= n,
        ids_fit(games, n),
    ensures
        ids_fit(games, k),
    decreases n - k,
{
    if k < n {
        lemma_ids_prefix(games, k, n - 1);
    }
}

/// Whether the game can be played with 12 red, 13 green and 14 blue cubes.
pub fn is_possible(sets: &Vec<CubeSet>) -> (b: bool)
    ensures
        b == possible(sets@),
{
    let mut i: usize = 0;
    while i < sets.len()
        invariant
            i <= sets@.len(),
            forall|k: int| 0 <= k < i ==> !too_many(#[trigger] sets@[k]),
        decreases sets@.len() - i,
    {
        let set = sets[i];
        if set.reds > 12 || set.greens > 13 || set.blues > 14 {
            assert(too_many(sets@[i as int]));
            return false;
        }
        i += 1;
    }
    true
}

/// The sum of the numbers of the games that are possible.
pub fn part1(games: &[Game]) -> (r: i32)
    requires
        ids_fit(games@, games@.len() as int),
    ensures
        r == possible_sum(games@, games@.len() as int),
{
    let n = games.len();
    let mut total: i32 = 0;
    let mut i: usize = 0;
    while i < n
        invariant
            i <= n,
            n == games@.len(),
            ids_fit(games@, n as int),
            total == possible_sum(games@, i as int),
        decreases n - i,
    {
        proof {
            lemma_ids_prefix(games@, i + 1, n as int);
        }
        if is_possible(&games[i].sets) {
            total = total + games[i].id;
        }
        i += 1;
    }
    total
}

} // verus!
