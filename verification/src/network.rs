//! A network of nodes walked by a list of turns, and the cycle lengths of
//! such walks: greatest common divisor and least common multiple.

use vstd::arithmetic::div_mod::{
    lemma_div_multiples_vanish, lemma_fundamental_div_mod, lemma_mod_multiples_basic,
    lemma_mod_pos_bound, lemma_mod_self_0,
};
use vstd::prelude::*;

verus! {

/// Euclid's algorithm on non-negative integers.
pub open spec fn gcd_spec(a: int, b: int) -> int
    decreases b,
{
    if b <= 0 {
        a
    } else {
        gcd_spec(b, a % b)
    }
}

/// The common multiple that folding `lcm(a, b) = a * b / gcd(a, b)` over the
/// numbers gives, starting from 1.
pub open spec fn lcm_spec(s: Seq<i64>) -> int
    decreases s.len(),
{
    if s.len() == 0 {
        1
    } else {
        let a = lcm_spec(s.drop_last());
        a * s.last() / gcd_spec(a, s.last() as int)
    }
}

/// Every product that the fold forms is an `i64`.
pub open spec fn lcm_fits(s: Seq<i64>) -> bool
    decreases s.len(),
{
    s.len() == 0 || (lcm_fits(s.drop_last()) && lcm_spec(s.drop_last()) * s.last() <= i64::MAX)
}

proof fn lemma_multiple(d: int, n: int)
    requires
        d > 0,
        n % d == 0,
    ensures
        n == d * (n / d),
{
    lemma_fundamental_div_mod(n, d);
}

proof fn lemma_is_multiple(d: int, k: int)
    requires
        d > 0,
    ensures
        (d * k) % d == 0,
{
    lemma_mod_multiples_basic(k, d);
    assert(k * d == d * k) by (nonlinear_arith);
}

/// What Euclid's algorithm returns divides both numbers, and every common
/// divisor divides it.
pub proof fn lemma_gcd(a: int, b: int)
    requires
        0 <= a,
        0 <= b,
    ensures
        0 <= gcd_spec(a, b),
        (a > 0 || b > 0) ==> gcd_spec(a, b) > 0 && a % gcd_spec(a, b) == 0 && b % gcd_spec(a, b)
            == 0,
        forall|d: int|
            d > 0 && a % d == 0 && b % d == 0 ==> #[trigger] (gcd_spec(a, b) % d) == 0,
    decreases b,
{
    if b > 0 {
        lemma_mod_pos_bound(a, b);
        lemma_gcd(b, a % b);
        let g = gcd_spec(b, a % b);
        let r = a % b;
        let q = a / b;
        lemma_fundamental_div_mod(a, b);
        lemma_multiple(g, b);
        lemma_multiple(g, r);
        let k = (b / g) * q + r / g;
        assert(a == g * k) by (nonlinear_arith)
            requires
                a == b * q + r,
                b == g * (b / g),
                r == g * (r / g),
                k == (b / g) * q + r / g,
        ;
        lemma_is_multiple(g, k);
        assert forall|d: int| d > 0 && a % d == 0 && b % d == 0 implies #[trigger] (gcd_spec(a, b)
            % d) == 0 by {
            lemma_multiple(d, a);
            lemma_multiple(d, b);
            let k2 = a / d - (b / d) * q;
            assert(r == d * k2) by (nonlinear_arith)
                requires
                    a == b * q + r,
                    a == d * (a / d),
                    b == d * (b / d),
                    k2 == a / d - (b / d) * q,
            ;
            lemma_is_multiple(d, k2);
            assert(g % d == 0);
        }
    } else if a > 0 {
        lemma_mod_self_0(a);
    }
}

/// One step of the fold: `a * b / gcd(a, b)` is positive and a multiple of
/// `a`, of `b`, and of everything that divides `a`.
pub proof fn lemma_lcm_step(a: int, b: int)
    requires
        a > 0,
        b > 0,
    ensures
        a * b / gcd_spec(a, b) > 0,
        (a * b / gcd_spec(a, b)) % a == 0,
        (a * b / gcd_spec(a, b)) % b == 0,
        forall|x: int| x > 0 && a % x == 0 ==> #[trigger] ((a * b / gcd_spec(a, b)) % x) == 0,
{
    lemma_gcd(a, b);
    let g = gcd_spec(a, b);
    let n = a * b / g;
    lemma_multiple(g, a);
    lemma_multiple(g, b);
    let ka = a / g;
    let kb = b / g;
    assert(a * b == g * (a * kb)) by (nonlinear_arith)
        requires
            b == g * kb,
    ;
    lemma_div_multiples_vanish(a * kb, g);
    assert(n == a * kb);
    assert(n == b * ka) by (nonlinear_arith)
        requires
            n == a * kb,
            a == g * ka,
            b == g * kb,
    ;
    lemma_is_multiple(a, kb);
    lemma_is_multiple(b, ka);
    assert(kb > 0) by (nonlinear_arith)
        requires
            b == g * kb,
            b > 0,
            g > 0,
    ;
    assert(n > 0) by (nonlinear_arith)
        requires
            n == a * kb,
            a > 0,
            kb > 0,
    ;
    assert forall|x: int| x > 0 && a % x == 0 implies #[trigger] (n % x) == 0 by {
        lemma_multiple(x, a);
        let kx = a / x;
        assert(n == x * (kx * kb)) by (nonlinear_arith)
            requires
                n == a * kb,
                a == x * kx,
        ;
        lemma_is_multiple(x, kx * kb);
    }
}

/// A list whose fold fits is one whose every prefix folds to a positive
/// number that fits.
pub proof fn lemma_lcm_prefix(s: Seq<i64>, k: int)
    requires
        lcm_fits(s),
        0 <= k <= s.len(),
        forall|i: int| 0 <= i < s.len() ==> #[trigger] s[i] > 0,
    ensures
        lcm_fits(s.take(k)),
        lcm_spec(s.take(k)) > 0,
    decreases s.len(),
{
    if k == s.len() {
        assert(s.take(k) =~= s);
        if s.len() > 0 {
            lemma_lcm_prefix(s.drop_last(), k - 1);
            assert(s.drop_last().take(k - 1) =~= s.drop_last());
            lemma_lcm_step(lcm_spec(s.drop_last()), s.last() as int);
        }
    } else {
        assert(s.drop_last().take(k) =~= s.take(k));
        lemma_lcm_prefix(s.drop_last(), k);
    }
}

/// The greatest common divisor of two non-negative numbers.
pub fn gcd(a: i64, b: i64) -> (g: i64)
    requires
        0 <= a,
        0 <= b,
    ensures
        g == gcd_spec(a as int, b as int),
        (a > 0 || b > 0) ==> g > 0 && a % g == 0 && b % g == 0,
        forall|d: int|
            d > 0 && a as int % d == 0 && b as int % d == 0 ==> #[trigger] (g as int % d) == 0,
    decreases b,
{
    proof {
        lemma_gcd(a as int, b as int);
    }
    if b == 0 {
        a
    } else {
        gcd(b, a % b)
    }
}

/// The least common multiple of positive numbers; 1 for none.
pub fn lcm(nums: &[i64]) -> (r: i64)
    requires
        forall|i: int| 0 <= i < nums@.len() ==> #[trigger] nums@[i] > 0,
        lcm_fits(nums@),
    ensures
        r == lcm_spec(nums@),
        r > 0,
        forall|i: int| 0 <= i < nums@.len() ==> r % #[trigger] nums@[i] == 0,
{
    let n = nums.len();
    let mut acc: i64 = 1;
    let mut i: usize = 0;
    while i < n
        invariant
            i <= n,
            n == nums@.len(),
            forall|j: int| 0 <= j < nums@.len() ==> #[trigger] nums@[j] > 0,
            lcm_fits(nums@),
            acc == lcm_spec(nums@.take(i as int)),
            acc > 0,
            forall|j: int| 0 <= j < i ==> acc % #[trigger] nums@[j] == 0,
        decreases n - i,
    {
        let b = nums[i];
        proof {
            assert(nums@.take(i + 1).drop_last() =~= nums@.take(i as int));
            assert(nums@.take(i + 1).last() == b);
            lemma_lcm_prefix(nums@, i + 1);
            lemma_lcm_step(acc as int, b as int);
        }
        let g = gcd(acc, b);
        let ghost before = acc;
        acc = acc * b / g;
        assert forall|j: int| 0 <= j < i + 1 implies acc % #[trigger] nums@[j] == 0 by {
            if j < i {
                assert(before % nums@[j] == 0);
            }
        }
        i += 1;
    }
    assert(nums@.take(n as int) =~= nums@);
    acc
}

/// A node of the network and the two nodes that it leads to.
#[derive(Debug)]
pub struct Node {
    pub name: Vec<char>,
    pub left: Vec<char>,
    pub right: Vec<char>,
}

/// The network and the turns to take, over and over.
#[derive(Debug)]
pub struct Game {
    pub map: Vec<Node>,
    pub directions: Vec<char>,
}

/// The network has a node named `name`.
pub open spec fn has_node(map: Seq<Node>, name: Seq<char>) -> bool {
    exists|i: int| 0 <= i < map.len() && (#[trigger] map[i]).name@ == name
}

/// The first node named `name`.
pub open spec fn node_at(map: Seq<Node>, name: Seq<char>) -> int {
    choose|i: int|
        0 <= i < map.len() && (#[trigger] map[i]).name@ == name && forall|j: int|
            0 <= j < i ==> (#[trigger] map[j]).name@ != name
}

/// Where turn number `k` leads from the node named `pos`: left on `L`,
/// right on anything else.
pub open spec fn turn(game: Game, pos: Seq<char>, k: int) -> Seq<char> {
    let node = game.map@[node_at(game.map@, pos)];
    if game.directions@[k % (game.directions@.len() as int)] == 'L' {
        node.left@
    } else {
        node.right@
    }
}

/// The node reached from `start` after `n` turns.
pub open spec fn node_after(game: Game, start: Seq<char>, n: int) -> Seq<char>
    decreases n,
{
    if n <= 0 {
        start
    } else {
        turn(game, node_after(game, start, n - 1), n - 1)
    }
}

/// The name ends the walk: `ZZZ` itself, or with `loose` any name ending
/// in `Z`.
pub open spec fn is_goal(name: Seq<char>, loose: bool) -> bool {
    if loose {
        name.len() > 0 && name.last() == 'Z'
    } else {
        name == seq!['Z', 'Z', 'Z']
    }
}

/// The walk from `start` first ends after `n` turns, and every node it
/// leaves is in the network.
pub open spec fn arrives(game: Game, start: Seq<char>, loose: bool, n: int) -> bool {
    &&& n >= 1
    &&& is_goal(node_after(game, start, n), loose)
    &&& forall|k: int| 1 <= k < n ==> !is_goal(#[trigger] node_after(game, start, k), loose)
    &&& forall|k: int| 0 <= k < n ==> has_node(game.map@, #[trigger] node_after(game, start, k))
}

/// The walk from `start` ends at some time, and the turns can be counted in
/// an `i64`.
pub open spec fn walk_ends(game: Game, start: Seq<char>, loose: bool) -> bool {
    game.directions@.len() > 0 && exists|n: int|
        #[trigger] arrives(game, start, loose, n) && n <= i64::MAX
}

/// Number of turns after which the walk from `start` ends.
pub open spec fn turns_from(game: Game, start: Seq<char>, loose: bool) -> int {
    choose|n: int| #[trigger] arrives(game, start, loose, n) && n <= i64::MAX
}

/// The name holds an `A`.
pub open spec fn is_start_name(name: Seq<char>) -> bool {
    exists|i: int| 0 <= i < name.len() && #[trigger] name[i] == 'A'
}

/// The lengths of the walks from the start nodes among the first `k` nodes,
/// in the order of the nodes.
pub open spec fn walk_lengths(game: Game, k: int) -> Seq<i64>
    decreases k,
{
    if k <= 0 {
        Seq::empty()
    } else if is_start_name(game.map@[k - 1].name@) {
        walk_lengths(game, k - 1).push(turns_from(game, game.map@[k - 1].name@, true) as i64)
    } else {
        walk_lengths(game, k - 1)
    }
}

fn same_name(a: &Vec<char>, b: &Vec<char>) -> (r: bool)
    ensures
        r == (a@ == b@),
{
    if a.len() != b.len() {
        return false;
    }
    let mut i: usize = 0;
    while i < a.len()
        invariant
            i <= a@.len(),
            a@.len() == b@.len(),
            forall|k: int| 0 <= k < i ==> a@[k] == b@[k],
        decreases a@.len() - i,
    {
        if a[i] != b[i] {
            return false;
        }
        i += 1;
    }
    assert(a@ =~= b@);
    true
}

fn find_node(map: &Vec<Node>, name: &Vec<char>) -> (i: usize)
    requires
        has_node(map@, name@),
    ensures
        i == node_at(map@, name@),
        i < map@.len(),
{
    let n = map.len();
    let mut i: usize = 0;
    while !same_name(&map[i].name, name)
        invariant
            i < map@.len(),
            n == map@.len(),
            has_node(map@, name@),
            forall|j: int| 0 <= j < i ==> (#[trigger] map@[j]).name@ != name@,
        decreases map@.len() - i,
    {
        proof {
            let w = choose|w: int| 0 <= w < map@.len() && (#[trigger] map@[w]).name@ == name@;
            assert(w > i);
        }
        i += 1;
    }
    proof {
        let c = node_at(map@, name@);
        if c < i {
            assert(map@[c].name@ != name@);
        } else if i < c {
            assert(map@[i as int].name@ != name@);
        }
    }
    i
}

fn goal_reached(name: &Vec<char>, loose: bool) -> (r: bool)
    ensures
        r == is_goal(name@, loose),
{
    let n = name.len();
    if loose {
        n > 0 && name[n - 1] == 'Z'
    } else {
        let r = n == 3 && name[0] == 'Z' && name[1] == 'Z' && name[2] == 'Z';
        proof {
            if r {
                assert(name@ =~= seq!['Z', 'Z', 'Z']);
            }
        }
        r
    }
}

/// Number of turns after which the walk from `start` ends.
pub fn count_turns(game: &Game, start: &Vec<char>, loose: bool) -> (steps: i64)
    requires
        walk_ends(*game, start@, loose),
    ensures
        steps == turns_from(*game, start@, loose),
        steps >= 1,
{
    let ghost target = turns_from(*game, start@, loose);
    let turns = game.directions.len();
    let mut pos: &Vec<char> = start;
    let mut steps: i64 = 0;
    let mut at: usize = 0;
    loop
        invariant
            arrives(*game, start@, loose, target),
            target <= i64::MAX,
            0 <= steps < target,
            turns == game.directions@.len(),
            turns > 0,
            at == steps as int % (turns as int),
            pos@ == node_after(*game, start@, steps as int),
        decreases target - steps,
    {
        assert(has_node(game.map@, node_after(*game, start@, steps as int)));
        let i = find_node(&game.map, pos);
        let node = &game.map[i];
        if game.directions[at] == 'L' {
            pos = &node.left;
        } else {
            pos = &node.right;
        }
        assert(pos@ == node_after(*game, start@, steps + 1));
        steps = steps + 1;
        at = if at + 1 == turns {
            0
        } else {
            at + 1
        };
        assert(at == steps as int % (turns as int)) by {
            lemma_next_turn(steps as int - 1, turns as int);
        }
        if goal_reached(pos, loose) {
            assert(steps == target);
            return steps;
        }
        assert(steps != target);
    }
}

proof fn lemma_next_turn(k: int, m: int)
    requires
        0 <= k,
        0 < m,
    ensures
        (k + 1) % m == if k % m + 1 == m {
            0
        } else {
            k % m + 1
        },
{
    lemma_fundamental_div_mod(k, m);
    lemma_mod_pos_bound(k, m);
    let q = k / m;
    let r = k % m;
    if r + 1 == m {
        assert(k + 1 == m * (q + 1)) by (nonlinear_arith)
            requires
                k == m * q + r,
                r + 1 == m,
        ;
        lemma_mod_multiples_basic(q + 1, m);
        assert((q + 1) * m == m * (q + 1)) by (nonlinear_arith);
    } else {
        assert(k + 1 == q * m + (r + 1)) by (nonlinear_arith)
            requires
                k == m * q + r,
        ;
        vstd::arithmetic::div_mod::lemma_fundamental_div_mod_converse(k + 1, m, q, r + 1);
    }
}

/// Number of turns that lead from the node `AAA` to the node `ZZZ`.
pub fn part1(game: &Game) -> (steps: i64)
    requires
        walk_ends(*game, seq!['A', 'A', 'A'], false),
    ensures
        steps == turns_from(*game, seq!['A', 'A', 'A'], false),
{
    let start = vec!['A', 'A', 'A'];
    assert(start@ =~= seq!['A', 'A', 'A']);
    count_turns(game, &start, false)
}

fn holds_a(name: &Vec<char>) -> (r: bool)
    ensures
        r == is_start_name(name@),
{
    let mut i: usize = 0;
    while i < name.len()
        invariant
            i <= name@.len(),
            forall|k: int| 0 <= k < i ==> name@[k] != 'A',
        decreases name@.len() - i,
    {
        if name[i] == 'A' {
            return true;
        }
        i += 1;
    }
    false
}

/// The least common multiple of the lengths of the walks that start at the
/// nodes whose names hold an `A` and end at a node whose name ends in `Z`.
pub fn part2(game: &Game) -> (r: i64)
    requires
        forall|i: int|
            0 <= i < game.map@.len() && is_start_name((#[trigger] game.map@[i]).name@) ==> walk_ends(
                *game,
                game.map@[i].name@,
                true,
            ),
        lcm_fits(walk_lengths(*game, game.map@.len() as int)),
    ensures
        r == lcm_spec(walk_lengths(*game, game.map@.len() as int)),
{
    let mut lengths: Vec<i64> = Vec::new();
    let mut i: usize = 0;
    while i < game.map.len()
        invariant
            i <= game.map@.len(),
            forall|k: int|
                0 <= k < game.map@.len() && is_start_name((#[trigger] game.map@[k]).name@)
                    ==> walk_ends(*game, game.map@[k].name@, true),
            lengths@ == walk_lengths(*game, i as int),
            forall|k: int| 0 <= k < lengths@.len() ==> #[trigger] lengths@[k] > 0,
        decreases game.map@.len() - i,
    {
        let node = &game.map[i];
        if holds_a(&node.name) {
            let n = count_turns(game, &node.name, true);
            lengths.push(n);
        }
        i += 1;
    }
    lcm(lengths.as_slice())
}

} // verus!
