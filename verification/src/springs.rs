//! Rows of springs with unknown cells: in how many ways the unknown cells
//! can be filled so that the groups of springs have the sizes asked for.

use crate::text::{chars_of, i32_of_chars, parse_i32_chars};
use vstd::arithmetic::div_mod::lemma_div_denominator;
use vstd::prelude::*;

verus! {

/// Number of `?` among the first `k` characters.
pub open spec fn unknowns(s: Seq<char>, k: int) -> int
    decreases k,
{
    if k <= 0 {
        0
    } else {
        unknowns(s, k - 1) + if s[k - 1] == '?' {
            1int
        } else {
            0int
        }
    }
}

/// Two to the power `e`.
pub open spec fn pow2(e: int) -> int
    decreases e,
{
    if e <= 0 {
        1
    } else {
        2 * pow2(e - 1)
    }
}

/// Whether the `k`-th unknown cell holds a spring under the choice `mask`:
/// bit `k` of `mask`.
pub open spec fn chosen(mask: int, k: int) -> bool {
    (mask / pow2(k)) % 2 == 1
}

/// The row with its `?` cells filled as `mask` says: `#` for a chosen cell
/// and `.` for any other.
pub open spec fn filled(records: Seq<char>, mask: int) -> Seq<char> {
    Seq::new(
        records.len(),
        |i: int|
            if records[i] == '?' {
                if chosen(mask, unknowns(records, i)) {
                    '#'
                } else {
                    '.'
                }
            } else {
                records[i]
            },
    )
}

/// The sizes of the groups of a row: its maximal runs of cells that are not
/// `.`, from left to right.
pub open spec fn groups(s: Seq<char>) -> Seq<int>
    decreases s.len(),
{
    if s.len() == 0 {
        Seq::empty()
    } else {
        let before = groups(s.drop_last());
        if s.last() == '.' {
            before
        } else if s.len() >= 2 && s[s.len() - 2] != '.' {
            before.drop_last().push(before.last() + 1)
        } else {
            before.push(1)
        }
    }
}

/// The pieces of `s` between the separators; there is always one piece.
pub open spec fn pieces(s: Seq<char>, sep: char) -> Seq<Seq<char>>
    decreases s.len(),
{
    if s.len() == 0 {
        seq![Seq::empty()]
    } else {
        let before = pieces(s.drop_last(), sep);
        if s.last() == sep {
            before.push(Seq::empty())
        } else {
            before.drop_last().push(before.last().push(s.last()))
        }
    }
}

/// Where the first space of the line stands.
pub open spec fn first_space(line: Seq<char>) -> int {
    choose|i: int|
        0 <= i < line.len() && line[i] == ' ' && forall|j: int|
            0 <= j < i ==> #[trigger] line[j] != ' '
}

/// The cells of a line: what stands before its first space.
pub open spec fn records_of(line: Seq<char>) -> Seq<char> {
    line.take(first_space(line))
}

/// The words for the group sizes: what stands after the first space, cut at
/// the commas.
pub open spec fn size_words(line: Seq<char>) -> Seq<Seq<char>> {
    pieces(line.skip(first_space(line) + 1), ',')
}

/// The group sizes that the line asks for.
pub open spec fn sizes_of(line: Seq<char>) -> Seq<int> {
    Seq::new(size_words(line).len(), |i: int| i32_of_chars(size_words(line)[i]).unwrap() as int)
}

/// The line has a space, every size is a decimal `i32`, and between 2 and
/// 62 cells are unknown.
pub open spec fn is_spring_line(line: Seq<char>) -> bool {
    &&& exists|i: int| 0 <= i < line.len() && #[trigger] line[i] == ' '
    &&& forall|i: int|
        0 <= i < size_words(line).len() ==> i32_of_chars(#[trigger] size_words(line)[i]).is_some()
    &&& 2 <= unknowns(line, line.len() as int) <= 62
    &&& unknowns(line, line.len() as int) == unknowns(
        records_of(line),
        records_of(line).len() as int,
    )
}

/// Number of the choices below `bound` under which the groups of the row
/// have the sizes `wanted`.
pub open spec fn ways_below(records: Seq<char>, wanted: Seq<int>, bound: int) -> int
    decreases bound,
{
    if bound <= 0 {
        0
    } else {
        ways_below(records, wanted, bound - 1) + if groups(filled(records, bound - 1)) == wanted {
            1int
        } else {
            0int
        }
    }
}

/// Number of ways to fill the unknown cells of a line.
pub open spec fn line_ways(line: Seq<char>) -> int {
    ways_below(records_of(line), sizes_of(line), pow2(unknowns(line, line.len() as int)))
}

/// Sum of the ways of the first `k` lines.
pub open spec fn ways_sum(lines: Seq<String>, k: int) -> int
    decreases k,
{
    if k <= 0 {
        0
    } else {
        ways_sum(lines, k - 1) + line_ways(lines[k - 1]@)
    }
}

/// Every running sum is an `i32`.
pub open spec fn ways_fit(lines: Seq<String>, k: int) -> bool
    decreases k,
{
    k <= 0 || (ways_fit(lines, k - 1) && ways_sum(lines, k) <= i32::MAX)
}

proof fn lemma_ways_step(lines: Seq<String>, i: int, n: int)
    requires
        0 <= i < n,
        ways_fit(lines, n),
    ensures
        ways_sum(lines, i + 1) == ways_sum(lines, i) + line_ways(lines[i]@),
        ways_sum(lines, i + 1) <= i32::MAX,
    decreases n - i,
{
    if i + 1 < n {
        lemma_ways_step(lines, i, n - 1);
    }
}

proof fn lemma_ways_below_bounds(records: Seq<char>, wanted: Seq<int>, j: int, k: int)
    requires
        0 <= j <= k,
    ensures
        0 <= ways_below(records, wanted, j) <= ways_below(records, wanted, k),
        ways_below(records, wanted, j) <= j,
    decreases k,
{
    if j < k {
        lemma_ways_below_bounds(records, wanted, j, k - 1);
    } else if j > 0 {
        lemma_ways_below_bounds(records, wanted, j - 1, k - 1);
    }
}

proof fn lemma_pow2(e: int)
    requires
        0 <= e,
    ensures
        pow2(e) >= 1,
        pow2(e + 1) == 2 * pow2(e),
    decreases e,
{
    if e > 0 {
        lemma_pow2(e - 1);
    }
}

proof fn lemma_pow2_grows(a: int, b: int)
    requires
        0 <= a <= b,
    ensures
        1 <= pow2(a) <= pow2(b),
    decreases b - a,
{
    lemma_pow2(a);
    if a < b {
        lemma_pow2_grows(a, b - 1);
        lemma_pow2(b - 1);
    }
}

proof fn lemma_unknowns_bounds(s: Seq<char>, j: int, k: int)
    requires
        0 <= j <= k,
    ensures
        0 <= unknowns(s, j) <= unknowns(s, k),
    decreases k,
{
    if j < k {
        lemma_unknowns_bounds(s, j, k - 1);
    } else if j > 0 {
        lemma_unknowns_bounds(s, j - 1, k - 1);
    }
}

/// Number of `?` in the characters.
pub fn count_unknowns(s: &Vec<char>) -> (n: usize)
    ensures
        n == unknowns(s@, s@.len() as int),
{
    let mut n: usize = 0;
    let mut k: usize = 0;
    while k < s.len()
        invariant
            k <= s@.len(),
            n == unknowns(s@, k as int),
            n <= k,
        decreases s@.len() - k,
    {
        if s[k] == '?' {
            n += 1;
        }
        k += 1;
    }
    n
}

/// The row with its unknown cells filled as `mask` says.
pub fn fill_in(records: &Vec<char>, mask: u64) -> (r: Vec<char>)
    ensures
        r@ == filled(records@, mask as int),
{
    let mut out: Vec<char> = Vec::new();
    let mut bits: u64 = mask;
    let mut i: usize = 0;
    while i < records.len()
        invariant
            i <= records@.len(),
            out@.len() == i,
            bits == mask as int / pow2(unknowns(records@, i as int)),
            forall|k: int| 0 <= k < i ==> #[trigger] out@[k] == filled(records@, mask as int)[k],
        decreases records@.len() - i,
    {
        let c = records[i];
        if c == '?' {
            let ghost q = unknowns(records@, i as int);
            proof {
                lemma_unknowns_bounds(records@, 0, i as int);
                lemma_pow2(q);
                lemma_div_denominator(mask as int, pow2(q), 2);
                assert(pow2(q) * 2 == pow2(q + 1));
            }
            if bits % 2 == 1 {
                out.push('#');
            } else {
                out.push('.');
            }
            bits = bits / 2;
        } else {
            out.push(c);
        }
        i += 1;
    }
    assert(out@ =~= filled(records@, mask as int));
    out
}

/// The sizes of the groups of a row.
pub fn group_sizes(s: &Vec<char>) -> (g: Vec<usize>)
    ensures
        g@.len() == groups(s@).len(),
        forall|i: int| 0 <= i < g@.len() ==> #[trigger] g@[i] == groups(s@)[i],
{
    let mut g: Vec<usize> = Vec::new();
    let mut i: usize = 0;
    while i < s.len()
        invariant
            i <= s@.len(),
            g@.len() == groups(s@.take(i as int)).len(),
            forall|k: int| 0 <= k < g@.len() ==> #[trigger] g@[k] == groups(s@.take(i as int))[k],
            forall|k: int| 0 <= k < g@.len() ==> 1 <= #[trigger] g@[k] <= i,
            i > 0 && s@[i - 1] != '.' ==> g@.len() > 0,
        decreases s@.len() - i,
    {
        assert(s@.take(i + 1).drop_last() =~= s@.take(i as int));
        assert(s@.take(i + 1).last() == s@[i as int]);
        if s[i] != '.' {
            if i > 0 && s[i - 1] != '.' {
                let last = g.len() - 1;
                let size = g[last];
                g.set(last, size + 1);
            } else {
                g.push(1);
            }
        }
        i += 1;
    }
    assert(s@.take(s@.len() as int) =~= s@);
    g
}

fn same_sizes(found: &Vec<usize>, wanted: &Vec<i32>, Ghost(a): Ghost<Seq<int>>, Ghost(b): Ghost<Seq<int>>) -> (r:
    bool)
    requires
        a.len() == found@.len(),
        forall|i: int| 0 <= i < a.len() ==> #[trigger] a[i] == found@[i],
        b.len() == wanted@.len(),
        forall|i: int| 0 <= i < b.len() ==> #[trigger] b[i] == wanted@[i],
    ensures
        r == (a == b),
{
    if found.len() != wanted.len() {
        return false;
    }
    let mut i: usize = 0;
    while i < found.len()
        invariant
            i <= found@.len(),
            found@.len() == wanted@.len(),
            a.len() == found@.len(),
            b.len() == wanted@.len(),
            forall|k: int| 0 <= k < a.len() ==> #[trigger] a[k] == found@[k],
            forall|k: int| 0 <= k < b.len() ==> #[trigger] b[k] == wanted@[k],
            forall|k: int| 0 <= k < i ==> #[trigger] a[k] == b[k],
        decreases found@.len() - i,
    {
        let w = wanted[i];
        if w < 0 || found[i] != w as usize {
            assert(a[i as int] != b[i as int]);
            return false;
        }
        i += 1;
    }
    assert(a =~= b);
    true
}

/// Cuts the characters at every separator.
pub fn split_on(s: &Vec<char>, from: usize, sep: char) -> (r: Vec<Vec<char>>)
    requires
        from <= s@.len(),
    ensures
        r@.len() == pieces(s@.skip(from as int), sep).len(),
        forall|i: int| 0 <= i < r@.len() ==> (#[trigger] r@[i])@ == pieces(s@.skip(from as int), sep)[i],
{
    let ghost t = s@.skip(from as int);
    let mut done: Vec<Vec<char>> = Vec::new();
    let mut cur: Vec<char> = Vec::new();
    let mut i: usize = from;
    assert(t.take(0) =~= Seq::<char>::empty());
    while i < s.len()
        invariant
            from <= i <= s@.len(),
            t == s@.skip(from as int),
            pieces(t.take(i - from), sep).len() == done@.len() + 1,
            forall|k: int|
                0 <= k < done@.len() ==> (#[trigger] done@[k])@ == pieces(t.take(i - from), sep)[k],
            pieces(t.take(i - from), sep)[done@.len() as int] == cur@,
        decreases s@.len() - i,
    {
        assert(t.take(i + 1 - from).drop_last() =~= t.take(i - from));
        assert(t.take(i + 1 - from).last() == s@[i as int]);
        let ghost before = pieces(t.take(i - from), sep);
        if s[i] == sep {
            done.push(cur);
            cur = Vec::new();
        } else {
            cur.push(s[i]);
        }
        i += 1;
    }
    assert(t.take(s@.len() - from) =~= t);
    done.push(cur);
    done
}

/// Number of ways to fill the unknown cells of a line such as
/// `???.### 1,1,3`.
pub fn count_line(line: &Vec<char>) -> (n: i64)
    requires
        is_spring_line(line@),
    ensures
        n == line_ways(line@),
        0 <= n,
{
    let len = line.len();
    let mut sp: usize = 0;
    while line[sp] != ' '
        invariant
            sp < line@.len(),
            len == line@.len(),
            exists|i: int| 0 <= i < line@.len() && #[trigger] line@[i] == ' ',
            forall|j: int| 0 <= j < sp ==> #[trigger] line@[j] != ' ',
        decreases line@.len() - sp,
    {
        proof {
            let w = choose|i: int| 0 <= i < line@.len() && #[trigger] line@[i] == ' ';
            assert(w > sp);
        }
        sp += 1;
    }
    proof {
        let f = first_space(line@);
        assert(f == sp) by {
            if f < sp {
                assert(line@[f] != ' ');
            } else if sp < f {
                assert(line@[sp as int] != ' ');
            }
        }
    }
    let mut records: Vec<char> = Vec::new();
    let mut i: usize = 0;
    while i < sp
        invariant
            i <= sp < line@.len(),
            records@.len() == i,
            forall|k: int| 0 <= k < i ==> #[trigger] records@[k] == line@[k],
        decreases sp - i,
    {
        records.push(line[i]);
        i += 1;
    }
    assert(records@ =~= records_of(line@));
    let words = split_on(line, sp + 1, ',');
    let mut wanted: Vec<i32> = Vec::new();
    let mut k: usize = 0;
    while k < words.len()
        invariant
            k <= words@.len(),
            words@.len() == size_words(line@).len(),
            forall|j: int| 0 <= j < words@.len() ==> (#[trigger] words@[j])@ == size_words(line@)[j],
            forall|j: int|
                0 <= j < size_words(line@).len() ==> i32_of_chars(
                    #[trigger] size_words(line@)[j],
                ).is_some(),
            wanted@.len() == k,
            forall|j: int| 0 <= j < k ==> #[trigger] wanted@[j] == sizes_of(line@)[j],
        decreases words@.len() - k,
    {
        assert(words@[k as int]@ == size_words(line@)[k as int]);
        let size = parse_i32_chars(&words[k]);
        wanted.push(size.unwrap());
        k += 1;
    }
    let q = count_unknowns(&records);
    let ghost rec = records@;
    let ghost want = sizes_of(line@);
    proof {
        lemma_pow2_grows(q as int, 62);
        lemma_pow2_62();
    }
    let mut bound: u64 = 1;
    let mut e: usize = 0;
    while e < q
        invariant
            e <= q <= 62,
            bound == pow2(e as int),
            pow2(q as int) <= pow2(62),
            pow2(62) == 0x4000_0000_0000_0000,
        decreases q - e,
    {
        proof {
            lemma_pow2(e as int);
            lemma_pow2_grows(e + 1, q as int);
        }
        bound = bound * 2;
        e += 1;
    }
    let mut n: i64 = 0;
    let mut mask: u64 = 0;
    while mask < bound
        invariant
            mask <= bound,
            bound <= 0x4000_0000_0000_0000,
            rec == records@,
            want.len() == wanted@.len(),
            forall|j: int| 0 <= j < want.len() ==> #[trigger] want[j] == wanted@[j],
            n == ways_below(rec, want, mask as int),
            0 <= n <= mask,
        decreases bound - mask,
    {
        let row = fill_in(&records, mask);
        let found = group_sizes(&row);
        if same_sizes(&found, &wanted, Ghost(groups(row@)), Ghost(want)) {
            n += 1;
        }
        mask += 1;
    }
    n
}

proof fn lemma_pow2_62()
    ensures
        pow2(62) == 0x4000_0000_0000_0000,
{
    reveal_with_fuel(pow2, 64);
}

/// The number of ways to fill the unknown cells, summed over all lines.
pub fn part1(input: &[String]) -> (r: i32)
    requires
        input@.len() >= 1,
        forall|i: int| 0 <= i < input@.len() ==> is_spring_line(#[trigger] input@[i]@),
        ways_fit(input@, input@.len() as int),
    ensures
        r == ways_sum(input@, input@.len() as int),
{
    let n = input.len();
    let mut total: i64 = 0;
    let mut i: usize = 0;
    while i < n
        invariant
            i <= n,
            n == input@.len(),
            forall|k: int| 0 <= k < input@.len() ==> is_spring_line(#[trigger] input@[k]@),
            ways_fit(input@, n as int),
            total == ways_sum(input@, i as int),
            0 <= total <= i32::MAX,
        decreases n - i,
    {
        proof {
            lemma_ways_step(input@, i as int, n as int);
        }
        let line = chars_of(input[i].as_str());
        let ways = count_line(&line);
        total = total + ways;
        i += 1;
    }
    total as i32
}

} // verus!
