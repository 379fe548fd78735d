//! Calibration values: the first and the last digit of every line.

use crate::text::chars_of;
use vstd::prelude::*;

verus! {

pub open spec fn is_digit_char(c: char) -> bool {
    '0' <= c <= '9'
}

/// The value of a decimal digit.
pub open spec fn digit_value(c: char) -> int {
    c as int - 48
}

/// The line holds a digit.
#[verifier::opaque]
pub open spec fn has_digit(line: Seq<char>) -> bool {
    exists|i: int| 0 <= i < line.len() && #[trigger] is_digit_char(line[i])
}

/// Position of the first digit of a line that has one.
pub open spec fn first_digit_at(line: Seq<char>) -> int {
    choose|i: int|
        0 <= i < line.len() && #[trigger] is_digit_char(line[i]) && forall|j: int|
            0 <= j < i ==> !#[trigger] is_digit_char(line[j])
}

/// Position of the last digit of a line that has one.
pub open spec fn last_digit_at(line: Seq<char>) -> int {
    choose|i: int|
        0 <= i < line.len() && #[trigger] is_digit_char(line[i]) && forall|j: int|
            i < j < line.len() ==> !#[trigger] is_digit_char(line[j])
}

/// The two-digit number made of the first and the last digit of the line.
#[verifier::opaque]
pub open spec fn line_value(line: Seq<char>) -> int {
    10 * digit_value(line[first_digit_at(line)]) + digit_value(line[last_digit_at(line)])
}

/// Sum of the values of the first `k` lines.
pub open spec fn value_sum(lines: Seq<String>, k: int) -> int
    decreases k,
{
    if k <= 0 {
        0
    } else {
        value_sum(lines, k - 1) + line_value(lines[k - 1]@)
    }
}

/// Every running sum is a `u32`.
pub open spec fn values_fit(lines: Seq<String>, k: int) -> bool
    decreases k,
{
    k <= 0 || (values_fit(lines, k - 1) && value_sum(lines, k) <= u32::MAX)
}

proof fn lemma_values_prefix(lines: Seq<String>, k: int, n: int)
    requires
        0 <= k <= n,
        values_fit(lines, n),
    ensures
        values_fit(lines, k),
    decreases n - k,
{
    if k < n {
        lemma_values_prefix(lines, k, n - 1);
    }
}

proof fn lemma_values_step(lines: Seq<String>, i: int, n: int)
    requires
        0 <= i < n,
        values_fit(lines, n),
    ensures
        value_sum(lines, i + 1) == value_sum(lines, i) + line_value(lines[i]@),
        value_sum(lines, i + 1) <= u32::MAX,
{
    lemma_values_prefix(lines, i + 1, n);
}

fn is_digit(c: char) -> (b: bool)
    ensures
        b == is_digit_char(c),
{
    '0' <= c && c <= '9'
}

fn value_of(c: char) -> (v: u32)
    requires
        is_digit_char(c),
    ensures
        v == digit_value(c),
        v <= 9,
{
    c as u32 - 48
}

/// The value of one line: ten times its first digit plus its last digit.
pub fn calibration_value(line: &Vec<char>) -> (v: u32)
    requires
        has_digit(line@),
    ensures
        v == line_value(line@),
        v <= 99,
{
    proof {
        reveal(has_digit);
        reveal(line_value);
    }
    let n = line.len();
    let mut first: usize = 0;
    while !is_digit(line[first])
        invariant
            first < n,
            n == line@.len(),
            has_digit(line@),
            forall|j: int| 0 <= j < first ==> !#[trigger] is_digit_char(line@[j]),
        decreases n - first,
    {
        proof {
            reveal(has_digit);
            let w = choose|i: int| 0 <= i < line@.len() && #[trigger] is_digit_char(line@[i]);
            assert(w > first);
        }
        first += 1;
    }
    let mut last: usize = n - 1;
    while !is_digit(line[last])
        invariant
            first <= last < n,
            n == line@.len(),
            is_digit_char(line@[first as int]),
            forall|j: int| last < j < n ==> !#[trigger] is_digit_char(line@[j]),
        decreases last,
    {
        last -= 1;
    }
    proof {
        let f = first_digit_at(line@);
        let l = last_digit_at(line@);
        assert(is_digit_char(line@[first as int]));
        assert(is_digit_char(line@[last as int]));
        assert(f == first) by {
            if f < first {
                assert(!is_digit_char(line@[f]));
            } else if first < f {
                assert(!is_digit_char(line@[first as int]));
            }
        }
        assert(l == last) by {
            if l > last {
                assert(!is_digit_char(line@[l]));
            } else if last > l {
                assert(!is_digit_char(line@[last as int]));
            }
        }
    }
    10 * value_of(line[first]) + value_of(line[last])
}

/// The sum of the calibration values of all lines.
pub fn part1(nums: &[String]) -> (r: u32)
    requires
        forall|i: int| 0 <= i < nums@.len() ==> has_digit(#[trigger] nums@[i]@),
        values_fit(nums@, nums@.len() as int),
    ensures
        r == value_sum(nums@, nums@.len() as int),
{
    let n = nums.len();
    let mut total: u32 = 0;
    let mut i: usize = 0;
    while i < n
        invariant
            i <= n,
            n == nums@.len(),
            forall|k: int| 0 <= k < nums@.len() ==> has_digit(#[trigger] nums@[k]@),
            values_fit(nums@, n as int),
            total == value_sum(nums@, i as int),
        decreases n - i,
    {
        proof {
            lemma_values_step(nums@, i as int, n as int);
        }
        let line = chars_of(nums[i].as_str());
        let v = calibration_value(&line);
        total = total + v;
        i += 1;
    }
    total
}

/// `s` with every occurrence of `word` replaced by `with`, going from left
/// to right and never looking at a character twice.
pub open spec fn replace_all(s: Seq<char>, word: Seq<char>, with: Seq<char>) -> Seq<char>
    decreases s.len(),
{
    if word.len() == 0 || s.len() < word.len() {
        s
    } else if s.take(word.len() as int) == word {
        with + replace_all(s.skip(word.len() as int), word, with)
    } else {
        seq![s[0]] + replace_all(s.skip(1), word, with)
    }
}

/// The line with every spelled-out digit marked by its digit: `one` becomes
/// `o1e`, then `two` becomes `t2o`, and so on up to `nine`.
pub open spec fn spelled(line: Seq<char>) -> Seq<char> {
    let s1 = replace_all(line, seq!['o', 'n', 'e'], seq!['o', '1', 'e']);
    let s2 = replace_all(s1, seq!['t', 'w', 'o'], seq!['t', '2', 'o']);
    let s3 = replace_all(s2, seq!['t', 'h', 'r', 'e', 'e'], seq!['t', '3', 'e']);
    let s4 = replace_all(s3, seq!['f', 'o', 'u', 'r'], seq!['f', '4', 'r']);
    let s5 = replace_all(s4, seq!['f', 'i', 'v', 'e'], seq!['f', '5', 'e']);
    let s6 = replace_all(s5, seq!['s', 'i', 'x'], seq!['s', '6', 'x']);
    let s7 = replace_all(s6, seq!['s', 'e', 'v', 'e', 'n'], seq!['s', '7', 'n']);
    let s8 = replace_all(s7, seq!['e', 'i', 'g', 'h', 't'], seq!['e', '8', 't']);
    replace_all(s8, seq!['n', 'i', 'n', 'e'], seq!['n', '9', 'e'])
}

/// Sum of the values of the first `k` lines, spelled-out digits counted.
pub open spec fn spelled_sum(lines: Seq<String>, k: int) -> int
    decreases k,
{
    if k <= 0 {
        0
    } else {
        spelled_sum(lines, k - 1) + line_value(spelled(lines[k - 1]@))
    }
}

/// Every running sum is a `u32`.
pub open spec fn spelled_fit(lines: Seq<String>, k: int) -> bool
    decreases k,
{
    k <= 0 || (spelled_fit(lines, k - 1) && spelled_sum(lines, k) <= u32::MAX)
}

proof fn lemma_spelled_step(lines: Seq<String>, i: int, n: int)
    requires
        0 <= i < n,
        spelled_fit(lines, n),
    ensures
        spelled_sum(lines, i + 1) == spelled_sum(lines, i) + line_value(spelled(lines[i]@)),
        spelled_sum(lines, i + 1) <= u32::MAX,
    decreases n - i,
{
    if i + 1 < n {
        lemma_spelled_step(lines, i, n - 1);
    }
}

fn starts_with(s: &Vec<char>, at: usize, word: &Vec<char>) -> (b: bool)
    requires
        at + word@.len() <= s@.len(),
    ensures
        b == (s@.skip(at as int).take(word@.len() as int) == word@),
{
    let ghost head = s@.skip(at as int).take(word@.len() as int);
    let n = s.len();
    let mut k: usize = 0;
    while k < word.len()
        invariant
            k <= word@.len(),
            n == s@.len(),
            at + word@.len() <= s@.len(),
            head == s@.skip(at as int).take(word@.len() as int),
            forall|j: int| 0 <= j < k ==> #[trigger] head[j] == word@[j],
        decreases word@.len() - k,
    {
        assert(head[k as int] == s@[at + k]);
        if s[at + k] != word[k] {
            return false;
        }
        k += 1;
    }
    assert(head =~= word@);
    true
}

/// Replaces every occurrence of `word` in `s` by `with`, from left to right.
pub fn replace(s: &Vec<char>, word: &Vec<char>, with: &Vec<char>) -> (r: Vec<char>)
    requires
        word@.len() > 0,
    ensures
        r@ == replace_all(s@, word@, with@),
{
    let n = s.len();
    let m = word.len();
    let mut out: Vec<char> = Vec::new();
    let mut i: usize = 0;
    assert(s@.skip(0) =~= s@);
    while i < n
        invariant
            i <= n,
            n == s@.len(),
            m == word@.len(),
            m > 0,
            replace_all(s@, word@, with@) == out@ + replace_all(s@.skip(i as int), word@, with@),
        decreases n - i,
    {
        let ghost rest = s@.skip(i as int);
        let ghost before = out@;
        if n - i >= m && starts_with(s, i, word) {
            let mut k: usize = 0;
            while k < with.len()
                invariant
                    k <= with@.len(),
                    out@ == before + with@.take(k as int),
                decreases with@.len() - k,
            {
                out.push(with[k]);
                assert(out@ =~= before + with@.take(k + 1));
                k += 1;
            }
            assert(with@.take(with@.len() as int) =~= with@);
            assert(rest.skip(m as int) =~= s@.skip(i + m));
            assert(out@ + replace_all(s@.skip(i + m), word@, with@) =~= before + (with@
                + replace_all(rest.skip(m as int), word@, with@)));
            i += m;
        } else if n - i < m {
            out.push(s[i]);
            proof {
                lemma_short_rest(rest, word@, with@);
                lemma_short_rest(rest.skip(1), word@, with@);
                assert(rest.skip(1) =~= s@.skip(i + 1));
                assert(rest =~= seq![rest[0]] + rest.skip(1));
                assert(out@ + replace_all(s@.skip(i + 1), word@, with@) =~= before + rest);
            }
            i += 1;
        } else {
            out.push(s[i]);
            assert(rest.skip(1) =~= s@.skip(i + 1));
            assert(out@ + replace_all(s@.skip(i + 1), word@, with@) =~= before + (seq![rest[0]]
                + replace_all(rest.skip(1), word@, with@)));
            i += 1;
        }
    }
    assert(s@.skip(n as int) =~= Seq::<char>::empty());
    assert(out@ + Seq::<char>::empty() =~= out@);
    out
}

proof fn lemma_short_rest(s: Seq<char>, word: Seq<char>, with: Seq<char>)
    requires
        s.len() < word.len(),
    ensures
        replace_all(s, word, with) == s,
{
}

/// The line with every spelled-out digit marked by its digit.
pub fn spell_out(line: &Vec<char>) -> (r: Vec<char>)
    ensures
        r@ == spelled(line@),
{
    let s1 = replace(line, &vec!['o', 'n', 'e'], &vec!['o', '1', 'e']);
    let s2 = replace(&s1, &vec!['t', 'w', 'o'], &vec!['t', '2', 'o']);
    let s3 = replace(&s2, &vec!['t', 'h', 'r', 'e', 'e'], &vec!['t', '3', 'e']);
    let s4 = replace(&s3, &vec!['f', 'o', 'u', 'r'], &vec!['f', '4', 'r']);
    let s5 = replace(&s4, &vec!['f', 'i', 'v', 'e'], &vec!['f', '5', 'e']);
    let s6 = replace(&s5, &vec!['s', 'i', 'x'], &vec!['s', '6', 'x']);
    let s7 = replace(&s6, &vec!['s', 'e', 'v', 'e', 'n'], &vec!['s', '7', 'n']);
    let s8 = replace(&s7, &vec!['e', 'i', 'g', 'h', 't'], &vec!['e', '8', 't']);
    replace(&s8, &vec!['n', 'i', 'n', 'e'], &vec!['n', '9', 'e'])
}

/// The sum of the calibration values of all lines, where a digit may also
/// be spelled out.
pub fn part2(nums: &[String]) -> (r: u32)
    requires
        forall|i: int| 0 <= i < nums@.len() ==> has_digit(spelled(#[trigger] nums@[i]@)),
        spelled_fit(nums@, nums@.len() as int),
    ensures
        r == spelled_sum(nums@, nums@.len() as int),
{
    let n = nums.len();
    let mut total: u32 = 0;
    let mut i: usize = 0;
    while i < n
        invariant
            i <= n,
            n == nums@.len(),
            forall|k: int| 0 <= k < nums@.len() ==> has_digit(spelled(#[trigger] nums@[k]@)),
            spelled_fit(nums@, n as int),
            total == spelled_sum(nums@, i as int),
        decreases n - i,
    {
        proof {
            lemma_spelled_step(nums@, i as int, n as int);
        }
        let line = chars_of(nums[i].as_str());
        let marked = spell_out(&line);
        let v = calibration_value(&marked);
        total = total + v;
        i += 1;
    }
    total
}

} // verus!
