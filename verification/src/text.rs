//! The lexical layer of the input format: lines, words and decimal numbers.

use vstd::prelude::*;

verus! {

/// `'\n'`, which ends a line.
pub const NEWLINE: u8 = 10;

/// `'+'`.
pub const PLUS: u8 = 43;

/// `'-'`.
pub const MINUS: u8 = 45;

/// `'0'`.
pub const DIGIT_ZERO: u8 = 48;

/// `'9'`.
pub const DIGIT_NINE: u8 = 57;

/// One more than the largest `i64`: the largest magnitude a number may have.
pub const MAGNITUDE_LIMIT: i128 = 9223372036854775808;

/// ASCII white space: tab, line feed, vertical tab, form feed, carriage
/// return and space.
pub open spec fn is_space(b: u8) -> bool {
    b == 32 || 9 <= b <= 13
}

pub open spec fn is_digit(b: u8) -> bool {
    DIGIT_ZERO <= b <= DIGIT_NINE
}

/// The views of a list of byte vectors.
pub open spec fn rows(v: Seq<Vec<u8>>) -> Seq<Seq<u8>> {
    Seq::new(v.len(), |i: int| v[i]@)
}

/// The lines of a text, without their line feeds. Every line feed ends a
/// line, and bytes after the last line feed form a last line.
///
/// Defined by what one more byte does to the lines before it: a line feed
/// closes the open line (or stands for an empty one), any other byte extends
/// the open line (or opens one).
pub open spec fn lines_of(s: Seq<u8>) -> Seq<Seq<u8>>
    decreases s.len(),
{
    if s.len() == 0 {
        Seq::empty()
    } else {
        let before = lines_of(s.drop_last());
        let fresh = s.len() == 1 || s[s.len() - 2] == NEWLINE;
        if s.last() == NEWLINE {
            if fresh {
                before.push(Seq::empty())
            } else {
                before
            }
        } else if fresh {
            before.push(seq![s.last()])
        } else {
            before.drop_last().push(before.last().push(s.last()))
        }
    }
}

/// The words of a line: its maximal runs of bytes that are not white space.
///
/// Defined by what one more byte does to the words before it: white space
/// changes nothing, any other byte extends the word that ends just before it
/// or, after white space, starts a new word.
pub open spec fn tokens_of(s: Seq<u8>) -> Seq<Seq<u8>>
    decreases s.len(),
{
    if s.len() == 0 {
        Seq::empty()
    } else {
        let before = tokens_of(s.drop_last());
        if is_space(s.last()) {
            before
        } else if s.len() >= 2 && !is_space(s[s.len() - 2]) {
            before.drop_last().push(before.last().push(s.last()))
        } else {
            before.push(seq![s.last()])
        }
    }
}

pub open spec fn all_digits(s: Seq<u8>) -> bool {
    forall|i: int| 0 <= i < s.len() ==> is_digit(#[trigger] s[i])
}

/// The number that a string of decimal digits writes.
pub open spec fn digits_value(s: Seq<u8>) -> int
    decreases s.len(),
{
    if s.len() == 0 {
        0
    } else {
        digits_value(s.drop_last()) * 10 + (s.last() - DIGIT_ZERO)
    }
}

/// The integer that a word writes: an optional sign, then one or more
/// decimal digits and nothing else.
pub open spec fn number_of(t: Seq<u8>) -> Option<int> {
    let signed = t.len() > 0 && (t[0] == MINUS || t[0] == PLUS);
    let digits = if signed {
        t.skip(1)
    } else {
        t
    };
    if digits.len() == 0 || !all_digits(digits) {
        None
    } else if signed && t[0] == MINUS {
        Some(-digits_value(digits))
    } else {
        Some(digits_value(digits))
    }
}

/// The `i64` that a word writes, if it writes an integer that fits.
pub open spec fn i64_of(t: Seq<u8>) -> Option<i64> {
    match number_of(t) {
        Some(n) => if i64::MIN <= n <= i64::MAX {
            Some(n as i64)
        } else {
            None
        },
        None => None,
    }
}

/// Every word of `tokens` writes an `i64`.
pub open spec fn all_numbers(tokens: Seq<Seq<u8>>) -> bool {
    forall|i: int| 0 <= i < tokens.len() ==> i64_of(#[trigger] tokens[i]).is_some()
}

/// The numbers that the words write, if every one of them writes an `i64`.
pub open spec fn numbers_of(tokens: Seq<Seq<u8>>) -> Option<Seq<i64>> {
    if all_numbers(tokens) {
        Some(Seq::new(tokens.len(), |i: int| i64_of(tokens[i]).unwrap()))
    } else {
        None
    }
}

/// More digits never write a smaller number.
pub proof fn lemma_digits_monotone(s: Seq<u8>, k: int)
    requires
        all_digits(s),
        0 <= k <= s.len(),
    ensures
        0 <= digits_value(s.take(k)) <= digits_value(s),
    decreases s.len(),
{
    if s.len() == 0 {
        assert(s.take(k) =~= s);
    } else if k == s.len() {
        assert(s.take(k) =~= s);
        lemma_digits_monotone(s.drop_last(), k - 1);
        assert(is_digit(s.last()));
    } else {
        assert(s.drop_last().take(k) =~= s.take(k));
        lemma_digits_monotone(s.drop_last(), k);
        assert(is_digit(s.last()));
    }
}

/// Whether `b` is ASCII white space.
pub fn is_space_byte(b: u8) -> (r: bool)
    ensures
        r == is_space(b),
{
    b == 32 || (9 <= b && b <= 13)
}

/// Cuts `text` into its lines.
pub fn split_lines(text: &[u8]) -> (lines: Vec<Vec<u8>>)
    ensures
        rows(lines@) == lines_of(text@),
{
    let mut lines: Vec<Vec<u8>> = Vec::new();
    let mut cur: Vec<u8> = Vec::new();
    let mut open = false;
    let n = text.len();
    let mut i: usize = 0;
    while i < n
        invariant
            i <= n,
            n == text@.len(),
            open <==> i > 0 && text@[i - 1] != NEWLINE,
            !open ==> cur@.len() == 0,
            lines_of(text@.take(i as int)) == if open {
                rows(lines@).push(cur@)
            } else {
                rows(lines@)
            },
        decreases n - i,
    {
        let b = text[i];
        let ghost before = lines_of(text@.take(i as int));
        let ghost old_rows = rows(lines@);
        let ghost old_cur = cur@;
        assert(text@.take(i + 1).drop_last() =~= text@.take(i as int));
        assert(text@.take(i + 1).last() == b);
        if b == NEWLINE {
            if open {
                lines.push(cur);
                cur = Vec::new();
                open = false;
                assert(rows(lines@) =~= old_rows.push(old_cur));
            } else {
                lines.push(Vec::new());
                assert(rows(lines@) =~= old_rows.push(Seq::empty()));
            }
        } else {
            if open {
                assert(before.drop_last() =~= old_rows);
                assert(before.last() == old_cur);
            }
            cur.push(b);
            assert(rows(lines@) =~= old_rows);
            assert(!open ==> cur@ =~= seq![b]);
            open = true;
        }
        i += 1;
    }
    assert(text@.take(n as int) =~= text@);
    if open {
        let ghost old_rows = rows(lines@);
        let ghost old_cur = cur@;
        lines.push(cur);
        assert(rows(lines@) =~= old_rows.push(old_cur));
    }
    lines
}

/// Cuts `line` into its words.
pub fn split_tokens(line: &[u8]) -> (tokens: Vec<Vec<u8>>)
    ensures
        rows(tokens@) == tokens_of(line@),
{
    let mut tokens: Vec<Vec<u8>> = Vec::new();
    let mut cur: Vec<u8> = Vec::new();
    let n = line.len();
    let mut i: usize = 0;
    while i < n
        invariant
            i <= n,
            n == line@.len(),
            cur@.len() > 0 <==> i > 0 && !is_space(line@[i - 1]),
            tokens_of(line@.take(i as int)) == if cur@.len() > 0 {
                rows(tokens@).push(cur@)
            } else {
                rows(tokens@)
            },
        decreases n - i,
    {
        let b = line[i];
        let ghost before = tokens_of(line@.take(i as int));
        let ghost old_rows = rows(tokens@);
        let ghost old_cur = cur@;
        assert(line@.take(i + 1).drop_last() =~= line@.take(i as int));
        assert(line@.take(i + 1).last() == b);
        if is_space_byte(b) {
            if cur.len() > 0 {
                tokens.push(cur);
                cur = Vec::new();
                assert(rows(tokens@) =~= old_rows.push(old_cur));
            }
        } else {
            if cur.len() > 0 {
                assert(before.drop_last() =~= old_rows);
                assert(before.last() == old_cur);
            } else {
                assert(cur@ =~= Seq::<u8>::empty());
            }
            cur.push(b);
            assert(rows(tokens@) =~= old_rows);
            assert(old_cur.len() == 0 ==> cur@ =~= seq![b]);
        }
        i += 1;
    }
    assert(line@.take(n as int) =~= line@);
    if cur.len() > 0 {
        let ghost old_rows = rows(tokens@);
        let ghost old_cur = cur@;
        tokens.push(cur);
        assert(rows(tokens@) =~= old_rows.push(old_cur));
    }
    tokens
}

/// Reads a word as a decimal `i64`: an optional `+` or `-`, then digits
/// only. `None` for anything else and for a number that does not fit.
pub fn parse_i64(token: &[u8]) -> (r: Option<i64>)
    ensures
        r == i64_of(token@),
{
    let n = token.len();
    if n == 0 {
        return None;
    }
    let negative = token[0] == MINUS;
    let first: usize = if token[0] == MINUS || token[0] == PLUS {
        1
    } else {
        0
    };
    let ghost digits = if first == 1 {
        token@.skip(1)
    } else {
        token@
    };
    if first == n {
        return None;
    }
    let mut magnitude: i128 = 0;
    let mut i: usize = first;
    while i < n
        invariant
            first <= i <= n,
            0 < n == token@.len(),
            first == 1 <==> token@[0] == MINUS || token@[0] == PLUS,
            first == 0 || first == 1,
            negative == (token@[0] == MINUS),
            digits == if first == 1 {
                token@.skip(1)
            } else {
                token@
            },
            digits.len() == n - first,
            forall|j: int| 0 <= j < digits.len() ==> digits[j] == token@[j + first],
            forall|j: int| 0 <= j < i - first ==> is_digit(#[trigger] digits[j]),
            magnitude == digits_value(digits.take(i - first)),
            0 <= magnitude <= MAGNITUDE_LIMIT,
        decreases n - i,
    {
        let b = token[i];
        if b < DIGIT_ZERO || b > DIGIT_NINE {
            assert(!is_digit(digits[i - first]));
            return None;
        }
        assert(digits.take(i + 1 - first).drop_last() =~= digits.take(i - first));
        assert(digits.take(i + 1 - first).last() == b);
        magnitude = magnitude * 10 + (b - DIGIT_ZERO) as i128;
        if magnitude > MAGNITUDE_LIMIT {
            proof {
                if all_digits(digits) {
                    lemma_digits_monotone(digits, i + 1 - first);
                }
            }
            return None;
        }
        i += 1;
    }
    assert(digits.take(n - first) =~= digits);
    if negative {
        Some((-magnitude) as i64)
    } else if magnitude == MAGNITUDE_LIMIT {
        None
    } else {
        Some(magnitude as i64)
    }
}

/// Reads every word from position `from` on as an `i64`; `None` when one of
/// them does not write one.
pub fn parse_numbers(tokens: &Vec<Vec<u8>>, from: usize) -> (r: Option<Vec<i64>>)
    requires
        from <= tokens@.len(),
    ensures
        match r {
            Some(numbers) => numbers_of(rows(tokens@).skip(from as int)) == Some(numbers@),
            None => numbers_of(rows(tokens@).skip(from as int)).is_none(),
        },
{
    let ghost words = rows(tokens@).skip(from as int);
    let mut numbers: Vec<i64> = Vec::new();
    let n = tokens.len();
    let mut i: usize = from;
    while i < n
        invariant
            from <= i <= n,
            n == tokens@.len(),
            words == rows(tokens@).skip(from as int),
            numbers@.len() == i - from,
            forall|j: int| 0 <= j < i - from ==> i64_of(#[trigger] words[j]) == Some(numbers@[j]),
        decreases n - i,
    {
        assert(words[i - from] == tokens@[i as int]@);
        match parse_i64(tokens[i].as_slice()) {
            Some(v) => {
                numbers.push(v);
            },
            None => {
                return None;
            },
        }
        i += 1;
    }
    assert(numbers@ =~= Seq::new(words.len(), |i: int| i64_of(words[i]).unwrap()));
    Some(numbers)
}

/// The characters of a string, one by one.
pub fn chars_of(s: &str) -> (v: Vec<char>)
    ensures
        v@ == s@,
{
    let n = s.unicode_len();
    let mut v: Vec<char> = Vec::new();
    let mut i: usize = 0;
    while i < n
        invariant
            i <= n,
            n == s@.len(),
            v@.len() == i,
            forall|k: int| 0 <= k < i ==> #[trigger] v@[k] == s@[k],
        decreases n - i,
    {
        v.push(s.get_char(i));
        i += 1;
    }
    assert(v@ =~= s@);
    v
}

/// Every character is below 128.
pub open spec fn is_ascii_text(s: Seq<char>) -> bool {
    forall|i: int| 0 <= i < s.len() ==> (#[trigger] s[i]) as u32 <= 127
}

/// The characters as bytes, for characters below 128.
pub open spec fn ascii_bytes(s: Seq<char>) -> Seq<u8> {
    Seq::new(s.len(), |i: int| (s[i] as u32) as u8)
}

/// The `i32` that the characters write in decimal, if they write one.
pub open spec fn i32_of_chars(s: Seq<char>) -> Option<i32> {
    if !is_ascii_text(s) {
        None
    } else {
        match i64_of(ascii_bytes(s)) {
            Some(v) => if i32::MIN <= v <= i32::MAX {
                Some(v as i32)
            } else {
                None
            },
            None => None,
        }
    }
}

/// Reads the characters as a decimal `i32`: an optional sign, then digits.
pub fn parse_i32_chars(s: &Vec<char>) -> (r: Option<i32>)
    ensures
        r == i32_of_chars(s@),
{
    let mut bytes: Vec<u8> = Vec::new();
    let mut i: usize = 0;
    while i < s.len()
        invariant
            i <= s@.len(),
            forall|k: int| 0 <= k < i ==> (#[trigger] s@[k]) as u32 <= 127,
            bytes@.len() == i,
            forall|k: int| 0 <= k < i ==> #[trigger] bytes@[k] == (s@[k] as u32) as u8,
        decreases s@.len() - i,
    {
        let code = s[i] as u32;
        if code > 127 {
            return None;
        }
        bytes.push(code as u8);
        i += 1;
    }
    assert(bytes@ =~= ascii_bytes(s@));
    match parse_i64(bytes.as_slice()) {
        Some(v) => if v >= i32::MIN as i64 && v <= i32::MAX as i64 {
            Some(v as i32)
        } else {
            None
        },
        None => None,
    }
}

} // verus!
