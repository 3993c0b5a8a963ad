//! Character-level specifications: digits, numeric literals, runs of
//! spaces, and the operator characters.

use crate::repr::Operator;
use vstd::prelude::*;

verus! {

/// Whether `c` is an ASCII decimal digit.
pub open spec fn is_digit(c: char) -> bool {
    '0' <= c && c <= '9'
}

/// Executable digit test.
pub fn is_digit_char(c: char) -> (r: bool)
    ensures
        r == is_digit(c),
{
    '0' <= c && c <= '9'
}

/// The number of consecutive digits of `s` starting at position `i`.
pub open spec fn digit_run(s: Seq<char>, i: int) -> int
    decreases s.len() - i,
{
    if i < 0 || i >= s.len() || !is_digit(s[i]) {
        0
    } else {
        1 + digit_run(s, i + 1)
    }
}

/// A digit run neither leaves the text nor skips a non-digit: it covers
/// `i..i + digit_run(s, i)`, all digits, and stops at the first non-digit
/// (or at the end of the text).
pub proof fn lemma_digit_run_bounds(s: Seq<char>, i: int)
    requires
        0 <= i <= s.len(),
    ensures
        0 <= digit_run(s, i),
        i + digit_run(s, i) <= s.len(),
        forall|j: int| i <= j < i + digit_run(s, i) ==> is_digit(#[trigger] s[j]),
        i + digit_run(s, i) < s.len() ==> !is_digit(s[i + digit_run(s, i)]),
    decreases s.len() - i,
{
    if i < s.len() && is_digit(s[i]) {
        lemma_digit_run_bounds(s, i + 1);
    }
}

/// Conversely, a maximal stretch of digits from `i` to `b` is exactly
/// the digit run starting at `i`.
pub proof fn lemma_digit_run_exact(s: Seq<char>, i: int, b: int)
    requires
        0 <= i <= b <= s.len(),
        forall|j: int| i <= j < b ==> is_digit(#[trigger] s[j]),
        b < s.len() ==> !is_digit(s[b]),
    ensures
        digit_run(s, i) == b - i,
{
    lemma_digit_run_bounds(s, i);
    let e = i + digit_run(s, i);
    if e < b {
        assert(is_digit(s[e]));
    }
    if b < e {
        assert(is_digit(s[b]));
    }
}

/// The length of the longest prefix of `s` at position `i` that matches
/// a numeric literal: an optional leading `-`, one or more digits, and
/// optionally a `.` followed by one or more digits. Zero means no match;
/// a `.` with no digit after it is left out of the match.
pub open spec fn number_len(s: Seq<char>, i: int) -> int {
    let start = if 0 <= i < s.len() && s[i] == '-' {
        i + 1
    } else {
        i
    };
    let whole = digit_run(s, start);
    if whole == 0 {
        0
    } else {
        let dot = start + whole;
        let frac = digit_run(s, dot + 1);
        if dot < s.len() && s[dot] == '.' && frac > 0 {
            (dot + 1 + frac) - i
        } else {
            dot - i
        }
    }
}

/// Whether the whole of `t` is one numeric literal.
pub open spec fn is_number(t: Seq<char>) -> bool {
    t.len() > 0 && number_len(t, 0) == t.len()
}

/// A numeric-literal match stays within the text, and a match is never
/// a lone minus sign: zero or at least one digit's worth of characters.
pub proof fn lemma_number_len_bounds(s: Seq<char>, i: int)
    requires
        0 <= i <= s.len(),
    ensures
        number_len(s, i) == 0 || number_len(s, i) >= 1,
        i + number_len(s, i) <= s.len(),
        number_len(s, i) > 0 ==> i < s.len(),
{
    let start = if 0 <= i < s.len() && s[i] == '-' {
        i + 1
    } else {
        i
    };
    lemma_digit_run_bounds(s, start);
    let whole = digit_run(s, start);
    if whole != 0 {
        let dot = start + whole;
        if dot + 1 <= s.len() {
            lemma_digit_run_bounds(s, dot + 1);
        }
    }
}

/// The text that a numeric-literal match covers is itself a numeric
/// literal: extracting the matched characters yields a valid leaf.
pub proof fn lemma_number_match_is_number(s: Seq<char>, i: int)
    requires
        0 <= i <= s.len(),
        number_len(s, i) > 0,
    ensures
        i + number_len(s, i) <= s.len(),
        is_number(s.subrange(i, i + number_len(s, i))),
{
    lemma_number_len_bounds(s, i);
    let k = number_len(s, i);
    let t = s.subrange(i, i + k);
    let start = if 0 <= i < s.len() && s[i] == '-' {
        i + 1
    } else {
        i
    };
    let tstart = start - i;
    let whole = digit_run(s, start);
    lemma_digit_run_bounds(s, start);
    let dot = start + whole;
    let frac = digit_run(s, dot + 1);
    if dot < s.len() && s[dot] == '.' && frac > 0 {
        // fractional form: `[-]digits.digits`
        lemma_digit_run_bounds(s, dot + 1);
        assert(forall|j: int| tstart <= j < tstart + whole ==> is_digit(#[trigger] t[j]));
        lemma_digit_run_exact(t, tstart, tstart + whole);
        assert(forall|j: int|
            dot + 1 - i <= j < t.len() ==> is_digit(#[trigger] t[j]) && is_digit(s[i + j]));
        lemma_digit_run_exact(t, dot + 1 - i, t.len() as int);
        assert(number_len(t, 0) == t.len());
    } else {
        // whole form: `[-]digits`
        assert(forall|j: int| tstart <= j < t.len() ==> is_digit(#[trigger] t[j]));
        lemma_digit_run_exact(t, tstart, t.len() as int);
        assert(number_len(t, 0) == t.len());
    }
}

/// The position of the first non-space character of `s` at or after `i`
/// (`i` itself where `i` is out of range).
pub open spec fn after_spaces(s: Seq<char>, i: int) -> int
    decreases s.len() - i,
{
    if 0 <= i < s.len() && s[i] == ' ' {
        after_spaces(s, i + 1)
    } else {
        i
    }
}

/// Skipping spaces only moves forward, never past the end of the text,
/// and stops exactly at the first non-space character.
pub proof fn lemma_after_spaces_bounds(s: Seq<char>, i: int)
    ensures
        i <= after_spaces(s, i),
        i <= s.len() ==> after_spaces(s, i) <= s.len(),
        after_spaces(s, i) < s.len() && after_spaces(s, i) >= 0 ==> s[after_spaces(s, i)] != ' ',
    decreases s.len() - i,
{
    if 0 <= i < s.len() && s[i] == ' ' {
        lemma_after_spaces_bounds(s, i + 1);
    }
}

/// The operator that a character stands for, if any.
pub open spec fn op_of(c: char) -> Option<Operator> {
    if c == '+' {
        Some(Operator::Add)
    } else if c == '-' {
        Some(Operator::Sub)
    } else if c == '*' {
        Some(Operator::Mul)
    } else if c == '/' {
        Some(Operator::Div)
    } else {
        None
    }
}

} // verus!
