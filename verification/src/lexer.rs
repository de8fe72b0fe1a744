//! Lexer for C-like source text.
//!
//! `tokenize` splits raw bytes into an ordered, non-overlapping sequence of
//! token spans. At each cursor position every lexical rule is evaluated and
//! the longest match wins. Whitespace runs are consumed but never yielded.
//! Two recovery paths keep malformed input from aborting a caller: a match
//! longer than [`MAX_TOKEN_LEN`] is discarded and scanning resumes past it,
//! and a position where no rule matches truncates the stream.
//!
//! The rule set is fixed: block comment, line comment (with backslash line
//! continuation), double-quoted string (a quote immediately preceded by a
//! backslash does not close it), character literal (with escape),
//! preprocessor directive, angle-bracket header target, single
//! bracket/paren, two-character operator, single-character operator or
//! punctuation, identifier, numeric constant, and whitespace run. Byte
//! classes are ASCII; bytes outside every class end the stream early.

use vstd::prelude::*;

verus! {

/// Longest span a yielded token may cover. A longer match (a runaway
/// unterminated comment, binary input) is discarded and scanning resumes
/// past it.
pub const MAX_TOKEN_LEN: usize = 65536;

/// One lexical token: a half-open byte range `[start, end)` into the input.
#[derive(Clone, Copy, Debug, PartialEq, Eq, Structural)]
pub struct Token {
    pub start: usize,
    pub end: usize,
}

// ---------------------------------------------------------------------------
// Byte classes
// ---------------------------------------------------------------------------

/// ASCII whitespace: space, tab, newline, carriage return, vertical tab,
/// form feed.
pub open spec fn is_space(b: u8) -> bool {
    b == 32 || b == 9 || b == 10 || b == 13 || b == 11 || b == 12
}

pub open spec fn is_digit(b: u8) -> bool {
    48 <= b && b <= 57
}

/// A byte that may begin an identifier: `_`, `A`-`Z`, `a`-`z`.
pub open spec fn is_ident_start(b: u8) -> bool {
    b == 95 || (65 <= b && b <= 90) || (97 <= b && b <= 122)
}

pub open spec fn is_ident_char(b: u8) -> bool {
    is_ident_start(b) || is_digit(b)
}

/// A single bracket or parenthesis: `(`, `)`, `[`, `]`, `{`, `}`.
pub open spec fn is_paren(b: u8) -> bool {
    b == 40 || b == 41 || b == 91 || b == 93 || b == 123 || b == 125
}

/// A single-character operator or punctuation byte:
/// `- < > ~ ! % ^ & * / + = ? | . , : ;`
pub open spec fn is_op1(b: u8) -> bool {
    b == 45 || b == 60 || b == 62 || b == 126 || b == 33 || b == 37 || b == 94
        || b == 38 || b == 42 || b == 47 || b == 43 || b == 61 || b == 63
        || b == 124 || b == 46 || b == 44 || b == 58 || b == 59
}

/// A two-character operator: `-> << >> || && -- ++` and the compound
/// assignments `-= += *= |= &= %= /= ==`.
pub open spec fn is_op2(a: u8, b: u8) -> bool {
    (a == 45 && b == 62) || (a == 60 && b == 60) || (a == 62 && b == 62)
        || (a == 124 && b == 124) || (a == 38 && b == 38)
        || (a == 45 && b == 45) || (a == 43 && b == 43)
        || (b == 61
            && (a == 45 || a == 43 || a == 42 || a == 124 || a == 38 || a == 37
                || a == 47 || a == 61))
}

// ---------------------------------------------------------------------------
// Per-rule match lengths
// ---------------------------------------------------------------------------

/// First position `k >= j` where `*/` begins, if any.
pub open spec fn find_block_close(s: Seq<u8>, j: int) -> Option<int>
    decreases s.len() - j,
{
    if j + 1 >= s.len() {
        None
    } else if s[j] == 42 && s[j + 1] == 47 {
        Some(j)
    } else {
        find_block_close(s, j + 1)
    }
}

/// Length of a block comment `/* ... */` starting at `i`, if one matches.
pub open spec fn block_comment_len(s: Seq<u8>, i: int) -> Option<int> {
    if 0 <= i && i + 1 < s.len() && s[i] == 47 && s[i + 1] == 42 {
        match find_block_close(s, i + 2) {
            Some(j) => Some(j + 2 - i),
            None => None,
        }
    } else {
        None
    }
}

/// First newline at position `k >= j` not immediately preceded by a
/// backslash (a backslash-newline pair continues the line), if any.
pub open spec fn find_line_end(s: Seq<u8>, k: int) -> Option<int>
    recommends
        k >= 1,
    decreases s.len() - k,
{
    if k >= s.len() {
        None
    } else if s[k] == 10 && s[k - 1] != 92 {
        Some(k)
    } else {
        find_line_end(s, k + 1)
    }
}

/// Length of a line comment `// ...` starting at `i`, terminating newline
/// counted. Backslash-newline continues the comment onto the next line.
/// A line comment at end of input without a newline does not match.
pub open spec fn line_comment_len(s: Seq<u8>, i: int) -> Option<int> {
    if 0 <= i && i + 1 < s.len() && s[i] == 47 && s[i + 1] == 47 {
        match find_line_end(s, i + 2) {
            Some(k) => Some(k + 1 - i),
            None => None,
        }
    } else {
        None
    }
}

/// First `"` at position `q >= j` not immediately preceded by a backslash,
/// if any.
pub open spec fn find_string_close(s: Seq<u8>, q: int) -> Option<int>
    recommends
        q >= 1,
    decreases s.len() - q,
{
    if q >= s.len() {
        None
    } else if s[q] == 34 && s[q - 1] != 92 {
        Some(q)
    } else {
        find_string_close(s, q + 1)
    }
}

/// Length of a double-quoted string literal starting at `i`, closing quote
/// counted. A quote immediately preceded by a backslash does not close it.
/// An unterminated string does not match.
pub open spec fn string_len(s: Seq<u8>, i: int) -> Option<int> {
    if 0 <= i && i < s.len() && s[i] == 34 {
        match find_string_close(s, i + 1) {
            Some(q) => Some(q + 1 - i),
            None => None,
        }
    } else {
        None
    }
}

/// Length of a character literal starting at `i`: `'\c'` (four bytes, `c`
/// not a newline) or `'c'` (three bytes, `c` neither a quote nor a newline).
pub open spec fn char_lit_len(s: Seq<u8>, i: int) -> Option<int> {
    if 0 <= i && i < s.len() && s[i] == 39 {
        if i + 3 < s.len() && s[i + 1] == 92 && s[i + 2] != 10 && s[i + 3] == 39 {
            Some(4)
        } else if i + 2 < s.len() && s[i + 1] != 39 && s[i + 1] != 10 && s[i + 2] == 39 {
            Some(3)
        } else {
            None
        }
    } else {
        None
    }
}

/// Number of consecutive non-whitespace bytes starting at `j`.
pub open spec fn nonspace_run(s: Seq<u8>, j: int) -> int
    decreases s.len() - j,
{
    if 0 <= j && j < s.len() && !is_space(s[j]) {
        1 + nonspace_run(s, j + 1)
    } else {
        0
    }
}

/// Length of a preprocessor directive starting at `i`: `#` followed by a run
/// of non-whitespace bytes. A bare `#` matches with length one.
pub open spec fn preproc_len(s: Seq<u8>, i: int) -> Option<int> {
    if 0 <= i && i < s.len() && s[i] == 35 {
        Some(1 + nonspace_run(s, i + 1))
    } else {
        None
    }
}

/// First `>` at position `k >= j`, if any.
pub open spec fn find_gt(s: Seq<u8>, j: int) -> Option<int>
    decreases s.len() - j,
{
    if j >= s.len() {
        None
    } else if s[j] == 62 {
        Some(j)
    } else {
        find_gt(s, j + 1)
    }
}

/// Length of an angle-bracket header target `<...>` starting at `i`: at
/// least one byte between the brackets, none of them `>`.
pub open spec fn angle_target_len(s: Seq<u8>, i: int) -> Option<int> {
    if 0 <= i && i < s.len() && s[i] == 60 {
        match find_gt(s, i + 1) {
            Some(j) => if j > i + 1 {
                Some(j + 1 - i)
            } else {
                None
            },
            None => None,
        }
    } else {
        None
    }
}

pub open spec fn paren_len(s: Seq<u8>, i: int) -> Option<int> {
    if 0 <= i && i < s.len() && is_paren(s[i]) {
        Some(1)
    } else {
        None
    }
}

pub open spec fn op2_len(s: Seq<u8>, i: int) -> Option<int> {
    if 0 <= i && i + 1 < s.len() && is_op2(s[i], s[i + 1]) {
        Some(2)
    } else {
        None
    }
}

pub open spec fn op1_len(s: Seq<u8>, i: int) -> Option<int> {
    if 0 <= i && i < s.len() && is_op1(s[i]) {
        Some(1)
    } else {
        None
    }
}

/// Number of consecutive identifier bytes starting at `j`.
pub open spec fn ident_run(s: Seq<u8>, j: int) -> int
    decreases s.len() - j,
{
    if 0 <= j && j < s.len() && is_ident_char(s[j]) {
        1 + ident_run(s, j + 1)
    } else {
        0
    }
}

/// Length of an identifier starting at `i`.
pub open spec fn ident_len(s: Seq<u8>, i: int) -> Option<int> {
    if 0 <= i && i < s.len() && is_ident_start(s[i]) {
        Some(1 + ident_run(s, i + 1))
    } else {
        None
    }
}

/// Number of consecutive decimal digits starting at `j`.
pub open spec fn digit_run(s: Seq<u8>, j: int) -> int
    decreases s.len() - j,
{
    if 0 <= j && j < s.len() && is_digit(s[j]) {
        1 + digit_run(s, j + 1)
    } else {
        0
    }
}

/// Length of the integer-or-fraction core of a numeric constant starting at
/// `i`: a digit run, optionally followed by `.` and a further digit run; or
/// `.` followed by a digit run. A trailing `.` without digits is excluded.
pub open spec fn number_core_len(s: Seq<u8>, i: int) -> Option<int> {
    let a = digit_run(s, i);
    if a > 0 {
        if i + a < s.len() && s[i + a] == 46 && i + a + 1 < s.len() && is_digit(s[i + a + 1]) {
            Some(a + 1 + digit_run(s, i + a + 1))
        } else {
            Some(a)
        }
    } else {
        if 0 <= i && i < s.len() && s[i] == 46 && i + 1 < s.len() && is_digit(s[i + 1]) {
            Some(1 + digit_run(s, i + 1))
        } else {
            None
        }
    }
}

/// Length of an exponent suffix at `t`: `e` or `E`, an optional sign, and at
/// least one digit; zero if the suffix is absent or incomplete.
pub open spec fn exp_ext_len(s: Seq<u8>, t: int) -> int {
    if 0 <= t && t < s.len() && (s[t] == 101 || s[t] == 69) {
        if t + 1 < s.len() && is_digit(s[t + 1]) {
            1 + digit_run(s, t + 1)
        } else if t + 2 < s.len() && (s[t + 1] == 43 || s[t + 1] == 45) && is_digit(s[t + 2]) {
            2 + digit_run(s, t + 2)
        } else {
            0
        }
    } else {
        0
    }
}

/// Length of a numeric constant starting at `i`, exponent counted.
pub open spec fn number_len(s: Seq<u8>, i: int) -> Option<int> {
    match number_core_len(s, i) {
        Some(c) => Some(c + exp_ext_len(s, i + c)),
        None => None,
    }
}

/// Number of consecutive whitespace bytes starting at `j`.
pub open spec fn space_run(s: Seq<u8>, j: int) -> int
    decreases s.len() - j,
{
    if 0 <= j && j < s.len() && is_space(s[j]) {
        1 + space_run(s, j + 1)
    } else {
        0
    }
}

/// Length of a whitespace run starting at `i`.
pub open spec fn ws_len(s: Seq<u8>, i: int) -> Option<int> {
    if 0 <= i && i < s.len() && is_space(s[i]) {
        Some(space_run(s, i))
    } else {
        None
    }
}

// ---------------------------------------------------------------------------
// Rule dispatch and longest-match selection
// ---------------------------------------------------------------------------

/// Number of lexical rules.
pub const RULE_COUNT: usize = 12;

/// Match length of rule `r` at position `i`, if that rule matches there.
pub open spec fn rule_len(s: Seq<u8>, i: int, r: int) -> Option<int> {
    if r == 0 {
        block_comment_len(s, i)
    } else if r == 1 {
        line_comment_len(s, i)
    } else if r == 2 {
        string_len(s, i)
    } else if r == 3 {
        char_lit_len(s, i)
    } else if r == 4 {
        preproc_len(s, i)
    } else if r == 5 {
        angle_target_len(s, i)
    } else if r == 6 {
        paren_len(s, i)
    } else if r == 7 {
        op2_len(s, i)
    } else if r == 8 {
        op1_len(s, i)
    } else if r == 9 {
        ident_len(s, i)
    } else if r == 10 {
        number_len(s, i)
    } else if r == 11 {
        ws_len(s, i)
    } else {
        None
    }
}

/// The longer of two optional match lengths; `None` loses to anything.
pub open spec fn max_opt(a: Option<int>, b: Option<int>) -> Option<int> {
    match (a, b) {
        (Option::None, _) => b,
        (Option::Some(x), Option::None) => Some(x),
        (Option::Some(x), Option::Some(y)) => if y > x {
            Some(y)
        } else {
            Some(x)
        },
    }
}

/// Longest match length among rules `r..RULE_COUNT` at position `i`.
pub open spec fn best_len_from(s: Seq<u8>, i: int, r: int) -> Option<int>
    decreases RULE_COUNT - r,
{
    if r >= RULE_COUNT {
        None
    } else {
        max_opt(rule_len(s, i, r), best_len_from(s, i, r + 1))
    }
}

/// Longest match length among all rules at position `i`. The token category
/// never reaches the output, so rule priority only settles which category a
/// length tie belongs to and leaves the match length unchanged.
pub open spec fn best_len(s: Seq<u8>, i: int) -> Option<int> {
    best_len_from(s, i, 0)
}

// ---------------------------------------------------------------------------
// Bounds: every match has positive length and stays inside the input
// ---------------------------------------------------------------------------

pub proof fn lemma_find_block_close_bounds(s: Seq<u8>, j: int)
    ensures
        find_block_close(s, j) matches Some(k) ==> j <= k && k + 2 <= s.len(),
    decreases s.len() - j,
{
    if j + 1 >= s.len() {
    } else if s[j] == 42 && s[j + 1] == 47 {
    } else {
        lemma_find_block_close_bounds(s, j + 1);
    }
}

pub proof fn lemma_find_line_end_bounds(s: Seq<u8>, k: int)
    ensures
        find_line_end(s, k) matches Some(e) ==> k <= e && e < s.len(),
    decreases s.len() - k,
{
    if k >= s.len() {
    } else if s[k] == 10 && s[k - 1] != 92 {
    } else {
        lemma_find_line_end_bounds(s, k + 1);
    }
}

pub proof fn lemma_find_string_close_bounds(s: Seq<u8>, q: int)
    ensures
        find_string_close(s, q) matches Some(e) ==> q <= e && e < s.len(),
    decreases s.len() - q,
{
    if q >= s.len() {
    } else if s[q] == 34 && s[q - 1] != 92 {
    } else {
        lemma_find_string_close_bounds(s, q + 1);
    }
}

pub proof fn lemma_find_gt_bounds(s: Seq<u8>, j: int)
    ensures
        find_gt(s, j) matches Some(e) ==> j <= e && e < s.len(),
    decreases s.len() - j,
{
    if j >= s.len() {
    } else if s[j] == 62 {
    } else {
        lemma_find_gt_bounds(s, j + 1);
    }
}

pub proof fn lemma_nonspace_run_bounds(s: Seq<u8>, j: int)
    requires
        0 <= j <= s.len(),
    ensures
        0 <= nonspace_run(s, j),
        j + nonspace_run(s, j) <= s.len(),
    decreases s.len() - j,
{
    if j < s.len() && !is_space(s[j]) {
        lemma_nonspace_run_bounds(s, j + 1);
    }
}

pub proof fn lemma_ident_run_bounds(s: Seq<u8>, j: int)
    requires
        0 <= j <= s.len(),
    ensures
        0 <= ident_run(s, j),
        j + ident_run(s, j) <= s.len(),
    decreases s.len() - j,
{
    if j < s.len() && is_ident_char(s[j]) {
        lemma_ident_run_bounds(s, j + 1);
    }
}

pub proof fn lemma_digit_run_bounds(s: Seq<u8>, j: int)
    requires
        0 <= j <= s.len(),
    ensures
        0 <= digit_run(s, j),
        j + digit_run(s, j) <= s.len(),
    decreases s.len() - j,
{
    if j < s.len() && is_digit(s[j]) {
        lemma_digit_run_bounds(s, j + 1);
    }
}

pub proof fn lemma_space_run_bounds(s: Seq<u8>, j: int)
    requires
        0 <= j <= s.len(),
    ensures
        0 <= space_run(s, j),
        j + space_run(s, j) <= s.len(),
    decreases s.len() - j,
{
    if j < s.len() && is_space(s[j]) {
        lemma_space_run_bounds(s, j + 1);
    }
}

/// Every rule match has positive length and ends within the input.
pub proof fn lemma_rule_len_bounds(s: Seq<u8>, i: int, r: int)
    ensures
        rule_len(s, i, r) matches Some(l) ==> 1 <= l && 0 <= i && i + l <= s.len(),
{
    if rule_len(s, i, r) is Some {
        if r == 0 {
            lemma_find_block_close_bounds(s, i + 2);
        } else if r == 1 {
            lemma_find_line_end_bounds(s, i + 2);
        } else if r == 2 {
            lemma_find_string_close_bounds(s, i + 1);
        } else if r == 4 {
            lemma_nonspace_run_bounds(s, i + 1);
        } else if r == 5 {
            lemma_find_gt_bounds(s, i + 1);
        } else if r == 9 {
            lemma_ident_run_bounds(s, i + 1);
        } else if r == 10 {
            let a = digit_run(s, i);
            if a > 0 {
                assert(0 <= i && i < s.len());
                lemma_digit_run_bounds(s, i);
                if i + a < s.len() && s[i + a] == 46 && i + a + 1 < s.len()
                    && is_digit(s[i + a + 1]) {
                    lemma_digit_run_bounds(s, i + a + 1);
                }
            } else {
                assert(0 <= i && i < s.len() && s[i] == 46 && i + 1 < s.len()
                    && is_digit(s[i + 1]));
                lemma_digit_run_bounds(s, i + 1);
            }
            let c = number_core_len(s, i)->Some_0;
            assert(1 <= c && i + c <= s.len());
            let t = i + c;
            if 0 <= t && t < s.len() && (s[t] == 101 || s[t] == 69) {
                if t + 1 < s.len() && is_digit(s[t + 1]) {
                    lemma_digit_run_bounds(s, t + 1);
                } else if t + 2 < s.len() && (s[t + 1] == 43 || s[t + 1] == 45)
                    && is_digit(s[t + 2]) {
                    lemma_digit_run_bounds(s, t + 2);
                }
            }
            assert(0 <= exp_ext_len(s, t) && t + exp_ext_len(s, t) <= s.len());
        } else if r == 11 {
            lemma_space_run_bounds(s, i);
            lemma_space_run_bounds(s, i + 1);
        }
    }
}

/// The longest match, where one exists, has positive length and ends within
/// the input.
pub proof fn lemma_best_len_from_bounds(s: Seq<u8>, i: int, r: int)
    ensures
        best_len_from(s, i, r) matches Some(l) ==> 1 <= l && 0 <= i && i + l <= s.len(),
    decreases RULE_COUNT - r,
{
    if r < RULE_COUNT {
        lemma_rule_len_bounds(s, i, r);
        lemma_best_len_from_bounds(s, i, r + 1);
    }
}

pub proof fn lemma_best_len_bounds(s: Seq<u8>, i: int)
    ensures
        best_len(s, i) matches Some(l) ==> 1 <= l && 0 <= i && i + l <= s.len(),
{
    lemma_best_len_from_bounds(s, i, 0);
}

// ---------------------------------------------------------------------------
// The token sequence
// ---------------------------------------------------------------------------

/// The token spans produced from position `i` onward: at each step the
/// longest rule match is taken; an all-whitespace match is consumed without
/// being yielded; an oversized match is discarded; a position with no match
/// ends the sequence.
pub open spec fn spec_tokens_from(s: Seq<u8>, i: int) -> Seq<(int, int)>
    decreases s.len() - i,
        when 0 <= i
        via spec_tokens_from_decreases
{
    if i >= s.len() {
        Seq::empty()
    } else {
        match best_len(s, i) {
            Option::None => Seq::empty(),
            Option::Some(l) => {
                if is_space(s[i]) || l > MAX_TOKEN_LEN {
                    spec_tokens_from(s, i + l)
                } else {
                    seq![(i, i + l)] + spec_tokens_from(s, i + l)
                }
            },
        }
    }
}

#[via_fn]
proof fn spec_tokens_from_decreases(s: Seq<u8>, i: int) {
    lemma_best_len_bounds(s, i);
}

/// The token spans of a whole input.
pub open spec fn spec_tokens(s: Seq<u8>) -> Seq<(int, int)> {
    spec_tokens_from(s, 0)
}

/// True when lexing from `i` consumes the whole input without discarding an
/// oversized match: nothing outside whitespace is ever dropped.
pub open spec fn spec_lex_clean_from(s: Seq<u8>, i: int) -> bool
    decreases s.len() - i,
        when 0 <= i
        via spec_lex_clean_from_decreases
{
    if i >= s.len() {
        true
    } else {
        match best_len(s, i) {
            Option::None => false,
            Option::Some(l) => {
                if !is_space(s[i]) && l > MAX_TOKEN_LEN {
                    false
                } else {
                    spec_lex_clean_from(s, i + l)
                }
            },
        }
    }
}

#[via_fn]
proof fn spec_lex_clean_from_decreases(s: Seq<u8>, i: int) {
    lemma_best_len_bounds(s, i);
}

/// True when lexing the whole input loses nothing but whitespace.
pub open spec fn spec_lex_clean(s: Seq<u8>) -> bool {
    spec_lex_clean_from(s, 0)
}

// ---------------------------------------------------------------------------
// Executable byte classes
// ---------------------------------------------------------------------------

fn space_b(b: u8) -> (r: bool)
    ensures
        r == is_space(b),
{
    b == 32 || b == 9 || b == 10 || b == 13 || b == 11 || b == 12
}

fn digit_b(b: u8) -> (r: bool)
    ensures
        r == is_digit(b),
{
    48 <= b && b <= 57
}

fn ident_start_b(b: u8) -> (r: bool)
    ensures
        r == is_ident_start(b),
{
    b == 95 || (65 <= b && b <= 90) || (97 <= b && b <= 122)
}

fn ident_char_b(b: u8) -> (r: bool)
    ensures
        r == is_ident_char(b),
{
    ident_start_b(b) || digit_b(b)
}

fn paren_b(b: u8) -> (r: bool)
    ensures
        r == is_paren(b),
{
    b == 40 || b == 41 || b == 91 || b == 93 || b == 123 || b == 125
}

fn op1_b(b: u8) -> (r: bool)
    ensures
        r == is_op1(b),
{
    b == 45 || b == 60 || b == 62 || b == 126 || b == 33 || b == 37 || b == 94 || b == 38
        || b == 42 || b == 47 || b == 43 || b == 61 || b == 63 || b == 124 || b == 46 || b == 44
        || b == 58 || b == 59
}

fn op2_b(a: u8, b: u8) -> (r: bool)
    ensures
        r == is_op2(a, b),
{
    (a == 45 && b == 62) || (a == 60 && b == 60) || (a == 62 && b == 62) || (a == 124 && b == 124)
        || (a == 38 && b == 38) || (a == 45 && b == 45) || (a == 43 && b == 43) || (b == 61 && (
    a == 45 || a == 43 || a == 42 || a == 124 || a == 38 || a == 37 || a == 47 || a == 61))
}

// ---------------------------------------------------------------------------
// Executable rule matchers
// ---------------------------------------------------------------------------

/// Relates an executable match length to its specification counterpart.
pub open spec fn olen_eq(r: Option<usize>, m: Option<int>) -> bool {
    match r {
        Option::Some(l) => m == Some(l as int),
        Option::None => m is None,
    }
}

fn match_block_comment(s: &[u8], i: usize) -> (r: Option<usize>)
    requires
        i <= s@.len(),
    ensures
        olen_eq(r, block_comment_len(s@, i as int)),
{
    let n = s.len();
    if i >= n || s[i] != 47 {
        return None;
    }
    if i + 1 >= n || s[i + 1] != 42 {
        return None;
    }
    let mut j = i + 2;
    loop
        invariant
            i + 2 <= j <= n,
            n == s@.len(),
            i + 1 < n,
            s@[i as int] == 47,
            s@[i as int + 1] == 42,
            find_block_close(s@, i as int + 2) == find_block_close(s@, j as int),
        decreases n - j,
    {
        if j >= n - 1 {
            return None;
        }
        if s[j] == 42 && s[j + 1] == 47 {
            return Some(j + 2 - i);
        }
        j = j + 1;
    }
}

fn match_line_comment(s: &[u8], i: usize) -> (r: Option<usize>)
    requires
        i <= s@.len(),
    ensures
        olen_eq(r, line_comment_len(s@, i as int)),
{
    let n = s.len();
    if i >= n || s[i] != 47 {
        return None;
    }
    if i + 1 >= n || s[i + 1] != 47 {
        return None;
    }
    let mut k = i + 2;
    loop
        invariant
            i + 2 <= k <= n,
            n == s@.len(),
            i + 1 < n,
            s@[i as int] == 47,
            s@[i as int + 1] == 47,
            find_line_end(s@, i as int + 2) == find_line_end(s@, k as int),
        decreases n - k,
    {
        if k >= n {
            return None;
        }
        if s[k] == 10 && s[k - 1] != 92 {
            return Some(k + 1 - i);
        }
        k = k + 1;
    }
}

fn match_string(s: &[u8], i: usize) -> (r: Option<usize>)
    requires
        i <= s@.len(),
    ensures
        olen_eq(r, string_len(s@, i as int)),
{
    let n = s.len();
    if i >= n || s[i] != 34 {
        return None;
    }
    let mut q = i + 1;
    loop
        invariant
            i + 1 <= q <= n,
            n == s@.len(),
            i < n,
            s@[i as int] == 34,
            find_string_close(s@, i as int + 1) == find_string_close(s@, q as int),
        decreases n - q,
    {
        if q >= n {
            return None;
        }
        if s[q] == 34 && s[q - 1] != 92 {
            return Some(q + 1 - i);
        }
        q = q + 1;
    }
}

fn match_char_lit(s: &[u8], i: usize) -> (r: Option<usize>)
    requires
        i <= s@.len(),
    ensures
        olen_eq(r, char_lit_len(s@, i as int)),
{
    let n = s.len();
    if i >= n || s[i] != 39 {
        return None;
    }
    if i + 1 >= n {
        return None;
    }
    if i + 2 < n && i + 3 < n && s[i + 1] == 92 && s[i + 2] != 10 && s[i + 3] == 39 {
        return Some(4);
    }
    if i + 2 < n && s[i + 1] != 39 && s[i + 1] != 10 && s[i + 2] == 39 {
        return Some(3);
    }
    None
}

/// Count of consecutive bytes at `start` satisfying the digit class.
fn digit_run_count(s: &[u8], start: usize) -> (c: usize)
    requires
        start <= s@.len(),
    ensures
        c as int == digit_run(s@, start as int),
        start + c <= s@.len(),
{
    let n = s.len();
    let mut j = start;
    while j < n && digit_b(s[j])
        invariant
            start <= j <= n,
            n == s@.len(),
            digit_run(s@, start as int) == (j - start) + digit_run(s@, j as int),
        decreases n - j,
    {
        j = j + 1;
    }
    j - start
}

fn match_preproc(s: &[u8], i: usize) -> (r: Option<usize>)
    requires
        i <= s@.len(),
    ensures
        olen_eq(r, preproc_len(s@, i as int)),
{
    let n = s.len();
    if i >= n || s[i] != 35 {
        return None;
    }
    let mut j = i + 1;
    while j < n && !space_b(s[j])
        invariant
            i + 1 <= j <= n,
            n == s@.len(),
            nonspace_run(s@, i as int + 1) == (j - i - 1) + nonspace_run(s@, j as int),
        decreases n - j,
    {
        j = j + 1;
    }
    Some(j - i)
}

fn match_angle_target(s: &[u8], i: usize) -> (r: Option<usize>)
    requires
        i <= s@.len(),
    ensures
        olen_eq(r, angle_target_len(s@, i as int)),
{
    let n = s.len();
    if i >= n || s[i] != 60 {
        return None;
    }
    let mut j = i + 1;
    loop
        invariant
            i + 1 <= j <= n,
            n == s@.len(),
            i < n,
            s@[i as int] == 60,
            find_gt(s@, i as int + 1) == find_gt(s@, j as int),
        decreases n - j,
    {
        if j >= n {
            return None;
        }
        if s[j] == 62 {
            if j > i + 1 {
                return Some(j + 1 - i);
            } else {
                return None;
            }
        }
        j = j + 1;
    }
}

fn match_paren(s: &[u8], i: usize) -> (r: Option<usize>)
    requires
        i <= s@.len(),
    ensures
        olen_eq(r, paren_len(s@, i as int)),
{
    if i < s.len() && paren_b(s[i]) {
        Some(1)
    } else {
        None
    }
}

fn match_op2(s: &[u8], i: usize) -> (r: Option<usize>)
    requires
        i <= s@.len(),
    ensures
        olen_eq(r, op2_len(s@, i as int)),
{
    if i < s.len() && i + 1 < s.len() && op2_b(s[i], s[i + 1]) {
        Some(2)
    } else {
        None
    }
}

fn match_op1(s: &[u8], i: usize) -> (r: Option<usize>)
    requires
        i <= s@.len(),
    ensures
        olen_eq(r, op1_len(s@, i as int)),
{
    if i < s.len() && op1_b(s[i]) {
        Some(1)
    } else {
        None
    }
}

fn match_ident(s: &[u8], i: usize) -> (r: Option<usize>)
    requires
        i <= s@.len(),
    ensures
        olen_eq(r, ident_len(s@, i as int)),
{
    let n = s.len();
    if i >= n || !ident_start_b(s[i]) {
        return None;
    }
    let mut j = i + 1;
    while j < n && ident_char_b(s[j])
        invariant
            i + 1 <= j <= n,
            n == s@.len(),
            ident_run(s@, i as int + 1) == (j - i - 1) + ident_run(s@, j as int),
        decreases n - j,
    {
        j = j + 1;
    }
    Some(j - i)
}

fn match_number(s: &[u8], i: usize) -> (r: Option<usize>)
    requires
        i <= s@.len(),
    ensures
        olen_eq(r, number_len(s@, i as int)),
{
    let n = s.len();
    if i >= n {
        return None;
    }
    let a = digit_run_count(s, i);
    let core: usize;
    if a > 0 {
        if i + a < n && s[i + a] == 46 && i + a + 1 < n && digit_b(s[i + a + 1]) {
            let b = digit_run_count(s, i + a + 1);
            core = a + 1 + b;
        } else {
            core = a;
        }
    } else {
        if s[i] == 46 && i + 1 < n && digit_b(s[i + 1]) {
            let b = digit_run_count(s, i + 1);
            core = 1 + b;
        } else {
            return None;
        }
    }
    assert(number_core_len(s@, i as int) == Some(core as int));
    let t = i + core;
    let mut ext: usize = 0;
    if t < n && (s[t] == 101 || s[t] == 69) {
        if t + 1 < n && digit_b(s[t + 1]) {
            let d = digit_run_count(s, t + 1);
            ext = 1 + d;
        } else if t + 1 < n && (s[t + 1] == 43 || s[t + 1] == 45) && t + 2 < n && digit_b(
            s[t + 2],
        ) {
            let d = digit_run_count(s, t + 2);
            ext = 2 + d;
        }
    }
    assert(ext as int == exp_ext_len(s@, t as int));
    Some(core + ext)
}

fn match_ws(s: &[u8], i: usize) -> (r: Option<usize>)
    requires
        i <= s@.len(),
    ensures
        olen_eq(r, ws_len(s@, i as int)),
{
    let n = s.len();
    if i >= n || !space_b(s[i]) {
        return None;
    }
    let mut j = i;
    while j < n && space_b(s[j])
        invariant
            i <= j <= n,
            n == s@.len(),
            space_run(s@, i as int) == (j - i) + space_run(s@, j as int),
        decreases n - j,
    {
        j = j + 1;
    }
    Some(j - i)
}

// ---------------------------------------------------------------------------
// Longest-match selection
// ---------------------------------------------------------------------------

/// The longer of a fresh rule match and the best so far; ties keep the
/// earlier rule's length, which is the same length.
fn merge_opt(m: Option<usize>, b: Option<usize>) -> (r: Option<usize>)
    ensures
        m is None ==> r == b,
        m is Some && b is None ==> r == m,
        m is Some && b is Some ==> r == (if b->Some_0 > m->Some_0 {
            b
        } else {
            m
        }),
{
    match (m, b) {
        (Option::None, _) => b,
        (Option::Some(l), Option::None) => Some(l),
        (Option::Some(l), Option::Some(x)) => if x > l {
            Some(x)
        } else {
            Some(l)
        },
    }
}

/// Longest rule match at position `i`, or `None` when no rule matches.
fn best_match_at(s: &[u8], i: usize) -> (r: Option<usize>)
    requires
        i <= s@.len(),
    ensures
        olen_eq(r, best_len(s@, i as int)),
        r matches Some(l) ==> 1 <= l && i + l <= s@.len(),
{
    let ghost sq = s@;
    let ghost ii = i as int;
    let mut best: Option<usize> = None;
    assert(olen_eq(best, best_len_from(sq, ii, 12)));
    best = merge_opt(match_ws(s, i), best);
    assert(olen_eq(best, best_len_from(sq, ii, 11)));
    best = merge_opt(match_number(s, i), best);
    assert(olen_eq(best, best_len_from(sq, ii, 10)));
    best = merge_opt(match_ident(s, i), best);
    assert(olen_eq(best, best_len_from(sq, ii, 9)));
    best = merge_opt(match_op1(s, i), best);
    assert(olen_eq(best, best_len_from(sq, ii, 8)));
    best = merge_opt(match_op2(s, i), best);
    assert(olen_eq(best, best_len_from(sq, ii, 7)));
    best = merge_opt(match_paren(s, i), best);
    assert(olen_eq(best, best_len_from(sq, ii, 6)));
    best = merge_opt(match_angle_target(s, i), best);
    assert(olen_eq(best, best_len_from(sq, ii, 5)));
    best = merge_opt(match_preproc(s, i), best);
    assert(olen_eq(best, best_len_from(sq, ii, 4)));
    best = merge_opt(match_char_lit(s, i), best);
    assert(olen_eq(best, best_len_from(sq, ii, 3)));
    best = merge_opt(match_string(s, i), best);
    assert(olen_eq(best, best_len_from(sq, ii, 2)));
    best = merge_opt(match_line_comment(s, i), best);
    assert(olen_eq(best, best_len_from(sq, ii, 1)));
    best = merge_opt(match_block_comment(s, i), best);
    assert(olen_eq(best, best_len_from(sq, ii, 0)));
    proof {
        lemma_best_len_bounds(sq, ii);
    }
    best
}

// ---------------------------------------------------------------------------
// Tokenizing a whole input
// ---------------------------------------------------------------------------

/// The `(start, end)` spans of a token sequence, as mathematical integers.
pub open spec fn spans_of(toks: Seq<Token>) -> Seq<(int, int)> {
    toks.map_values(|t: Token| (t.start as int, t.end as int))
}

/// The result of tokenizing one input: the yielded tokens, and whether the
/// whole input was consumed with nothing but whitespace left unyielded.
/// `clean` is false when an oversized match was discarded or when a position
/// with no rule match truncated the stream; both are recovered from, never
/// surfaced as errors.
pub struct LexOutput {
    pub tokens: Vec<Token>,
    pub clean: bool,
}

/// Tokenize a whole input in one call.
pub fn tokenize(text: &[u8]) -> (out: LexOutput)
    ensures
        spans_of(out.tokens@) == spec_tokens(text@),
        out.clean == spec_lex_clean(text@),
{
    let ghost sq = text@;
    let n = text.len();
    let mut pos: usize = 0;
    let mut tokens: Vec<Token> = Vec::new();
    let mut clean = true;
    loop
        invariant
            pos <= n,
            n == sq.len(),
            sq == text@,
            spec_tokens(sq) == spans_of(tokens@) + spec_tokens_from(sq, pos as int),
            spec_lex_clean(sq) == (clean && spec_lex_clean_from(sq, pos as int)),
        ensures
            spec_tokens(sq) == spans_of(tokens@),
            spec_lex_clean(sq) == clean,
        decreases n - pos,
    {
        if pos >= n {
            assert(spec_tokens_from(sq, pos as int) =~= Seq::<(int, int)>::empty());
            assert(spec_tokens(sq) =~= spans_of(tokens@));
            break;
        }
        match best_match_at(text, pos) {
            Option::None => {
                clean = false;
                assert(spec_tokens_from(sq, pos as int) =~= Seq::<(int, int)>::empty());
                assert(spec_tokens(sq) =~= spans_of(tokens@));
                break;
            },
            Option::Some(l) => {
                let ghost toks_pre = tokens@;
                let ghost rest_pre = spec_tokens_from(sq, pos as int);
                if space_b(text[pos]) {
                    pos = pos + l;
                } else if l > MAX_TOKEN_LEN {
                    clean = false;
                    pos = pos + l;
                } else {
                    tokens.push(
                        Token {
                            start: pos,
                            end: pos + l,
                        },
                    );
                    pos = pos + l;
                    proof {
                        assert(spans_of(tokens@) =~= spans_of(toks_pre) + seq![
                            (pos as int - l as int, pos as int),
                        ]);
                        assert(spans_of(toks_pre) + rest_pre =~= spans_of(tokens@)
                            + spec_tokens_from(sq, pos as int));
                    }
                }
            },
        }
    }
    LexOutput { tokens, clean }
}

// ---------------------------------------------------------------------------
// Lazy token streams
// ---------------------------------------------------------------------------

/// A tokenizer for C-like source text. Index-time and query-time analysis
/// must both go through this one rule set, or terms never match at
/// retrieval: the rule tables are immutable values, safe to share.
#[derive(Clone, Copy, Debug)]
pub struct CTokenizer;

impl CTokenizer {
    /// Open a lazy stream of tokens over `text`. Streams opened over equal
    /// text start in equal states and yield equal token sequences.
    pub fn token_stream<'a>(&self, text: &'a [u8]) -> (st: CTokenStream<'a>)
        ensures
            st.wf(),
            st.text_view() == text@,
            st.cursor() == 0,
    {
        CTokenStream { text, pos: 0, token: Token { start: 0, end: 0 } }
    }
}

/// A cursor over the remaining text; the cursor offset never decreases, and
/// the stream ends on exhaustion or at a position no rule matches.
#[derive(Debug)]
pub struct CTokenStream<'a> {
    /// The whole input, for token referencing.
    text: &'a [u8],
    /// The byte offset scanning has consumed up to.
    pos: usize,
    /// The token most recently yielded by `advance`.
    token: Token,
}

impl<'a> CTokenStream<'a> {
    /// The input this stream walks.
    pub closed spec fn text_view(&self) -> Seq<u8> {
        self.text@
    }

    /// The byte offset scanning has consumed up to.
    pub closed spec fn cursor(&self) -> int {
        self.pos as int
    }

    /// The token most recently yielded by `advance`.
    pub closed spec fn current(&self) -> Token {
        self.token
    }

    /// The cursor stays inside the input.
    pub open spec fn wf(&self) -> bool {
        self.cursor() <= self.text_view().len()
    }

    /// The token spans this stream has yet to yield.
    pub open spec fn remaining(&self) -> Seq<(int, int)> {
        spec_tokens_from(self.text_view(), self.cursor())
    }

    /// Move to the next token. Returns false when the stream is exhausted or
    /// no rule matches at the cursor; a discarded oversized match is skipped.
    /// The cursor never moves backwards.
    pub fn advance(&mut self) -> (b: bool)
        requires
            old(self).wf(),
        ensures
            final(self).wf(),
            final(self).text_view() == old(self).text_view(),
            final(self).cursor() >= old(self).cursor(),
            b == (old(self).remaining().len() > 0),
            b ==> {
                &&& (final(self).current().start as int, final(self).current().end as int)
                    == old(self).remaining()[0]
                &&& final(self).cursor() == final(self).current().end as int
                &&& final(self).remaining() == old(self).remaining().drop_first()
            },
            !b ==> {
                &&& final(self).current() == old(self).current()
                &&& final(self).remaining().len() == 0
            },
    {
        let ghost sq = self.text@;
        let ghost rem0 = self.remaining();
        let n = self.text.len();
        loop
            invariant
                self.pos <= n,
                n == sq.len(),
                self.text@ == sq,
                sq == old(self).text_view(),
                rem0 == old(self).remaining(),
                self.token == old(self).current(),
                old(self).cursor() <= self.pos as int,
                spec_tokens_from(sq, self.pos as int) == rem0,
            ensures
                self.text@ == sq,
                self.pos <= n,
                old(self).cursor() <= self.pos as int,
                if rem0.len() > 0 {
                    (self.token.start as int, self.token.end as int) == rem0[0]
                        && self.pos as int == self.token.end as int
                        && spec_tokens_from(sq, self.pos as int) == rem0.drop_first()
                } else {
                    self.token == old(self).token
                        && spec_tokens_from(sq, self.pos as int).len() == 0
                },
            decreases n - self.pos,
        {
            let pos = self.pos;
            if pos >= n {
                assert(rem0 =~= Seq::<(int, int)>::empty());
                return false;
            }
            match best_match_at(self.text, pos) {
                Option::None => {
                    assert(rem0 =~= Seq::<(int, int)>::empty());
                    return false;
                },
                Option::Some(l) => {
                    let ghost rest = spec_tokens_from(sq, pos as int + l as int);
                    if space_b(self.text[pos]) {
                        self.pos = pos + l;
                    } else if l > MAX_TOKEN_LEN {
                        self.pos = pos + l;
                    } else {
                        self.token = Token { start: pos, end: pos + l };
                        self.pos = pos + l;
                        proof {
                            assert(rem0 == seq![(pos as int, pos as int + l as int)] + rest);
                            assert(rem0.drop_first() =~= rest);
                        }
                        return true;
                    }
                },
            }
        }
    }

    /// The most recently yielded token.
    pub fn token(&self) -> (t: &Token)
        ensures
            *t == self.current(),
    {
        &self.token
    }

    /// Mutable access to the most recently yielded token.
    pub fn token_mut(&mut self) -> (t: &mut Token)
        ensures
            *t == old(self).current(),
            final(self).current() == *final(t),
            final(self).text_view() == old(self).text_view(),
            final(self).cursor() == old(self).cursor(),
    {
        &mut self.token
    }

    /// Yield the next token's span, iterator-style. The cursor never moves
    /// backwards, and a yielded span is also what `token` then reports.
    pub fn next_span(&mut self) -> (r: Option<(usize, usize)>)
        requires
            old(self).wf(),
        ensures
            final(self).wf(),
            final(self).text_view() == old(self).text_view(),
            final(self).cursor() >= old(self).cursor(),
            match r {
                Option::Some(p) => {
                    &&& old(self).remaining().len() > 0
                    &&& (p.0 as int, p.1 as int) == old(self).remaining()[0]
                    &&& final(self).current().start == p.0
                    &&& final(self).current().end == p.1
                    &&& final(self).remaining() == old(self).remaining().drop_first()
                },
                Option::None => {
                    &&& old(self).remaining().len() == 0
                    &&& final(self).current() == old(self).current()
                    &&& final(self).remaining().len() == 0
                },
            },
    {
        if self.advance() {
            Some((self.token.start, self.token.end))
        } else {
            None
        }
    }
}

// ---------------------------------------------------------------------------
// Laws of the token sequence
// ---------------------------------------------------------------------------

/// Spans lie within `[lo, hi)`-style bounds, are non-empty, and never
/// overlap: each starts no earlier than the previous one ends.
pub open spec fn spans_wf(spans: Seq<(int, int)>, lo: int, hi: int) -> bool {
    &&& (forall|k: int|
        0 <= k < spans.len() ==> lo <= (#[trigger] spans[k]).0 && spans[k].0 < spans[k].1
            && spans[k].1 <= hi)
    &&& (forall|k: int| 0 < k < spans.len() ==> (#[trigger] spans[k]).0 >= spans[k - 1].1)
}

/// The token spans of any input are in increasing order, non-empty,
/// non-overlapping, and stay inside the input.
pub proof fn lemma_tokens_wf(s: Seq<u8>, i: int)
    requires
        0 <= i,
    ensures
        spans_wf(spec_tokens_from(s, i), i, s.len() as int),
    decreases s.len() - i,
{
    if i >= s.len() {
    } else {
        lemma_best_len_bounds(s, i);
        match best_len(s, i) {
            Option::None => {},
            Option::Some(l) => {
                lemma_tokens_wf(s, i + l);
                let rest = spec_tokens_from(s, i + l);
                if is_space(s[i]) || l > MAX_TOKEN_LEN {
                } else {
                    let all = seq![(i, i + l)] + rest;
                    assert forall|k: int| 0 < k < all.len() implies (#[trigger] all[k]).0 >= all[k
                        - 1].1 by {
                        if k == 1 {
                            assert(all[0] == (i, i + l));
                            assert(all[1] == rest[0]);
                        } else {
                            assert(all[k] == rest[k - 1]);
                            assert(all[k - 1] == rest[k - 2]);
                        }
                    }
                }
            },
        }
    }
}

/// The non-whitespace bytes of a byte sequence, in order.
pub open spec fn keep_nonspace(s: Seq<u8>) -> Seq<u8>
    decreases s.len(),
{
    if s.len() == 0 {
        Seq::empty()
    } else if is_space(s[0]) {
        keep_nonspace(s.drop_first())
    } else {
        seq![s[0]] + keep_nonspace(s.drop_first())
    }
}

/// Filtering whitespace distributes over concatenation.
pub proof fn lemma_keep_nonspace_add(a: Seq<u8>, b: Seq<u8>)
    ensures
        keep_nonspace(a + b) == keep_nonspace(a) + keep_nonspace(b),
    decreases a.len(),
{
    if a.len() == 0 {
        assert(a + b =~= b);
        assert(keep_nonspace(a) + keep_nonspace(b) =~= keep_nonspace(b));
    } else {
        assert((a + b).len() > 0);
        assert((a + b)[0] == a[0]);
        assert((a + b).drop_first() =~= a.drop_first() + b);
        lemma_keep_nonspace_add(a.drop_first(), b);
        if is_space(a[0]) {
        } else {
            assert(seq![a[0]] + (keep_nonspace(a.drop_first()) + keep_nonspace(b)) =~= (seq![a[0]]
                + keep_nonspace(a.drop_first())) + keep_nonspace(b));
        }
    }
}

/// A sequence of whitespace bytes filters to nothing.
pub proof fn lemma_keep_nonspace_all_space(t: Seq<u8>)
    requires
        forall|k: int| 0 <= k < t.len() ==> is_space(#[trigger] t[k]),
    ensures
        keep_nonspace(t) == Seq::<u8>::empty(),
    decreases t.len(),
{
    if t.len() == 0 {
        assert(keep_nonspace(t) =~= Seq::<u8>::empty());
    } else {
        lemma_keep_nonspace_all_space(t.drop_first());
    }
}

/// Every byte of a whitespace run is whitespace.
pub proof fn lemma_space_run_all(s: Seq<u8>, j: int)
    requires
        0 <= j <= s.len(),
    ensures
        forall|k: int| j <= k < j + space_run(s, j) ==> is_space(#[trigger] s[k]),
    decreases s.len() - j,
{
    if j < s.len() && is_space(s[j]) {
        lemma_space_run_all(s, j + 1);
    }
}

/// At a whitespace byte the longest match is the whitespace run: no other
/// rule matches there, so nothing but whitespace is ever skipped silently.
pub proof fn lemma_space_best(s: Seq<u8>, i: int)
    requires
        0 <= i < s.len(),
        is_space(s[i]),
    ensures
        best_len(s, i) == Some(space_run(s, i)),
        forall|k: int| i <= k < i + space_run(s, i) ==> is_space(#[trigger] s[k]),
{
    assert(rule_len(s, i, 0) is None);
    assert(rule_len(s, i, 1) is None);
    assert(rule_len(s, i, 2) is None);
    assert(rule_len(s, i, 3) is None);
    assert(rule_len(s, i, 4) is None);
    assert(rule_len(s, i, 5) is None);
    assert(rule_len(s, i, 6) is None);
    assert(rule_len(s, i, 7) is None);
    assert(rule_len(s, i, 8) is None);
    assert(rule_len(s, i, 9) is None);
    assert(digit_run(s, i) == 0);
    assert(rule_len(s, i, 10) is None);
    assert(rule_len(s, i, 11) == Some(space_run(s, i)));
    assert(best_len_from(s, i, 12) is None);
    assert(best_len_from(s, i, 11) == Some(space_run(s, i)));
    assert(best_len_from(s, i, 10) == Some(space_run(s, i)));
    assert(best_len_from(s, i, 9) == Some(space_run(s, i)));
    assert(best_len_from(s, i, 8) == Some(space_run(s, i)));
    assert(best_len_from(s, i, 7) == Some(space_run(s, i)));
    assert(best_len_from(s, i, 6) == Some(space_run(s, i)));
    assert(best_len_from(s, i, 5) == Some(space_run(s, i)));
    assert(best_len_from(s, i, 4) == Some(space_run(s, i)));
    assert(best_len_from(s, i, 3) == Some(space_run(s, i)));
    assert(best_len_from(s, i, 2) == Some(space_run(s, i)));
    assert(best_len_from(s, i, 1) == Some(space_run(s, i)));
    assert(best_len_from(s, i, 0) == Some(space_run(s, i)));
    lemma_space_run_all(s, i);
}

/// The non-whitespace bytes of the token spans, concatenated in span order.
pub open spec fn tokens_nonspace(s: Seq<u8>, spans: Seq<(int, int)>) -> Seq<u8>
    decreases spans.len(),
{
    if spans.len() == 0 {
        Seq::empty()
    } else {
        keep_nonspace(s.subrange(spans[0].0, spans[0].1)) + tokens_nonspace(s, spans.drop_first())
    }
}

proof fn lemma_reconstruct_from(s: Seq<u8>, i: int)
    requires
        0 <= i <= s.len(),
        spec_lex_clean_from(s, i),
    ensures
        tokens_nonspace(s, spec_tokens_from(s, i)) == keep_nonspace(
            s.subrange(i, s.len() as int),
        ),
    decreases s.len() - i,
{
    if i >= s.len() {
        assert(s.subrange(i, s.len() as int) =~= Seq::<u8>::empty());
        assert(keep_nonspace(Seq::<u8>::empty()) =~= Seq::<u8>::empty());
    } else {
        lemma_best_len_bounds(s, i);
        let l = best_len(s, i)->Some_0;
        let mid = i + l;
        assert(s.subrange(i, s.len() as int) =~= s.subrange(i, mid) + s.subrange(
            mid,
            s.len() as int,
        ));
        lemma_keep_nonspace_add(s.subrange(i, mid), s.subrange(mid, s.len() as int));
        lemma_reconstruct_from(s, mid);
        if is_space(s[i]) {
            lemma_space_best(s, i);
            assert forall|k: int| 0 <= k < s.subrange(i, mid).len() implies is_space(
                #[trigger] s.subrange(i, mid)[k],
            ) by {
                assert(s.subrange(i, mid)[k] == s[i + k]);
            }
            lemma_keep_nonspace_all_space(s.subrange(i, mid));
            assert(keep_nonspace(s.subrange(i, s.len() as int)) =~= keep_nonspace(
                s.subrange(mid, s.len() as int),
            ));
        } else {
            let rest = spec_tokens_from(s, mid);
            let all = seq![(i, mid)] + rest;
            assert(spec_tokens_from(s, i) == all);
            assert(all[0] == (i, mid));
            assert(all.drop_first() =~= rest);
            assert(tokens_nonspace(s, all) == keep_nonspace(s.subrange(i, mid))
                + tokens_nonspace(s, rest));
        }
    }
}

/// Law of reconstruction: when lexing loses nothing but whitespace, the
/// non-whitespace bytes of the token spans, concatenated in order,
/// are exactly the non-whitespace bytes of the input — none duplicated,
/// none skipped, none reordered. (Tokens such as comments may hold interior
/// whitespace, so the law filters whitespace instead of trimming span ends;
/// on spans without interior whitespace the two agree.)
pub proof fn lemma_tokens_reconstruct(s: Seq<u8>)
    requires
        spec_lex_clean(s),
    ensures
        tokens_nonspace(s, spec_tokens(s)) == keep_nonspace(s),
{
    lemma_reconstruct_from(s, 0);
    assert(s.subrange(0, s.len() as int) =~= s);
}

/// Law of restartability: token streams are deterministic in the input
/// alone, so two independent streams over the same text, at the same
/// cursor, have the same tokens yet to come.
pub proof fn lemma_streams_agree(a: CTokenStream, b: CTokenStream)
    requires
        a.text_view() == b.text_view(),
        a.cursor() == b.cursor(),
    ensures
        a.remaining() == b.remaining(),
{
}

} // verus!
