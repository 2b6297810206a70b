//! Classes of bytes, and runs of bytes of one class.

use vstd::prelude::*;

verus! {

/// ASCII white space: tab, line feed, vertical tab, form feed, carriage return, space.
pub open spec fn space_byte(b: u8) -> bool {
    9 <= b <= 13 || b == 32
}

/// An ASCII digit.
pub open spec fn digit_byte(b: u8) -> bool {
    48 <= b <= 57
}

/// A hexadecimal digit.
pub open spec fn hex_byte(b: u8) -> bool {
    48 <= b <= 57 || 65 <= b <= 70 || 97 <= b <= 102
}

/// An ASCII letter.
pub open spec fn alpha_byte(b: u8) -> bool {
    65 <= b <= 90 || 97 <= b <= 122
}

/// ASCII punctuation.
pub open spec fn punct_byte(b: u8) -> bool {
    33 <= b <= 47 || 58 <= b <= 64 || 91 <= b <= 96 || 123 <= b <= 126
}

/// Line feed or carriage return.
pub open spec fn line_end_byte(b: u8) -> bool {
    b == 10 || b == 13
}

/// Space or tab.
pub open spec fn blank_byte(b: u8) -> bool {
    b == 9 || b == 32
}

/// The byte with ASCII capitals made small.
pub open spec fn lower_byte(b: u8) -> u8 {
    if 65 <= b <= 90 {
        (b + 32) as u8
    } else {
        b
    }
}

/// Whether `c` is ASCII white space.
pub fn isspace(c: u8) -> (r: bool)
    ensures
        r == space_byte(c),
{
    (9 <= c && c <= 13) || c == 32
}

/// Whether `c` is an ASCII digit.
pub fn isdigit(c: u8) -> (r: bool)
    ensures
        r == digit_byte(c),
{
    48 <= c && c <= 57
}

/// Whether `c` is a hexadecimal digit.
pub fn isxdigit(c: u8) -> (r: bool)
    ensures
        r == hex_byte(c),
{
    (48 <= c && c <= 57) || (65 <= c && c <= 70) || (97 <= c && c <= 102)
}

/// Whether `c` is an ASCII letter.
pub fn isalpha(c: u8) -> (r: bool)
    ensures
        r == alpha_byte(c),
{
    (65 <= c && c <= 90) || (97 <= c && c <= 122)
}

/// Whether `c` is ASCII punctuation.
pub fn ispunct(c: u8) -> (r: bool)
    ensures
        r == punct_byte(c),
{
    (33 <= c && c <= 47) || (58 <= c && c <= 64) || (91 <= c && c <= 96) || (123 <= c && c <= 126)
}

/// Whether `c` ends a line.
pub fn is_line_end_char(c: u8) -> (r: bool)
    ensures
        r == line_end_byte(c),
{
    c == 10 || c == 13
}

/// Whether `c` is a space or a tab.
pub fn is_space_or_tab(c: u8) -> (r: bool)
    ensures
        r == blank_byte(c),
{
    c == 9 || c == 32
}

/// `c` with ASCII capitals made small.
pub fn lower(c: u8) -> (r: u8)
    ensures
        r == lower_byte(c),
{
    if 65 <= c && c <= 90 {
        c + 32
    } else {
        c
    }
}

/// The class of white space.
pub open spec fn spaces() -> spec_fn(u8) -> bool {
    |b: u8| space_byte(b)
}

/// The class of spaces and tabs.
pub open spec fn blanks() -> spec_fn(u8) -> bool {
    |b: u8| blank_byte(b)
}

/// The class of digits.
pub open spec fn digits() -> spec_fn(u8) -> bool {
    |b: u8| digit_byte(b)
}

/// The class that holds `c` alone.
pub open spec fn only(c: u8) -> spec_fn(u8) -> bool {
    |b: u8| b == c
}

/// Where the run of bytes of the class `f` that starts at `i` ends: the first index from `i`
/// on whose byte is outside the class, or the end of `s`.
pub open spec fn run_end(s: Seq<u8>, i: int, f: spec_fn(u8) -> bool) -> int
    decreases s.len() - i,
{
    if 0 <= i < s.len() && f(s[i]) {
        run_end(s, i + 1, f)
    } else {
        i
    }
}

/// The end of a run is the index that has the class before it and not at it.
pub proof fn lemma_run_end_is(s: Seq<u8>, i: int, j: int, f: spec_fn(u8) -> bool)
    requires
        0 <= i <= j <= s.len(),
        forall|k: int| i <= k < j ==> f(#[trigger] s[k]),
        j == s.len() || !f(s[j]),
    ensures
        run_end(s, i, f) == j,
    decreases j - i,
{
    if i < j {
        lemma_run_end_is(s, i + 1, j, f);
    }
}

/// What lies in a run, and what stops it.
pub proof fn lemma_run_end(s: Seq<u8>, i: int, f: spec_fn(u8) -> bool)
    requires
        0 <= i <= s.len(),
    ensures
        i <= run_end(s, i, f) <= s.len(),
        forall|k: int| i <= k < run_end(s, i, f) ==> f(#[trigger] s[k]),
        run_end(s, i, f) == s.len() || !f(s[run_end(s, i, f)]),
    decreases s.len() - i,
{
    if i < s.len() && f(s[i]) {
        lemma_run_end(s, i + 1, f);
    }
}

/// A run can be taken up at any index inside it.
pub proof fn lemma_run_end_from(s: Seq<u8>, i: int, j: int, f: spec_fn(u8) -> bool)
    requires
        0 <= i <= j <= run_end(s, i, f),
        i <= s.len(),
    ensures
        run_end(s, j, f) == run_end(s, i, f),
{
    lemma_run_end(s, i, f);
    lemma_run_end_is(s, j, run_end(s, i, f), f);
}

/// Skips spaces and tabs from `i` on.
pub fn skip_blanks(s: &[u8], i: usize) -> (r: usize)
    requires
        i <= s@.len(),
    ensures
        r == run_end(s@, i as int, blanks()),
        i <= r <= s@.len(),
{
    let mut j: usize = i;
    while j < s.len() && is_space_or_tab(s[j])
        invariant
            i <= j <= s@.len(),
            forall|k: int| i <= k < j ==> blank_byte(#[trigger] s@[k]),
        decreases s@.len() - j,
    {
        j += 1;
    }
    proof {
        lemma_run_end_is(s@, i as int, j as int, blanks());
    }
    j
}

/// Skips white space from `i` on.
pub fn skip_spaces(s: &[u8], i: usize) -> (r: usize)
    requires
        i <= s@.len(),
    ensures
        r == run_end(s@, i as int, spaces()),
        i <= r <= s@.len(),
{
    let mut j: usize = i;
    while j < s.len() && isspace(s[j])
        invariant
            i <= j <= s@.len(),
            forall|k: int| i <= k < j ==> space_byte(#[trigger] s@[k]),
        decreases s@.len() - j,
    {
        j += 1;
    }
    proof {
        lemma_run_end_is(s@, i as int, j as int, spaces());
    }
    j
}

/// Skips the bytes equal to `c` from `i` on.
pub fn skip_only(s: &[u8], i: usize, c: u8) -> (r: usize)
    requires
        i <= s@.len(),
    ensures
        r == run_end(s@, i as int, only(c)),
        i <= r <= s@.len(),
{
    let mut j: usize = i;
    while j < s.len() && s[j] == c
        invariant
            i <= j <= s@.len(),
            forall|k: int| i <= k < j ==> #[trigger] s@[k] == c,
        decreases s@.len() - j,
    {
        j += 1;
    }
    proof {
        lemma_run_end_is(s@, i as int, j as int, only(c));
    }
    j
}

} // verus!
