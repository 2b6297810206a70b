//! Trimming, unescaping and the other small operations on text.

use crate::ctype::{
    blank_byte, blanks, is_line_end_char, is_space_or_tab, ispunct, isspace, lemma_run_end,
    lemma_run_end_is, line_end_byte, punct_byte, run_end, skip_blanks, skip_spaces, spaces,
};
use crate::text::{copy_range, lemma_boundary_at_ascii, lemma_valid_between, lemma_valid_concat};
use vstd::prelude::*;
use vstd::utf8::{is_char_boundary_start_end_of_seq, valid_utf8, valid_utf8_split};

verus! {

/// Nothing but blanks before the first line end, or at all.
pub open spec fn blank_text(s: Seq<u8>) -> bool {
    let e = run_end(s, 0, blanks());
    e == s.len() || line_end_byte(s[e])
}

/// Whether `s` has nothing but blanks before its first line end, or at all.
pub fn is_blank(s: &[u8]) -> (r: bool)
    ensures
        r == blank_text(s@),
{
    let e: usize = skip_blanks(s, 0);
    e == s.len() || is_line_end_char(s[e])
}

/// Where the first `n` bytes of `s` end once the bytes of the class `f` at their end are
/// dropped.
pub open spec fn end_without(s: Seq<u8>, n: int, f: spec_fn(u8) -> bool) -> int
    decreases n,
{
    if 0 < n <= s.len() && f(s[n - 1]) {
        end_without(s, n - 1, f)
    } else {
        n
    }
}

/// What bounds the end without a class.
pub proof fn lemma_end_without(s: Seq<u8>, n: int, f: spec_fn(u8) -> bool)
    requires
        0 <= n <= s.len(),
    ensures
        0 <= end_without(s, n, f) <= n,
        forall|k: int| end_without(s, n, f) <= k < n ==> f(#[trigger] s[k]),
        end_without(s, n, f) > 0 ==> !f(s[end_without(s, n, f) - 1]),
    decreases n,
{
    if n > 0 && f(s[n - 1]) {
        lemma_end_without(s, n - 1, f);
    }
}

/// `s` without white space at its end.
pub open spec fn rtrimmed(s: Seq<u8>) -> Seq<u8> {
    s.subrange(0, end_without(s, s.len() as int, spaces()))
}

/// `s` without white space at its start.
pub open spec fn ltrimmed(s: Seq<u8>) -> Seq<u8> {
    s.subrange(run_end(s, 0, spaces()), s.len() as int)
}

/// `s` without white space at either end.
pub open spec fn trimmed(s: Seq<u8>) -> Seq<u8> {
    ltrimmed(rtrimmed(s))
}

/// Trimmed text is text.
pub proof fn lemma_rtrimmed_valid(s: Seq<u8>)
    requires
        valid_utf8(s),
    ensures
        valid_utf8(rtrimmed(s)),
{
    let e = end_without(s, s.len() as int, spaces());
    lemma_end_without(s, s.len() as int, spaces());
    is_char_boundary_start_end_of_seq(s);
    if e < s.len() {
        assert(spaces()(s[e]));
        lemma_boundary_at_ascii(s, e);
    }
    lemma_valid_between(s, 0, e);
}

/// Trimmed text is text.
pub proof fn lemma_ltrimmed_valid(s: Seq<u8>)
    requires
        valid_utf8(s),
    ensures
        valid_utf8(ltrimmed(s)),
{
    let b = run_end(s, 0, spaces());
    lemma_run_end(s, 0, spaces());
    is_char_boundary_start_end_of_seq(s);
    if b > 0 {
        assert(spaces()(s[b - 1]));
        lemma_boundary_at_ascii(s, b - 1);
    }
    lemma_valid_between(s, b, s.len() as int);
}

/// Trimmed text is text.
pub proof fn lemma_trimmed_valid(s: Seq<u8>)
    requires
        valid_utf8(s),
    ensures
        valid_utf8(trimmed(s)),
{
    lemma_rtrimmed_valid(s);
    lemma_ltrimmed_valid(rtrimmed(s));
}

/// Where `s` ends without white space.
pub fn rtrim_end(s: &[u8]) -> (r: usize)
    ensures
        r == end_without(s@, s@.len() as int, spaces()),
        r <= s@.len(),
{
    let mut n: usize = s.len();
    while n > 0 && isspace(s[n - 1])
        invariant
            n <= s@.len(),
            end_without(s@, s@.len() as int, spaces()) == end_without(s@, n as int, spaces()),
        decreases n,
    {
        n -= 1;
    }
    n
}

/// Drops the white space at the end of `v`.
pub fn rtrim(v: &mut Vec<u8>)
    ensures
        final(v)@ == rtrimmed(old(v)@),
{
    let n: usize = rtrim_end(v.as_slice());
    v.truncate(n);
}

/// A copy of `s` without white space at its end.
pub fn rtrim_slice(s: &[u8]) -> (r: Vec<u8>)
    ensures
        r@ == rtrimmed(s@),
{
    let n: usize = rtrim_end(s);
    copy_range(s, 0, n)
}

/// A copy of `s` without white space at either end.
pub fn trim_slice(s: &[u8]) -> (r: Vec<u8>)
    ensures
        r@ == trimmed(s@),
{
    let t: Vec<u8> = rtrim_slice(s);
    let b: usize = skip_spaces(t.as_slice(), 0);
    copy_range(t.as_slice(), b, t.len())
}

/// The class of hashes.
pub open spec fn hashes() -> spec_fn(u8) -> bool {
    |b: u8| b == 35
}

/// The line of a heading without the hashes that close it, which a blank must set off.
pub open spec fn without_closing_hashes(line: Seq<u8>) -> Seq<u8> {
    let t = rtrimmed(line);
    let n = end_without(t, t.len() as int, hashes());
    if 0 < n < t.len() && blank_byte(t[n - 1]) {
        rtrimmed(t.subrange(0, n - 1))
    } else {
        t
    }
}

/// What is left of the line of a heading is a prefix of it, and text.
pub proof fn lemma_without_closing_hashes(line: Seq<u8>)
    requires
        valid_utf8(line),
    ensures
        valid_utf8(without_closing_hashes(line)),
        without_closing_hashes(line).len() <= line.len(),
        without_closing_hashes(line) == line.subrange(
            0,
            without_closing_hashes(line).len() as int,
        ),
{
    let t = rtrimmed(line);
    lemma_rtrimmed_valid(line);
    lemma_end_without(line, line.len() as int, spaces());
    let n = end_without(t, t.len() as int, hashes());
    lemma_end_without(t, t.len() as int, hashes());
    assert(t =~= line.subrange(0, t.len() as int));
    if 0 < n < t.len() && blank_byte(t[n - 1]) {
        let u = t.subrange(0, n - 1);
        lemma_boundary_at_ascii(t, n - 1);
        valid_utf8_split(t, n - 1);
        lemma_rtrimmed_valid(u);
        lemma_end_without(u, u.len() as int, spaces());
        assert(rtrimmed(u) =~= line.subrange(0, rtrimmed(u).len() as int));
    }
}

/// Drops the hashes that close a heading.
pub fn chop_trailing_hashtags(line: &mut Vec<u8>)
    ensures
        final(line)@ == without_closing_hashes(old(line)@),
{
    rtrim(line);
    let ghost t = line@;
    let mut n: usize = line.len();
    while n > 0 && line[n - 1] == 35
        invariant
            n <= line@.len(),
            line@ == t,
            end_without(t, t.len() as int, hashes()) == end_without(t, n as int, hashes()),
        decreases n,
    {
        n -= 1;
    }
    if 0 < n && n < line.len() && is_space_or_tab(line[n - 1]) {
        line.truncate(n - 1);
        rtrim(line);
    }
}

/// Blanks and line ends.
pub open spec fn gaps() -> spec_fn(u8) -> bool {
    |b: u8| blank_byte(b) || line_end_byte(b)
}

/// Bytes that end no line.
pub open spec fn inner_bytes() -> spec_fn(u8) -> bool {
    |b: u8| !line_end_byte(b)
}

/// The text up to the end of its last line that is not blank.
pub open spec fn without_trailing_blank_lines(s: Seq<u8>) -> Seq<u8> {
    let m = end_without(s, s.len() as int, gaps());
    if m == 0 {
        seq![]
    } else {
        s.subrange(0, run_end(s, m - 1, inner_bytes()))
    }
}

/// What is left without trailing blank lines is text.
pub proof fn lemma_without_trailing_blank_lines(s: Seq<u8>)
    requires
        valid_utf8(s),
    ensures
        valid_utf8(without_trailing_blank_lines(s)),
{
    let m = end_without(s, s.len() as int, gaps());
    lemma_end_without(s, s.len() as int, gaps());
    if m > 0 {
        let e = run_end(s, m - 1, inner_bytes());
        lemma_run_end(s, m - 1, inner_bytes());
        is_char_boundary_start_end_of_seq(s);
        if e < s.len() {
            lemma_boundary_at_ascii(s, e);
        }
        lemma_valid_between(s, 0, e);
    }
}

/// Drops blank lines at the end of `v`, and the last line end.
pub fn remove_trailing_blank_lines(v: &mut Vec<u8>)
    ensures
        final(v)@ == without_trailing_blank_lines(old(v)@),
{
    let ghost s = v@;
    let mut m: usize = v.len();
    while m > 0 && (is_space_or_tab(v[m - 1]) || is_line_end_char(v[m - 1]))
        invariant
            v@ == s,
            m <= v@.len(),
            end_without(s, s.len() as int, gaps()) == end_without(s, m as int, gaps()),
        decreases m,
    {
        m -= 1;
    }
    if m == 0 {
        v.clear();
        return;
    }
    let mut e: usize = m - 1;
    while e < v.len() && !is_line_end_char(v[e])
        invariant
            v@ == s,
            0 < m,
            m - 1 <= e <= v@.len(),
            forall|k: int| m - 1 <= k < e ==> inner_bytes()(#[trigger] s[k]),
        decreases v@.len() - e,
    {
        e += 1;
    }
    proof {
        lemma_run_end_is(s, m - 1, e as int, inner_bytes());
    }
    v.truncate(e);
}

/// `s` from `i` on, without the backslashes that escape punctuation.
pub open spec fn unescaped_from(s: Seq<u8>, i: int) -> Seq<u8>
    decreases s.len() - i,
{
    if i < 0 || i >= s.len() {
        seq![]
    } else if s[i] == 92 && i + 1 < s.len() && punct_byte(s[i + 1]) {
        seq![s[i + 1]] + unescaped_from(s, i + 2)
    } else {
        seq![s[i]] + unescaped_from(s, i + 1)
    }
}

/// `s` without the backslashes that escape punctuation.
pub open spec fn unescaped(s: Seq<u8>) -> Seq<u8> {
    unescaped_from(s, 0)
}

/// Text from which an ASCII byte is taken is text.
pub proof fn lemma_valid_without(s: Seq<u8>, k: int)
    requires
        valid_utf8(s),
        0 <= k < s.len(),
        s[k] < 128,
    ensures
        valid_utf8(s.subrange(0, k) + s.subrange(k + 1, s.len() as int)),
{
    lemma_boundary_at_ascii(s, k);
    valid_utf8_split(s, k);
    valid_utf8_split(s, k + 1);
    lemma_valid_concat(s.subrange(0, k), s.subrange(k + 1, s.len() as int));
}

/// Unescaping behind a text keeps it text.
pub proof fn lemma_unescaped_valid(before: Seq<u8>, s: Seq<u8>, i: int)
    requires
        0 <= i <= s.len(),
        valid_utf8(before + s.subrange(i, s.len() as int)),
    ensures
        valid_utf8(before + unescaped_from(s, i)),
    decreases s.len() - i,
{
    let all = before + s.subrange(i, s.len() as int);
    if i == s.len() {
        assert(all =~= before + unescaped_from(s, i));
    } else if s[i] == 92 && i + 1 < s.len() && punct_byte(s[i + 1]) {
        lemma_valid_without(all, before.len() as int);
        let next = before.push(s[i + 1]);
        assert(all.subrange(0, before.len() as int) + all.subrange(
            before.len() as int + 1,
            all.len() as int,
        ) =~= next + s.subrange(i + 2, s.len() as int));
        lemma_unescaped_valid(next, s, i + 2);
        assert(next + unescaped_from(s, i + 2) =~= before + unescaped_from(s, i));
    } else {
        let next = before.push(s[i]);
        assert(all =~= next + s.subrange(i + 1, s.len() as int));
        lemma_unescaped_valid(next, s, i + 1);
        assert(next + unescaped_from(s, i + 1) =~= before + unescaped_from(s, i));
    }
}

/// A copy of `s` without the backslashes that escape punctuation.
pub fn unescape(s: &[u8]) -> (r: Vec<u8>)
    ensures
        r@ == unescaped(s@),
        valid_utf8(s@) ==> valid_utf8(r@),
{
    let mut v: Vec<u8> = Vec::new();
    let mut i: usize = 0;
    while i < s.len()
        invariant
            i <= s@.len(),
            unescaped(s@) == v@ + unescaped_from(s@, i as int),
        decreases s@.len() - i,
    {
        let ghost before = v@;
        if s[i] == 92 && s.len() - i > 1 && ispunct(s[i + 1]) {
            v.push(s[i + 1]);
            i += 2;
            proof {
                assert(v@ + unescaped_from(s@, i as int) =~= before + unescaped_from(s@, i - 2));
            }
        } else {
            v.push(s[i]);
            i += 1;
            proof {
                assert(v@ + unescaped_from(s@, i as int) =~= before + unescaped_from(s@, i - 1));
            }
        }
    }
    proof {
        assert(v@ =~= unescaped(s@));
        if valid_utf8(s@) {
            let none = Seq::<u8>::empty();
            assert(none + s@.subrange(0, s@.len() as int) =~= s@);
            lemma_unescaped_valid(none, s@, 0);
            assert(none + unescaped_from(s@, 0) =~= v@);
        }
    }
    v
}

} // verus!
