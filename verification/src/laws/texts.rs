//! What trimming, unescaping and normalising leave of a text.

use crate::ctype::{lemma_run_end, spaces};
use crate::laws::words::{
    all_white, blank, law_classes, letter, line_end, numeral, white, BACKSLASH,
};
use crate::strings::{blank_text, lemma_end_without, rtrimmed, trimmed, unescaped, unescaped_from};
use vstd::prelude::*;

verus! {

/// Trimming at the end takes off white space there, all of it, and nothing else.
pub proof fn law_rtrimmed(s: Seq<u8>)
    ensures
        ({
            let t = rtrimmed(s);
            &&& t.len() <= s.len()
            &&& t == s.take(t.len() as int)
            &&& all_white(s.skip(t.len() as int))
            &&& t.len() > 0 ==> !white(t.last())
        }),
{
    lemma_end_without(s, s.len() as int, spaces());
    let t = rtrimmed(s);
    let n = t.len() as int;
    assert(t =~= s.take(n));
    assert forall|k: int| 0 <= k < s.len() - n implies white(#[trigger] s.skip(n)[k]) by {
        assert(spaces()(s[n + k]));
        law_classes(s[n + k]);
    }
    if n > 0 {
        law_classes(s[n - 1]);
    }
}

/// Trimming takes off white space at either end, all of it, and nothing else. `i` bytes are gone
/// at the start.
pub proof fn law_trimmed(s: Seq<u8>) -> (i: int)
    ensures
        ({
            let t = trimmed(s);
            &&& 0 <= i && i + t.len() <= s.len()
            &&& t == s.subrange(i, i + t.len())
            &&& all_white(s.take(i))
            &&& all_white(s.skip(i + t.len()))
            &&& t.len() > 0 ==> !white(t[0]) && !white(t.last())
        }),
{
    law_rtrimmed(s);
    let r = rtrimmed(s);
    lemma_run_end(r, 0, spaces());
    let i = crate::ctype::run_end(r, 0, spaces());
    let t = trimmed(s);
    assert(t =~= s.subrange(i, i + t.len()));
    assert forall|k: int| 0 <= k < i implies white(#[trigger] s.take(i)[k]) by {
        assert(spaces()(r[k]));
        law_classes(r[k]);
    }
    assert(i + t.len() == r.len());
    if t.len() > 0 {
        law_classes(r[i]);
        assert(t[0] == r[i]);
        assert(t.last() == r.last());
    }
    i
}

/// There is one way to trim a text: what stands between white space, and itself starts and ends
/// with none, is what is left.
pub proof fn law_trimmed_alone(a: Seq<u8>, t: Seq<u8>, b: Seq<u8>)
    requires
        all_white(a),
        all_white(b),
        t.len() > 0 ==> !white(t[0]) && !white(t.last()),
    ensures
        trimmed(a + t + b) == t,
{
    let s = a + t + b;
    let i = law_trimmed(s);
    let r = trimmed(s);
    let j = i + r.len();
    if t.len() == 0 {
        if r.len() > 0 {
            assert(r[0] == s[i]);
            if i < a.len() {
                assert(white(a[i]));
            } else {
                assert(white(b[i - a.len()]));
            }
        }
        assert(r =~= t);
    } else {
        let x = a.len() as int;
        let y = x + t.len();
        assert(s[x] == t[0]);
        assert(s[y - 1] == t.last());
        if i > x {
            assert(s.take(i)[x] == s[x]);
        }
        if j < y {
            assert(s.skip(j)[y - 1 - j] == s[y - 1]);
        }
        assert(r.len() > 0);
        assert(r[0] == s[i]);
        if i < x {
            assert(white(a[i]));
        }
        assert(r.last() == s[j - 1]);
        if j > y {
            assert(white(b[j - 1 - y]));
        }
        assert(r =~= t);
    }
}

/// A text of which the first line is blank holds nothing but blanks before its first line end.
pub proof fn law_blank_text(s: Seq<u8>, e: int)
    requires
        0 <= e <= s.len(),
        crate::laws::words::blanks_between(s, 0, e),
        e < s.len() ==> !blank(s[e]),
    ensures
        blank_text(s) <==> e == s.len() || line_end(s[e]),
{
    assert forall|k: int| 0 <= k < e implies crate::ctype::blanks()(#[trigger] s[k]) by {
        law_classes(s[k]);
    }
    if e < s.len() {
        law_classes(s[e]);
    }
    crate::ctype::lemma_run_end_is(s, 0, e, crate::ctype::blanks());
}

/// Whether `a` holds no backslash.
pub open spec fn unslashed(a: Seq<u8>) -> bool {
    forall|k: int| 0 <= k < a.len() ==> #[trigger] a[k] != BACKSLASH
}

/// Text before an index is taken as it is where it holds no backslash.
proof fn lemma_unescaped_behind(a: Seq<u8>, s: Seq<u8>, i: int)
    requires
        0 <= i <= s.len(),
    ensures
        unescaped_from(a + s, a.len() + i) == unescaped_from(s, i),
    decreases s.len() - i,
{
    if i < s.len() {
        assert((a + s)[a.len() + i] == s[i]);
        if i + 1 < s.len() {
            assert((a + s)[a.len() + i + 1] == s[i + 1]);
            lemma_unescaped_behind(a, s, i + 2 - if i + 2 <= s.len() { 0int } else { 1int });
        }
        lemma_unescaped_behind(a, s, i + 1);
    }
}

/// Text before the first backslash is kept.
proof fn lemma_unescaped_unslashed(a: Seq<u8>, s: Seq<u8>, i: int)
    requires
        unslashed(a),
        0 <= i <= a.len(),
    ensures
        unescaped_from(a + s, i) == a.skip(i) + unescaped(s),
    decreases a.len() - i,
{
    if i < a.len() {
        assert((a + s)[i] == a[i]);
        lemma_unescaped_unslashed(a, s, i + 1);
        assert(seq![a[i]] + (a.skip(i + 1) + unescaped(s)) =~= a.skip(i) + unescaped(s));
    } else {
        lemma_unescaped_behind(a, s, 0);
        assert(a.skip(i) + unescaped(s) =~= unescaped(s));
    }
}

/// A backslash before punctuation goes, and the punctuation stays, a backslash too. A backslash
/// before anything else stays. What stands before the first backslash is left as it is, and what
/// follows is treated alike.
pub proof fn law_unescaped(a: Seq<u8>, c: u8, rest: Seq<u8>)
    requires
        unslashed(a),
    ensures
        unescaped(a) == a,
        unescaped(a.push(BACKSLASH)) == a.push(BACKSLASH),
        0x20 < c < 0x7f && !letter(c) && !numeral(c) ==> unescaped(
            a + seq![BACKSLASH, c] + rest,
        ) == a.push(c) + unescaped(rest),
        !(0x20 < c < 0x7f) || letter(c) || numeral(c) ==> unescaped(a + seq![BACKSLASH, c] + rest)
            == a.push(BACKSLASH) + unescaped(seq![c] + rest),
{
    law_classes(c);
    let none: Seq<u8> = seq![];
    let slash = seq![BACKSLASH];
    lemma_unescaped_unslashed(a, none, 0);
    assert(a + none =~= a);
    assert(a.skip(0) + unescaped(none) =~= a);
    lemma_unescaped_unslashed(a, slash, 0);
    assert(a + slash =~= a.push(BACKSLASH));
    assert(unescaped_from(slash, 1) =~= none);
    assert(unescaped(slash) =~= slash);
    assert(a.skip(0) + slash =~= a.push(BACKSLASH));
    let s = seq![BACKSLASH, c] + rest;
    lemma_unescaped_unslashed(a, s, 0);
    assert(a + seq![BACKSLASH, c] + rest =~= a + s);
    assert(s[0] == BACKSLASH && s[1] == c);
    lemma_unescaped_behind(seq![BACKSLASH, c], rest, 0);
    assert(s =~= slash + (seq![c] + rest));
    lemma_unescaped_behind(slash, seq![c] + rest, 0);
    assert(a.skip(0) + (seq![c] + unescaped(rest)) =~= a.push(c) + unescaped(rest));
    assert(a.skip(0) + (slash + unescaped(seq![c] + rest)) =~= a.push(BACKSLASH) + unescaped(
        seq![c] + rest,
    ));
}

} // verus!
