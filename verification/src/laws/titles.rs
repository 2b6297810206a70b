//! What the parts of a link reference definition are.

use crate::ctype::{blanks, lemma_run_end_is};
use crate::laws::words::{
    blank, blanks_between, law_classes, letter, line_end, numeral, APOSTROPHE, BACKSLASH,
    CLOSE_BRACKET, CLOSE_PAREN, GREATER, LESS, LINE_FEED, OPEN_BRACKET, OPEN_PAREN, QUOTE, RETURN,
};
use crate::references::{
    angle_end, bare_end, definition_end, destination, label_close, label_end, past_gap,
    past_line_end, title_after,
};
use crate::scanners::{title, title_end};
use vstd::prelude::*;

verus! {

/// Whether `t` holds none of the bytes `a` and `b`, no backslash and no NUL.
pub open spec fn without(t: Seq<u8>, a: u8, b: u8) -> bool {
    forall|k: int|
        0 <= k < t.len() ==> #[trigger] t[k] != a && t[k] != b && t[k] != BACKSLASH && t[k] != 0
}

/// ASCII punctuation.
pub open spec fn mark(c: u8) -> bool {
    0x20 < c < 0x7f && !letter(c) && !numeral(c)
}

/// What opens a title that `close` closes.
pub open spec fn opener(close: u8) -> u8 {
    if close == CLOSE_PAREN {
        OPEN_PAREN
    } else {
        close
    }
}

/// Bytes that neither end nor escape anything are passed.
proof fn lemma_title_passed(s: Seq<u8>, i: int, j: int, close: u8)
    requires
        0 <= i <= j <= s.len(),
        without(s.subrange(i, j), close, opener(close)),
    ensures
        title_end(s, i, close) == title_end(s, j, close),
    decreases j - i,
{
    if i < j {
        let t = s.subrange(i, j);
        assert(s[i] == t[0]);
        let u = s.subrange(i + 1, j);
        assert forall|k: int| 0 <= k < u.len() implies #[trigger] u[k] != close && u[k] != opener(
            close,
        ) && u[k] != BACKSLASH && u[k] != 0 by {
            assert(u[k] == t[k + 1]);
        }
        lemma_title_passed(s, i + 1, j, close);
    }
}

/// What stands between two quotes of a kind, or between parentheses, is a title as a whole, if
/// neither the closing one nor a backslash nor a NUL is in it, nor an opening parenthesis between
/// parentheses. The other kinds of quotes may be in it.
pub proof fn law_title(t: Seq<u8>, close: u8, rest: Seq<u8>)
    requires
        close == QUOTE || close == APOSTROPHE || close == CLOSE_PAREN,
        without(t, close, opener(close)),
    ensures
        title(seq![opener(close)] + t + seq![close] + rest) == Some(t.len() as int + 2),
{
    let s = seq![opener(close)] + t + seq![close] + rest;
    let n = t.len() as int;
    assert(s.subrange(1, n + 1) =~= t);
    assert(s[n + 1] == close);
    law_classes(close);
    lemma_title_passed(s, 1, n + 1, close);
}

/// A backslash before punctuation takes its meaning from it: a title goes on behind an escaped
/// quote, parenthesis or backslash.
pub proof fn law_title_escaped(a: Seq<u8>, c: u8, b: Seq<u8>, close: u8, rest: Seq<u8>)
    requires
        close == QUOTE || close == APOSTROPHE || close == CLOSE_PAREN,
        without(a, close, opener(close)),
        without(b, close, opener(close)),
        mark(c),
    ensures
        title(seq![opener(close)] + a + seq![BACKSLASH, c] + b + seq![close] + rest) == Some(
            a.len() as int + b.len() + 4,
        ),
{
    let s = seq![opener(close)] + a + seq![BACKSLASH, c] + b + seq![close] + rest;
    let n = a.len() as int;
    let m = b.len() as int;
    assert(s.subrange(1, n + 1) =~= a);
    assert(s[n + 1] == BACKSLASH && s[n + 2] == c);
    assert(s.subrange(n + 3, n + 3 + m) =~= b);
    assert(s[n + 3 + m] == close);
    law_classes(c);
    law_classes(close);
    lemma_title_passed(s, 1, n + 1, close);
    lemma_title_passed(s, n + 3, n + 3 + m, close);
}

/// What ends a title.
proof fn lemma_title_end(s: Seq<u8>, i: int, close: u8)
    requires
        0 <= i,
        close == QUOTE || close == APOSTROPHE || close == CLOSE_PAREN,
    ensures
        title_end(s, i, close) matches Some(n) ==> {
            &&& i < n <= s.len()
            &&& s[n - 1] == close
            &&& forall|k: int| i <= k < n - 1 ==> #[trigger] s[k] != 0 && (s[k] == close || s[k]
                == opener(close) ==> k > i && s[k - 1] == BACKSLASH)
        },
    decreases s.len() - i,
{
    if i < s.len() {
        lemma_title_end(s, i + 1, close);
        if i + 1 < s.len() {
            lemma_title_end(s, i + 2, close);
            law_classes(s[i + 1]);
        }
    }
}

/// Nothing else is a title: one starts with a quote or a parenthesis, and ends with the first
/// other one of its kind that no backslash stands before. No NUL is in it.
pub proof fn law_no_other_title(s: Seq<u8>)
    ensures
        title(s) matches Some(n) ==> {
            &&& 2 <= n <= s.len()
            &&& s[0] == QUOTE && s[n - 1] == QUOTE
                || s[0] == APOSTROPHE && s[n - 1] == APOSTROPHE || s[0]
                == OPEN_PAREN && s[n - 1] == CLOSE_PAREN
            &&& forall|k: int| 1 <= k < n - 1 ==> #[trigger] s[k] != 0 && (s[k] == s[n - 1] ==> s[k
                - 1] == BACKSLASH)
        },
{
    if s.len() > 0 && (s[0] == QUOTE || s[0] == APOSTROPHE) {
        lemma_title_end(s, 1, s[0]);
    }
    lemma_title_end(s, 1, CLOSE_PAREN);
}

/// Bytes that neither end nor escape anything are passed.
proof fn lemma_label_passed(s: Seq<u8>, i: int, j: int)
    requires
        0 <= i <= j <= s.len(),
        forall|k: int| i <= k < j
            ==> #[trigger] s[k] != OPEN_BRACKET && s[k] != CLOSE_BRACKET && s[k] != BACKSLASH,
    ensures
        label_close(s, i) == label_close(s, j),
    decreases j - i,
{
    if i < j {
        lemma_label_passed(s, i + 1, j);
    }
}

/// A label is what stands between two brackets: up to a thousand bytes, and no bracket among
/// them that is not escaped.
pub proof fn law_label(t: Seq<u8>, rest: Seq<u8>)
    requires
        forall|k: int| 0 <= k < t.len()
            ==> #[trigger] t[k] != OPEN_BRACKET && t[k] != CLOSE_BRACKET && t[k] != BACKSLASH,
    ensures
        t.len() <= 1000 ==> label_end(seq![OPEN_BRACKET] + t + seq![CLOSE_BRACKET] + rest) == Some(
            t.len() as int + 1,
        ),
        t.len() > 1000 ==> label_end(seq![OPEN_BRACKET] + t + seq![CLOSE_BRACKET] + rest) is None,
        label_end(seq![OPEN_BRACKET] + t + seq![OPEN_BRACKET] + rest) is None,
        label_end(t + rest) is Some ==> t.len() == 0,
{
    let n = t.len() as int;
    let s = seq![OPEN_BRACKET] + t + seq![CLOSE_BRACKET] + rest;
    assert forall|k: int| 1 <= k < n + 1 implies #[trigger] s[k] != OPEN_BRACKET
        && s[k] != CLOSE_BRACKET && s[k]
        != BACKSLASH by {
        assert(s[k] == t[k - 1]);
    }
    assert(s[n + 1] == CLOSE_BRACKET);
    lemma_label_passed(s, 1, n + 1);
    let u = seq![OPEN_BRACKET] + t + seq![OPEN_BRACKET] + rest;
    assert forall|k: int| 1 <= k < n + 1 implies #[trigger] u[k] != OPEN_BRACKET
        && u[k] != CLOSE_BRACKET && u[k]
        != BACKSLASH by {
        assert(u[k] == t[k - 1]);
    }
    assert(u[n + 1] == OPEN_BRACKET);
    lemma_label_passed(u, 1, n + 1);
    if n > 0 {
        assert((t + rest)[0] == t[0]);
    }
}

/// Punctuation behind a backslash does not end a label, a bracket among it.
pub proof fn law_label_escaped(a: Seq<u8>, c: u8, b: Seq<u8>, rest: Seq<u8>)
    requires
        forall|k: int| 0 <= k < a.len()
            ==> #[trigger] a[k] != OPEN_BRACKET && a[k] != CLOSE_BRACKET && a[k] != BACKSLASH,
        forall|k: int| 0 <= k < b.len()
            ==> #[trigger] b[k] != OPEN_BRACKET && b[k] != CLOSE_BRACKET && b[k] != BACKSLASH,
        mark(c),
        a.len() + b.len() + 2 <= 1000,
    ensures
        label_end(seq![OPEN_BRACKET] + a + seq![BACKSLASH, c] + b + seq![CLOSE_BRACKET]
            + rest) == Some(
            a.len() as int + b.len() + 3,
        ),
{
    let n = a.len() as int;
    let m = b.len() as int;
    let s = seq![OPEN_BRACKET] + a + seq![BACKSLASH, c] + b + seq![CLOSE_BRACKET] + rest;
    assert forall|k: int| 1 <= k < n + 1 implies #[trigger] s[k] != OPEN_BRACKET
        && s[k] != CLOSE_BRACKET && s[k]
        != BACKSLASH by {
        assert(s[k] == a[k - 1]);
    }
    assert forall|k: int| n + 3 <= k < n + 3 + m implies #[trigger] s[k] != OPEN_BRACKET
        && s[k] != CLOSE_BRACKET
        && s[k] != BACKSLASH by {
        assert(s[k] == b[k - n - 3]);
    }
    assert(s[n + 1] == BACKSLASH && s[n + 2] == c && s[n + 3 + m] == CLOSE_BRACKET);
    law_classes(c);
    lemma_label_passed(s, 1, n + 1);
    lemma_label_passed(s, n + 3, n + 3 + m);
}

/// Bytes that neither end nor escape anything are passed.
proof fn lemma_angle_passed(s: Seq<u8>, i: int, j: int)
    requires
        0 <= i <= j <= s.len(),
        forall|k: int|
            i <= k < j ==> #[trigger] s[k] != LESS && s[k] != GREATER && s[k] != BACKSLASH && s[k]
                != LINE_FEED,
    ensures
        angle_end(s, i) == angle_end(s, j),
    decreases j - i,
{
    if i < j {
        lemma_angle_passed(s, i + 1, j);
    }
}

/// What stands between angle brackets on one line is a destination, spaces in it too. Another
/// opening one or a line feed in it makes it none.
pub proof fn law_destination_in_brackets(u: Seq<u8>, rest: Seq<u8>)
    requires
        forall|k: int|
            0 <= k < u.len() ==> #[trigger] u[k] != LESS && u[k] != GREATER
                && u[k] != BACKSLASH && u[k]
                != LINE_FEED,
    ensures
        rest.len() > 0 ==> destination(seq![LESS] + u + seq![GREATER] + rest) == Some(
            (1int, u.len() as int + 1, u.len() as int + 2),
        ),
        rest.len() == 0 ==> destination(seq![LESS] + u + seq![GREATER] + rest) is None,
        destination(seq![LESS] + u + seq![LESS] + rest) is None,
        destination(seq![LESS] + u + seq![LINE_FEED] + rest) is None,
        destination(seq![LESS] + u) is None,
{
    let n = u.len() as int;
    let s = seq![LESS] + u + seq![GREATER] + rest;
    assert(forall|k: int| 1 <= k < n + 1 ==> #[trigger] s[k] == u[k - 1]);
    lemma_angle_passed(s, 1, n + 1);
    let t = seq![LESS] + u + seq![LESS] + rest;
    assert(forall|k: int| 1 <= k < n + 1 ==> #[trigger] t[k] == u[k - 1]);
    lemma_angle_passed(t, 1, n + 1);
    let v = seq![LESS] + u + seq![LINE_FEED] + rest;
    assert(forall|k: int| 1 <= k < n + 1 ==> #[trigger] v[k] == u[k - 1]);
    lemma_angle_passed(v, 1, n + 1);
    let w = seq![LESS] + u;
    assert(forall|k: int| 1 <= k < n + 1 ==> #[trigger] w[k] == u[k - 1]);
    lemma_angle_passed(w, 1, n + 1);
}

/// Whether `b` can stand in a bare destination as it is: no white space, no control character, no
/// parenthesis and no backslash.
pub open spec fn bare(b: u8) -> bool {
    b > 0x20 && b != 0x7f && b != OPEN_PAREN && b != CLOSE_PAREN && b != BACKSLASH
}

/// Whether all of `u` can.
pub open spec fn all_bare(u: Seq<u8>) -> bool {
    forall|k: int| 0 <= k < u.len() ==> bare(#[trigger] u[k])
}

/// Bytes that end nothing are passed.
proof fn lemma_bare_passed(s: Seq<u8>, i: int, j: int, depth: int)
    requires
        0 <= i <= j <= s.len(),
        forall|k: int| i <= k < j ==> bare(#[trigger] s[k]),
    ensures
        bare_end(s, i, depth) == bare_end(s, j, depth),
    decreases j - i,
{
    if i < j {
        law_classes(s[i]);
        lemma_bare_passed(s, i + 1, j, depth);
    }
}

/// A bare destination goes up to white space or a control character, or to a parenthesis that
/// none in it opens. Something must be in it, or a parenthesis follow.
pub proof fn law_bare_destination(u: Seq<u8>, end: u8, rest: Seq<u8>)
    requires
        all_bare(u),
        u.len() > 0 ==> u[0] != LESS,
        end <= 0x20 || end == 0x7f || end == CLOSE_PAREN,
    ensures
        u.len() > 0 || end == CLOSE_PAREN ==> destination(u + seq![end] + rest) == Some(
            (0int, u.len() as int, u.len() as int),
        ),
        u.len() == 0 && end != CLOSE_PAREN ==> destination(u + seq![end] + rest) is None,
        destination(u) is None,
{
    let n = u.len() as int;
    let s = u + seq![end] + rest;
    assert(forall|k: int| 0 <= k < n ==> #[trigger] s[k] == u[k]);
    assert(s[n] == end);
    law_classes(end);
    lemma_bare_passed(s, 0, n, 0);
    lemma_bare_passed(u, 0, n, 0);
}

/// Parentheses in a bare destination belong to it in pairs, and escaped ones always.
pub proof fn law_parentheses_in_destination(
    a: Seq<u8>,
    b: Seq<u8>,
    c: u8,
    d: Seq<u8>,
    end: u8,
    rest: Seq<u8>,
)
    requires
        all_bare(a) && all_bare(b) && all_bare(d),
        a.len() > 0 && a[0] != LESS,
        mark(c),
        end <= 0x20 || end == 0x7f || end == CLOSE_PAREN,
    ensures
        ({
            let n = a.len() + b.len() + d.len() + 2;
            &&& destination(a + seq![OPEN_PAREN] + b + seq![CLOSE_PAREN] + d + seq![end]
                + rest) == Some(
                (0int, n as int, n as int),
            )
            &&& destination(a + seq![BACKSLASH, c] + d + seq![end] + rest) == Some(
                (0int, n - b.len(), n - b.len()),
            )
            &&& end != CLOSE_PAREN
                ==> destination(a + seq![OPEN_PAREN] + b + seq![end] + rest) is None
        }),
{
    let x = a.len() as int;
    let y = x + 1 + b.len();
    let z = y + 1 + d.len();
    law_classes(c);
    law_classes(end);
    let s = a + seq![OPEN_PAREN] + b + seq![CLOSE_PAREN] + d + seq![end] + rest;
    assert(forall|k: int| 0 <= k < x ==> #[trigger] s[k] == a[k]);
    assert(forall|k: int| x + 1 <= k < y ==> #[trigger] s[k] == b[k - x - 1]);
    assert(forall|k: int| y + 1 <= k < z ==> #[trigger] s[k] == d[k - y - 1]);
    assert(s[x] == OPEN_PAREN && s[y] == CLOSE_PAREN && s[z] == end);
    law_classes(s[x]);
    lemma_bare_passed(s, 0, x, 0);
    lemma_bare_passed(s, x + 1, y, 1);
    lemma_bare_passed(s, y + 1, z, 0);
    let t = a + seq![BACKSLASH, c] + d + seq![end] + rest;
    assert(forall|k: int| 0 <= k < x ==> #[trigger] t[k] == a[k]);
    assert(forall|k: int| x + 2 <= k < x + 2 + d.len() ==> #[trigger] t[k] == d[k - x - 2]);
    assert(t[x] == BACKSLASH && t[x + 1] == c && t[x + 2 + d.len()] == end);
    lemma_bare_passed(t, 0, x, 0);
    lemma_bare_passed(t, x + 2, x + 2 + d.len(), 0);
    let v = a + seq![OPEN_PAREN] + b + seq![end] + rest;
    assert(forall|k: int| 0 <= k < x ==> #[trigger] v[k] == a[k]);
    assert(forall|k: int| x + 1 <= k < y ==> #[trigger] v[k] == b[k - x - 1]);
    assert(v[x] == OPEN_PAREN && v[y] == end);
    lemma_bare_passed(v, 0, x, 0);
    lemma_bare_passed(v, x + 1, y, 1);
}

/// No more than 32 parentheses may be open at once.
pub proof fn law_depth_of_parentheses(s: Seq<u8>, i: int, depth: int)
    requires
        0 <= i < s.len(),
        s[i] == OPEN_PAREN,
    ensures
        depth >= 32 ==> bare_end(s, i, depth) is None,
        depth < 32 ==> bare_end(s, i, depth) == bare_end(s, i + 1, depth + 1),
{
}

/// A line ends with a line feed, a carriage return or both, or where the text ends.
pub proof fn law_line_end(s: Seq<u8>, p: int)
    requires
        0 <= p <= s.len(),
    ensures
        p == s.len() ==> past_line_end(s, p) == Some(p),
        p < s.len() && s[p] == LINE_FEED ==> past_line_end(s, p) == Some(p + 1),
        p + 1 < s.len() && s[p] == RETURN && s[p + 1] == LINE_FEED ==> past_line_end(s, p) == Some(
            p + 2,
        ),
        p < s.len() && s[p] == RETURN && !(p + 1 < s.len() && s[p + 1] == LINE_FEED)
            ==> past_line_end(
            s,
            p,
        ) == Some(p + 1),
        p < s.len() && !line_end(s[p]) ==> past_line_end(s, p) is None,
{
}

/// A title must be set off from the destination before it: without a gap there is no title, and
/// no definition.
pub proof fn law_title_apart(s: Seq<u8>, p: int)
    requires
        0 <= p < s.len(),
        !blank(s[p]) && !line_end(s[p]),
    ensures
        title_after(s, p).1 == p,
        title_after(s, p).0.len() == 0,
        definition_end(s, p) is None,
{
    law_classes(s[p]);
    lemma_run_end_is(s, p, p, blanks());
}

/// Behind a colon or a destination, blanks and at most one line end may come before what follows.
/// `a` is the first byte that is no blank, and where that ends a line, `b` the first one that is
/// no blank behind it.
pub proof fn law_gap(s: Seq<u8>, p: int, a: int, b: int)
    requires
        0 <= p <= a < b <= s.len(),
        blanks_between(s, p, a),
        s[a] == LINE_FEED,
        blanks_between(s, a + 1, b),
        b < s.len() ==> !blank(s[b]),
    ensures
        past_gap(s, p) == b,
        b < s.len() && s[b] != LINE_FEED && s[b] != RETURN ==> past_gap(s, a + 1) == b,
{
    assert forall|k: int| p <= k < a implies blanks()(#[trigger] s[k]) by {
        law_classes(s[k]);
    }
    assert forall|k: int| a + 1 <= k < b implies blanks()(#[trigger] s[k]) by {
        law_classes(s[k]);
    }
    law_classes(s[a]);
    lemma_run_end_is(s, p, a, blanks());
    if b < s.len() {
        law_classes(s[b]);
    }
    lemma_run_end_is(s, a + 1, b, blanks());
}

} // verus!
