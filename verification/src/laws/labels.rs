//! What labels, destinations and titles come to.

use crate::entity::reference;
use crate::inlines::resolved;
use crate::labels::{
    clean_title_bytes, clean_url_bytes, collapsed, lower_case, lowered, normal_label, white_space,
};
use crate::laws::entities::law_html_unescaped;
use crate::laws::texts::{law_trimmed_alone, law_unescaped, unslashed};
use crate::laws::words::{
    all_white, white, AMPERSAND, APOSTROPHE, BACKSLASH, CLOSE_PAREN, OPEN_PAREN, QUOTE, SEMICOLON,
};
use crate::references::ReferenceView;
use crate::strings::unescaped;
use vstd::prelude::*;
use vstd::utf8::decode_utf8;

verus! {

/// Whether all characters of `s` are white space.
pub open spec fn all_space(s: Seq<char>) -> bool {
    forall|k: int| 0 <= k < s.len() ==> white_space(#[trigger] s[k])
}

/// Whether no character of `s` is white space.
pub open spec fn no_space(s: Seq<char>) -> bool {
    forall|k: int| 0 <= k < s.len() ==> !white_space(#[trigger] s[k])
}

/// White space at the end of a text that already ends with some is dropped.
proof fn lemma_collapsed_space(a: Seq<char>, w: Seq<char>)
    requires
        all_space(w),
        w.len() > 0,
        a.len() > 0 ==> !white_space(a.last()),
    ensures
        collapsed(a + w) == collapsed(a).push(' '),
    decreases w.len(),
{
    let s = a + w;
    assert(s.last() == w.last());
    assert(white_space(w[w.len() - 1]));
    let v = w.drop_last();
    assert(s.drop_last() =~= a + v);
    if v.len() > 0 {
        assert forall|k: int| 0 <= k < v.len() implies white_space(#[trigger] v[k]) by {
            assert(white_space(w[k]));
        }
        lemma_collapsed_space(a, v);
        assert(s[s.len() - 2] == w[w.len() - 2]);
        assert(white_space(w[w.len() - 2]));
    } else {
        assert(a + v =~= a);
        if s.len() > 1 {
            assert(s[s.len() - 2] == a.last());
        }
    }
}

/// What follows a text is collapsed as it is alone, where no white space is on both sides.
proof fn lemma_collapsed_concat(a: Seq<char>, b: Seq<char>)
    requires
        b.len() > 0 ==> !white_space(b[0]),
    ensures
        collapsed(a + b) == collapsed(a) + collapsed(b),
    decreases b.len(),
{
    if b.len() == 0 {
        assert(a + b =~= a);
        assert(collapsed(a) + collapsed(b) =~= collapsed(a));
    } else {
        let s = a + b;
        assert(s.drop_last() =~= a + b.drop_last());
        assert(s.last() == b.last());
        if b.len() > 1 {
            assert(b.drop_last()[0] == b[0]);
            assert(s[s.len() - 2] == b[b.len() - 2]);
        }
        lemma_collapsed_concat(a, b.drop_last());
        if !white_space(b.last()) {
            assert((collapsed(a) + collapsed(b.drop_last())).push(b.last()) =~= collapsed(a)
                + collapsed(b.drop_last()).push(b.last()));
        } else {
            assert((collapsed(a) + collapsed(b.drop_last())).push(' ') =~= collapsed(a) + collapsed(
                b.drop_last(),
            ).push(' '));
        }
    }
}

/// Each run of white space comes to one space, and everything else stays as it is.
pub proof fn law_collapsed(a: Seq<char>, w: Seq<char>, b: Seq<char>)
    requires
        a.len() > 0 ==> !white_space(a.last()),
        all_space(w),
        w.len() > 0,
        b.len() > 0 ==> !white_space(b[0]),
    ensures
        no_space(a) ==> collapsed(a) == a,
        collapsed(a + w + b) == collapsed(a) + seq![' '] + collapsed(b),
{
    if no_space(a) {
        lemma_collapsed_same(a);
    }
    lemma_collapsed_concat(a + w, b);
    lemma_collapsed_space(a, w);
    assert(collapsed(a).push(' ') =~= collapsed(a) + seq![' ']);
}

/// A text without white space stays as it is.
proof fn lemma_collapsed_same(a: Seq<char>)
    requires
        no_space(a),
    ensures
        collapsed(a) == a,
    decreases a.len(),
{
    if a.len() > 0 {
        let b = a.drop_last();
        assert forall|k: int| 0 <= k < b.len() implies !white_space(#[trigger] b[k]) by {
            assert(!white_space(a[k]));
        }
        lemma_collapsed_same(b);
        assert(!white_space(a[a.len() - 1]));
        assert(b.push(a.last()) =~= a);
    } else {
        assert(collapsed(a) =~= a);
    }
}

/// Lower case goes character by character.
pub proof fn law_lowered(a: Seq<char>, b: Seq<char>, c: char)
    ensures
        lowered(a + b) == lowered(a) + lowered(b),
        lowered(seq![c]) == lower_case(c),
    decreases b.len(),
{
    assert(seq![c].drop_last() =~= seq![]);
    assert(lowered(seq![c].drop_last()) =~= seq![]);
    assert(lowered(seq![c]) =~= lower_case(c));
    if b.len() > 0 {
        law_lowered(a, b.drop_last(), c);
        assert((a + b).drop_last() =~= a + b.drop_last());
        assert(lowered(a) + lowered(b.drop_last()) + lower_case(b.last()) =~= lowered(a) + (lowered(
            b.drop_last(),
        ) + lower_case(b.last())));
    } else {
        assert(a + b =~= a);
        assert(lowered(a) + lowered(b) =~= lowered(a));
    }
}

/// Labels that differ only in the white space around them, in the case of their letters or in how
/// much white space is between their words are the same.
pub proof fn law_labels_alike(a: Seq<u8>, x: Seq<u8>, b: Seq<u8>, c: Seq<u8>, y: Seq<u8>, d: Seq<u8>)
    requires
        all_white(a) && all_white(b) && all_white(c) && all_white(d),
        x.len() > 0 ==> !white(x[0]) && !white(x.last()),
        y.len() > 0 ==> !white(y[0]) && !white(y.last()),
        collapsed(lowered(decode_utf8(x))) == collapsed(lowered(decode_utf8(y))),
    ensures
        normal_label(a + x + b) == normal_label(c + y + d),
        normal_label(x) == collapsed(lowered(decode_utf8(x))),
{
    law_trimmed_alone(a, x, b);
    law_trimmed_alone(c, y, d);
    let none: Seq<u8> = seq![];
    assert(none + x + none =~= x);
    law_trimmed_alone(none, x, none);
}

/// White space of a label: what ASCII has of it, and what Unicode has beyond.
pub proof fn law_white_space(c: char)
    ensures
        (c as int) < 128 ==> (white_space(c) <==> c == ' ' || '\u{9}' <= c <= '\u{d}'),
        (c as int) >= 128 ==> (white_space(c) <==> c == '\u{85}' || c == '\u{a0}' || c
            == '\u{1680}' || '\u{2000}' <= c <= '\u{200a}' || c == '\u{2028}' || c == '\u{2029}'
            || c == '\u{202f}' || c == '\u{205f}' || c == '\u{3000}'),
{
}

/// A destination without references and escapes is kept, but for white space around it.
pub proof fn law_clean_url(a: Seq<u8>, u: Seq<u8>, b: Seq<u8>)
    requires
        all_white(a) && all_white(b),
        u.len() > 0 ==> !white(u[0]) && !white(u.last()),
        unslashed(u),
        forall|k: int| 0 <= k < u.len() ==> #[trigger] u[k] != AMPERSAND,
    ensures
        clean_url_bytes(a + u + b) == u,
{
    law_trimmed_alone(a, u, b);
    law_html_unescaped(u, seq![]);
    law_unescaped(u, 0, seq![]);
}

/// A title without references and escapes is kept without the quotes or parentheses around it.
pub proof fn law_clean_title(t: Seq<u8>, open: u8, close: u8)
    requires
        unslashed(t),
        forall|k: int| 0 <= k < t.len() ==> #[trigger] t[k] != AMPERSAND,
        open == QUOTE && close == QUOTE || open == APOSTROPHE && close == APOSTROPHE
            || open == OPEN_PAREN && close
            == CLOSE_PAREN,
    ensures
        clean_title_bytes(seq![open] + t + seq![close]) == t,
        clean_title_bytes(seq![]).len() == 0,
{
    let s = seq![open] + t + seq![close];
    assert(s.subrange(1, s.len() - 1) =~= t);
    law_html_unescaped(t, seq![]);
    law_unescaped(t, 0, seq![]);
    let none: Seq<u8> = seq![];
    law_html_unescaped(none, none);
    law_unescaped(none, 0, none);
}

/// References are resolved before escapes are: of a backslash before a reference, what the
/// reference stands for is escaped.
pub proof fn law_references_first(t: Seq<u8>)
    requires
        t.len() > 0 && t.last() == SEMICOLON,
        reference(t) matches Some((_, n)) && n == t.len(),
    ensures
        reference(t) matches Some((text, _)) && {
            let escaped = unescaped(seq![BACKSLASH] + text);
            &&& clean_url_bytes(seq![BACKSLASH, AMPERSAND] + t) == escaped
            &&& clean_title_bytes(seq![BACKSLASH, AMPERSAND] + t) == escaped
            &&& clean_title_bytes(seq![QUOTE, BACKSLASH, AMPERSAND] + t + seq![QUOTE]) == escaped
        },
{
    let none: Seq<u8> = seq![];
    let s = seq![BACKSLASH, AMPERSAND] + t;
    let slash = seq![BACKSLASH];
    let (text, _) = reference(t).unwrap();
    assert(s =~= slash + seq![AMPERSAND] + t);
    law_html_unescaped(slash, t);
    assert(t.skip(t.len() as int) =~= none);
    law_html_unescaped(none, none);
    assert(slash + text + none =~= slash + text);
    law_trimmed_alone(none, s, none);
    assert(none + s + none =~= s);
    let q = seq![QUOTE, BACKSLASH, AMPERSAND] + t + seq![QUOTE];
    assert(q.subrange(1, q.len() - 1) =~= s);
}

/// Quotes around a title make no difference to it, if it has none itself.
pub proof fn law_title_quotes(t: Seq<u8>, open: u8, close: u8)
    requires
        open == QUOTE && close == QUOTE || open == APOSTROPHE && close == APOSTROPHE
            || open == OPEN_PAREN && close
            == CLOSE_PAREN,
        t.len() > 0 ==> t[0] != QUOTE && t[0] != APOSTROPHE && t[0] != OPEN_PAREN,
    ensures
        clean_title_bytes(seq![open] + t + seq![close]) == clean_title_bytes(t),
{
    let s = seq![open] + t + seq![close];
    assert(s.subrange(1, s.len() - 1) =~= t);
}

/// A label that is defined is resolved by its definition, whatever a callback would say. One that
/// is not is resolved as the callback says, and not at all where it says nothing.
pub proof fn law_resolved(
    refs: Map<Seq<char>, ReferenceView>,
    label: Seq<char>,
    url: Seq<char>,
    title: Seq<char>,
    reply: Option<(Seq<char>, Seq<char>)>,
)
    ensures
        refs.dom().contains(label) ==> resolved(refs, label, reply) == Some(refs[label]),
        !refs.dom().contains(label) ==> resolved(refs, label, Some((url, title))) == Some(
            ReferenceView { url, title },
        ),
        !refs.dom().contains(label) ==> resolved(refs, label, None) is None,
{
}

} // verus!
