//! What a link reference definition defines.

use crate::ctype::{blanks, lemma_run_end_is};
use crate::labels::{clean_title_bytes, clean_url_bytes, normal_label};
use crate::laws::texts::law_trimmed;
use crate::laws::titles::{
    all_bare, law_bare_destination, law_label, law_no_other_title, law_title, opener, without,
};
use crate::laws::words::{
    all_white, blank, blanks_between, law_classes, white, APOSTROPHE, BACKSLASH, CLOSE_BRACKET,
    CLOSE_PAREN, COLON, LESS, LINE_FEED, OPEN_BRACKET, OPEN_PAREN, QUOTE,
};
use crate::references::{
    definition, definition_end, destination, label_end, past_gap, stripped, title_after,
    with_reference, Definition, ReferenceView,
};
use crate::scanners::title;
use crate::strings::trimmed;
use vstd::prelude::*;
use vstd::utf8::decode_utf8;

verus! {

/// Whether `t` can stand between the brackets of a label: some of it is no white space, it is not
/// too long, and it holds neither brackets nor backslashes.
pub open spec fn labels(t: Seq<u8>) -> bool {
    &&& 0 < t.len() <= 1000
    &&& !all_white(t)
    &&& forall|k: int| 0 <= k < t.len()
        ==> #[trigger] t[k] != OPEN_BRACKET && t[k] != CLOSE_BRACKET && t[k] != BACKSLASH
}

/// Whether `u` can be a destination as it is.
pub open spec fn points(u: Seq<u8>) -> bool {
    u.len() > 0 && all_bare(u) && u[0] != LESS
}

/// A label, a colon and a destination.
pub open spec fn pointer(label: Seq<u8>, gap: Seq<u8>, url: Seq<u8>) -> Seq<u8> {
    seq![OPEN_BRACKET] + label + seq![CLOSE_BRACKET, COLON] + gap + url
}

/// Whether `g` holds nothing but blanks and at most one line feed.
pub open spec fn gapped(g: Seq<u8>) -> bool {
    exists|a: int| 0 <= a <= g.len() && #[trigger] gapped_at(g, a)
}

/// Whether `g` is blanks up to `a`, and there ends, or has a line feed and blanks again.
pub open spec fn gapped_at(g: Seq<u8>, a: int) -> bool {
    &&& blanks_between(g, 0, a)
    &&& a == g.len() || g[a] == LINE_FEED && blanks_between(g, a + 1, g.len() as int)
}

/// A gap is passed up to what follows.
proof fn lemma_gap_passed(s: Seq<u8>, p: int, g: Seq<u8>)
    requires
        0 <= p,
        p + g.len() < s.len(),
        s.subrange(p, p + g.len()) == g,
        gapped(g),
        !white(s[p + g.len()]),
    ensures
        past_gap(s, p) == p + g.len(),
{
    let a = choose|a: int| 0 <= a <= g.len() && #[trigger] gapped_at(g, a);
    let t = s.subrange(p, p + g.len());
    let e = p + g.len();
    law_classes(s[e]);
    assert forall|k: int| p <= k < p + a implies blanks()(#[trigger] s[k]) by {
        assert(s[k] == t[k - p]);
        assert(blank(g[k - p]));
        law_classes(s[k]);
    }
    if a < g.len() {
        assert(s[p + a] == t[a]);
        law_classes(s[p + a]);
        lemma_run_end_is(s, p, p + a, blanks());
        assert forall|k: int| p + a + 1 <= k < e implies blanks()(#[trigger] s[k]) by {
            assert(s[k] == t[k - p]);
            assert(blank(g[k - p]));
            law_classes(s[k]);
        }
        lemma_run_end_is(s, p + a + 1, e, blanks());
    } else {
        lemma_run_end_is(s, p, e, blanks());
    }
}

/// A text that is not white space alone leaves something when it is trimmed.
proof fn lemma_trimmed_some(t: Seq<u8>)
    requires
        !all_white(t),
    ensures
        trimmed(t).len() > 0,
{
    let i = law_trimmed(t);
    if trimmed(t).len() == 0 {
        assert forall|k: int| 0 <= k < t.len() implies white(#[trigger] t[k]) by {
            if k < i {
                assert(t.take(i)[k] == t[k]);
            } else {
                assert(t.skip(i)[k - i] == t[k]);
            }
        }
    }
}

/// What is read up to the destination.
proof fn lemma_pointer_read(label: Seq<u8>, gap: Seq<u8>, url: Seq<u8>, rest: Seq<u8>)
    requires
        labels(label),
        gapped(gap),
        points(url),
        rest.len() > 0,
        white(rest[0]),
    ensures
        ({
            let s = pointer(label, gap, url) + rest;
            let u = label.len() as int + 3 + gap.len();
            let n = url.len() as int;
            &&& label_end(s) == Some(label.len() as int + 1)
            &&& s[label.len() as int + 2] == COLON
            &&& s.subrange(1, label.len() as int + 1) == label
            &&& past_gap(s, label.len() as int + 3) == u
            &&& destination(s.subrange(u, s.len() as int)) == Some((0int, n, n))
            &&& s.subrange(u, u + n) == url
            &&& s.subrange(u + n, s.len() as int) == rest
        }),
{
    let s = pointer(label, gap, url) + rest;
    let l = label.len() as int;
    let u = l + 3 + gap.len();
    let n = url.len() as int;
    let behind = seq![COLON] + gap + url + rest;
    assert(s =~= seq![OPEN_BRACKET] + label + seq![CLOSE_BRACKET] + behind);
    law_label(label, behind);
    assert(s.subrange(1, l + 1) =~= label);
    assert(s.subrange(l + 3, u) =~= gap);
    assert(s[u] == url[0]);
    lemma_gap_passed(s, l + 3, gap);
    let d = s.subrange(u, s.len() as int);
    assert(d =~= url + seq![rest[0]] + rest.skip(1));
    law_bare_destination(url, rest[0], rest.skip(1));
    assert(s.subrange(u, u + n) =~= url);
    assert(s.subrange(u + n, s.len() as int) =~= rest);
}

/// A title is read behind a gap, up to the line end.
proof fn lemma_title_read(
    s: Seq<u8>,
    p: int,
    between: Seq<u8>,
    t: Seq<u8>,
    close: u8,
    w: Seq<u8>,
    rest: Seq<u8>,
)
    requires
        0 <= p <= s.len(),
        s.skip(p) == between + (seq![opener(close)] + t + seq![close]) + w.push(LINE_FEED) + rest,
        gapped(between),
        between.len() > 0,
        close == QUOTE || close == APOSTROPHE || close == CLOSE_PAREN,
        without(t, close, opener(close)),
        blanks_between(w, 0, w.len() as int),
    ensures
        ({
            let quoted = seq![opener(close)] + t + seq![close];
            let q = p + between.len() + quoted.len();
            &&& title_after(s, p) == (quoted, q)
            &&& definition_end(s, p) == Some(q + w.len() + 1)
        }),
{
    let quoted = seq![opener(close)] + t + seq![close];
    let tail = s.skip(p);
    let b = between.len() as int;
    let n = quoted.len() as int;
    let q = p + b;
    assert(tail.len() == b + n + w.len() + 1 + rest.len());
    assert(tail[b] == opener(close));
    assert(s.subrange(p, q) =~= tail.take(b));
    assert(tail.take(b) =~= between);
    assert(s[q] == tail[b]);
    lemma_gap_passed(s, p, between);
    let behind = w.push(LINE_FEED) + rest;
    assert(s.subrange(q, s.len() as int) =~= tail.skip(b));
    assert(tail.skip(b) =~= quoted + behind);
    assert(quoted + behind =~= seq![opener(close)] + t + seq![close] + behind);
    law_title(t, close, behind);
    assert(s.subrange(q, q + n) =~= tail.subrange(b, b + n));
    assert(tail.subrange(b, b + n) =~= quoted);
    let e = q + n + w.len();
    assert forall|k: int| q + n <= k < e implies blanks()(#[trigger] s[k]) by {
        assert(s[k] == tail[k - p]);
        assert(tail[k - p] == w[k - q - n]);
        law_classes(s[k]);
    }
    assert(s[e] == tail[e - p]);
    law_classes(LINE_FEED);
    lemma_run_end_is(s, q + n, e, blanks());
}

/// A label in brackets, a colon, a destination, a title in quotes or parentheses, and nothing else
/// up to the end of the line define the label as a link with that destination and that title. The
/// parts may stand on lines of their own. What follows is left.
#[verifier::rlimit(60)]
#[verifier::spinoff_prover]
pub proof fn law_definition_with_title(
    label: Seq<u8>,
    gap: Seq<u8>,
    url: Seq<u8>,
    between: Seq<u8>,
    t: Seq<u8>,
    close: u8,
    w: Seq<u8>,
    rest: Seq<u8>,
)
    requires
        labels(label),
        gapped(gap),
        points(url),
        gapped(between),
        between.len() > 0,
        close == QUOTE || close == APOSTROPHE || close == CLOSE_PAREN,
        without(t, close, opener(close)),
        blanks_between(w, 0, w.len() as int),
    ensures
        ({
            let quoted = seq![opener(close)] + t + seq![close];
            let s = pointer(label, gap, url) + between + quoted + w;
            definition(s.push(LINE_FEED) + rest) == Some(
                Definition {
                    label: normal_label(trimmed(label)),
                    reference: ReferenceView {
                        url: decode_utf8(clean_url_bytes(url)),
                        title: decode_utf8(clean_title_bytes(quoted)),
                    },
                    end: s.len() as int + 1,
                },
            )
        }),
{
    let quoted = seq![opener(close)] + t + seq![close];
    let head = pointer(label, gap, url) + between + quoted + w;
    let s = head.push(LINE_FEED) + rest;
    let tail = between + quoted + w.push(LINE_FEED) + rest;
    assert(s =~= pointer(label, gap, url) + tail);
    let g = choose|a: int| 0 <= a <= between.len() && #[trigger] gapped_at(between, a);
    assert(tail[0] == between[0]);
    if g > 0 {
        assert(blank(between[0]));
    }
    lemma_pointer_read(label, gap, url, tail);
    lemma_trimmed_some(label);
    let p = pointer(label, gap, url).len() as int;
    assert(s.skip(p) =~= tail);
    lemma_title_read(s, p, between, t, close, w, rest);
}

/// Without a title the label is defined as a link without one, and the next line is left, if it is
/// no title.
#[verifier::rlimit(60)]
#[verifier::spinoff_prover]
pub proof fn law_definition(
    label: Seq<u8>,
    gap: Seq<u8>,
    url: Seq<u8>,
    w: Seq<u8>,
    rest: Seq<u8>,
)
    requires
        labels(label),
        gapped(gap),
        points(url),
        blanks_between(w, 0, w.len() as int),
        rest.len() > 0 ==> !blank(rest[0]) && rest[0] != QUOTE && rest[0] != APOSTROPHE && rest[0]
            != OPEN_PAREN,
    ensures
        ({
            let s = pointer(label, gap, url) + w;
            definition(s.push(LINE_FEED) + rest) == Some(
                Definition {
                    label: normal_label(trimmed(label)),
                    reference: ReferenceView {
                        url: decode_utf8(clean_url_bytes(url)),
                        title: decode_utf8(clean_title_bytes(seq![])),
                    },
                    end: s.len() as int + 1,
                },
            )
        }),
{
    let head = pointer(label, gap, url) + w;
    let s = head.push(LINE_FEED) + rest;
    let tail = w.push(LINE_FEED) + rest;
    assert(s =~= pointer(label, gap, url) + tail);
    assert(white(tail[0])) by {
        if w.len() > 0 {
            assert(blank(w[0]));
        }
    }
    lemma_pointer_read(label, gap, url, tail);
    lemma_trimmed_some(label);
    let p = pointer(label, gap, url).len() as int;
    let e = p + w.len();
    assert forall|k: int| p <= k < e implies blanks()(#[trigger] s[k]) by {
        assert(s[k] == w[k - p]);
        law_classes(s[k]);
    }
    assert(s[e] == LINE_FEED);
    law_classes(LINE_FEED);
    lemma_run_end_is(s, p, e, blanks());
    assert(s.subrange(e + 1, s.len() as int) =~= rest);
    if rest.len() > 0 {
        assert(s[e + 1] == rest[0]);
        law_classes(rest[0]);
    }
    lemma_run_end_is(s, e + 1, e + 1, blanks());
    assert(past_gap(s, p) == e + 1);
    law_no_other_title(rest);
    assert(title(rest) is None);
    assert(title_after(s, p) == (Seq::<u8>::empty(), p));
}

/// Anything but a title behind the destination on its line spoils the definition.
#[verifier::rlimit(60)]
#[verifier::spinoff_prover]
pub proof fn law_definition_spoiled(
    label: Seq<u8>,
    gap: Seq<u8>,
    url: Seq<u8>,
    w: Seq<u8>,
    rest: Seq<u8>,
)
    requires
        labels(label),
        gapped(gap),
        points(url),
        w.len() > 0 && blanks_between(w, 0, w.len() as int),
        rest.len() > 0 && !white(rest[0]) && rest[0] != QUOTE && rest[0] != APOSTROPHE
            && rest[0] != OPEN_PAREN,
    ensures
        definition(pointer(label, gap, url) + w + rest) is None,
{
    let s = pointer(label, gap, url) + w + rest;
    let tail = w + rest;
    assert(s =~= pointer(label, gap, url) + tail);
    assert(blank(w[0]));
    lemma_pointer_read(label, gap, url, tail);
    let p = pointer(label, gap, url).len() as int;
    let e = p + w.len();
    assert forall|k: int| p <= k < e implies blanks()(#[trigger] s[k]) by {
        assert(s[k] == w[k - p]);
        law_classes(s[k]);
    }
    assert(s[e] == rest[0]);
    law_classes(rest[0]);
    lemma_run_end_is(s, p, e, blanks());
    assert(past_gap(s, p) == e);
    assert(s.subrange(e, s.len() as int) =~= rest);
    law_no_other_title(rest);
    assert(title_after(s, p) == (Seq::<u8>::empty(), p));
}

/// What is read at `p`, where a title on the next line has something behind it.
proof fn lemma_title_left(
    s: Seq<u8>,
    p: int,
    w: Seq<u8>,
    t: Seq<u8>,
    close: u8,
    rest: Seq<u8>,
)
    requires
        0 <= p <= s.len(),
        s.skip(p) == w.push(LINE_FEED) + (seq![opener(close)] + t + seq![close]) + rest,
        blanks_between(w, 0, w.len() as int),
        close == QUOTE || close == APOSTROPHE || close == CLOSE_PAREN,
        without(t, close, opener(close)),
        rest.len() > 0 && !white(rest[0]),
    ensures
        definition_end(s, p) == Some(p + w.len() + 1),
{
    let quoted = seq![opener(close)] + t + seq![close];
    let tail = s.skip(p);
    let b = w.len() as int;
    let n = quoted.len() as int;
    let e = p + b;
    assert(tail.len() == b + 1 + n + rest.len());
    assert forall|k: int| p <= k < e implies blanks()(#[trigger] s[k]) by {
        assert(s[k] == tail[k - p]);
        assert(tail[k - p] == w[k - p]);
        law_classes(s[k]);
    }
    assert(s[e] == tail[b]);
    law_classes(LINE_FEED);
    lemma_run_end_is(s, p, e, blanks());
    assert(s[e + 1] == tail[b + 1]);
    law_classes(opener(close));
    lemma_run_end_is(s, e + 1, e + 1, blanks());
    assert(past_gap(s, p) == e + 1);
    assert(s.subrange(e + 1, s.len() as int) =~= tail.skip(b + 1));
    assert(tail.skip(b + 1) =~= seq![opener(close)] + t + seq![close] + rest);
    law_title(t, close, rest);
    assert(s[e + 1 + n] == tail[b + 1 + n]);
    assert(tail[b + 1 + n] == rest[0]);
    law_classes(rest[0]);
    lemma_run_end_is(s, e + 1 + n, e + 1 + n, blanks());
}

/// A title on the next line that something follows is no part of the definition, which ends with
/// the line of its destination.
#[verifier::rlimit(60)]
#[verifier::spinoff_prover]
pub proof fn law_definition_without_title_line(
    label: Seq<u8>,
    gap: Seq<u8>,
    url: Seq<u8>,
    w: Seq<u8>,
    t: Seq<u8>,
    close: u8,
    rest: Seq<u8>,
)
    requires
        labels(label),
        gapped(gap),
        points(url),
        blanks_between(w, 0, w.len() as int),
        close == QUOTE || close == APOSTROPHE || close == CLOSE_PAREN,
        without(t, close, opener(close)),
        rest.len() > 0 && !white(rest[0]),
    ensures
        ({
            let quoted = seq![opener(close)] + t + seq![close];
            let s = pointer(label, gap, url) + w;
            definition(s.push(LINE_FEED) + quoted + rest) matches Some(d) && d.end == s.len() + 1
        }),
{
    let quoted = seq![opener(close)] + t + seq![close];
    let s = (pointer(label, gap, url) + w).push(LINE_FEED) + quoted + rest;
    let tail = w.push(LINE_FEED) + quoted + rest;
    assert(s =~= pointer(label, gap, url) + tail);
    assert(white(tail[0])) by {
        if w.len() > 0 {
            assert(blank(w[0]));
        }
    }
    lemma_pointer_read(label, gap, url, tail);
    lemma_trimmed_some(label);
    let p = pointer(label, gap, url).len() as int;
    assert(s.skip(p) =~= tail);
    lemma_title_left(s, p, w, t, close, rest);
}

/// Without a colon right behind its label, nothing is defined, nor with an empty label.
pub proof fn law_no_definition(label: Seq<u8>, rest: Seq<u8>)
    requires
        forall|k: int|
            0 <= k < label.len()
                ==> #[trigger] label[k] != OPEN_BRACKET && label[k] != CLOSE_BRACKET && label[k]
                != BACKSLASH,
        rest.len() == 0 || rest[0] != COLON || all_white(label),
    ensures
        definition(seq![OPEN_BRACKET] + label + seq![CLOSE_BRACKET] + rest) is None,
{
    let s = seq![OPEN_BRACKET] + label + seq![CLOSE_BRACKET] + rest;
    law_label(label, rest);
    let l = label.len() as int;
    assert(s.subrange(1, l + 1) =~= label);
    if rest.len() > 0 {
        assert(s[l + 2] == rest[0]);
    }
    if all_white(label) {
        let none: Seq<u8> = seq![];
        assert(label + none + none =~= label);
        crate::laws::texts::law_trimmed_alone(label, none, none);
    }
}

/// Definitions at the start of a paragraph are taken off one after the other, and what follows
/// them is left. Where there are two of a label, the first one stands.
pub proof fn law_definitions_taken(
    content: Seq<u8>,
    m: Map<Seq<char>, ReferenceView>,
    label: Seq<char>,
)
    ensures
        definition(content) is None ==> stripped(content, m) == (content, m),
        definition(content) matches Some(d) ==> 0 < d.end <= content.len() ==> {
            let rest = content.skip(d.end);
            let more = if d.label.len() == 0 || m.dom().contains(d.label) {
                m
            } else {
                m.insert(d.label, d.reference)
            };
            stripped(content, m) == stripped(rest, more)
        },
        m.dom().contains(label) ==> stripped(content, m).1.dom().contains(label) && stripped(
            content,
            m,
        ).1[label] == m[label],
    decreases content.len(),
{
    match definition(content) {
        Some(d) => {
            if 0 < d.end <= content.len() {
                assert(content.skip(d.end) =~= content.subrange(d.end, content.len() as int));
                law_definitions_taken(
                    content.subrange(d.end, content.len() as int),
                    with_reference(m, d.label, d.reference),
                    label,
                );
            }
        },
        None => {},
    }
}

} // verus!
