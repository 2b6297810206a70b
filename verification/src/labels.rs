//! Labels, and texts cleaned for use in links.

use crate::entity::{html_unescaped, unescape_html};
use crate::strings::{lemma_trimmed_valid, trim_slice, trimmed, unescape, unescaped};
use crate::text::{lemma_boundary_at_ascii, lemma_valid_between, string_from_utf8};
use vstd::prelude::*;
use vstd::slice::slice_subrange;
use vstd::utf8::{decode_utf8, valid_utf8};

verus! {

/// The lower case of a character, as Unicode has it.
pub uninterp spec fn lower_case(c: char) -> Seq<char>;

/// The lower case of `c`.
///
/// Calls `char::to_lowercase`, which gives the characters of the lower case mapping of `c`;
/// they are given the name [`lower_case`].
#[verifier::external_body]
fn to_lower_case(c: char) -> (r: Vec<char>)
    ensures
        r@ == lower_case(c),
{
    c.to_lowercase().collect()
}

/// White space, as Unicode has it.
pub open spec fn white_space(c: char) -> bool {
    ||| '\u{9}' <= c <= '\u{D}'
    ||| c == '\u{20}'
    ||| c == '\u{85}'
    ||| c == '\u{A0}'
    ||| c == '\u{1680}'
    ||| '\u{2000}' <= c <= '\u{200A}'
    ||| c == '\u{2028}'
    ||| c == '\u{2029}'
    ||| c == '\u{202F}'
    ||| c == '\u{205F}'
    ||| c == '\u{3000}'
}

/// Whether `c` is white space.
fn is_white_space(c: char) -> (r: bool)
    ensures
        r == white_space(c),
{
    ('\u{9}' <= c && c <= '\u{D}') || c == '\u{20}' || c == '\u{85}' || c == '\u{A0}' || c
        == '\u{1680}' || ('\u{2000}' <= c && c <= '\u{200A}') || c == '\u{2028}' || c
        == '\u{2029}' || c == '\u{202F}' || c == '\u{205F}' || c == '\u{3000}'
}

/// `s` with each run of white space made one space.
pub open spec fn collapsed(s: Seq<char>) -> Seq<char>
    decreases s.len(),
{
    if s.len() == 0 {
        seq![]
    } else {
        let before = collapsed(s.drop_last());
        if !white_space(s.last()) {
            before.push(s.last())
        } else if s.len() > 1 && white_space(s[s.len() - 2]) {
            before
        } else {
            before.push(' ')
        }
    }
}

/// `s` in lower case.
pub open spec fn lowered(s: Seq<char>) -> Seq<char>
    decreases s.len(),
{
    if s.len() == 0 {
        seq![]
    } else {
        lowered(s.drop_last()) + lower_case(s.last())
    }
}

/// The form in which labels are compared: trimmed, in lower case, with each run of white space
/// made one space.
pub open spec fn normal_label(label: Seq<u8>) -> Seq<char> {
    collapsed(lowered(decode_utf8(trimmed(label))))
}

/// The characters of `text` in lower case.
fn lower_text(text: &str) -> (r: Vec<char>)
    ensures
        r@ == lowered(text@),
{
    let mut v: Vec<char> = Vec::new();
    for c in it: text.chars()
        invariant
            it.seq() == text@,
            v@ == lowered(text@.take(it.index())),
    {
        let lower: Vec<char> = to_lower_case(c);
        let ghost start = v@;
        let mut k: usize = 0;
        while k < lower.len()
            invariant
                k <= lower@.len(),
                v@ == start + lower@.take(k as int),
            decreases lower@.len() - k,
        {
            v.push(lower[k]);
            k += 1;
            proof {
                assert(v@ =~= start + lower@.take(k as int));
            }
        }
        proof {
            let n = it.index();
            assert(lower@.take(lower@.len() as int) =~= lower@);
            assert(text@.take(n + 1).drop_last() =~= text@.take(n));
            assert(text@.take(n + 1).last() == c);
        }
    }
    proof {
        assert(text@.take(text@.len() as int) =~= text@);
    }
    v
}

/// Makes each run of white space one space.
pub fn collapse(text: &Vec<char>) -> (r: String)
    ensures
        r@ == collapsed(text@),
{
    let mut v: String = String::new();
    let mut last_was_whitespace: bool = false;
    let mut k: usize = 0;
    while k < text.len()
        invariant
            k <= text@.len(),
            v@ == collapsed(text@.take(k as int)),
            last_was_whitespace == (k > 0 && white_space(text@[k - 1])),
        decreases text@.len() - k,
    {
        let e: char = text[k];
        proof {
            assert(text@.take(k + 1).drop_last() =~= text@.take(k as int));
        }
        if is_white_space(e) {
            if !last_was_whitespace {
                last_was_whitespace = true;
                v.push(' ');
            }
        } else {
            last_was_whitespace = false;
            v.push(e);
        }
        k += 1;
    }
    proof {
        assert(text@.take(text@.len() as int) =~= text@);
    }
    v
}

/// Brings a label into the form in which labels are compared.
pub fn normalize_label(label: &[u8]) -> (r: String)
    requires
        valid_utf8(label@),
    ensures
        r@ == normal_label(label@),
{
    proof {
        lemma_trimmed_valid(label@);
    }
    let text: String = string_from_utf8(trim_slice(label));
    collapse(&lower_text(text.as_str()))
}

/// The destination of a link, with references and escapes resolved.
pub open spec fn clean_url_bytes(url: Seq<u8>) -> Seq<u8> {
    unescaped(html_unescaped(trimmed(url)))
}

/// Resolves references and escapes in the destination of a link.
pub fn clean_url(url: &[u8]) -> (r: Vec<u8>)
    requires
        valid_utf8(url@),
    ensures
        r@ == clean_url_bytes(url@),
        valid_utf8(r@),
{
    proof {
        lemma_trimmed_valid(url@);
    }
    let t: Vec<u8> = trim_slice(url);
    let b: Vec<u8> = unescape_html(t.as_slice());
    unescape(b.as_slice())
}

/// The text stands between quotes or parentheses.
pub open spec fn quoted(title: Seq<u8>) -> bool {
    &&& title.len() >= 2
    &&& {
        ||| title[0] == 34 && title.last() == 34
        ||| title[0] == 39 && title.last() == 39
        ||| title[0] == 40 && title.last() == 41
    }
}

/// The title of a link without its quotes, with references and escapes resolved.
pub open spec fn clean_title_bytes(title: Seq<u8>) -> Seq<u8> {
    if quoted(title) {
        unescaped(html_unescaped(title.subrange(1, title.len() - 1)))
    } else {
        unescaped(html_unescaped(title))
    }
}

/// Takes the quotes off the title of a link, and resolves references and escapes in it.
pub fn clean_title(title: &[u8]) -> (r: Vec<u8>)
    requires
        valid_utf8(title@),
    ensures
        r@ == clean_title_bytes(title@),
        valid_utf8(r@),
{
    let n: usize = title.len();
    let b: Vec<u8> = if n >= 2 && ((title[0] == 34 && title[n - 1] == 34) || (title[0] == 39
        && title[n - 1] == 39) || (title[0] == 40 && title[n - 1] == 41)) {
        proof {
            lemma_boundary_at_ascii(title@, 0);
            lemma_boundary_at_ascii(title@, n - 1);
            lemma_valid_between(title@, 1, n - 1);
        }
        unescape_html(slice_subrange(title, 1, n - 1))
    } else {
        unescape_html(title)
    };
    unescape(b.as_slice())
}

} // verus!
