//! What starts and ends an HTML block.

use crate::ctype::{lemma_run_end_is, run_end, spaces};
use crate::cursor::CursorView;
use crate::laws::words::{
    all_white, blank, law_classes, letter, line_end, numeral, white, APOSTROPHE, BACKTICK, BANG,
    COLON, EQUALS, GREATER, HYPHEN, LESS, LINE_FEED, PERIOD, QUESTION, QUOTE, SLASH, UNDERSCORE,
};
use crate::prefixes::html_prefix;
use crate::scanners::{
    alnums, attribute, attribute_bytes, attribute_value, attributes_end, block_tag, html_end,
    html_end_at, html_start, html_start_7, open_tag, quoted_bytes, raw_tag, stands_at, tag_bytes,
    tag_gap, tag_name, unbroken, unquoted_bytes, word_is,
};
use vstd::prelude::*;
use vstd::utf8::{encode_utf8, is_ascii_chars, is_ascii_chars_encode_utf8};

verus! {

/// Names of tags whose contents are raw text.
pub open spec fn raw_name(w: Seq<char>) -> bool {
    w == "pre"@ || w == "script"@ || w == "style"@ || w == "textarea"@
}

/// Names of tags that make blocks of their own.
pub open spec fn block_name(w: Seq<char>) -> bool {
    ||| w == "address"@
    ||| w == "article"@
    ||| w == "aside"@
    ||| w == "base"@
    ||| w == "basefont"@
    ||| w == "blockquote"@
    ||| w == "body"@
    ||| w == "caption"@
    ||| w == "center"@
    ||| w == "col"@
    ||| w == "colgroup"@
    ||| w == "dd"@
    ||| w == "details"@
    ||| w == "dialog"@
    ||| w == "dir"@
    ||| w == "div"@
    ||| w == "dl"@
    ||| w == "dt"@
    ||| w == "fieldset"@
    ||| w == "figcaption"@
    ||| w == "figure"@
    ||| w == "footer"@
    ||| w == "form"@
    ||| w == "frame"@
    ||| w == "frameset"@
    ||| w == "h1"@
    ||| w == "h2"@
    ||| w == "h3"@
    ||| w == "h4"@
    ||| w == "h5"@
    ||| w == "h6"@
    ||| w == "head"@
    ||| w == "header"@
    ||| w == "hr"@
    ||| w == "html"@
    ||| w == "iframe"@
    ||| w == "legend"@
    ||| w == "li"@
    ||| w == "link"@
    ||| w == "main"@
    ||| w == "menu"@
    ||| w == "menuitem"@
    ||| w == "nav"@
    ||| w == "noframes"@
    ||| w == "ol"@
    ||| w == "optgroup"@
    ||| w == "option"@
    ||| w == "p"@
    ||| w == "param"@
    ||| w == "section"@
    ||| w == "source"@
    ||| w == "summary"@
    ||| w == "table"@
    ||| w == "tbody"@
    ||| w == "td"@
    ||| w == "tfoot"@
    ||| w == "th"@
    ||| w == "thead"@
    ||| w == "title"@
    ||| w == "tr"@
    ||| w == "track"@
    ||| w == "ul"@
}

/// Whether the letters and digits of `s` from `i` up to `e` are all that stand there, and write `w`
/// in letters of either case.
pub open spec fn writes(s: Seq<u8>, i: int, e: int, w: Seq<char>) -> bool {
    &&& 0 <= i <= e < s.len()
    &&& e - i == encode_utf8(w).len()
    &&& forall|k: int|
        i <= k < e ==> (letter(#[trigger] s[k]) || numeral(s[k])) && (s[k] == encode_utf8(w)[k - i]
            || 0x41 <= s[k] <= 0x5a && s[k] + 0x20 == encode_utf8(w)[k - i])
    &&& !letter(s[e]) && !numeral(s[e])
}

/// Words are read as they are written.
proof fn lemma_writes(s: Seq<u8>, i: int, e: int, w: Seq<char>)
    requires
        writes(s, i, e, w),
        forall|k: int|
            0 <= k < encode_utf8(w).len() ==> !(0x41 <= #[trigger] encode_utf8(w)[k] <= 0x5a),
    ensures
        word_is(s, i, e, w),
        run_end(s, i, alnums()) == e,
{
    let b = encode_utf8(w);
    assert forall|k: int| i <= k < e implies alnums()(#[trigger] s[k]) by {
        law_classes(s[k]);
    }
    law_classes(s[e]);
    lemma_run_end_is(s, i, e, alnums());
    assert forall|k: int| 0 <= k < b.len() implies crate::ctype::lower_byte(s[i + k])
        == #[trigger] b[k] by {
        law_classes(s[i + k]);
    }
}

/// What the names of raw text come to.
proof fn lemma_raw_name(w: Seq<char>)
    requires
        raw_name(w),
    ensures
        encode_utf8(w).len() > 0,
        forall|k: int|
            0 <= k < encode_utf8(w).len() ==> !(0x41 <= #[trigger] encode_utf8(w)[k] <= 0x5a),
{
    reveal_strlit("pre");
    reveal_strlit("script");
    reveal_strlit("style");
    reveal_strlit("textarea");
    assert(is_ascii_chars(w));
    is_ascii_chars_encode_utf8(w);
}

/// Nothing of length zero is a name of raw text.
proof fn lemma_no_raw_tag(s: Seq<u8>, i: int)
    ensures
        !raw_tag(s, i, i),
{
    lemma_raw_name("pre"@);
    lemma_raw_name("script"@);
    lemma_raw_name("style"@);
    lemma_raw_name("textarea"@);
}

/// An opening tag of a name of raw text, in any case, starts a block of the first type, if white
/// space or the end of the tag is behind the name.
pub proof fn law_raw_text(s: Seq<u8>, e: int, w: Seq<char>)
    requires
        s.len() > 0 && s[0] == LESS,
        raw_name(w),
        writes(s, 1, e, w),
        white(s[e]) || s[e] == GREATER,
    ensures
        html_start(s) == Some(1u8),
{
    lemma_raw_name(w);
    lemma_writes(s, 1, e, w);
    law_classes(s[e]);
}

/// The tags that make blocks of their own are those of these names.
pub proof fn law_block_tag(s: Seq<u8>, i: int, e: int)
    ensures
        block_tag(s, i, e) <==> exists|w: Seq<char>|
            block_name(w) && #[trigger] word_is(s, i, e, w),
{
}

/// An opening or closing tag of such a name starts a block, if white space or the end of the tag is
/// behind the name; a closing one of the sixth type.
pub proof fn law_block_tag_starts(s: Seq<u8>, slash: int, e: int, w: Seq<char>)
    requires
        s.len() > 1 && s[0] == LESS,
        slash == if s[1] == SLASH {
            2int
        } else {
            1
        },
        block_name(w),
        writes(s, slash, e, w),
        forall|k: int|
            0 <= k < encode_utf8(w).len() ==> !(0x41 <= #[trigger] encode_utf8(w)[k] <= 0x5a),
        slash < e,
        white(s[e]) || s[e] == GREATER || s[e] == SLASH && e + 1 < s.len() && s[e + 1] == GREATER,
    ensures
        html_start(s) is Some,
        slash == 2 || !(exists|v: Seq<char>| raw_name(v) && #[trigger] word_is(s, 1, e, v))
            ==> html_start(s) == Some(6u8),
{
    lemma_writes(s, slash, e, w);
    law_block_tag(s, slash, e);
    law_classes(s[e]);
    reveal_strlit("<!--");
    reveal_strlit("<?");
    assert(is_ascii_chars("<!--"@));
    is_ascii_chars_encode_utf8("<!--"@);
    assert(is_ascii_chars("<?"@));
    is_ascii_chars_encode_utf8("<?"@);
    law_classes(s[1]);
    assert(slash == 1 ==> letter(s[1]) || numeral(s[1]));
    if stands_at(s, 0, encode_utf8("<!--"@)) {
        assert(crate::ctype::lower_byte(s[0int + 1]) == encode_utf8("<!--"@)[1]);
    }
    if stands_at(s, 0, encode_utf8("<?"@)) {
        assert(crate::ctype::lower_byte(s[0int + 1]) == encode_utf8("<?"@)[1]);
    }
    if slash == 2 {
        assert(run_end(s, 1, alnums()) == 1);
        lemma_no_raw_tag(s, 1);
    } else {
        assert(run_end(s, 1, alnums()) == e);
        if raw_tag(s, 1, e) {
            assert(raw_name("pre"@) && raw_name("script"@) && raw_name("style"@) && raw_name(
                "textarea"@,
            ));
        }
    }
}

/// How comments and processing instructions start.
proof fn lemma_markup(s: Seq<u8>)
    requires
        s.len() > 2,
    ensures
        stands_at(s, 0, encode_utf8("<!--"@)) <==> s.len() > 3 && s[0] == LESS && s[1] == BANG
            && s[2] == HYPHEN && s[3] == HYPHEN,
        stands_at(s, 0, encode_utf8("<?"@)) <==> s[0] == LESS && s[1] == QUESTION,
{
    reveal_strlit("<!--");
    reveal_strlit("<?");
    assert(is_ascii_chars("<!--"@));
    is_ascii_chars_encode_utf8("<!--"@);
    assert(is_ascii_chars("<?"@));
    is_ascii_chars_encode_utf8("<?"@);
    let c = encode_utf8("<!--"@);
    let q = encode_utf8("<?"@);
    assert(c =~= seq![60u8, 33, 45, 45]);
    assert(q =~= seq![60u8, 63]);
    lemma_stands(s, 0, c);
    lemma_stands(s, 0, q);
    let t = s.subrange(0, 2);
    assert(t[0] == s[0] && t[1] == s[1]);
    if s[0] == LESS && s[1] == QUESTION {
        assert(t =~= q);
    }
    if s.len() > 3 {
        let u = s.subrange(0, 4);
        assert(u[0] == s[0] && u[1] == s[1] && u[2] == s[2] && u[3] == s[3]);
        if s[0] == LESS && s[1] == BANG && s[2] == HYPHEN && s[3] == HYPHEN {
            assert(u =~= c);
        }
    }
}

/// A comment starts a block of the second type, and a processing instruction one of the third.
pub proof fn law_comment(s: Seq<u8>)
    requires
        s.len() > 2 && s[0] == LESS,
    ensures
        s.len() > 3 && s[1] == BANG && s[2] == HYPHEN && s[3] == HYPHEN
            ==> html_start(s) == Some(2u8),
        s[1] == QUESTION ==> html_start(s) == Some(3u8),
{
    lemma_markup(s);
    lemma_no_raw_tag(s, 1);
    law_classes(s[1]);
    if s[1] == BANG || s[1] == QUESTION {
        assert(run_end(s, 1, alnums()) == 1);
    }
}

/// A declaration starts a block of the fourth type, and a CDATA section one of the fifth.
pub proof fn law_declaration(s: Seq<u8>)
    requires
        s.len() > 2 && s[0] == LESS,
    ensures
        s[1] == BANG && letter(s[2]) ==> html_start(s) == Some(4u8),
        s.len() > 8 && s.subrange(1, 9) == seq![33u8, 91, 67, 68, 65, 84, 65, 91] ==> html_start(s)
            == Some(5u8),
{
    lemma_markup(s);
    lemma_no_raw_tag(s, 1);
    law_classes(s[1]);
    law_classes(s[2]);
    if s.len() > 8 && s.subrange(1, 9) == seq![33u8, 91, 67, 68, 65, 84, 65, 91] {
        let t = s.subrange(1, 9);
        assert(s[1] == t[0] && s[2] == t[1] && s[3] == t[2] && s[4] == t[3]);
        assert(s[5] == t[4] && s[6] == t[5] && s[7] == t[6] && s[8] == t[7]);
    }
    if s[1] == BANG {
        assert(run_end(s, 1, alnums()) == 1);
    }
}

/// Nothing that does not start with an angle bracket starts a block of HTML.
pub proof fn law_no_other_html(s: Seq<u8>)
    requires
        s.len() == 0 || s[0] != LESS,
    ensures
        html_start(s) is None,
        !html_start_7(s),
{
}

/// Whether `t` stands in `s` at `i`, and neither a line feed nor a NUL is before it.
pub open spec fn on_line(s: Seq<u8>, i: int, t: Seq<u8>) -> bool {
    &&& 0 <= i && i + t.len() <= s.len()
    &&& s.subrange(i, i + t.len()) == t
    &&& forall|k: int| 0 <= k < i ==> #[trigger] s[k] != LINE_FEED && s[k] != 0
}

/// Whether `t` stands on the first line of `s`.
pub open spec fn holds(s: Seq<u8>, t: Seq<u8>) -> bool {
    exists|i: int| #[trigger] on_line(s, i, t)
}

/// A text that is no letter stands where its bytes do.
proof fn lemma_stands(s: Seq<u8>, i: int, t: Seq<u8>)
    requires
        0 <= i,
        forall|k: int| 0 <= k < t.len() ==> !letter(#[trigger] t[k]),
    ensures
        stands_at(s, i, t) <==> i + t.len() <= s.len() && s.subrange(i, i + t.len()) == t,
{
    if i + t.len() <= s.len() {
        let u = s.subrange(i, i + t.len());
        assert forall|k: int| 0 <= k < t.len() implies (crate::ctype::lower_byte(s[i + k])
            == #[trigger] t[k] <==> u[k] == t[k]) by {
            law_classes(s[i + k]);
            assert(!letter(t[k]));
        }
        if stands_at(s, i, t) {
            assert forall|k: int| 0 <= k < t.len() implies u[k] == t[k] by {
                assert(crate::ctype::lower_byte(s[i + k]) == t[k]);
            }
            assert(u =~= t);
        }
    }
}

/// A block of the types from two to five ends with the line that holds its end: of a comment, of a
/// processing instruction, of a declaration, of a CDATA section. The last two types end with no
/// text.
pub proof fn law_html_end(s: Seq<u8>)
    ensures
        html_end(s, 2) <==> holds(s, seq![45u8, 45, 62]),
        html_end(s, 3) <==> holds(s, seq![63u8, 62]),
        html_end(s, 4) <==> holds(s, seq![62u8]),
        html_end(s, 5) <==> holds(s, seq![93u8, 93, 62]),
        !html_end(s, 6) && !html_end(s, 7),
{
    reveal_strlit("-->");
    reveal_strlit("?>");
    reveal_strlit(">");
    reveal_strlit("]]>");
    assert(is_ascii_chars("-->"@));
    is_ascii_chars_encode_utf8("-->"@);
    assert(encode_utf8("-->"@) =~= seq![45u8, 45, 62]);
    lemma_html_end_as(s, 2, seq![45u8, 45, 62]);
    assert(is_ascii_chars("?>"@));
    is_ascii_chars_encode_utf8("?>"@);
    assert(encode_utf8("?>"@) =~= seq![63u8, 62]);
    lemma_html_end_as(s, 3, seq![63u8, 62]);
    assert(is_ascii_chars(">"@));
    is_ascii_chars_encode_utf8(">"@);
    assert(encode_utf8(">"@) =~= seq![62u8]);
    lemma_html_end_as(s, 4, seq![62u8]);
    assert(is_ascii_chars("]]>"@));
    is_ascii_chars_encode_utf8("]]>"@);
    assert(encode_utf8("]]>"@) =~= seq![93u8, 93, 62]);
    lemma_html_end_as(s, 5, seq![93u8, 93, 62]);
}

/// A type that ends with a text ends where the text stands.
proof fn lemma_html_end_as(s: Seq<u8>, n: u8, t: Seq<u8>)
    requires
        forall|i: int| #[trigger] html_end_at(s, i, n) == stands_at(s, i, t),
        forall|k: int| 0 <= k < t.len() ==> !letter(#[trigger] t[k]),
    ensures
        html_end(s, n) <==> holds(s, t),
{
    if html_end(s, n) {
        let i = choose|i: int|
            0 <= i <= s.len() && unbroken(s, i) && #[trigger] html_end_at(s, i, n);
        lemma_stands(s, i, t);
        assert(on_line(s, i, t));
    }
    if holds(s, t) {
        let i = choose|i: int| #[trigger] on_line(s, i, t);
        lemma_stands(s, i, t);
        assert(html_end_at(s, i, n));
    }
}

/// A block of raw text ends with the line that holds a closing tag of one of its names.
pub proof fn law_raw_text_end(s: Seq<u8>, i: int, e: int, w: Seq<char>)
    requires
        raw_name(w),
        on_line(s, i, seq![60u8, 47]),
        writes(s, i + 2, e, w),
        s[e] == GREATER,
    ensures
        html_end(s, 1),
{
    lemma_raw_name(w);
    lemma_writes(s, i + 2, e, w);
    reveal_strlit("</");
    assert(is_ascii_chars("</"@));
    is_ascii_chars_encode_utf8("</"@);
    assert(encode_utf8("</"@) =~= seq![60u8, 47]);
    lemma_stands(s, i, seq![60u8, 47]);
    assert(html_end_at(s, i, 1));
}

/// A blank line ends a block of the last two types, and no other.
pub proof fn law_html_goes_on(c: CursorView, n: u8)
    requires
        1 <= n <= 7,
    ensures
        html_prefix(c, n) <==> !(c.blank && (n == 6 || n == 7)),
{
}

/// Whether `t` is a tag name.
pub open spec fn names_tag(t: Seq<u8>) -> bool {
    &&& t.len() > 0 && letter(t[0])
    &&& forall|k: int|
        0 <= k < t.len() ==> letter(#[trigger] t[k]) || numeral(t[k]) || t[k] == HYPHEN
}

/// A tag name is read to its end.
proof fn lemma_tag_name(s: Seq<u8>, i: int, t: Seq<u8>)
    requires
        names_tag(t),
        0 <= i,
        i + t.len() < s.len(),
        s.subrange(i, i + t.len()) == t,
        white(s[i + t.len()]) || s[i + t.len()] == GREATER || s[i + t.len()] == SLASH,
    ensures
        tag_name(s, i) == Some(i + t.len()),
{
    let e = i + t.len();
    let u = s.subrange(i, e);
    assert forall|k: int| i + 1 <= k < e implies tag_bytes()(#[trigger] s[k]) by {
        assert(s[k] == u[k - i]);
        law_classes(s[k]);
    }
    assert(s[i] == u[0]);
    law_classes(s[i]);
    law_classes(s[e]);
    lemma_run_end_is(s, i + 1, e, tag_bytes());
}

/// White space behind a tag name is passed.
proof fn lemma_tag_spaces(s: Seq<u8>, i: int, w: Seq<u8>)
    requires
        all_white(w),
        0 <= i,
        i + w.len() < s.len(),
        s.subrange(i, i + w.len()) == w,
        !white(s[i + w.len()]),
    ensures
        run_end(s, i, spaces()) == i + w.len(),
{
    let e = i + w.len();
    let u = s.subrange(i, e);
    assert forall|k: int| i <= k < e implies spaces()(#[trigger] s[k]) by {
        assert(s[k] == u[k - i]);
        assert(white(w[k - i]));
        law_classes(s[k]);
    }
    law_classes(s[e]);
    lemma_run_end_is(s, i, e, spaces());
}

/// A whole closing tag alone on its line starts a block of the seventh type, with white space
/// before its end or not.
pub proof fn law_closing_tag_alone(
    t: Seq<u8>,
    w: Seq<u8>,
    gap: Seq<u8>,
    end: u8,
    rest: Seq<u8>,
)
    requires
        names_tag(t),
        all_white(w),
        forall|k: int| 0 <= k < gap.len() ==> blank(#[trigger] gap[k]) || gap[k] == 12,
        line_end(end),
    ensures
        html_start_7(seq![LESS, SLASH] + t + w + seq![GREATER] + gap + seq![end] + rest),
{
    let n = t.len() as int;
    let m = w.len() as int;
    let s = seq![LESS, SLASH] + t + w + seq![GREATER] + gap + seq![end] + rest;
    assert(s[1] == SLASH);
    assert(s.subrange(2, 2 + n) =~= t);
    if m > 0 {
        assert(s[2 + n] == w[0]);
        assert(white(w[0]));
    }
    lemma_tag_name(s, 2, t);
    assert(s.subrange(2 + n, 2 + n + m) =~= w);
    assert(s[2 + n + m] == GREATER);
    lemma_tag_spaces(s, 2 + n, w);
    law_classes(SLASH);
    assert(open_tag(s, 1) is None);
    assert(s.subrange(3 + n + m, 3 + n + m + gap.len()) =~= gap);
    assert(s[3 + n + m + gap.len()] == end);
    lemma_line_closed(s, 3 + n + m, gap, end);
}

/// A whole opening tag alone on its line starts a block of the seventh type, with white space or a
/// slash before its end or not.
pub proof fn law_opening_tag_alone(
    t: Seq<u8>,
    w: Seq<u8>,
    slash: bool,
    gap: Seq<u8>,
    end: u8,
    rest: Seq<u8>,
)
    requires
        names_tag(t),
        all_white(w),
        forall|k: int| 0 <= k < gap.len() ==> blank(#[trigger] gap[k]) || gap[k] == 12,
        line_end(end),
    ensures
        html_start_7(
            seq![LESS] + t + w + (if slash {
                seq![SLASH, GREATER]
            } else {
                seq![GREATER]
            }) + gap + seq![end] + rest,
        ),
{
    let n = t.len() as int;
    let m = w.len() as int;
    let x: Seq<u8> = if slash {
        seq![SLASH, GREATER]
    } else {
        seq![GREATER]
    };
    let s = seq![LESS] + t + w + x + gap + seq![end] + rest;
    assert(s.subrange(1, 1 + n) =~= t);
    if m > 0 {
        assert(s[1 + n] == w[0]);
        assert(white(w[0]));
    } else {
        assert(s[1 + n] == x[0]);
    }
    lemma_tag_name(s, 1, t);
    assert(s.subrange(1 + n, 1 + n + m) =~= w);
    assert(s[1 + n + m] == x[0]);
    lemma_tag_spaces(s, 1 + n, w);
    law_classes(x[0]);
    assert(attribute(s, 1 + n) is None);
    assert(attributes_end(s, 1 + n) == 1 + n);
    let e = 1 + n + m + x.len();
    assert(s[e - 1] == GREATER);
    assert(open_tag(s, 1) == Some(e));
    assert(s.subrange(e, e + gap.len()) =~= gap);
    assert(s[e + gap.len()] == end);
    lemma_line_closed(s, e, gap, end);
}

/// Whether `t` is the name of an attribute.
pub open spec fn names_attribute(t: Seq<u8>) -> bool {
    &&& t.len() > 0 && (letter(t[0]) || t[0] == UNDERSCORE || t[0] == COLON)
    &&& forall|k: int|
        0 <= k < t.len() ==> letter(#[trigger] t[k]) || numeral(t[k]) || t[k] == UNDERSCORE || t[k]
            == COLON || t[k] == PERIOD || t[k] == HYPHEN
}

/// The value that stands in quotes at `k`.
proof fn lemma_value_in_quotes(s: Seq<u8>, k: int, quote: u8, v: Seq<u8>, last: u8, rest: Seq<u8>)
    requires
        0 <= k <= s.len(),
        quote == QUOTE || quote == APOSTROPHE,
        forall|j: int| 0 <= j < v.len() ==> #[trigger] v[j] != quote && v[j] != 0,
        last == quote || last == 0,
        s.skip(k) == seq![quote] + v + seq![last] + rest,
    ensures
        last == quote ==> attribute_value(s, k) == Some(k + v.len() + 2),
        last == 0 ==> attribute_value(s, k) is None,
{
    let tail = s.skip(k);
    let e = k + 1 + v.len();
    assert(tail.len() == v.len() + 2 + rest.len());
    assert(s[k] == tail[0]);
    assert(s[e] == tail[v.len() as int + 1]);
    assert forall|j: int| k + 1 <= j < e implies quoted_bytes(quote)(#[trigger] s[j]) by {
        assert(s[j] == tail[j - k]);
        assert(tail[j - k] == v[j - k - 1]);
    }
    lemma_run_end_is(s, k + 1, e, quoted_bytes(quote));
}

/// What is read up to the value of an attribute.
proof fn lemma_name_and_sign(
    s: Seq<u8>,
    i: int,
    w: Seq<u8>,
    t: Seq<u8>,
    g: Seq<u8>,
    h: Seq<u8>,
    rest: Seq<u8>,
)
    requires
        0 <= i <= s.len(),
        w.len() > 0 && all_white(w),
        names_attribute(t),
        all_white(g) && all_white(h),
        rest.len() > 0 && !white(rest[0]),
        s.skip(i) == w + t + g + seq![EQUALS] + h + rest,
    ensures
        attribute(s, i) == attribute_value(s, i + w.len() + t.len() + g.len() + h.len() + 1),
{
    let tail = s.skip(i);
    let j = i + w.len();
    let k0 = j + t.len();
    let k1 = k0 + g.len();
    let k2 = k1 + 1 + h.len();
    assert(tail.len() == w.len() + t.len() + g.len() + h.len() + 1 + rest.len());
    assert(s.subrange(i, j) =~= tail.take(w.len() as int));
    assert(tail.take(w.len() as int) =~= w);
    assert(s[j] == tail[w.len() as int]);
    assert(s[j] == t[0]);
    law_classes(s[j]);
    lemma_tag_spaces(s, i, w);
    assert forall|k: int| j + 1 <= k < k0 implies attribute_bytes()(#[trigger] s[k]) by {
        assert(s[k] == tail[k - i]);
        assert(tail[k - i] == t[k - j]);
        law_classes(s[k]);
    }
    assert(s[k1] == tail[k1 - i]);
    assert(s[k1] == EQUALS);
    assert(s[k2] == tail[k2 - i]);
    assert(s[k2] == rest[0]);
    law_classes(EQUALS);
    if g.len() > 0 {
        assert(s[k0] == tail[k0 - i]);
        assert(s[k0] == g[0]);
        assert(white(g[0]));
        law_classes(s[k0]);
    }
    lemma_run_end_is(s, j + 1, k0, attribute_bytes());
    assert(s.subrange(k0, k1) =~= tail.subrange(k0 - i, k1 - i));
    assert(tail.subrange(k0 - i, k1 - i) =~= g);
    lemma_tag_spaces(s, k0, g);
    assert(s.subrange(k1 + 1, k2) =~= tail.subrange(k1 + 1 - i, k2 - i));
    assert(tail.subrange(k1 + 1 - i, k2 - i) =~= h);
    lemma_tag_spaces(s, k1 + 1, h);
}

/// An attribute is a name behind white space, with an equals sign and a value. White space may
/// stand around the sign. The value stands in double or in single quotes, in which the other kind
/// may be, but no NUL.
pub proof fn law_attribute(
    s: Seq<u8>,
    i: int,
    w: Seq<u8>,
    t: Seq<u8>,
    g: Seq<u8>,
    h: Seq<u8>,
    quote: u8,
    v: Seq<u8>,
    last: u8,
    rest: Seq<u8>,
)
    requires
        0 <= i <= s.len(),
        w.len() > 0 && all_white(w),
        names_attribute(t),
        all_white(g) && all_white(h),
        quote == QUOTE || quote == APOSTROPHE,
        forall|k: int| 0 <= k < v.len() ==> #[trigger] v[k] != quote && v[k] != 0,
        last == quote || last == 0,
        s.skip(i) == w + t + g + seq![EQUALS] + h + (seq![quote] + v + seq![last] + rest),
    ensures
        last == quote ==> attribute(s, i) == Some(
            i + w.len() + t.len() + g.len() + h.len() + v.len() + 3,
        ),
        last == 0 ==> attribute(s, i) is None,
{
    let value = seq![quote] + v + seq![last] + rest;
    let k = i + w.len() + t.len() + g.len() + h.len() + 1;
    assert(value[0] == quote);
    lemma_name_and_sign(s, i, w, t, g, h, value);
    assert(s.skip(k) =~= s.skip(i).skip(k - i));
    assert(s.skip(i).skip(k - i) =~= value);
    lemma_value_in_quotes(s, k, quote, v, last, rest);
}

/// Whether `b` can stand in a value without quotes.
pub open spec fn bare_value(b: u8) -> bool {
    !white(b) && b != 0 && b != QUOTE && b != APOSTROPHE && b != EQUALS && b != LESS
        && b != GREATER && b
        != BACKTICK
}

/// A value without quotes goes up to white space, to a quote or to another byte that cannot be in
/// it. An attribute may have no value.
pub proof fn law_attribute_unquoted(s: Seq<u8>, i: int, w: Seq<u8>, t: Seq<u8>, v: Seq<u8>, rest: Seq<u8>)
    requires
        0 <= i <= s.len(),
        w.len() > 0 && all_white(w),
        names_attribute(t),
        v.len() > 0,
        forall|k: int| 0 <= k < v.len() ==> bare_value(#[trigger] v[k]),
        rest.len() > 0 ==> !bare_value(rest[0]),
    ensures
        s.skip(i) == w + t + seq![EQUALS] + v + rest ==> attribute(s, i) == Some(
            i + w.len() + t.len() + v.len() + 1,
        ),
        rest.len() > 0 && (rest[0] == GREATER || rest[0] == SLASH) && s.skip(i) == w + t + rest
            ==> attribute(s, i) == Some(i + w.len() + t.len()),
{
    let tail = s.skip(i);
    let j = i + w.len();
    let k0 = j + t.len();
    assert(forall|k: int| i <= k < s.len() ==> s[k] == tail[k - i]);
    if s.skip(i) == w + t + seq![EQUALS] + v + rest || rest.len() > 0 && (rest[0] == GREATER
        || rest[0]
        == SLASH) && s.skip(i) == w + t + rest {
        assert(tail.len() >= w.len() + t.len() + 1);
        assert forall|k: int| i <= k < j implies spaces()(#[trigger] s[k]) by {
            assert(s[k] == w[k - i]);
            assert(white(w[k - i]));
            law_classes(s[k]);
        }
        assert(s[j] == t[0]);
        law_classes(s[j]);
        lemma_run_end_is(s, i, j, spaces());
        assert forall|k: int| j + 1 <= k < k0 implies attribute_bytes()(#[trigger] s[k]) by {
            assert(s[k] == t[k - j]);
            law_classes(s[k]);
        }
        law_classes(s[k0]);
        if s.skip(i) == w + t + seq![EQUALS] + v + rest {
            assert(s[k0] == EQUALS);
        } else {
            assert(s[k0] == rest[0]);
        }
        lemma_run_end_is(s, j + 1, k0, attribute_bytes());
        lemma_run_end_is(s, k0, k0, spaces());
    }
    if s.skip(i) == w + t + seq![EQUALS] + v + rest {
        let m = k0 + 1;
        let e = m + v.len();
        assert(tail.len() == w.len() + t.len() + 1 + v.len() + rest.len());
        assert(s[m] == v[0]);
        law_classes(s[m]);
        lemma_run_end_is(s, m, m, spaces());
        assert forall|k: int| m <= k < e implies unquoted_bytes()(#[trigger] s[k]) by {
            assert(s[k] == v[k - m]);
            assert(bare_value(v[k - m]));
            law_classes(s[k]);
        }
        if rest.len() > 0 {
            assert(s[e] == rest[0]);
            law_classes(s[e]);
        }
        lemma_run_end_is(s, m, e, unquoted_bytes());
    }
}

/// A tag may have any number of attributes before its end.
pub proof fn law_attributes(s: Seq<u8>, i: int)
    requires
        0 <= i <= s.len(),
    ensures
        match attribute(s, i) {
            Some(j) => i < j <= s.len() ==> attributes_end(s, i) == attributes_end(s, j),
            None => attributes_end(s, i) == i,
        },
{
}

/// Nothing but blanks comes before the line end.
proof fn lemma_line_closed(s: Seq<u8>, e: int, gap: Seq<u8>, end: u8)
    requires
        0 <= e,
        e + gap.len() < s.len(),
        s.subrange(e, e + gap.len()) == gap,
        forall|k: int| 0 <= k < gap.len() ==> blank(#[trigger] gap[k]) || gap[k] == 12,
        s[e + gap.len()] == end,
        line_end(end),
    ensures
        ({
            let g = run_end(s, e, tag_gap());
            g < s.len() && crate::ctype::line_end_byte(s[g])
        }),
{
    let u = s.subrange(e, e + gap.len());
    assert forall|k: int| e <= k < e + gap.len() implies tag_gap()(#[trigger] s[k]) by {
        assert(s[k] == u[k - e]);
        assert(blank(gap[k - e]) || gap[k - e] == 12);
    }
    law_classes(end);
    lemma_run_end_is(s, e, e + gap.len(), tag_gap());
}

} // verus!
