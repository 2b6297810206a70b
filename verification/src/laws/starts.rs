//! What a line starts, and what comes before what.

use crate::cursor::{thematic_break, CursorView, CODE_INDENT};
use crate::laws::html::law_no_other_html;
use crate::laws::leaves::law_no_other_hashes;
use crate::laws::lists::law_no_other_marker;
use crate::laws::words::{
    law_classes, letter, numeral, BACKTICK, CARET, CLOSE_BRACKET, COLON, EQUALS, GREATER, HASH,
    HYPHEN, LESS, LINE_FEED, OPEN_BRACKET, PLUS, RETURN, SPACE, STAR, TAB, TILDE, UNDERSCORE,
};
use crate::markers::list_marker;
use crate::nodes::NodeList;
use crate::options::ComrakOptions;
use crate::scanners::{
    atx_start, footnote_label_end, footnote_start, html_start, html_start_7, open_fence,
    setext_line, SetextChar,
};
use crate::starts::{block_start, looks_for_break, BlockStart};
use vstd::prelude::*;

verus! {

/// Where a block may start: how the line came there, and what the options want.
pub struct Place {
    /// Whether a paragraph is open there.
    pub in_paragraph: bool,
    /// Whether the block before is a paragraph.
    pub after_paragraph: bool,
    /// Whether the line goes on with all open blocks.
    pub all_matched: bool,
    /// Whether the line may only go on with a paragraph.
    pub maybe_lazy: bool,
    /// What is wanted.
    pub options: ComrakOptions,
}

/// What starts there.
pub open spec fn started(w: Place, c: CursorView, line: Seq<u8>) -> BlockStart {
    block_start(
        w.in_paragraph,
        w.after_paragraph,
        c,
        line,
        w.all_matched,
        w.maybe_lazy,
        w.options,
    ).0
}

/// What can be read where a block may start, each on its own.
pub struct Readings {
    /// The byte there.
    pub byte: u8,
    /// The bytes of hashes that open a heading.
    pub hashes: Option<int>,
    /// The length of a fence.
    pub fence: Option<int>,
    /// The type of an HTML block.
    pub html: Option<u8>,
    /// Whether a whole tag is alone there.
    pub tag: bool,
    /// An underline.
    pub underline: Option<SetextChar>,
    /// Whether a thematic break is there.
    pub rule: bool,
    /// The bytes of the start of a footnote definition.
    pub note: Option<int>,
    /// Where its label ends.
    pub label_end: int,
    /// A list marker.
    pub marker: Option<(usize, NodeList)>,
}

/// What can be read at the byte that was looked up.
#[verifier::opaque]
pub open spec fn readings(w: Place, c: CursorView, line: Seq<u8>) -> Readings {
    let at = c.first_nonspace;
    let rest = line.subrange(at, line.len() as int);
    Readings {
        byte: line[at],
        hashes: atx_start(rest),
        fence: open_fence(rest),
        html: html_start(rest),
        tag: html_start_7(rest),
        underline: setext_line(rest),
        rule: thematic_break(line, at).1,
        note: footnote_start(rest),
        label_end: footnote_label_end(rest),
        marker: list_marker(line, at, w.in_paragraph),
    }
}

/// What is chosen of what can be read.
spec fn chosen(w: Place, c: CursorView, r: Readings) -> BlockStart {
    let o = w.options.extension;
    if c.indent >= CODE_INDENT {
        if !w.maybe_lazy && !c.blank {
            BlockStart::Indented
        } else {
            BlockStart::Other
        }
    } else if r.byte == GREATER {
        BlockStart::Quote
    } else if r.hashes is Some {
        BlockStart::Atx(r.hashes->0 as usize)
    } else if r.fence is Some {
        BlockStart::Fence(r.fence->0 as usize)
    } else if r.html is Some {
        BlockStart::Html(r.html->0)
    } else if !w.in_paragraph && r.tag {
        BlockStart::Html(7)
    } else if w.in_paragraph && r.underline is Some {
        BlockStart::Setext(r.underline->0)
    } else if looks_for_break(w.in_paragraph, c, w.all_matched) && r.rule {
        BlockStart::Break
    } else if o.footnotes && r.note is Some {
        BlockStart::Footnote(r.note->0 as usize, r.label_end as usize)
    } else if o.description_lists && r.byte == COLON && w.after_paragraph {
        BlockStart::Details
    } else {
        match r.marker {
            Some((n, nl)) => BlockStart::Item(n, nl),
            None => BlockStart::Other,
        }
    }
}

/// What starts is chosen of what can be read.
proof fn lemma_chosen(w: Place, c: CursorView, line: Seq<u8>)
    ensures
        started(w, c, line) == chosen(w, c, readings(w, c, line)),
{
    reveal(block_start);
    reveal(readings);
}

/// What can be read at a byte goes by that byte.
proof fn lemma_readings(w: Place, c: CursorView, line: Seq<u8>)
    requires
        0 <= c.first_nonspace < line.len(),
    ensures
        ({
            let r = readings(w, c, line);
            let b = r.byte;
            &&& b == line[c.first_nonspace]
            &&& r.hashes is Some ==> b == HASH
            &&& r.fence is Some ==> b == BACKTICK || b == TILDE
            &&& r.html is Some || r.tag ==> b == LESS
            &&& r.underline is Some ==> b == EQUALS || b == HYPHEN
            &&& r.rule ==> b == STAR || b == HYPHEN || b == UNDERSCORE
            &&& r.note is Some ==> b == OPEN_BRACKET
            &&& r.marker is Some ==> numeral(b) || b == STAR || b == PLUS || b == HYPHEN
        }),
{
    reveal(readings);
    let at = c.first_nonspace;
    let rest = line.subrange(at, line.len() as int);
    assert(rest[0] == line[at]);
    law_no_other_hashes(rest);
    lemma_underline_first(rest);
    if rest[0] != LESS {
        law_no_other_html(rest);
    }
    if !numeral(line[at]) && line[at] != STAR && line[at] != PLUS && line[at] != HYPHEN {
        law_no_other_marker(line, at, w.in_paragraph);
    }
}

/// An underline needs its byte first.
proof fn lemma_underline_first(s: Seq<u8>)
    ensures
        setext_line(s) is Some ==> s.len() > 0 && (s[0] == EQUALS || s[0] == HYPHEN),
{
}

/// Text that is indented by four columns or more is code, and starts nothing else. It is none in
/// or behind a paragraph that it may go on with, and a blank line is none.
pub proof fn law_indented(w: Place, c: CursorView, line: Seq<u8>)
    requires
        c.indent >= 4,
    ensures
        started(w, c, line) == if w.maybe_lazy || c.blank {
            BlockStart::Other
        } else {
            BlockStart::Indented
        },
{
    reveal(block_start);
}

/// What starts where the text is indented by less. A greater-than sign starts a quote, hashes a
/// heading, a fence a code block and HTML a block of HTML, in a paragraph or not; but a whole tag
/// of any name does not interrupt a paragraph.
pub proof fn law_quote_heading_fence_html(w: Place, c: CursorView, line: Seq<u8>)
    requires
        c.indent <= 3,
        0 <= c.first_nonspace < line.len(),
    ensures
        ({
            let r = readings(w, c, line);
            let s = started(w, c, line);
            &&& s == BlockStart::Quote <==> line[c.first_nonspace] == GREATER
            &&& s is Atx <==> r.hashes is Some
            &&& r.hashes is Some ==> s == BlockStart::Atx(r.hashes->0 as usize)
            &&& s is Fence <==> r.fence is Some
            &&& r.fence is Some ==> s == BlockStart::Fence(r.fence->0 as usize)
            &&& s is Html <==> r.html is Some || r.tag && !w.in_paragraph
            &&& r.html is Some ==> s == BlockStart::Html(r.html->0)
            &&& r.html is None && r.tag && !w.in_paragraph ==> s == BlockStart::Html(7)
            &&& !(s is Indented)
        }),
{
    lemma_chosen(w, c, line);
    lemma_readings(w, c, line);
}

/// An underline makes a heading of the paragraph it is in, before it is anything else; elsewhere it
/// is no underline. A thematic break starts where it is no underline, and the line does not only
/// go on with a paragraph. Of what is left, a list marker starts an item, and in a paragraph it
/// must be one that can interrupt it.
pub proof fn law_underline_break_item(w: Place, c: CursorView, line: Seq<u8>)
    requires
        c.indent <= 3,
        0 <= c.first_nonspace < line.len(),
        c.thematic_break_kill_pos <= c.first_nonspace,
    ensures
        ({
            let r = readings(w, c, line);
            let s = started(w, c, line);
            let underlined = w.in_paragraph && r.underline is Some;
            let broken = r.rule && !underlined && (!w.in_paragraph || w.all_matched);
            &&& s is Setext <==> underlined
            &&& underlined ==> s == BlockStart::Setext(r.underline->0)
            &&& s is Break <==> broken
            &&& s is Item <==> r.marker is Some && !underlined && !broken
            &&& r.marker matches Some((n, nl)) ==> s is Item ==> s == BlockStart::Item(n, nl)
        }),
{
    lemma_chosen(w, c, line);
    lemma_readings(w, c, line);
}

/// A footnote definition starts where footnotes are wanted, and details behind a paragraph at a
/// colon where description lists are. Where they are not wanted, neither starts.
pub proof fn law_extensions(w: Place, c: CursorView, line: Seq<u8>)
    requires
        c.indent <= 3,
        0 <= c.first_nonspace < line.len(),
    ensures
        ({
            let o = w.options.extension;
            let r = readings(w, c, line);
            let s = started(w, c, line);
            &&& s is Footnote <==> o.footnotes && r.note is Some
            &&& s is Footnote ==> s == BlockStart::Footnote(
                r.note->0 as usize,
                r.label_end as usize,
            )
            &&& s is Details <==> o.description_lists && w.after_paragraph
                && line[c.first_nonspace] == COLON
        }),
{
    lemma_chosen(w, c, line);
    lemma_readings(w, c, line);
}

/// Plain text starts nothing: neither a letter nor a byte beyond ASCII does.
pub proof fn law_text(w: Place, c: CursorView, line: Seq<u8>)
    requires
        c.indent <= 3,
        0 <= c.first_nonspace < line.len(),
        letter(line[c.first_nonspace]) || line[c.first_nonspace] >= 0x80,
    ensures
        started(w, c, line) == BlockStart::Other,
{
    lemma_chosen(w, c, line);
    lemma_readings(w, c, line);
}

/// What is learnt of thematic breaks on the way does not hide one: where none is found at a byte,
/// none starts before the byte at which that turned out.
pub proof fn law_break_not_hidden(w: Place, c: CursorView, line: Seq<u8>, j: int)
    requires
        0 <= c.first_nonspace <= j < line.len(),
        c.thematic_break_kill_pos <= c.first_nonspace,
        j < block_start(
            w.in_paragraph,
            w.after_paragraph,
            c,
            line,
            w.all_matched,
            w.maybe_lazy,
            w.options,
        ).1.thematic_break_kill_pos,
    ensures
        !thematic_break(line, j).1,
{
    reveal(block_start);
    crate::cursor::law_no_break_before(line, c.first_nonspace, j);
}

/// A footnote definition is a label between `[^` and `]:`. The label holds no white space and no
/// bracket that closes it, and is not empty. Blanks behind the colon are passed.
pub proof fn law_footnote_start(label: Seq<u8>, gap: Seq<u8>, x: u8, rest: Seq<u8>)
    requires
        forall|k: int|
            0 <= k < label.len()
                ==> #[trigger] label[k] != CLOSE_BRACKET && label[k] != SPACE && label[k]
                != TAB && label[k] != RETURN && label[k] != LINE_FEED && label[k] != 0,
        forall|k: int| 0 <= k < gap.len() ==> crate::laws::words::blank(#[trigger] gap[k]),
        rest.len() > 0 ==> !crate::laws::words::blank(rest[0]),
        x == SPACE || x == TAB || x == RETURN || x == LINE_FEED || x == 0,
    ensures
        ({
            let s = seq![OPEN_BRACKET, CARET] + label + seq![CLOSE_BRACKET, COLON] + gap + rest;
            &&& label.len() > 0 ==> footnote_start(s) == Some(
                label.len() as int + 4 + gap.len(),
            ) && footnote_label_end(s) == label.len() + 2
            &&& label.len() == 0 ==> footnote_start(s) is None
            &&& rest.len() > 0 && rest[0] != COLON ==> footnote_start(
                seq![OPEN_BRACKET, CARET] + label + seq![CLOSE_BRACKET] + rest,
            ) is None
            &&& footnote_start(seq![OPEN_BRACKET, CARET] + label + seq![x] + rest) is None
        }),
{
    let s = seq![OPEN_BRACKET, CARET] + label + seq![CLOSE_BRACKET, COLON] + gap + rest;
    let n = label.len() as int;
    let f = crate::scanners::label_bytes();
    assert forall|k: int| 2 <= k < 2 + n implies f(#[trigger] s[k]) by {
        assert(s[k] == label[k - 2]);
    }
    assert(s[2 + n] == CLOSE_BRACKET && s[3 + n] == COLON);
    crate::ctype::lemma_run_end_is(s, 2, 2 + n, f);
    let e = 4 + n + gap.len();
    assert forall|k: int| 4 + n <= k < e implies crate::ctype::blanks()(#[trigger] s[k]) by {
        assert(s[k] == gap[k - 4 - n]);
        law_classes(s[k]);
    }
    if rest.len() > 0 {
        assert(s[e] == rest[0]);
        law_classes(rest[0]);
    }
    crate::ctype::lemma_run_end_is(s, 4 + n, e, crate::ctype::blanks());
    let u = seq![OPEN_BRACKET, CARET] + label + seq![CLOSE_BRACKET] + rest;
    assert forall|k: int| 2 <= k < 2 + n implies f(#[trigger] u[k]) by {
        assert(u[k] == label[k - 2]);
    }
    assert(u[2 + n] == CLOSE_BRACKET);
    crate::ctype::lemma_run_end_is(u, 2, 2 + n, f);
    if rest.len() > 0 {
        assert(u[3 + n] == rest[0]);
    }
    let y = seq![OPEN_BRACKET, CARET] + label + seq![x] + rest;
    assert forall|k: int| 2 <= k < 2 + n implies f(#[trigger] y[k]) by {
        assert(y[k] == label[k - 2]);
    }
    assert(y[2 + n] == x);
    crate::ctype::lemma_run_end_is(y, 2, 2 + n, f);
}

} // verus!
