//! A byte order mark at the start of a document is passed over.

use crate::adding::{blanks_marked, closed_up_to, left_of, rest_added, text_added, text_part};
use crate::blocks::Blocks;
use crate::ctype::{
    blank_byte, blanks, digits, lemma_run_end, line_end_byte, only, run_end, space_byte, spaces,
};
use crate::cursor::{
    advanced, break_bytes, byte_width, column_after, count_of, lemma_advanced_bytes,
    lemma_advanced_in_line, lemma_byte_width, lemma_with_nonspace, thematic_break, with_nonspace,
    CursorView,
};
use crate::document::{blocks_of, countable_text, document_may_be, Replies};
use crate::independence::{law_tree_of_blocks, settled_replies};
use crate::lines::{
    at_start, cut, front_of, lemma_cut_plain, lemma_replacement, line_processed, lines_processed,
    plain_byte, replacement, starts_with_mark, text_processed, with_line_feed,
};
use crate::markers::{list_marker, marker_digits_end, number};
use crate::matching::checked;
use crate::nesting::{in_document, lemma_child_nested, lemma_one_opened_nested, nested};
use crate::nodes::Value;
use crate::opening::{
    all_opened, atx_heading, behind_marker, fence_block, indented_block, moved_to, one_opened,
    opened, takes_rest,
};
use crate::options::ComrakOptions;
use crate::parser::{starting, ParserView};
use crate::pieces::{
    all_lines, law_blocks_of_lines, lemma_cut_shifted, lemma_lines_aside, lemma_lines_concat,
    reference_limit,
};
use crate::prefixes::{past_blanks, past_one_blank};
use crate::scanners::{footnote_label_end, footnote_start, label_bytes};
use crate::starts::{block_start, ends_with_paragraph, lemma_block_start, rest_of, BlockStart};
use crate::strings::{end_without, hashes, lemma_end_without, rtrimmed, without_closing_hashes};
use crate::tree::{fresh, last_child, linked, Nodes};
use vstd::prelude::*;

verus! {

/// Whether `d` stands `k` bytes further on than `c`, at the same column.
///
/// What is known of thematic breaks leads to the same looks for them.
spec fn beyond(c: CursorView, d: CursorView, k: int) -> bool {
    &&& d.offset == c.offset + k
    &&& d.column == c.column
    &&& d.partially_consumed_tab == c.partially_consumed_tab
    &&& d.thematic_break_kill_pos == c.thematic_break_kill_pos + k || (
    c.thematic_break_kill_pos <= 0 && d.thematic_break_kill_pos <= k)
}

/// Whether `d` has looked up the same as `c` moreover, `k` bytes further on.
spec fn found_beyond(c: CursorView, d: CursorView, k: int) -> bool {
    &&& beyond(c, d, k)
    &&& d.first_nonspace == c.first_nonspace + k
    &&& d.first_nonspace_column == c.first_nonspace_column
    &&& d.indent == c.indent
    &&& d.blank == c.blank
}

/// Runs end where they do behind more bytes.
proof fn lemma_run_end_beyond(a: Seq<u8>, s: Seq<u8>, i: int, f: spec_fn(u8) -> bool)
    requires
        0 <= i,
    ensures
        run_end(a + s, a.len() + i, f) == a.len() + run_end(s, i, f),
    decreases s.len() - i,
{
    if i < s.len() {
        assert((a + s)[a.len() + i] == s[i]);
        if f(s[i]) {
            lemma_run_end_beyond(a, s, i + 1, f);
        }
    }
}

/// Columns are counted as they are behind more bytes.
proof fn lemma_column_after_beyond(a: Seq<u8>, s: Seq<u8>, i: int, j: int, column: int)
    requires
        0 <= i,
        j <= s.len(),
    ensures
        column_after(a + s, a.len() + i, a.len() + j, column) == column_after(s, i, j, column),
    decreases j - i,
{
    if i < j {
        assert((a + s)[a.len() + i] == s[i]);
        lemma_column_after_beyond(a, s, i + 1, j, column + byte_width(s[i], column));
    }
}

/// Advances are the same behind more bytes.
proof fn lemma_advanced_beyond(
    a: Seq<u8>,
    s: Seq<u8>,
    c: CursorView,
    d: CursorView,
    count: int,
    columns: bool,
)
    requires
        beyond(c, d, a.len() as int),
        0 <= c.offset,
    ensures
        beyond(
            advanced(c, s, count, columns),
            advanced(d, a + s, count, columns),
            a.len() as int,
        ),
        found_beyond(c, d, a.len() as int) ==> found_beyond(
            advanced(c, s, count, columns),
            advanced(d, a + s, count, columns),
            a.len() as int,
        ),
    decreases count,
{
    if count > 0 && c.offset < s.len() {
        assert((a + s)[d.offset] == s[c.offset]);
        let width = byte_width(s[c.offset], c.column);
        if !(columns && width > count) {
            let next = CursorView {
                offset: c.offset + 1,
                column: c.column + width,
                partially_consumed_tab: false,
                ..c
            };
            let next_d = CursorView {
                offset: d.offset + 1,
                column: d.column + width,
                partially_consumed_tab: false,
                ..d
            };
            if !columns {
                lemma_advanced_beyond(a, s, next, next_d, count - 1, false);
            } else if width >= 1 {
                lemma_advanced_beyond(a, s, next, next_d, count - width, true);
            }
        }
    }
}

/// What is looked up is the same behind more bytes.
proof fn lemma_lookup_beyond(a: Seq<u8>, s: Seq<u8>, c: CursorView, d: CursorView)
    requires
        beyond(c, d, a.len() as int),
        0 <= c.offset <= s.len(),
    ensures
        found_beyond(with_nonspace(c, s), with_nonspace(d, a + s), a.len() as int),
{
    lemma_run_end(s, c.offset, blanks());
    lemma_run_end_beyond(a, s, c.offset, blanks());
    let first = run_end(s, c.offset, blanks());
    lemma_column_after_beyond(a, s, c.offset, first, c.column);
    if first < s.len() {
        assert((a + s)[a.len() + first] == s[first]);
    }
}

/// As many bytes are counted behind more bytes.
proof fn lemma_count_of_beyond(a: Seq<u8>, s: Seq<u8>, c: u8, i: int, j: int)
    requires
        0 <= i,
        j <= s.len(),
    ensures
        count_of(a + s, c, a.len() + i, a.len() + j) == count_of(s, c, i, j),
    decreases j - i,
{
    if i < j {
        assert((a + s)[a.len() + j - 1] == s[j - 1]);
        lemma_count_of_beyond(a, s, c, i, j - 1);
    }
}

/// Thematic breaks are the same behind more bytes.
proof fn lemma_break_beyond(a: Seq<u8>, s: Seq<u8>, i: int)
    requires
        0 <= i < s.len(),
    ensures
        thematic_break(a + s, a.len() + i).1 == thematic_break(s, i).1,
        !thematic_break(s, i).1 ==> thematic_break(a + s, a.len() + i).0 == a.len()
            + thematic_break(s, i).0,
{
    assert((a + s)[a.len() + i] == s[i]);
    let c = s[i];
    lemma_run_end(s, i, break_bytes(c));
    lemma_run_end_beyond(a, s, i, break_bytes(c));
    let e = run_end(s, i, break_bytes(c));
    lemma_count_of_beyond(a, s, c, i, e);
    if e < s.len() {
        assert((a + s)[a.len() + e] == s[e]);
    }
}

/// Numbers are the same behind more bytes.
proof fn lemma_number_beyond(a: Seq<u8>, s: Seq<u8>, i: int, j: int)
    requires
        0 <= i,
        j <= s.len(),
    ensures
        number(a + s, a.len() + i, a.len() + j) == number(s, i, j),
    decreases j - i,
{
    if i < j {
        assert((a + s)[a.len() + j - 1] == s[j - 1]);
        lemma_number_beyond(a, s, i, j - 1);
    }
}

/// List markers are the same behind more bytes, and more of the line follows them.
proof fn lemma_marker_beyond(a: Seq<u8>, s: Seq<u8>, i: int, interrupts: bool)
    requires
        0 <= i < s.len(),
        s.last() == 10,
    ensures
        list_marker(a + s, a.len() + i, interrupts) == list_marker(s, i, interrupts),
        list_marker(s, i, interrupts) matches Some((n, _)) ==> i + n < s.len(),
{
    let k = a.len() as int;
    let t = a + s;
    assert(t[k + i] == s[i]);
    if i + 1 < s.len() {
        assert(t[k + i + 1] == s[i + 1]);
        lemma_run_end(s, i + 1, blanks());
        lemma_run_end_beyond(a, s, i + 1, blanks());
        let b = run_end(s, i + 1, blanks());
        assert(b < s.len()) by {
            if b == s.len() {
                assert(blanks()(s[s.len() - 1]));
            }
        }
        assert(t[k + b] == s[b]);
    }
    let f = digits();
    lemma_run_end(s, i, f);
    lemma_run_end_beyond(a, s, i, f);
    let e = marker_digits_end(s, i);
    assert(run_end(s, i, f) < s.len()) by {
        if run_end(s, i, f) == s.len() {
            assert(f(s[s.len() - 1]));
        }
    }
    assert(i <= e < s.len());
    assert(marker_digits_end(t, k + i) == k + e);
    assert(t[k + e] == s[e]);
    lemma_number_beyond(a, s, i, e);
    if e + 1 < s.len() {
        assert(t[k + e + 1] == s[e + 1]);
        lemma_run_end(s, e + 1, blanks());
        lemma_run_end_beyond(a, s, e + 1, blanks());
        let b = run_end(s, e + 1, blanks());
        assert(b < s.len()) by {
            if b == s.len() {
                assert(blanks()(s[s.len() - 1]));
            }
        }
        assert(t[k + b] == s[b]);
    }
}

/// Whether the cursor stands in a line before its line feed, or at it.
spec fn before_end(c: CursorView, line: Seq<u8>) -> bool {
    c.in_line(line) && c.offset < line.len() && line.last() == 10
}

/// One blank more is passed in the line.
proof fn lemma_blank_passed(c: CursorView, line: Seq<u8>)
    requires
        before_end(c, line),
        blank_byte(line[c.offset]),
    ensures
        before_end(advanced(c, line, 1, true), line),
{
    lemma_advanced_in_line(c, line, 1, true);
    lemma_byte_width(line[c.offset], c.column);
    let width = byte_width(line[c.offset], c.column);
    if width == 1 {
        let next = CursorView {
            offset: c.offset + 1,
            column: c.column + 1,
            partially_consumed_tab: false,
            ..c
        };
        assert(advanced(next, line, 0, true) == next);
    }
}

/// A blank is passed the same behind more bytes.
proof fn lemma_one_blank_beyond(a: Seq<u8>, s: Seq<u8>, c: CursorView, d: CursorView)
    requires
        beyond(c, d, a.len() as int),
        before_end(c, s),
    ensures
        beyond(past_one_blank(c, s), past_one_blank(d, a + s), a.len() as int),
        before_end(past_one_blank(c, s), s),
{
    assert((a + s)[d.offset] == s[c.offset]);
    lemma_advanced_beyond(a, s, c, d, 1, true);
    if blank_byte(s[c.offset]) {
        lemma_blank_passed(c, s);
    }
}

/// Blanks are passed the same behind more bytes.
proof fn lemma_blanks_beyond(a: Seq<u8>, s: Seq<u8>, c: CursorView, d: CursorView, n: int)
    requires
        beyond(c, d, a.len() as int),
        before_end(c, s),
    ensures
        beyond(past_blanks(c, s, n), past_blanks(d, a + s, n), a.len() as int),
        before_end(past_blanks(c, s, n), s),
    decreases n,
{
    assert((a + s)[d.offset] == s[c.offset]);
    if n > 0 && blank_byte(s[c.offset]) {
        lemma_advanced_beyond(a, s, c, d, 1, true);
        lemma_blank_passed(c, s);
        lemma_blanks_beyond(
            a,
            s,
            advanced(c, s, 1, true),
            advanced(d, a + s, 1, true),
            n - 1,
        );
    }
}

/// The contents of an item start at the same place behind more bytes.
proof fn lemma_behind_marker_beyond(a: Seq<u8>, s: Seq<u8>, c: CursorView, d: CursorView)
    requires
        beyond(c, d, a.len() as int),
        before_end(c, s),
    ensures
        beyond(behind_marker(c, s).0, behind_marker(d, a + s).0, a.len() as int),
        behind_marker(d, a + s).1 == behind_marker(c, s).1,
        before_end(behind_marker(c, s).0, s),
{
    lemma_blanks_beyond(a, s, c, d, 6);
    lemma_advanced_beyond(a, s, c, d, 1, true);
    let e = past_blanks(c, s, 6);
    assert((a + s)[a.len() + e.offset] == s[e.offset]);
    if blank_byte(s[c.offset]) {
        lemma_blank_passed(c, s);
    } else {
        assert(e == c);
    }
}

/// Whether the cursor stands in a line before its line feed, or at it, and has looked up.
spec fn at_start_of(c: CursorView, line: Seq<u8>) -> bool {
    &&& before_end(c, line)
    &&& c.offset <= c.first_nonspace < line.len()
    &&& line.len() <= usize::MAX
}

/// Whether what follows a start is in the line, where the line can go on behind it.
spec fn rest_follows(start: BlockStart, c: CursorView, line: Seq<u8>) -> bool {
    let at = c.first_nonspace;
    match start {
        BlockStart::Quote | BlockStart::Details => at + 1 < line.len(),
        BlockStart::Footnote(n, e) => 2 <= e <= n && at + n < line.len(),
        BlockStart::Item(n, _) => at + n < line.len(),
        _ => true,
    }
}

/// A footnote definition does not take its line feed.
proof fn lemma_footnote_follows(rest: Seq<u8>)
    requires
        rest.len() > 0,
        rest.last() == 10,
        footnote_start(rest) is Some,
    ensures
        2 <= footnote_label_end(rest) <= footnote_start(rest)->0 < rest.len(),
{
    let e = footnote_label_end(rest);
    lemma_run_end(rest, 2, label_bytes());
    lemma_run_end(rest, e + 2, blanks());
    let n = run_end(rest, e + 2, blanks());
    if n == rest.len() {
        if n > e + 2 {
            assert(blanks()(rest[n - 1]));
        }
    }
}

/// The same starts behind more bytes.
#[verifier::rlimit(60)]
proof fn lemma_start_beyond(
    a: Seq<u8>,
    s: Seq<u8>,
    c: CursorView,
    d: CursorView,
    in_paragraph: bool,
    after_paragraph: bool,
    all_matched: bool,
    maybe_lazy: bool,
    o: ComrakOptions,
)
    requires
        found_beyond(c, d, a.len() as int),
        at_start_of(c, s),
    ensures
        ({
            let (start, e) = block_start(
                in_paragraph,
                after_paragraph,
                c,
                s,
                all_matched,
                maybe_lazy,
                o,
            );
            let (other, f) = block_start(
                in_paragraph,
                after_paragraph,
                d,
                a + s,
                all_matched,
                maybe_lazy,
                o,
            );
            &&& other == start
            &&& found_beyond(e, f, a.len() as int)
            &&& at_start_of(e, s)
            &&& rest_follows(start, e, s)
        }),
{
    reveal(block_start);
    let at = c.first_nonspace;
    let rest = rest_of(c, s);
    assert(rest_of(d, a + s) =~= rest);
    assert((a + s)[d.first_nonspace] == s[at]);
    assert(rest.last() == 10);
    if footnote_start(rest) is Some {
        lemma_footnote_follows(rest);
    }
    lemma_break_beyond(a, s, at);
    lemma_run_end(s, at, break_bytes(s[at]));
    lemma_marker_beyond(a, s, at, in_paragraph);
}

/// Whether the same is opened behind more bytes.
spec fn opened_alike(
    a: Seq<u8>,
    s: Seq<u8>,
    p: ParserView,
    d: CursorView,
    i: int,
    start: BlockStart,
) -> bool {
    let (q, r) = opened(p, i, start, s);
    let (other, j) = opened(ParserView { cursor: d, ..p }, i, start, a + s);
    &&& j == r
    &&& other == ParserView { cursor: other.cursor, ..q }
    &&& beyond(q.cursor, other.cursor, a.len() as int)
    &&& q.cursor.in_line(s)
    &&& r matches Some(j) ==> takes_rest(q.blocks.nodes[j].value) || q.cursor.offset
        < s.len()
}

/// Whether `start` can be opened alike behind more bytes.
spec fn can_open_alike(
    a: Seq<u8>,
    s: Seq<u8>,
    p: ParserView,
    d: CursorView,
    i: int,
    start: BlockStart,
) -> bool {
    &&& found_beyond(p.cursor, d, a.len() as int)
    &&& at_start_of(p.cursor, s)
    &&& rest_follows(start, p.cursor, s)
    &&& start is Setext ==> p.blocks.nodes[i].value is Paragraph
    &&& nested(p.blocks.nodes)
    &&& in_document(p.blocks.nodes, i)
}

/// Blocks that take the rest of the line are opened alike.
#[verifier::rlimit(60)]
proof fn lemma_leaf_opened_beyond(
    a: Seq<u8>,
    s: Seq<u8>,
    p: ParserView,
    d: CursorView,
    i: int,
    start: BlockStart,
)
    requires
        can_open_alike(a, s, p, d, i, start),
        start is Atx || start is Fence || start is Html || start is Indented,
    ensures
        opened_alike(a, s, p, d, i, start),
{
    reveal(opened);
    let k = a.len() as int;
    let c = p.cursor;
    let at = c.first_nonspace;
    let p2 = ParserView { cursor: d, ..p };
    assert(p2.info() == p.info());
    let b = p.blocks;
    let n = p.line_number;
    match start {
        BlockStart::Atx(m) => {
            lemma_advanced_beyond(a, s, c, d, at + m - c.offset, false);
            lemma_advanced_in_line(c, s, at + m - c.offset, false);
            lemma_run_end_beyond(a, s, at, only(35));
            assert(atx_heading(a + s, at + k) == atx_heading(s, at));
            lemma_child_nested(b, i, Value::Heading(atx_heading(s, at)), n, p.info());
        },
        BlockStart::Fence(m) => {
            lemma_advanced_beyond(a, s, c, d, at + m - c.offset, false);
            lemma_advanced_in_line(c, s, at + m - c.offset, false);
            assert((a + s)[at + k] == s[at]);
            assert(fence_block(d, a + s, m) == fence_block(c, s, m));
            lemma_child_nested(b, i, Value::CodeBlock(fence_block(c, s, m)), n, p.info());
        },
        BlockStart::Indented => {
            lemma_advanced_beyond(a, s, c, d, 4, true);
            lemma_advanced_in_line(c, s, 4, true);
            lemma_child_nested(b, i, Value::CodeBlock(indented_block()), n, p.info());
        },
        BlockStart::Html(m) => {
            lemma_child_nested(b, i, Value::HtmlBlock(m, seq![]), n, p.info());
        },
        _ => {},
    }
}

/// Blocks in which the line goes on are opened alike.
#[verifier::rlimit(60)]
proof fn lemma_container_opened_beyond(
    a: Seq<u8>,
    s: Seq<u8>,
    p: ParserView,
    d: CursorView,
    i: int,
    start: BlockStart,
)
    requires
        can_open_alike(a, s, p, d, i, start),
        start is Quote || start is Details || start is Footnote || start is Item,
    ensures
        opened_alike(a, s, p, d, i, start),
{
    reveal(opened);
    let k = a.len() as int;
    let c = p.cursor;
    let at = c.first_nonspace;
    let p2 = ParserView { cursor: d, ..p };
    assert(p2.info() == p.info());
    let n: int = match start {
        BlockStart::Footnote(n, _) => n as int,
        BlockStart::Item(n, _) => n as int,
        _ => 1,
    };
    lemma_advanced_beyond(a, s, c, d, at + n - c.offset, false);
    lemma_advanced_in_line(c, s, at + n - c.offset, false);
    lemma_advanced_bytes(c, s, at + n - c.offset);
    let e = moved_to(c, s, at + n);
    let f = moved_to(d, a + s, at + k + n);
    match start {
        BlockStart::Footnote(_, m) => {
            assert((a + s).subrange(at + k + 2, at + k + m) =~= s.subrange(at + 2, at + m));
        },
        BlockStart::Item(_, _) => {
            lemma_behind_marker_beyond(a, s, e, f);
        },
        _ => {
            lemma_one_blank_beyond(a, s, e, f);
        },
    }
}

/// Blocks that leave nothing of the line, and tables, are opened alike.
#[verifier::rlimit(60)]
proof fn lemma_rest_opened_beyond(
    a: Seq<u8>,
    s: Seq<u8>,
    p: ParserView,
    d: CursorView,
    i: int,
    start: BlockStart,
)
    requires
        can_open_alike(a, s, p, d, i, start),
        start is Setext || start is Break || start is Other,
    ensures
        opened_alike(a, s, p, d, i, start),
{
    reveal(opened);
    let k = a.len() as int;
    let c = p.cursor;
    let at = c.first_nonspace;
    let p2 = ParserView { cursor: d, ..p };
    assert(p2.info() == p.info());
    let last = s.len() - 1;
    lemma_advanced_beyond(a, s, c, d, last - c.offset, false);
    lemma_advanced_in_line(c, s, last - c.offset, false);
    lemma_advanced_bytes(c, s, last - c.offset);
    assert(rest_of(d, a + s) =~= rest_of(c, s));
}

/// The same is opened behind more bytes.
proof fn lemma_opened_beyond(
    a: Seq<u8>,
    s: Seq<u8>,
    p: ParserView,
    d: CursorView,
    i: int,
    start: BlockStart,
)
    requires
        can_open_alike(a, s, p, d, i, start),
    ensures
        opened_alike(a, s, p, d, i, start),
{
    match start {
        BlockStart::Quote | BlockStart::Details => {
            lemma_container_opened_beyond(a, s, p, d, i, start);
        },
        BlockStart::Footnote(_, _) | BlockStart::Item(_, _) => {
            lemma_container_opened_beyond(a, s, p, d, i, start);
        },
        BlockStart::Setext(_) | BlockStart::Break | BlockStart::Other => {
            lemma_rest_opened_beyond(a, s, p, d, i, start);
        },
        _ => {
            lemma_leaf_opened_beyond(a, s, p, d, i, start);
        },
    }
}

/// One step opens the same behind more bytes.
proof fn lemma_one_opened_beyond(
    a: Seq<u8>,
    s: Seq<u8>,
    p: ParserView,
    d: CursorView,
    i: int,
    all_matched: bool,
    maybe_lazy: bool,
)
    requires
        beyond(p.cursor, d, a.len() as int),
        before_end(p.cursor, s),
        s.len() <= usize::MAX,
        nested(p.blocks.nodes),
        in_document(p.blocks.nodes, i),
    ensures
        ({
            let (q, r) = one_opened(p, i, s, all_matched, maybe_lazy);
            let (other, j) = one_opened(
                ParserView { cursor: d, ..p },
                i,
                a + s,
                all_matched,
                maybe_lazy,
            );
            &&& j == r
            &&& other == ParserView { cursor: other.cursor, ..q }
            &&& beyond(q.cursor, other.cursor, a.len() as int)
            &&& q.cursor.in_line(s)
            &&& r matches Some(j) ==> takes_rest(q.blocks.nodes[j].value) || q.cursor.offset
                < s.len()
        }),
{
    let t = p.blocks.nodes;
    let c = with_nonspace(p.cursor, s);
    lemma_with_nonspace(p.cursor, s);
    lemma_run_end(s, p.cursor.offset, blanks());
    lemma_lookup_beyond(a, s, p.cursor, d);
    let in_paragraph = t[i].value is Paragraph;
    let after = ends_with_paragraph(t, i);
    let other = with_nonspace(d, a + s);
    let o = p.options;
    lemma_start_beyond(a, s, c, other, in_paragraph, after, all_matched, maybe_lazy, o);
    lemma_block_start(in_paragraph, after, c, s, all_matched, maybe_lazy, o);
    let (start, e) = block_start(in_paragraph, after, c, s, all_matched, maybe_lazy, o);
    let (_, f) = block_start(in_paragraph, after, other, a + s, all_matched, maybe_lazy, o);
    lemma_opened_beyond(a, s, ParserView { cursor: e, ..p }, f, i, start);
}

/// The same blocks are opened behind more bytes.
proof fn lemma_all_opened_beyond(
    a: Seq<u8>,
    s: Seq<u8>,
    p: ParserView,
    d: CursorView,
    i: int,
    all_matched: bool,
    maybe_lazy: bool,
)
    requires
        beyond(p.cursor, d, a.len() as int),
        before_end(p.cursor, s),
        s.len() <= usize::MAX,
        nested(p.blocks.nodes),
        in_document(p.blocks.nodes, i),
    ensures
        ({
            let (q, j) = all_opened(p, i, s, all_matched, maybe_lazy);
            let (other, k) = all_opened(
                ParserView { cursor: d, ..p },
                i,
                a + s,
                all_matched,
                maybe_lazy,
            );
            &&& k == j
            &&& other == ParserView { cursor: other.cursor, ..q }
            &&& beyond(q.cursor, other.cursor, a.len() as int)
            &&& q.cursor.in_line(s)
        }),
    decreases s.len() - p.cursor.offset,
{
    let v = p.blocks.nodes[i].value;
    if !(v is CodeBlock || v is HtmlBlock) {
        lemma_one_opened_beyond(a, s, p, d, i, all_matched, maybe_lazy);
        lemma_one_opened_nested(p, i, s, all_matched, maybe_lazy);
        let p2 = ParserView { cursor: d, ..p };
        let (q, r) = one_opened(p, i, s, all_matched, maybe_lazy);
        let (other, _) = one_opened(p2, i, a + s, all_matched, maybe_lazy);
        match r {
            Some(j) => {
                if !takes_rest(q.blocks.nodes[j].value) && p.cursor.offset < q.cursor.offset
                    <= s.len() {
                    assert((a + s).len() == a.len() + s.len());
                    lemma_all_opened_beyond(a, s, q, other.cursor, j, all_matched, false);
                }
            },
            None => {},
        }
    }
}

/// Whether `a` ends with a byte that is neither white space nor a hash.
spec fn ends_plainly(a: Seq<u8>) -> bool {
    a.len() > 0 && !space_byte(a.last()) && a.last() != 35 && !blank_byte(a.last())
}

/// What a class leaves over at the end is the same behind more bytes.
proof fn lemma_end_without_beyond(a: Seq<u8>, s: Seq<u8>, n: int, f: spec_fn(u8) -> bool)
    requires
        0 <= n <= s.len(),
        a.len() > 0,
        !f(a.last()),
    ensures
        end_without(a + s, a.len() + n, f) == a.len() + end_without(s, n, f),
    decreases n,
{
    if n > 0 {
        assert((a + s)[a.len() + n - 1] == s[n - 1]);
        if f(s[n - 1]) {
            lemma_end_without_beyond(a, s, n - 1, f);
        }
    } else {
        assert((a + s)[a.len() - 1] == a.last());
    }
}

/// White space is trimmed at the end as it is behind more bytes.
proof fn lemma_rtrimmed_beyond(a: Seq<u8>, s: Seq<u8>)
    requires
        ends_plainly(a),
    ensures
        rtrimmed(a + s) == a + rtrimmed(s),
{
    lemma_end_without(s, s.len() as int, spaces());
    lemma_end_without_beyond(a, s, s.len() as int, spaces());
    assert(rtrimmed(a + s) =~= a + rtrimmed(s));
}

/// Closing hashes are taken off as they are behind more bytes.
proof fn lemma_closing_hashes_beyond(a: Seq<u8>, s: Seq<u8>)
    requires
        ends_plainly(a),
    ensures
        without_closing_hashes(a + s) == a + without_closing_hashes(s),
{
    let t = rtrimmed(s);
    lemma_rtrimmed_beyond(a, s);
    lemma_end_without(t, t.len() as int, hashes());
    lemma_end_without_beyond(a, t, t.len() as int, hashes());
    let n = end_without(t, t.len() as int, hashes());
    if n > 0 {
        assert((a + t)[a.len() + n - 1] == t[n - 1]);
        assert((a + t).subrange(0, a.len() + n - 1) =~= a + t.subrange(0, n - 1));
        lemma_rtrimmed_beyond(a, t.subrange(0, n - 1));
    } else {
        assert((a + t)[a.len() - 1] == a.last());
    }
}

/// The same is left of a line behind more bytes.
proof fn lemma_left_beyond(a: Seq<u8>, s: Seq<u8>, c: CursorView, d: CursorView)
    requires
        beyond(c, d, a.len() as int),
        0 <= c.offset <= s.len(),
        c.partially_consumed_tab ==> c.offset < s.len(),
    ensures
        left_of(d, a + s) == left_of(c, s),
{
    if c.partially_consumed_tab {
        assert((a + s).subrange(d.offset + 1, (a + s).len() as int) =~= s.subrange(
            c.offset + 1,
            s.len() as int,
        ));
    } else {
        assert((a + s).subrange(d.offset, (a + s).len() as int) =~= s.subrange(
            c.offset,
            s.len() as int,
        ));
    }
}

/// The rest of a line is added the same behind more bytes.
#[verifier::rlimit(60)]
proof fn lemma_rest_added_beyond(a: Seq<u8>, s: Seq<u8>, p: ParserView, d: CursorView, i: int)
    requires
        found_beyond(p.cursor, d, a.len() as int),
        p.cursor.in_line(s),
        p.cursor.offset <= p.cursor.first_nonspace,
        p.cursor.partially_consumed_tab ==> p.cursor.offset < p.cursor.first_nonspace,
        ends_plainly(a),
    ensures
        ({
            let q = rest_added(p, i, s);
            let other = rest_added(ParserView { cursor: d, ..p }, i, a + s);
            other == ParserView { cursor: other.cursor, ..q }
        }),
{
    let k = a.len() as int;
    let c = p.cursor;
    let at = c.first_nonspace;
    let p2 = ParserView { cursor: d, ..p };
    assert(p2.info() == p.info());
    lemma_left_beyond(a, s, c, d);
    assert(rest_of(d, a + s) =~= rest_of(c, s));
    lemma_advanced_beyond(a, s, c, d, at - c.offset, false);
    lemma_advanced_bytes(c, s, at - c.offset);
    lemma_left_beyond(a, s, moved_to(c, s, at), moved_to(d, a + s, at + k));
    let v = p.blocks.nodes[i].value;
    let text = text_part(v, s);
    lemma_closing_hashes_beyond(a, s);
    assert(text_part(v, a + s) == a + text);
    if at <= text.len() {
        lemma_advanced_beyond(a, text, c, d, at - c.offset, false);
        lemma_advanced_bytes(c, text, at - c.offset);
        lemma_left_beyond(a, text, moved_to(c, text, at), moved_to(d, a + text, at + k));
    }
}

/// A line is added the same behind more bytes.
#[verifier::rlimit(60)]
proof fn lemma_text_added_beyond(
    a: Seq<u8>,
    s: Seq<u8>,
    p: ParserView,
    d: CursorView,
    i: int,
    m: int,
)
    requires
        beyond(p.cursor, d, a.len() as int),
        p.cursor.in_line(s),
        ends_plainly(a),
    ensures
        ({
            let q = text_added(p, i, m, s);
            let other = text_added(ParserView { cursor: d, ..p }, i, m, a + s);
            other == ParserView { cursor: other.cursor, ..q }
        }),
{
    let p2 = ParserView { cursor: d, ..p };
    assert(p2.info() == p.info());
    lemma_with_nonspace(p.cursor, s);
    lemma_run_end(s, p.cursor.offset, blanks());
    lemma_lookup_beyond(a, s, p.cursor, d);
    let c = with_nonspace(p.cursor, s);
    let e = with_nonspace(d, a + s);
    if c.partially_consumed_tab {
        assert(blanks()(s[c.offset]));
        assert(run_end(s, c.offset, blanks()) >= c.offset + 1) by {
            lemma_run_end(s, c.offset + 1, blanks());
        }
    }
    lemma_left_beyond(a, s, c, e);
    let t = p.blocks.nodes;
    let q = ParserView {
        blocks: Blocks { nodes: blanks_marked(t, i, c.blank, p.line_number), ..p.blocks },
        cursor: c,
        ..p
    };
    let r = ParserView { blocks: closed_up_to(q.blocks, p.current, m, p.info()), ..q };
    lemma_rest_added_beyond(a, s, r, e, i);
}

/// A byte order mark.
pub open spec fn mark() -> Seq<u8> {
    seq![239u8, 187u8, 191u8]
}

/// The first line of a document is read the same behind a byte order mark.
#[verifier::rlimit(60)]
proof fn lemma_first_line_marked(p: ParserView, line: Seq<u8>)
    requires
        p.blocks.nodes == seq![fresh(Value::Document, 0)],
        p.current == 0,
        p.line_number == 0,
        line.len() < usize::MAX,
        !starts_with_mark(with_line_feed(line)),
    ensures
        ({
            let q = line_processed(p, line);
            let r = line_processed(p, mark() + line);
            r == ParserView { cursor: r.cursor, last_line_length: r.last_line_length, ..q }
        }),
{
    reveal(text_processed);
    let t = p.blocks.nodes;
    let s = with_line_feed(line);
    let a = mark();
    assert(with_line_feed(a + line) =~= a + s);
    assert(starts_with_mark(a + s));
    let c = at_start(s, 0);
    let d = at_start(a + s, 0);
    assert(beyond(c, d, 3));
    let q = ParserView { cursor: c, line_number: 1, ..p };
    let r = ParserView { cursor: d, line_number: 1, ..p };
    assert(last_child(t, 0) is None);
    assert(checked(q, s) == (q, Some((0int, true))));
    assert(checked(r, a + s) == (r, Some((0int, true))));
    assert(linked(t, 0));
    assert(nested(t));
    assert(in_document(t, 0));
    lemma_all_opened_beyond(a, s, q, d, 0, true, false);
    let (u, i) = all_opened(q, 0, s, true, false);
    let (v, _) = all_opened(r, 0, a + s, true, false);
    lemma_text_added_beyond(a, s, u, v.cursor, i, 0);
}

/// The line that comes first, whole or not.
spec fn first_of(s: Seq<u8>, i: int, buf: Seq<u8>) -> Seq<u8> {
    let (lines, rest) = cut(s, i, buf);
    if lines.len() > 0 {
        lines[0]
    } else {
        rest
    }
}

/// What was left before stands at the start of the first line, and changes nothing else.
proof fn lemma_cut_behind(s: Seq<u8>, i: int, x: Seq<u8>, buf: Seq<u8>)
    requires
        0 <= i,
    ensures
        ({
            let (lines, rest) = cut(s, i, buf);
            &&& cut(s, i, x + buf) == if lines.len() > 0 {
                (lines.update(0, x + lines[0]), rest)
            } else {
                (lines, x + rest)
            }
            &&& i < s.len() && lines.len() == 0 ==> rest.len() > 0
            &&& rest.len() >= buf.len() || lines.len() > 0
        }),
    decreases s.len() - i,
{
    if i < s.len() {
        lemma_replacement();
        if s[i] == 0 {
            lemma_cut_behind(s, i + 1, x, buf + replacement());
            assert(x + (buf + replacement()) =~= x + buf + replacement());
        } else if line_end_byte(s[i]) {
            let n = if s[i] == 13 && i + 1 < s.len() && s[i + 1] == 10 {
                i + 2
            } else {
                i + 1
            };
            let lines = cut(s, n, seq![]).0;
            assert((seq![buf] + lines).update(0, x + buf) =~= seq![x + buf] + lines);
        } else {
            lemma_cut_behind(s, i + 1, x, buf.push(s[i]));
            assert(x + buf.push(s[i]) =~= (x + buf).push(s[i]));
        }
    }
}

/// How the first line starts.
proof fn lemma_first_byte(s: Seq<u8>, i: int)
    requires
        0 <= i,
    ensures
        i >= s.len() || line_end_byte(s[i]) ==> first_of(s, i, seq![]).len() == 0,
        i < s.len() && s[i] == 0 ==> first_of(s, i, seq![]) == replacement() + first_of(
            s,
            i + 1,
            seq![],
        ),
        i < s.len() && plain_byte(s[i]) ==> first_of(s, i, seq![]) == seq![s[i]] + first_of(
            s,
            i + 1,
            seq![],
        ),
{
    let none: Seq<u8> = seq![];
    if i < s.len() {
        if s[i] == 0 {
            lemma_cut_behind(s, i + 1, replacement(), none);
            assert(none + replacement() =~= replacement() + none);
        } else if !line_end_byte(s[i]) {
            lemma_cut_behind(s, i + 1, seq![s[i]], none);
            assert(none.push(s[i]) =~= seq![s[i]] + none);
        }
    }
}

/// The first line starts with a byte order mark only where the text does.
proof fn lemma_first_line_unmarked(s: Seq<u8>)
    requires
        !starts_with_mark(s),
    ensures
        !starts_with_mark(with_line_feed(first_of(s, 0, seq![]))),
{
    let f = first_of(s, 0, seq![]);
    if starts_with_mark(with_line_feed(f)) {
        lemma_replacement();
        let g = first_of(s, 1, seq![]);
        let h = first_of(s, 2, seq![]);
        assert(f.len() >= 3 && f[0] == 239 && f[1] == 187 && f[2] == 191);
        lemma_first_byte(s, 0);
        assert(s.len() > 0 && s[0] == 239);
        assert(g[0] == f[1] && g[1] == f[2]);
        lemma_first_byte(s, 1);
        assert(s.len() > 1 && s[1] == 187);
        assert(h[0] == g[1]);
        lemma_first_byte(s, 2);
        assert(s.len() > 2 && s[2] == 191);
    }
}

/// A byte order mark at the start of a document is passed over: the blocks are those of the text
/// behind it. Where references may expand to as much with it as without, the same may come of
/// the text, and that is one tree where there is one reply to everything that is asked.
///
/// One mark is passed over, not a second one behind it, and some text is behind it.
pub proof fn law_mark_passed_over(
    s: Seq<u8>,
    o: ComrakOptions,
    replies: Replies,
    a: Nodes,
    b: Nodes,
)
    requires
        s.len() > 0,
        !starts_with_mark(s),
        countable_text(s.len() as int),
        front_of(starting(o), s) is None,
        front_of(starting(o), mark() + s) is None,
    ensures
        ({
            let m = mark() + s;
            &&& blocks_of(m, o).blocks == blocks_of(s, o).blocks
            &&& reference_limit(s.len() as int) == reference_limit(m.len() as int) ==> {
                &&& document_may_be(s, o, replies, a) == document_may_be(m, o, replies, a)
                &&& settled_replies(replies) && document_may_be(s, o, replies, a)
                    && document_may_be(m, o, replies, b) ==> a == b
            }
        }),
{
    let p = starting(o);
    let m = mark() + s;
    let none: Seq<u8> = seq![];
    let (lines, rest) = cut(s, 0, none);
    assert(none + m.subrange(0, 3) =~= mark());
    lemma_cut_plain(m, 0, 3, none);
    lemma_cut_shifted(mark(), s, 0, mark());
    assert(mark() + none =~= mark());
    lemma_cut_behind(s, 0, mark(), none);
    lemma_first_line_unmarked(s);
    lemma_first_line_fits(s, 0, none);
    let all = all_lines(s);
    let first = first_of(s, 0, none);
    let tail = all.skip(1);
    assert(all =~= seq![first] + tail);
    assert(all_lines(m) =~= seq![mark() + first] + tail);
    lemma_first_line_marked(p, first);
    let q = line_processed(p, first);
    let r = line_processed(p, mark() + first);
    lemma_lines_concat(p, seq![first], tail);
    lemma_lines_concat(p, seq![mark() + first], tail);
    reveal_with_fuel(lines_processed, 2);
    assert(seq![first].drop_last() =~= seq![]);
    assert(seq![mark() + first].drop_last() =~= seq![]);
    if tail.len() > 0 {
        lemma_lines_aside(q, tail, r.last_line_length, r.cursor);
    }
    assert(q.info() == r.info());
    law_blocks_of_lines(s, o);
    law_blocks_of_lines(m, o);
    if reference_limit(s.len() as int) == reference_limit(m.len() as int) {
        law_tree_of_blocks(blocks_of(s, o), blocks_of(m, o), replies, a, b);
    }
}

/// The first line is not longer than the text with every NUL replaced can be.
proof fn lemma_first_line_fits(s: Seq<u8>, i: int, buf: Seq<u8>)
    requires
        0 <= i <= s.len(),
    ensures
        first_of(s, i, buf).len() <= buf.len() + 3 * (s.len() - i),
    decreases s.len() - i,
{
    if i < s.len() {
        lemma_replacement();
        if s[i] == 0 {
            lemma_first_line_fits(s, i + 1, buf + replacement());
        } else if !line_end_byte(s[i]) {
            lemma_first_line_fits(s, i + 1, buf.push(s[i]));
        }
    }
}

} // verus!
