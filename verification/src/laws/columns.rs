//! How columns are counted, and how far a line goes on with what is open.

use crate::ctype::{blanks, lemma_run_end, run_end};
use crate::cursor::{
    advanced, byte_width, column_after, lemma_advanced_bytes, lemma_advanced_in_line,
    lemma_byte_width, lemma_column_after_bounds, lemma_looked_up, lemma_rest_of_tab,
    lemma_with_nonspace, with_nonspace, CursorView,
};
use crate::laws::words::{blank, law_classes, line_end, GREATER, LINE_FEED, RETURN, TAB};
use crate::matching::continued;
use crate::nodes::{CodeBlockView, NodeList, Value};
use crate::opening::behind_marker;
use crate::prefixes::past_blanks;
use crate::scanners::close_fence;
use crate::table::row_of;
use crate::tree::NodeView;
use vstd::prelude::*;

verus! {

/// A tab reaches to the next column that is a multiple of four, and any other byte takes one
/// column.
pub proof fn law_tab(line: Seq<u8>, i: int, column: int)
    requires
        0 <= i < line.len(),
        0 <= column,
    ensures
        ({
            let next = column_after(line, i, i + 1, column);
            &&& line[i] == TAB ==> next % 4 == 0 && column < next <= column + 4
            &&& line[i] != TAB ==> next == column + 1
        }),
{
    reveal_with_fuel(column_after, 2);
}

/// Columns add up.
pub proof fn law_columns_add_up(line: Seq<u8>, i: int, j: int, k: int, column: int)
    requires
        i <= j <= k,
    ensures
        column_after(line, i, i, column) == column,
        column_after(line, i, k, column) == column_after(
            line,
            j,
            k,
            column_after(line, i, j, column),
        ),
{
    crate::cursor::lemma_column_after_split(line, i, j, k, column);
}

/// What was looked up stays the same while blanks are passed, and comes a column nearer.
proof fn lemma_lookup_nearer(c: CursorView, line: Seq<u8>)
    requires
        c.in_line(line),
        c.offset < line.len(),
        line.last() == LINE_FEED,
        blank(line[c.offset]),
    ensures
        ({
            let d = advanced(c, line, 1, true);
            let before = with_nonspace(c, line);
            let after = with_nonspace(d, line);
            &&& d.in_line(line)
            &&& d.offset < line.len()
            &&& d.column == c.column + 1
            &&& after.first_nonspace == before.first_nonspace
            &&& after.first_nonspace_column == before.first_nonspace_column
            &&& after.indent == before.indent - 1
        }),
{
    lemma_advanced_in_line(c, line, 1, true);
    let b = line[c.offset];
    law_classes(b);
    lemma_byte_width(b, c.column);
    lemma_run_end(line, c.offset, blanks());
    lemma_run_end(line, c.offset + 1, blanks());
    let width = byte_width(b, c.column);
    assert(run_end(line, c.offset, blanks()) == run_end(line, c.offset + 1, blanks()));
    let first = run_end(line, c.offset, blanks());
    if width == 1 {
        let next = CursorView {
            offset: c.offset + 1,
            column: c.column + 1,
            partially_consumed_tab: false,
            ..c
        };
        assert(advanced(next, line, 0, true) == next);
    } else {
        lemma_rest_of_tab(c.column, 1);
        assert(advanced(c, line, 1, true).column == c.column + 1);
        assert(byte_width(b, c.column + 1) == width - 1);
    }
}

/// Blanks are passed column by column, as many as there are or are wanted.
proof fn lemma_blanks_passed(c: CursorView, line: Seq<u8>, n: int)
    requires
        c.in_line(line),
        c.offset < line.len(),
        line.last() == LINE_FEED,
        0 <= n,
    ensures
        ({
            let d = past_blanks(c, line, n);
            let i = with_nonspace(c, line).indent;
            let passed = if i < n {
                i
            } else {
                n
            };
            &&& d.in_line(line)
            &&& d.offset < line.len()
            &&& d.column == c.column + passed
            &&& with_nonspace(d, line).first_nonspace == with_nonspace(c, line).first_nonspace
            &&& with_nonspace(d, line).indent == i - passed
        }),
    decreases n,
{
    law_classes(line[c.offset]);
    lemma_run_end(line, c.offset, blanks());
    let first = run_end(line, c.offset, blanks());
    lemma_column_after_bounds(line, c.offset, first, c.column);
    if blank(line[c.offset]) {
        if n > 0 {
            lemma_lookup_nearer(c, line);
            lemma_blanks_passed(advanced(c, line, 1, true), line, n - 1);
        }
    } else {
        assert(first == c.offset);
        assert(with_nonspace(c, line).indent == 0);
    }
}

/// Contents of an item start behind the blanks that follow its marker, if these are from one to
/// four columns wide. If they are wider, or nothing follows, they start one column behind the
/// marker.
pub proof fn law_item_contents(c: CursorView, line: Seq<u8>)
    requires
        c.in_line(line),
        c.offset < line.len(),
        line.last() == LINE_FEED,
    ensures
        ({
            let there = with_nonspace(c, line);
            let next = line[there.first_nonspace];
            let (d, width) = behind_marker(c, line);
            if line_end(next) || there.indent > 4 {
                &&& width == 1
                &&& d.column == c.column + (if there.indent > 0 {
                    1int
                } else {
                    0
                })
            } else {
                there.indent >= 1 ==> width == there.indent && d.offset == there.first_nonspace
                    && d.column == c.column + there.indent
            }
        }),
{
    let there = with_nonspace(c, line);
    lemma_with_nonspace(c, line);
    law_classes(line.last());
    lemma_blanks_passed(c, line, 6);
    let d = past_blanks(c, line, 6);
    lemma_run_end(line, c.offset, blanks());
    law_classes(line[c.offset]);
    if there.indent <= 6 {
        let e = with_nonspace(d, line);
        lemma_run_end(line, d.offset, blanks());
        lemma_column_after_bounds(line, d.offset, e.first_nonspace, d.column);
        assert(d.offset == there.first_nonspace);
    }
    law_classes(line[there.first_nonspace]);
    lemma_column_after_bounds(line, c.offset, there.first_nonspace, c.column);
    if there.indent > 0 {
        assert(blank(line[c.offset]));
        lemma_lookup_nearer(c, line);
    }
}

/// A line goes on with a quote where a greater-than sign is, indented by no more than three
/// columns. The sign and a column of blanks behind it, if one is there, are passed.
pub proof fn law_quote_goes_on(n: NodeView, c: CursorView, line: Seq<u8>)
    requires
        n.value is BlockQuote,
        c.in_line(line),
        c.looked_up(line),
        c.first_nonspace < line.len(),
        line.last() == LINE_FEED,
    ensures
        ({
            let (prefix, d) = continued(n, c, line);
            let at = c.first_nonspace;
            &&& prefix is Matched <==> c.indent <= 3 && line[at] == GREATER
            &&& prefix is Matched && !blank(line[at + 1]) ==> d.offset == at + 1 && d.column
                == c.column + c.indent + 1
            &&& prefix is Matched && blank(line[at + 1]) ==> d.column == c.column + c.indent + 2
            &&& !(prefix is Matched) ==> d == c
        }),
{
    let at = c.first_nonspace;
    if c.indent <= 3 && line[at] == GREATER {
        lemma_looked_up(c, line);
        let m = advanced(c, line, c.indent, true);
        crate::cursor::law_advanced_columns(c, line, c.indent);
        lemma_column_after_bounds(line, c.offset, at, c.column);
        assert(at + 1 < line.len());
        crate::cursor::lemma_column_after_split(line, c.offset, at, line.len() as int, c.column);
        crate::cursor::lemma_column_after_split(
            line,
            at,
            at + 1,
            line.len() as int,
            column_after(line, c.offset, at, c.column),
        );
        lemma_column_after_bounds(
            line,
            at + 1,
            line.len() as int,
            column_after(line, c.offset, at, c.column) + 1,
        );
        reveal_with_fuel(column_after, 2);
        crate::cursor::law_advanced_in_steps(c, line, c.indent, 1, true);
        assert(m.offset == at);
        let e = CursorView {
            offset: at + 1,
            column: m.column + 1,
            partially_consumed_tab: false,
            ..m
        };
        assert(byte_width(line[at], m.column) == 1);
        assert(advanced(e, line, 0, true) == e);
        assert(advanced(m, line, 1, true) == e);
        assert(advanced(c, line, c.indent + 1, true) == e);
        law_classes(line[at + 1]);
        lemma_advanced_in_line(c, line, c.indent + 1, true);
        if blank(line[at + 1]) {
            lemma_lookup_nearer(e, line);
        }
    }
}

/// A line goes on with an item where it is indented as far as the contents of the item, or where it
/// is blank and the item has some. The columns up to the contents are passed.
pub proof fn law_item_goes_on(n: NodeView, nl: NodeList, c: CursorView, line: Seq<u8>)
    requires
        n.value == Value::Item(nl),
        c.in_line(line),
        c.looked_up(line),
    ensures
        ({
            let (prefix, d) = continued(n, c, line);
            let width = nl.marker_offset + nl.padding;
            &&& prefix is Matched <==> c.indent >= width || c.blank && n.children.len() > 0
            &&& c.indent >= width ==> d.column == c.column + width
            &&& prefix is Matched && c.indent < width ==> d.offset == c.first_nonspace
            &&& !(prefix is Closed)
        }),
{
    lemma_looked_up(c, line);
    let width = nl.marker_offset + nl.padding;
    if c.indent >= width {
        crate::cursor::law_advanced_columns(c, line, width);
    }
    lemma_advanced_bytes(c, line, c.first_nonspace - c.offset);
}

/// A line goes on with an indented code block where it is indented by four columns or blank. Four
/// columns are passed.
pub proof fn law_indented_goes_on(n: NodeView, b: CodeBlockView, c: CursorView, line: Seq<u8>)
    requires
        n.value == Value::CodeBlock(b),
        !b.fenced,
        c.in_line(line),
        c.looked_up(line),
    ensures
        ({
            let (prefix, d) = continued(n, c, line);
            &&& prefix is Matched <==> c.indent >= 4 || c.blank
            &&& c.indent >= 4 ==> d.column == c.column + 4
            &&& !(prefix is Closed)
        }),
{
    lemma_looked_up(c, line);
    if c.indent >= 4 {
        crate::cursor::law_advanced_columns(c, line, 4);
    }
}

/// A fence of the same kind closes a fenced code block, if it is at least as long as the one that
/// opened it and indented by no more than three columns. Any other line is in the block, and blanks
/// are passed at its start as far as the opening fence was indented.
pub proof fn law_fence_goes_on(n: NodeView, b: CodeBlockView, c: CursorView, line: Seq<u8>)
    requires
        n.value == Value::CodeBlock(b),
        b.fenced,
        b.fence_length >= 1,
        c.in_line(line),
        c.looked_up(line),
        c.offset < line.len(),
        line.last() == LINE_FEED,
        c.first_nonspace < line.len(),
    ensures
        ({
            let (prefix, d) = continued(n, c, line);
            let fence = close_fence(line.subrange(c.first_nonspace, line.len() as int));
            let closes = c.indent <= 3 && line[c.first_nonspace] == b.fence_char && (
            fence matches Some(m) && m >= b.fence_length);
            &&& prefix is Closed <==> closes
            &&& prefix is Matched <==> !closes
            &&& !closes ==> d.column == c.column + (if c.indent < b.fence_offset {
                c.indent
            } else {
                b.fence_offset as int
            })
        }),
{
    lemma_blanks_passed(c, line, b.fence_offset as int);
}

/// A line goes on with a paragraph where it is not blank, with a table where it can be read as a
/// row, and with a footnote where it is indented by four columns or empty. It never goes on with a
/// heading, and always with what holds blocks and has no prefix of its own.
pub proof fn law_others_go_on(n: NodeView, c: CursorView, line: Seq<u8>)
    requires
        c.in_line(line),
        c.looked_up(line),
    ensures
        ({
            let (prefix, d) = continued(n, c, line);
            &&& n.value is Paragraph ==> (prefix is Matched <==> !c.blank) && d == c
            &&& n.value is Table ==> (prefix is Matched <==> row_of(
                line.subrange(c.first_nonspace, line.len() as int),
            ) is Some) && d == c
            &&& n.value is FootnoteDefinition ==> (prefix is Matched <==> c.indent >= 4 || line
                == seq![LINE_FEED] || line == seq![RETURN, LINE_FEED]) && (c.indent >= 4
                    ==> d.column
                == c.column + 4)
            &&& n.value is Heading || n.value is TableRow || n.value is TableCell
                ==> prefix is Unmatched
            &&& n.value is List || n.value is Document || n.value is DescriptionList
                || n.value is DescriptionTerm || n.value is DescriptionDetails ==> prefix is Matched
                && d == c
            &&& n.value is HtmlBlock ==> d == c && !(prefix is Closed)
        }),
{
    lemma_looked_up(c, line);
    if c.indent >= 4 {
        crate::cursor::law_advanced_columns(c, line, 4);
    }
}

} // verus!
