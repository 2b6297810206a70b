//! What a line must start with for the blocks that are open to go on.

use crate::ctype::{blank_byte, is_space_or_tab};
use crate::cursor::{
    advanced, byte_width, countable, law_advanced_columns, law_advanced_in_steps,
    lemma_advanced_bytes, lemma_advanced_in_line, lemma_byte_width, lemma_column_after_bounds,
    lemma_looked_up, Cursor, CursorView, CODE_INDENT,
};
use crate::nodes::{CodeBlockView, NodeCodeBlock};
use crate::scanners::{close_code_fence, close_fence};
use crate::text::lemma_boundary_at_ascii;
use vstd::prelude::*;
use vstd::slice::slice_subrange;
use vstd::utf8::{is_char_boundary, valid_utf8};

verus! {

/// A line of text with its line feed.
pub open spec fn text_line(line: Seq<u8>) -> bool {
    &&& line.len() >= 1
    &&& line.last() == 10
    &&& valid_utf8(line)
    &&& countable(line)
}

impl CursorView {
    /// The cursor stands before the end of the line, at the start of a character.
    pub open spec fn ready(self, line: Seq<u8>) -> bool {
        &&& self.in_line(line)
        &&& self.offset < line.len()
        &&& is_char_boundary(line, self.offset)
    }

    /// The cursor stands at the end of the line, or at the start of a character of it.
    pub open spec fn placed(self, line: Seq<u8>) -> bool {
        &&& self.in_line(line)
        &&& self.offset < line.len() ==> is_char_boundary(line, self.offset)
    }

    /// Moreover, what it has looked up belongs to where it stands.
    pub open spec fn poised(self, line: Seq<u8>) -> bool {
        &&& self.ready(line)
        &&& self.looked_up(line)
    }
}

/// The cursor, moved on by one column where a space or a tab follows.
pub open spec fn past_one_blank(c: CursorView, line: Seq<u8>) -> CursorView {
    if blank_byte(line[c.offset]) {
        advanced(c, line, 1, true)
    } else {
        c
    }
}

/// The cursor, moved on by columns as long as spaces and tabs follow, but by at most `n`.
pub open spec fn past_blanks(c: CursorView, line: Seq<u8>, n: int) -> CursorView
    decreases n,
{
    if n > 0 && blank_byte(line[c.offset]) {
        past_blanks(advanced(c, line, 1, true), line, n - 1)
    } else {
        c
    }
}

/// Behind the `>` of a block quote, where the line goes on with one.
pub open spec fn quote_prefix(c: CursorView, line: Seq<u8>) -> Option<CursorView> {
    if c.indent <= 3 && line[c.first_nonspace] == 62 {
        Some(past_one_blank(advanced(c, line, c.indent + 1, true), line))
    } else {
        None
    }
}

/// Behind the indentation of a footnote definition, where the line goes on with one.
pub open spec fn footnote_prefix(c: CursorView, line: Seq<u8>) -> Option<CursorView> {
    if c.indent >= 4 {
        Some(advanced(c, line, 4, true))
    } else if line == seq![10u8] || line == seq![13u8, 10u8] {
        Some(c)
    } else {
        None
    }
}

/// Behind the indentation of an item whose contents start `width` columns in, where the line
/// goes on with it: indented that far or, if the item has contents, blank.
pub open spec fn item_prefix(
    c: CursorView,
    line: Seq<u8>,
    width: int,
    has_child: bool,
) -> Option<CursorView> {
    if c.indent >= width {
        Some(advanced(c, line, width, true))
    } else if c.blank && has_child {
        Some(advanced(c, line, c.first_nonspace - c.offset, false))
    } else {
        None
    }
}

/// What a line is to an open block.
#[derive(Debug, Clone, Copy, PartialEq, Eq, Structural)]
pub enum BlockPrefix {
    /// It goes on with it.
    Matched,
    /// It does not.
    Unmatched,
    /// It is the closing fence.
    Closed,
}

/// The length of the closing fence that the line holds for a block fenced with `fence_char`.
pub open spec fn fence_in(c: CursorView, line: Seq<u8>, fence_char: u8) -> int {
    if c.indent <= 3 && line[c.first_nonspace] == fence_char {
        match close_fence(line.subrange(c.first_nonspace, line.len() as int)) {
            Some(n) => n,
            None => 0,
        }
    } else {
        0
    }
}

/// What the line is to the code block `b`, and the cursor behind what belongs to the block.
pub open spec fn code_prefix(c: CursorView, line: Seq<u8>, b: CodeBlockView) -> (
    BlockPrefix,
    CursorView,
) {
    if !b.fenced {
        match item_prefix(c, line, CODE_INDENT as int, true) {
            Some(next) => (BlockPrefix::Matched, next),
            None => (BlockPrefix::Unmatched, c),
        }
    } else if fence_in(c, line, b.fence_char) >= b.fence_length {
        (
            BlockPrefix::Closed,
            advanced(c, line, fence_in(c, line, b.fence_char), false),
        )
    } else {
        (BlockPrefix::Matched, past_blanks(c, line, b.fence_offset as int))
    }
}

/// Whether a line goes on with an HTML block of type `t`: the last two types end at a blank one.
pub open spec fn html_prefix(c: CursorView, t: u8) -> bool {
    t <= 5 || !c.blank
}

/// A cursor stays ready as it passes bytes up to the start of a character of its line.
pub proof fn lemma_ready_bytes(c: CursorView, line: Seq<u8>, count: int)
    requires
        c.in_line(line),
        0 <= count,
        c.offset + count < line.len(),
        is_char_boundary(line, c.offset + count),
    ensures
        advanced(c, line, count, false).ready(line),
        advanced(c, line, count, false).offset == c.offset + count,
{
    lemma_advanced_in_line(c, line, count, false);
    lemma_advanced_bytes(c, line, count);
}

/// A cursor stays ready as it passes columns of indentation.
pub proof fn lemma_ready_blanks(c: CursorView, line: Seq<u8>, count: int)
    requires
        text_line(line),
        c.poised(line),
        0 <= count <= c.indent,
    ensures
        count <= c.columns_left(line),
        advanced(c, line, count, true).ready(line),
        advanced(c, line, count, true).column == c.column + count,
        c.offset <= advanced(c, line, count, true).offset <= c.first_nonspace < line.len(),
{
    lemma_looked_up(c, line);
    lemma_poised(c, line);
    lemma_advanced_in_line(c, line, count, true);
    law_advanced_columns(c, line, count);
    let r = advanced(c, line, count, true);
    law_advanced_in_steps(c, line, count, c.indent - count, true);
    lemma_advanced_in_line(r, line, c.indent - count, true);
    if r.offset > c.offset {
        assert(blank_byte(line[r.offset - 1]));
        lemma_boundary_at_ascii(line, r.offset - 1);
    }
}

/// A cursor that is poised has looked up a byte of its line.
pub proof fn lemma_poised(c: CursorView, line: Seq<u8>)
    requires
        text_line(line),
        c.poised(line),
    ensures
        c.offset <= c.first_nonspace < line.len(),
        is_char_boundary(line, c.first_nonspace),
        0 <= c.indent,
{
    lemma_looked_up(c, line);
    if c.first_nonspace == line.len() {
        assert(blank_byte(line[line.len() - 1]));
    }
    if c.first_nonspace > c.offset {
        assert(blank_byte(line[c.first_nonspace - 1]));
        lemma_boundary_at_ascii(line, c.first_nonspace - 1);
    }
}

/// A cursor stays ready as it passes one column of an ASCII byte other than the last one.
pub proof fn lemma_ready_one(c: CursorView, line: Seq<u8>)
    requires
        text_line(line),
        c.ready(line),
        line[c.offset] < 128,
        line[c.offset] != 10,
    ensures
        1 <= c.columns_left(line),
        advanced(c, line, 1, true).ready(line),
        advanced(c, line, 1, true).column == c.column + 1,
        c.offset <= advanced(c, line, 1, true).offset <= c.offset + 1,
{
    lemma_advanced_in_line(c, line, 1, true);
    lemma_column_after_bounds(line, c.offset, line.len() as int, c.column);
    law_advanced_columns(c, line, 1);
    lemma_boundary_at_ascii(line, c.offset);
    let width = byte_width(line[c.offset], c.column);
    lemma_byte_width(line[c.offset], c.column);
    if width == 1 {
        let next = CursorView {
            offset: c.offset + 1,
            column: c.column + 1,
            partially_consumed_tab: false,
            ..c
        };
        assert(advanced(next, line, 0, true) == next);
        assert(advanced(c, line, 1, true) == next);
    }
}

/// A cursor stays ready as it passes one blank.
pub proof fn lemma_ready_past_one_blank(c: CursorView, line: Seq<u8>)
    requires
        text_line(line),
        c.ready(line),
    ensures
        past_one_blank(c, line).ready(line),
{
    if blank_byte(line[c.offset]) {
        lemma_ready_one(c, line);
    }
}

/// A cursor stays ready as it passes blanks.
pub proof fn lemma_ready_past_blanks(c: CursorView, line: Seq<u8>, n: int)
    requires
        text_line(line),
        c.ready(line),
        0 <= n,
    ensures
        past_blanks(c, line, n).ready(line),
        past_blanks(c, line, n).offset >= c.offset,
        c.column <= past_blanks(c, line, n).column <= c.column + n,
        past_blanks(c, line, n).column > c.column ==> blank_byte(line[c.offset]),
    decreases n,
{
    if n > 0 && blank_byte(line[c.offset]) {
        lemma_ready_one(c, line);
        lemma_ready_past_blanks(advanced(c, line, 1, true), line, n - 1);
    }
}

/// A cursor is ready behind the indentation and one more ASCII byte.
pub proof fn lemma_ready_marker(c: CursorView, line: Seq<u8>)
    requires
        text_line(line),
        c.poised(line),
        line[c.first_nonspace] < 128,
        line[c.first_nonspace] != 10,
        line[c.first_nonspace] != 9,
    ensures
        c.indent + 1 <= c.columns_left(line),
        advanced(c, line, c.indent + 1, true).ready(line),
        advanced(c, line, c.indent + 1, true).offset == c.first_nonspace + 1,
{
    lemma_poised(c, line);
    lemma_looked_up(c, line);
    lemma_ready_blanks(c, line, c.indent);
    let m = advanced(c, line, c.indent, true);
    lemma_ready_one(m, line);
    law_advanced_in_steps(c, line, c.indent, 1, true);
    let next = CursorView {
        offset: m.offset + 1,
        column: m.column + 1,
        partially_consumed_tab: false,
        ..m
    };
    assert(advanced(next, line, 0, true) == next);
    assert(advanced(m, line, 1, true) == next);
    lemma_column_after_to_end(c, line, c.indent);
}

/// What an advance by columns leaves of the line.
pub proof fn lemma_column_after_to_end(c: CursorView, line: Seq<u8>, count: int)
    requires
        c.in_line(line),
        0 <= count <= c.columns_left(line),
    ensures
        advanced(c, line, count, true).columns_left(line) == c.columns_left(line) - count,
    decreases count,
{
    if count > 0 && c.offset < line.len() {
        let width = byte_width(line[c.offset], c.column);
        lemma_byte_width(line[c.offset], c.column);
        if width <= count {
            lemma_advanced_in_line(c, line, 1, false);
            let next = CursorView {
                offset: c.offset + 1,
                column: c.column + width,
                partially_consumed_tab: false,
                ..c
            };
            assert(advanced(next, line, 0, false) == next);
            assert(advanced(c, line, 1, false) == next);
            lemma_column_after_to_end(next, line, count - width);
        } else {
            crate::cursor::lemma_rest_of_tab(c.column, count);
            let part = CursorView { column: c.column + count, partially_consumed_tab: true, ..c };
            assert(advanced(c, line, count, true) == part);
        }
    }
}

impl Cursor {
    /// Passes one space, or one column of a tab, where one follows.
    pub fn skip_one_blank(&mut self, line: &[u8])
        requires
            text_line(line@),
            old(self)@.ready(line@),
        ensures
            final(self)@ == past_one_blank(old(self)@, line@),
            final(self)@.ready(line@),
    {
        proof {
            lemma_ready_past_one_blank(self@, line@);
        }
        if is_space_or_tab(line[self.offset]) {
            proof {
                lemma_ready_one(self@, line@);
            }
            self.advance_offset(line, 1, true);
        }
    }

    /// Passes the marker of a block quote, where the line goes on with one.
    pub fn parse_block_quote_prefix(&mut self, line: &[u8]) -> (r: bool)
        requires
            text_line(line@),
            old(self)@.poised(line@),
        ensures
            r == quote_prefix(old(self)@, line@) is Some,
            final(self)@ == (match quote_prefix(old(self)@, line@) {
                Some(c) => c,
                None => old(self)@,
            }),
            final(self)@.ready(line@),
    {
        proof {
            lemma_poised(self@, line@);
        }
        let indent: usize = self.indent;
        if indent <= 3 && line[self.first_nonspace] == 62 {
            proof {
                lemma_ready_marker(self@, line@);
            }
            self.advance_offset(line, indent + 1, true);
            self.skip_one_blank(line);
            return true;
        }
        false
    }

    /// Passes the indentation of a footnote definition, where the line goes on with one.
    pub fn parse_footnote_definition_block_prefix(&mut self, line: &[u8]) -> (r: bool)
        requires
            text_line(line@),
            old(self)@.poised(line@),
        ensures
            r == footnote_prefix(old(self)@, line@) is Some,
            final(self)@ == (match footnote_prefix(old(self)@, line@) {
                Some(c) => c,
                None => old(self)@,
            }),
            final(self)@.ready(line@),
    {
        if self.indent >= 4 {
            proof {
                lemma_ready_blanks(self@, line@, 4);
            }
            self.advance_offset(line, 4, true);
            true
        } else {
            let r: bool = (line.len() == 1 && line[0] == 10) || (line.len() == 2 && line[0] == 13
                && line[1] == 10);
            proof {
                if r {
                    assert(line@ =~= seq![10u8] || line@ =~= seq![13u8, 10u8]);
                }
            }
            r
        }
    }

    /// Passes the indentation of an item whose contents start `width` columns in, where the
    /// line goes on with it.
    pub fn parse_node_item_prefix(&mut self, line: &[u8], has_child: bool, width: usize) -> (r:
        bool)
        requires
            text_line(line@),
            old(self)@.poised(line@),
        ensures
            r == item_prefix(old(self)@, line@, width as int, has_child) is Some,
            final(self)@ == (match item_prefix(old(self)@, line@, width as int, has_child) {
                Some(c) => c,
                None => old(self)@,
            }),
            final(self)@.ready(line@),
    {
        proof {
            lemma_poised(self@, line@);
        }
        if self.indent >= width {
            proof {
                lemma_ready_blanks(self@, line@, width as int);
            }
            self.advance_offset(line, width, true);
            true
        } else if self.blank && has_child {
            let offset: usize = self.first_nonspace - self.offset;
            proof {
                lemma_ready_bytes(self@, line@, offset as int);
            }
            self.advance_offset(line, offset, false);
            true
        } else {
            false
        }
    }

    /// Passes what belongs to the code block `ncb`, and says what the line is to it.
    pub fn parse_code_block_prefix(&mut self, line: &[u8], ncb: &NodeCodeBlock) -> (r:
        BlockPrefix)
        requires
            text_line(line@),
            old(self)@.poised(line@),
        ensures
            (r, final(self)@) == code_prefix(old(self)@, line@, ncb@),
            final(self)@.in_line(line@),
            !(r is Closed) ==> final(self)@.ready(line@),
    {
        proof {
            lemma_poised(self@, line@);
        }
        if !ncb.fenced {
            return if self.parse_node_item_prefix(line, true, CODE_INDENT) {
                BlockPrefix::Matched
            } else {
                BlockPrefix::Unmatched
            };
        }
        let matched: usize = if self.indent <= 3 && line[self.first_nonspace] == ncb.fence_char {
            match close_code_fence(slice_subrange(line, self.first_nonspace, line.len())) {
                Some(n) => n,
                None => 0,
            }
        } else {
            0
        };
        if matched >= ncb.fence_length {
            self.advance_offset(line, matched, false);
            return BlockPrefix::Closed;
        }
        let mut i: usize = ncb.fence_offset;
        let ghost start = self@;
        while i > 0 && is_space_or_tab(line[self.offset])
            invariant
                text_line(line@),
                self@.ready(line@),
                past_blanks(start, line@, ncb.fence_offset as int) == past_blanks(
                    self@,
                    line@,
                    i as int,
                ),
            decreases i,
        {
            proof {
                lemma_ready_one(self@, line@);
            }
            self.advance_offset(line, 1, true);
            i -= 1;
        }
        BlockPrefix::Matched
    }

    /// Whether the line goes on with an HTML block of type `t`.
    pub fn parse_html_block_prefix(&self, t: u8) -> (r: bool)
        requires
            1 <= t <= 7,
        ensures
            r == html_prefix(self@, t),
    {
        t <= 5 || !self.blank
    }
}

} // verus!
