//! The blocks that a line opens.

use crate::blocks::{
    child_added, fences_read, fits_document, in_motion, lemma_changed_in_motion, lemma_child_added,
    lemma_child_in_motion, lemma_last_child, lemma_spine_subset, open_after, orderly, spine, Blocks,
};
use crate::closing::{fence_read, sound};
use crate::ctype::{
    blank_byte, is_line_end_char, is_space_or_tab, line_end_byte, only, run_end, skip_only,
};
use crate::cursor::{
    advanced, lemma_advanced_bytes, lemma_advanced_in_line, lemma_with_nonspace, with_nonspace,
    Cursor, CursorView, CODE_INDENT,
};
use crate::descriptions::{details_opened, lemma_details_opened};
use crate::matching::paragraph_ended;
use crate::nodes::{
    lists_match, same_list, CodeBlockView, NodeCodeBlock, NodeHeading, NodeHtmlBlock, NodeList,
    NodeValue, Value,
};
use crate::parser::{Parser, ParserView};
use crate::prefixes::{
    lemma_poised, lemma_ready_blanks, lemma_ready_one, lemma_ready_past_blanks,
    lemma_ready_past_one_blank, past_blanks, past_one_blank, text_line,
};
use crate::references::{lemma_stripped, resolve_reference_link_definitions, stripped};
use crate::scanners::{index_of, SetextChar};
use crate::starts::{
    block_start, ends_with_paragraph, lemma_block_start, rest_of, start_fits, BlockStart,
};
use crate::strings::blank_text;
use crate::table::{
    body_step, delimiter_row, header_step, texts_valid, try_opening_header, try_opening_row,
    TableStep, TableStepView,
};
use crate::table_blocks::{header_opened, lemma_header_opened, lemma_row_added, padded, row_added};
use crate::text::{copy_range, lemma_boundary_at_ascii, lemma_valid_ascii, string_from_utf8};
use crate::tree::{last_open, linked, NodeView, Nodes};
use vstd::prelude::*;
use vstd::slice::slice_subrange;
use vstd::utf8::{decode_utf8, is_char_boundary, valid_utf8, valid_utf8_split};

verus! {

/// The cursor moved on to the byte `at`.
pub open spec fn moved_to(c: CursorView, line: Seq<u8>, at: int) -> CursorView {
    advanced(c, line, at - c.offset, false)
}

/// The state with a new block in `i` or around it; and that block.
pub open spec fn with_child(p: ParserView, i: int, v: Value) -> (ParserView, int) {
    let (b, id) = child_added(p.blocks, i, v, p.line_number, p.info());
    (ParserView { blocks: b, ..p }, id)
}

/// The heading that hashes at `at` make.
pub open spec fn atx_heading(line: Seq<u8>, at: int) -> NodeHeading {
    NodeHeading { level: (run_end(line, at, only(35)) - at) as u8, setext: false }
}

/// The code block that a fence of `n` bytes opens.
pub open spec fn fence_block(c: CursorView, line: Seq<u8>, n: usize) -> CodeBlockView {
    CodeBlockView {
        fenced: true,
        fence_char: line[c.first_nonspace],
        fence_length: n,
        fence_offset: (c.first_nonspace - c.offset) as usize,
        info: seq![],
        literal: seq![],
    }
}

/// An indented code block.
pub open spec fn indented_block() -> CodeBlockView {
    CodeBlockView {
        fenced: false,
        fence_char: 0,
        fence_length: 0,
        fence_offset: 0,
        info: seq![],
        literal: seq![],
    }
}

/// The level of an underlined heading.
pub open spec fn setext_level(sc: SetextChar) -> u8 {
    match sc {
        SetextChar::Equals => 1,
        SetextChar::Hyphen => 2,
    }
}

/// The state when the paragraph `i` is underlined: a heading, if more than definitions are in
/// it.
pub open spec fn underlined(p: ParserView, i: int, sc: SetextChar, line: Seq<u8>) -> ParserView {
    let t = p.blocks.nodes;
    let (rest, refs) = stripped(t[i].content, p.blocks.refs);
    if blank_text(rest) {
        ParserView {
            blocks: Blocks { nodes: t.update(i, NodeView { content: rest, ..t[i] }), refs },
            ..p
        }
    } else {
        let heading = Value::Heading(NodeHeading { level: setext_level(sc), setext: true });
        ParserView {
            blocks: Blocks {
                nodes: t.update(i, NodeView { content: rest, value: heading, ..t[i] }),
                refs,
            },
            cursor: moved_to(p.cursor, line, line.len() - 1),
            ..p
        }
    }
}

/// The cursor behind a list marker that ends at `c`, where contents start, and the columns from
/// the marker to there.
///
/// From one to four columns of blanks belong to the marker; of more, or of those before a line
/// end, only one does.
pub open spec fn behind_marker(c: CursorView, line: Seq<u8>) -> (CursorView, int) {
    let d = past_blanks(c, line, 6);
    let n = d.column - c.column;
    if !(1 <= n < 5) || line_end_byte(line[d.offset]) {
        (
            if n > 0 {
                advanced(c, line, 1, true)
            } else {
                c
            },
            1,
        )
    } else {
        (d, n)
    }
}

/// The state with a new list item: in `i`, if it is a list that the item belongs to, or in a
/// new list.
pub open spec fn item_opened(
    p: ParserView,
    i: int,
    n: usize,
    marker: NodeList,
    line: Seq<u8>,
) -> (ParserView, int) {
    let (c, width) = behind_marker(moved_to(p.cursor, line, p.cursor.first_nonspace + n), line);
    let nl = NodeList {
        padding: (n + width) as usize,
        marker_offset: p.cursor.indent as usize,
        ..marker
    };
    let q = ParserView { cursor: c, ..p };
    let goes_on = match p.blocks.nodes[i].value {
        Value::List(of) => same_list(nl, of),
        _ => false,
    };
    let (r, list) = if goes_on {
        (q, i)
    } else {
        with_child(q, i, Value::List(nl))
    };
    with_child(r, list, Value::Item(nl))
}

/// What the line does to `n`, as far as tables go.
pub open spec fn table_step(n: NodeView, c: CursorView, line: Seq<u8>) -> TableStepView {
    match n.value {
        Value::Paragraph => header_step(n.content, n.table_visited, rest_of(c, line)),
        Value::Table(_) => body_step(rest_of(c, line), c.blank),
        _ => TableStepView::Nothing,
    }
}

/// How many columns the table `v` has.
pub open spec fn columns_of(v: Value) -> nat {
    match v {
        Value::Table(a) => a.len(),
        _ => 0,
    }
}

/// The state when a step towards a table is taken; and what the line has then reached.
pub open spec fn table_opened(p: ParserView, i: int, step: TableStepView, line: Seq<u8>) -> (
    ParserView,
    Option<int>,
) {
    let t = p.blocks.nodes;
    let c = moved_to(p.cursor, line, line.len() - 1);
    match step {
        TableStepView::Nothing => (p, None),
        TableStepView::Keep { visited } => (
            if visited {
                ParserView {
                    blocks: Blocks {
                        nodes: t.update(i, NodeView { table_visited: true, ..t[i] }),
                        ..p.blocks
                    },
                    ..p
                }
            } else {
                p
            },
            Some(i),
        ),
        TableStepView::Header { row, alignments } => {
            let (nodes, table) = header_opened(t, i, row, alignments, p.line_number);
            (
                ParserView { blocks: Blocks { nodes, ..p.blocks }, cursor: c, ..p },
                Some(table),
            )
        },
        TableStepView::Body { cells } => {
            let nodes = row_added(
                t,
                i,
                false,
                padded(cells, columns_of(t[i].value)),
                p.line_number,
            );
            (
                ParserView { blocks: Blocks { nodes, ..p.blocks }, cursor: c, ..p },
                Some(t.len() as int),
            )
        },
    }
}

/// The state when the block that starts at the byte looked up is opened in `i`; and what the
/// line has then reached, or nothing where it opens no block.
#[verifier::opaque]
pub open spec fn opened(p: ParserView, i: int, start: BlockStart, line: Seq<u8>) -> (
    ParserView,
    Option<int>,
) {
    let c = p.cursor;
    let at = c.first_nonspace;
    match start {
        BlockStart::Quote => {
            let d = past_one_blank(moved_to(c, line, at + 1), line);
            let (q, id) = with_child(ParserView { cursor: d, ..p }, i, Value::BlockQuote);
            (q, Some(id))
        },
        BlockStart::Atx(n) => {
            let d = moved_to(c, line, at + n);
            let (q, id) = with_child(
                ParserView { cursor: d, ..p },
                i,
                Value::Heading(atx_heading(line, at)),
            );
            (q, Some(id))
        },
        BlockStart::Fence(n) => {
            let d = moved_to(c, line, at + n);
            let (q, id) = with_child(
                ParserView { cursor: d, ..p },
                i,
                Value::CodeBlock(fence_block(c, line, n)),
            );
            (q, Some(id))
        },
        BlockStart::Html(k) => {
            let (q, id) = with_child(p, i, Value::HtmlBlock(k, seq![]));
            (q, Some(id))
        },
        BlockStart::Setext(sc) => (underlined(p, i, sc, line), Some(i)),
        BlockStart::Break => {
            let d = moved_to(c, line, line.len() - 1);
            let (q, id) = with_child(ParserView { cursor: d, ..p }, i, Value::ThematicBreak);
            (q, Some(id))
        },
        BlockStart::Footnote(n, e) => {
            let d = moved_to(c, line, at + n);
            let (q, id) = with_child(
                ParserView { cursor: d, ..p },
                i,
                Value::FootnoteDefinition(decode_utf8(line.subrange(at + 2, at + e))),
            );
            (q, Some(id))
        },
        BlockStart::Details => {
            let d = past_one_blank(moved_to(c, line, at + 1), line);
            let (b, id) = details_opened(
                p.blocks,
                i,
                c.indent as usize,
                p.line_number,
                p.info(),
            );
            (ParserView { blocks: b, cursor: d, ..p }, Some(id))
        },
        BlockStart::Item(n, nl) => {
            let (q, id) = item_opened(p, i, n, nl, line);
            (q, Some(id))
        },
        BlockStart::Indented => {
            let d = advanced(c, line, CODE_INDENT as int, true);
            let (q, id) = with_child(
                ParserView { cursor: d, ..p },
                i,
                Value::CodeBlock(indented_block()),
            );
            (q, Some(id))
        },
        BlockStart::Other => if c.indent < CODE_INDENT && p.options.extension.table {
            table_opened(p, i, table_step(p.blocks.nodes[i], c, line), line)
        } else {
            (p, None)
        },
    }
}

/// Whether nothing more can be opened in a block of this kind.
pub open spec fn takes_rest(v: Value) -> bool {
    v.accepts_lines() || v is HtmlBlock
}

/// The state when the first of the blocks is opened that the line opens in `i`; and what it has
/// then reached.
pub open spec fn one_opened(
    p: ParserView,
    i: int,
    line: Seq<u8>,
    all_matched: bool,
    maybe_lazy: bool,
) -> (ParserView, Option<int>) {
    let t = p.blocks.nodes;
    let (start, c) = block_start(
        t[i].value is Paragraph,
        ends_with_paragraph(t, i),
        with_nonspace(p.cursor, line),
        line,
        all_matched,
        maybe_lazy,
        p.options,
    );
    opened(ParserView { cursor: c, ..p }, i, start, line)
}

/// The state when all blocks are opened that the line opens in `i`; and what it has then
/// reached.
pub open spec fn all_opened(
    p: ParserView,
    i: int,
    line: Seq<u8>,
    all_matched: bool,
    maybe_lazy: bool,
) -> (ParserView, int)
    decreases line.len() - p.cursor.offset,
{
    let v = p.blocks.nodes[i].value;
    if v is CodeBlock || v is HtmlBlock {
        (p, i)
    } else {
        match one_opened(p, i, line, all_matched, maybe_lazy) {
            (q, Some(j)) => if !takes_rest(q.blocks.nodes[j].value) && p.cursor.offset
                < q.cursor.offset <= line.len() {
                all_opened(q, j, line, all_matched, false)
            } else {
                (q, j)
            },
            (q, None) => (q, i),
        }
    }
}

/// A block can be opened in `i`.
pub open spec fn can_open(p: ParserView, i: int, line: Seq<u8>) -> bool {
    &&& orderly(p.blocks.nodes)
    &&& fences_read(p.blocks.nodes, -1)
    &&& spine(p.blocks.nodes, i, Set::empty())
    &&& text_line(line)
    &&& p.cursor.poised(line)
}

/// Where a cursor is that has moved on to a byte.
pub proof fn lemma_moved_to(c: CursorView, line: Seq<u8>, at: int)
    requires
        c.in_line(line),
        c.offset <= at <= line.len(),
    ensures
        moved_to(c, line, at).in_line(line),
        moved_to(c, line, at).offset == at,
        at < line.len() && is_char_boundary(line, at) ==> moved_to(c, line, at).ready(line),
{
    lemma_advanced_in_line(c, line, at - c.offset, false);
    lemma_advanced_bytes(c, line, at - c.offset);
}

/// Where a cursor is behind a list marker.
pub proof fn lemma_behind_marker(c: CursorView, line: Seq<u8>)
    requires
        text_line(line),
        c.ready(line),
    ensures
        behind_marker(c, line).0.ready(line),
        behind_marker(c, line).0.offset >= c.offset,
        1 <= behind_marker(c, line).1 <= 4,
{
    lemma_ready_past_blanks(c, line, 6);
    if blank_byte(line[c.offset]) {
        lemma_ready_one(c, line);
    }
}

/// The last byte of a line starts a character.
pub proof fn lemma_last_boundary(line: Seq<u8>)
    requires
        text_line(line),
    ensures
        is_char_boundary(line, line.len() - 1),
{
    lemma_boundary_at_ascii(line, line.len() - 1);
}

impl<'a, 'o> Parser<'a, 'o> {
    /// Moves on to the byte `at`.
    fn move_to(&mut self, line: &[u8], at: usize)
        requires
            text_line(line@),
            old(self)@.cursor.in_line(line@),
            old(self)@.cursor.offset <= at <= line@.len(),
        ensures
            final(self)@ == (ParserView {
                cursor: moved_to(old(self)@.cursor, line@, at as int),
                ..old(self)@
            }),
    {
        let count: usize = at - self.cursor.offset;
        self.cursor.advance_offset(line, count, false);
    }

    /// Opens a block quote.
    fn open_quote(&mut self, container: usize, line: &[u8]) -> (r: usize)
        requires
            can_open(old(self)@, container as int, line@),
            start_fits(BlockStart::Quote, old(self)@.cursor, line@),
        ensures
            (final(self)@, Some(r as int)) == opened(
                old(self)@,
                container as int,
                BlockStart::Quote,
                line@,
            ),
    {
        proof {
            reveal(opened);
        }
        let at: usize = self.cursor.first_nonspace;
        proof {
            lemma_poised(self@.cursor, line@);
            lemma_moved_to(self@.cursor, line@, at + 1);
        }
        self.move_to(line, at + 1);
        self.cursor.skip_one_blank(line);
        self.add_child(container, NodeValue::BlockQuote)
    }

    /// Opens a heading with hashes.
    fn open_atx(&mut self, container: usize, n: usize, line: &[u8]) -> (r: usize)
        requires
            can_open(old(self)@, container as int, line@),
            start_fits(BlockStart::Atx(n), old(self)@.cursor, line@),
        ensures
            (final(self)@, Some(r as int)) == opened(
                old(self)@,
                container as int,
                BlockStart::Atx(n),
                line@,
            ),
    {
        proof {
            reveal(opened);
        }
        let at: usize = self.cursor.first_nonspace;
        proof {
            lemma_poised(self@.cursor, line@);
        }
        self.move_to(line, at + n);
        let level: u8 = (skip_only(line, at, 35) - at) as u8;
        self.add_child(container, NodeValue::Heading(NodeHeading { level, setext: false }))
    }

    /// Opens a fenced code block.
    fn open_fence(&mut self, container: usize, n: usize, line: &[u8]) -> (r: usize)
        requires
            can_open(old(self)@, container as int, line@),
            start_fits(BlockStart::Fence(n), old(self)@.cursor, line@),
        ensures
            (final(self)@, Some(r as int)) == opened(
                old(self)@,
                container as int,
                BlockStart::Fence(n),
                line@,
            ),
    {
        proof {
            reveal(opened);
        }
        let at: usize = self.cursor.first_nonspace;
        proof {
            lemma_poised(self@.cursor, line@);
        }
        let ncb = NodeCodeBlock {
            fenced: true,
            fence_char: line[at],
            fence_length: n,
            fence_offset: at - self.cursor.offset,
            info: String::new(),
            literal: String::new(),
        };
        proof {
            assert(ncb@ =~= fence_block(self@.cursor, line@, n));
        }
        self.move_to(line, at + n);
        self.add_child(container, NodeValue::CodeBlock(ncb))
    }

    /// Opens a block of HTML.
    fn open_html(&mut self, container: usize, k: u8, line: &[u8]) -> (r: usize)
        requires
            can_open(old(self)@, container as int, line@),
        ensures
            (final(self)@, Some(r as int)) == opened(
                old(self)@,
                container as int,
                BlockStart::Html(k),
                line@,
            ),
    {
        proof {
            reveal(opened);
        }
        let nhb = NodeHtmlBlock { block_type: k, literal: String::new() };
        proof {
            assert(nhb.literal@ =~= seq![]);
        }
        self.add_child(container, NodeValue::HtmlBlock(nhb))
    }

    /// Makes a heading of the paragraph `container`, if more than definitions are in it.
    fn open_setext(&mut self, container: usize, sc: SetextChar, line: &[u8])
        requires
            can_open(old(self)@, container as int, line@),
        ensures
            final(self)@ == underlined(old(self)@, container as int, sc, line@),
    {
        let ghost t = self@.blocks.nodes;
        proof {
            lemma_poised(self@.cursor, line@);
            assert(sound(t[container as int]));
        }
        let n: usize = self.tree.node(container).content.len();
        let mut content: Vec<u8> = copy_range(
            self.tree.node(container).content.as_slice(),
            0,
            n,
        );
        proof {
            assert(content@ =~= t[container as int].content);
        }
        let has_content: bool = resolve_reference_link_definitions(
            &mut content,
            &mut self.refmap,
        );
        let ghost rest = content@;
        self.tree.nodes[container].content = content;
        proof {
            assert(self.tree@ =~= t.update(
                container as int,
                NodeView { content: rest, ..t[container as int] },
            ));
        }
        if has_content {
            let level: u8 = match sc {
                SetextChar::Equals => 1,
                SetextChar::Hyphen => 2,
            };
            self.tree.nodes[container].value = NodeValue::Heading(
                NodeHeading { level, setext: true },
            );
            proof {
                assert(self.tree@ =~= t.update(
                    container as int,
                    NodeView {
                        content: rest,
                        value: Value::Heading(NodeHeading { level, setext: true }),
                        ..t[container as int]
                    },
                ));
            }
            self.move_to(line, line.len() - 1);
        }
    }

    /// Adds a thematic break.
    fn open_break(&mut self, container: usize, line: &[u8]) -> (r: usize)
        requires
            can_open(old(self)@, container as int, line@),
            start_fits(BlockStart::Break, old(self)@.cursor, line@),
        ensures
            (final(self)@, Some(r as int)) == opened(
                old(self)@,
                container as int,
                BlockStart::Break,
                line@,
            ),
    {
        proof {
            reveal(opened);
        }
        proof {
            lemma_poised(self@.cursor, line@);
        }
        self.move_to(line, line.len() - 1);
        self.add_child(container, NodeValue::ThematicBreak)
    }

    /// Opens a footnote definition.
    fn open_footnote(&mut self, container: usize, n: usize, e: usize, line: &[u8]) -> (r: usize)
        requires
            can_open(old(self)@, container as int, line@),
            start_fits(BlockStart::Footnote(n, e), old(self)@.cursor, line@),
        ensures
            (final(self)@, Some(r as int)) == opened(
                old(self)@,
                container as int,
                BlockStart::Footnote(n, e),
                line@,
            ),
    {
        proof {
            reveal(opened);
        }
        let at: usize = self.cursor.first_nonspace;
        proof {
            lemma_poised(self@.cursor, line@);
        }
        self.move_to(line, at + n);
        let name: String = string_from_utf8(copy_range(line, at + 2, at + e));
        self.add_child(container, NodeValue::FootnoteDefinition(name))
    }

    /// Opens an indented code block.
    fn open_indented(&mut self, container: usize, line: &[u8]) -> (r: usize)
        requires
            can_open(old(self)@, container as int, line@),
            start_fits(BlockStart::Indented, old(self)@.cursor, line@),
        ensures
            (final(self)@, Some(r as int)) == opened(
                old(self)@,
                container as int,
                BlockStart::Indented,
                line@,
            ),
    {
        proof {
            reveal(opened);
        }
        proof {
            lemma_ready_blanks(self@.cursor, line@, CODE_INDENT as int);
        }
        self.cursor.advance_offset(line, CODE_INDENT, true);
        let ncb = NodeCodeBlock {
            fenced: false,
            fence_char: 0,
            fence_length: 0,
            fence_offset: 0,
            info: String::new(),
            literal: String::new(),
        };
        proof {
            assert(ncb@ =~= indented_block());
        }
        self.add_child(container, NodeValue::CodeBlock(ncb))
    }

    /// Opens the details of a description item, with the paragraph at the end of `container` as
    /// its term.
    #[verifier::rlimit(60)]
    fn open_details(&mut self, container: usize, line: &[u8]) -> (r: usize)
        requires
            can_open(old(self)@, container as int, line@),
            start_fits(BlockStart::Details, old(self)@.cursor, line@),
            old(self)@.cursor.indent < CODE_INDENT,
            ends_with_paragraph(old(self)@.blocks.nodes, container as int),
            !last_open(old(self)@.blocks.nodes, container as int),
        ensures
            (final(self)@, Some(r as int)) == opened(
                old(self)@,
                container as int,
                BlockStart::Details,
                line@,
            ),
    {
        proof {
            reveal(opened);
        }
        let at: usize = self.cursor.first_nonspace;
        proof {
            lemma_poised(self@.cursor, line@);
            lemma_moved_to(self@.cursor, line@, at + 1);
        }
        let id: usize = self.parse_desc_list_details(container);
        self.move_to(line, at + 1);
        self.cursor.skip_one_blank(line);
        id
    }

    /// Passes the blanks behind a list marker, and gives the columns that belong to it.
    fn pass_marker_blanks(&mut self, line: &[u8]) -> (r: usize)
        requires
            text_line(line@),
            old(self)@.cursor.ready(line@),
        ensures
            ({
                let (c, n) = behind_marker(old(self)@.cursor, line@);
                &&& final(self)@ == (ParserView { cursor: c, ..old(self)@ })
                &&& r == n
            }),
    {
        let saved: Cursor = self.cursor;
        let mut left: usize = 6;
        while left > 0 && is_space_or_tab(line[self.cursor.offset])
            invariant
                left <= 6,
                text_line(line@),
                self@.cursor.ready(line@),
                self@ == (ParserView { cursor: self@.cursor, ..old(self)@ }),
                self.cursor.column == saved.column + (6 - left),
                past_blanks(saved@, line@, 6) == past_blanks(
                    self@.cursor,
                    line@,
                    left as int,
                ),
            decreases left,
        {
            proof {
                lemma_ready_one(self@.cursor, line@);
            }
            self.cursor.advance_offset(line, 1, true);
            left -= 1;
        }
        let i: usize = self.cursor.column - saved.column;
        if !(1 <= i && i < 5) || is_line_end_char(line[self.cursor.offset]) {
            self.cursor = saved;
            if i > 0 {
                proof {
                    lemma_ready_past_blanks(saved@, line@, 6);
                    lemma_ready_one(self@.cursor, line@);
                }
                self.cursor.advance_offset(line, 1, true);
            }
            1
        } else {
            i
        }
    }

    /// Opens a list item, in a new list unless `container` is one that it belongs to.
    #[verifier::rlimit(40)]
    fn open_item(&mut self, container: usize, n: usize, marker: NodeList, line: &[u8]) -> (r:
        usize)
        requires
            can_open(old(self)@, container as int, line@),
            start_fits(BlockStart::Item(n, marker), old(self)@.cursor, line@),
        ensures
            (final(self)@, r as int) == item_opened(
                old(self)@,
                container as int,
                n,
                marker,
                line@,
            ),
    {
        let at: usize = self.cursor.first_nonspace;
        proof {
            lemma_poised(self@.cursor, line@);
            lemma_moved_to(self@.cursor, line@, at + n);
        }
        let indent: usize = self.cursor.indent;
        self.move_to(line, at + n);
        proof {
            lemma_behind_marker(self@.cursor, line@);
        }
        let width: usize = self.pass_marker_blanks(line);
        let nl = NodeList { padding: n + width, marker_offset: indent, ..marker };
        let goes_on: bool = match &self.tree.node(container).value {
            NodeValue::List(of) => lists_match(&nl, of),
            _ => false,
        };
        let list: usize = if goes_on {
            container
        } else {
            proof {
                lemma_child_added(
                    self@.blocks,
                    container as int,
                    Value::List(nl),
                    self@.line_number,
                    self@.info(),
                    Set::empty(),
                );
            }
            self.add_child(container, NodeValue::List(nl))
        };
        self.add_child(list, NodeValue::Item(nl))
    }
}

/// Text that starts a line that is left to be read is text.
proof fn lemma_rest_valid(c: CursorView, line: Seq<u8>)
    requires
        text_line(line),
        c.poised(line),
    ensures
        valid_utf8(rest_of(c, line)),
{
    lemma_poised(c, line);
    valid_utf8_split(line, c.first_nonspace);
}

/// The texts of a step are text, and the text before a header ends where a character does.
pub open spec fn step_fits(step: TableStepView, content: Seq<u8>) -> bool {
    match step {
        TableStepView::Header { row, .. } => {
            &&& texts_valid(row.cells)
            &&& 0 <= row.paragraph_offset <= content.len()
            &&& is_char_boundary(content, row.paragraph_offset)
        },
        TableStepView::Body { cells } => texts_valid(cells),
        _ => true,
    }
}

impl<'a, 'o> Parser<'a, 'o> {
    /// Looks what the line does to `container`, as far as tables go.
    fn find_table_step(&self, container: usize, line: &[u8]) -> (r: TableStep)
        requires
            can_open(self@, container as int, line@),
        ensures
            r@ == table_step(self@.blocks.nodes[container as int], self@.cursor, line@),
            step_fits(r@, self@.blocks.nodes[container as int].content),
    {
        proof {
            lemma_poised(self@.cursor, line@);
            lemma_rest_valid(self@.cursor, line@);
            assert(sound(self@.blocks.nodes[container as int]));
        }
        let node = self.tree.node(container);
        match &node.value {
            NodeValue::Paragraph => {
                let rest: &[u8] = slice_subrange(line, self.cursor.first_nonspace, line.len());
                try_opening_header(node.content.as_slice(), node.table_visited, rest)
            },
            NodeValue::Table(_) => {
                let rest: &[u8] = slice_subrange(line, self.cursor.first_nonspace, line.len());
                try_opening_row(rest, self.cursor.blank)
            },
            _ => TableStep::Nothing,
        }
    }

    /// Takes a step towards a table.
    #[verifier::rlimit(60)]
    fn open_table(&mut self, container: usize, step: TableStep, line: &[u8]) -> (r: Option<usize>)
        requires
            can_open(old(self)@, container as int, line@),
            step@ == table_step(
                old(self)@.blocks.nodes[container as int],
                old(self)@.cursor,
                line@,
            ),
            step_fits(step@, old(self)@.blocks.nodes[container as int].content),
        ensures
            (final(self)@, index_of(r)) == table_opened(
                old(self)@,
                container as int,
                step@,
                line@,
            ),
    {
        let ghost t = self@.blocks.nodes;
        proof {
            lemma_poised(self@.cursor, line@);
            assert(linked(t, container as int));
        }
        match step {
            TableStep::Nothing => None,
            TableStep::Keep { visited } => {
                if visited {
                    self.tree.nodes[container].table_visited = true;
                    proof {
                        assert(self.tree@ =~= t.update(
                            container as int,
                            NodeView { table_visited: true, ..t[container as int] },
                        ));
                    }
                }
                Some(container)
            },
            TableStep::Header { row, alignments } => {
                let table: usize = self.tree.open_header(
                    container,
                    &row,
                    alignments,
                    self.line_number,
                );
                self.move_to(line, line.len() - 1);
                Some(table)
            },
            TableStep::Body { cells } => {
                let n: usize = match &self.tree.node(container).value {
                    NodeValue::Table(a) => a.len(),
                    _ => 0,
                };
                let row: usize = self.tree.add_row(container, false, &cells, n, self.line_number);
                self.move_to(line, line.len() - 1);
                Some(row)
            },
        }
    }

    /// Opens the block that starts at the byte looked up, if one does, and gives what the line
    /// has then reached.
    #[verifier::rlimit(60)]
    fn open_block(&mut self, container: usize, start: BlockStart, line: &[u8]) -> (r: Option<
        usize,
    >)
        requires
            can_open(old(self)@, container as int, line@),
            start_fits(start, old(self)@.cursor, line@),
            start is Details ==> {
                &&& old(self)@.cursor.indent < CODE_INDENT
                &&& ends_with_paragraph(old(self)@.blocks.nodes, container as int)
                &&& !last_open(old(self)@.blocks.nodes, container as int)
            },
        ensures
            (final(self)@, index_of(r)) == opened(
                old(self)@,
                container as int,
                start,
                line@,
            ),
            r is Some && start is Other ==> step_fits(
                table_step(
                    old(self)@.blocks.nodes[container as int],
                    old(self)@.cursor,
                    line@,
                ),
                old(self)@.blocks.nodes[container as int].content,
            ),
    {
        proof {
            reveal(opened);
        }
        match start {
            BlockStart::Quote => Some(self.open_quote(container, line)),
            BlockStart::Atx(n) => Some(self.open_atx(container, n, line)),
            BlockStart::Fence(n) => Some(self.open_fence(container, n, line)),
            BlockStart::Html(k) => Some(self.open_html(container, k, line)),
            BlockStart::Setext(sc) => {
                self.open_setext(container, sc, line);
                Some(container)
            },
            BlockStart::Break => Some(self.open_break(container, line)),
            BlockStart::Footnote(n, e) => Some(self.open_footnote(container, n, e, line)),
            BlockStart::Details => Some(self.open_details(container, line)),
            BlockStart::Item(n, nl) => Some(self.open_item(container, n, nl, line)),
            BlockStart::Indented => Some(self.open_indented(container, line)),
            BlockStart::Other => if self.cursor.indent < CODE_INDENT
                && self.options.extension.table {
                let step: TableStep = self.find_table_step(container, line);
                self.open_table(container, step, line)
            } else {
                None
            },
        }
    }
}

/// What was found to start agrees with the block that it starts in.
pub open spec fn start_agrees(p: ParserView, i: int, start: BlockStart, line: Seq<u8>) -> bool {
    let t = p.blocks.nodes;
    &&& start_fits(start, p.cursor, line)
    &&& start is Details ==> {
        &&& p.cursor.indent < CODE_INDENT
        &&& ends_with_paragraph(t, i)
        &&& !last_open(t, i)
    }
    &&& start is Setext ==> t[i].value is Paragraph
    &&& start is Item ==> p.cursor.indent < CODE_INDENT
    &&& start is Other ==> step_fits(table_step(t[i], p.cursor, line), t[i].content)
}

/// What follows from opening a block, of the state `q` and the block `j` that was reached.
pub open spec fn goes_on(
    p: ParserView,
    q: ParserView,
    j: int,
    line: Seq<u8>,
    m: int,
    s: Set<int>,
) -> bool {
    let u = q.blocks.nodes;
    &&& in_motion(u, j, p.current, m, s)
    &&& q.current == p.current
    &&& fences_read(u, j)
    &&& q.cursor.placed(line)
    &&& !(u[j].value is Heading) ==> q.cursor.ready(line)
    &&& !takes_rest(u[j].value) ==> q.cursor.offset > p.cursor.offset
    &&& u[j].value is CodeBlock || !takes_rest(u[j].value) ==> j != m
    &&& !(u[j].value is CodeBlock) ==> fences_read(u, -1)
}

/// A new block that is no code block is reached.
proof fn lemma_with_child(p: ParserView, i: int, v: Value, m: int, s: Set<int>)
    requires
        in_motion(p.blocks.nodes, i, p.current, m, s),
        fences_read(p.blocks.nodes, -1),
        crate::closing::kind_sound(v),
        !(v is Paragraph),
        fits_document(v) || p.blocks.nodes[i].value.can_contain(v),
    ensures
        ({
            let (q, id) = with_child(p, i, v);
            let u = q.blocks.nodes;
            &&& in_motion(u, id, p.current, m, s)
            &&& q == ParserView { blocks: q.blocks, ..p }
            &&& fences_read(u, id)
            &&& !(v is CodeBlock) ==> fences_read(u, -1)
            &&& u[id].value == v
            &&& id == p.blocks.nodes.len()
        }),
{
    lemma_child_in_motion(p.blocks, i, v, p.line_number, p.info(), p.current, m, s);
}

/// What follows from opening one of the blocks that are always new.
#[verifier::rlimit(60)]
proof fn lemma_opened_new(
    p: ParserView,
    i: int,
    start: BlockStart,
    line: Seq<u8>,
    m: int,
    s: Set<int>,
)
    requires
        in_motion(p.blocks.nodes, i, p.current, m, s),
        fences_read(p.blocks.nodes, -1),
        text_line(line),
        p.cursor.poised(line),
        start_agrees(p, i, start, line),
        !(start is Setext || start is Details || start is Item || start is Other),
    ensures
        match opened(p, i, start, line) {
            (q, Some(j)) => goes_on(p, q, j, line, m, s),
            (q, None) => false,
        },
{
    reveal(opened);
    let c = p.cursor;
    let at = c.first_nonspace;
    lemma_poised(c, line);
    lemma_last_boundary(line);
    match start {
        BlockStart::Quote => {
            lemma_moved_to(c, line, at + 1);
            let d = moved_to(c, line, at + 1);
            lemma_ready_past_one_blank(d, line);
            if blank_byte(line[d.offset]) {
                lemma_ready_one(d, line);
            }
            lemma_with_child(
                ParserView { cursor: past_one_blank(d, line), ..p },
                i,
                Value::BlockQuote,
                m,
                s,
            );
        },
        BlockStart::Atx(n) => {
            lemma_moved_to(c, line, at + n);
            lemma_with_child(
                ParserView { cursor: moved_to(c, line, at + n), ..p },
                i,
                Value::Heading(atx_heading(line, at)),
                m,
                s,
            );
        },
        BlockStart::Fence(n) => {
            lemma_moved_to(c, line, at + n);
            lemma_with_child(
                ParserView { cursor: moved_to(c, line, at + n), ..p },
                i,
                Value::CodeBlock(fence_block(c, line, n)),
                m,
                s,
            );
        },
        BlockStart::Html(k) => {
            lemma_with_child(p, i, Value::HtmlBlock(k, seq![]), m, s);
        },
        BlockStart::Break => {
            lemma_moved_to(c, line, line.len() - 1);
            lemma_with_child(
                ParserView { cursor: moved_to(c, line, line.len() - 1), ..p },
                i,
                Value::ThematicBreak,
                m,
                s,
            );
        },
        BlockStart::Footnote(n, e) => {
            lemma_moved_to(c, line, at + n);
            lemma_with_child(
                ParserView { cursor: moved_to(c, line, at + n), ..p },
                i,
                Value::FootnoteDefinition(decode_utf8(line.subrange(at + 2, at + e))),
                m,
                s,
            );
        },
        BlockStart::Indented => {
            lemma_ready_blanks(c, line, CODE_INDENT as int);
            lemma_with_child(
                ParserView { cursor: advanced(c, line, CODE_INDENT as int, true), ..p },
                i,
                Value::CodeBlock(indented_block()),
                m,
                s,
            );
        },
        _ => {},
    }
}

/// What follows from opening a list item.
#[verifier::rlimit(60)]
proof fn lemma_item_opened(
    p: ParserView,
    i: int,
    n: usize,
    marker: NodeList,
    line: Seq<u8>,
    m: int,
    s: Set<int>,
)
    requires
        in_motion(p.blocks.nodes, i, p.current, m, s),
        fences_read(p.blocks.nodes, -1),
        text_line(line),
        p.cursor.poised(line),
        start_agrees(p, i, BlockStart::Item(n, marker), line),
    ensures
        ({
            let (q, j) = item_opened(p, i, n, marker, line);
            goes_on(p, q, j, line, m, s)
        }),
{
    let c = p.cursor;
    lemma_poised(c, line);
    lemma_moved_to(c, line, c.first_nonspace + n);
    let d = moved_to(c, line, c.first_nonspace + n);
    lemma_behind_marker(d, line);
    let (e, width) = behind_marker(d, line);
    let nl = NodeList {
        padding: (n + width) as usize,
        marker_offset: p.cursor.indent as usize,
        ..marker
    };
    let q = ParserView { cursor: e, ..p };
    let goes_on = match p.blocks.nodes[i].value {
        Value::List(of) => same_list(nl, of),
        _ => false,
    };
    if goes_on {
        lemma_with_child(q, i, Value::Item(nl), m, s);
    } else {
        lemma_with_child(q, i, Value::List(nl), m, s);
        let (r, list) = with_child(q, i, Value::List(nl));
        lemma_with_child(r, list, Value::Item(nl), m, s);
    }
}

/// A line end alone is no delimiter row.
proof fn lemma_delimiter_row_length(s: Seq<u8>)
    requires
        delimiter_row(s),
        s.len() > 0,
        s.last() == 10,
    ensures
        s.len() >= 2,
{
    if s.len() == 1 {
        assert(s[0] == 10);
        assert(run_end(s, 0, crate::table::row_spaces()) == 0);
        assert(run_end(s, 0, only(45)) == 0);
    }
}

/// What follows from a step towards a table.
#[verifier::rlimit(40)]
proof fn lemma_table_opened(p: ParserView, i: int, line: Seq<u8>, m: int, s: Set<int>)
    requires
        in_motion(p.blocks.nodes, i, p.current, m, s),
        fences_read(p.blocks.nodes, -1),
        text_line(line),
        p.cursor.poised(line),
        start_agrees(p, i, BlockStart::Other, line),
    ensures
        match table_opened(p, i, table_step(p.blocks.nodes[i], p.cursor, line), line) {
            (q, Some(j)) => goes_on(p, q, j, line, m, s),
            (q, None) => q == p,
        },
{
    let t = p.blocks.nodes;
    let c = p.cursor;
    let step = table_step(t[i], c, line);
    lemma_poised(c, line);
    lemma_last_boundary(line);
    lemma_moved_to(c, line, line.len() - 1);
    assert(sound(t[i]));
    let rest = rest_of(c, line);
    assert(rest.last() == line.last());
    match step {
        TableStepView::Nothing => {},
        TableStepView::Keep { visited } => {
            let n = NodeView { table_visited: true, ..t[i] };
            let u = t.update(i, n);
            lemma_changed_in_motion(t, i, n, i, p.current, m, s);
            assert(fences_read(u, -1)) by {
                assert forall|j: int| 0 <= j < u.len() && j != -1 implies fence_read(
                    #[trigger] u[j],
                ) by {
                    assert(fence_read(t[j]));
                }
            }
        },
        TableStepView::Header { row, alignments } => {
            lemma_delimiter_row_length(rest);
            lemma_header_opened(t, i, row, alignments, p.line_number, p.current, m, s);
        },
        TableStepView::Body { cells } => {
            let columns = padded(cells, columns_of(t[i].value));
            lemma_valid_ascii(Seq::<u8>::empty());
            assert forall|k: int| 0 <= k < columns.len() implies valid_utf8(
                #[trigger] columns[k],
            ) by {
                if k < cells.len() {
                    assert(columns[k] == cells[k]);
                }
            }
            lemma_row_added(t, i, false, columns, p.line_number, s);
            crate::blocks::lemma_open_up_to_frame(
                t,
                row_added(t, i, false, columns, p.line_number),
                p.current,
                m,
                s,
            );
        },
    }
}

/// What follows from opening a block.
#[verifier::rlimit(60)]
proof fn lemma_opened(
    p: ParserView,
    i: int,
    start: BlockStart,
    line: Seq<u8>,
    m: int,
    s: Set<int>,
)
    requires
        in_motion(p.blocks.nodes, i, p.current, m, s),
        fences_read(p.blocks.nodes, -1),
        text_line(line),
        p.cursor.poised(line),
        start_agrees(p, i, start, line),
    ensures
        match opened(p, i, start, line) {
            (q, Some(j)) => goes_on(p, q, j, line, m, s),
            (q, None) => q == p,
        },
{
    reveal(opened);
    let t = p.blocks.nodes;
    let c = p.cursor;
    let at = c.first_nonspace;
    lemma_poised(c, line);
    match start {
        BlockStart::Setext(sc) => {
            let rest = stripped(t[i].content, p.blocks.refs).0;
            assert(sound(t[i]));
            lemma_stripped(t[i].content, p.blocks.refs);
            let heading = Value::Heading(NodeHeading { level: setext_level(sc), setext: true });
            let n = if blank_text(rest) {
                NodeView { content: rest, ..t[i] }
            } else {
                NodeView { content: rest, value: heading, ..t[i] }
            };
            let u = t.update(i, n);
            lemma_changed_in_motion(t, i, n, i, p.current, m, s);
            assert(fences_read(u, -1)) by {
                assert forall|j: int| 0 <= j < u.len() && j != -1 implies fence_read(
                    #[trigger] u[j],
                ) by {
                    assert(fence_read(t[j]));
                }
            }
            lemma_last_boundary(line);
            lemma_moved_to(c, line, line.len() - 1);
        },
        BlockStart::Details => {
            lemma_last_child(t, i);
            lemma_details_opened(
                p.blocks,
                i,
                c.indent as usize,
                p.line_number,
                p.info(),
                p.current,
                m,
                s,
            );
            lemma_moved_to(c, line, at + 1);
            let d = moved_to(c, line, at + 1);
            lemma_ready_past_one_blank(d, line);
            if blank_byte(line[d.offset]) {
                lemma_ready_one(d, line);
            }
        },
        BlockStart::Item(n, nl) => {
            lemma_item_opened(p, i, n, nl, line, m, s);
        },
        BlockStart::Other => {
            lemma_table_opened(p, i, line, m, s);
        },
        _ => {
            lemma_opened_new(p, i, start, line, m, s);
        },
    }
}

/// What the line has reached when no more blocks are opened.
pub open spec fn has_reached(
    p: ParserView,
    i: int,
    line: Seq<u8>,
    current: int,
    m: int,
    s: Set<int>,
) -> bool {
    let t = p.blocks.nodes;
    &&& in_motion(t, i, current, m, s)
    &&& p.current == current
    &&& fences_read(t, i)
    &&& i == m || !(t[i].value is CodeBlock) ==> fences_read(t, -1)
    &&& p.cursor.placed(line)
    &&& !(t[i].value is Heading) ==> p.cursor.ready(line)
}

/// A block in which a term may be looked for ends with no open paragraph.
proof fn lemma_details_agree(
    t: Nodes,
    i: int,
    c: CursorView,
    line: Seq<u8>,
    current: int,
    m: int,
    s: Set<int>,
)
    requires
        in_motion(t, i, current, m, s),
        i == m ==> paragraph_ended(t, i, c, line),
        with_nonspace(c, line) == c,
        line[c.first_nonspace] == 58,
        ends_with_paragraph(t, i),
    ensures
        !last_open(t, i),
{
}

/// Where no block is opened, nothing changes.
proof fn lemma_opened_none(p: ParserView, i: int, start: BlockStart, line: Seq<u8>)
    ensures
        opened(p, i, start, line).1 is None ==> opened(p, i, start, line).0 == p,
{
    reveal(opened);
}

impl<'a, 'o> Parser<'a, 'o> {
    /// Opens the first of the blocks that the line opens in `container`, and gives what it has
    /// then reached.
    #[verifier::rlimit(60)]
    fn open_new_block(
        &mut self,
        container: usize,
        line: &[u8],
        all_matched: bool,
        maybe_lazy: bool,
        Ghost(m): Ghost<int>,
        Ghost(s): Ghost<Set<int>>,
    ) -> (r: Option<usize>)
        requires
            ({
                let p = old(self)@;
                let t = p.blocks.nodes;
                &&& in_motion(t, container as int, p.current, m, s)
                &&& fences_read(t, -1)
                &&& text_line(line@)
                &&& p.cursor.ready(line@)
                &&& container == m ==> paragraph_ended(t, m, p.cursor, line@)
            }),
        ensures
            (final(self)@, index_of(r)) == one_opened(
                old(self)@,
                container as int,
                line@,
                all_matched,
                maybe_lazy,
            ),
            match r {
                Some(j) => goes_on(old(self)@, final(self)@, j as int, line@, m, s),
                None => {
                    &&& final(self)@.blocks == old(self)@.blocks
                    &&& final(self)@.current == old(self)@.current
                    &&& final(self)@.cursor.ready(line@)
                },
            },
    {
        let ghost p = self@;
        let ghost t = p.blocks.nodes;
        proof {
            lemma_with_nonspace(p.cursor, line@);
            lemma_spine_subset(t, container as int, s, Set::empty());
            lemma_block_start(
                t[container as int].value is Paragraph,
                ends_with_paragraph(t, container as int),
                with_nonspace(p.cursor, line@),
                line@,
                all_matched,
                maybe_lazy,
                p.options,
            );
        }
        self.cursor.find_first_nonspace(line);
        let start: BlockStart = self.find_block_start(container, line, all_matched, maybe_lazy);
        let ghost q = self@;
        proof {
            if start is Details {
                lemma_details_agree(
                    t,
                    container as int,
                    with_nonspace(p.cursor, line@),
                    line@,
                    p.current,
                    m,
                    s,
                );
            }
            lemma_opened_none(q, container as int, start, line@);
        }
        let r: Option<usize> = self.open_block(container, start, line);
        proof {
            if r is Some {
                lemma_opened(q, container as int, start, line@, m, s);
            }
        }
        r
    }

    /// Opens the blocks that the line opens in `container`, and puts what it has then reached
    /// into `container`.
    #[verifier::rlimit(60)]
    pub fn open_new_blocks(&mut self, container: &mut usize, line: &[u8], all_matched: bool)
        requires
            ({
                let p = old(self)@;
                let t = p.blocks.nodes;
                let m = *old(container) as int;
                &&& in_motion(t, m, p.current, m, open_after(t, m))
                &&& fences_read(t, -1)
                &&& text_line(line@)
                &&& p.cursor.ready(line@)
                &&& paragraph_ended(t, m, p.cursor, line@)
                &&& 0 <= p.current < t.len()
            }),
        ensures
            ({
                let p = old(self)@;
                let t = p.blocks.nodes;
                let m = *old(container) as int;
                let (q, j) = all_opened(
                    p,
                    m,
                    line@,
                    all_matched,
                    t[p.current].value is Paragraph,
                );
                &&& final(self)@ == q
                &&& *final(container) == j
                &&& has_reached(q, j, line@, p.current, m, open_after(t, m))
            }),
    {
        let ghost p0 = self@;
        let ghost m = *container as int;
        let ghost s = open_after(p0.blocks.nodes, m);
        let ghost current = p0.current;
        let ghost lazy = p0.blocks.nodes[p0.current].value is Paragraph;
        let mut maybe_lazy: bool = matches!(
            self.tree.node(self.current).value,
            NodeValue::Paragraph
        );
        let mut i: usize = *container;
        while !matches!(
            self.tree.node(i).value,
            NodeValue::CodeBlock(_) | NodeValue::HtmlBlock(_)
        )
            invariant_except_break
                fences_read(self@.blocks.nodes, -1),
                self@.cursor.ready(line@),
                i == m ==> paragraph_ended(self@.blocks.nodes, i as int, self@.cursor, line@),
                all_opened(p0, m, line@, all_matched, lazy) == all_opened(
                    self@,
                    i as int,
                    line@,
                    all_matched,
                    maybe_lazy,
                ),
            invariant
                text_line(line@),
                self@.current == current,
                in_motion(self@.blocks.nodes, i as int, current, m, s),
            ensures
                has_reached(self@, i as int, line@, current, m, s),
                all_opened(p0, m, line@, all_matched, lazy) == (self@, i as int),
            decreases line@.len() - self.cursor.offset,
        {
            match self.open_new_block(i, line, all_matched, maybe_lazy, Ghost(m), Ghost(s)) {
                None => {
                    break;
                },
                Some(j) => {
                    i = j;
                    if matches!(
                        self.tree.node(i).value,
                        NodeValue::Paragraph | NodeValue::Heading(_) | NodeValue::CodeBlock(_)
                            | NodeValue::HtmlBlock(_)
                    ) {
                        break;
                    }
                    maybe_lazy = false;
                },
            }
        }
        *container = i;
    }
}

} // verus!
