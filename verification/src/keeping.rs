//! What stays as it is while a document is read.

use crate::adding::{blanks_marked, closed_up_to, line_added, text_added};
use crate::blocks::{child_added, close, made_room, Blocks};
use crate::closing::References;
use crate::cursor::with_nonspace;
use crate::descriptions::{details_opened, list_ready};
use crate::document::blocks_closed;
use crate::lines::{at_start, line_processed, lines_processed, text_processed, with_line_feed};
use crate::matching::{checked, walk};
use crate::nodes::{NodeDescriptionItem, NodeList, Value};
use crate::opening::{
    all_opened, atx_heading, behind_marker, fence_block, indented_block, item_opened, moved_to,
    one_opened, opened, takes_rest, with_child,
};
use crate::parser::ParserView;
use crate::references::{definition, stripped, with_reference};
use crate::starts::{block_start, ends_with_paragraph, BlockStart};
use crate::tree::{appended, detached, last_child, NodeView};
use vstd::prelude::*;
use vstd::utf8::decode_utf8;

verus! {

/// All references of `a` are in `b`, and point to where they pointed.
pub open spec fn stand_in(a: References, b: References) -> bool {
    forall|label: Seq<char>| #[trigger]
        a.dom().contains(label) ==> b.dom().contains(label) && b[label] == a[label]
}

/// Definitions do not change what has been defined before: the first one of a label stands.
pub proof fn law_first_definition_stands(content: Seq<u8>, refs: References)
    ensures
        stand_in(refs, stripped(content, refs).1),
    decreases content.len(),
{
    match definition(content) {
        Some(d) => {
            if 0 < d.end <= content.len() {
                let more = with_reference(refs, d.label, d.reference);
                law_first_definition_stands(content.subrange(d.end, content.len() as int), more);
                assert(stand_in(refs, more));
            }
        },
        None => {},
    }
}

/// Closing a block keeps the references.
proof fn lemma_close_keeps(b: Blocks, i: int, info: Option<Seq<char>>)
    ensures
        stand_in(b.refs, close(b, i, info).refs),
{
    law_first_definition_stands(b.nodes[i].content, b.refs);
}

/// Making room keeps the references.
proof fn lemma_made_room_keeps(b: Blocks, p: int, v: Value, info: Option<Seq<char>>)
    ensures
        stand_in(b.refs, made_room(b, p, v, info).0.refs),
    decreases p,
{
    if !b.nodes[p].value.can_contain(v) {
        match b.nodes[p].parent {
            Some(q) => {
                if 0 <= q < p {
                    lemma_close_keeps(b, p, info);
                    lemma_made_room_keeps(close(b, p, info), q, v, info);
                }
            },
            None => {},
        }
    }
}

/// A new block keeps the references.
proof fn lemma_child_keeps(b: Blocks, p: int, v: Value, start_line: int, info: Option<Seq<char>>)
    ensures
        stand_in(b.refs, child_added(b, p, v, start_line, info).0.refs),
{
    lemma_made_room_keeps(b, p, v, info);
}

/// Opening the details of a description keeps the references.
proof fn lemma_details_keep(
    b: Blocks,
    i: int,
    indent: usize,
    start_line: int,
    info: Option<Seq<char>>,
)
    ensures
        stand_in(b.refs, details_opened(b, i, indent, start_line, info).0.refs),
{
    let x = last_child(b.nodes, i)->0;
    let b1 = Blocks { nodes: detached(b.nodes, x), ..b };
    let (b2, list) = list_ready(b1, i, start_line, info);
    lemma_child_keeps(b1, i, Value::DescriptionList, start_line, info);
    let v = Value::DescriptionItem(NodeDescriptionItem { marker_offset: indent, padding: 2 });
    let (b3, item) = child_added(b2, list, v, start_line, info);
    lemma_child_keeps(b2, list, v, start_line, info);
    let (b4, term) = child_added(b3, item, Value::DescriptionTerm, start_line, info);
    lemma_child_keeps(b3, item, Value::DescriptionTerm, start_line, info);
    let b5 = Blocks {
        nodes: appended(b4.nodes, term, NodeView { children: seq![], ..b.nodes[x] }),
        ..b4
    };
    lemma_child_keeps(b5, item, Value::DescriptionDetails, start_line, info);
}

/// Opening a list item keeps the references.
proof fn lemma_item_keeps(p: ParserView, i: int, n: usize, marker: NodeList, line: Seq<u8>)
    ensures
        stand_in(p.blocks.refs, item_opened(p, i, n, marker, line).0.blocks.refs),
{
    let (c, width) = behind_marker(moved_to(p.cursor, line, p.cursor.first_nonspace + n), line);
    let nl = NodeList {
        padding: (n + width) as usize,
        marker_offset: p.cursor.indent as usize,
        ..marker
    };
    let q = ParserView { cursor: c, ..p };
    let (r, list) = with_child(q, i, Value::List(nl));
    lemma_child_keeps(q.blocks, i, Value::List(nl), q.line_number, q.info());
    lemma_child_keeps(q.blocks, i, Value::Item(nl), q.line_number, q.info());
    lemma_child_keeps(r.blocks, list, Value::Item(nl), r.line_number, r.info());
}

/// Opening a block keeps the references.
#[verifier::rlimit(60)]
proof fn lemma_opened_keeps(p: ParserView, i: int, start: BlockStart, line: Seq<u8>)
    ensures
        stand_in(p.blocks.refs, opened(p, i, start, line).0.blocks.refs),
{
    reveal(opened);
    let b = p.blocks;
    let at = p.cursor.first_nonspace;
    let n = p.line_number;
    let info = p.info();
    match start {
        BlockStart::Quote => lemma_child_keeps(b, i, Value::BlockQuote, n, info),
        BlockStart::Atx(_) => {
            lemma_child_keeps(b, i, Value::Heading(atx_heading(line, at)), n, info)
        },
        BlockStart::Fence(k) => {
            lemma_child_keeps(b, i, Value::CodeBlock(fence_block(p.cursor, line, k)), n, info)
        },
        BlockStart::Html(k) => lemma_child_keeps(b, i, Value::HtmlBlock(k, seq![]), n, info),
        BlockStart::Setext(_) => law_first_definition_stands(b.nodes[i].content, b.refs),
        BlockStart::Break => lemma_child_keeps(b, i, Value::ThematicBreak, n, info),
        BlockStart::Footnote(_, e) => {
            let name = decode_utf8(line.subrange(at + 2, at + e));
            lemma_child_keeps(b, i, Value::FootnoteDefinition(name), n, info)
        },
        BlockStart::Details => lemma_details_keep(b, i, p.cursor.indent as usize, n, info),
        BlockStart::Item(k, nl) => lemma_item_keeps(p, i, k, nl, line),
        BlockStart::Indented => {
            lemma_child_keeps(b, i, Value::CodeBlock(indented_block()), n, info)
        },
        BlockStart::Other => {},
    }
}

/// Opening blocks keeps the references.
proof fn lemma_all_opened_keeps(
    p: ParserView,
    i: int,
    line: Seq<u8>,
    all_matched: bool,
    maybe_lazy: bool,
)
    ensures
        stand_in(
            p.blocks.refs,
            all_opened(p, i, line, all_matched, maybe_lazy).0.blocks.refs,
        ),
    decreases line.len() - p.cursor.offset,
{
    let t = p.blocks.nodes;
    let (start, c) = block_start(
        t[i].value is Paragraph,
        ends_with_paragraph(t, i),
        with_nonspace(p.cursor, line),
        line,
        all_matched,
        maybe_lazy,
        p.options,
    );
    lemma_opened_keeps(ParserView { cursor: c, ..p }, i, start, line);
    let v = p.blocks.nodes[i].value;
    if !(v is CodeBlock || v is HtmlBlock) {
        match one_opened(p, i, line, all_matched, maybe_lazy) {
            (q, Some(j)) => {
                if !takes_rest(q.blocks.nodes[j].value) && p.cursor.offset < q.cursor.offset
                    <= line.len() {
                    lemma_all_opened_keeps(q, j, line, all_matched, false);
                }
            },
            (q, None) => {},
        }
    }
}

/// Closing blocks keeps the references.
proof fn lemma_closed_up_to_keeps(b: Blocks, i: int, m: int, info: Option<Seq<char>>)
    ensures
        stand_in(b.refs, closed_up_to(b, i, m, info).refs),
    decreases i,
{
    if i != m {
        match b.nodes[i].parent {
            Some(p) => {
                if 0 <= p < i {
                    lemma_close_keeps(b, i, info);
                    lemma_closed_up_to_keeps(close(b, i, info), p, m, info);
                }
            },
            None => {},
        }
    }
}

/// The rest of a line keeps the references.
proof fn lemma_text_added_keeps(p: ParserView, i: int, m: int, line: Seq<u8>)
    ensures
        stand_in(p.blocks.refs, text_added(p, i, m, line).blocks.refs),
{
    let t = p.blocks.nodes;
    let c = with_nonspace(p.cursor, line);
    let q = ParserView {
        blocks: Blocks { nodes: blanks_marked(t, i, c.blank, p.line_number), ..p.blocks },
        cursor: c,
        ..p
    };
    lemma_closed_up_to_keeps(q.blocks, p.current, m, p.info());
    let r = ParserView { blocks: closed_up_to(q.blocks, p.current, m, p.info()), ..q };
    lemma_child_keeps(r.blocks, i, Value::Paragraph, r.line_number, r.info());
    lemma_close_keeps(line_added(r, i, line).blocks, i, r.info());
}

/// A line keeps the references.
proof fn lemma_line_keeps(p: ParserView, line: Seq<u8>)
    ensures
        stand_in(p.blocks.refs, line_processed(p, line).blocks.refs),
{
    reveal(text_processed);
    let text = with_line_feed(line);
    let q = ParserView {
        cursor: at_start(text, p.line_number),
        line_number: p.line_number + 1,
        ..p
    };
    let w = walk(q.blocks.nodes, q.cursor, text, 0);
    lemma_close_keeps(q.blocks, w.container, q.info());
    match checked(q, text) {
        (r, Some((m, all))) => {
            let lazy = r.blocks.nodes[r.current].value is Paragraph;
            lemma_all_opened_keeps(r, m, text, all, lazy);
            let (a, i) = all_opened(r, m, text, all, lazy);
            lemma_text_added_keeps(a, i, m, text);
        },
        _ => {},
    }
}

/// What a label points to does not change as more lines are read.
pub proof fn law_references_stand(p: ParserView, lines: Seq<Seq<u8>>)
    ensures
        stand_in(p.blocks.refs, lines_processed(p, lines).blocks.refs),
        stand_in(p.blocks.refs, blocks_closed(lines_processed(p, lines)).blocks.refs),
    decreases lines.len(),
{
    if lines.len() > 0 {
        law_references_stand(p, lines.drop_last());
        lemma_line_keeps(lines_processed(p, lines.drop_last()), lines.last());
    }
    let q = lines_processed(p, lines);
    lemma_closed_up_to_keeps(q.blocks, q.current, 0, q.info());
    lemma_close_keeps(closed_up_to(q.blocks, q.current, 0, q.info()), 0, q.info());
}

} // verus!
