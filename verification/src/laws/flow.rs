//! How a line goes through the open blocks.

use crate::adding::{blanks_marked, closed_up_to, shows_blank, unblanked_above, with_blank};
use crate::blocks::{close, Blocks};
use crate::cursor::{with_nonspace, CursorView};
use crate::document::{finalized_nodes, rest_read};
use crate::footnotes::footnotes_processed;
use crate::inlines::{with_all_inlines, InlineView};
use crate::laws::blocks::holder;
use crate::laws::shapes::law_row_of_table;
use crate::laws::tables::law_padded;
use crate::lines::line_processed;
use crate::matching::{checked, continued, walk};
use crate::nodes::Value;
use crate::opening::{all_opened, one_opened, opened, table_opened, table_step};
use crate::parser::ParserView;
use crate::starts::BlockStart;
use crate::table::TableStepView;
use crate::table_blocks::padded;
use crate::tree::{is_tree, last_child, linked, NodeView, Nodes};
use vstd::prelude::*;

verus! {

/// A line is held against the open blocks from the outermost on, each behind what the ones around
/// it have taken of the line. The first one that it does not go on with is where that ends; where
/// it goes on with all, the innermost one is.
pub proof fn law_open_blocks(t: Nodes, c: CursorView, line: Seq<u8>, i: int, x: int)
    requires
        0 <= i < x < t.len(),
        t[i].children.len() > 0 && t[i].children.last() == x,
    ensures
        ({
            let (prefix, next) = continued(t[x], with_nonspace(c, line), line);
            let w = walk(t, c, line, i);
            &&& !t[x].open ==> w.prefix is Matched && w.container == i && w.cursor == c
            &&& t[x].open && prefix is Matched ==> w == walk(t, next, line, x)
            &&& t[x].open && !(prefix is Matched) ==> w.prefix == prefix && w.container == x
                && w.cursor == next
        }),
{
}

/// Where a line does not go on with a block, it goes on in what that is in. A line that closes a code
/// block is done with.
pub proof fn law_not_all_matched(p: ParserView, line: Seq<u8>)
    ensures
        ({
            let w = walk(p.blocks.nodes, p.cursor, line, 0);
            let (q, r) = checked(p, line);
            &&& w.prefix is Matched ==> r == Some((w.container, true)) && q.blocks == p.blocks
            &&& w.prefix is Unmatched ==> r == Some(
                (p.blocks.nodes[w.container].parent->0, false),
            ) && q.blocks == p.blocks
            &&& w.prefix is Closed ==> r is None && q.blocks == close(
                p.blocks,
                w.container,
                p.info(),
            ) && q.current == p.blocks.nodes[w.container].parent->0
        }),
{
}

/// Blocks are opened one in the other as long as the line starts one, up to one that takes the rest
/// of the line. In code and HTML nothing starts. Only the first one can go on with a paragraph
/// lazily.
pub proof fn law_blocks_opened(
    p: ParserView,
    i: int,
    line: Seq<u8>,
    all_matched: bool,
    maybe_lazy: bool,
)
    ensures
        ({
            let r = all_opened(p, i, line, all_matched, maybe_lazy);
            let v = p.blocks.nodes[i].value;
            let (q, next) = one_opened(p, i, line, all_matched, maybe_lazy);
            &&& v is CodeBlock || v is HtmlBlock ==> r == (p, i)
            &&& !(v is CodeBlock) && !(v is HtmlBlock) ==> match next {
                None => r == (q, i),
                Some(j) => {
                    let n = q.blocks.nodes[j].value;
                    &&& n is Paragraph || n is Heading || n is CodeBlock || n is HtmlBlock
                        ==> r == (
                        q,
                        j,
                    )
                    &&& holder(n) && p.cursor.offset < q.cursor.offset <= line.len() ==> r
                        == all_opened(q, j, line, all_matched, false)
                },
            }
        }),
{
}

/// A row of the body gets a cell for each column of its table, and takes the rest of the line.
pub proof fn law_row_opened(p: ParserView, i: int, cells: Seq<Seq<u8>>, line: Seq<u8>, k: int)
    requires
        0 <= i < p.blocks.nodes.len(),
        p.blocks.nodes[i].value is Table,
        0 <= k < p.blocks.nodes[i].value->Table_0.len(),
    ensures
        ({
            let t = p.blocks.nodes;
            let n = t.len() as int;
            let (q, r) = table_opened(p, i, TableStepView::Body { cells }, line);
            let u = q.blocks.nodes;
            &&& r == Some(n)
            &&& u[n].value == Value::TableRow(false) && u[n].parent == Some(i)
            &&& u[n].children.len() == t[i].value->Table_0.len()
            &&& u[n + 1 + k].value is TableCell
            &&& k < cells.len() ==> u[n + 1 + k].content == cells[k]
            &&& k >= cells.len() ==> u[n + 1 + k].content.len() == 0
        }),
{
    let all = padded(cells, p.blocks.nodes[i].value->Table_0.len());
    law_padded(cells, p.blocks.nodes[i].value->Table_0.len(), k);
    law_row_of_table(p.blocks.nodes, i, false, all, p.line_number);
}

/// Tables are made only where they are wanted, and of what is indented by no more than three
/// columns.
pub proof fn law_tables_wanted(p: ParserView, i: int, line: Seq<u8>)
    ensures
        !p.options.extension.table || p.cursor.indent >= 4 ==> opened(p, i, BlockStart::Other, line)
            == (p, None::<int>),
        p.options.extension.table && p.cursor.indent <= 3 ==> opened(p, i, BlockStart::Other, line)
            == table_opened(p, i, table_step(p.blocks.nodes[i], p.cursor, line), line),
        !(p.blocks.nodes[i].value is Paragraph) && !(p.blocks.nodes[i].value is Table)
            ==> table_step(p.blocks.nodes[i], p.cursor, line) is Nothing,
{
    reveal(opened);
}

/// Whether node `j` holds node `i`, at any depth.
pub open spec fn above(t: Nodes, j: int, i: int) -> bool
    decreases i,
{
    t[i].parent matches Some(p) && 0 <= p < i && (j == p || above(t, j, p))
}

/// What is above a node depends on parents alone.
proof fn lemma_above_same(t: Nodes, u: Nodes, j: int, i: int)
    requires
        0 <= i < t.len(),
        t.len() == u.len(),
        forall|k: int| 0 <= k < t.len() ==> (#[trigger] t[k]).parent == u[k].parent,
    ensures
        above(t, j, i) == above(u, j, i),
    decreases i,
{
    assert(t[i].parent == u[i].parent);
    match t[i].parent {
        Some(p) => {
            if 0 <= p < i {
                lemma_above_same(t, u, j, p);
            }
        },
        None => {},
    }
}

/// Nothing above a node stays marked.
proof fn lemma_none_above(t: Nodes, i: int, j: int)
    requires
        0 <= i < t.len(),
        above(t, j, i),
    ensures
        !unblanked_above(t, i)[j].last_line_blank,
    decreases i,
{
    let p = t[i].parent->0;
    let u = with_blank(t, p, false);
    if j == p {
        lemma_unblanked(u, p);
    } else {
        lemma_above_same(t, u, j, p);
        lemma_none_above(u, p, j);
    }
}

/// A blank line is kept in mind of the block it is in and of the last block in that. Of a quote, a
/// heading, a thematic break, a fenced code block and an item that it starts itself it is not. What
/// is around them has none at its end then.
pub proof fn law_blank_kept_in_mind(t: Nodes, i: int, blank: bool, line_number: int)
    requires
        is_tree(t),
        0 <= i < t.len(),
    ensures
        ({
            let u = blanks_marked(t, i, blank, line_number);
            let v = t[i].value;
            let shown = match v {
                Value::BlockQuote | Value::Heading(_) | Value::ThematicBreak => false,
                Value::CodeBlock(b) => !b.fenced,
                Value::Item(_) => t[i].children.len() > 0 || t[i].start_line != line_number,
                _ => true,
            };
            &&& u.len() == t.len()
            &&& u[i].last_line_blank == (blank && shown)
            &&& t[i].parent matches Some(p) ==> !u[p].last_line_blank
            &&& forall|j: int| #[trigger] above(t, j, i) ==> !u[j].last_line_blank
            &&& blank && t[i].children.len() > 0 ==> u[t[i].children.last()].last_line_blank
            &&& forall|j: int| 0 <= j < t.len() ==> #[trigger] u[j] == (NodeView {
                last_line_blank: u[j].last_line_blank,
                ..t[j]
            })
        }),
{
    assert(linked(t, i));
    let t1 = match last_child(t, i) {
        Some(x) => if blank {
            with_blank(t, x, true)
        } else {
            t
        },
        None => t,
    };
    let t2 = with_blank(t1, i, blank && shows_blank(t1[i], line_number));
    if t[i].children.len() > 0 {
        let x = t[i].children.last();
        assert(t[i].children[t[i].children.len() - 1] == x);
    }
    lemma_unblanked(t2, i);
    match t[i].parent {
        Some(p) => {
            assert(t2[i].parent == Some(p));
            lemma_unblanked(with_blank(t2, p, false), p);
        },
        None => {},
    }
    assert forall|j: int| #[trigger] above(t, j, i) implies !blanks_marked(
        t,
        i,
        blank,
        line_number,
    )[j].last_line_blank by {
        lemma_above_same(t, t2, j, i);
        lemma_none_above(t2, i, j);
    }
}

/// Only what is around a block has its mark taken off.
proof fn lemma_unblanked(t: Nodes, i: int)
    requires
        0 <= i < t.len(),
    ensures
        ({
            let u = unblanked_above(t, i);
            &&& u.len() == t.len()
            &&& forall|j: int| i <= j < t.len() ==> #[trigger] u[j] == t[j]
            &&& forall|j: int|
                0 <= j < t.len() ==> #[trigger] u[j] == (NodeView {
                    last_line_blank: u[j].last_line_blank,
                    ..t[j]
                }) && (u[j].last_line_blank ==> t[j].last_line_blank)
        }),
    decreases i,
{
    match t[i].parent {
        Some(p) => {
            if 0 <= p < i {
                lemma_unblanked(with_blank(t, p, false), p);
            }
        },
        None => {},
    }
}

/// Blocks that a line does not go on with are closed, from the innermost one up to the last one that
/// it does go on with, which stays open.
pub proof fn law_closed_up_to(b: Blocks, i: int, m: int, p: int, info: Option<Seq<char>>)
    requires
        0 <= p < i,
        b.nodes[i].parent == Some(p),
    ensures
        closed_up_to(b, m, m, info) == b,
        i != m ==> closed_up_to(b, i, m, info) == closed_up_to(close(b, i, info), p, m, info),
{
}

/// Footnotes are numbered only where they are wanted.
pub proof fn law_footnotes_wanted(p: ParserView, found: Seq<Seq<InlineView>>)
    ensures
        !p.options.extension.footnotes ==> finalized_nodes(p, found) == with_all_inlines(
            p,
            found,
        ).blocks.nodes,
        p.options.extension.footnotes ==> finalized_nodes(p, found) == footnotes_processed(
            with_all_inlines(p, found).blocks.nodes,
        ),
{
}

/// What is left of the text when the document ends is a line too, and nothing is one where nothing is
/// left.
pub proof fn law_rest_is_a_line(p: ParserView, rest: Seq<u8>)
    ensures
        rest.len() > 0 ==> rest_read(p, rest) == line_processed(p, rest),
        rest.len() == 0 ==> rest_read(p, rest) == p,
{
}

} // verus!
