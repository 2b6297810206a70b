//! Every item that a line opens is in its list.

use crate::blocks::{child_added, lemma_last_child, Blocks};
use crate::ctype::{only, run_end};
use crate::cursor::{lemma_advanced_bytes, with_nonspace, CursorView};
use crate::descriptions::{details_opened, list_at_end, list_ready, reopened};
use crate::nesting::{
    in_document, item_listed, law_item_in_its_list, lemma_all_opened_nested, lemma_child_nested,
    lemma_marker_stands, lemma_opened_nested, lemma_parent, marker_of, marker_stands, nested,
    well_placed,
};
use crate::nodes::{same_list, NodeDescriptionItem, NodeList, Value};
use crate::opening::{
    all_opened, atx_heading, behind_marker, columns_of, fence_block, indented_block, item_opened,
    moved_to, one_opened, opened, table_opened, table_step, takes_rest, with_child,
};
use crate::parser::ParserView;
use crate::starts::{block_start, ends_with_paragraph, rest_of, BlockStart};
use crate::table::TableStepView;
use crate::table_blocks::{cell_node, cells_added, header_opened, padded, row_added};
use crate::tree::{appended, detached, fresh, last_child, lemma_detached, linked, NodeView, Nodes};
use vstd::prelude::*;
use vstd::utf8::decode_utf8;

verus! {

/// Whether the item `j` is the only block of a list that has its marker and is among the nodes
/// from `n` on. Its marker is indented by no more than three columns and, with what follows it,
/// at least two columns wide.
pub open spec fn in_new_list(u: Nodes, j: int, n: int) -> bool {
    match (u[j].value, u[j].parent) {
        (Value::Item(nl), Some(l)) => {
            &&& n <= l < j
            &&& u[l].value == Value::List(nl)
            &&& u[l].children == seq![j]
            &&& nl.padding >= 2 && nl.marker_offset <= 3
        },
        _ => false,
    }
}

/// Whether the item `j` is in the list `i`, which is of its kind in `t`. Its marker is indented by
/// no more than three columns and, with what follows it, at least two columns wide.
pub open spec fn in_old_list(t: Nodes, i: int, u: Nodes, j: int) -> bool {
    match (u[j].value, t[i].value) {
        (Value::Item(nl), Value::List(of)) => {
            &&& u[j].parent == Some(i)
            &&& same_list(nl, of)
            &&& nl.padding >= 2 && nl.marker_offset <= 3
        },
        _ => false,
    }
}

/// Whether blocks of the kind `v` can contain every kind of block that the document can.
spec fn roomy(v: Value) -> bool {
    v.can_contain(Value::BlockQuote)
}

/// The blocks of `t` are what they were, lists hold what they did, and items are where they were.
spec fn undisturbed(t: Nodes, u: Nodes) -> bool {
    &&& t.len() <= u.len()
    &&& forall|j: int|
        #![trigger t[j]]
        #![trigger u[j]]
        0 <= j < t.len() ==> {
            &&& u[j].value == t[j].value
            &&& t[j].value is List ==> u[j].children == t[j].children
            &&& t[j].value is Item ==> u[j].parent == t[j].parent
        }
}

/// No item is among the nodes of `u` from `n` on.
spec fn no_items(u: Nodes, n: int) -> bool {
    forall|j: int| n <= j < u.len() ==> !((#[trigger] u[j]).value is Item)
}

/// Every item among the nodes of `u` from `n` on is in a list of its own there.
spec fn in_new_lists(u: Nodes, n: int) -> bool {
    forall|j: int| n <= j < u.len() && (#[trigger] u[j]).value is Item ==> in_new_list(u, j, n)
}

/// Whether only the line feed of the line is left at the cursor.
spec fn at_line_end(c: CursorView, line: Seq<u8>) -> bool {
    line.len() > 0 && c.offset == line.len() - 1 && line.last() == 10
}

/// Whether the line goes on in the block `i` with room for every block there, or with nothing.
spec fn goes_on_at(p: ParserView, i: int, line: Seq<u8>) -> bool {
    let v = p.blocks.nodes[i].value;
    roomy(v) || (at_line_end(p.cursor, line) && !(v is Paragraph))
}

/// Whether the start `start` can stand in the block `i`.
spec fn start_stands(p: ParserView, i: int, start: BlockStart) -> bool {
    match start {
        BlockStart::Details => ends_with_paragraph(p.blocks.nodes, i),
        BlockStart::Setext(_) => p.blocks.nodes[i].value is Paragraph,
        BlockStart::Item(n, _) => marker_stands(p.cursor, n),
        _ => true,
    }
}

/// A block that goes where there is room for it disturbs nothing.
proof fn lemma_child_undisturbed(
    b: Blocks,
    p: int,
    v: Value,
    start_line: int,
    info: Option<Seq<char>>,
)
    requires
        0 <= p < b.nodes.len(),
        b.nodes[p].value.can_contain(v),
        !(b.nodes[p].value is List),
    ensures
        ({
            let (c, id) = child_added(b, p, v, start_line, info);
            &&& undisturbed(b.nodes, c.nodes)
            &&& id == b.nodes.len()
            &&& c.nodes.len() == b.nodes.len() + 1
            &&& c.nodes[id].value == v
            &&& c.nodes[id].children.len() == 0
        }),
{
}

/// Opening again disturbs nothing.
proof fn lemma_reopened_undisturbed(t: Nodes, i: int)
    requires
        0 <= i < t.len(),
    ensures
        undisturbed(t, reopened(t, i)),
        reopened(t, i).len() == t.len(),
    decreases i,
{
    let u = t.update(i, NodeView { open: true, ..t[i] });
    match t[i].parent {
        Some(p) => {
            if 0 <= p < i {
                lemma_reopened_undisturbed(u, p);
            }
        },
        None => {},
    }
}

/// A description disturbs nothing, and holds no item.
#[verifier::rlimit(60)]
proof fn lemma_details_undisturbed(
    b: Blocks,
    i: int,
    indent: usize,
    start_line: int,
    info: Option<Seq<char>>,
)
    requires
        nested(b.nodes),
        in_document(b.nodes, i),
        ends_with_paragraph(b.nodes, i),
    ensures
        ({
            let (c, id) = details_opened(b, i, indent, start_line, info);
            &&& undisturbed(b.nodes, c.nodes)
            &&& no_items(c.nodes, b.nodes.len() as int)
            &&& b.nodes.len() <= id < c.nodes.len()
            &&& c.nodes[id].value is DescriptionDetails
        }),
{
    let t = b.nodes;
    lemma_last_child(t, i);
    let x = last_child(t, i)->0;
    assert(t[x].value.block() && well_placed(t, x));
    assert(roomy(t[i].value));
    lemma_detached(t, x);
    let b1 = Blocks { nodes: detached(t, x), ..b };
    assert(undisturbed(t, b1.nodes));
    let (b2, list) = list_ready(b1, i, start_line, info);
    match list_at_end(b1.nodes, i) {
        Some(l) => {
            lemma_last_child(b1.nodes, i);
            lemma_reopened_undisturbed(b1.nodes, l);
        },
        None => {
            lemma_child_undisturbed(b1, i, Value::DescriptionList, start_line, info);
        },
    }
    assert(undisturbed(t, b2.nodes));
    assert(b2.nodes[list].value is DescriptionList);
    assert(no_items(b2.nodes, t.len() as int));
    let v = Value::DescriptionItem(NodeDescriptionItem { marker_offset: indent, padding: 2 });
    let (b3, item) = child_added(b2, list, v, start_line, info);
    lemma_child_undisturbed(b2, list, v, start_line, info);
    let (b4, term) = child_added(b3, item, Value::DescriptionTerm, start_line, info);
    lemma_child_undisturbed(b3, item, Value::DescriptionTerm, start_line, info);
    assert(undisturbed(t, b4.nodes));
    assert(no_items(b4.nodes, t.len() as int));
    let n = NodeView { children: seq![], ..t[x] };
    let b5 = Blocks { nodes: appended(b4.nodes, term, n), ..b4 };
    assert(undisturbed(b4.nodes, b5.nodes));
    assert(b5.nodes[item].value == b4.nodes[item].value);
    lemma_child_undisturbed(b5, item, Value::DescriptionDetails, start_line, info);
}

/// Cells are no items.
proof fn lemma_cells_no_items(t: Nodes, row: int, cells: Seq<Seq<u8>>, start_line: int)
    requires
        0 <= row < t.len(),
    ensures
        no_items(cells_added(t, row, cells, start_line), t.len() as int),
        cells_added(t, row, cells, start_line).len() == t.len() + cells.len(),
        forall|j: int|
            0 <= j < t.len() ==> (#[trigger] cells_added(t, row, cells, start_line)[j]).value
                == t[j].value,
    decreases cells.len(),
{
    if cells.len() > 0 {
        lemma_cells_no_items(t, row, cells.drop_last(), start_line);
        let u = cells_added(t, row, cells.drop_last(), start_line);
        assert(cell_node(cells.last(), start_line).value is TableCell);
        assert(u[row].value == t[row].value);
    }
}

/// Rows hold no items.
proof fn lemma_row_no_items(
    t: Nodes,
    table: int,
    header: bool,
    cells: Seq<Seq<u8>>,
    start_line: int,
)
    requires
        0 <= table < t.len(),
    ensures
        no_items(row_added(t, table, header, cells, start_line), t.len() as int),
        row_added(t, table, header, cells, start_line).len() > t.len(),
        forall|j: int|
            0 <= j < t.len() ==> (#[trigger] row_added(
                t,
                table,
                header,
                cells,
                start_line,
            )[j]).value == t[j].value,
        row_added(t, table, header, cells, start_line)[t.len() as int].value is TableRow,
{
    let n = fresh(Value::TableRow(header), start_line);
    let u = appended(t, table, n);
    lemma_cells_no_items(u, t.len() as int, cells, start_line);
    let v = row_added(t, table, header, cells, start_line);
    assert forall|j: int| t.len() <= j < v.len() implies !((#[trigger] v[j]).value is Item) by {
        if j < u.len() {
            assert(v[j].value == u[j].value);
        }
    }
    assert forall|j: int| 0 <= j < t.len() implies (#[trigger] v[j]).value == t[j].value by {
        assert(v[j].value == u[j].value);
    }
}

/// A table holds no items.
#[verifier::rlimit(60)]
proof fn lemma_table_no_items(p: ParserView, i: int, line: Seq<u8>)
    requires
        nested(p.blocks.nodes),
        in_document(p.blocks.nodes, i),
    ensures
        ({
            let t = p.blocks.nodes;
            let (q, r) = table_opened(p, i, table_step(t[i], p.cursor, line), line);
            let u = q.blocks.nodes;
            &&& no_items(u, t.len() as int)
            &&& match r {
                Some(j) => if j < t.len() {
                    u[j].value is Paragraph
                } else {
                    j < u.len() && (u[j].value is Table || u[j].value is TableRow) && q.cursor
                        == moved_to(p.cursor, line, line.len() - 1)
                },
                None => true,
            }
        }),
{
    let t = p.blocks.nodes;
    match table_step(t[i], p.cursor, line) {
        TableStepView::Header { row, alignments } => {
            lemma_parent(t, i);
            let up = t[i].parent->0;
            let n = t.len() as int;
            let t0 = appended(t, up, fresh(Value::Table(alignments), p.line_number));
            let t1 = detached(t0, i);
            assert(t0[n].value is Table);
            assert(t1.len() == t0.len());
            assert(t1[n].value is Table);
            lemma_row_no_items(t1, n, true, row.cells, p.line_number);
            let t2 = row_added(t1, n, true, row.cells, p.line_number);
            assert(t2[n].value is Table);
            let t3 = header_opened(t, i, row, alignments, p.line_number).0;
            assert(t3.len() >= t2.len());
            assert forall|j: int| n <= j < t3.len() implies !((#[trigger] t3[j]).value is Item) by {
                if j < t2.len() {
                    assert(t3[j].value == t2[j].value);
                    if j == n {
                        assert(t2[j].value is Table);
                    } else {
                        assert(!(t2[j].value is Item));
                    }
                }
            }
            assert(t3[n].value == t2[n].value);
        },
        TableStepView::Body { cells } => {
            lemma_row_no_items(
                t,
                i,
                false,
                padded(cells, columns_of(t[i].value)),
                p.line_number,
            );
        },
        _ => {},
    }
}

/// An item goes to a new list, or to the one that the line has reached.
proof fn lemma_item_placed(p: ParserView, i: int, n: usize, marker: NodeList, line: Seq<u8>)
    requires
        nested(p.blocks.nodes),
        in_document(p.blocks.nodes, i),
        marker_stands(p.cursor, n),
    ensures
        ({
            let (q, id) = item_opened(p, i, n, marker, line);
            let t = p.blocks.nodes;
            let u = q.blocks.nodes;
            &&& forall|j: int|
                t.len() <= j < u.len() && (#[trigger] u[j]).value is Item ==> in_new_list(
                    u,
                    j,
                    t.len() as int,
                ) || in_old_list(t, i, u, j)
            &&& u[id].value is Item
            &&& roomy(t[i].value) ==> undisturbed(t, u)
        }),
{
    law_item_in_its_list(p, i, n, marker, line);
    let t = p.blocks.nodes;
    let nl = marker_of(p, n, marker, line);
    let goes_on = match t[i].value {
        Value::List(of) => same_list(nl, of),
        _ => false,
    };
    let (c, width) = behind_marker(moved_to(p.cursor, line, p.cursor.first_nonspace + n), line);
    let q = ParserView { cursor: c, ..p };
    if goes_on {
        lemma_child_nested(q.blocks, i, Value::Item(nl), q.line_number, q.info());
    } else {
        let (r, list) = with_child(q, i, Value::List(nl));
        lemma_child_nested(q.blocks, i, Value::List(nl), q.line_number, q.info());
        lemma_child_nested(r.blocks, list, Value::Item(nl), r.line_number, r.info());
        let u = item_opened(p, i, n, marker, line).0.blocks.nodes;
        assert(u[list].value is List);
        if roomy(t[i].value) {
            lemma_child_undisturbed(q.blocks, i, Value::List(nl), q.line_number, q.info());
        }
    }
}

/// Items that are opened are in new lists, or in the list that the line has reached.
#[verifier::rlimit(60)]
proof fn lemma_opened_placed(p: ParserView, i: int, start: BlockStart, line: Seq<u8>)
    requires
        nested(p.blocks.nodes),
        in_document(p.blocks.nodes, i),
        start_stands(p, i, start),
    ensures
        ({
            let t = p.blocks.nodes;
            let u = opened(p, i, start, line).0.blocks.nodes;
            forall|j: int|
                t.len() <= j < u.len() && (#[trigger] u[j]).value is Item ==> in_new_list(
                    u,
                    j,
                    t.len() as int,
                ) || in_old_list(t, i, u, j)
        }),
{
    reveal(opened);
    let b = p.blocks;
    let at = p.cursor.first_nonspace;
    let n = p.line_number;
    let info = p.info();
    match start {
        BlockStart::Quote => lemma_child_nested(b, i, Value::BlockQuote, n, info),
        BlockStart::Atx(_) => {
            lemma_child_nested(b, i, Value::Heading(atx_heading(line, at)), n, info)
        },
        BlockStart::Fence(k) => {
            lemma_child_nested(b, i, Value::CodeBlock(fence_block(p.cursor, line, k)), n, info)
        },
        BlockStart::Html(k) => lemma_child_nested(b, i, Value::HtmlBlock(k, seq![]), n, info),
        BlockStart::Setext(sc) => {},
        BlockStart::Break => lemma_child_nested(b, i, Value::ThematicBreak, n, info),
        BlockStart::Footnote(_, e) => {
            let name = decode_utf8(line.subrange(at + 2, at + e));
            lemma_child_nested(b, i, Value::FootnoteDefinition(name), n, info)
        },
        BlockStart::Details => lemma_details_undisturbed(b, i, p.cursor.indent as usize, n, info),
        BlockStart::Item(k, nl) => lemma_item_placed(p, i, k, nl, line),
        BlockStart::Indented => {
            lemma_child_nested(b, i, Value::CodeBlock(indented_block()), n, info)
        },
        BlockStart::Other => lemma_table_no_items(p, i, line),
    }
}

/// What is opened where there is room for it disturbs nothing.
#[verifier::rlimit(60)]
proof fn lemma_opened_undisturbed(p: ParserView, i: int, start: BlockStart, line: Seq<u8>)
    requires
        nested(p.blocks.nodes),
        in_document(p.blocks.nodes, i),
        start_stands(p, i, start),
        roomy(p.blocks.nodes[i].value),
    ensures
        undisturbed(p.blocks.nodes, opened(p, i, start, line).0.blocks.nodes),
{
    reveal(opened);
    let b = p.blocks;
    let at = p.cursor.first_nonspace;
    let n = p.line_number;
    let info = p.info();
    match start {
        BlockStart::Quote => lemma_child_undisturbed(b, i, Value::BlockQuote, n, info),
        BlockStart::Atx(_) => {
            lemma_child_undisturbed(b, i, Value::Heading(atx_heading(line, at)), n, info)
        },
        BlockStart::Fence(k) => {
            let v = Value::CodeBlock(fence_block(p.cursor, line, k));
            lemma_child_undisturbed(b, i, v, n, info)
        },
        BlockStart::Html(k) => {
            lemma_child_undisturbed(b, i, Value::HtmlBlock(k, seq![]), n, info)
        },
        BlockStart::Setext(sc) => {},
        BlockStart::Break => lemma_child_undisturbed(b, i, Value::ThematicBreak, n, info),
        BlockStart::Footnote(_, e) => {
            let name = decode_utf8(line.subrange(at + 2, at + e));
            lemma_child_undisturbed(b, i, Value::FootnoteDefinition(name), n, info)
        },
        BlockStart::Details => lemma_details_undisturbed(b, i, p.cursor.indent as usize, n, info),
        BlockStart::Item(k, nl) => lemma_item_placed(p, i, k, nl, line),
        BlockStart::Indented => {
            lemma_child_undisturbed(b, i, Value::CodeBlock(indented_block()), n, info)
        },
        BlockStart::Other => {},
    }
}

/// Where the line goes on behind what it opens, there is room for every block, or nothing of the
/// line is left.
#[verifier::rlimit(60)]
proof fn lemma_opened_reaches(p: ParserView, i: int, start: BlockStart, line: Seq<u8>)
    requires
        nested(p.blocks.nodes),
        in_document(p.blocks.nodes, i),
        start_stands(p, i, start),
        0 <= p.cursor.offset,
        line.len() > 0,
        line.last() == 10,
    ensures
        ({
            let (q, r) = opened(p, i, start, line);
            match r {
                Some(j) => goes_on_at(q, j, line) || takes_rest(q.blocks.nodes[j].value)
                    || q.cursor.offset <= p.cursor.offset,
                None => q.blocks == p.blocks,
            }
        }),
{
    reveal(opened);
    let b = p.blocks;
    let at = p.cursor.first_nonspace;
    let n = p.line_number;
    let info = p.info();
    let last = line.len() - 1;
    if p.cursor.offset <= last {
        lemma_advanced_bytes(p.cursor, line, last - p.cursor.offset);
    }
    match start {
        BlockStart::Quote => lemma_child_nested(b, i, Value::BlockQuote, n, info),
        BlockStart::Atx(_) => {
            lemma_child_nested(b, i, Value::Heading(atx_heading(line, at)), n, info)
        },
        BlockStart::Fence(k) => {
            lemma_child_nested(b, i, Value::CodeBlock(fence_block(p.cursor, line, k)), n, info)
        },
        BlockStart::Html(k) => lemma_child_nested(b, i, Value::HtmlBlock(k, seq![]), n, info),
        BlockStart::Setext(sc) => {},
        BlockStart::Break => lemma_child_nested(b, i, Value::ThematicBreak, n, info),
        BlockStart::Footnote(_, e) => {
            let name = decode_utf8(line.subrange(at + 2, at + e));
            lemma_child_nested(b, i, Value::FootnoteDefinition(name), n, info)
        },
        BlockStart::Details => lemma_details_undisturbed(b, i, p.cursor.indent as usize, n, info),
        BlockStart::Item(k, nl) => lemma_item_placed(p, i, k, nl, line),
        BlockStart::Indented => {
            lemma_child_nested(b, i, Value::CodeBlock(indented_block()), n, info)
        },
        BlockStart::Other => lemma_table_no_items(p, i, line),
    }
}

/// Nothing is opened where nothing of the line is left.
proof fn lemma_nothing_opened(
    p: ParserView,
    i: int,
    line: Seq<u8>,
    all_matched: bool,
    maybe_lazy: bool,
)
    requires
        at_line_end(p.cursor, line),
        !(p.blocks.nodes[i].value is Paragraph),
    ensures
        ({
            let (q, r) = one_opened(p, i, line, all_matched, maybe_lazy);
            q.blocks == p.blocks && r is None
        }),
{
    reveal(block_start);
    reveal(opened);
    let c = with_nonspace(p.cursor, line);
    let rest = rest_of(c, line);
    assert(c.first_nonspace == p.cursor.offset);
    assert(rest.len() == 1 && rest[0] == 10);
    assert(run_end(rest, 0, only(35)) == 0);
}

/// What starts in a block can start there.
proof fn lemma_start_stands(
    p: ParserView,
    i: int,
    line: Seq<u8>,
    all_matched: bool,
    maybe_lazy: bool,
)
    ensures
        ({
            let t = p.blocks.nodes;
            let (start, c) = block_start(
                t[i].value is Paragraph,
                ends_with_paragraph(t, i),
                with_nonspace(p.cursor, line),
                line,
                all_matched,
                maybe_lazy,
                p.options,
            );
            start_stands(ParserView { cursor: c, ..p }, i, start) && c.offset == p.cursor.offset
        }),
{
    let t = p.blocks.nodes;
    lemma_marker_stands(
        t[i].value is Paragraph,
        ends_with_paragraph(t, i),
        p.cursor,
        line,
        all_matched,
        maybe_lazy,
        p.options,
    );
    reveal(block_start);
}

/// What one step opens: items where they belong, and nothing is disturbed where there is room.
proof fn lemma_one_opened_placed(
    p: ParserView,
    i: int,
    line: Seq<u8>,
    all_matched: bool,
    maybe_lazy: bool,
)
    requires
        nested(p.blocks.nodes),
        in_document(p.blocks.nodes, i),
        0 <= p.cursor.offset,
        line.len() > 0,
        line.last() == 10,
    ensures
        ({
            let (q, r) = one_opened(p, i, line, all_matched, maybe_lazy);
            let t = p.blocks.nodes;
            let u = q.blocks.nodes;
            &&& nested(u)
            &&& t.len() <= u.len()
            &&& forall|j: int|
                t.len() <= j < u.len() && (#[trigger] u[j]).value is Item ==> in_new_list(
                    u,
                    j,
                    t.len() as int,
                ) || in_old_list(t, i, u, j)
            &&& roomy(t[i].value) ==> undisturbed(t, u)
            &&& match r {
                Some(j) => in_document(u, j) && (goes_on_at(q, j, line) || takes_rest(u[j].value)
                    || q.cursor.offset <= p.cursor.offset),
                None => u == t,
            }
        }),
{
    let t = p.blocks.nodes;
    let (start, c) = block_start(
        t[i].value is Paragraph,
        ends_with_paragraph(t, i),
        with_nonspace(p.cursor, line),
        line,
        all_matched,
        maybe_lazy,
        p.options,
    );
    let q = ParserView { cursor: c, ..p };
    lemma_start_stands(p, i, line, all_matched, maybe_lazy);
    lemma_opened_nested(q, i, start, line);
    lemma_opened_placed(q, i, start, line);
    lemma_opened_reaches(q, i, start, line);
    if roomy(t[i].value) {
        lemma_opened_undisturbed(q, i, start, line);
    }
}

/// Where there is room, or nothing of the line is left, every item that is opened is in a list of
/// its own, and nothing is disturbed.
proof fn lemma_all_opened_placed(
    p: ParserView,
    i: int,
    line: Seq<u8>,
    all_matched: bool,
    maybe_lazy: bool,
)
    requires
        nested(p.blocks.nodes),
        in_document(p.blocks.nodes, i),
        0 <= p.cursor.offset,
        line.len() > 0,
        line.last() == 10,
        goes_on_at(p, i, line),
    ensures
        ({
            let t = p.blocks.nodes;
            let u = all_opened(p, i, line, all_matched, maybe_lazy).0.blocks.nodes;
            undisturbed(t, u) && in_new_lists(u, t.len() as int)
        }),
    decreases line.len() - p.cursor.offset,
{
    let t = p.blocks.nodes;
    let v = t[i].value;
    if !(v is CodeBlock || v is HtmlBlock) {
        if roomy(v) {
            lemma_one_opened_placed(p, i, line, all_matched, maybe_lazy);
            let (q, r) = one_opened(p, i, line, all_matched, maybe_lazy);
            match r {
                Some(j) => {
                    if !takes_rest(q.blocks.nodes[j].value) && p.cursor.offset < q.cursor.offset
                        <= line.len() {
                        lemma_all_opened_placed(q, j, line, all_matched, false);
                        let u = all_opened(q, j, line, all_matched, false).0.blocks.nodes;
                        lemma_new_lists_last(q.blocks.nodes, u, t.len() as int);
                    }
                },
                None => {},
            }
        } else {
            lemma_nothing_opened(p, i, line, all_matched, maybe_lazy);
        }
    }
}

/// Items stay in their lists where nothing is disturbed.
proof fn lemma_new_lists_last(t: Nodes, u: Nodes, n: int)
    requires
        0 <= n <= t.len(),
        undisturbed(t, u),
        in_new_lists(t, n),
        in_new_lists(u, t.len() as int),
    ensures
        in_new_lists(u, n),
{
    assert forall|j: int| n <= j < u.len() && (#[trigger] u[j]).value is Item implies in_new_list(
        u,
        j,
        n,
    ) by {
        if j < t.len() {
            assert(t[j].value is Item);
            let l = t[j].parent->0;
            assert(t[l].value is List);
            assert(u[l].value == t[l].value);
        }
    }
}

/// Every item that a line opens is in the list that the line has reached, if that list is of its
/// kind, or else in a new list, which has its marker and of which it is the first and only block.
/// Its marker is indented by no more than three columns and, with what follows it, at least two
/// columns wide.
pub proof fn law_opened_items_listed(
    p: ParserView,
    i: int,
    line: Seq<u8>,
    all_matched: bool,
    maybe_lazy: bool,
    j: int,
)
    requires
        nested(p.blocks.nodes),
        in_document(p.blocks.nodes, i),
        0 <= p.cursor.offset,
        line.len() > 0,
        line.last() == 10,
    ensures
        ({
            let t = p.blocks.nodes;
            let u = all_opened(p, i, line, all_matched, maybe_lazy).0.blocks.nodes;
            t.len() <= j < u.len() && u[j].value is Item ==> item_listed(u, j) && (in_old_list(
                t,
                i,
                u,
                j,
            ) || in_new_list(u, j, t.len() as int))
        }),
{
    let t = p.blocks.nodes;
    let v = t[i].value;
    if !(v is CodeBlock || v is HtmlBlock) {
        lemma_one_opened_placed(p, i, line, all_matched, maybe_lazy);
        let (q, r) = one_opened(p, i, line, all_matched, maybe_lazy);
        let m = q.blocks.nodes;
        match r {
            Some(k) => {
                if !takes_rest(m[k].value) && p.cursor.offset < q.cursor.offset <= line.len() {
                    lemma_all_opened_placed(q, k, line, all_matched, false);
                    let u = all_opened(q, k, line, all_matched, false).0.blocks.nodes;
                    if t.len() <= j < m.len() && u[j].value is Item {
                        assert(m[j].value is Item);
                        if in_new_list(m, j, t.len() as int) {
                            let l = m[j].parent->0;
                            assert(m[l].value is List);
                            assert(u[l].value == m[l].value);
                        }
                    }
                }
            },
            None => {},
        }
    }
    lemma_all_opened_nested(p, i, line, all_matched, maybe_lazy);
    let u = all_opened(p, i, line, all_matched, maybe_lazy).0.blocks.nodes;
    if t.len() <= j < u.len() {
        assert(u[j].value.block() && well_placed(u, j));
        assert(linked(u, j));
    }
}

} // verus!
