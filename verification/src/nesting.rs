//! Every block is in a block that can contain it.

use crate::adding::{
    blanks_marked, closed_up_to, left_of, lemma_blanks_marked, line_added, only_marked, rest_added,
    text_added, text_part,
};
use crate::blocks::{around, child_added, close, fits_document, lemma_last_child, made_room, Blocks};
use crate::ctype::{digits, run_end};
use crate::cursor::{byte_width, column_after, with_nonspace, CursorView};
use crate::descriptions::{details_opened, list_at_end, list_ready, reopened};
use crate::document::{blocks_of, rest_read};
use crate::lines::{
    at_start, cut_at_end, fed, front_of, line_processed, lines_processed, size_after,
    text_processed, text_start, with_front_matter, with_line_feed,
};
use crate::matching::{checked, continued, walk};
use crate::nodes::{same_list, NodeDescriptionItem, NodeHeading, NodeList, TableAlignment, Value};
use crate::opening::{
    all_opened, atx_heading, behind_marker, columns_of, fence_block, indented_block, item_opened,
    moved_to, one_opened, opened, setext_level, table_step, takes_rest, with_child,
};
use crate::options::ComrakOptions;
use crate::parser::{starting, ParserView};
use crate::references::stripped;
use crate::starts::{block_start, ends_with_paragraph, BlockStart};
use crate::strings::blank_text;
use crate::table::{RowView, TableStepView};
use crate::table_blocks::{cell_node, cells_added, header_opened, lead_node, padded, row_added};
use crate::tree::{
    appended, detached, fresh, inserted, is_tree, last_child, lemma_appended, lemma_detached,
    lemma_inserted, lemma_same_shape, linked, same_shape, NodeView, Nodes,
};
use vstd::prelude::*;
use vstd::utf8::decode_utf8;

verus! {

/// Whether a block `v` in the block `around` is, if it is an item, in a list of its kind, behind
/// a marker that is indented by less than a code block is and, with what follows it, at least two
/// columns wide.
pub open spec fn listed(around: Value, v: Value) -> bool {
    match v {
        Value::Item(nl) => match around {
            Value::List(of) => same_list(nl, of) && nl.padding >= 2 && nl.marker_offset <= 3,
            _ => false,
        },
        _ => true,
    }
}

/// Whether the item `i` is in a list of its kind.
pub open spec fn item_listed(t: Nodes, i: int) -> bool {
    match t[i].parent {
        Some(p) => 0 <= p < i && listed(t[p].value, t[i].value),
        None => false,
    }
}

/// Whether `i` is in a block that can contain it, if it is in one. Items are.
pub open spec fn well_placed(t: Nodes, i: int) -> bool {
    match t[i].parent {
        Some(p) => t[p].value.can_contain(t[i].value) && listed(t[p].value, t[i].value),
        None => !(t[i].value is Item),
    }
}

/// The nodes are blocks under a document, each in a block that can contain it.
pub open spec fn nested(t: Nodes) -> bool {
    &&& is_tree(t)
    &&& t[0].value is Document
    &&& forall|i: int| 0 <= i < t.len() ==> (#[trigger] t[i]).value.block() && well_placed(t, i)
}

/// Whether `i` is in the document.
pub open spec fn in_document(t: Nodes, i: int) -> bool {
    0 <= i < t.len() && around(t, 0, i)
}

/// Whether blocks of the kind `v` stay as they were made.
pub open spec fn lasting(v: Value) -> bool {
    !(v is Paragraph || v is CodeBlock || v is HtmlBlock || v is List)
}

/// The blocks of `t` that stay as they were made are in `u`, and where they are in `t`.
pub open spec fn kept(t: Nodes, u: Nodes) -> bool {
    &&& t.len() <= u.len()
    &&& forall|j: int|
        0 <= j < t.len() && lasting((#[trigger] t[j]).value) ==> u[j].value == t[j].value
            && u[j].parent == t[j].parent
}

/// Whether a block of the kind `b` can stand where one of the kind `a` does.
spec fn replaces(a: Value, b: Value) -> bool {
    ||| a == b
    ||| a is CodeBlock && b is CodeBlock
    ||| a is HtmlBlock && b is HtmlBlock
    ||| match (a, b) {
        (Value::List(of), Value::List(nl)) => same_list(nl, of) && same_list(of, nl),
        _ => false,
    }
    ||| a is Paragraph && b is Heading
}

/// What a block is in depends on what is around it alone.
proof fn lemma_around_frame(t: Nodes, u: Nodes, i: int, j: int)
    requires
        around(t, i, j),
        forall|k: int| 0 <= k <= j ==> (#[trigger] u[k]).parent == t[k].parent,
        0 <= j,
    ensures
        around(u, i, j),
    decreases j,
{
    if i != j {
        assert(u[j].parent == t[j].parent);
        lemma_around_frame(t, u, i, t[j].parent->0);
    }
}

/// The parent of a block in the document is in the document.
pub proof fn lemma_parent(t: Nodes, i: int)
    requires
        is_tree(t),
        in_document(t, i),
    ensures
        i != 0 ==> t[i].parent is Some,
        t[i].parent matches Some(p) ==> 0 <= p < i && in_document(t, p),
{
    assert(linked(t, i));
}

/// A block can be replaced by one that stands where it does.
proof fn lemma_replaced(t: Nodes, i: int, n: NodeView)
    requires
        nested(t),
        0 <= i < t.len(),
        n.parent == t[i].parent,
        n.children == t[i].children,
        replaces(t[i].value, n.value),
    ensures
        nested(t.update(i, n)),
        kept(t, t.update(i, n)),
        forall|j: int| in_document(t, j) ==> #[trigger] in_document(t.update(i, n), j),
{
    let u = t.update(i, n);
    assert(same_shape(t, u));
    lemma_same_shape(t, u);
    assert forall|j: int| 0 <= j < u.len() implies (#[trigger] u[j]).value.block()
        && well_placed(u, j) by {
        assert(t[j].value.block() && well_placed(t, j));
        assert(linked(t, j));
    }
    assert forall|j: int| in_document(t, j) implies #[trigger] in_document(u, j) by {
        lemma_around_frame(t, u, 0, j);
    }
}

/// What is in the document stays there when a paragraph is taken out, but for that paragraph.
proof fn lemma_around_detached(t: Nodes, i: int, j: int)
    requires
        nested(t),
        0 <= i < t.len(),
        t[i].value is Paragraph,
        in_document(t, j),
        j != i,
    ensures
        in_document(detached(t, i), j),
    decreases j,
{
    let u = detached(t, i);
    lemma_detached(t, i);
    assert(linked(t, i));
    assert(linked(t, j));
    assert(u[j].parent == t[j].parent);
    if j != 0 {
        lemma_parent(t, j);
        let p = t[j].parent->0;
        assert(t[j].value.block() && well_placed(t, j));
        lemma_around_detached(t, i, p);
    }
}

/// A paragraph can be taken out.
proof fn lemma_taken_out(t: Nodes, i: int)
    requires
        nested(t),
        0 <= i < t.len(),
        t[i].value is Paragraph,
    ensures
        nested(detached(t, i)),
        kept(t, detached(t, i)),
        forall|j: int|
            in_document(t, j) && j != i ==> #[trigger] in_document(detached(t, i), j),
{
    let u = detached(t, i);
    lemma_detached(t, i);
    assert(linked(t, i));
    assert forall|j: int| 0 <= j < u.len() implies (#[trigger] u[j]).value.block()
        && well_placed(u, j) by {
        assert(t[j].value.block() && well_placed(t, j));
        assert(linked(t, j));
    }
    assert forall|j: int| in_document(t, j) && j != i implies #[trigger] in_document(u, j) by {
        lemma_around_detached(t, i, j);
    }
}

/// A block can be put into one that can contain it.
proof fn lemma_put_in(t: Nodes, p: int, k: int, n: NodeView)
    requires
        nested(t),
        0 <= p < t.len(),
        0 <= k <= t[p].children.len(),
        n.children.len() == 0,
        n.value.block(),
        t[p].value.can_contain(n.value),
        listed(t[p].value, n.value),
    ensures
        nested(inserted(t, p, k, n)),
        kept(t, inserted(t, p, k, n)),
        inserted(t, p, k, n).len() == t.len() + 1,
        inserted(t, p, k, n)[t.len() as int].value == n.value,
        forall|j: int|
            0 <= j < t.len() ==> (#[trigger] inserted(t, p, k, n)[j]).value == t[j].value,
        forall|j: int| in_document(t, j) ==> #[trigger] in_document(inserted(t, p, k, n), j),
        in_document(t, p) ==> in_document(inserted(t, p, k, n), t.len() as int),
{
    let u = inserted(t, p, k, n);
    lemma_inserted(t, p, k, n);
    assert forall|j: int| 0 <= j < u.len() implies (#[trigger] u[j]).value.block()
        && well_placed(u, j) by {
        if j < t.len() {
            assert(t[j].value.block() && well_placed(t, j));
            assert(linked(t, j));
        }
    }
    assert forall|j: int| in_document(t, j) implies #[trigger] in_document(u, j) by {
        lemma_around_frame(t, u, 0, j);
    }
    if in_document(t, p) {
        assert(in_document(u, p));
        assert(u[t.len() as int].parent == Some(p));
    }
}

/// A block can be put at the end of one that can contain it.
proof fn lemma_put_last(t: Nodes, p: int, n: NodeView)
    requires
        nested(t),
        0 <= p < t.len(),
        n.children.len() == 0,
        n.value.block(),
        t[p].value.can_contain(n.value),
        listed(t[p].value, n.value),
    ensures
        nested(appended(t, p, n)),
        kept(t, appended(t, p, n)),
        appended(t, p, n).len() == t.len() + 1,
        appended(t, p, n)[t.len() as int].value == n.value,
        forall|j: int| 0 <= j < t.len() ==> (#[trigger] appended(t, p, n)[j]).value == t[j].value,
        forall|j: int| in_document(t, j) ==> #[trigger] in_document(appended(t, p, n), j),
        in_document(t, p) ==> in_document(appended(t, p, n), t.len() as int),
{
    lemma_appended(t, p, n);
    lemma_put_in(t, p, t[p].children.len() as int, n);
}

/// Blocks stay where they are when one is closed, but for a paragraph that is taken out.
proof fn lemma_closed_nested(b: Blocks, i: int, info: Option<Seq<char>>)
    requires
        nested(b.nodes),
        0 <= i < b.nodes.len(),
    ensures
        nested(close(b, i, info).nodes),
        kept(b.nodes, close(b, i, info).nodes),
        close(b, i, info).nodes.len() == b.nodes.len(),
        forall|j: int|
            in_document(b.nodes, j) && (j != i || !(b.nodes[i].value is Paragraph))
                ==> #[trigger] in_document(close(b, i, info).nodes, j),
        forall|j: int|
            0 <= j < b.nodes.len() && j != i ==> (#[trigger] close(b, i, info).nodes[j]).value
                == b.nodes[j].value,
        forall|j: int|
            0 <= j < i ==> (#[trigger] close(b, i, info).nodes[j]).parent == b.nodes[j].parent,
{
    let t = b.nodes;
    let n = crate::closing::closed(t, b.refs, i, info);
    let u = t.update(i, n);
    lemma_replaced(t, i, n);
    if t[i].value is Paragraph && blank_text(stripped(t[i].content, b.refs).0) {
        lemma_taken_out(u, i);
        lemma_detached(u, i);
        assert(linked(u, i));
    }
}

/// Room is made in the document.
proof fn lemma_room_nested(b: Blocks, p: int, v: Value, info: Option<Seq<char>>)
    requires
        nested(b.nodes),
        in_document(b.nodes, p),
        fits_document(v) || (b.nodes[p].value.can_contain(v) && listed(b.nodes[p].value, v)),
    ensures
        ({
            let (r, q) = made_room(b, p, v, info);
            &&& nested(r.nodes)
            &&& kept(b.nodes, r.nodes)
            &&& r.nodes.len() == b.nodes.len()
            &&& in_document(r.nodes, q)
            &&& q <= p
            &&& r.nodes[q].value.can_contain(v)
            &&& listed(r.nodes[q].value, v)
        }),
    decreases p,
{
    let t = b.nodes;
    if !t[p].value.can_contain(v) {
        lemma_parent(t, p);
        assert(p != 0);
        let q = t[p].parent->0;
        lemma_closed_nested(b, p, info);
        let c = close(b, p, info);
        assert(in_document(c.nodes, q));
        lemma_room_nested(c, q, v, info);
    }
}

/// A new block is in the document, in a block that can contain it.
pub proof fn lemma_child_nested(
    b: Blocks,
    p: int,
    v: Value,
    start_line: int,
    info: Option<Seq<char>>,
)
    requires
        nested(b.nodes),
        in_document(b.nodes, p),
        fits_document(v) || (b.nodes[p].value.can_contain(v) && listed(b.nodes[p].value, v)),
        v.block(),
    ensures
        ({
            let (c, id) = child_added(b, p, v, start_line, info);
            &&& nested(c.nodes)
            &&& kept(b.nodes, c.nodes)
            &&& c.nodes.len() == b.nodes.len() + 1
            &&& id == b.nodes.len()
            &&& in_document(c.nodes, id)
            &&& c.nodes[id].value == v
            &&& c.nodes[id].children.len() == 0
            &&& b.nodes[p].value.can_contain(v) ==> {
                &&& c.nodes[id].parent == Some(p)
                &&& c.nodes[p].children == b.nodes[p].children.push(id)
                &&& forall|j: int|
                    in_document(b.nodes, j) ==> #[trigger] in_document(c.nodes, j)
                &&& forall|j: int|
                    0 <= j < b.nodes.len() ==> (#[trigger] c.nodes[j]).value == b.nodes[j].value
            }
        }),
{
    lemma_room_nested(b, p, v, info);
    let (r, q) = made_room(b, p, v, info);
    lemma_put_last(r.nodes, q, fresh(v, start_line));
}

/// Cells are in their row.
proof fn lemma_cells_nested(t: Nodes, row: int, cells: Seq<Seq<u8>>, start_line: int)
    requires
        nested(t),
        in_document(t, row),
        t[row].value is TableRow,
    ensures
        ({
            let u = cells_added(t, row, cells, start_line);
            &&& nested(u)
            &&& kept(t, u)
            &&& u.len() == t.len() + cells.len()
            &&& forall|j: int| in_document(t, j) ==> #[trigger] in_document(u, j)
            &&& forall|j: int| 0 <= j < t.len() ==> (#[trigger] u[j]).value == t[j].value
        }),
    decreases cells.len(),
{
    if cells.len() > 0 {
        lemma_cells_nested(t, row, cells.drop_last(), start_line);
        let u = cells_added(t, row, cells.drop_last(), start_line);
        lemma_put_last(u, row, cell_node(cells.last(), start_line));
    }
}

/// Rows are in their table.
proof fn lemma_row_nested(
    t: Nodes,
    table: int,
    header: bool,
    cells: Seq<Seq<u8>>,
    start_line: int,
)
    requires
        nested(t),
        in_document(t, table),
        t[table].value is Table,
    ensures
        ({
            let u = row_added(t, table, header, cells, start_line);
            &&& nested(u)
            &&& kept(t, u)
            &&& u.len() > t.len()
            &&& in_document(u, t.len() as int)
            &&& forall|j: int| in_document(t, j) ==> #[trigger] in_document(u, j)
            &&& forall|j: int| 0 <= j < t.len() ==> (#[trigger] u[j]).value == t[j].value
        }),
{
    let n = fresh(Value::TableRow(header), start_line);
    lemma_put_last(t, table, n);
    lemma_cells_nested(appended(t, table, n), t.len() as int, cells, start_line);
}

/// A table is where the paragraph was that it has been made of.
proof fn lemma_header_nested(
    t: Nodes,
    i: int,
    row: RowView,
    alignments: Seq<TableAlignment>,
    start_line: int,
)
    requires
        nested(t),
        in_document(t, i),
        t[i].value is Paragraph,
    ensures
        ({
            let (u, table) = header_opened(t, i, row, alignments, start_line);
            &&& nested(u)
            &&& kept(t, u)
            &&& u.len() > t.len()
            &&& table == t.len()
            &&& in_document(u, table)
        }),
{
    lemma_parent(t, i);
    let p = t[i].parent->0;
    let table = t.len() as int;
    assert(t[i].value.block() && well_placed(t, i));
    let n = fresh(Value::Table(alignments), start_line);
    lemma_put_last(t, p, n);
    let t0 = appended(t, p, n);
    lemma_taken_out(t0, i);
    let t1 = detached(t0, i);
    lemma_detached(t0, i);
    assert(linked(t0, i));
    assert(t1[table].value is Table);
    assert(in_document(t1, table));
    assert(in_document(t0, p));
    assert(in_document(t1, p));
    lemma_row_nested(t1, table, true, row.cells, start_line);
    let t2 = row_added(t1, table, true, row.cells, start_line);
    assert(linked(t2, table));
    assert(in_document(t2, p));
    if row.paragraph_offset > 0 && t2[p].value.can_contain(Value::Paragraph) {
        let lead = lead_node(t[i].content, row.paragraph_offset);
        lemma_row_kept(t1, table, true, row.cells, start_line, p);
        lemma_put_in(t2, p, t2[p].children.len() - 1, lead);
    }
}

/// Cells change nothing outside their row.
proof fn lemma_cells_kept(t: Nodes, row: int, cells: Seq<Seq<u8>>, start_line: int, j: int)
    requires
        0 <= row < t.len(),
        0 <= j < t.len(),
        j != row,
    ensures
        cells_added(t, row, cells, start_line)[j].children == t[j].children,
        cells_added(t, row, cells, start_line).len() == t.len() + cells.len(),
    decreases cells.len(),
{
    if cells.len() > 0 {
        lemma_cells_kept(t, row, cells.drop_last(), start_line, j);
    }
}

/// Rows change nothing outside their table.
proof fn lemma_row_kept(
    t: Nodes,
    table: int,
    header: bool,
    cells: Seq<Seq<u8>>,
    start_line: int,
    j: int,
)
    requires
        0 <= j < t.len(),
        j != table,
        is_tree(t),
        0 <= table < t.len(),
    ensures
        row_added(t, table, header, cells, start_line)[j].children == t[j].children,
{
    let n = fresh(Value::TableRow(header), start_line);
    lemma_cells_kept(appended(t, table, n), t.len() as int, cells, start_line, j);
}

/// Opening again moves nothing.
proof fn lemma_reopened_nested(t: Nodes, i: int)
    requires
        nested(t),
        0 <= i < t.len(),
    ensures
        nested(reopened(t, i)),
        kept(t, reopened(t, i)),
        reopened(t, i).len() == t.len(),
        forall|j: int| in_document(t, j) ==> #[trigger] in_document(reopened(t, i), j),
        forall|j: int| 0 <= j < t.len() ==> (#[trigger] reopened(t, i)[j]).value == t[j].value,
    decreases i,
{
    let n = NodeView { open: true, ..t[i] };
    lemma_replaced(t, i, n);
    match t[i].parent {
        Some(p) => {
            if 0 <= p < i {
                lemma_reopened_nested(t.update(i, n), p);
            }
        },
        None => {},
    }
}

/// A description is in the document, its term and its details in it.
proof fn lemma_details_nested(
    b: Blocks,
    i: int,
    indent: usize,
    start_line: int,
    info: Option<Seq<char>>,
)
    requires
        nested(b.nodes),
        in_document(b.nodes, i),
        ends_with_paragraph(b.nodes, i),
    ensures
        ({
            let (c, id) = details_opened(b, i, indent, start_line, info);
            &&& nested(c.nodes)
            &&& kept(b.nodes, c.nodes)
            &&& c.nodes.len() > b.nodes.len()
            &&& in_document(c.nodes, id)
            &&& id >= b.nodes.len()
        }),
{
    let t = b.nodes;
    lemma_last_child(t, i);
    let x = last_child(t, i)->0;
    lemma_taken_out(t, x);
    lemma_detached(t, x);
    assert(linked(t, x));
    let b1 = Blocks { nodes: detached(t, x), ..b };
    assert(in_document(b1.nodes, i));
    let (b2, list) = list_ready(b1, i, start_line, info);
    match list_at_end(b1.nodes, i) {
        Some(l) => {
            lemma_last_child(b1.nodes, i);
            lemma_reopened_nested(b1.nodes, l);
            assert(in_document(b1.nodes, l));
        },
        None => {
            lemma_child_nested(b1, i, Value::DescriptionList, start_line, info);
        },
    }
    assert(in_document(b2.nodes, list));
    let v = Value::DescriptionItem(NodeDescriptionItem { marker_offset: indent, padding: 2 });
    let (b3, item) = child_added(b2, list, v, start_line, info);
    lemma_child_nested(b2, list, v, start_line, info);
    let (b4, term) = child_added(b3, item, Value::DescriptionTerm, start_line, info);
    lemma_child_nested(b3, item, Value::DescriptionTerm, start_line, info);
    let n = NodeView { children: seq![], ..t[x] };
    assert(t[x].value.block());
    lemma_put_last(b4.nodes, term, n);
    let b5 = Blocks { nodes: appended(b4.nodes, term, n), ..b4 };
    assert(in_document(b4.nodes, item));
    assert(in_document(b5.nodes, item));
    assert(b5.nodes[item].value == b4.nodes[item].value);
    lemma_child_nested(b5, item, Value::DescriptionDetails, start_line, info);
}

/// The marker of an item that starts with `n` bytes, as its list and the item hold it.
pub open spec fn marker_of(p: ParserView, n: usize, marker: NodeList, line: Seq<u8>) -> NodeList {
    let (c, width) = behind_marker(moved_to(p.cursor, line, p.cursor.first_nonspace + n), line);
    NodeList {
        padding: (n + width) as usize,
        marker_offset: p.cursor.indent as usize,
        ..marker
    }
}

/// Whether a list marker of `n` bytes can stand where the cursor has looked up.
pub open spec fn marker_stands(c: CursorView, n: usize) -> bool {
    1 <= n <= 10 && 0 <= c.indent <= 3
}

/// An item that is opened is in the list that the line has reached, if that list is of its kind,
/// and otherwise in a new list, whose first block it is. Its marker is indented by no more than
/// three columns and, with what follows it, at least two columns wide.
pub proof fn law_item_in_its_list(
    p: ParserView,
    i: int,
    n: usize,
    marker: NodeList,
    line: Seq<u8>,
)
    requires
        nested(p.blocks.nodes),
        in_document(p.blocks.nodes, i),
        marker_stands(p.cursor, n),
    ensures
        ({
            let (q, id) = item_opened(p, i, n, marker, line);
            let nl = marker_of(p, n, marker, line);
            let t = p.blocks.nodes;
            let u = q.blocks.nodes;
            &&& nested(u)
            &&& kept(t, u)
            &&& u.len() > t.len()
            &&& in_document(u, id)
            &&& id >= t.len()
            &&& u[id].value == Value::Item(nl)
            &&& nl.padding >= 2 && nl.marker_offset <= 3
            &&& match t[i].value {
                Value::List(of) => same_list(nl, of) ==> u[id].parent == Some(i),
                _ => true,
            }
            &&& !(t[i].value matches Value::List(of) && same_list(nl, of)) ==> {
                &&& u[id].parent matches Some(l) && l >= t.len() && u[l].value == Value::List(nl)
                    && u[l].children == seq![id]
            }
        }),
{
    let (c, width) = behind_marker(moved_to(p.cursor, line, p.cursor.first_nonspace + n), line);
    assert(1 <= width < 5);
    let nl = marker_of(p, n, marker, line);
    let q = ParserView { cursor: c, ..p };
    let goes_on = match p.blocks.nodes[i].value {
        Value::List(of) => same_list(nl, of),
        _ => false,
    };
    if goes_on {
        lemma_child_nested(q.blocks, i, Value::Item(nl), q.line_number, q.info());
    } else {
        let (r, list) = with_child(q, i, Value::List(nl));
        lemma_child_nested(q.blocks, i, Value::List(nl), q.line_number, q.info());
        lemma_child_nested(r.blocks, list, Value::Item(nl), r.line_number, r.info());
        let id = r.blocks.nodes.len() as int;
        assert(r.blocks.nodes[list].children.push(id) =~= seq![id]);
    }
}

/// A block that is opened is in the document.
#[verifier::rlimit(60)]
pub proof fn lemma_opened_nested(p: ParserView, i: int, start: BlockStart, line: Seq<u8>)
    requires
        nested(p.blocks.nodes),
        in_document(p.blocks.nodes, i),
        start is Details ==> ends_with_paragraph(p.blocks.nodes, i),
        start is Setext ==> p.blocks.nodes[i].value is Paragraph,
        match start {
            BlockStart::Item(n, _) => marker_stands(p.cursor, n),
            _ => true,
        },
    ensures
        ({
            let (q, r) = opened(p, i, start, line);
            let t = p.blocks.nodes;
            let u = q.blocks.nodes;
            &&& nested(u)
            &&& kept(t, u)
            &&& u.len() >= t.len()
            &&& q.current == p.current
            &&& match r {
                Some(j) => in_document(u, j) && (j == i || j >= t.len()),
                None => u == t,
            }
        }),
{
    reveal(opened);
    let b = p.blocks;
    let t = b.nodes;
    let at = p.cursor.first_nonspace;
    let n = p.line_number;
    let info = p.info();
    match start {
        BlockStart::Quote => lemma_child_nested(b, i, Value::BlockQuote, n, info),
        BlockStart::Atx(_) => {
            lemma_child_nested(b, i, Value::Heading(atx_heading(line, at)), n, info)
        },
        BlockStart::Fence(k) => {
            lemma_child_nested(b, i, Value::CodeBlock(fence_block(p.cursor, line, k)), n, info)
        },
        BlockStart::Html(k) => lemma_child_nested(b, i, Value::HtmlBlock(k, seq![]), n, info),
        BlockStart::Setext(sc) => {
            let rest = stripped(t[i].content, b.refs).0;
            let heading = Value::Heading(NodeHeading { level: setext_level(sc), setext: true });
            lemma_replaced(t, i, NodeView { content: rest, ..t[i] });
            lemma_replaced(t, i, NodeView { content: rest, value: heading, ..t[i] });
        },
        BlockStart::Break => lemma_child_nested(b, i, Value::ThematicBreak, n, info),
        BlockStart::Footnote(_, e) => {
            let name = decode_utf8(line.subrange(at + 2, at + e));
            lemma_child_nested(b, i, Value::FootnoteDefinition(name), n, info)
        },
        BlockStart::Details => lemma_details_nested(b, i, p.cursor.indent as usize, n, info),
        BlockStart::Item(k, nl) => law_item_in_its_list(p, i, k, nl, line),
        BlockStart::Indented => {
            lemma_child_nested(b, i, Value::CodeBlock(indented_block()), n, info)
        },
        BlockStart::Other => {
            match table_step(t[i], p.cursor, line) {
                TableStepView::Keep { visited } => {
                    lemma_replaced(t, i, NodeView { table_visited: true, ..t[i] });
                },
                TableStepView::Header { row, alignments } => {
                    lemma_header_nested(t, i, row, alignments, n);
                },
                TableStepView::Body { cells } => {
                    lemma_row_nested(t, i, false, padded(cells, columns_of(t[i].value)), n);
                },
                TableStepView::Nothing => {},
            }
        },
    }
}

/// Columns are not counted backwards.
proof fn lemma_column_after_least(line: Seq<u8>, i: int, j: int, column: int)
    ensures
        column_after(line, i, j, column) >= column,
    decreases j - i,
{
    if i < j {
        lemma_column_after_least(line, i + 1, j, column + byte_width(line[i], column));
    }
}

/// A run does not end before it starts.
proof fn lemma_run_end_least(s: Seq<u8>, i: int, f: spec_fn(u8) -> bool)
    ensures
        run_end(s, i, f) >= i,
    decreases s.len() - i,
{
    if 0 <= i < s.len() && f(s[i]) {
        lemma_run_end_least(s, i + 1, f);
    }
}

/// Where an item starts, a list marker can stand.
pub proof fn lemma_marker_stands(
    in_paragraph: bool,
    after_paragraph: bool,
    cursor: CursorView,
    line: Seq<u8>,
    all_matched: bool,
    maybe_lazy: bool,
    o: ComrakOptions,
)
    ensures
        ({
            let d = with_nonspace(cursor, line);
            let (start, c) = block_start(
                in_paragraph,
                after_paragraph,
                d,
                line,
                all_matched,
                maybe_lazy,
                o,
            );
            match start {
                BlockStart::Item(n, _) => marker_stands(c, n),
                _ => true,
            }
        }),
{
    reveal(block_start);
    let d = with_nonspace(cursor, line);
    lemma_column_after_least(line, cursor.offset, d.first_nonspace, cursor.column);
    lemma_run_end_least(line, d.first_nonspace, digits());
}

/// What one step opens is in the document.
pub proof fn lemma_one_opened_nested(
    p: ParserView,
    i: int,
    line: Seq<u8>,
    all_matched: bool,
    maybe_lazy: bool,
)
    requires
        nested(p.blocks.nodes),
        in_document(p.blocks.nodes, i),
    ensures
        ({
            let (q, r) = one_opened(p, i, line, all_matched, maybe_lazy);
            let t = p.blocks.nodes;
            let u = q.blocks.nodes;
            &&& nested(u)
            &&& kept(t, u)
            &&& u.len() >= t.len()
            &&& q.current == p.current
            &&& match r {
                Some(j) => in_document(u, j) && (j == i || j >= t.len()),
                None => u == t,
            }
        }),
{
    let t = p.blocks.nodes;
    let (start, c) = block_start(
        t[i].value is Paragraph,
        ends_with_paragraph(t, i),
        with_nonspace(p.cursor, line),
        line,
        all_matched,
        maybe_lazy,
        p.options,
    );
    lemma_marker_stands(
        t[i].value is Paragraph,
        ends_with_paragraph(t, i),
        p.cursor,
        line,
        all_matched,
        maybe_lazy,
        p.options,
    );
    reveal(block_start);
    lemma_opened_nested(ParserView { cursor: c, ..p }, i, start, line);
}

/// Blocks that are opened are in the document.
pub proof fn lemma_all_opened_nested(
    p: ParserView,
    i: int,
    line: Seq<u8>,
    all_matched: bool,
    maybe_lazy: bool,
)
    requires
        nested(p.blocks.nodes),
        in_document(p.blocks.nodes, i),
    ensures
        ({
            let (q, j) = all_opened(p, i, line, all_matched, maybe_lazy);
            let t = p.blocks.nodes;
            let u = q.blocks.nodes;
            &&& nested(u)
            &&& kept(t, u)
            &&& u.len() >= t.len()
            &&& q.current == p.current
            &&& in_document(u, j)
            &&& j == i || j >= t.len()
        }),
    decreases line.len() - p.cursor.offset,
{
    let v = p.blocks.nodes[i].value;
    if !(v is CodeBlock || v is HtmlBlock) {
        lemma_one_opened_nested(p, i, line, all_matched, maybe_lazy);
        match one_opened(p, i, line, all_matched, maybe_lazy) {
            (q, Some(j)) => {
                if !takes_rest(q.blocks.nodes[j].value) && p.cursor.offset < q.cursor.offset
                    <= line.len() {
                    lemma_all_opened_nested(q, j, line, all_matched, false);
                }
            },
            (q, None) => {},
        }
    }
}

/// Marks of blank lines move nothing.
proof fn lemma_marked_nested(t: Nodes, u: Nodes)
    requires
        nested(t),
        only_marked(t, u),
    ensures
        nested(u),
        kept(t, u),
        forall|j: int| in_document(t, j) ==> #[trigger] in_document(u, j),
{
    assert(same_shape(t, u));
    lemma_same_shape(t, u);
    assert forall|j: int| 0 <= j < u.len() implies (#[trigger] u[j]).value.block()
        && well_placed(u, j) by {
        assert(t[j].value.block() && well_placed(t, j));
        assert(linked(t, j));
    }
    assert forall|j: int| in_document(t, j) implies #[trigger] in_document(u, j) by {
        lemma_around_frame(t, u, 0, j);
    }
}

/// Blocks stay where they are when those up to `m` are closed, but for these.
proof fn lemma_closed_up_to_nested(b: Blocks, i: int, m: int, info: Option<Seq<char>>, j: int)
    requires
        nested(b.nodes),
        0 <= i < b.nodes.len(),
        in_document(b.nodes, j),
        j == m || j > i,
    ensures
        nested(closed_up_to(b, i, m, info).nodes),
        kept(b.nodes, closed_up_to(b, i, m, info).nodes),
        closed_up_to(b, i, m, info).nodes.len() == b.nodes.len(),
        in_document(closed_up_to(b, i, m, info).nodes, j),
    decreases i,
{
    if i != m {
        match b.nodes[i].parent {
            Some(p) => {
                if 0 <= p < i {
                    lemma_closed_nested(b, i, info);
                    assert(in_document(close(b, i, info).nodes, j));
                    lemma_closed_up_to_nested(close(b, i, info), p, m, info, j);
                }
            },
            None => {},
        }
    }
}

/// The state is one in which blocks are in blocks that can contain them.
pub open spec fn in_place(p: ParserView) -> bool {
    nested(p.blocks.nodes) && 0 <= p.current < p.blocks.nodes.len()
}

/// The rest of a line goes to a block in the document.
proof fn lemma_rest_nested(p: ParserView, i: int, line: Seq<u8>)
    requires
        nested(p.blocks.nodes),
        in_document(p.blocks.nodes, i),
    ensures
        in_place(rest_added(p, i, line)),
        kept(p.blocks.nodes, rest_added(p, i, line).blocks.nodes),
{
    let t = p.blocks.nodes;
    let n = NodeView { content: t[i].content + left_of(p.cursor, line), ..t[i] };
    lemma_replaced(t, i, n);
    match t[i].value {
        Value::CodeBlock(_) => {},
        Value::HtmlBlock(k, _) => {
            lemma_closed_nested(line_added(p, i, line).blocks, i, p.info());
            lemma_parent(t, i);
        },
        _ => {
            let text = text_part(t[i].value, line);
            let c = moved_to(p.cursor, text, p.cursor.first_nonspace);
            lemma_replaced(t, i, NodeView { content: t[i].content + left_of(c, text), ..t[i] });
            if !p.cursor.blank && !t[i].value.accepts_lines() {
                lemma_child_nested(p.blocks, i, Value::Paragraph, p.line_number, p.info());
                let (q, id) = with_child(p, i, Value::Paragraph);
                let u = q.blocks.nodes;
                let d = moved_to(p.cursor, line, p.cursor.first_nonspace);
                lemma_replaced(
                    u,
                    id,
                    NodeView { content: u[id].content + left_of(d, line), ..u[id] },
                );
            }
        },
    }
}

/// A line that is used up leaves blocks in blocks that can contain them.
proof fn lemma_text_nested(p: ParserView, i: int, m: int, line: Seq<u8>)
    requires
        in_place(p),
        in_document(p.blocks.nodes, i),
        i == m || i > p.current,
    ensures
        in_place(text_added(p, i, m, line)),
        kept(p.blocks.nodes, text_added(p, i, m, line).blocks.nodes),
{
    let t = p.blocks.nodes;
    let c = with_nonspace(p.cursor, line);
    let u = blanks_marked(t, i, c.blank, p.line_number);
    lemma_blanks_marked(t, i, c.blank, p.line_number);
    lemma_marked_nested(t, u);
    assert(in_document(u, i));
    let q = ParserView { blocks: Blocks { nodes: u, ..p.blocks }, cursor: c, ..p };
    if p.current != m && i == m && !c.blank && t[p.current].value is Paragraph {
        let x = p.current;
        lemma_replaced(u, x, NodeView { content: u[x].content + left_of(c, line), ..u[x] });
    } else {
        lemma_closed_up_to_nested(q.blocks, p.current, m, p.info(), i);
        let r = ParserView { blocks: closed_up_to(q.blocks, p.current, m, p.info()), ..q };
        lemma_rest_nested(r, i, line);
    }
}

/// A line is only held against blocks in the document.
proof fn lemma_walk_in_document(t: Nodes, c: CursorView, line: Seq<u8>, i: int)
    requires
        is_tree(t),
        in_document(t, i),
    ensures
        ({
            let w = walk(t, c, line, i);
            &&& in_document(t, w.container)
            &&& !(w.prefix is Matched) ==> t[w.container].parent is Some
        }),
    decreases t.len() - i,
{
    lemma_last_child(t, i);
    match last_child(t, i) {
        Some(x) => {
            if t[x].open {
                assert(in_document(t, x));
                let (prefix, next) = continued(t[x], with_nonspace(c, line), line);
                if prefix is Matched {
                    lemma_walk_in_document(t, next, line, x);
                }
            }
        },
        None => {},
    }
}

/// A line leaves blocks in blocks that can contain them.
proof fn lemma_line_nested(p: ParserView, line: Seq<u8>)
    requires
        in_place(p),
    ensures
        in_place(line_processed(p, line)),
        kept(p.blocks.nodes, line_processed(p, line).blocks.nodes),
{
    reveal(text_processed);
    let text = with_line_feed(line);
    let q = ParserView {
        cursor: at_start(text, p.line_number),
        line_number: p.line_number + 1,
        ..p
    };
    let t = p.blocks.nodes;
    assert(in_document(t, 0));
    lemma_walk_in_document(t, q.cursor, text, 0);
    let w = walk(t, q.cursor, text, 0);
    lemma_parent(t, w.container);
    lemma_closed_nested(p.blocks, w.container, p.info());
    match checked(q, text) {
        (r, Some((m, all))) => {
            let lazy = r.blocks.nodes[r.current].value is Paragraph;
            lemma_all_opened_nested(r, m, text, all, lazy);
            let (a, i) = all_opened(r, m, text, all, lazy);
            lemma_text_nested(a, i, m, text);
        },
        _ => {},
    }
}

/// Lines leave blocks in blocks that can contain them.
proof fn lemma_lines_nested(p: ParserView, lines: Seq<Seq<u8>>)
    requires
        in_place(p),
    ensures
        in_place(lines_processed(p, lines)),
        kept(p.blocks.nodes, lines_processed(p, lines).blocks.nodes),
    decreases lines.len(),
{
    if lines.len() > 0 {
        lemma_lines_nested(p, lines.drop_last());
        lemma_line_nested(lines_processed(p, lines.drop_last()), lines.last());
    }
}

/// Reading the rest of a document, once front matter is taken off, leaves blocks in blocks that
/// can contain them.
proof fn lemma_document_nested(s: Seq<u8>, o: ComrakOptions)
    ensures
        ({
            let q = match front_of(starting(o), s) {
                Some(e) => with_front_matter(starting(o), decode_utf8(s.subrange(0, e))),
                None => starting(o),
            };
            &&& in_place(q)
            &&& front_of(starting(o), s) matches Some(e) ==> {
                let t = q.blocks.nodes;
                &&& t.len() == 2
                &&& t[1].value == Value::FrontMatter(decode_utf8(s.subrange(0, e)))
                &&& t[1].parent == Some(0int)
            }
            &&& nested(blocks_of(s, o).blocks.nodes)
            &&& kept(q.blocks.nodes, blocks_of(s, o).blocks.nodes)
        }),
{
    let p = starting(o);
    assert(linked(p.blocks.nodes, 0));
    assert(in_place(p));
    let (t, q) = match front_of(p, s) {
        Some(e) => (
            s.subrange(e, s.len() as int),
            with_front_matter(p, decode_utf8(s.subrange(0, e))),
        ),
        None => (s, p),
    };
    if front_of(p, s) is Some {
        let v = Value::FrontMatter(decode_utf8(s.subrange(0, front_of(p, s)->0)));
        assert(in_document(p.blocks.nodes, 0));
        lemma_child_nested(p.blocks, 0, v, 0, p.info());
        let (b, id) = child_added(p.blocks, 0, v, 0, p.info());
        lemma_closed_nested(b, id, p.info());
    }
    assert(in_place(q));
    let start = text_start(t, q.last_buffer_ended_with_cr);
    let lines = cut_at_end(t, start, seq![], true).0;
    let first = ParserView {
        total_size: size_after(q.total_size, t.len() as int),
        last_buffer_ended_with_cr: false,
        ..q
    };
    lemma_lines_nested(first, lines);
    let (a, rest) = fed(p, seq![], s, true);
    assert(in_place(a));
    lemma_line_nested(a, rest);
    let c = rest_read(a, rest);
    let b = closed_up_to(c.blocks, c.current, 0, c.info());
    assert(in_document(c.blocks.nodes, 0));
    lemma_closed_up_to_nested(c.blocks, c.current, 0, c.info(), 0);
    lemma_closed_nested(b, 0, c.info());
}

/// Every block of a document is in a block that can contain it.
pub proof fn law_blocks_nested(s: Seq<u8>, o: ComrakOptions)
    ensures
        nested(blocks_of(s, o).blocks.nodes),
{
    lemma_document_nested(s, o);
}

/// Every item of a document is in a list that has its type, its delimiter and its bullet. Its
/// marker is indented by no more than three columns and, with what follows it, at least two
/// columns wide.
pub proof fn law_items_in_lists(s: Seq<u8>, o: ComrakOptions, i: int)
    requires
        0 <= i < blocks_of(s, o).blocks.nodes.len(),
        blocks_of(s, o).blocks.nodes[i].value is Item,
    ensures
        item_listed(blocks_of(s, o).blocks.nodes, i),
{
    lemma_document_nested(s, o);
    let t = blocks_of(s, o).blocks.nodes;
    assert(t[i].value.block() && well_placed(t, i));
    assert(linked(t, i));
}

/// Front matter is a block of the document, and holds the text up to where it ends unchanged.
pub proof fn law_front_matter_kept(s: Seq<u8>, o: ComrakOptions)
    requires
        front_of(starting(o), s) is Some,
    ensures
        ({
            let t = blocks_of(s, o).blocks.nodes;
            &&& t.len() > 1
            &&& t[1].value == Value::FrontMatter(
                decode_utf8(s.subrange(0, front_of(starting(o), s)->0)),
            )
            &&& t[1].parent == Some(0int)
        }),
{
    lemma_document_nested(s, o);
}

} // verus!
