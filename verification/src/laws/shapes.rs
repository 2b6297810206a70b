//! What tables and descriptions are made of.

use crate::blocks::{child_added, Blocks};
use crate::descriptions::{details_opened, list_at_end, list_ready, reopened};
use crate::laws::blocks::holder;
use crate::nodes::{NodeDescriptionItem, TableAlignment, Value};
use crate::table::RowView;
use crate::table_blocks::{cells_added, header_opened, lead_node, row_added};
use crate::tree::{appended, detached, fresh, inserted, is_tree, linked, without, NodeView, Nodes};
use vstd::prelude::*;

verus! {

/// The numbers from `a` up to `b`.
pub open spec fn from_to(a: int, b: int) -> Seq<int> {
    Seq::new(
        (if a < b {
            b - a
        } else {
            0
        }) as nat,
        |k: int| a + k,
    )
}

/// Cells go into their row in their order, each with its text.
pub proof fn law_cells(t: Nodes, row: int, cells: Seq<Seq<u8>>, start_line: int)
    requires
        0 <= row < t.len(),
    ensures
        ({
            let u = cells_added(t, row, cells, start_line);
            let n = t.len() as int;
            &&& u.len() == n + cells.len()
            &&& u[row].children == t[row].children + from_to(n, n + cells.len())
            &&& u[row] == (NodeView { children: u[row].children, ..t[row] })
            &&& forall|k: int|
                0 <= k < cells.len() ==> (#[trigger] u[n + k]).value is TableCell && u[n
                    + k].content == cells[k] && u[n + k].parent == Some(row) && u[n
                    + k].children.len() == 0
            &&& forall|j: int| 0 <= j < n && j != row ==> #[trigger] u[j] == t[j]
        }),
    decreases cells.len(),
{
    let n = t.len() as int;
    if cells.len() > 0 {
        let before = cells.drop_last();
        law_cells(t, row, before, start_line);
        let v = cells_added(t, row, before, start_line);
        let u = cells_added(t, row, cells, start_line);
        assert((t[row].children + from_to(n, n + before.len())).push(n + before.len())
            =~= t[row].children + from_to(n, n + cells.len()));
        assert forall|k: int| 0 <= k < cells.len() implies (#[trigger] u[n + k]).value is TableCell
            && u[n + k].content == cells[k] && u[n + k].parent == Some(row) && u[n
            + k].children.len() == 0 by {
            if k < before.len() {
                assert(u[n + k] == v[n + k]);
                assert(cells[k] == before[k]);
            }
        }
    } else {
        assert(t[row].children + from_to(n, n) =~= t[row].children);
    }
}

/// A row goes to the end of its table, with its cells in it.
pub proof fn law_row_of_table(
    t: Nodes,
    table: int,
    header: bool,
    cells: Seq<Seq<u8>>,
    start_line: int,
)
    requires
        0 <= table < t.len(),
    ensures
        ({
            let u = row_added(t, table, header, cells, start_line);
            let n = t.len() as int;
            &&& u.len() == n + 1 + cells.len()
            &&& u[table].children == t[table].children.push(n)
            &&& u[table] == (NodeView { children: u[table].children, ..t[table] })
            &&& u[n].value == Value::TableRow(header) && u[n].parent == Some(table)
            &&& u[n].children == from_to(n + 1, n + 1 + cells.len())
            &&& forall|k: int|
                0 <= k < cells.len() ==> (#[trigger] u[n + 1 + k]).value is TableCell && u[n + 1
                    + k].content == cells[k] && u[n + 1 + k].parent == Some(n)
            &&& forall|j: int| 0 <= j < n && j != table ==> #[trigger] u[j] == t[j]
        }),
{
    let n = t.len() as int;
    let v = appended(t, table, fresh(Value::TableRow(header), start_line));
    law_cells(v, n, cells, start_line);
    let u = row_added(t, table, header, cells, start_line);
    assert(v[n].children.len() == 0);
    assert(v[n].children + from_to(n + 1, n + 1 + cells.len()) =~= from_to(
        n + 1,
        n + 1 + cells.len(),
    ));
    assert(u[table] == v[table]);
}

/// A table takes the place of the paragraph whose last line is its header, with that header as its
/// first row. Lines of the paragraph before the header stay a paragraph before the table.
#[verifier::rlimit(60)]
pub proof fn law_table(
    t: Nodes,
    i: int,
    p: int,
    row: RowView,
    alignments: Seq<TableAlignment>,
    start_line: int,
)
    requires
        is_tree(t),
        0 <= p < i < t.len(),
        t[i].parent == Some(p),
        t[p].children.len() > 0 && t[p].children.last() == i,
        holder(t[p].value),
    ensures
        ({
            let (u, table) = header_opened(t, i, row, alignments, start_line);
            let n = t.len() as int;
            let lead = row.paragraph_offset > 0;
            let before = t[p].children.drop_last();
            let m = n + 2 + row.cells.len();
            &&& table == n
            &&& u[n].value == Value::Table(alignments) && u[n].parent == Some(p)
            &&& u[n].children == seq![n + 1]
            &&& u[n + 1].value == Value::TableRow(true)
            &&& u[n + 1].children == from_to(n + 2, m)
            &&& forall|k: int|
                0 <= k < row.cells.len() ==> (#[trigger] u[n + 2 + k]).value is TableCell && u[n + 2
                    + k].content == row.cells[k]
            &&& u[i].parent is None
            &&& !lead ==> u[p].children == before.push(n) && u.len() == m
            &&& lead ==> u[p].children == before.push(m).push(n) && u.len() == m + 1 && u[m].value
                is Paragraph && u[m].content == crate::table::cell_text(
                t[i].content.subrange(0, row.paragraph_offset),
            )
        }),
{
    let n = t.len() as int;
    assert(linked(t, p));
    assert(linked(t, i));
    let before = t[p].children.drop_last();
    let ch = t[p].children;
    let t0 = appended(t, p, fresh(Value::Table(alignments), start_line));
    assert(t0[p].children == ch.push(n));
    assert(t0[i] == t[i]);
    let t1 = detached(t0, i);
    reveal_with_fuel(without, 3);
    assert(ch.push(n).drop_last() =~= ch);
    assert(ch.push(n).last() == n);
    assert(without(ch, i) == before);
    assert(without(ch.push(n), i) == before.push(n));
    assert(t1[p].children == before.push(n));
    assert(t1.len() == n + 1);
    assert(t1[n] == t0[n]);
    law_row_of_table(t1, n, true, row.cells, start_line);
    let t2 = row_added(t1, n, true, row.cells, start_line);
    assert(t2[p] == t1[p]);
    assert(t2[i] == t1[i]);
    let m = n + 2 + row.cells.len();
    assert(t2.len() == m);
    let none: Seq<int> = seq![];
    assert(none.push(n + 1) =~= seq![n + 1]);
    assert(t1[n].children =~= none);
    let u = header_opened(t, i, row, alignments, start_line).0;
    if row.paragraph_offset > 0 {
        assert(t2[p].children.len() - 1 == before.len());
        assert(u == inserted(
            t2,
            p,
            t2[p].children.len() - 1,
            lead_node(t[i].content, row.paragraph_offset),
        ));
        assert(before.push(n).insert(before.len() as int, m) =~= before.push(m).push(n));
    } else {
        assert(u == t2);
    }
    assert forall|j: int| 0 <= j < m && j != p implies #[trigger] u[j] == t2[j] by {}
    assert forall|k: int| 0 <= k < row.cells.len() implies (#[trigger] u[n + 2 + k]).value
        is TableCell && u[n + 2 + k].content == row.cells[k] by {
        assert(t2[(n + 1) + 1 + k].value is TableCell);
        assert(u[n + 2 + k] == t2[(n + 1) + 1 + k]);
    }
}

/// Details make a description of the paragraph before them: the paragraph becomes the term of a new
/// item, and the details follow it in the item. Where no description list is right before the
/// paragraph, the item is in a new one, which takes the place of the paragraph.
#[verifier::rlimit(60)]
pub proof fn law_description(
    b: Blocks,
    i: int,
    x: int,
    indent: usize,
    start_line: int,
    info: Option<Seq<char>>,
)
    requires
        is_tree(b.nodes),
        0 <= i < x < b.nodes.len(),
        b.nodes[x].parent == Some(i),
        b.nodes[i].children.len() > 0 && b.nodes[i].children.last() == x,
        b.nodes[x].value is Paragraph,
        holder(b.nodes[i].value),
        b.nodes[i].children.len() > 1 ==> !(b.nodes[b.nodes[i].children[b.nodes[i].children.len()
            - 2]].value is DescriptionList),
    ensures
        ({
            let t = b.nodes;
            let (c, details) = details_opened(b, i, indent, start_line, info);
            let u = c.nodes;
            let n = t.len() as int;
            &&& details == n + 4 && u.len() == n + 5
            &&& u[i].children == t[i].children.drop_last().push(n)
            &&& u[n].value is DescriptionList && u[n].children == seq![n + 1]
            &&& u[n + 1].value == Value::DescriptionItem(
                NodeDescriptionItem { marker_offset: indent, padding: 2 },
            )
            &&& u[n + 1].children == seq![n + 2, n + 4]
            &&& u[n + 2].value is DescriptionTerm && u[n + 2].children == seq![n + 3]
            &&& u[n + 3].value is Paragraph && u[n + 3].content == t[x].content
            &&& u[n + 4].value is DescriptionDetails && u[n + 4].children.len() == 0
            &&& c.refs == b.refs
        }),
{
    let t = b.nodes;
    let n = t.len() as int;
    assert(linked(t, i));
    assert(linked(t, x));
    let b1 = Blocks { nodes: detached(t, x), ..b };
    reveal_with_fuel(without, 2);
    assert(b1.nodes[i].children == t[i].children.drop_last());
    assert(b1.nodes[i].value == t[i].value);
    assert(b1.nodes.len() == n);
    assert(list_at_end(b1.nodes, i) is None) by {
        let ch = t[i].children.drop_last();
        if ch.len() > 0 {
            assert(ch.last() == t[i].children[t[i].children.len() - 2]);
            assert(b1.nodes[ch.last()].value == t[ch.last()].value);
        }
    }
    let (b2, list) = list_ready(b1, i, start_line, info);
    assert(list == n);
    let v = Value::DescriptionItem(NodeDescriptionItem { marker_offset: indent, padding: 2 });
    let (b3, item) = child_added(b2, list, v, start_line, info);
    assert(item == n + 1);
    let (b4, term) = child_added(b3, item, Value::DescriptionTerm, start_line, info);
    assert(term == n + 2);
    let para = NodeView { children: seq![], ..t[x] };
    let b5 = Blocks { nodes: appended(b4.nodes, term, para), ..b4 };
    assert(b5.nodes.len() == n + 4);
    let (b6, details) = child_added(b5, item, Value::DescriptionDetails, start_line, info);
    let none: Seq<int> = seq![];
    let u = b6.nodes;
    assert(u[n].children =~= seq![n + 1]);
    assert(u[n + 1].children =~= seq![n + 2, n + 4]);
    assert(u[n + 2].children =~= seq![n + 3]);
}

/// Opening blocks again makes no new one.
proof fn lemma_reopened(t: Nodes, i: int)
    requires
        0 <= i < t.len(),
    ensures
        reopened(t, i).len() == t.len(),
        forall|j: int| 0 <= j < t.len() ==> (#[trigger] reopened(t, i)[j]) == (NodeView {
            open: reopened(t, i)[j].open,
            ..t[j]
        }),
        reopened(t, i)[i].open,
    decreases i,
{
    let u = t.update(i, NodeView { open: true, ..t[i] });
    match t[i].parent {
        Some(p) => {
            if 0 <= p < i {
                lemma_reopened(u, p);
                assert(reopened(u, p)[i] == reopened(t, i)[i]);
                lemma_stays_open(u, p, i);
            }
        },
        None => {},
    }
}

/// What is open stays open.
proof fn lemma_stays_open(t: Nodes, i: int, j: int)
    requires
        0 <= i < t.len(),
        0 <= j < t.len(),
        t[j].open,
    ensures
        reopened(t, i)[j].open,
    decreases i,
{
    let u = t.update(i, NodeView { open: true, ..t[i] });
    match t[i].parent {
        Some(p) => {
            if 0 <= p < i {
                lemma_stays_open(u, p, j);
            }
        },
        None => {},
    }
}

/// Descriptions that follow each other are of one list: where one ends what is there, it is opened
/// again, and no other is made.
pub proof fn law_descriptions_joined(
    b: Blocks,
    i: int,
    l: int,
    start_line: int,
    info: Option<Seq<char>>,
)
    requires
        0 <= i < b.nodes.len(),
        0 <= l < b.nodes.len(),
        b.nodes[i].children.len() > 0 && b.nodes[i].children.last() == l,
        b.nodes[l].value is DescriptionList,
    ensures
        ({
            let (r, list) = list_ready(b, i, start_line, info);
            &&& list == l
            &&& r.nodes.len() == b.nodes.len()
            &&& r.nodes[l].open
            &&& r.refs == b.refs
        }),
{
    lemma_reopened(b.nodes, l);
}

} // verus!
