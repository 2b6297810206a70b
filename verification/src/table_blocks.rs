//! Tables among the blocks.

use crate::blocks::{
    all_open, fences_read, in_motion, lemma_block_appended, lemma_block_inserted,
    lemma_open_up_to_frame, lemma_paragraph_taken_out, lemma_spine_frame, newly_made, orderly,
    paragraph_at, spine, untouched,
};
use crate::closing::{fence_read, sound};
use crate::nodes::{NodeValue, TableAlignment, Value};
use crate::table::{cell_text, copy_cell, lemma_cell_text_valid, texts, texts_valid, Row, RowView};
use crate::text::{copy_range, lemma_valid_ascii, lemma_valid_between};
use crate::tree::{
    appended, detached, fresh, inserted, is_tree, last_child, lemma_appended, lemma_detached,
    lemma_without_at, linked, make_node, without, AstNode, NodeView, Nodes, Tree,
};
use vstd::prelude::*;
use vstd::slice::slice_subrange;
use vstd::utf8::{is_char_boundary, is_char_boundary_start_end_of_seq, valid_utf8};

verus! {

/// A cell.
pub open spec fn cell_node(text: Seq<u8>, start_line: int) -> NodeView {
    NodeView { content: text, ..fresh(Value::TableCell, start_line) }
}

/// The nodes with cells of these texts in `row`.
pub open spec fn cells_added(t: Nodes, row: int, cells: Seq<Seq<u8>>, start_line: int) -> Nodes
    decreases cells.len(),
{
    if cells.len() == 0 {
        t
    } else {
        appended(
            cells_added(t, row, cells.drop_last(), start_line),
            row,
            cell_node(cells.last(), start_line),
        )
    }
}

/// The first `n` cells, and empty ones where there are fewer.
pub open spec fn padded(cells: Seq<Seq<u8>>, n: nat) -> Seq<Seq<u8>> {
    Seq::new(
        n,
        |k: int|
            if k < cells.len() {
                cells[k]
            } else {
                seq![]
            },
    )
}

/// The nodes with a row at the end of `table`.
pub open spec fn row_added(
    t: Nodes,
    table: int,
    header: bool,
    cells: Seq<Seq<u8>>,
    start_line: int,
) -> Nodes {
    cells_added(
        appended(t, table, fresh(Value::TableRow(header), start_line)),
        t.len() as int,
        cells,
        start_line,
    )
}

/// The text before the header of a table, as a paragraph.
pub open spec fn lead_node(content: Seq<u8>, offset: int) -> NodeView {
    NodeView { content: cell_text(content.subrange(0, offset)), ..fresh(Value::Paragraph, 0) }
}

/// The nodes when the paragraph `i`, at the end of the block around it, has become a table
/// whose header is the last line of the paragraph; and that table. Text before this line stays
/// a paragraph.
pub open spec fn header_opened(
    t: Nodes,
    i: int,
    row: RowView,
    alignments: Seq<TableAlignment>,
    start_line: int,
) -> (Nodes, int) {
    let p = t[i].parent->0;
    let table = t.len() as int;
    let t1 = detached(appended(t, p, fresh(Value::Table(alignments), start_line)), i);
    let t2 = row_added(t1, table, true, row.cells, start_line);
    let t3 = if row.paragraph_offset > 0 && t2[p].value.can_contain(Value::Paragraph) {
        inserted(
            t2,
            p,
            t2[p].children.len() - 1,
            lead_node(t[i].content, row.paragraph_offset),
        )
    } else {
        t2
    };
    (t3, table)
}

/// What adding cells does.
proof fn lemma_cells_added(
    t: Nodes,
    row: int,
    cells: Seq<Seq<u8>>,
    start_line: int,
    s: Set<int>,
)
    requires
        orderly(t),
        fences_read(t, -1),
        all_open(t, s),
        spine(t, row, s),
        t[row].value is TableRow,
        newly_made(t, row),
        texts_valid(cells),
    ensures
        ({
            let u = cells_added(t, row, cells, start_line);
            &&& orderly(u)
            &&& fences_read(u, -1)
            &&& all_open(u, s)
            &&& untouched(t, u, s)
            &&& spine(u, row, s)
            &&& newly_made(u, row)
            &&& u.len() == t.len() + cells.len()
            &&& u[row] == NodeView { children: u[row].children, ..t[row] }
            &&& forall|j: int| 0 <= j < t.len() && j != row ==> #[trigger] u[j] == t[j]
        }),
    decreases cells.len(),
{
    if cells.len() > 0 {
        let before = cells.drop_last();
        assert forall|k: int| 0 <= k < before.len() implies valid_utf8(#[trigger] before[k]) by {
            assert(before[k] == cells[k]);
        }
        assert(valid_utf8(cells[cells.len() - 1]));
        lemma_cells_added(t, row, before, start_line, s);
        let u0 = cells_added(t, row, before, start_line);
        let n = cell_node(cells.last(), start_line);
        lemma_block_appended(u0, row, n, s);
        let u = appended(u0, row, n);
        lemma_spine_frame(u0, u, row, s);
        assert(u[row].children.last() == u0.len());
    }
}

/// What adding a row does.
pub proof fn lemma_row_added(
    t: Nodes,
    table: int,
    header: bool,
    cells: Seq<Seq<u8>>,
    start_line: int,
    s: Set<int>,
)
    requires
        orderly(t),
        fences_read(t, -1),
        all_open(t, s),
        spine(t, table, s),
        texts_valid(cells),
    ensures
        ({
            let u = row_added(t, table, header, cells, start_line);
            let row = t.len() as int;
            &&& orderly(u)
            &&& fences_read(u, -1)
            &&& all_open(u, s)
            &&& untouched(t, u, s)
            &&& spine(u, table, s)
            &&& spine(u, row, s)
            &&& newly_made(u, row)
            &&& last_child(u, table) == Some(row)
            &&& u[row].value == Value::TableRow(header)
            &&& u.len() == t.len() + 1 + cells.len()
            &&& u[table] == NodeView { children: u[table].children, ..t[table] }
            &&& forall|j: int| 0 <= j < t.len() && j != table ==> #[trigger] u[j] == t[j]
        }),
{
    let n = fresh(Value::TableRow(header), start_line);
    lemma_valid_ascii(Seq::<u8>::empty());
    lemma_block_appended(t, table, n, s);
    let u0 = appended(t, table, n);
    let row = t.len() as int;
    lemma_spine_frame(t, u0, table, s);
    lemma_cells_added(u0, row, cells, start_line, s);
    let u = cells_added(u0, row, cells, start_line);
    lemma_spine_frame(u0, u, table, s);
}

/// The table is what the line has reached.
#[verifier::rlimit(40)]
pub proof fn lemma_header_opened(
    t: Nodes,
    i: int,
    row: RowView,
    alignments: Seq<TableAlignment>,
    start_line: int,
    current: int,
    m: int,
    s: Set<int>,
)
    requires
        in_motion(t, i, current, m, s),
        fences_read(t, -1),
        t[i].value is Paragraph,
        texts_valid(row.cells),
        0 <= row.paragraph_offset <= t[i].content.len(),
        is_char_boundary(t[i].content, row.paragraph_offset),
    ensures
        ({
            let (u, table) = header_opened(t, i, row, alignments, start_line);
            &&& in_motion(u, table, current, m, s)
            &&& fences_read(u, -1)
            &&& u[table].value == Value::Table(alignments)
        }),
{
    let p = t[i].parent->0;
    let table = t.len() as int;
    let n = fresh(Value::Table(alignments), start_line);
    assert(sound(t[i]));
    assert(linked(t, i));
    assert(linked(t, p));
    lemma_valid_ascii(Seq::<u8>::empty());
    lemma_block_appended(t, p, n, s);
    let t0 = appended(t, p, n);
    lemma_paragraph_taken_out(t0, i);
    let t1 = detached(t0, i);
    lemma_spine_frame(t, t1, p, s);
    assert(fences_read(t1, -1)) by {
        assert forall|j: int| 0 <= j < t1.len() && j != -1 implies fence_read(#[trigger] t1[j]) by {
            assert(fence_read(t0[j]));
        }
    }
    let ch = t[p].children;
    assert(t0[p].children[ch.len() - 1] == i);
    let k0 = lemma_without_at(t0[p].children, i);
    assert(k0 == ch.len() - 1) by {
        assert(t0[p].children[k0] == i);
        if k0 < ch.len() - 1 {
            assert(ch[k0] == ch[ch.len() - 1]);
        }
    }
    assert(t1[p].children =~= ch.drop_last().push(table));
    assert(spine(t1, table, s));
    lemma_row_added(t1, table, true, row.cells, start_line, s);
    let t2 = row_added(t1, table, true, row.cells, start_line);
    assert(t2[p] == t1[p]);
    if row.paragraph_offset > 0 && t2[p].value.can_contain(Value::Paragraph) {
        let lead = lead_node(t[i].content, row.paragraph_offset);
        is_char_boundary_start_end_of_seq(t[i].content);
        lemma_valid_between(t[i].content, 0, row.paragraph_offset);
        lemma_cell_text_valid(t[i].content.subrange(0, row.paragraph_offset));
        if ch.len() > 1 {
            assert(paragraph_at(t, p, ch.len() - 1));
            let a = ch[ch.len() - 2];
            assert(t2[p].children[t2[p].children.len() - 2] == a);
            assert(a != i);
            assert(t2[a] == t1[a]);
        }
        lemma_block_inserted(t2, p, lead);
        let t3 = inserted(t2, p, t2[p].children.len() - 1, lead);
        lemma_spine_frame(t2, t3, p, s);
        assert(untouched(t, t3, s));
        lemma_open_up_to_frame(t, t3, current, m, s);
    } else {
        assert(untouched(t, t2, s));
        lemma_open_up_to_frame(t, t2, current, m, s);
    }
}

impl<'a> Tree<'a> {
    /// Adds cells of these texts to `row`.
    fn add_cells(&mut self, row: usize, cells: &Vec<Vec<u8>>, n: usize, start_line: usize)
        requires
            row < old(self)@.len(),
        ensures
            final(self)@ == cells_added(
                old(self)@,
                row as int,
                padded(texts(cells@), n as nat),
                start_line as int,
            ),
    {
        let ghost all = padded(texts(cells@), n as nat);
        let mut k: usize = 0;
        proof {
            assert(all.subrange(0, 0) =~= Seq::<Seq<u8>>::empty());
        }
        while k < n
            invariant
                k <= n,
                row < self@.len(),
                all == padded(texts(cells@), n as nat),
                self@ == cells_added(
                    old(self)@,
                    row as int,
                    all.subrange(0, k as int),
                    start_line as int,
                ),
            decreases n - k,
        {
            let mut cell: AstNode = make_node(NodeValue::TableCell, start_line);
            if k < cells.len() {
                let len: usize = cells[k].len();
                cell.content = copy_range(cells[k].as_slice(), 0, len);
                proof {
                    assert(cell.content@ =~= cells@[k as int]@);
                }
            }
            proof {
                let next = all.subrange(0, k + 1);
                assert(next.drop_last() =~= all.subrange(0, k as int));
                assert(cell@ =~= cell_node(next.last(), start_line as int));
            }
            self.append(row, cell);
            k += 1;
        }
        proof {
            assert(all.subrange(0, n as int) =~= all);
        }
    }

    /// Adds a row of `n` cells at the end of `table`, with the texts that there are.
    pub fn add_row(
        &mut self,
        table: usize,
        header: bool,
        cells: &Vec<Vec<u8>>,
        n: usize,
        start_line: usize,
    ) -> (r: usize)
        requires
            table < old(self)@.len(),
        ensures
            r == old(self)@.len(),
            final(self)@ == row_added(
                old(self)@,
                table as int,
                header,
                padded(texts(cells@), n as nat),
                start_line as int,
            ),
    {
        let row: usize = self.append(
            table,
            make_node(NodeValue::TableRow(header), start_line),
        );
        self.add_cells(row, cells, n, start_line);
        row
    }

    /// Makes a table of the paragraph `node`, whose last line is its header.
    pub fn open_header(
        &mut self,
        node: usize,
        row: &Row,
        alignments: Vec<TableAlignment>,
        start_line: usize,
    ) -> (r: usize)
        requires
            is_tree(old(self)@),
            node < old(self)@.len(),
            old(self)@[node as int].parent is Some,
            last_child(old(self)@, old(self)@[node as int].parent->0) == Some(node as int),
            row.paragraph_offset <= old(self)@[node as int].content.len(),
        ensures
            ({
                let (u, table) = header_opened(
                    old(self)@,
                    node as int,
                    row@,
                    alignments@,
                    start_line as int,
                );
                &&& final(self)@ == u
                &&& r == table
            }),
    {
        let ghost t = self@;
        proof {
            assert(linked(t, node as int));
        }
        let p: usize = self.node(node).parent.unwrap();
        let content: Vec<u8> = copy_cell(
            slice_subrange(self.node(node).content.as_slice(), 0, row.paragraph_offset),
        );
        let ghost new = fresh(Value::Table(alignments@), start_line as int);
        proof {
            lemma_appended(t, p as int, new);
        }
        let table: usize = self.append(p, make_node(NodeValue::Table(alignments), start_line));
        self.detach(node);
        proof {
            assert(padded(texts(row.cells@), row.cells@.len()) =~= texts(row.cells@));
            let t0 = appended(t, p as int, new);
            assert(t0[p as int].children.last() == table);
            lemma_detached(t0, node as int);
        }
        let ghost t1 = self@;
        proof {
            lemma_without_last(
                appended(t, p as int, new)[p as int].children,
                node as int,
            );
            assert(t1[p as int].children.len() > 0);
        }
        self.add_row(table, true, &row.cells, row.cells.len(), start_line);
        proof {
            lemma_row_added_frame(t1, table as int, true, row@.cells, start_line as int);
        }
        if row.paragraph_offset > 0 && self.node(p).value.can_contain(&NodeValue::Paragraph) {
            let mut lead: AstNode = make_node(NodeValue::Paragraph, 0);
            lead.content = content;
            proof {
                assert(lead@ =~= lead_node(t[node as int].content, row@.paragraph_offset));
            }
            let n: usize = self.node(p).children.len();
            self.insert(p, n - 1, lead);
        }
        table
    }
}

/// Taking out another element keeps the last one.
proof fn lemma_without_last(s: Seq<int>, x: int)
    requires
        s.len() > 0,
        s.last() != x,
    ensures
        without(s, x).len() > 0,
        without(s, x).last() == s.last(),
{
}

/// A row is added under the table alone.
proof fn lemma_row_added_frame(
    t: Nodes,
    table: int,
    header: bool,
    cells: Seq<Seq<u8>>,
    start_line: int,
)
    requires
        0 <= table < t.len(),
    ensures
        row_added(t, table, header, cells, start_line).len() == t.len() + 1 + cells.len(),
        forall|j: int|
            0 <= j < t.len() && j != table ==> #[trigger] row_added(
                t,
                table,
                header,
                cells,
                start_line,
            )[j] == t[j],
{
    lemma_cells_added_frame(
        appended(t, table, fresh(Value::TableRow(header), start_line)),
        t.len() as int,
        cells,
        start_line,
    );
}

/// Cells are added under their row alone.
proof fn lemma_cells_added_frame(t: Nodes, row: int, cells: Seq<Seq<u8>>, start_line: int)
    requires
        0 <= row < t.len(),
    ensures
        cells_added(t, row, cells, start_line).len() == t.len() + cells.len(),
        forall|j: int|
            0 <= j < t.len() && j != row ==> #[trigger] cells_added(t, row, cells, start_line)[j]
                == t[j],
    decreases cells.len(),
{
    if cells.len() > 0 {
        lemma_cells_added_frame(t, row, cells.drop_last(), start_line);
    }
}

} // verus!
