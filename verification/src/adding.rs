//! What becomes of the rest of a line once no more blocks are opened.

use crate::blocks::{
    at_rest, close, fences_read, in_motion, innermost, lemma_changed, lemma_child_added,
    lemma_close, lemma_last_child, lemma_open_up_to_frame, lemma_spine_frame, lemma_spine_subset,
    newly_made, open_up_to, orderly, paragraph_at, spine, untouched, Blocks,
};
use crate::closing::{fence_read, sound};
use crate::ctype::{blanks, lemma_run_end_is};
use crate::cursor::{
    column_after, lemma_looked_up, lemma_with_nonspace, tab_width, with_nonspace, CursorView,
    TAB_STOP,
};
use crate::nodes::{NodeValue, Value};
use crate::opening::{has_reached, lemma_moved_to, moved_to, with_child};
use crate::parser::{Parser, ParserView};
use crate::prefixes::text_line;
use crate::scanners::{html_block_end, html_end};
use crate::starts::rest_of;
use crate::strings::{chop_trailing_hashtags, lemma_without_closing_hashes, without_closing_hashes};
use crate::text::{copy_range, lemma_valid_ascii, lemma_valid_concat, push_bytes};
use crate::tree::{
    is_tree, last_child, last_open, lemma_same_shape, linked, same_shape, NodeView, Nodes, Tree,
};
use vstd::prelude::*;
use vstd::slice::slice_subrange;
use vstd::utf8::{
    is_char_boundary_iff_not_is_continuation_byte, is_char_boundary_start_end_of_seq, valid_utf8,
    valid_utf8_split,
};

verus! {

/// Whether a blank line shows as one behind a block of this kind.
pub open spec fn shows_blank(n: NodeView, line_number: int) -> bool {
    match n.value {
        Value::BlockQuote | Value::Heading(_) | Value::ThematicBreak => false,
        Value::CodeBlock(b) => !b.fenced,
        Value::Item(_) => n.children.len() > 0 || n.start_line != line_number,
        _ => true,
    }
}

/// The nodes with `i` marked as ending with a blank line or not.
pub open spec fn with_blank(t: Nodes, i: int, last_line_blank: bool) -> Nodes {
    t.update(i, NodeView { last_line_blank, ..t[i] })
}

/// The nodes with all that `i` is in marked as not ending with a blank line.
pub open spec fn unblanked_above(t: Nodes, i: int) -> Nodes
    decreases i,
{
    match t[i].parent {
        Some(p) => if 0 <= p < i {
            unblanked_above(with_blank(t, p, false), p)
        } else {
            t
        },
        None => t,
    }
}

/// The nodes with what the line shows of `i`, of its last block, and of what it is in marked.
pub open spec fn blanks_marked(t: Nodes, i: int, blank: bool, line_number: int) -> Nodes {
    let t1 = match last_child(t, i) {
        Some(x) => if blank {
            with_blank(t, x, true)
        } else {
            t
        },
        None => t,
    };
    unblanked_above(with_blank(t1, i, blank && shows_blank(t1[i], line_number)), i)
}

/// The bytes left of the line, a tab that was used in part replaced by the spaces it stands
/// for.
pub open spec fn left_of(c: CursorView, line: Seq<u8>) -> Seq<u8> {
    if c.partially_consumed_tab {
        Seq::new(tab_width(c.column) as nat, |k: int| 32u8) + line.subrange(
            c.offset + 1,
            line.len() as int,
        )
    } else {
        line.subrange(c.offset, line.len() as int)
    }
}

/// The state with the rest of the line added to the text of `i`.
pub open spec fn line_added(p: ParserView, i: int, line: Seq<u8>) -> ParserView {
    let t = p.blocks.nodes;
    let content = t[i].content + left_of(p.cursor, line);
    ParserView {
        blocks: Blocks { nodes: t.update(i, NodeView { content, ..t[i] }), ..p.blocks },
        cursor: if p.cursor.partially_consumed_tab {
            CursorView { offset: p.cursor.offset + 1, ..p.cursor }
        } else {
            p.cursor
        },
        ..p
    }
}

/// The blocks when `i`, and what it is in up to `m`, are closed; not `m` itself.
pub open spec fn closed_up_to(b: Blocks, i: int, m: int, info: Option<Seq<char>>) -> Blocks
    decreases i,
{
    if i == m {
        b
    } else {
        match b.nodes[i].parent {
            Some(p) => if 0 <= p < i {
                closed_up_to(close(b, i, info), p, m, info)
            } else {
                b
            },
            None => b,
        }
    }
}

/// The part of the line that is the text of a block: that of a heading with hashes ends before
/// the hashes that close it.
pub open spec fn text_part(v: Value, line: Seq<u8>) -> Seq<u8> {
    match v {
        Value::Heading(nh) => if nh.setext {
            line
        } else {
            without_closing_hashes(line)
        },
        _ => line,
    }
}

/// The state when the rest of the line has gone to what it has reached, `i`.
pub open spec fn rest_added(p: ParserView, i: int, line: Seq<u8>) -> ParserView {
    let t = p.blocks.nodes;
    let at = p.cursor.first_nonspace;
    match t[i].value {
        Value::CodeBlock(_) => ParserView { current: i, ..line_added(p, i, line) },
        Value::HtmlBlock(k, _) => {
            let q = line_added(p, i, line);
            if html_end(rest_of(p.cursor, line), k) {
                ParserView {
                    blocks: close(q.blocks, i, p.info()),
                    current: t[i].parent->0,
                    ..q
                }
            } else {
                ParserView { current: i, ..q }
            }
        },
        _ => if p.cursor.blank {
            ParserView { current: i, ..p }
        } else if t[i].value.accepts_lines() {
            let text = text_part(t[i].value, line);
            if at <= text.len() {
                let q = ParserView { cursor: moved_to(p.cursor, text, at), ..p };
                ParserView { current: i, ..line_added(q, i, text) }
            } else {
                ParserView { current: i, ..p }
            }
        } else {
            let (q, id) = with_child(p, i, Value::Paragraph);
            let r = ParserView { cursor: moved_to(p.cursor, line, at), ..q };
            ParserView { current: id, ..line_added(r, id, line) }
        },
    }
}

/// The state when a line that went on with the blocks down to `m` and has reached `i` is used
/// up.
///
/// A line that opens nothing, and ends short of an open paragraph, goes on with the paragraph
/// all the same, unless it is blank. Otherwise the blocks that it did not go on with are closed.
pub open spec fn text_added(p: ParserView, i: int, m: int, line: Seq<u8>) -> ParserView {
    let t = p.blocks.nodes;
    let c = with_nonspace(p.cursor, line);
    let q = ParserView {
        blocks: Blocks { nodes: blanks_marked(t, i, c.blank, p.line_number), ..p.blocks },
        cursor: c,
        ..p
    };
    if p.current != m && i == m && !c.blank && t[p.current].value is Paragraph {
        line_added(q, p.current, line)
    } else {
        rest_added(
            ParserView { blocks: closed_up_to(q.blocks, p.current, m, p.info()), ..q },
            i,
            line,
        )
    }
}

/// The nodes are the same but for marks of blank lines.
pub open spec fn only_marked(t: Nodes, u: Nodes) -> bool {
    &&& t.len() == u.len()
    &&& forall|j: int|
        0 <= j < t.len() ==> #[trigger] u[j] == (NodeView {
            last_line_blank: u[j].last_line_blank,
            ..t[j]
        })
}

/// Marks change nothing else.
proof fn lemma_unblanked_above(t: Nodes, i: int)
    requires
        0 <= i < t.len(),
    ensures
        only_marked(t, unblanked_above(t, i)),
    decreases i,
{
    match t[i].parent {
        Some(p) => {
            if 0 <= p < i {
                lemma_unblanked_above(with_blank(t, p, false), p);
            }
        },
        None => {},
    }
}

/// Marks change nothing else.
pub proof fn lemma_blanks_marked(t: Nodes, i: int, blank: bool, line_number: int)
    requires
        is_tree(t),
        0 <= i < t.len(),
    ensures
        only_marked(t, blanks_marked(t, i, blank, line_number)),
{
    lemma_last_child(t, i);
    let t1 = match last_child(t, i) {
        Some(x) => if blank {
            with_blank(t, x, true)
        } else {
            t
        },
        None => t,
    };
    lemma_unblanked_above(with_blank(t1, i, blank && shows_blank(t1[i], line_number)), i);
}

/// Marks do not matter to which blocks are open.
proof fn lemma_only_marked(
    t: Nodes,
    u: Nodes,
    i: int,
    current: int,
    m: int,
    s: Set<int>,
)
    requires
        only_marked(t, u),
        in_motion(t, i, current, m, s),
    ensures
        in_motion(u, i, current, m, s),
        forall|x: int| fences_read(t, x) ==> fences_read(u, x),
{
    assert(same_shape(t, u));
    lemma_same_shape(t, u);
    assert forall|j: int| 0 <= j < u.len() implies sound(#[trigger] u[j]) by {
        assert(sound(t[j]));
    }
    assert forall|j: int, k: int| 0 <= j < u.len() && #[trigger] paragraph_at(
        u,
        j,
        k,
    ) implies !u[u[j].children[k - 1]].open by {
        assert(linked(t, j));
        assert(u[j].children == t[j].children);
        assert(t[j].children[k] == u[j].children[k]);
        assert(paragraph_at(t, j, k));
        assert(t[j].children[k - 1] == u[j].children[k - 1]);
    }
    lemma_spine_frame(t, u, i, s);
    assert(untouched(t, u, s));
    lemma_open_up_to_frame(t, u, current, m, s);
    if i == m {
        lemma_spine_frame(t, u, current, Set::empty());
        lemma_last_child(t, current);
    } else {
        lemma_last_child(t, i);
    }
    assert forall|x: int| fences_read(t, x) implies fences_read(u, x) by {
        assert forall|j: int| 0 <= j < u.len() && j != x implies fence_read(#[trigger] u[j]) by {
            assert(fence_read(t[j]));
        }
    }
}

/// Closing a block that is not on a way up to the root leaves the way.
proof fn lemma_spine_kept(b: Blocks, x: int, info: Option<Seq<char>>, i: int, s: Set<int>)
    requires
        orderly(b.nodes),
        0 <= x < b.nodes.len(),
        s.contains(x),
        spine(b.nodes, i, s),
    ensures
        spine(close(b, x, info).nodes, i, s),
    decreases i,
{
    lemma_close(b, x, info);
    let t = b.nodes;
    let u = close(b, x, info).nodes;
    match t[i].parent {
        Some(p) => {
            lemma_spine_kept(b, x, info, p, s);
        },
        None => {},
    }
}

/// What closing the blocks does that a line did not go on with.
#[verifier::rlimit(60)]
pub proof fn lemma_closed_up_to(
    b: Blocks,
    x: int,
    m: int,
    info: Option<Seq<char>>,
    i: int,
    s: Set<int>,
)
    requires
        orderly(b.nodes),
        spine(b.nodes, i, s),
        open_up_to(b.nodes, x, m, s),
        fences_read(b.nodes, i),
        0 <= m,
        0 <= x < b.nodes.len(),
    ensures
        ({
            let t = b.nodes;
            let u = closed_up_to(b, x, m, info).nodes;
            &&& orderly(u)
            &&& u.len() == t.len()
            &&& spine(u, i, s)
            &&& fences_read(u, i)
            &&& fences_read(t, -1) ==> fences_read(u, -1)
            &&& u[i] == NodeView { children: u[i].children, ..t[i] }
            &&& i != m && newly_made(t, i) ==> u[i] == t[i] && newly_made(u, i)
            &&& x != m && spine(t, x, Set::empty()) ==> !last_open(u, m)
            &&& x == m ==> u == t
        }),
    decreases x,
{
    let t = b.nodes;
    if x != m {
        let p = t[x].parent->0;
        let c = close(b, x, info);
        lemma_close(b, x, info);
        lemma_spine_kept(b, x, info, i, s);
        if p != m {
            assert(untouched_but(t, c.nodes, x));
            lemma_open_up_to_below(t, c.nodes, x, p, m, s);
        }
        if spine(t, x, Set::empty()) {
            lemma_spine_frame(t, c.nodes, p, Set::empty());
        }
        lemma_last_child(t, i);
        lemma_last_child(c.nodes, i);
        lemma_closed_up_to(c, p, m, info, i, s);
    }
}

/// No other node than `x` is opened, closed or moved.
spec fn untouched_but(t: Nodes, u: Nodes, x: int) -> bool {
    &&& t.len() == u.len()
    &&& forall|j: int|
        0 <= j < t.len() && j != x ==> (#[trigger] u[j]).open == t[j].open && u[j].parent
            == t[j].parent
}

/// Blocks around one that is closed stay open.
proof fn lemma_open_up_to_below(t: Nodes, u: Nodes, x: int, i: int, m: int, s: Set<int>)
    requires
        open_up_to(t, i, m, s),
        untouched_but(t, u, x),
        0 <= m,
        i < x,
    ensures
        open_up_to(u, i, m, s),
    decreases i - m,
{
    if i != m {
        lemma_open_up_to_below(t, u, x, t[i].parent->0, m, s);
    }
}

/// The rest of a line is text.
proof fn lemma_left_of(c: CursorView, line: Seq<u8>)
    requires
        valid_utf8(line),
        c.placed(line),
    ensures
        valid_utf8(left_of(c, line)),
        c.offset < line.len() && line.last() == 10 ==> left_of(c, line).len() > 0 && left_of(
            c,
            line,
        ).last() == 10,
{
    is_char_boundary_start_end_of_seq(line);
    if c.partially_consumed_tab {
        crate::text::lemma_boundary_at_ascii(line, c.offset);
        valid_utf8_split(line, c.offset + 1);
        let sp = Seq::new(tab_width(c.column) as nat, |k: int| 32u8);
        lemma_valid_ascii(sp);
        lemma_valid_concat(sp, line.subrange(c.offset + 1, line.len() as int));
    } else {
        valid_utf8_split(line, c.offset);
    }
}

/// Columns depend only on the bytes passed.
proof fn lemma_column_after_prefix(a: Seq<u8>, b: Seq<u8>, i: int, j: int, column: int)
    requires
        0 <= i,
        j <= a.len(),
        j <= b.len(),
        forall|k: int| i <= k < j ==> #[trigger] a[k] == b[k],
    ensures
        column_after(a, i, j, column) == column_after(b, i, j, column),
    decreases j - i,
{
    if i < j {
        lemma_column_after_prefix(
            a,
            b,
            i + 1,
            j,
            column + crate::cursor::byte_width(a[i], column),
        );
    }
}

/// A cursor that has looked up a byte of a line, or its end, can move on to it in any prefix of
/// the line that goes so far.
proof fn lemma_in_prefix(c: CursorView, line: Seq<u8>, n: int)
    requires
        valid_utf8(line),
        c.in_line(line),
        c.looked_up(line),
        c.placed(line),
        0 <= n <= line.len(),
        valid_utf8(line.subrange(0, n)),
        c.first_nonspace <= n,
    ensures
        c.in_line(line.subrange(0, n)),
        moved_to(c, line.subrange(0, n), c.first_nonspace).placed(line.subrange(0, n)),
        moved_to(c, line.subrange(0, n), c.first_nonspace).offset == c.first_nonspace,
{
    let l = line.subrange(0, n);
    let at = c.first_nonspace;
    lemma_looked_up(c, line);
    assert forall|k: int| c.offset <= k < at implies blanks()(#[trigger] l[k]) by {
        assert(l[k] == line[k]);
    }
    if at < n {
        assert(l[at] == line[at]);
    }
    lemma_run_end_is(l, c.offset, at, blanks());
    lemma_column_after_prefix(l, line, c.offset, at, c.column);
    if c.partially_consumed_tab {
        assert(crate::ctype::blank_byte(line[c.offset]));
        assert(at > c.offset);
        assert(l[c.offset] == line[c.offset]);
    }
    lemma_moved_to(c, l, at);
    if at < n {
        if at > c.offset {
            assert(crate::ctype::blank_byte(line[at - 1]));
            crate::text::lemma_boundary_at_ascii(line, at - 1);
        }
        is_char_boundary_iff_not_is_continuation_byte(line, at);
        is_char_boundary_iff_not_is_continuation_byte(l, at);
    }
}

impl<'a> Tree<'a> {
    /// Marks what a line shows of `node`, of its last block, and of what it is in.
    fn mark_blanks(&mut self, node: usize, blank: bool, line_number: usize)
        requires
            is_tree(old(self)@),
            node < old(self)@.len(),
        ensures
            final(self)@ == blanks_marked(
                old(self)@,
                node as int,
                blank,
                line_number as int,
            ),
    {
        let ghost t = self@;
        proof {
            lemma_last_child(t, node as int);
            lemma_blanks_marked(t, node as int, blank, line_number as int);
        }
        if blank {
            match self.last_child(node) {
                Some(x) => {
                    self.nodes[x].last_line_blank = true;
                    proof {
                        assert(self@ =~= with_blank(t, x as int, true));
                    }
                },
                None => {},
            }
        }
        let ghost t1 = self@;
        let shows: bool = match &self.node(node).value {
            NodeValue::BlockQuote | NodeValue::Heading(_) | NodeValue::ThematicBreak => false,
            NodeValue::CodeBlock(ncb) => !ncb.fenced,
            NodeValue::Item(_) => self.node(node).children.len() > 0
                || self.node(node).start_line != line_number,
            _ => true,
        };
        self.nodes[node].last_line_blank = blank && shows;
        let ghost t2 = self@;
        proof {
            assert(t2 =~= with_blank(t1, node as int, blank && shows));
            assert(only_marked(t, t2));
        }
        let mut i: usize = node;
        loop
            invariant_except_break
                is_tree(t),
                i < self@.len(),
                only_marked(t, self@),
                unblanked_above(t2, node as int) == unblanked_above(self@, i as int),
            ensures
                self@ == unblanked_above(t2, node as int),
            decreases i,
        {
            let ghost u = self@;
            proof {
                assert(linked(t, i as int));
            }
            match self.nodes[i].parent {
                Some(p) => {
                    self.nodes[p].last_line_blank = false;
                    proof {
                        assert(self@ =~= with_blank(u, p as int, false));
                    }
                    i = p;
                },
                None => break,
            }
        }
    }
}

impl<'a, 'o> Parser<'a, 'o> {
    /// Adds the rest of the line to the text of `node`.
    fn add_line(&mut self, node: usize, line: &[u8])
        requires
            node < old(self)@.blocks.nodes.len(),
            old(self)@.cursor.in_line(line@),
        ensures
            final(self)@ == line_added(old(self)@, node as int, line@),
    {
        let ghost t = self@.blocks.nodes;
        let ghost c = self@.cursor;
        let len: usize = line.len();
        let n: usize = self.tree.node(node).content.len();
        let mut content: Vec<u8> = copy_range(self.tree.node(node).content.as_slice(), 0, n);
        proof {
            assert(content@ =~= t[node as int].content);
        }
        if self.cursor.partially_consumed_tab {
            self.cursor.offset += 1;
            let chars_to_tab: usize = TAB_STOP - (self.cursor.column % TAB_STOP);
            let mut k: usize = 0;
            while k < chars_to_tab
                invariant
                    k <= chars_to_tab,
                    content@ == t[node as int].content + Seq::new(k as nat, |j: int| 32u8),
                decreases chars_to_tab - k,
            {
                content.push(32);
                k += 1;
                proof {
                    assert(content@ =~= t[node as int].content + Seq::new(
                        k as nat,
                        |j: int| 32u8,
                    ));
                }
            }
        }
        push_bytes(&mut content, slice_subrange(line, self.cursor.offset, len));
        proof {
            assert(content@ =~= t[node as int].content + left_of(c, line@));
        }
        self.tree.nodes[node].content = content;
        proof {
            assert(self.tree@ =~= t.update(
                node as int,
                NodeView {
                    content: t[node as int].content + left_of(c, line@),
                    ..t[node as int]
                },
            ));
        }
    }

    /// Closes `start`, and what it is in up to `m`, but not `m` itself.
    #[verifier::rlimit(60)]
    pub(crate) fn close_up_to(
        &mut self,
        start: usize,
        m: usize,
        Ghost(i): Ghost<int>,
        Ghost(s): Ghost<Set<int>>,
    )
        requires
            orderly(old(self)@.blocks.nodes),
            start < old(self)@.blocks.nodes.len(),
            open_up_to(old(self)@.blocks.nodes, start as int, m as int, s),
            spine(old(self)@.blocks.nodes, i, s),
            fences_read(old(self)@.blocks.nodes, i),
        ensures
            final(self)@ == (ParserView {
                blocks: closed_up_to(
                    old(self)@.blocks,
                    start as int,
                    m as int,
                    old(self)@.info(),
                ),
                ..old(self)@
            }),
    {
        let ghost info = self@.info();
        let mut x: usize = start;
        while x != m
            invariant
                orderly(self@.blocks.nodes),
                x < self@.blocks.nodes.len(),
                open_up_to(self@.blocks.nodes, x as int, m as int, s),
                spine(self@.blocks.nodes, i, s),
                fences_read(self@.blocks.nodes, i),
                info == old(self)@.info(),
                self@ == (ParserView { blocks: self@.blocks, ..old(self)@ }),
                closed_up_to(old(self)@.blocks, start as int, m as int, info) == closed_up_to(
                    self@.blocks,
                    x as int,
                    m as int,
                    info,
                ),
            decreases x,
        {
            let ghost b = self@.blocks;
            proof {
                let t = b.nodes;
                assert(sound(t[x as int]));
                assert(fence_read(t[x as int]));
                lemma_close(b, x as int, info);
                lemma_spine_kept(b, x as int, info, i, s);
                let c = close(b, x as int, info);
                assert(untouched_but(t, c.nodes, x as int));
                lemma_open_up_to_below(
                    t,
                    c.nodes,
                    x as int,
                    t[x as int].parent->0,
                    m as int,
                    s,
                );
            }
            x = self.finalize(x).unwrap();
        }
    }
}

/// More text in `i` leaves which blocks are open.
#[verifier::rlimit(60)]
proof fn lemma_line_added(p: ParserView, i: int, line: Seq<u8>, current: int)
    requires
        orderly(p.blocks.nodes),
        0 <= i < p.blocks.nodes.len(),
        fences_read(p.blocks.nodes, i),
        !(p.blocks.nodes[i].value is CodeBlock) || p.cursor.offset < line.len(),
        spine(p.blocks.nodes, current, Set::empty()),
        innermost(p.blocks.nodes, current),
        valid_utf8(line),
        p.cursor.placed(line),
        p.blocks.nodes[i].value is CodeBlock ==> line.len() > 0 && line.last() == 10,
    ensures
        at_rest(line_added(p, i, line).blocks.nodes, current),
{
    let t = p.blocks.nodes;
    let u = line_added(p, i, line).blocks.nodes;
    let left = left_of(p.cursor, line);
    let n = NodeView { content: t[i].content + left, ..t[i] };
    lemma_left_of(p.cursor, line);
    assert(sound(t[i]));
    lemma_valid_concat(t[i].content, left);
    lemma_changed(t, i, n);
    lemma_spine_frame(t, u, current, Set::empty());
    lemma_last_child(t, current);
    assert forall|j: int| 0 <= j < u.len() && j != -1 implies fence_read(#[trigger] u[j]) by {
        if j != i {
            assert(fence_read(t[j]));
        } else if left.len() > 0 {
            assert((t[i].content + left).last() == left.last());
        }
    }
}

/// The blocks are such that the rest of the line can go to `i`.
spec fn takes_line(p: ParserView, i: int, line: Seq<u8>) -> bool {
    let t = p.blocks.nodes;
    &&& orderly(t)
    &&& spine(t, i, Set::empty())
    &&& innermost(t, i)
    &&& fences_read(t, i)
    &&& !(t[i].value is CodeBlock) ==> fences_read(t, -1)
    &&& text_line(line)
    &&& p.cursor.placed(line)
    &&& p.cursor.looked_up(line)
    &&& !(t[i].value is Heading) ==> p.cursor.ready(line)
}

impl<'a, 'o> Parser<'a, 'o> {
    /// Adds the rest of the line to the block of HTML `node`, and closes it where the line
    /// holds what ends it.
    #[verifier::rlimit(60)]
    fn add_html(&mut self, node: usize, k: u8, line: &[u8])
        requires
            takes_line(old(self)@, node as int, line@),
            old(self)@.blocks.nodes[node as int].value matches Value::HtmlBlock(t, _) && t == k,
        ensures
            final(self)@ == rest_added(old(self)@, node as int, line@),
            at_rest(final(self)@.blocks.nodes, final(self)@.current),
    {
        let ghost p = self@;
        let ghost t = p.blocks.nodes;
        proof {
            lemma_line_added(p, node as int, line@, node as int);
            lemma_looked_up(p.cursor, line@);
        }
        self.add_line(node, line);
        self.current = node;
        let rest: &[u8] = slice_subrange(line, self.cursor.first_nonspace, line.len());
        if html_block_end(rest, k) {
            let ghost q = self@;
            proof {
                let parent = t[node as int].parent->0;
                assert(sound(q.blocks.nodes[node as int]));
                assert(fence_read(q.blocks.nodes[node as int]));
                lemma_close(q.blocks, node as int, q.info());
                lemma_spine_frame(
                    q.blocks.nodes,
                    close(q.blocks, node as int, q.info()).nodes,
                    parent,
                    Set::empty(),
                );
            }
            self.current = self.finalize(node).unwrap();
        }
    }

    /// Adds the rest of the line to a new paragraph in `node`.
    #[verifier::rlimit(60)]
    fn add_paragraph(&mut self, node: usize, line: &[u8])
        requires
            takes_line(old(self)@, node as int, line@),
            !(old(self)@.blocks.nodes[node as int].value is CodeBlock),
            !(old(self)@.blocks.nodes[node as int].value is HtmlBlock),
            !old(self)@.blocks.nodes[node as int].value.accepts_lines(),
            !old(self)@.cursor.blank,
        ensures
            final(self)@ == rest_added(old(self)@, node as int, line@),
            at_rest(final(self)@.blocks.nodes, final(self)@.current),
    {
        let ghost p = self@;
        let at: usize = self.cursor.first_nonspace;
        proof {
            lemma_looked_up(p.cursor, line@);
            lemma_child_added(
                p.blocks,
                node as int,
                Value::Paragraph,
                p.line_number,
                p.info(),
                Set::empty(),
            );
            assert(line@.subrange(0, line@.len() as int) =~= line@);
            lemma_in_prefix(p.cursor, line@, line@.len() as int);
        }
        let id: usize = self.add_child(node, NodeValue::Paragraph);
        let count: usize = at - self.cursor.offset;
        self.cursor.advance_offset(line, count, false);
        proof {
            lemma_line_added(self@, id as int, line@, id as int);
        }
        self.add_line(id, line);
        self.current = id;
    }

    /// Adds the rest of the line to the paragraph or heading `node`.
    #[verifier::rlimit(60)]
    fn add_text(&mut self, node: usize, line: &[u8])
        requires
            takes_line(old(self)@, node as int, line@),
            !(old(self)@.blocks.nodes[node as int].value is CodeBlock),
            !(old(self)@.blocks.nodes[node as int].value is HtmlBlock),
            old(self)@.blocks.nodes[node as int].value.accepts_lines(),
            !old(self)@.cursor.blank,
        ensures
            final(self)@ == rest_added(old(self)@, node as int, line@),
            at_rest(final(self)@.blocks.nodes, final(self)@.current),
    {
        let ghost p = self@;
        let at: usize = self.cursor.first_nonspace;
        let mut text: Vec<u8> = copy_range(line, 0, line.len());
        proof {
            assert(text@ =~= line@);
            lemma_looked_up(p.cursor, line@);
            lemma_without_closing_hashes(line@);
        }
        let hashes: bool = match &self.tree.node(node).value {
            NodeValue::Heading(nh) => !nh.setext,
            _ => false,
        };
        if hashes {
            chop_trailing_hashtags(&mut text);
        }
        self.current = node;
        if at <= text.len() {
            proof {
                assert(text@ =~= line@.subrange(0, text@.len() as int));
                lemma_in_prefix(p.cursor, line@, text@.len() as int);
            }
            let count: usize = at - self.cursor.offset;
            self.cursor.advance_offset(text.as_slice(), count, false);
            proof {
                lemma_line_added(self@, node as int, text@, node as int);
            }
            self.add_line(node, text.as_slice());
        }
    }

    /// Adds the rest of the line to what it has reached, `node`.
    #[verifier::rlimit(60)]
    fn add_rest(&mut self, node: usize, line: &[u8])
        requires
            takes_line(old(self)@, node as int, line@),
        ensures
            final(self)@ == rest_added(old(self)@, node as int, line@),
            at_rest(final(self)@.blocks.nodes, final(self)@.current),
    {
        let code: bool = matches!(self.tree.node(node).value, NodeValue::CodeBlock(_));
        if code {
            proof {
                lemma_line_added(self@, node as int, line@, node as int);
            }
            self.add_line(node, line);
            self.current = node;
            return;
        }
        let html: Option<u8> = match &self.tree.node(node).value {
            NodeValue::HtmlBlock(nhb) => Some(nhb.block_type),
            _ => None,
        };
        match html {
            Some(k) => {
                self.add_html(node, k, line);
            },
            None => {
                if self.cursor.blank {
                    self.current = node;
                } else if self.tree.node(node).value.accepts_lines() {
                    self.add_text(node, line);
                } else {
                    self.add_paragraph(node, line);
                }
            },
        }
    }

    /// Uses up a line that went on with the blocks down to `last_matched` and has reached
    /// `container`.
    #[verifier::rlimit(60)]
    pub fn add_text_to_container(&mut self, container: usize, last_matched: usize, line: &[u8])
        requires
            text_line(line@),
            old(self)@.current < old(self)@.blocks.nodes.len(),
            exists|s: Set<int>| #[trigger]
                has_reached(
                    old(self)@,
                    container as int,
                    line@,
                    old(self)@.current,
                    last_matched as int,
                    s,
                ),
        ensures
            final(self)@ == text_added(
                old(self)@,
                container as int,
                last_matched as int,
                line@,
            ),
            at_rest(final(self)@.blocks.nodes, final(self)@.current),
    {
        let ghost p = self@;
        let ghost t = p.blocks.nodes;
        let ghost i = container as int;
        let ghost m = last_matched as int;
        let ghost s = choose|s: Set<int>| #[trigger]
            has_reached(p, i, line@, p.current, m, s);
        proof {
            lemma_with_nonspace(p.cursor, line@);
        }
        self.cursor.find_first_nonspace(line);
        let blank: bool = self.cursor.blank;
        proof {
            lemma_blanks_marked(t, i, blank, p.line_number);
            lemma_only_marked(
                t,
                blanks_marked(t, i, blank, p.line_number),
                i,
                p.current,
                m,
                s,
            );
        }
        self.tree.mark_blanks(container, blank, self.line_number);
        let ghost q = self@;
        let current: usize = self.current;
        if current != last_matched && container == last_matched && !blank && matches!(
            self.tree.node(current).value,
            NodeValue::Paragraph
        ) {
            proof {
                lemma_line_added(q, p.current, line@, p.current);
            }
            self.add_line(current, line);
            return;
        }
        proof {
            lemma_closed_up_to(q.blocks, p.current, m, p.info(), i, s);
        }
        self.close_up_to(current, last_matched, Ghost(i), Ghost(s));
        proof {
            let u = self@.blocks.nodes;
            lemma_spine_subset(u, i, s, Set::empty());
        }
        self.add_rest(container, line);
    }
}

} // verus!
