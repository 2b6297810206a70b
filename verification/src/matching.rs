//! Which of the open blocks a line goes on with.

use crate::blocks::{
    around, at_rest, close, in_motion, innermost, lemma_close, lemma_last_child, lemma_open_between,
    lemma_root_around, lemma_spine_around, lemma_spine_frame, open_after, orderly, spine,
};
use crate::closing::{fence_read, kind_sound, sound};
use crate::cursor::{lemma_with_nonspace, with_nonspace, CursorView};
use crate::nodes::{NodeValue, Value};
use crate::parser::{Parser, ParserView};
use crate::prefixes::{
    code_prefix, footnote_prefix, html_prefix, item_prefix, lemma_poised, quote_prefix, text_line,
    BlockPrefix,
};
use crate::table::row_of;
use crate::tree::{is_tree, last_child, last_open, NodeView, Nodes};
use vstd::prelude::*;
use vstd::slice::slice_subrange;

verus! {

/// A prefix that is there or not, and the cursor behind it.
pub open spec fn prefixed(next: Option<CursorView>, c: CursorView) -> (BlockPrefix, CursorView) {
    match next {
        Some(d) => (BlockPrefix::Matched, d),
        None => (BlockPrefix::Unmatched, c),
    }
}

/// What a line is to the open block `n`, and the cursor behind what belongs to the block.
pub open spec fn continued(n: NodeView, c: CursorView, line: Seq<u8>) -> (
    BlockPrefix,
    CursorView,
) {
    match n.value {
        Value::BlockQuote => prefixed(quote_prefix(c, line), c),
        Value::Item(nl) => prefixed(
            item_prefix(c, line, nl.marker_offset + nl.padding, n.children.len() > 0),
            c,
        ),
        Value::DescriptionItem(di) => prefixed(
            item_prefix(c, line, di.marker_offset + di.padding, n.children.len() > 0),
            c,
        ),
        Value::CodeBlock(b) => code_prefix(c, line, b),
        Value::HtmlBlock(k, _) => (
            if html_prefix(c, k) {
                BlockPrefix::Matched
            } else {
                BlockPrefix::Unmatched
            },
            c,
        ),
        Value::Paragraph => (
            if c.blank {
                BlockPrefix::Unmatched
            } else {
                BlockPrefix::Matched
            },
            c,
        ),
        Value::Table(_) => (
            if row_of(line.subrange(c.first_nonspace, line.len() as int)) is Some {
                BlockPrefix::Matched
            } else {
                BlockPrefix::Unmatched
            },
            c,
        ),
        Value::Heading(_) | Value::TableRow(_) | Value::TableCell => (BlockPrefix::Unmatched, c),
        Value::FootnoteDefinition(_) => prefixed(footnote_prefix(c, line), c),
        _ => (BlockPrefix::Matched, c),
    }
}

/// How far a line goes on with the open blocks.
pub struct Walk {
    /// What it is to the last block looked at.
    pub prefix: BlockPrefix,
    /// The last block looked at.
    pub container: int,
    /// The cursor behind what belongs to the blocks that it goes on with.
    pub cursor: CursorView,
}

/// How far a line goes on with the open blocks in `i`.
pub open spec fn walk(t: Nodes, c: CursorView, line: Seq<u8>, i: int) -> Walk
    decreases t.len() - i,
{
    match last_child(t, i) {
        Some(x) => if i < x < t.len() && t[x].open {
            let (prefix, next) = continued(t[x], with_nonspace(c, line), line);
            if prefix is Matched {
                walk(t, next, line, x)
            } else {
                Walk { prefix, container: x, cursor: next }
            }
        } else {
            Walk { prefix: BlockPrefix::Matched, container: i, cursor: c }
        },
        None => Walk { prefix: BlockPrefix::Matched, container: i, cursor: c },
    }
}

/// Where a walk ends: at the innermost block or, where a block does not go on, in the block
/// around it. Paragraphs only end at blank lines.
pub proof fn lemma_walk(t: Nodes, c: CursorView, line: Seq<u8>, i: int, current: int)
    requires
        is_tree(t),
        spine(t, current, Set::empty()),
        innermost(t, current),
        around(t, i, current),
        0 <= i < t.len(),
        !(t[i].value is TableRow),
    ensures
        ({
            let w = walk(t, c, line, i);
            &&& 0 <= w.container < t.len()
            &&& w.prefix is Matched ==> w.container == current && !last_open(t, current)
            &&& !(w.prefix is Matched) ==> {
                &&& t[w.container].open
                &&& t[w.container].parent matches Some(p) && around(t, p, current) && last_child(
                    t,
                    p,
                ) == Some(w.container)
                &&& t[w.container].value is Paragraph ==> w.cursor.blank
                    && with_nonspace(w.cursor, line) == w.cursor
                &&& w.prefix is Closed ==> t[w.container].value is CodeBlock
            }
        }),
    decreases t.len() - i,
{
    lemma_last_child(t, i);
    if i != current {
        lemma_spine_around(t, i, current);
    }
    match last_child(t, i) {
        Some(x) => {
            if t[x].open {
                let d = with_nonspace(c, line);
                let (prefix, next) = continued(t[x], d, line);
                if prefix is Matched {
                    lemma_walk(t, next, line, x, current);
                }
            }
        },
        None => {},
    }
}

/// The state when the open blocks have been looked at, with the last block that the line goes
/// on with and whether it goes on with all of them; or nothing, where it only closed a block.
pub open spec fn checked(p: ParserView, line: Seq<u8>) -> (ParserView, Option<(int, bool)>) {
    let t = p.blocks.nodes;
    let w = walk(t, p.cursor, line, 0);
    let q = ParserView { cursor: w.cursor, ..p };
    if w.prefix is Matched {
        (q, Some((w.container, true)))
    } else {
        let parent = t[w.container].parent->0;
        if w.prefix is Closed {
            (
                ParserView {
                    blocks: close(p.blocks, w.container, p.info()),
                    current: parent,
                    ..q
                },
                None,
            )
        } else {
            (q, Some((parent, false)))
        }
    }
}

/// An open paragraph is only left in a block that the line has reached where the line is blank.
pub open spec fn paragraph_ended(t: Nodes, i: int, c: CursorView, line: Seq<u8>) -> bool {
    last_open(t, i) && t[last_child(t, i)->0].value is Paragraph ==> with_nonspace(c, line).blank
}

/// What looking at the open blocks leads to.
#[verifier::rlimit(60)]
pub proof fn lemma_checked(p: ParserView, line: Seq<u8>)
    requires
        at_rest(p.blocks.nodes, p.current),
    ensures
        ({
            let (q, r) = checked(p, line);
            match r {
                Some((m, all)) => {
                    let t = p.blocks.nodes;
                    &&& q.blocks == p.blocks
                    &&& q.current == p.current
                    &&& 0 <= m < t.len()
                    &&& in_motion(t, m, p.current, m, open_after(t, m))
                    &&& paragraph_ended(t, m, q.cursor, line)
                },
                None => at_rest(q.blocks.nodes, q.current),
            }
        }),
{
    let t = p.blocks.nodes;
    lemma_root_around(t, p.current, Set::empty());
    lemma_walk(t, p.cursor, line, 0, p.current);
    let w = walk(t, p.cursor, line, 0);
    if w.prefix is Matched {
        lemma_open_between(t, p.current, p.current);
    } else {
        let m = t[w.container].parent->0;
        lemma_open_between(t, m, p.current);
        lemma_spine_around(t, m, p.current);
        lemma_last_child(t, m);
        if w.prefix is Closed {
            lemma_close(p.blocks, w.container, p.info());
            lemma_spine_frame(
                t,
                close(p.blocks, w.container, p.info()).nodes,
                m,
                Set::empty(),
            );
        }
    }
}

impl<'a, 'o> Parser<'a, 'o> {
    /// Looks at the open blocks: gives the last one that the line goes on with, and whether it
    /// goes on with all of them; or nothing, where the line is used up by closing one.
    #[verifier::rlimit(60)]
    pub fn check_open_blocks(&mut self, line: &[u8], all_matched: &mut bool) -> (r: Option<usize>)
        requires
            at_rest(old(self)@.blocks.nodes, old(self)@.current),
            text_line(line@),
            old(self)@.cursor.ready(line@),
        ensures
            match checked(old(self)@, line@) {
                (q, Some((m, all))) => {
                    &&& final(self)@ == q
                    &&& r == Some(m as usize)
                    &&& 0 <= m < old(self)@.blocks.nodes.len()
                    &&& m as usize == m
                    &&& *final(all_matched) == all
                    &&& final(self)@.cursor.ready(line@)
                },
                (q, None) => final(self)@ == q && r is None && !*final(all_matched),
            },
    {
        let ghost t = self@.blocks.nodes;
        proof {
            lemma_checked(self@, line@);
            lemma_root_around(t, self@.current, Set::empty());
            lemma_walk(t, self@.cursor, line@, 0, self@.current);
        }
        let (prefix, container) = self.check_open_blocks_inner(0, line);
        match prefix {
            BlockPrefix::Matched => {
                *all_matched = true;
                Some(container)
            },
            BlockPrefix::Unmatched => {
                *all_matched = false;
                Some(self.tree.node(container).parent.unwrap())
            },
            BlockPrefix::Closed => {
                *all_matched = false;
                proof {
                    assert(sound(t[container as int]));
                    assert(fence_read(t[container as int]));
                }
                self.current = self.finalize(container).unwrap();
                None
            },
        }
    }

    /// Passes what belongs to the open block `node`, and says what the line is to it.
    fn check_open_block(&mut self, node: usize, line: &[u8]) -> (r: BlockPrefix)
        requires
            node < old(self)@.blocks.nodes.len(),
            kind_sound(old(self)@.blocks.nodes[node as int].value),
            text_line(line@),
            old(self)@.cursor.poised(line@),
        ensures
            ({
                let (prefix, next) = continued(
                    old(self)@.blocks.nodes[node as int],
                    old(self)@.cursor,
                    line@,
                );
                &&& r == prefix
                &&& final(self)@ == (ParserView { cursor: next, ..old(self)@ })
            }),
            final(self)@.cursor.in_line(line@),
            !(r is Closed) ==> final(self)@.cursor.ready(line@),
    {
        proof {
            lemma_poised(self@.cursor, line@);
        }
        let matched: bool = match &self.tree.node(node).value {
            NodeValue::BlockQuote => self.cursor.parse_block_quote_prefix(line),
            NodeValue::Item(nl) => {
                let width: usize = nl.marker_offset + nl.padding;
                let has_child: bool = self.tree.node(node).children.len() > 0;
                self.cursor.parse_node_item_prefix(line, has_child, width)
            },
            NodeValue::DescriptionItem(di) => {
                let width: usize = di.marker_offset + di.padding;
                let has_child: bool = self.tree.node(node).children.len() > 0;
                self.cursor.parse_node_item_prefix(line, has_child, width)
            },
            NodeValue::CodeBlock(ncb) => return self.cursor.parse_code_block_prefix(line, ncb),
            NodeValue::HtmlBlock(nhb) => self.cursor.parse_html_block_prefix(nhb.block_type),
            NodeValue::Paragraph => !self.cursor.blank,
            NodeValue::Table(_) => crate::table::matches(
                slice_subrange(line, self.cursor.first_nonspace, line.len()),
            ),
            NodeValue::Heading(_) | NodeValue::TableRow(_) | NodeValue::TableCell => false,
            NodeValue::FootnoteDefinition(_) => {
                self.cursor.parse_footnote_definition_block_prefix(line)
            },
            _ => true,
        };
        if matched {
            BlockPrefix::Matched
        } else {
            BlockPrefix::Unmatched
        }
    }

    /// Goes down through the open blocks in `start` as far as the line goes on with them.
    #[verifier::rlimit(60)]
    pub fn check_open_blocks_inner(&mut self, start: usize, line: &[u8]) -> (r: (
        BlockPrefix,
        usize,
    ))
        requires
            orderly(old(self)@.blocks.nodes),
            start < old(self)@.blocks.nodes.len(),
            text_line(line@),
            old(self)@.cursor.ready(line@),
        ensures
            ({
                let w = walk(
                    old(self)@.blocks.nodes,
                    old(self)@.cursor,
                    line@,
                    start as int,
                );
                &&& r.0 == w.prefix
                &&& r.1 == w.container
                &&& final(self)@ == (ParserView { cursor: w.cursor, ..old(self)@ })
            }),
            final(self)@.cursor.in_line(line@),
            !(r.0 is Closed) ==> final(self)@.cursor.ready(line@),
    {
        let ghost t = self@.blocks.nodes;
        let mut container: usize = start;
        loop
            invariant
                t == old(self)@.blocks.nodes,
                orderly(t),
                container < t.len(),
                text_line(line@),
                self@.cursor.ready(line@),
                self@ == (ParserView { cursor: self@.cursor, ..old(self)@ }),
                walk(t, old(self)@.cursor, line@, start as int) == walk(
                    t,
                    self@.cursor,
                    line@,
                    container as int,
                ),
            decreases t.len() - container,
        {
            proof {
                lemma_last_child(t, container as int);
            }
            let child: usize = match self.tree.last_child(container) {
                Some(c) => c,
                None => return (BlockPrefix::Matched, container),
            };
            if !self.tree.node(child).open {
                return (BlockPrefix::Matched, container);
            }
            proof {
                lemma_with_nonspace(self@.cursor, line@);
                assert(sound(t[child as int]));
            }
            self.cursor.find_first_nonspace(line);
            let prefix: BlockPrefix = self.check_open_block(child, line);
            match prefix {
                BlockPrefix::Matched => {
                    container = child;
                },
                _ => return (prefix, child),
            }
        }
    }
}

} // verus!
