//! The parser, and the blocks that it opens and closes.

use crate::blocks::{
    child_added, close, fences_read, fits_document, lemma_close, lemma_spine_frame, made_room,
    orderly, spine, Blocks,
};
use crate::closing::{fence_read, sound};
use crate::cursor::{Cursor, CursorView};
use crate::nodes::NodeValue;
use crate::options::{text_of, ComrakOptions};
use crate::references::RefMap;
use crate::scanners::index_of;
use crate::tree::{fresh, is_tree, make_node, AstNode, Tree};
use vstd::prelude::*;

verus! {

/// The state of parsing a document.
pub struct Parser<'a, 'o> {
    pub tree: Tree<'a>,
    pub refmap: RefMap,
    /// The innermost open block.
    pub current: usize,
    pub line_number: usize,
    pub cursor: Cursor,
    pub last_line_length: usize,
    pub last_buffer_ended_with_cr: bool,
    pub total_size: usize,
    pub options: &'o ComrakOptions,
}

/// The state of parsing a document, over mathematical values.
#[verifier::ext_equal]
pub struct ParserView {
    pub blocks: Blocks,
    pub current: int,
    pub line_number: int,
    pub cursor: CursorView,
    pub last_line_length: int,
    pub last_buffer_ended_with_cr: bool,
    pub total_size: int,
    pub max_ref_size: int,
    pub options: ComrakOptions,
}

impl<'a, 'o> View for Parser<'a, 'o> {
    type V = ParserView;

    open spec fn view(&self) -> ParserView {
        ParserView {
            blocks: Blocks { nodes: self.tree@, refs: self.refmap@ },
            current: self.current as int,
            line_number: self.line_number as int,
            cursor: self.cursor@,
            last_line_length: self.last_line_length as int,
            last_buffer_ended_with_cr: self.last_buffer_ended_with_cr,
            total_size: self.total_size as int,
            max_ref_size: self.refmap.max_ref_size as int,
            options: *self.options,
        }
    }
}

impl ParserView {
    /// The info string of fenced code blocks that have none.
    pub open spec fn info(self) -> Option<Seq<char>> {
        text_of(self.options.parse.default_info_string)
    }
}

/// A parser that has read nothing.
pub open spec fn starting(options: ComrakOptions) -> ParserView {
    ParserView {
        blocks: Blocks {
            nodes: seq![fresh(crate::nodes::Value::Document, 0)],
            refs: Map::empty(),
        },
        current: 0,
        line_number: 0,
        cursor: CursorView {
            offset: 0,
            column: 0,
            thematic_break_kill_pos: 0,
            first_nonspace: 0,
            first_nonspace_column: 0,
            indent: 0,
            blank: false,
            partially_consumed_tab: false,
        },
        last_line_length: 0,
        last_buffer_ended_with_cr: false,
        total_size: 0,
        max_ref_size: usize::MAX as int,
        options,
    }
}

impl<'a, 'o> Parser<'a, 'o> {
    /// A parser that has read nothing.
    pub fn new(arena: &'a typed_arena::Arena<AstNode>, options: &'o ComrakOptions) -> (r: Self)
        ensures
            r@ == starting(*options),
    {
        let r = Parser {
            tree: Tree::new(arena, make_node(NodeValue::Document, 0)),
            refmap: RefMap::new(),
            current: 0,
            line_number: 0,
            cursor: Cursor::new(),
            last_line_length: 0,
            last_buffer_ended_with_cr: false,
            total_size: 0,
            options,
        };
        assert(r@ =~= starting(*options));
        r
    }

    /// Closes `node`, and gives the block around it.
    pub fn finalize(&mut self, node: usize) -> (r: Option<usize>)
        requires
            is_tree(old(self)@.blocks.nodes),
            node < old(self)@.blocks.nodes.len(),
            old(self)@.blocks.nodes[node as int].open,
            sound(old(self)@.blocks.nodes[node as int]),
            fence_read(old(self)@.blocks.nodes[node as int]),
        ensures
            final(self)@ == (ParserView {
                blocks: close(old(self)@.blocks, node as int, old(self)@.info()),
                ..old(self)@
            }),
            index_of(r) == old(self)@.blocks.nodes[node as int].parent,
    {
        self.tree.finalize(node, &mut self.refmap, &self.options.parse.default_info_string)
    }

    /// Adds a block in `parent` or, where it cannot contain it, in the first block around it
    /// that can. The blocks in between are closed.
    #[verifier::rlimit(60)]
    pub fn add_child(&mut self, parent: usize, value: NodeValue) -> (r: usize)
        requires
            orderly(old(self)@.blocks.nodes),
            fences_read(old(self)@.blocks.nodes, -1),
            spine(old(self)@.blocks.nodes, parent as int, Set::empty()),
            fits_document(value@)
                || old(self)@.blocks.nodes[parent as int].value.can_contain(value@),
        ensures
            ({
                let (b, id) = child_added(
                    old(self)@.blocks,
                    parent as int,
                    value@,
                    old(self)@.line_number,
                    old(self)@.info(),
                );
                &&& final(self)@ == (ParserView { blocks: b, ..old(self)@ })
                &&& r == id
            }),
    {
        let ghost v = value@;
        let ghost info = self@.info();
        let mut p: usize = parent;
        while !self.tree.node(p).value.can_contain(&value)
            invariant
                v == value@,
                orderly(self@.blocks.nodes),
                fences_read(self@.blocks.nodes, -1),
                spine(self@.blocks.nodes, p as int, Set::empty()),
                fits_document(v) || self@.blocks.nodes[p as int].value.can_contain(v),
                self@ == (ParserView { blocks: self@.blocks, ..old(self)@ }),
                info == old(self)@.info(),
                made_room(old(self)@.blocks, parent as int, v, info) == made_room(
                    self@.blocks,
                    p as int,
                    v,
                    info,
                ),
            decreases p,
        {
            proof {
                let t = self@.blocks.nodes;
                assert(sound(t[p as int]));
                assert(fence_read(t[p as int]));
                lemma_close(self@.blocks, p as int, info);
                let q = t[p as int].parent->0;
                lemma_spine_frame(
                    t,
                    close(self@.blocks, p as int, info).nodes,
                    q,
                    Set::empty(),
                );
            }
            p = self.finalize(p).unwrap();
        }
        let node: AstNode = make_node(value, self.line_number);
        self.tree.append(p, node)
    }
}

} // verus!
