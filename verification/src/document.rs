//! Whole documents.

use crate::adding::{closed_up_to, lemma_closed_up_to};
use crate::blocks::{
    at_rest, close, lemma_close, lemma_open_between, lemma_root_around, open_after, orderly, Blocks,
};
use crate::closing::sound;
use crate::footnotes::{footnotes_processed, lemma_root_of_footnotes};
use crate::inlines::{
    inline_blocks, law_inlines_keep_blocks, may_be_in_all, no_answers, with_all_inlines, Addresses,
    Answers, BrokenLinkCallback, Finds, InlineParser, InlineView, LinkView, NoCallback,
};
use crate::lines::{all_plain, between_lines, fed, line_fits, line_processed};
use crate::options::ComrakOptions;
use crate::parser::{starting, Parser, ParserView};
use crate::postprocess::{law_only_texts_change, may_be_postprocessed, postprocessed};
use crate::text::lemma_valid_ascii;
use crate::tree::{is_tree, AstNode, Nodes, Tree};
use vstd::prelude::*;
use vstd::utf8::{encode_utf8, valid_utf8};

verus! {

/// References may expand to at least this much text.
pub const MIN_REF_SIZE: usize = 100000;

/// The state when no more lines come: all blocks closed, and the document with them.
pub open spec fn blocks_closed(p: ParserView) -> ParserView {
    ParserView {
        blocks: close(closed_up_to(p.blocks, p.current, 0, p.info()), 0, p.info()),
        current: 0,
        max_ref_size: if p.total_size > MIN_REF_SIZE {
            p.total_size
        } else {
            MIN_REF_SIZE as int
        },
        ..p
    }
}

/// The state with other nodes.
pub open spec fn with_nodes(p: ParserView, nodes: Nodes) -> ParserView {
    ParserView { blocks: Blocks { nodes, ..p.blocks }, ..p }
}

/// The nodes with the inlines that were found, and footnotes numbered if they are wanted.
pub open spec fn finalized_nodes(p: ParserView, found: Seq<Seq<InlineView>>) -> Nodes {
    let t = with_all_inlines(p, found).blocks.nodes;
    if p.options.extension.footnotes {
        footnotes_processed(t)
    } else {
        t
    }
}

/// The state when what is left in the buffer has been read as a line.
pub open spec fn rest_read(p: ParserView, remaining: Seq<u8>) -> ParserView {
    if remaining.len() > 0 {
        line_processed(p, remaining)
    } else {
        p
    }
}

/// The nodes of the document whose blocks are closed, with the inlines and the addresses that
/// were found.
pub open spec fn finished(
    p: ParserView,
    found: Seq<Seq<InlineView>>,
    links: Seq<Seq<LinkView>>,
) -> Nodes {
    postprocessed(finalized_nodes(p, found), links, p.options)
}

/// What may be replied while a document is parsed.
#[verifier::ext_equal]
pub struct Replies {
    /// The inlines that may be found in texts.
    pub finds: Finds,
    /// The addresses that may be found in texts.
    pub addresses: Addresses,
    /// What may be answered to labels that are not defined.
    pub answers: Answers,
}

/// Whether `found` may be found in the blocks whose text is parsed for inlines, and `links` in
/// the texts then.
pub open spec fn may_be_found(
    p: ParserView,
    replies: Replies,
    found: Seq<Seq<InlineView>>,
    links: Seq<Seq<LinkView>>,
) -> bool {
    &&& may_be_in_all(p, replies.finds, replies.answers, found)
    &&& may_be_postprocessed(finalized_nodes(p, found), replies.addresses, links, p.options)
}

/// Whether `nodes` may come of the document whose blocks are closed: its blocks, with inlines
/// that may be found in their texts, and addresses that may be found in these.
pub open spec fn may_finish_as(p: ParserView, replies: Replies, nodes: Nodes) -> bool {
    exists|found: Seq<Seq<InlineView>>, links: Seq<Seq<LinkView>>|
        may_be_found(p, replies, found, links) && nodes == #[trigger] finished(p, found, links)
}

/// Whether `nodes` may come of the text `s`.
pub open spec fn document_may_be(
    s: Seq<u8>,
    o: ComrakOptions,
    replies: Replies,
    nodes: Nodes,
) -> bool {
    may_finish_as(blocks_of(s, o), replies, nodes)
}

/// The state when all blocks of the text `s` have been read and closed.
pub open spec fn blocks_of(s: Seq<u8>, o: ComrakOptions) -> ParserView {
    let (p, rest) = fed(starting(o), seq![], s, true);
    blocks_closed(rest_read(p, rest))
}

impl<'a, 'o> Parser<'a, 'o> {
    /// Closes all blocks, and the document with them.
    #[verifier::rlimit(60)]
    pub fn close_blocks(&mut self)
        requires
            at_rest(old(self)@.blocks.nodes, old(self)@.current),
        ensures
            final(self)@ == blocks_closed(old(self)@),
            orderly(final(self)@.blocks.nodes),
            !final(self)@.blocks.nodes[0].open,
    {
        let ghost p = self@;
        let ghost t = p.blocks.nodes;
        let ghost s = open_after(t, 0);
        let current: usize = self.current;
        proof {
            lemma_root_around(t, p.current, Set::empty());
            lemma_open_between(t, 0, p.current);
            lemma_closed_up_to(p.blocks, p.current, 0, p.info(), 0, s);
        }
        self.close_up_to(current, 0, Ghost(0int), Ghost(s));
        let ghost q = self@;
        proof {
            let u = q.blocks.nodes;
            assert(sound(u[0]));
            assert(u[0].value is Document);
            lemma_close(q.blocks, 0, q.info());
        }
        self.finalize(0);
        self.current = 0;
        self.refmap.max_ref_size = if self.total_size > MIN_REF_SIZE {
            self.total_size
        } else {
            MIN_REF_SIZE
        };
    }

    /// Closes all blocks, has their texts parsed for inlines, and numbers footnotes.
    #[verifier::rlimit(60)]
    pub fn finalize_document<I: InlineParser, C: BrokenLinkCallback>(
        &mut self,
        inlines: &mut I,
        callback: &mut C,
    )
        requires
            at_rest(old(self)@.blocks.nodes, old(self)@.current),
        ensures
            exists|found: Seq<Seq<InlineView>>| {
                &&& may_be_in_all(
                    blocks_closed(old(self)@),
                    old(inlines).finds(),
                    old(callback).answers(),
                    found,
                )
                &&& final(self)@.blocks.nodes == #[trigger] finalized_nodes(
                    blocks_closed(old(self)@),
                    found,
                )
            },
            final(self)@ == with_nodes(blocks_closed(old(self)@), final(self)@.blocks.nodes),
            is_tree(final(self)@.blocks.nodes),
            final(inlines).finds() == old(inlines).finds(),
            final(inlines).addresses() == old(inlines).addresses(),
            final(callback).answers() == old(callback).answers(),
    {
        self.close_blocks();
        let ghost p = self@;
        self.process_inlines(inlines, callback);
        let ghost found = choose|found: Seq<Seq<InlineView>>| {
            &&& may_be_in_all(p, old(inlines).finds(), old(callback).answers(), found)
            &&& self@ == #[trigger] with_all_inlines(p, found)
        };
        if self.options.extension.footnotes {
            proof {
                lemma_inline_blocks_range(p.blocks.nodes);
                law_inlines_keep_blocks(p.blocks.nodes, inline_blocks(p.blocks.nodes), found);
            }
            self.tree.process_footnotes();
        }
        proof {
            assert(self@.blocks.nodes == finalized_nodes(p, found));
        }
    }

    /// Reads what is left in the buffer as a line, and finishes the document.
    #[verifier::rlimit(60)]
    pub fn finish<I: InlineParser, C: BrokenLinkCallback>(
        &mut self,
        remaining: Vec<u8>,
        inlines: &mut I,
        callback: &mut C,
    )
        requires
            at_rest(old(self)@.blocks.nodes, old(self)@.current),
            valid_utf8(remaining@),
            all_plain(remaining@),
            line_fits(remaining@.len() as int),
            old(self)@.line_number < usize::MAX,
        ensures
            may_finish_as(
                blocks_closed(rest_read(old(self)@, remaining@)),
                (Replies {
                    finds: old(inlines).finds(),
                    addresses: old(inlines).addresses(),
                    answers: old(callback).answers(),
                }),
                final(self)@.blocks.nodes,
            ),
            final(self)@ == with_nodes(
                blocks_closed(rest_read(old(self)@, remaining@)),
                final(self)@.blocks.nodes,
            ),
            is_tree(final(self)@.blocks.nodes),
            final(self)@.blocks.nodes[0].value is Document,
            !final(self)@.blocks.nodes[0].open,
            final(self)@.blocks.nodes[0].parent is None,
            final(inlines).finds() == old(inlines).finds(),
            final(inlines).addresses() == old(inlines).addresses(),
            final(callback).answers() == old(callback).answers(),
    {
        let ghost p = self@;
        if remaining.len() > 0 {
            self.process_line(remaining.as_slice());
        }
        let ghost q = self@;
        proof {
            assert(q == rest_read(p, remaining@));
        }
        self.finalize_document(inlines, callback);
        let ghost c = blocks_closed(q);
        let ghost found = choose|found: Seq<Seq<InlineView>>| {
            &&& may_be_in_all(c, old(inlines).finds(), old(callback).answers(), found)
            &&& self@.blocks.nodes == #[trigger] finalized_nodes(c, found)
        };
        let ghost t = self@.blocks.nodes;
        self.tree.postprocess_text_nodes(self.options, inlines);
        proof {
            let links = choose|links: Seq<Seq<LinkView>>| {
                &&& may_be_postprocessed(t, old(inlines).addresses(), links, c.options)
                &&& self@.blocks.nodes == #[trigger] postprocessed(t, links, c.options)
            };
            lemma_blocks_closed(q);
            lemma_root_stays(c, found, links);
            assert(self@.blocks.nodes == finished(c, found, links));
        }
    }
}

/// Closing all blocks leaves a document that is closed.
proof fn lemma_blocks_closed(p: ParserView)
    requires
        at_rest(p.blocks.nodes, p.current),
    ensures
        orderly(blocks_closed(p).blocks.nodes),
        !blocks_closed(p).blocks.nodes[0].open,
{
    let t = p.blocks.nodes;
    lemma_root_around(t, p.current, Set::empty());
    lemma_open_between(t, 0, p.current);
    lemma_closed_up_to(p.blocks, p.current, 0, p.info(), 0, open_after(t, 0));
    let b = closed_up_to(p.blocks, p.current, 0, p.info());
    assert(sound(b.nodes[0]));
    lemma_close(b, 0, p.info());
}

/// The root of a document stays what it is once its blocks are closed.
proof fn lemma_root_stays(
    p: ParserView,
    found: Seq<Seq<InlineView>>,
    links: Seq<Seq<LinkView>>,
)
    requires
        is_tree(p.blocks.nodes),
        p.blocks.nodes[0].value is Document,
        found.len() == inline_blocks(p.blocks.nodes).len(),
    ensures
        finished(p, found, links)[0].value is Document,
        finished(p, found, links)[0].open == p.blocks.nodes[0].open,
{
    let t = p.blocks.nodes;
    lemma_inline_blocks_range(t);
    law_inlines_keep_blocks(t, inline_blocks(t), found);
    let u = with_all_inlines(p, found).blocks.nodes;
    assert(u[0].value == t[0].value && u[0].open == t[0].open);
    if p.options.extension.footnotes {
        lemma_root_of_footnotes(u);
    }
    law_only_texts_change(finalized_nodes(p, found), links, p.options);
    assert(finalized_nodes(p, found)[0].value is Document);
}

/// The blocks whose text is parsed for inlines are nodes.
proof fn lemma_inline_blocks_range(t: Nodes)
    requires
        is_tree(t),
    ensures
        forall|k: int| 0 <= k < inline_blocks(t).len() ==> 0 <= #[trigger] inline_blocks(t)[k]
            < t.len(),
{
    let w = crate::walking::walked(t, 0, crate::walking::Stop::Nowhere);
    crate::walking::law_walked_once(t, 0, crate::walking::Stop::Nowhere);
    crate::walking::lemma_picked(t, w, crate::inlines::inline_kinds());
    assert forall|k: int| 0 <= k < inline_blocks(t).len() implies 0 <= #[trigger] inline_blocks(
        t,
    )[k] < t.len() by {
        assert(w.contains(inline_blocks(t)[k]));
        let j = choose|j: int| 0 <= j < w.len() && w[j] == inline_blocks(t)[k];
        assert(0 <= w[j] < t.len());
    }
}

/// Whether a text of `n` bytes can be parsed, as far as counting columns goes.
pub open spec fn countable_text(n: int) -> bool {
    12 * n + 12 <= usize::MAX
}

/// Parses the text `buffer`, with `callback` for links whose labels are not defined.
#[verifier::rlimit(60)]
fn parse_with<'a, I: InlineParser, C: BrokenLinkCallback>(
    arena: &'a typed_arena::Arena<AstNode>,
    buffer: &str,
    options: &ComrakOptions,
    callback: &mut C,
    inlines: &mut I,
) -> (r: Tree<'a>)
    requires
        countable_text(encode_utf8(buffer@).len() as int),
    ensures
        ({
            let replies = Replies {
                finds: old(inlines).finds(),
                addresses: old(inlines).addresses(),
                answers: old(callback).answers(),
            };
            document_may_be(encode_utf8(buffer@), *options, replies, r@)
        }),
        is_tree(r@),
        r@[0].value is Document,
        !r@[0].open,
        r@[0].parent is None,
        final(inlines).finds() == old(inlines).finds(),
        final(inlines).addresses() == old(inlines).addresses(),
        final(callback).answers() == old(callback).answers(),
{
    let mut parser: Parser = Parser::new(arena, options);
    let mut linebuf: Vec<u8> = Vec::new();
    proof {
        lemma_starting(*options);
        lemma_valid_ascii(Seq::<u8>::empty());
        assert(linebuf@ =~= Seq::<u8>::empty());
    }
    parser.feed(&mut linebuf, buffer, true);
    parser.finish(linebuf, inlines, callback);
    parser.tree
}

/// Parses a Markdown document.
///
/// Its inlines are found by `inlines`. Where a link has a label that is not defined, it may ask
/// `callback` where the link points to.
pub fn parse_document_with_broken_link_callback<'a, I: InlineParser, C: BrokenLinkCallback>(
    arena: &'a typed_arena::Arena<AstNode>,
    buffer: &str,
    options: &ComrakOptions,
    callback: Option<&mut C>,
    inlines: &mut I,
) -> (r: Tree<'a>)
    requires
        countable_text(encode_utf8(buffer@).len() as int),
    ensures
        ({
            let replies = Replies {
                finds: old(inlines).finds(),
                addresses: old(inlines).addresses(),
                answers: match callback {
                    Some(c) => c.answers(),
                    None => no_answers(),
                },
            };
            document_may_be(encode_utf8(buffer@), *options, replies, r@)
        }),
        is_tree(r@),
        r@[0].value is Document,
        !r@[0].open,
        r@[0].parent is None,
        final(inlines).finds() == old(inlines).finds(),
        final(inlines).addresses() == old(inlines).addresses(),
{
    match callback {
        Some(c) => parse_with(arena, buffer, options, c, inlines),
        None => {
            let mut none: NoCallback = NoCallback;
            parse_with(arena, buffer, options, &mut none, inlines)
        },
    }
}

/// Parses a Markdown document, whose inlines are found by `inlines`.
pub fn parse_document<'a, I: InlineParser>(
    arena: &'a typed_arena::Arena<AstNode>,
    buffer: &str,
    options: &ComrakOptions,
    inlines: &mut I,
) -> (r: Tree<'a>)
    requires
        countable_text(encode_utf8(buffer@).len() as int),
    ensures
        ({
            let replies = Replies {
                finds: old(inlines).finds(),
                addresses: old(inlines).addresses(),
                answers: no_answers(),
            };
            document_may_be(encode_utf8(buffer@), *options, replies, r@)
        }),
        is_tree(r@),
        r@[0].value is Document,
        !r@[0].open,
        r@[0].parent is None,
        final(inlines).finds() == old(inlines).finds(),
        final(inlines).addresses() == old(inlines).addresses(),
{
    let mut none: NoCallback = NoCallback;
    parse_document_with_broken_link_callback(arena, buffer, options, Some(&mut none), inlines)
}

/// A parser that has read nothing is between two lines.
proof fn lemma_starting(o: ComrakOptions)
    ensures
        between_lines(starting(o)),
{
    let t = starting(o).blocks.nodes;
    lemma_valid_ascii(Seq::<u8>::empty());
    assert(crate::tree::linked(t, 0));
    assert(is_tree(t));
    assert(crate::blocks::settled(t));
}

} // verus!
