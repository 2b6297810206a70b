//! Where inlines come in: which texts are parsed for them, and where they go in the tree.

use crate::blocks::{around, Blocks};
use crate::labels::{normal_label, normalize_label};
use crate::nodes::{NodeValue, Value};
use crate::options::{ComrakOptions, ParseTime};
use crate::parser::{Parser, ParserView};
use crate::references::{RefMap, Reference, ReferenceView};
use crate::strings::{rtrim_slice, rtrimmed};
use crate::tree::{
    appended, fresh, is_tree, lemma_appended, make_node, numbers, AstNode, NodeView, Nodes, Tree,
};
use crate::walking::{
    law_walked_all, law_walked_once, lemma_picked, lemma_picked_all, picked, walked, Stop,
};
use vstd::prelude::*;
use vstd::utf8::valid_utf8;

verus! {

/// Which answers may be given to which labels. An answer is a destination and a title.
pub type Answers = spec_fn(Seq<char>, Option<(Seq<char>, Seq<char>)>) -> bool;

/// An answer over sequences.
pub open spec fn answer_in(r: Option<(String, String)>) -> Option<(Seq<char>, Seq<char>)> {
    match r {
        Some((url, title)) => Some((url@, title@)),
        None => None,
    }
}

/// What is asked for a link whose label is not defined.
pub trait BrokenLinkCallback {
    /// The answers that it may give: any, unless it says more. Being asked does not change them.
    open spec fn answers(&self) -> Answers {
        |label: Seq<char>, reply: Option<(Seq<char>, Seq<char>)>| true
    }

    /// Where the link with this label, in the form in which labels are compared, points to: a
    /// destination and a title.
    fn resolve(&mut self, label: &str) -> (r: Option<(String, String)>)
        ensures
            (old(self).answers())(label@, answer_in(r)),
            final(self).answers() == old(self).answers(),
    ;
}

/// No answer to any label.
pub open spec fn no_answers() -> Answers {
    |label: Seq<char>, reply: Option<(Seq<char>, Seq<char>)>| reply is None
}

/// No links but those with labels that are defined.
pub struct NoCallback;

impl BrokenLinkCallback for NoCallback {
    open spec fn answers(&self) -> Answers {
        no_answers()
    }

    fn resolve(&mut self, label: &str) -> (r: Option<(String, String)>) {
        None
    }
}

/// What an address in angle brackets is.
#[derive(Debug, Clone, Copy, PartialEq, Eq, Structural)]
pub enum AutolinkType {
    Uri,
    Email,
}

/// Where a link with a label points to, given what the label is defined as and, where it is not
/// defined, what the callback says.
pub open spec fn resolved(
    refs: Map<Seq<char>, ReferenceView>,
    label: Seq<char>,
    reply: Option<(Seq<char>, Seq<char>)>,
) -> Option<ReferenceView> {
    if refs.dom().contains(label) {
        Some(refs[label])
    } else {
        match reply {
            Some((url, title)) => Some(ReferenceView { url, title }),
            None => None,
        }
    }
}

/// What an optional reference holds.
pub open spec fn reference_in(r: Option<Reference>) -> Option<ReferenceView> {
    match r {
        Some(x) => Some(x@),
        None => None,
    }
}

/// Finds where the link with this label points to. The callback is only asked where the label
/// is not defined, and then for the label in the form in which labels are compared; what it
/// gives is the destination and the title.
pub fn resolve_label<C: BrokenLinkCallback>(
    refmap: &RefMap,
    label: &[u8],
    callback: &mut C,
) -> (r: Option<Reference>)
    requires
        valid_utf8(label@),
    ensures
        exists|reply: Option<(Seq<char>, Seq<char>)>| {
            &&& reference_in(r) == #[trigger] resolved(refmap@, normal_label(label@), reply)
            &&& refmap@.dom().contains(normal_label(label@)) || (old(callback).answers())(
                normal_label(label@),
                reply,
            )
        },
        refmap@.dom().contains(normal_label(label@)) ==> *final(callback) == *old(callback),
        final(callback).answers() == old(callback).answers(),
{
    let lab: String = normalize_label(label);
    match refmap.get(&lab) {
        Some(found) => {
            let r = Reference { url: found.url.clone(), title: found.title.clone() };
            proof {
                assert(reference_in(Some(r)) == resolved(refmap@, lab@, None));
            }
            Some(r)
        },
        None => {
            let reply: Option<(String, String)> = callback.resolve(lab.as_str());
            let ghost answer = answer_in(reply);
            let r: Option<Reference> = match reply {
                Some((url, title)) => Some(Reference { url, title }),
                None => None,
            };
            proof {
                assert(reference_in(r) == resolved(refmap@, lab@, answer));
            }
            r
        },
    }
}

/// An inline, in a list of inlines that stands for a tree of them: its parent is the inline at
/// that index, which must come before it, or else the block that the inlines are in.
#[derive(Debug)]
pub struct Inline {
    pub value: NodeValue,
    pub parent: Option<usize>,
}

/// An inline over mathematical values.
#[verifier::ext_equal]
pub struct InlineView {
    pub value: Value,
    pub parent: Option<int>,
}

impl View for Inline {
    type V = InlineView;

    open spec fn view(&self) -> InlineView {
        InlineView {
            value: self.value@,
            parent: match self.parent {
                Some(k) => Some(k as int),
                None => None,
            },
        }
    }
}

/// A text that is parsed for inlines, and what goes with it.
#[verifier::ext_equal]
pub struct InlineText {
    pub content: Seq<u8>,
    /// What the options say about parsing.
    pub options: ParseTime,
    /// What labels are defined as.
    pub refs: Map<Seq<char>, ReferenceView>,
    /// How much text references may expand to.
    pub max_ref_size: int,
    /// What may be answered to labels that are not defined.
    pub answers: Answers,
}

/// Which inlines may be found in which texts.
pub type Finds = spec_fn(InlineText, Seq<InlineView>) -> bool;

/// An address found in a text: where it starts and ends, in bytes, and where a link to it
/// points to.
#[verifier::ext_equal]
pub struct LinkView {
    pub start: int,
    pub end: int,
    pub url: Seq<char>,
}

/// An address over mathematical values.
pub open spec fn link_in(r: Option<(usize, usize, String)>) -> Option<LinkView> {
    match r {
        Some((start, end, url)) => Some(
            LinkView { start: start as int, end: end as int, url: url@ },
        ),
        None => None,
    }
}

/// Which addresses may be found in which texts.
pub type Addresses = spec_fn(Seq<char>, Option<LinkView>) -> bool;

/// What finds inlines in text.
pub trait InlineParser {
    /// The inlines that it may find: any, unless it says more. They depend on the options at
    /// parse time alone, and parsing does not change them.
    open spec fn finds(&self) -> Finds {
        |text: InlineText, found: Seq<InlineView>| true
    }

    /// The addresses that it may find: any, unless it says more. Parsing does not change them.
    open spec fn addresses(&self) -> Addresses {
        |text: Seq<char>, found: Option<LinkView>| true
    }

    /// The inlines in the text of a block.
    fn parse_inlines<C: BrokenLinkCallback>(
        &mut self,
        content: &[u8],
        options: &ComrakOptions,
        refmap: &RefMap,
        callback: &mut C,
    ) -> (r: Vec<Inline>)
        ensures
            (old(self).finds())(
                (InlineText {
                    content: content@,
                    options: options.parse_time(),
                    refs: refmap@,
                    max_ref_size: refmap.max_ref_size as int,
                    answers: old(callback).answers(),
                }),
                inlines_in(r@),
            ),
            final(self).finds() == old(self).finds(),
            final(self).addresses() == old(self).addresses(),
            final(callback).answers() == old(callback).answers(),
    ;

    /// The first address in a text that is to be a link: where it starts and ends, in bytes,
    /// and where the link points to.
    fn find_autolink(&mut self, text: &str) -> (r: Option<(usize, usize, String)>)
        ensures
            (old(self).addresses())(text@, link_in(r)),
            final(self).finds() == old(self).finds(),
            final(self).addresses() == old(self).addresses(),
    ;
}

/// No inlines in any text, and no addresses: only the blocks of a document.
pub struct NoInlines;

impl InlineParser for NoInlines {
    open spec fn finds(&self) -> Finds {
        |text: InlineText, found: Seq<InlineView>| found == Seq::<InlineView>::empty()
    }

    open spec fn addresses(&self) -> Addresses {
        |text: Seq<char>, found: Option<LinkView>| found is None
    }

    fn parse_inlines<C: BrokenLinkCallback>(
        &mut self,
        content: &[u8],
        options: &ComrakOptions,
        refmap: &RefMap,
        callback: &mut C,
    ) -> (r: Vec<Inline>) {
        let r: Vec<Inline> = Vec::new();
        assert(inlines_in(r@) =~= Seq::<InlineView>::empty());
        r
    }

    fn find_autolink(&mut self, text: &str) -> (r: Option<(usize, usize, String)>) {
        None
    }
}

/// The inlines in `s`.
pub open spec fn inlines_in(s: Seq<Inline>) -> Seq<InlineView> {
    Seq::new(s.len(), |k: int| s[k]@)
}

/// A new inline, not in the tree yet.
pub open spec fn inline_node(value: Value) -> NodeView {
    NodeView { open: false, ..fresh(value, 0) }
}

/// Where the inline at index `k` goes, when the one at index 0 becomes node `base`.
pub open spec fn inline_parent(node: int, base: int, k: int, parent: Option<int>) -> int {
    match parent {
        Some(j) => if 0 <= j < k {
            base + j
        } else {
            node
        },
        None => node,
    }
}

/// The nodes with inlines under `node`.
pub open spec fn inlines_added(t: Nodes, node: int, inlines: Seq<InlineView>) -> Nodes
    decreases inlines.len(),
{
    if inlines.len() == 0 {
        t
    } else {
        let k = inlines.len() - 1;
        appended(
            inlines_added(t, node, inlines.drop_last()),
            inline_parent(node, t.len() as int, k, inlines.last().parent),
            inline_node(inlines.last().value),
        )
    }
}

/// Inlines that are added make a tree.
pub proof fn lemma_inlines_added(t: Nodes, node: int, inlines: Seq<InlineView>)
    requires
        is_tree(t),
        0 <= node < t.len(),
    ensures
        is_tree(inlines_added(t, node, inlines)),
        inlines_added(t, node, inlines).len() == t.len() + inlines.len(),
        forall|j: int|
            0 <= j < t.len() && j != node ==> #[trigger] inlines_added(t, node, inlines)[j]
                == t[j],
        inlines_added(t, node, inlines)[node] == (NodeView {
            children: inlines_added(t, node, inlines)[node].children,
            ..t[node]
        }),
    decreases inlines.len(),
{
    if inlines.len() > 0 {
        let before = inlines.drop_last();
        lemma_inlines_added(t, node, before);
        let u = inlines_added(t, node, before);
        let p = inline_parent(
            node,
            t.len() as int,
            inlines.len() - 1,
            inlines.last().parent,
        );
        lemma_appended(u, p, inline_node(inlines.last().value));
    }
}

/// The kinds of blocks whose text is parsed for inlines.
pub open spec fn inline_kinds() -> spec_fn(Value) -> bool {
    |v: Value| v.contains_inlines()
}

/// The blocks whose text is parsed for inlines, in the order of the document.
pub open spec fn inline_blocks(t: Nodes) -> Seq<int> {
    picked(t, walked(t, 0, Stop::Nowhere), inline_kinds())
}

/// The blocks whose text is handed over to be parsed for inlines are all those in the document
/// that can hold inlines, and none twice.
pub proof fn law_every_text_parsed(t: Nodes)
    requires
        is_tree(t),
    ensures
        inline_blocks(t).no_duplicates(),
        forall|j: int|
            0 <= j < t.len() && around(t, 0, j) ==> (#[trigger] t[j].value.contains_inlines()
                <==> inline_blocks(t).contains(j)),
{
    let w = walked(t, 0, Stop::Nowhere);
    law_walked_once(t, 0, Stop::Nowhere);
    lemma_picked(t, w, inline_kinds());
    assert forall|j: int| 0 <= j < t.len() && around(t, 0, j) implies (
    #[trigger] t[j].value.contains_inlines() <==> inline_blocks(t).contains(j)) by {
        if t[j].value.contains_inlines() {
            law_walked_all(t, 0, j);
            lemma_picked_all(t, w, inline_kinds(), j);
        }
        if inline_blocks(t).contains(j) {
            let k = choose|k: int| 0 <= k < inline_blocks(t).len() && inline_blocks(t)[k] == j;
            assert(inline_kinds()(t[inline_blocks(t)[k]].value));
        }
    }
}

/// The nodes with the inlines found in each of these blocks.
pub open spec fn all_inlines_added(
    t: Nodes,
    blocks: Seq<int>,
    found: Seq<Seq<InlineView>>,
) -> Nodes
    decreases blocks.len(),
{
    if blocks.len() == 0 {
        t
    } else {
        inlines_added(
            all_inlines_added(t, blocks.drop_last(), found.drop_last()),
            blocks.last(),
            found.last(),
        )
    }
}

/// Inlines are only put under the blocks that they are found in: what these and all other blocks
/// are, and where, stays the same.
pub proof fn law_inlines_keep_blocks(t: Nodes, blocks: Seq<int>, found: Seq<Seq<InlineView>>)
    requires
        is_tree(t),
        found.len() == blocks.len(),
        forall|k: int| 0 <= k < blocks.len() ==> 0 <= #[trigger] blocks[k] < t.len(),
    ensures
        ({
            let u = all_inlines_added(t, blocks, found);
            &&& is_tree(u)
            &&& u.len() >= t.len()
            &&& forall|j: int|
                0 <= j < t.len() ==> #[trigger] u[j] == (NodeView {
                    children: u[j].children,
                    ..t[j]
                })
            &&& forall|j: int|
                0 <= j < t.len() && !blocks.contains(j) ==> (#[trigger] u[j]).children
                    == t[j].children
        }),
    decreases blocks.len(),
{
    if blocks.len() > 0 {
        let b = blocks.drop_last();
        assert forall|k: int| 0 <= k < b.len() implies 0 <= #[trigger] b[k] < t.len() by {
            assert(b[k] == blocks[k]);
        }
        law_inlines_keep_blocks(t, b, found.drop_last());
        let u = all_inlines_added(t, b, found.drop_last());
        assert(blocks[blocks.len() - 1] == blocks.last());
        lemma_inlines_added(u, blocks.last(), found.last());
        let v = inlines_added(u, blocks.last(), found.last());
        assert forall|j: int| 0 <= j < t.len() && !blocks.contains(j) implies (
        #[trigger] v[j]).children == t[j].children by {
            assert(j != blocks.last());
            if b.contains(j) {
                let k = choose|k: int| 0 <= k < b.len() && b[k] == j;
                assert(blocks[k] == j);
            }
            assert(v[j] == u[j]);
        }
    }
}

impl<'a> Tree<'a> {
    /// Puts inlines under `node`.
    pub fn add_inlines(&mut self, node: usize, inlines: Vec<Inline>)
        requires
            is_tree(old(self)@),
            node < old(self)@.len(),
        ensures
            final(self)@ == inlines_added(old(self)@, node as int, inlines_in(inlines@)),
            is_tree(final(self)@),
    {
        let ghost t = self@;
        let base: usize = self.len();
        let ghost all = inlines_in(inlines@);
        let n: usize = inlines.len();
        let mut left: Vec<Inline> = inlines;
        let mut values: Vec<Inline> = Vec::new();
        while left.len() > 0
            invariant
                left@.len() + values@.len() == n,
                forall|j: int| 0 <= j < left@.len() ==> #[trigger] left@[j] == inlines@[j],
                forall|j: int|
                    0 <= j < values@.len() ==> #[trigger] values@[j] == inlines@[n - 1 - j],
                n == inlines@.len(),
            decreases left@.len(),
        {
            let x: Inline = left.pop().unwrap();
            values.push(x);
        }
        let mut k: usize = 0;
        proof {
            assert(all.subrange(0, 0) =~= Seq::<InlineView>::empty());
        }
        while values.len() > 0
            invariant
                is_tree(t),
                node < t.len(),
                base == t.len(),
                k + values@.len() == n,
                n == inlines@.len(),
                all == inlines_in(inlines@),
                forall|j: int|
                    0 <= j < values@.len() ==> #[trigger] values@[j] == inlines@[n - 1 - j],
                self@ == inlines_added(t, node as int, all.subrange(0, k as int)),
                self@.len() == t.len() + k,
            decreases values@.len(),
        {
            let x: Inline = values.pop().unwrap();
            proof {
                lemma_inlines_added(t, node as int, all.subrange(0, k as int));
                let next = all.subrange(0, k + 1);
                assert(next.drop_last() =~= all.subrange(0, k as int));
                assert(next.last() == x@);
            }
            let len: usize = self.len();
            let parent: usize = match x.parent {
                Some(j) => if j < k {
                    base + j
                } else {
                    node
                },
                None => node,
            };
            let mut new: AstNode = make_node(x.value, 0);
            new.open = false;
            proof {
                assert(new@ =~= inline_node(x.value@));
            }
            self.append(parent, new);
            k += 1;
        }
        proof {
            assert(all.subrange(0, n as int) =~= all);
            lemma_inlines_added(t, node as int, all);
        }
    }

    /// The blocks whose text is parsed for inlines, in the order of the document.
    pub fn find_inline_blocks(&self) -> (r: Vec<usize>)
        requires
            is_tree(self@),
        ensures
            numbers(r@) == inline_blocks(self@),
            forall|k: int| 0 <= k < r@.len() ==> #[trigger] r@[k] < self@.len(),
    {
        let all: Vec<usize> = self.walk(Stop::Nowhere);
        let ghost ids = numbers(all@);
        let mut blocks: Vec<usize> = Vec::new();
        let mut k: usize = 0;
        proof {
            assert(ids.subrange(0, 0) =~= Seq::<int>::empty());
            assert(numbers(blocks@) =~= Seq::<int>::empty());
        }
        while k < all.len()
            invariant
                k <= all@.len(),
                ids == numbers(all@),
                numbers(blocks@) == picked(
                    self@,
                    ids.subrange(0, k as int),
                    inline_kinds(),
                ),
                forall|j: int| 0 <= j < all@.len() ==> #[trigger] all@[j] < self@.len(),
                forall|j: int| 0 <= j < blocks@.len() ==> #[trigger] blocks@[j] < self@.len(),
            decreases all@.len() - k,
        {
            let x: usize = all[k];
            let ghost before = numbers(blocks@);
            proof {
                let next = ids.subrange(0, k + 1);
                assert(next.drop_last() =~= ids.subrange(0, k as int));
                assert(next.last() == x);
            }
            if self.node(x).value.contains_inlines() {
                blocks.push(x);
                proof {
                    assert(numbers(blocks@) =~= before.push(x as int));
                }
            }
            k += 1;
        }
        proof {
            assert(ids.subrange(0, k as int) =~= ids);
        }
        blocks
    }
}

/// The state with these inlines under `node`.
pub open spec fn with_inlines_under(
    p: ParserView,
    node: int,
    found: Seq<InlineView>,
) -> ParserView {
    ParserView {
        blocks: Blocks { nodes: inlines_added(p.blocks.nodes, node, found), ..p.blocks },
        ..p
    }
}

/// The text of `node` that is parsed for inlines, and what goes with it.
pub open spec fn text_asked(p: ParserView, node: int, answers: Answers) -> InlineText {
    InlineText {
        content: rtrimmed(p.blocks.nodes[node].content),
        options: p.options.parse_time(),
        refs: p.blocks.refs,
        max_ref_size: p.max_ref_size,
        answers,
    }
}

/// Whether `found` may be found in the text of `node`.
pub open spec fn may_be_in(
    p: ParserView,
    node: int,
    finds: Finds,
    answers: Answers,
    found: Seq<InlineView>,
) -> bool {
    finds(text_asked(p, node, answers), found)
}

/// Whether `found` may be found in the texts of all blocks, one after the other.
pub open spec fn may_be_in_all(
    p: ParserView,
    finds: Finds,
    answers: Answers,
    found: Seq<Seq<InlineView>>,
) -> bool {
    let blocks = inline_blocks(p.blocks.nodes);
    &&& found.len() == blocks.len()
    &&& forall|k: int|
        0 <= k < blocks.len() ==> may_be_in(p, blocks[k], finds, answers, #[trigger] found[k])
}

/// The state with the inlines that were found in all blocks.
pub open spec fn with_all_inlines(p: ParserView, found: Seq<Seq<InlineView>>) -> ParserView {
    ParserView {
        blocks: Blocks {
            nodes: all_inlines_added(p.blocks.nodes, inline_blocks(p.blocks.nodes), found),
            ..p.blocks
        },
        ..p
    }
}

impl<'a, 'o> Parser<'a, 'o> {
    /// The text of `node` that is parsed for inlines.
    pub fn inline_text(&self, node: usize) -> (r: Vec<u8>)
        requires
            node < self@.blocks.nodes.len(),
        ensures
            r@ == rtrimmed(self@.blocks.nodes[node as int].content),
    {
        rtrim_slice(self.tree.node(node).content.as_slice())
    }

    /// Has the text of `node` parsed for inlines, and puts them under it, whichever they are.
    pub fn parse_inlines<I: InlineParser, C: BrokenLinkCallback>(
        &mut self,
        node: usize,
        inlines: &mut I,
        callback: &mut C,
    )
        requires
            is_tree(old(self)@.blocks.nodes),
            node < old(self)@.blocks.nodes.len(),
        ensures
            exists|found: Seq<InlineView>| {
                &&& may_be_in(
                    old(self)@,
                    node as int,
                    old(inlines).finds(),
                    old(callback).answers(),
                    found,
                )
                &&& final(self)@ == #[trigger] with_inlines_under(old(self)@, node as int, found)
            },
            is_tree(final(self)@.blocks.nodes),
            final(inlines).finds() == old(inlines).finds(),
            final(inlines).addresses() == old(inlines).addresses(),
            final(callback).answers() == old(callback).answers(),
    {
        let content: Vec<u8> = self.inline_text(node);
        let found: Vec<Inline> = inlines.parse_inlines(
            content.as_slice(),
            self.options,
            &self.refmap,
            callback,
        );
        self.tree.add_inlines(node, found);
        proof {
            assert(self@ == with_inlines_under(old(self)@, node as int, inlines_in(found@)));
        }
    }

    /// Has the texts of all blocks parsed for inlines, in the order of the document, and puts
    /// them under the blocks, whichever they are.
    pub fn process_inlines<I: InlineParser, C: BrokenLinkCallback>(
        &mut self,
        inlines: &mut I,
        callback: &mut C,
    )
        requires
            is_tree(old(self)@.blocks.nodes),
        ensures
            exists|found: Seq<Seq<InlineView>>| {
                &&& may_be_in_all(
                    old(self)@,
                    old(inlines).finds(),
                    old(callback).answers(),
                    found,
                )
                &&& final(self)@ == #[trigger] with_all_inlines(old(self)@, found)
            },
            is_tree(final(self)@.blocks.nodes),
            final(inlines).finds() == old(inlines).finds(),
            final(inlines).addresses() == old(inlines).addresses(),
            final(callback).answers() == old(callback).answers(),
    {
        let ghost p0 = self@;
        let ghost t = p0.blocks.nodes;
        let ghost finds = inlines.finds();
        let ghost answers = callback.answers();
        let blocks: Vec<usize> = self.tree.find_inline_blocks();
        let ghost ids = numbers(blocks@);
        let ghost mut found: Seq<Seq<InlineView>> = seq![];
        let mut k: usize = 0;
        proof {
            assert(ids.subrange(0, 0) =~= Seq::<int>::empty());
        }
        while k < blocks.len()
            invariant
                k <= blocks@.len(),
                ids == numbers(blocks@),
                p0 == old(self)@,
                t == p0.blocks.nodes,
                is_tree(t),
                forall|j: int| 0 <= j < blocks@.len() ==> #[trigger] blocks@[j] < t.len(),
                found.len() == k,
                finds == old(inlines).finds(),
                answers == old(callback).answers(),
                inlines.finds() == finds,
                inlines.addresses() == old(inlines).addresses(),
                callback.answers() == answers,
                forall|j: int|
                    0 <= j < k ==> may_be_in(p0, ids[j], finds, answers, #[trigger] found[j]),
                is_tree(self@.blocks.nodes),
                self@.blocks.nodes.len() >= t.len(),
                self@ == (ParserView {
                    blocks: Blocks {
                        nodes: all_inlines_added(t, ids.subrange(0, k as int), found),
                        ..p0.blocks
                    },
                    ..p0
                }),
            decreases blocks@.len() - k,
        {
            let ghost p = self@;
            let x: usize = blocks[k];
            self.parse_inlines(x, inlines, callback);
            proof {
                let f = choose|f: Seq<InlineView>| {
                    &&& may_be_in(p, x as int, finds, answers, f)
                    &&& self@ == #[trigger] with_inlines_under(p, x as int, f)
                };
                lemma_inlines_added(p.blocks.nodes, x as int, f);
                let before = ids.subrange(0, k as int);
                assert forall|j: int| 0 <= j < before.len() implies 0 <= #[trigger] before[j]
                    < t.len() by {
                    assert(before[j] == blocks@[j]);
                }
                law_inlines_keep_blocks(t, before, found);
                assert(p.blocks.nodes[x as int].content == t[x as int].content);
                assert(text_asked(p, x as int, answers) == text_asked(p0, x as int, answers));
                assert(may_be_in(p0, ids[k as int], finds, answers, f));
                let next = ids.subrange(0, k + 1);
                assert(next.drop_last() =~= before);
                assert(found.push(f).drop_last() =~= found);
                assert(next.last() == x);
                found = found.push(f);
            }
            k += 1;
        }
        proof {
            assert(ids.subrange(0, k as int) =~= ids);
            assert(may_be_in_all(p0, finds, answers, found));
            assert(self@ == with_all_inlines(p0, found));
        }
    }
}

} // verus!
