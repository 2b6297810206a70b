//! What is found in texts once they are joined: check boxes of tasks, and addresses that are to
//! be links.

use crate::footnotes::with_value;
use crate::inlines::{inline_node, link_in, Addresses, InlineParser, LinkView};
use crate::joining::{bracket, joined_up_to, lemma_joined_up_to, outside_links, text_in};
use crate::nodes::{NodeLink, NodeValue, Value};
use crate::options::ComrakOptions;
use crate::scanners::{task_box, tasklist};
use crate::text::{copy_range, lemma_boundary_at_ascii, lemma_valid_between, string_from_utf8};
use crate::tree::{
    appended, inserted, is_tree, lemma_appended, lemma_inserted, lemma_same_shape, linked,
    make_node, same_shape, AstNode, NodeView, Nodes, Tree,
};
use vstd::prelude::*;
use vstd::utf8::{
    decode_utf8, decode_utf8_encode_utf8, encode_utf8, encode_utf8_valid_utf8, is_char_boundary,
    is_char_boundary_start_end_of_seq, valid_utf8, valid_utf8_split,
};

verus! {

/// Whether the text `x` is the first thing in a paragraph that is the first thing in an item.
pub open spec fn starts_item(t: Nodes, x: int) -> bool {
    match t[x].parent {
        Some(p) => {
            &&& t[p].value is Paragraph
            &&& t[p].children.len() > 0 && t[p].children[0] == x
            &&& match t[p].parent {
                Some(g) => {
                    &&& t[g].value is Item
                    &&& t[g].children.len() > 0 && t[g].children[0] == p
                },
                None => false,
            }
        },
        None => false,
    }
}

/// Whether a symbol may stand in the check box of a task.
pub open spec fn box_symbol(symbol: u8, relaxed: bool) -> bool {
    relaxed || symbol == 32 || symbol == 120 || symbol == 88
}

/// The task that a symbol in its check box makes.
pub open spec fn task_item(symbol: u8) -> Value {
    Value::TaskItem {
        symbol: if symbol == 32 {
            None
        } else {
            Some(symbol as char)
        },
    }
}

/// The nodes with the check box at the start of the text `x`, where one makes a task of its
/// item, as a node of its own.
pub open spec fn task_marked(t: Nodes, x: int, relaxed: bool) -> Nodes {
    let bytes = encode_utf8(text_in(t[x].value));
    match task_box(bytes) {
        Some((end, symbol)) => if box_symbol(symbol, relaxed) && starts_item(t, x) {
            inserted(
                with_value(
                    t,
                    x,
                    Value::Text(decode_utf8(bytes.subrange(end, bytes.len() as int))),
                ),
                t[x].parent->0,
                0,
                inline_node(task_item(symbol)),
            )
        } else {
            t
        },
        None => t,
    }
}

/// An address that lies in the text `b`, and is not empty.
pub open spec fn link_fits(b: Seq<u8>, l: LinkView) -> bool {
    &&& 0 <= l.start < l.end <= b.len()
    &&& is_char_boundary(b, l.start)
    &&& is_char_boundary(b, l.end)
}

/// The nodes with the address `l` in the text `x`, at index `k` under `p`, as a link behind what
/// is before it.
pub open spec fn link_split(t: Nodes, p: int, k: int, x: int, l: LinkView) -> Nodes {
    let b = encode_utf8(text_in(t[x].value));
    let t1 = with_value(t, x, Value::Text(decode_utf8(b.subrange(0, l.start))));
    let t2 = inserted(t1, p, k + 1, inline_node(Value::Link(l.url, seq![])));
    appended(
        t2,
        t.len() as int,
        inline_node(Value::Text(decode_utf8(b.subrange(l.start, l.end)))),
    )
}

/// The nodes with these addresses in the text `x`, at index `k` under `p`, as links; each is
/// found in what is left behind the one before it.
pub open spec fn links_added(t: Nodes, p: int, k: int, x: int, links: Seq<LinkView>) -> Nodes
    decreases links.len(),
{
    let b = encode_utf8(text_in(t[x].value));
    if links.len() == 0 || !link_fits(b, links[0]) {
        t
    } else {
        let u = link_split(t, p, k, x, links[0]);
        let end = links[0].end;
        if end < b.len() {
            let rest = inline_node(
                Value::Text(decode_utf8(b.subrange(end, b.len() as int))),
            );
            links_added(
                inserted(u, p, k + 2, rest),
                p,
                k + 2,
                u.len() as int,
                links.subrange(1, links.len() as int),
            )
        } else {
            u
        }
    }
}

/// Whether a reply about the text `b` makes no link: there is none, or it does not fit.
pub open spec fn makes_no_link(b: Seq<u8>, reply: Option<LinkView>) -> bool {
    match reply {
        Some(l) => !link_fits(b, l),
        None => true,
    }
}

/// Whether `links` are addresses that may be found in `text`, each in what is left behind the
/// one before it, and none may be found behind the last one.
pub open spec fn may_be_linked(a: Addresses, text: Seq<char>, links: Seq<LinkView>) -> bool
    decreases links.len(),
{
    let b = encode_utf8(text);
    if links.len() == 0 {
        exists|reply: Option<LinkView>| a(text, reply) && #[trigger] makes_no_link(b, reply)
    } else {
        let end = links[0].end;
        &&& a(text, Some(links[0]))
        &&& link_fits(b, links[0])
        &&& if end < b.len() {
            may_be_linked(
                a,
                decode_utf8(b.subrange(end, b.len() as int)),
                links.subrange(1, links.len() as int),
            )
        } else {
            links.len() == 1
        }
    }
}

/// Whether `links` may be found in the text `x`. One that is nowhere in the tree is not looked
/// into.
pub open spec fn may_be_linked_at(
    t: Nodes,
    x: int,
    a: Addresses,
    links: Seq<LinkView>,
) -> bool {
    match t[x].parent {
        Some(_) => may_be_linked(a, text_in(t[x].value), links),
        None => links.len() == 0,
    }
}

/// The index of `x` in `s` from `k` on.
pub open spec fn place(s: Seq<int>, x: int, k: int) -> int
    decreases s.len() - k,
{
    if k < 0 || k >= s.len() || s[k] == x {
        k
    } else {
        place(s, x, k + 1)
    }
}

/// The nodes with these addresses in the text `x` as links.
pub open spec fn text_linked(t: Nodes, x: int, links: Seq<LinkView>) -> Nodes {
    match t[x].parent {
        Some(p) => links_added(t, p, place(t[p].children, x, 0), x, links),
        None => t,
    }
}

/// The nodes with the check box in the text `x`, where task items are looked for.
pub open spec fn task_looked_for(t: Nodes, x: int, o: ComrakOptions) -> Nodes {
    if o.extension.tasklist {
        task_marked(t, x, o.parse.relaxed_tasklist_matching)
    } else {
        t
    }
}

/// The nodes with what is found in the text `x`.
pub open spec fn text_done(
    t: Nodes,
    x: int,
    links: Seq<LinkView>,
    o: ComrakOptions,
) -> Nodes {
    let u = task_looked_for(t, x, o);
    if o.extension.autolink {
        text_linked(u, x, links)
    } else {
        u
    }
}

/// Whether `links` may be found in the text `x`, where addresses are looked for.
pub open spec fn may_be_done(
    t: Nodes,
    x: int,
    a: Addresses,
    links: Seq<LinkView>,
    o: ComrakOptions,
) -> bool {
    o.extension.autolink ==> may_be_linked_at(task_looked_for(t, x, o), x, a, links)
}

/// Whether `x` is a text outside links and images.
pub open spec fn free_text(t: Nodes, x: int) -> bool {
    &&& t[x].value is Text
    &&& t[x].parent matches Some(p) && outside_links(t, p)
}

/// The nodes with what is found in the texts among the first `n` nodes; the addresses are those
/// found in each.
pub open spec fn texts_done(
    t: Nodes,
    n: int,
    links: Seq<Seq<LinkView>>,
    o: ComrakOptions,
) -> Nodes
    decreases n,
{
    if n <= 0 {
        t
    } else {
        let u = texts_done(t, n - 1, links, o);
        if free_text(u, n - 1) {
            text_done(u, n - 1, links[n - 1], o)
        } else {
            u
        }
    }
}

/// Whether `links` may be found in the texts among the first `n` nodes.
pub open spec fn all_may_be_done(
    t: Nodes,
    n: int,
    a: Addresses,
    links: Seq<Seq<LinkView>>,
    o: ComrakOptions,
) -> bool
    decreases n,
{
    n <= 0 || {
        let u = texts_done(t, n - 1, links, o);
        &&& all_may_be_done(t, n - 1, a, links, o)
        &&& free_text(u, n - 1) ==> may_be_done(u, n - 1, a, links[n - 1], o)
    }
}

/// Whether `links` may be found in the nodes once adjacent texts are joined.
pub open spec fn may_be_postprocessed(
    t: Nodes,
    a: Addresses,
    links: Seq<Seq<LinkView>>,
    o: ComrakOptions,
) -> bool {
    &&& links.len() == t.len()
    &&& all_may_be_done(joined_up_to(t, t.len() as int), t.len() as int, a, links, o)
}

/// The nodes with adjacent texts joined, and what is found in them then.
pub open spec fn postprocessed(t: Nodes, links: Seq<Seq<LinkView>>, o: ComrakOptions) -> Nodes {
    texts_done(joined_up_to(t, t.len() as int), t.len() as int, links, o)
}

/// What changes of the first `n` nodes keeps them where they are.
pub open spec fn only_texts_changed(t: Nodes, u: Nodes, n: int) -> bool {
    &&& n <= t.len() <= u.len()
    &&& forall|j: int|
        0 <= j < n ==> {
            &&& (#[trigger] u[j]).parent == t[j].parent
            &&& u[j].open == t[j].open
            &&& u[j].value is Text <==> t[j].value is Text
            &&& !(t[j].value is Text) ==> u[j].value == t[j].value
        }
}

/// Where a child is.
proof fn lemma_place(s: Seq<int>, x: int, k: int)
    requires
        exists|j: int| k <= j < s.len() && #[trigger] s[j] == x,
        0 <= k,
    ensures
        k <= place(s, x, k) < s.len(),
        s[place(s, x, k)] == x,
    decreases s.len() - k,
{
    if s[k] != x {
        let j = choose|j: int| k <= j < s.len() && #[trigger] s[j] == x;
        assert(k + 1 <= j);
        lemma_place(s, x, k + 1);
    }
}

/// Whether a node is outside links does not depend on texts.
pub proof fn lemma_outside_links_kept(t: Nodes, u: Nodes, n: int, i: int)
    requires
        only_texts_changed(t, u, n),
        0 <= i < n,
    ensures
        outside_links(u, i) == outside_links(t, i),
    decreases i,
{
    assert(bracket(u[i].value) == bracket(t[i].value));
    if i != 0 {
        match t[i].parent {
            Some(p) => {
                if 0 <= p < i {
                    lemma_outside_links_kept(t, u, n, p);
                }
            },
            None => {},
        }
    }
}

/// The check box of a task is text, and so is what follows it.
proof fn lemma_task_box(b: Seq<u8>)
    requires
        valid_utf8(b),
    ensures
        task_box(b) matches Some((end, symbol)) ==> 0 < end <= b.len() && valid_utf8(
            b.subrange(end, b.len() as int),
        ),
{
    is_char_boundary_start_end_of_seq(b);
    match task_box(b) {
        Some((end, symbol)) => {
            crate::ctype::lemma_run_end(b, 0, crate::ctype::spaces());
            lemma_boundary_at_ascii(b, end - 1);
            valid_utf8_split(b, end);
        },
        None => {},
    }
}

/// What marking a task does.
proof fn lemma_task_marked(t: Nodes, x: int, relaxed: bool)
    requires
        is_tree(t),
        0 <= x < t.len(),
        t[x].value is Text,
    ensures
        is_tree(task_marked(t, x, relaxed)),
        only_texts_changed(t, task_marked(t, x, relaxed), t.len() as int),
{
    let bytes = encode_utf8(text_in(t[x].value));
    match task_box(bytes) {
        Some((end, symbol)) => {
            if box_symbol(symbol, relaxed) && starts_item(t, x) {
                let v = with_value(
                    t,
                    x,
                    Value::Text(decode_utf8(bytes.subrange(end, bytes.len() as int))),
                );
                assert(same_shape(t, v));
                lemma_same_shape(t, v);
                assert(linked(t, x));
                lemma_inserted(v, t[x].parent->0, 0, inline_node(task_item(symbol)));
            }
        },
        None => {},
    }
}

/// What making a link does.
proof fn lemma_link_split(t: Nodes, p: int, k: int, x: int, l: LinkView)
    requires
        is_tree(t),
        0 <= x < t.len(),
        t[x].value is Text,
        t[x].parent == Some(p),
        0 <= k < t[p].children.len(),
        t[p].children[k] == x,
    ensures
        ({
            let u = link_split(t, p, k, x, l);
            &&& is_tree(u)
            &&& only_texts_changed(t, u, t.len() as int)
            &&& u[p].children.len() == t[p].children.len() + 1
            &&& u.len() == t.len() + 2
        }),
{
    assert(linked(t, x));
    let b = encode_utf8(text_in(t[x].value));
    let t1 = with_value(t, x, Value::Text(decode_utf8(b.subrange(0, l.start))));
    assert(same_shape(t, t1));
    lemma_same_shape(t, t1);
    assert(t1[p].children == t[p].children);
    lemma_inserted(t1, p, k + 1, inline_node(Value::Link(l.url, seq![])));
    let t2 = inserted(t1, p, k + 1, inline_node(Value::Link(l.url, seq![])));
    lemma_appended(
        t2,
        t.len() as int,
        inline_node(Value::Text(decode_utf8(b.subrange(l.start, l.end)))),
    );
}

/// The three parts of a text around an address are text.
proof fn lemma_link_parts(b: Seq<u8>, l: LinkView)
    requires
        valid_utf8(b),
        link_fits(b, l),
    ensures
        valid_utf8(b.subrange(0, l.start)),
        valid_utf8(b.subrange(l.start, l.end)),
        valid_utf8(b.subrange(l.end, b.len() as int)),
{
    is_char_boundary_start_end_of_seq(b);
    lemma_valid_between(b, 0, l.start);
    lemma_valid_between(b, l.start, l.end);
    lemma_valid_between(b, l.end, b.len() as int);
}

/// A new inline.
fn make_inline(value: NodeValue) -> (r: AstNode)
    ensures
        r@ == inline_node(value@),
{
    let mut n: AstNode = make_node(value, 0);
    n.open = false;
    proof {
        assert(n@ =~= inline_node(value@));
    }
    n
}

impl<'a> Tree<'a> {
    /// The bytes of the text `x`.
    fn text_bytes(&self, x: usize) -> (r: Vec<u8>)
        requires
            x < self@.len(),
        ensures
            r@ == encode_utf8(text_in(self@[x as int].value)),
            valid_utf8(r@),
    {
        proof {
            encode_utf8_valid_utf8(text_in(self@[x as int].value));
        }
        match &self.node(x).value {
            NodeValue::Text(s) => {
                let bytes: &[u8] = s.as_str().as_bytes();
                let v: Vec<u8> = copy_range(bytes, 0, bytes.len());
                proof {
                    assert(v@ =~= bytes@);
                }
                v
            },
            _ => {
                let v: Vec<u8> = Vec::new();
                proof {
                    assert(v@ =~= encode_utf8(seq![]));
                }
                v
            },
        }
    }

    /// Whether the text `x` is the first thing in a paragraph that is the first thing in an
    /// item.
    fn is_start_of_item(&self, x: usize) -> (r: bool)
        requires
            is_tree(self@),
            x < self@.len(),
        ensures
            r == starts_item(self@, x as int),
    {
        proof {
            assert(linked(self@, x as int));
        }
        let p: usize = match self.node(x).parent {
            Some(p) => p,
            None => return false,
        };
        proof {
            assert(linked(self@, p as int));
        }
        if !matches!(self.node(p).value, NodeValue::Paragraph) || self.node(p).children.len() == 0
            || self.node(p).children[0] != x {
            return false;
        }
        match self.node(p).parent {
            Some(g) => matches!(self.node(g).value, NodeValue::Item(_))
                && self.node(g).children.len() > 0 && self.node(g).children[0] == p,
            None => false,
        }
    }

    /// Makes a task of the item that the text `x` starts, where it starts with a check box.
    pub fn process_tasklist(&mut self, x: usize, relaxed: bool)
        requires
            is_tree(old(self)@),
            x < old(self)@.len(),
            old(self)@[x as int].value is Text,
        ensures
            final(self)@ == task_marked(old(self)@, x as int, relaxed),
            is_tree(final(self)@),
            only_texts_changed(old(self)@, final(self)@, old(self)@.len() as int),
    {
        let ghost t = self@;
        let bytes: Vec<u8> = self.text_bytes(x);
        proof {
            lemma_task_box(bytes@);
            lemma_task_marked(t, x as int, relaxed);
            assert(linked(t, x as int));
        }
        let (end, symbol): (usize, u8) = match tasklist(bytes.as_slice()) {
            Some(found) => found,
            None => return,
        };
        if !(relaxed || symbol == 32 || symbol == 120 || symbol == 88) {
            return;
        }
        if !self.is_start_of_item(x) {
            return;
        }
        let p: usize = self.node(x).parent.unwrap();
        let rest: String = string_from_utf8(copy_range(bytes.as_slice(), end, bytes.len()));
        let ghost r = rest@;
        self.nodes[x].value = NodeValue::Text(rest);
        proof {
            assert(self@ =~= with_value(t, x as int, Value::Text(r)));
        }
        let ticked: Option<char> = if symbol == 32 {
            None
        } else {
            Some(symbol as char)
        };
        self.insert(p, 0, make_inline(NodeValue::TaskItem { symbol: ticked }));
    }

    /// Makes a link of the bytes from `start` up to `end` of the text `x`, which is at index
    /// `k` under `p`.
    pub fn split_link(
        &mut self,
        p: usize,
        k: usize,
        x: usize,
        start: usize,
        end: usize,
        url: String,
    )
        requires
            is_tree(old(self)@),
            x < old(self)@.len(),
            old(self)@[x as int].value is Text,
            old(self)@[x as int].parent == Some(p as int),
            k < old(self)@[p as int].children.len(),
            old(self)@[p as int].children[k as int] == x,
            link_fits(
                encode_utf8(text_in(old(self)@[x as int].value)),
                (LinkView { start: start as int, end: end as int, url: url@ }),
            ),
        ensures
            final(self)@ == link_split(
                old(self)@,
                p as int,
                k as int,
                x as int,
                (LinkView { start: start as int, end: end as int, url: url@ }),
            ),
    {
        let ghost t = self@;
        let ghost l = LinkView { start: start as int, end: end as int, url: url@ };
        let bytes: Vec<u8> = self.text_bytes(x);
        let b: &[u8] = bytes.as_slice();
        proof {
            lemma_link_parts(b@, l);
            assert(linked(t, x as int));
        }
        let n: usize = self.node(p).children.len();
        let before: String = string_from_utf8(copy_range(b, 0, start));
        let label: String = string_from_utf8(copy_range(b, start, end));
        let ghost first = before@;
        self.nodes[x].value = NodeValue::Text(before);
        proof {
            assert(self@ =~= with_value(t, x as int, Value::Text(first)));
            assert(self@[p as int].children == t[p as int].children);
        }
        let title: String = String::new();
        proof {
            assert(title@ =~= seq![]);
        }
        let link: usize = self.insert(
            p,
            k + 1,
            make_inline(NodeValue::Link(NodeLink { url, title })),
        );
        self.append(link, make_inline(NodeValue::Text(label)));
    }
}

/// Putting the rest of a text behind a link.
proof fn lemma_rest_inserted(
    t: Nodes,
    p: int,
    k: int,
    x: int,
    l: LinkView,
    rest: NodeView,
)
    requires
        is_tree(t),
        0 <= x < t.len(),
        t[x].value is Text,
        t[x].parent == Some(p),
        0 <= k < t[p].children.len(),
        t[p].children[k] == x,
        link_fits(encode_utf8(text_in(t[x].value)), l),
        rest.children.len() == 0,
    ensures
        ({
            let u = link_split(t, p, k, x, l);
            let v = inserted(u, p, k + 2, rest);
            &&& is_tree(v)
            &&& v.len() == u.len() + 1
            &&& only_texts_changed(t, v, t.len() as int)
            &&& k + 2 < v[p].children.len()
            &&& v[p].children[k + 2] == u.len()
            &&& v[u.len() as int] == NodeView { parent: Some(p), ..rest }
        }),
{
    lemma_link_split(t, p, k, x, l);
    let u = link_split(t, p, k, x, l);
    assert(linked(t, x));
    lemma_inserted(u, p, k + 2, rest);
}

impl<'a> Tree<'a> {
    /// The index of `x` among the children of `p`.
    fn place_of(&self, p: usize, x: usize) -> (r: usize)
        requires
            p < self@.len(),
        ensures
            r == place(self@[p as int].children, x as int, 0),
    {
        let n: usize = self.node(p).children.len();
        let mut k: usize = 0;
        while k < n && self.node(p).children[k] != x
            invariant
                p < self@.len(),
                n == self@[p as int].children.len(),
                k <= n,
                place(self@[p as int].children, x as int, 0) == place(
                    self@[p as int].children,
                    x as int,
                    k as int,
                ),
            decreases n - k,
        {
            k += 1;
        }
        k
    }

    /// Has addresses looked for in the text `text`, and makes links of them, whichever they are.
    #[verifier::rlimit(60)]
    pub fn process_autolinks<I: InlineParser>(&mut self, text: usize, finder: &mut I)
        requires
            is_tree(old(self)@),
            text < old(self)@.len(),
            old(self)@[text as int].value is Text,
        ensures
            exists|links: Seq<LinkView>| {
                &&& may_be_linked_at(old(self)@, text as int, old(finder).addresses(), links)
                &&& final(self)@ == #[trigger] text_linked(old(self)@, text as int, links)
            },
            final(finder).finds() == old(finder).finds(),
            final(finder).addresses() == old(finder).addresses(),
            is_tree(final(self)@),
            only_texts_changed(old(self)@, final(self)@, old(self)@.len() as int),
    {
        let ghost t = self@;
        proof {
            assert(linked(t, text as int));
        }
        let p: usize = match self.node(text).parent {
            Some(p) => p,
            None => {
                proof {
                    assert(may_be_linked_at(t, text as int, finder.addresses(), seq![]));
                    assert(self@ == text_linked(t, text as int, seq![]));
                }
                return;
            },
        };
        let ghost k0 = place(t[p as int].children, text as int, 0);
        let ghost a = finder.addresses();
        let ghost whole = text_in(t[text as int].value);
        proof {
            let ch = t[p as int].children;
            assert(ch.contains(text as int));
            let j = choose|j: int| 0 <= j < ch.len() && ch[j] == text;
            assert(ch[j] == text);
            lemma_place(ch, text as int, 0);
        }
        let mut k: usize = self.place_of(p, text);
        let mut x: usize = text;
        let ghost mut done: Seq<LinkView> = seq![];
        proof {
            assert forall|tail: Seq<LinkView>|
                links_added(t, p as int, k0, text as int, #[trigger] (done + tail))
                    == links_added(t, p as int, k0, text as int, tail) && (may_be_linked(
                    a,
                    whole,
                    tail,
                ) ==> may_be_linked(a, whole, done + tail)) by {
                assert(done + tail =~= tail);
            }
        }
        loop
            invariant_except_break
                finder.finds() == old(finder).finds(),
                finder.addresses() == a,
                a == old(finder).addresses(),
                is_tree(self@),
                x < self@.len(),
                self@[x as int].value is Text,
                self@[x as int].parent == Some(p as int),
                k < self@[p as int].children.len(),
                self@[p as int].children[k as int] == x,
                only_texts_changed(t, self@, t.len() as int),
                forall|tail: Seq<LinkView>|
                    links_added(t, p as int, k0, text as int, #[trigger] (done + tail))
                        == links_added(self@, p as int, k as int, x as int, tail) && (
                    may_be_linked(a, text_in(self@[x as int].value), tail) ==> may_be_linked(
                        a,
                        whole,
                        done + tail,
                    )),
            ensures
                finder.finds() == old(finder).finds(),
                finder.addresses() == a,
                a == old(finder).addresses(),
                is_tree(self@),
                only_texts_changed(t, self@, t.len() as int),
                exists|links: Seq<LinkView>|
                    may_be_linked(a, whole, links) && self@ == #[trigger] links_added(
                        t,
                        p as int,
                        k0,
                        text as int,
                        links,
                    ),
            decreases encode_utf8(text_in(self@[x as int].value)).len(),
        {
            let ghost u = self@;
            proof {
                assert(linked(u, x as int));
            }
            let bytes: Vec<u8> = self.text_bytes(x);
            let len: usize = bytes.len();
            let ghost mut reply: Option<LinkView> = None;
            let ghost left = text_in(u[x as int].value);
            let found: Option<(usize, usize, String)> = match &self.node(x).value {
                NodeValue::Text(s) => {
                    let answer: Option<(usize, usize, String)> = finder.find_autolink(s.as_str());
                    proof {
                        reply = link_in(answer);
                    }
                    match answer {
                        Some((start, end, url)) => if start < end && end <= len
                            && s.as_str().is_char_boundary(start) && s.as_str().is_char_boundary(
                            end,
                        ) {
                            Some((start, end, url))
                        } else {
                            None
                        },
                        None => None,
                    }
                },
                _ => None,
            };
            proof {
                assert(a(left, reply));
            }
            match found {
                None => {
                    proof {
                        let none = Seq::<LinkView>::empty();
                        assert(makes_no_link(encode_utf8(left), reply));
                        assert(may_be_linked(a, left, none));
                        assert(links_added(t, p as int, k0, text as int, done + none)
                            == links_added(u, p as int, k as int, x as int, none));
                    }
                    break;
                },
                Some((start, end, url)) => {
                    let ghost l = LinkView { start: start as int, end: end as int, url: url@ };
                    let ghost b = bytes@;
                    let ghost at = k as int;
                    let ghost was = x as int;
                    proof {
                        lemma_link_parts(b, l);
                        lemma_link_split(u, p as int, k as int, x as int, l);
                    }
                    self.split_link(p, k, x, start, end, url);
                    let ghost v = self@;
                    if end == len {
                        proof {
                            let one = seq![l];
                            assert(may_be_linked(a, left, one));
                            assert(links_added(t, p as int, k0, text as int, done + one)
                                == links_added(u, p as int, k as int, x as int, one));
                        }
                        break;
                    }
                    let rest: String = string_from_utf8(copy_range(bytes.as_slice(), end, len));
                    let ghost r = rest@;
                    let node: AstNode = make_inline(NodeValue::Text(rest));
                    let ghost rn = node@;
                    let size: usize = self.node(p).children.len();
                    x = self.insert(p, k + 2, node);
                    proof {
                        lemma_rest_inserted(u, p as int, at, was, l, rn);
                    }
                    k = k + 2;
                    proof {
                        decode_utf8_encode_utf8(b.subrange(end as int, len as int));
                        let before = done;
                        done = before.push(l);
                        assert forall|tail: Seq<LinkView>|
                            links_added(t, p as int, k0, text as int, #[trigger] (done + tail))
                                == links_added(self@, p as int, k as int, x as int, tail) && (
                            may_be_linked(a, text_in(self@[x as int].value), tail)
                                ==> may_be_linked(a, whole, done + tail)) by {
                            let more = seq![l] + tail;
                            assert(done + tail =~= before + more);
                            assert(more.subrange(1, more.len() as int) =~= tail);
                            assert(more[0] == l);
                            assert(links_added(t, p as int, k0, text as int, before + more)
                                == links_added(u, p as int, at, was, more));
                        }
                    }
                },
            }
        }
        proof {
            let links = choose|links: Seq<LinkView>|
                may_be_linked(a, whole, links) && self@ == #[trigger] links_added(
                    t,
                    p as int,
                    k0,
                    text as int,
                    links,
                );
            assert(may_be_linked_at(t, text as int, a, links));
            assert(self@ == text_linked(t, text as int, links));
        }
    }
}

/// What changes in two steps.
proof fn lemma_only_texts_changed(t: Nodes, u: Nodes, v: Nodes, n: int)
    requires
        only_texts_changed(t, u, n),
        only_texts_changed(u, v, u.len() as int),
    ensures
        only_texts_changed(t, v, n),
{
    assert forall|j: int| 0 <= j < n implies {
        &&& (#[trigger] v[j]).parent == t[j].parent
        &&& v[j].open == t[j].open
        &&& v[j].value is Text <==> t[j].value is Text
        &&& !(t[j].value is Text) ==> v[j].value == t[j].value
    } by {
        assert(u[j].parent == t[j].parent);
    }
}

impl<'a> Tree<'a> {
    /// Looks into the text `x` for the check box of a task and for addresses.
    pub fn postprocess_text_node<I: InlineParser>(
        &mut self,
        x: usize,
        options: &ComrakOptions,
        finder: &mut I,
    )
        requires
            is_tree(old(self)@),
            x < old(self)@.len(),
            old(self)@[x as int].value is Text,
        ensures
            exists|links: Seq<LinkView>| {
                &&& may_be_done(old(self)@, x as int, old(finder).addresses(), links, *options)
                &&& final(self)@ == #[trigger] text_done(old(self)@, x as int, links, *options)
            },
            final(finder).finds() == old(finder).finds(),
            final(finder).addresses() == old(finder).addresses(),
            is_tree(final(self)@),
            only_texts_changed(old(self)@, final(self)@, old(self)@.len() as int),
    {
        let ghost t = self@;
        let ghost a = finder.addresses();
        if options.extension.tasklist {
            self.process_tasklist(x, options.parse.relaxed_tasklist_matching);
        }
        let ghost u = self@;
        if options.extension.autolink {
            self.process_autolinks(x, finder);
            proof {
                let links = choose|links: Seq<LinkView>|
                    may_be_linked_at(u, x as int, a, links) && self@ == #[trigger] text_linked(
                        u,
                        x as int,
                        links,
                    );
                assert(may_be_done(t, x as int, a, links, *options));
                assert(self@ == text_done(t, x as int, links, *options));
                lemma_only_texts_changed(t, u, self@, t.len() as int);
            }
        } else {
            proof {
                assert(may_be_done(t, x as int, a, seq![], *options));
                assert(self@ == text_done(t, x as int, seq![], *options));
            }
        }
    }

    /// Joins adjacent texts outside links and images, and looks into them for check boxes of
    /// tasks and for addresses.
    pub fn postprocess_text_nodes<I: InlineParser>(
        &mut self,
        options: &ComrakOptions,
        finder: &mut I,
    )
        requires
            is_tree(old(self)@),
        ensures
            exists|links: Seq<Seq<LinkView>>| {
                &&& may_be_postprocessed(old(self)@, old(finder).addresses(), links, *options)
                &&& final(self)@ == #[trigger] postprocessed(old(self)@, links, *options)
            },
            is_tree(final(self)@),
            final(finder).finds() == old(finder).finds(),
            final(finder).addresses() == old(finder).addresses(),
    {
        let ghost t0 = self@;
        let ghost a = finder.addresses();
        let ghost f = finder.finds();
        let n: usize = self.len();
        let outside: Vec<bool> = self.join_texts();
        let ghost t = self@;
        let ghost mut links: Seq<Seq<LinkView>> = seq![];
        let mut x: usize = 0;
        while x < n
            invariant
                n == t.len(),
                x <= n,
                is_tree(self@),
                only_texts_changed(t, self@, n as int),
                links.len() == x,
                self@ == texts_done(t, x as int, links, *options),
                finder.finds() == f,
                finder.addresses() == a,
                all_may_be_done(t, x as int, a, links, *options),
                outside@.len() == n,
                forall|j: int| 0 <= j < n ==> #[trigger] outside@[j] == outside_links(t, j),
            decreases n - x,
        {
            let ghost u = self@;
            proof {
                assert(linked(u, x as int));
            }
            let free: bool = matches!(self.node(x).value, NodeValue::Text(_))
                && match self.node(x).parent {
                Some(p) => outside[p],
                None => false,
            };
            proof {
                match u[x as int].parent {
                    Some(p) => {
                        lemma_outside_links_kept(t, u, n as int, p);
                    },
                    None => {},
                }
            }
            if free {
                self.postprocess_text_node(x, options, finder);
                proof {
                    let l = choose|l: Seq<LinkView>|
                        may_be_done(u, x as int, a, l, *options) && self@ == #[trigger] text_done(
                            u,
                            x as int,
                            l,
                            *options,
                        );
                    lemma_texts_done_prefix(t, x as int, links, links.push(l), *options);
                    lemma_may_be_done_prefix(t, x as int, a, links, links.push(l), *options);
                    lemma_only_texts_changed(t, u, self@, n as int);
                    links = links.push(l);
                }
            } else {
                proof {
                    let more = links.push(seq![]);
                    lemma_texts_done_prefix(t, x as int, links, more, *options);
                    lemma_may_be_done_prefix(t, x as int, a, links, more, *options);
                    links = links.push(seq![]);
                }
            }
            x += 1;
        }
        proof {
            assert(self@ == postprocessed(t0, links, *options));
        }
    }
}

/// Only the addresses in the texts that have been looked into matter.
proof fn lemma_texts_done_prefix(
    t: Nodes,
    n: int,
    a: Seq<Seq<LinkView>>,
    b: Seq<Seq<LinkView>>,
    o: ComrakOptions,
)
    requires
        n <= a.len(),
        n <= b.len(),
        forall|k: int| 0 <= k < n ==> #[trigger] a[k] == b[k],
    ensures
        texts_done(t, n, a, o) == texts_done(t, n, b, o),
    decreases n,
{
    if n > 0 {
        lemma_texts_done_prefix(t, n - 1, a, b, o);
        assert(a[n - 1] == b[n - 1]);
    }
}

/// Only the addresses in the texts that have been looked into matter.
proof fn lemma_may_be_done_prefix(
    t: Nodes,
    n: int,
    a: Addresses,
    b: Seq<Seq<LinkView>>,
    c: Seq<Seq<LinkView>>,
    o: ComrakOptions,
)
    requires
        n <= b.len(),
        n <= c.len(),
        forall|k: int| 0 <= k < n ==> #[trigger] b[k] == c[k],
        all_may_be_done(t, n, a, b, o),
    ensures
        all_may_be_done(t, n, a, c, o),
    decreases n,
{
    if n > 0 {
        lemma_may_be_done_prefix(t, n - 1, a, b, c, o);
        lemma_texts_done_prefix(t, n - 1, b, c, o);
        assert(b[n - 1] == c[n - 1]);
    }
}

/// Texts are only joined where neither task items nor addresses are looked for.
pub proof fn law_nothing_found_unasked(t: Nodes, links: Seq<Seq<LinkView>>, o: ComrakOptions)
    requires
        !o.extension.tasklist,
        !o.extension.autolink,
    ensures
        postprocessed(t, links, o) == joined_up_to(t, t.len() as int),
{
    lemma_texts_untouched(joined_up_to(t, t.len() as int), t.len() as int, links, o);
}

/// Nothing is done to texts in which nothing is looked for.
proof fn lemma_texts_untouched(t: Nodes, n: int, links: Seq<Seq<LinkView>>, o: ComrakOptions)
    requires
        !o.extension.tasklist,
        !o.extension.autolink,
    ensures
        texts_done(t, n, links, o) == t,
    decreases n,
{
    if n > 0 {
        lemma_texts_untouched(t, n - 1, links, o);
    }
}

/// What making links does.
proof fn lemma_links_added(t: Nodes, p: int, k: int, x: int, links: Seq<LinkView>)
    requires
        is_tree(t),
        0 <= x < t.len(),
        t[x].value is Text,
        t[x].parent == Some(p),
        0 <= k < t[p].children.len(),
        t[p].children[k] == x,
    ensures
        is_tree(links_added(t, p, k, x, links)),
        only_texts_changed(t, links_added(t, p, k, x, links), t.len() as int),
    decreases links.len(),
{
    let b = encode_utf8(text_in(t[x].value));
    if links.len() > 0 && link_fits(b, links[0]) {
        lemma_link_split(t, p, k, x, links[0]);
        let u = link_split(t, p, k, x, links[0]);
        let end = links[0].end;
        if end < b.len() {
            let rest = inline_node(Value::Text(decode_utf8(b.subrange(end, b.len() as int))));
            lemma_rest_inserted(t, p, k, x, links[0], rest);
            let v = inserted(u, p, k + 2, rest);
            let more = links.subrange(1, links.len() as int);
            lemma_links_added(v, p, k + 2, u.len() as int, more);
            lemma_only_texts_changed(
                t,
                v,
                links_added(v, p, k + 2, u.len() as int, more),
                t.len() as int,
            );
        }
    }
}

/// What looking into a text does.
proof fn lemma_text_done(t: Nodes, x: int, links: Seq<LinkView>, o: ComrakOptions)
    requires
        is_tree(t),
        0 <= x < t.len(),
        t[x].value is Text,
    ensures
        is_tree(text_done(t, x, links, o)),
        only_texts_changed(t, text_done(t, x, links, o), t.len() as int),
{
    let u = task_looked_for(t, x, o);
    lemma_task_marked(t, x, o.parse.relaxed_tasklist_matching);
    if o.extension.autolink {
        assert(u[x].parent == t[x].parent);
        match u[x].parent {
            Some(p) => {
                assert(linked(u, x));
                let ch = u[p].children;
                let j = choose|j: int| 0 <= j < ch.len() && ch[j] == x;
                assert(ch[j] == x);
                lemma_place(ch, x, 0);
                lemma_links_added(u, p, place(ch, x, 0), x, links);
            },
            None => {},
        }
        lemma_only_texts_changed(t, u, text_linked(u, x, links), t.len() as int);
    }
}

/// What looking into texts does.
proof fn lemma_texts_done(t: Nodes, n: int, links: Seq<Seq<LinkView>>, o: ComrakOptions)
    requires
        is_tree(t),
        0 <= n <= t.len(),
    ensures
        is_tree(texts_done(t, n, links, o)),
        only_texts_changed(t, texts_done(t, n, links, o), t.len() as int),
    decreases n,
{
    if n > 0 {
        lemma_texts_done(t, n - 1, links, o);
        let u = texts_done(t, n - 1, links, o);
        if free_text(u, n - 1) {
            lemma_text_done(u, n - 1, links[n - 1], o);
            lemma_only_texts_changed(
                t,
                u,
                text_done(u, n - 1, links[n - 1], o),
                t.len() as int,
            );
        }
    }
}

/// What is found in texts changes only texts: all other nodes stay what they are, whatever is
/// found.
pub proof fn law_only_texts_change(t: Nodes, links: Seq<Seq<LinkView>>, o: ComrakOptions)
    requires
        is_tree(t),
    ensures
        is_tree(postprocessed(t, links, o)),
        postprocessed(t, links, o).len() >= t.len(),
        forall|j: int|
            0 <= j < t.len() && !((#[trigger] t[j]).value is Text) ==> {
                let u = postprocessed(t, links, o);
                u[j].value == t[j].value && u[j].open == t[j].open
            },
{
    let n = t.len() as int;
    lemma_joined_up_to(t, n);
    lemma_texts_done(joined_up_to(t, n), n, links, o);
}

} // verus!
