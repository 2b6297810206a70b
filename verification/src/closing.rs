//! What becomes of a block when no more lines belong to it.

use crate::ctype::{is_line_end_char, lemma_run_end, lemma_run_end_is, line_end_byte, run_end};
use crate::entity::{html_unescaped, unescape_html};
use crate::nodes::{CodeBlockView, NodeCodeBlock, NodeHtmlBlock, NodeList, NodeValue, Value};
use crate::options::text_of;
use crate::references::{
    lemma_stripped, resolve_reference_link_definitions, stripped, RefMap, ReferenceView,
};
use crate::scanners::index_of;
use crate::strings::{
    blank_text, inner_bytes, lemma_trimmed_valid, lemma_without_trailing_blank_lines,
    remove_trailing_blank_lines, trim_slice, trimmed, unescape, unescaped,
    without_trailing_blank_lines,
};
use crate::text::{
    copy_range, lemma_boundary_at_ascii, lemma_valid_ascii, lemma_valid_between, lemma_valid_push,
    string_from_utf8,
};
use crate::tree::{
    detached, is_tree, last_child, lemma_detached, lemma_same_shape, linked, same_shape, AstNode,
    NodeView, Nodes, Tree,
};
use vstd::prelude::*;
use vstd::slice::slice_subrange;
use vstd::utf8::{decode_utf8, is_char_boundary_start_end_of_seq, valid_utf8};

verus! {

/// The references known so far.
pub type References = Map<Seq<char>, ReferenceView>;

/// The end of the first line of `s`.
pub open spec fn first_line_end(s: Seq<u8>) -> int {
    run_end(s, 0, inner_bytes())
}

/// Where the second line of `s` starts.
pub open spec fn second_line(s: Seq<u8>) -> int {
    let e = first_line_end(s);
    let f = if s[e] == 13 {
        e + 1
    } else {
        e
    };
    if s[f] == 10 {
        f + 1
    } else {
        f
    }
}

/// The info string of a fence that is followed by `s`: its entities replaced, trimmed, and its
/// escapes removed, in this order.
pub open spec fn info_bytes(s: Seq<u8>) -> Seq<u8> {
    unescaped(trimmed(html_unescaped(s)))
}

/// A code block with the text gathered for it. The first line of a fenced one is its info
/// string; where it has none, `default_info` takes its place.
pub open spec fn finished_code(
    b: CodeBlockView,
    content: Seq<u8>,
    default_info: Option<Seq<char>>,
) -> CodeBlockView {
    if b.fenced {
        let info = info_bytes(content.subrange(0, first_line_end(content)));
        CodeBlockView {
            info: if info.len() > 0 {
                decode_utf8(info)
            } else {
                match default_info {
                    Some(t) => t,
                    None => seq![],
                }
            },
            literal: decode_utf8(
                content.subrange(second_line(content), content.len() as int),
            ),
            ..b
        }
    } else {
        CodeBlockView {
            literal: decode_utf8(without_trailing_blank_lines(content).push(10)),
            ..b
        }
    }
}

/// Whether `i` ends with a blank line, itself or through the last of its items.
pub open spec fn ends_blank(t: Nodes, i: int) -> bool
    decreases t.len() - i,
{
    ||| t[i].last_line_blank
    ||| {
        &&& t[i].value is List || t[i].value is Item
        &&& last_child(t, i) matches Some(c) && i < c < t.len() && ends_blank(t, c)
    }
}

/// Whether a blank line follows block `b` of item `a`, and something in the list after it.
pub open spec fn blank_after(t: Nodes, items: Seq<int>, a: int, b: int) -> bool {
    let subs = t[items[a]].children;
    &&& 0 <= b < subs.len()
    &&& a + 1 < items.len() || b + 1 < subs.len()
    &&& ends_blank(t, subs[b])
}

/// Whether item `a` makes its list loose.
pub open spec fn loose_item(t: Nodes, items: Seq<int>, a: int) -> bool {
    ||| t[items[a]].last_line_blank && a + 1 < items.len()
    ||| exists|b: int| blank_after(t, items, a, b)
}

/// Whether no two blocks in the list `i` are separated by a blank line.
pub open spec fn tight(t: Nodes, i: int) -> bool {
    forall|a: int| 0 <= a < t[i].children.len() ==> !#[trigger] loose_item(t, t[i].children, a)
}

/// What `i` becomes when it is closed.
pub open spec fn closed(
    t: Nodes,
    refs: References,
    i: int,
    default_info: Option<Seq<char>>,
) -> NodeView {
    let n = NodeView { open: false, ..t[i] };
    match n.value {
        Value::Paragraph => NodeView { content: stripped(n.content, refs).0, ..n },
        Value::CodeBlock(b) => NodeView {
            value: Value::CodeBlock(finished_code(b, n.content, default_info)),
            content: seq![],
            ..n
        },
        Value::HtmlBlock(k, _) => NodeView {
            value: Value::HtmlBlock(k, decode_utf8(n.content)),
            content: seq![],
            ..n
        },
        Value::List(nl) => NodeView {
            value: Value::List(NodeList { tight: tight(t, i), ..nl }),
            ..n
        },
        _ => n,
    }
}

/// The nodes and the references when `i` is closed. A paragraph of which nothing is left is
/// taken out.
pub open spec fn finalized(
    t: Nodes,
    refs: References,
    i: int,
    default_info: Option<Seq<char>>,
) -> (Nodes, References) {
    let u = t.update(i, closed(t, refs, i, default_info));
    if t[i].value is Paragraph {
        let (rest, m) = stripped(t[i].content, refs);
        (
            if blank_text(rest) {
                detached(u, i)
            } else {
                u
            },
            m,
        )
    } else {
        (u, refs)
    }
}

/// What holds of every single node: its text is text, what its kind needs to be parsed on is in
/// order, and an open fenced code block holds the line of its fence.
pub open spec fn sound(n: NodeView) -> bool {
    &&& valid_utf8(n.content)
    &&& kind_sound(n.value)
}

/// Whether what an open block is parsed on by is in order.
pub open spec fn kind_sound(v: Value) -> bool {
    match v {
        Value::HtmlBlock(k, _) => 1 <= k <= 7,
        Value::Item(nl) => nl.marker_offset + nl.padding <= usize::MAX,
        Value::DescriptionItem(di) => di.marker_offset + di.padding <= usize::MAX,
        _ => true,
    }
}

/// A fenced code block has its first line.
pub open spec fn fence_read(n: NodeView) -> bool {
    match n.value {
        Value::CodeBlock(b) => n.open && b.fenced ==> n.content.len() > 0 && n.content.last() == 10,
        _ => true,
    }
}

/// Where the first line of text that ends with a line feed ends, and what lies on either side.
proof fn lemma_first_line(s: Seq<u8>)
    requires
        valid_utf8(s),
        s.len() > 0,
        s.last() == 10,
    ensures
        0 <= first_line_end(s) < second_line(s) <= s.len(),
        s[first_line_end(s)] == 13 ==> first_line_end(s) + 1 < s.len(),
        valid_utf8(s.subrange(0, first_line_end(s))),
        valid_utf8(s.subrange(second_line(s), s.len() as int)),
{
    let e = first_line_end(s);
    lemma_run_end(s, 0, inner_bytes());
    if e == s.len() {
        assert(inner_bytes()(s[s.len() - 1]));
    }
    assert(line_end_byte(s[e]));
    is_char_boundary_start_end_of_seq(s);
    lemma_boundary_at_ascii(s, e);
    lemma_valid_between(s, 0, e);
    let f = second_line(s);
    lemma_boundary_at_ascii(s, f - 1);
    lemma_valid_between(s, f, s.len() as int);
}

/// The nodes stay sound, and a tree, when one is closed.
pub proof fn lemma_finalized(
    t: Nodes,
    refs: References,
    i: int,
    default_info: Option<Seq<char>>,
)
    requires
        is_tree(t),
        0 <= i < t.len(),
        sound(t[i]),
    ensures
        ({
            let u = finalized(t, refs, i, default_info).0;
            &&& is_tree(u)
            &&& sound(u[i])
            &&& u.len() == t.len()
            &&& !u[i].open
            &&& u[i].children == t[i].children
            &&& forall|j: int|
                0 <= j < t.len() && j != i ==> {
                    &&& (#[trigger] u[j]) == NodeView { children: u[j].children, ..t[j] }
                    &&& t[i].parent != Some(j) || !(t[i].value is Paragraph) ==> u[j] == t[j]
                }
            &&& !(t[i].value is Paragraph) ==> u[i].parent == t[i].parent
        }),
{
    let v = t.update(i, closed(t, refs, i, default_info));
    assert(same_shape(t, v));
    lemma_same_shape(t, v);
    lemma_detached(v, i);
    assert(linked(t, i));
    lemma_stripped(t[i].content, refs);
    lemma_valid_ascii(Seq::<u8>::empty());
}

/// Closes the code block `ncb` with the text gathered for it.
fn finish_code(ncb: &NodeCodeBlock, content: Vec<u8>, default_info: &Option<String>) -> (r:
    NodeCodeBlock)
    requires
        valid_utf8(content@),
        ncb.fenced ==> content@.len() > 0 && content@.last() == 10,
    ensures
        r@ == finished_code(ncb@, content@, text_of(*default_info)),
{
    let mut text: Vec<u8> = content;
    if !ncb.fenced {
        remove_trailing_blank_lines(&mut text);
        text.push(10);
        proof {
            lemma_without_trailing_blank_lines(content@);
            lemma_valid_push(without_trailing_blank_lines(content@), 10);
        }
        return NodeCodeBlock {
            fenced: ncb.fenced,
            fence_char: ncb.fence_char,
            fence_length: ncb.fence_length,
            fence_offset: ncb.fence_offset,
            info: ncb.info.clone(),
            literal: string_from_utf8(text),
        };
    }
    let n: usize = text.len();
    let mut pos: usize = 0;
    while pos < n && !is_line_end_char(text[pos])
        invariant
            n == text@.len(),
            pos <= n,
            forall|k: int| 0 <= k < pos ==> inner_bytes()(#[trigger] text@[k]),
        decreases n - pos,
    {
        pos += 1;
    }
    proof {
        lemma_run_end_is(text@, 0, pos as int, inner_bytes());
        lemma_first_line(text@);
    }
    let entities: Vec<u8> = unescape_html(slice_subrange(text.as_slice(), 0, pos));
    proof {
        lemma_trimmed_valid(entities@);
    }
    let tmp: Vec<u8> = unescape(trim_slice(entities.as_slice()).as_slice());
    let info: String = if tmp.len() == 0 {
        match default_info {
            Some(s) => s.clone(),
            None => String::new(),
        }
    } else {
        string_from_utf8(tmp)
    };
    if text[pos] == 13 {
        pos += 1;
    }
    if text[pos] == 10 {
        pos += 1;
    }
    let r = NodeCodeBlock {
        fenced: ncb.fenced,
        fence_char: ncb.fence_char,
        fence_length: ncb.fence_length,
        fence_offset: ncb.fence_offset,
        info,
        literal: string_from_utf8(copy_range(text.as_slice(), pos, n)),
    };
    proof {
        assert(r@ =~= finished_code(ncb@, content@, text_of(*default_info)));
    }
    r
}

impl<'a> Tree<'a> {
    /// Whether `node` ends with a blank line, itself or through the last of its items.
    pub fn ends_with_blank_line(&self, node: usize) -> (r: bool)
        requires
            is_tree(self@),
            node < self@.len(),
        ensures
            r == ends_blank(self@, node as int),
    {
        let mut cur: usize = node;
        loop
            invariant
                is_tree(self@),
                cur < self@.len(),
                ends_blank(self@, node as int) == ends_blank(self@, cur as int),
            decreases self@.len() - cur,
        {
            proof {
                assert(linked(self@, cur as int));
            }
            let n: &AstNode = self.node(cur);
            if n.last_line_blank {
                return true;
            }
            let items: bool = match &n.value {
                NodeValue::List(_) | NodeValue::Item(_) => true,
                _ => false,
            };
            if !items {
                return false;
            }
            match self.last_child(cur) {
                Some(c) => {
                    proof {
                        let ch = self@[cur as int].children;
                        assert(ch[ch.len() - 1] == c);
                    }
                    cur = c;
                },
                None => return false,
            }
        }
    }

    /// Whether item `a` makes the list `list` loose.
    fn item_is_loose(&self, list: usize, a: usize) -> (r: bool)
        requires
            is_tree(self@),
            list < self@.len(),
            a < self@[list as int].children.len(),
        ensures
            r == loose_item(self@, self@[list as int].children, a as int),
    {
        let ghost items = self@[list as int].children;
        proof {
            assert(linked(self@, list as int));
        }
        let more: bool = self.nodes[list].children.len() - a > 1;
        let item: usize = self.nodes[list].children[a];
        proof {
            assert(items[a as int] == item);
            assert(linked(self@, item as int));
        }
        if self.nodes[item].last_line_blank && more {
            return true;
        }
        let n: usize = self.nodes[item].children.len();
        let mut b: usize = 0;
        while b < n
            invariant
                is_tree(self@),
                b <= n,
                item < self@.len(),
                a < items.len(),
                items == self@[list as int].children,
                items[a as int] == item,
                more == (a + 1 < items.len()),
                n == self@[item as int].children.len(),
                linked(self@, item as int),
                forall|k: int| 0 <= k < b ==> !#[trigger] blank_after(self@, items, a as int, k),
            decreases n - b,
        {
            let sub: usize = self.nodes[item].children[b];
            proof {
                assert(self@[item as int].children[b as int] == sub);
            }
            if (more || n - b > 1) && self.ends_with_blank_line(sub) {
                proof {
                    assert(blank_after(self@, items, a as int, b as int));
                }
                return true;
            }
            b += 1;
        }
        false
    }

    /// Whether no two blocks in `list` are separated by a blank line.
    pub fn is_tight(&self, list: usize) -> (r: bool)
        requires
            is_tree(self@),
            list < self@.len(),
        ensures
            r == tight(self@, list as int),
    {
        let n: usize = self.nodes[list].children.len();
        let mut a: usize = 0;
        while a < n
            invariant
                is_tree(self@),
                list < self@.len(),
                a <= n,
                n == self@[list as int].children.len(),
                forall|k: int|
                    0 <= k < a ==> !#[trigger] loose_item(
                        self@,
                        self@[list as int].children,
                        k,
                    ),
            decreases n - a,
        {
            if self.item_is_loose(list, a) {
                return false;
            }
            a += 1;
        }
        true
    }

    /// Closes `node`, and gives its parent.
    pub fn finalize(
        &mut self,
        node: usize,
        refmap: &mut RefMap,
        default_info: &Option<String>,
    ) -> (r: Option<usize>)
        requires
            is_tree(old(self)@),
            node < old(self)@.len(),
            old(self)@[node as int].open,
            sound(old(self)@[node as int]),
            fence_read(old(self)@[node as int]),
        ensures
            (final(self)@, final(refmap)@) == finalized(
                old(self)@,
                old(refmap)@,
                node as int,
                text_of(*default_info),
            ),
            final(refmap).max_ref_size == old(refmap).max_ref_size,
            index_of(r) == old(self)@[node as int].parent,
    {
        let ghost t = self@;
        let parent: Option<usize> = self.nodes[node].parent;
        let mut gone: bool = false;
        match &self.nodes[node].value {
            NodeValue::Paragraph => {
                let n: usize = self.nodes[node].content.len();
                let mut content: Vec<u8> = copy_range(self.nodes[node].content.as_slice(), 0, n);
                proof {
                    assert(content@ =~= t[node as int].content);
                }
                gone = !resolve_reference_link_definitions(&mut content, refmap);
                self.nodes[node].content = content;
            },
            NodeValue::CodeBlock(ncb) => {
                let n: usize = self.nodes[node].content.len();
                let content: Vec<u8> = copy_range(self.nodes[node].content.as_slice(), 0, n);
                proof {
                    assert(content@ =~= t[node as int].content);
                }
                let done = finish_code(ncb, content, default_info);
                self.nodes[node].value = NodeValue::CodeBlock(done);
                self.nodes[node].content = Vec::new();
            },
            NodeValue::HtmlBlock(nhb) => {
                let n: usize = self.nodes[node].content.len();
                let content: Vec<u8> = copy_range(self.nodes[node].content.as_slice(), 0, n);
                proof {
                    assert(content@ =~= t[node as int].content);
                }
                let done = NodeHtmlBlock {
                    block_type: nhb.block_type,
                    literal: string_from_utf8(content),
                };
                self.nodes[node].value = NodeValue::HtmlBlock(done);
                self.nodes[node].content = Vec::new();
            },
            NodeValue::List(nl) => {
                let list: NodeList = *nl;
                let tight: bool = self.is_tight(node);
                self.nodes[node].value = NodeValue::List(NodeList { tight, ..list });
            },
            _ => {},
        }
        self.nodes[node].open = false;
        let ghost u = t.update(
            node as int,
            closed(t, old(refmap)@, node as int, text_of(*default_info)),
        );
        proof {
            assert(self@ =~= u);
            assert(same_shape(t, u));
            lemma_same_shape(t, u);
        }
        if gone {
            self.detach(node);
        }
        parent
    }
}

} // verus!
