//! Description lists.

use crate::blocks::{
    all_open, around, child_added, fences_read, in_motion, lemma_block_appended, lemma_child_added,
    lemma_last_child, lemma_open_up_to_frame, lemma_paragraph_taken_out, lemma_spine_frame,
    open_up_to, orderly, paragraph_at, spine, untouched, Blocks,
};
use crate::closing::{fence_read, sound};
use crate::nodes::{NodeDescriptionItem, NodeValue, Value};
use crate::parser::{Parser, ParserView};
use crate::text::copy_range;
use crate::tree::{
    appended, detached, fresh, is_tree, last_child, last_open, lemma_same_shape, linked, same_shape,
    AstNode, NodeView, Nodes, Tree,
};
use vstd::prelude::*;

verus! {

/// The nodes with `i`, and all that it is in, open.
pub open spec fn reopened(t: Nodes, i: int) -> Nodes
    decreases i,
{
    let u = t.update(i, NodeView { open: true, ..t[i] });
    match t[i].parent {
        Some(p) => if 0 <= p < i {
            reopened(u, p)
        } else {
            u
        },
        None => u,
    }
}

/// The description list at the end of `i`.
pub open spec fn list_at_end(t: Nodes, i: int) -> Option<int> {
    match last_child(t, i) {
        Some(l) => if t[l].value is DescriptionList {
            Some(l)
        } else {
            None
        },
        None => None,
    }
}

/// The blocks with a description list at the end of `i` that can take an item; and that list.
pub open spec fn list_ready(b: Blocks, i: int, start_line: int, info: Option<Seq<char>>) -> (
    Blocks,
    int,
) {
    match list_at_end(b.nodes, i) {
        Some(l) => (Blocks { nodes: reopened(b.nodes, l), ..b }, l),
        None => child_added(b, i, Value::DescriptionList, start_line, info),
    }
}

/// The blocks when the paragraph at the end of `i` has become the term of a description item,
/// and a place for the details of it. A description list before the paragraph takes the item;
/// otherwise a new one does.
pub open spec fn details_opened(
    b: Blocks,
    i: int,
    indent: usize,
    start_line: int,
    info: Option<Seq<char>>,
) -> (Blocks, int) {
    let x = last_child(b.nodes, i)->0;
    let b1 = Blocks { nodes: detached(b.nodes, x), ..b };
    let (b2, list) = list_ready(b1, i, start_line, info);
    let (b3, item) = child_added(
        b2,
        list,
        Value::DescriptionItem(NodeDescriptionItem { marker_offset: indent, padding: 2 }),
        start_line,
        info,
    );
    let (b4, term) = child_added(b3, item, Value::DescriptionTerm, start_line, info);
    let b5 = Blocks {
        nodes: appended(b4.nodes, term, NodeView { children: seq![], ..b.nodes[x] }),
        ..b4
    };
    child_added(b5, item, Value::DescriptionDetails, start_line, info)
}

/// Nothing on the way up to the root needs to be opened.
proof fn lemma_reopened_spine(t: Nodes, i: int, s: Set<int>)
    requires
        spine(t, i, s),
    ensures
        reopened(t, i) == t,
    decreases i,
{
    let u = t.update(i, NodeView { open: true, ..t[i] });
    assert(u =~= t);
    match t[i].parent {
        Some(p) => {
            lemma_reopened_spine(t, p, s);
        },
        None => {},
    }
}

/// A closed block at the end of what a line has reached is opened.
proof fn lemma_reopened(t: Nodes, i: int, l: int, s: Set<int>)
    requires
        orderly(t),
        all_open(t, s),
        spine(t, i, s),
        last_child(t, i) == Some(l),
        !t[l].open,
        !(t[l].value is CodeBlock),
    ensures
        ({
            let u = reopened(t, l);
            &&& u == t.update(l, NodeView { open: true, ..t[l] })
            &&& orderly(u)
            &&& spine(u, l, s)
            &&& fences_read(t, -1) ==> fences_read(u, -1)
        }),
{
    lemma_last_child(t, i);
    let u = t.update(l, NodeView { open: true, ..t[l] });
    lemma_spine_frame(t, u, i, s);
    lemma_reopened_spine(u, i, s);
    assert(same_shape(t, u));
    lemma_same_shape(t, u);
    assert forall|j: int| 0 <= j < u.len() implies sound(#[trigger] u[j]) by {
        assert(sound(t[j]));
    }
    assert forall|j: int, k: int| 0 <= j < u.len() && #[trigger] paragraph_at(
        u,
        j,
        k,
    ) implies !u[u[j].children[k - 1]].open by {
        assert(linked(t, j));
        assert(u[j].children == t[j].children);
        assert(t[j].children[k] == u[j].children[k]);
        assert(paragraph_at(t, j, k));
        let before = t[j].children[k - 1];
        if before == l {
            assert(t[before].parent == Some(j));
            let ch = t[i].children;
            assert(ch[ch.len() - 1] == ch[k - 1]);
        }
    }
    if fences_read(t, -1) {
        assert forall|j: int| 0 <= j < u.len() && j != -1 implies fence_read(#[trigger] u[j]) by {
            assert(fence_read(t[j]));
        }
    }
}

/// What blocks are open up to is around them.
pub proof fn lemma_open_up_to_around(t: Nodes, i: int, m: int, s: Set<int>)
    requires
        open_up_to(t, i, m, s),
        0 <= m,
    ensures
        around(t, m, i),
    decreases i - m,
{
    if i != m {
        lemma_open_up_to_around(t, t[i].parent->0, m, s);
    }
}

/// What making a description list ready does.
proof fn lemma_list_ready(
    b: Blocks,
    i: int,
    start_line: int,
    info: Option<Seq<char>>,
    s: Set<int>,
)
    requires
        orderly(b.nodes),
        fences_read(b.nodes, -1),
        all_open(b.nodes, s),
        spine(b.nodes, i, s),
        !last_open(b.nodes, i),
    ensures
        ({
            let (r, list) = list_ready(b, i, start_line, info);
            &&& orderly(r.nodes)
            &&& fences_read(r.nodes, -1)
            &&& spine(r.nodes, list, s)
            &&& untouched(b.nodes, r.nodes, s)
            &&& r.nodes[list].value is DescriptionList
        }),
{
    lemma_last_child(b.nodes, i);
    match list_at_end(b.nodes, i) {
        Some(l) => {
            lemma_reopened(b.nodes, i, l, s);
        },
        None => {
            lemma_child_added(b, i, Value::DescriptionList, start_line, info, s);
        },
    }
}

/// The place for the details is what the line has reached.
#[verifier::rlimit(40)]
pub proof fn lemma_details_opened(
    b: Blocks,
    i: int,
    indent: usize,
    start_line: int,
    info: Option<Seq<char>>,
    current: int,
    m: int,
    s: Set<int>,
)
    requires
        in_motion(b.nodes, i, current, m, s),
        fences_read(b.nodes, -1),
        last_child(b.nodes, i) is Some,
        b.nodes[last_child(b.nodes, i)->0].value is Paragraph,
        !b.nodes[last_child(b.nodes, i)->0].open,
        indent + 2 <= usize::MAX,
    ensures
        ({
            let (r, id) = details_opened(b, i, indent, start_line, info);
            &&& in_motion(r.nodes, id, current, m, s)
            &&& fences_read(r.nodes, -1)
            &&& r.nodes[id].value is DescriptionDetails
            &&& id >= b.nodes.len()
        }),
{
    let t = b.nodes;
    let x = last_child(t, i)->0;
    lemma_last_child(t, i);
    let b1 = Blocks { nodes: detached(t, x), ..b };
    let t1 = b1.nodes;
    lemma_paragraph_taken_out(t, x);
    lemma_spine_frame(t, t1, i, s);
    assert(fences_read(t1, -1)) by {
        assert forall|j: int| 0 <= j < t1.len() && j != -1 implies fence_read(#[trigger] t1[j]) by {
            assert(fence_read(t[j]));
        }
    }
    assert(untouched(t, t1, s));
    assert(all_open(t1, s));
    lemma_last_child(t1, i);
    lemma_list_ready(b1, i, start_line, info, s);
    let (b2, list) = list_ready(b1, i, start_line, info);
    let t2 = b2.nodes;
    assert(untouched(t, t2, s));
    assert(all_open(t2, s));
    let v = Value::DescriptionItem(NodeDescriptionItem { marker_offset: indent, padding: 2 });
    lemma_child_added(b2, list, v, start_line, info, s);
    let (b3, item) = child_added(b2, list, v, start_line, info);
    let t3 = b3.nodes;
    assert(all_open(t3, s));
    lemma_child_added(b3, item, Value::DescriptionTerm, start_line, info, s);
    let (b4, term) = child_added(b3, item, Value::DescriptionTerm, start_line, info);
    let t4 = b4.nodes;
    assert(all_open(t4, s));
    assert(t4 == appended(t3, item, fresh(Value::DescriptionTerm, start_line)));
    let n = NodeView { children: seq![], ..t[x] };
    assert(sound(t[x]));
    lemma_block_appended(t4, term, n, s);
    let t5 = appended(t4, term, n);
    let b5 = Blocks { nodes: t5, ..b4 };
    assert(untouched(t4, t5, s));
    assert(all_open(t5, s));
    lemma_spine_frame(t3, t5, item, s);
    assert(t5[item].value == v);
    lemma_child_added(b5, item, Value::DescriptionDetails, start_line, info, s);
    let (b6, id) = child_added(b5, item, Value::DescriptionDetails, start_line, info);
    assert(untouched(t, b6.nodes, s));
    lemma_open_up_to_frame(t, b6.nodes, current, m, s);
    assert(all_open(b6.nodes, s));
}

impl<'a> Tree<'a> {
    /// Opens `node` and all that it is in.
    pub fn reopen_ast_nodes(&mut self, node: usize)
        requires
            is_tree(old(self)@),
            node < old(self)@.len(),
        ensures
            final(self)@ == reopened(old(self)@, node as int),
    {
        let mut i: usize = node;
        loop
            invariant_except_break
                i < self@.len(),
                is_tree(self@),
                reopened(old(self)@, node as int) == reopened(self@, i as int),
            ensures
                self@ == reopened(old(self)@, node as int),
            decreases i,
        {
            let ghost t = self@;
            proof {
                assert(linked(t, i as int));
            }
            self.nodes[i].open = true;
            proof {
                assert(self@ =~= t.update(i as int, NodeView { open: true, ..t[i as int] }));
                assert(same_shape(t, self@));
                lemma_same_shape(t, self@);
            }
            match self.nodes[i].parent {
                Some(p) => {
                    i = p;
                },
                None => break,
            }
        }
    }
}

impl<'a, 'o> Parser<'a, 'o> {
    /// Takes the paragraph at the end of `container` out, and gives a copy of it.
    #[verifier::rlimit(60)]
    fn take_term(&mut self, container: usize) -> (r: AstNode)
        requires
            orderly(old(self)@.blocks.nodes),
            fences_read(old(self)@.blocks.nodes, -1),
            spine(old(self)@.blocks.nodes, container as int, Set::empty()),
            last_child(old(self)@.blocks.nodes, container as int) is Some,
            ({
                let x = last_child(old(self)@.blocks.nodes, container as int)->0;
                &&& old(self)@.blocks.nodes[x].value is Paragraph
                &&& !old(self)@.blocks.nodes[x].open
            }),
        ensures
            ({
                let t = old(self)@.blocks.nodes;
                let x = last_child(t, container as int)->0;
                let b = Blocks { nodes: detached(t, x), ..old(self)@.blocks };
                &&& final(self)@ == (ParserView { blocks: b, ..old(self)@ })
                &&& r@ == (NodeView { parent: None, children: seq![], ..t[x] })
                &&& orderly(b.nodes)
                &&& fences_read(b.nodes, -1)
                &&& spine(b.nodes, container as int, Set::empty())
                &&& !last_open(b.nodes, container as int)
                &&& sound(r@)
            }),
    {
        let ghost t = self@.blocks.nodes;
        proof {
            lemma_last_child(t, container as int);
        }
        let x: usize = self.tree.last_child(container).unwrap();
        let n: usize = self.tree.node(x).content.len();
        let copy = AstNode {
            value: NodeValue::Paragraph,
            content: copy_range(self.tree.node(x).content.as_slice(), 0, n),
            start_line: self.tree.node(x).start_line,
            open: false,
            last_line_blank: self.tree.node(x).last_line_blank,
            table_visited: self.tree.node(x).table_visited,
            parent: None,
            children: Vec::new(),
        };
        proof {
            assert(copy@.content =~= t[x as int].content);
            assert(copy@.children =~= Seq::<int>::empty());
            assert(sound(t[x as int]));
        }
        self.tree.detach(x);
        proof {
            let t1 = self@.blocks.nodes;
            lemma_paragraph_taken_out(t, x as int);
            lemma_spine_frame(t, t1, container as int, Set::empty());
            assert forall|j: int| 0 <= j < t1.len() && j != -1 implies fence_read(
                #[trigger] t1[j],
            ) by {
                assert(fence_read(t[j]));
            }
        }
        copy
    }

    /// Gives the description list at the end of `container` that takes the next item.
    #[verifier::rlimit(60)]
    fn ready_list(&mut self, container: usize) -> (r: usize)
        requires
            orderly(old(self)@.blocks.nodes),
            fences_read(old(self)@.blocks.nodes, -1),
            spine(old(self)@.blocks.nodes, container as int, Set::empty()),
            !last_open(old(self)@.blocks.nodes, container as int),
        ensures
            ({
                let (b, list) = list_ready(
                    old(self)@.blocks,
                    container as int,
                    old(self)@.line_number,
                    old(self)@.info(),
                );
                &&& final(self)@ == (ParserView { blocks: b, ..old(self)@ })
                &&& r == list
                &&& orderly(b.nodes)
                &&& fences_read(b.nodes, -1)
                &&& spine(b.nodes, list, Set::empty())
                &&& b.nodes[list].value is DescriptionList
            }),
    {
        proof {
            lemma_last_child(self@.blocks.nodes, container as int);
            lemma_list_ready(
                self@.blocks,
                container as int,
                self@.line_number,
                self@.info(),
                Set::empty(),
            );
        }
        match self.tree.last_child(container) {
            Some(l) => if matches!(self.tree.node(l).value, NodeValue::DescriptionList) {
                self.tree.reopen_ast_nodes(l);
                return l;
            },
            None => {},
        }
        self.add_child(container, NodeValue::DescriptionList)
    }

    /// Makes the paragraph at the end of `container` the term of a description item, and gives
    /// the place for its details.
    #[verifier::rlimit(80)]
    pub fn parse_desc_list_details(&mut self, container: usize) -> (r: usize)
        requires
            orderly(old(self)@.blocks.nodes),
            fences_read(old(self)@.blocks.nodes, -1),
            spine(old(self)@.blocks.nodes, container as int, Set::empty()),
            last_child(old(self)@.blocks.nodes, container as int) is Some,
            ({
                let x = last_child(old(self)@.blocks.nodes, container as int)->0;
                &&& old(self)@.blocks.nodes[x].value is Paragraph
                &&& !old(self)@.blocks.nodes[x].open
            }),
            old(self)@.cursor.indent + 2 <= usize::MAX,
        ensures
            ({
                let (b, id) = details_opened(
                    old(self)@.blocks,
                    container as int,
                    old(self).cursor.indent,
                    old(self)@.line_number,
                    old(self)@.info(),
                );
                &&& final(self)@ == (ParserView { blocks: b, ..old(self)@ })
                &&& r == id
            }),
    {
        let ghost s = Set::<int>::empty();
        let ghost info = self@.info();
        let ghost line = self@.line_number;
        let ghost t = self@.blocks.nodes;
        let ghost x = last_child(t, container as int)->0;
        let copy: AstNode = self.take_term(container);
        let list: usize = self.ready_list(container);
        let metadata = NodeDescriptionItem { marker_offset: self.cursor.indent, padding: 2 };
        proof {
            lemma_child_added(
                self@.blocks,
                list as int,
                Value::DescriptionItem(metadata),
                line,
                info,
                s,
            );
        }
        let item: usize = self.add_child(list, NodeValue::DescriptionItem(metadata));
        let ghost t3 = self@.blocks.nodes;
        proof {
            lemma_child_added(self@.blocks, item as int, Value::DescriptionTerm, line, info, s);
        }
        let term: usize = self.add_child(item, NodeValue::DescriptionTerm);
        let ghost t4 = self@.blocks.nodes;
        proof {
            lemma_block_appended(t4, term as int, copy@, s);
        }
        self.tree.append(term, copy);
        proof {
            let t5 = self@.blocks.nodes;
            assert(t5 == appended(
                t4,
                term as int,
                NodeView { children: seq![], ..t[x] },
            ));
            lemma_spine_frame(t3, t5, item as int, s);
        }
        self.add_child(item, NodeValue::DescriptionDetails)
    }
}

} // verus!
