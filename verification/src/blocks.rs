//! The open blocks of a document, and what holds of them between and inside lines.

use crate::closing::{closed, fence_read, finalized, kind_sound, lemma_finalized, sound, References};
use crate::nodes::Value;
use crate::references::lemma_stripped;
use crate::text::lemma_valid_ascii;
use crate::tree::{
    appended, detached, fresh, inserted, is_tree, last_child, last_open, lemma_appended,
    lemma_detached, lemma_inserted, lemma_same_shape, lemma_without_at, linked, same_shape,
    NodeView, Nodes,
};
use vstd::prelude::*;

verus! {

/// The nodes, and the references that closed paragraphs have defined.
#[verifier::ext_equal]
pub struct Blocks {
    pub nodes: Nodes,
    pub refs: References,
}

/// The blocks when `i` is closed.
pub open spec fn close(b: Blocks, i: int, info: Option<Seq<char>>) -> Blocks {
    let (nodes, refs) = finalized(b.nodes, b.refs, i, info);
    Blocks { nodes, refs }
}

/// The blocks when `p`, and one after the other what it is in, are closed until a block is met
/// that can contain `v`; and that block.
pub open spec fn made_room(b: Blocks, p: int, v: Value, info: Option<Seq<char>>) -> (Blocks, int)
    decreases p,
{
    if b.nodes[p].value.can_contain(v) {
        (b, p)
    } else {
        match b.nodes[p].parent {
            Some(q) => if 0 <= q < p {
                made_room(close(b, p, info), q, v, info)
            } else {
                (b, p)
            },
            None => (b, p),
        }
    }
}

/// The blocks with a new one in `p` or, where `p` cannot contain it, in the first block around
/// it that can; and the new block.
pub open spec fn child_added(
    b: Blocks,
    p: int,
    v: Value,
    start_line: int,
    info: Option<Seq<char>>,
) -> (Blocks, int) {
    let (r, q) = made_room(b, p, v, info);
    (
        Blocks { nodes: appended(r.nodes, q, fresh(v, start_line)), ..r },
        r.nodes.len() as int,
    )
}

/// Whether child `k` of `i` is a paragraph that another child stands before.
pub open spec fn paragraph_at(t: Nodes, i: int, k: int) -> bool {
    0 < k < t[i].children.len() && t[t[i].children[k]].value is Paragraph
}

/// What stands before a paragraph is closed.
pub open spec fn settled(t: Nodes) -> bool {
    forall|i: int, k: int|
        0 <= i < t.len() && #[trigger] paragraph_at(t, i, k) ==> !t[t[i].children[k - 1]].open
}

/// The nodes are a document in the making.
pub open spec fn orderly(t: Nodes) -> bool {
    &&& is_tree(t)
    &&& t[0].value is Document
    &&& forall|i: int| 0 <= i < t.len() ==> sound(#[trigger] t[i])
    &&& settled(t)
}

/// Every fenced code block, but for `x`, has its first line.
pub open spec fn fences_read(t: Nodes, x: int) -> bool {
    forall|i: int| 0 <= i < t.len() && i != x ==> fence_read(#[trigger] t[i])
}

/// From `i` up to the root, each block is open, the last one in the block around it, and not in
/// `s`.
pub open spec fn spine(t: Nodes, i: int, s: Set<int>) -> bool
    decreases i,
{
    &&& 0 <= i < t.len()
    &&& t[i].open
    &&& !s.contains(i)
    &&& match t[i].parent {
        Some(p) => 0 <= p < i && last_child(t, p) == Some(i) && spine(t, p, s),
        None => i == 0,
    }
}

/// From `i` up to `m`, but for `m` itself, each block is open and in `s`.
pub open spec fn open_up_to(t: Nodes, i: int, m: int, s: Set<int>) -> bool
    decreases i - m,
{
    i == m || {
        &&& m < i < t.len()
        &&& t[i].open
        &&& s.contains(i)
        &&& t[i].parent matches Some(p) && m <= p < i && open_up_to(t, p, m, s)
    }
}

/// The open blocks that are younger than `m`.
pub open spec fn open_after(t: Nodes, m: int) -> Set<int> {
    Set::new(|j: int| m < j < t.len() && t[j].open)
}

/// All blocks of `s` are there and open.
pub open spec fn all_open(t: Nodes, s: Set<int>) -> bool {
    forall|j: int| #[trigger] s.contains(j) ==> 0 <= j < t.len() && t[j].open
}

/// The blocks of `s` are in `u` where they are in `t`, and as open.
pub open spec fn untouched(t: Nodes, u: Nodes, s: Set<int>) -> bool {
    &&& t.len() <= u.len()
    &&& forall|j: int| #[trigger]
        s.contains(j) ==> u[j].open == t[j].open && u[j].parent == t[j].parent
}

/// Whether `i` is `j` or around it.
pub open spec fn around(t: Nodes, i: int, j: int) -> bool
    decreases j,
{
    i == j || (t[j].parent matches Some(p) && 0 <= p < j && around(t, i, p))
}

/// Nothing open is left in `i`, but for rows of a table and their cells.
pub open spec fn innermost(t: Nodes, i: int) -> bool {
    last_open(t, i) ==> t[i].value is TableRow || (t[i].value is Table
        && t[last_child(t, i)->0].value is TableRow)
}

/// Which blocks are open between two lines.
pub open spec fn at_rest(t: Nodes, current: int) -> bool {
    &&& orderly(t)
    &&& fences_read(t, -1)
    &&& spine(t, current, Set::empty())
    &&& innermost(t, current)
}

/// A block made in the current line has nothing in it, but for rows of a table and their cells.
pub open spec fn newly_made(t: Nodes, i: int) -> bool {
    last_child(t, i) matches Some(c) ==> {
        ||| t[i].value is Table && t[c].value is TableRow
        ||| t[i].value is TableRow && t[c].value is TableCell
    }
}

/// Which blocks are open inside a line that has gone on with the blocks down to `m`, and has
/// reached `container`: either `m` or a new block. The open blocks below `m` are in `s`, and
/// `current` is the innermost of them.
pub open spec fn in_motion(
    t: Nodes,
    container: int,
    current: int,
    m: int,
    s: Set<int>,
) -> bool {
    &&& orderly(t)
    &&& all_open(t, s)
    &&& 0 <= m < t.len()
    &&& spine(t, container, s)
    &&& open_up_to(t, current, m, s)
    &&& if container == m {
        spine(t, current, Set::empty()) && innermost(t, current)
    } else {
        newly_made(t, container)
    }
}

/// The last child of a node is a node after it.
pub proof fn lemma_last_child(t: Nodes, i: int)
    requires
        is_tree(t),
        0 <= i < t.len(),
    ensures
        last_child(t, i) matches Some(c) ==> i < c < t.len() && t[c].parent == Some(i),
{
    assert(linked(t, i));
    let ch = t[i].children;
    if ch.len() > 0 {
        assert(ch[ch.len() - 1] == ch.last());
    }
}

/// The way from a block up to the root depends only on what is on it.
pub proof fn lemma_spine_frame(t: Nodes, u: Nodes, i: int, s: Set<int>)
    requires
        spine(t, i, s),
        u.len() >= t.len(),
        forall|j: int|
            0 <= j <= i ==> (#[trigger] u[j]).open == t[j].open && u[j].parent == t[j].parent,
        forall|j: int| 0 <= j < i ==> (#[trigger] u[j]).children == t[j].children,
    ensures
        spine(u, i, s),
    decreases i,
{
    match t[i].parent {
        Some(p) => {
            lemma_spine_frame(t, u, p, s);
        },
        None => {},
    }
}

/// Fewer blocks can be kept off the way up to the root.
pub proof fn lemma_spine_subset(t: Nodes, i: int, s: Set<int>, s2: Set<int>)
    requires
        spine(t, i, s),
        forall|j: int| 0 <= j <= i && #[trigger] s2.contains(j) ==> s.contains(j),
    ensures
        spine(t, i, s2),
    decreases i,
{
    match t[i].parent {
        Some(p) => {
            lemma_spine_subset(t, p, s, s2);
        },
        None => {},
    }
}

/// Blocks that are open up to one stay so as long as they are not touched.
pub proof fn lemma_open_up_to_frame(t: Nodes, u: Nodes, i: int, m: int, s: Set<int>)
    requires
        open_up_to(t, i, m, s),
        untouched(t, u, s),
    ensures
        open_up_to(u, i, m, s),
    decreases i - m,
{
    if i != m {
        lemma_open_up_to_frame(t, u, t[i].parent->0, m, s);
    }
}

/// What lies on the way up to the root.
pub proof fn lemma_spine_around(t: Nodes, i: int, j: int)
    requires
        spine(t, j, Set::empty()),
        around(t, i, j),
    ensures
        0 <= i <= j,
        spine(t, i, Set::empty()),
        i != j ==> last_open(t, i) && around(t, last_child(t, i)->0, j),
    decreases j,
{
    if i != j {
        let p = t[j].parent->0;
        lemma_spine_around(t, i, p);
    }
}

/// The open blocks between two on the way up to the root.
pub proof fn lemma_open_between(t: Nodes, m: int, j: int)
    requires
        spine(t, j, Set::empty()),
        around(t, m, j),
    ensures
        spine(t, m, open_after(t, m)),
        open_up_to(t, j, m, open_after(t, m)),
    decreases j,
{
    lemma_spine_around(t, m, j);
    if m != j {
        let p = t[j].parent->0;
        lemma_spine_around(t, m, p);
        lemma_open_between(t, m, p);
    } else {
        lemma_spine_subset(t, m, Set::empty(), open_after(t, m));
    }
}

/// The root is around every block on a way up to it.
pub proof fn lemma_root_around(t: Nodes, j: int, s: Set<int>)
    requires
        spine(t, j, s),
    ensures
        around(t, 0, j),
    decreases j,
{
    match t[j].parent {
        Some(p) => {
            lemma_root_around(t, p, s);
        },
        None => {},
    }
}

/// Taking out a paragraph leaves the blocks orderly.
pub proof fn lemma_paragraph_taken_out(t: Nodes, i: int)
    requires
        orderly(t),
        0 <= i < t.len(),
        t[i].value is Paragraph,
    ensures
        ({
            let u = detached(t, i);
            &&& orderly(u)
            &&& u.len() == t.len()
            &&& u[i] == NodeView { parent: None, ..t[i] }
            &&& forall|j: int|
                0 <= j < t.len() && j != i && t[i].parent != Some(j) ==> #[trigger] u[j] == t[j]
            &&& t[i].parent matches Some(p) ==> {
                &&& u[p] == NodeView { children: u[p].children, ..t[p] }
                &&& last_child(t, p) == Some(i) ==> !last_open(u, p)
                &&& last_child(t, p) != Some(i) ==> last_child(u, p) == last_child(t, p)
            }
        }),
{
    let u = detached(t, i);
    assert(linked(t, i));
    lemma_detached(t, i);
    assert forall|j: int| 0 <= j < u.len() implies sound(#[trigger] u[j]) by {
        assert(sound(t[j]));
    }
    if t[i].parent is Some {
        let p = t[i].parent->0;
        assert(linked(t, p));
        let ch = t[p].children;
        let k0 = lemma_without_at(ch, i);
        let w = ch.remove(k0);
        assert(u[p].children == w);
        assert(settled(u)) by {
            assert forall|j: int, k: int| 0 <= j < u.len() && #[trigger] paragraph_at(
                u,
                j,
                k,
            ) implies !u[u[j].children[k - 1]].open by {
                assert(linked(t, j));
                if j == p {
                    let a = if k - 1 < k0 {
                        k - 1
                    } else {
                        k
                    };
                    let c = if k < k0 {
                        k
                    } else {
                        k + 1
                    };
                    assert(w[k - 1] == ch[a]);
                    assert(w[k] == ch[c]);
                    if k == k0 {
                        assert(paragraph_at(t, p, k0));
                    } else {
                        assert(paragraph_at(t, p, c));
                    }
                } else {
                    assert(u[j].children == t[j].children);
                    assert(paragraph_at(t, j, k));
                }
            }
        }
        if ch.last() == i {
            assert(k0 == ch.len() - 1) by {
                assert(ch[ch.len() - 1] == ch[k0]);
            }
            if ch.len() > 1 {
                assert(paragraph_at(t, p, k0));
                assert(w.last() == ch[k0 - 1]);
            }
        } else {
            assert(w.last() == ch.last());
        }
    }
}

/// What does not move a block, open it or make a paragraph of it, leaves the blocks orderly.
pub proof fn lemma_changed(t: Nodes, i: int, n: NodeView)
    requires
        orderly(t),
        0 <= i < t.len(),
        n.parent == t[i].parent,
        n.children == t[i].children,
        n.open ==> t[i].open,
        sound(n),
        n.value is Paragraph ==> t[i].value is Paragraph,
        t[i].value is Document ==> n.value is Document,
    ensures
        orderly(t.update(i, n)),
        same_shape(t, t.update(i, n)),
{
    let u = t.update(i, n);
    lemma_same_shape(t, u);
    assert forall|j: int| 0 <= j < u.len() implies sound(#[trigger] u[j]) by {
        assert(sound(t[j]));
    }
    assert forall|j: int, k: int| 0 <= j < u.len() && #[trigger] paragraph_at(
        u,
        j,
        k,
    ) implies !u[u[j].children[k - 1]].open by {
        assert(linked(t, j));
        assert(u[j].children == t[j].children);
        assert(t[j].children[k] == u[j].children[k]);
        assert(paragraph_at(t, j, k));
        assert(t[j].children[k - 1] == u[j].children[k - 1]);
    }
}

/// Such a change that keeps the block open does not change what is in motion, and neither does
/// one to what it holds.
pub proof fn lemma_changed_in_motion(
    t: Nodes,
    i: int,
    n: NodeView,
    container: int,
    current: int,
    m: int,
    s: Set<int>,
)
    requires
        in_motion(t, container, current, m, s),
        0 <= i < t.len(),
        n.parent == t[i].parent,
        n.children == t[i].children,
        n.open == t[i].open,
        sound(n),
        n.value is Paragraph ==> t[i].value is Paragraph,
        t[i].value is Document ==> n.value is Document,
        t[i].value is Table ==> n.value is Table,
        t[i].value is TableRow ==> n.value is TableRow,
        t[i].value is TableCell ==> n.value is TableCell,
    ensures
        in_motion(t.update(i, n), container, current, m, s),
{
    let u = t.update(i, n);
    lemma_changed(t, i, n);
    lemma_spine_frame(t, u, container, s);
    lemma_open_up_to_frame(t, u, current, m, s);
    if container == m {
        lemma_spine_frame(t, u, current, Set::empty());
        lemma_last_child(t, current);
    } else {
        lemma_last_child(t, container);
    }
}

/// The blocks stay orderly when one is closed.
pub proof fn lemma_close(b: Blocks, i: int, info: Option<Seq<char>>)
    requires
        orderly(b.nodes),
        0 <= i < b.nodes.len(),
    ensures
        ({
            let t = b.nodes;
            let u = close(b, i, info).nodes;
            &&& orderly(u)
            &&& u.len() == t.len()
            &&& !u[i].open
            &&& forall|x: int| fences_read(t, x) ==> fences_read(u, x)
            &&& forall|j: int|
                0 <= j < t.len() && j != i && t[i].parent != Some(j) ==> #[trigger] u[j] == t[j]
            &&& t[i].parent matches Some(p) ==> {
                &&& u[p] == NodeView { children: u[p].children, ..t[p] }
                &&& last_child(t, p) == Some(i) ==> !last_open(u, p)
                &&& last_child(t, p) != Some(i) ==> last_child(u, p) == last_child(t, p)
            }
        }),
{
    let t = b.nodes;
    let n = closed(t, b.refs, i, info);
    let v = t.update(i, n);
    let u = close(b, i, info).nodes;
    assert(sound(t[i]));
    assert(linked(t, i));
    lemma_finalized(t, b.refs, i, info);
    lemma_stripped(t[i].content, b.refs);
    lemma_valid_ascii(Seq::<u8>::empty());
    lemma_changed(t, i, n);
    if u != v {
        lemma_paragraph_taken_out(v, i);
    }
    assert forall|x: int| fences_read(t, x) implies fences_read(u, x) by {
        assert forall|j: int| 0 <= j < u.len() && j != x implies fence_read(#[trigger] u[j]) by {
            assert(fence_read(t[j]));
        }
    }
}

/// Room can be made for every kind of block that the document itself can contain.
pub open spec fn fits_document(v: Value) -> bool {
    v.block() && !(v is Item) && !(v is Document) && !(v is FrontMatter)
}

/// What making room does.
pub proof fn lemma_made_room(
    b: Blocks,
    p: int,
    v: Value,
    info: Option<Seq<char>>,
    s: Set<int>,
)
    requires
        orderly(b.nodes),
        fences_read(b.nodes, -1),
        spine(b.nodes, p, s),
        all_open(b.nodes, s),
        fits_document(v) || b.nodes[p].value.can_contain(v),
    ensures
        ({
            let t = b.nodes;
            let (r, q) = made_room(b, p, v, info);
            let u = r.nodes;
            &&& orderly(u)
            &&& fences_read(u, -1)
            &&& u.len() == t.len()
            &&& 0 <= q <= p
            &&& spine(u, q, s)
            &&& u[q].value.can_contain(v)
            &&& untouched(t, u, s)
            &&& q == p ==> r == b
            &&& q != p ==> !last_open(u, q)
        }),
    decreases p,
{
    let t = b.nodes;
    if !t[p].value.can_contain(v) {
        match t[p].parent {
            Some(q) => {
                let c = close(b, p, info);
                lemma_close(b, p, info);
                lemma_spine_frame(t, c.nodes, q, s);
                if fits_document(v) {
                    lemma_made_room(c, q, v, info, s);
                }
            },
            None => {},
        }
    }
}

/// The blocks stay orderly when one is added at the end of `q`.
pub proof fn lemma_block_appended(t: Nodes, q: int, new: NodeView, s: Set<int>)
    requires
        orderly(t),
        spine(t, q, s),
        all_open(t, s),
        new.children.len() == 0,
        sound(new),
        new.value is Paragraph ==> !last_open(t, q),
    ensures
        ({
            let u = appended(t, q, new);
            let id = t.len() as int;
            &&& orderly(u)
            &&& u.len() == t.len() + 1
            &&& new.open ==> spine(u, id, s)
            &&& forall|x: int| fences_read(t, x) && (x == -1 || x == id) ==> fences_read(u, id)
            &&& fences_read(t, -1) && fence_read(u[id]) ==> fences_read(u, -1)
            &&& forall|j: int| 0 <= j < t.len() && j != q ==> #[trigger] u[j] == t[j]
        }),
{
    let u = appended(t, q, new);
    let id = t.len() as int;
    lemma_appended(t, q, new);
    assert(linked(t, q));
    assert forall|j: int| 0 <= j < u.len() implies sound(#[trigger] u[j]) by {
        if j != id {
            assert(sound(t[j]));
        }
    }
    assert(settled(u)) by {
        assert forall|j: int, k: int| 0 <= j < u.len() && #[trigger] paragraph_at(
            u,
            j,
            k,
        ) implies !u[u[j].children[k - 1]].open by {
            if j < id {
                assert(linked(t, j));
                if j == q {
                    let ch = t[q].children;
                    assert(u[q].children == ch.push(id));
                    assert(u[q].children[k - 1] == ch[k - 1]);
                    if k == ch.len() {
                        assert(ch.last() == ch[k - 1]);
                    } else {
                        assert(u[q].children[k] == ch[k]);
                        assert(paragraph_at(t, q, k));
                    }
                } else {
                    assert(paragraph_at(t, j, k));
                }
            }
        }
    }
    lemma_spine_frame(t, u, q, s);
    assert(u[q].children.last() == id);
    assert forall|x: int| fences_read(t, x) && (x == -1 || x == id) implies fences_read(u, id) by {
        assert forall|j: int| 0 <= j < u.len() && j != id implies fence_read(#[trigger] u[j]) by {
            assert(fence_read(t[j]));
        }
    }
    if fences_read(t, -1) && fence_read(u[id]) {
        assert forall|j: int| 0 <= j < u.len() && j != -1 implies fence_read(#[trigger] u[j]) by {
            if j != id {
                assert(fence_read(t[j]));
            }
        }
    }
}

/// The blocks stay orderly when one is put before the last one in `p`.
pub proof fn lemma_block_inserted(t: Nodes, p: int, new: NodeView)
    requires
        orderly(t),
        0 <= p < t.len(),
        t[p].children.len() > 0,
        new.children.len() == 0,
        sound(new),
        !(t[t[p].children.last()].value is Paragraph),
        new.value is Paragraph && t[p].children.len() > 1
            ==> !t[t[p].children[t[p].children.len() - 2]].open,
    ensures
        ({
            let k = t[p].children.len() - 1;
            let u = inserted(t, p, k, new);
            &&& orderly(u)
            &&& u.len() == t.len() + 1
            &&& last_child(u, p) == last_child(t, p)
            &&& fences_read(t, -1) && fence_read(new) ==> fences_read(u, -1)
            &&& u[t.len() as int] == NodeView { parent: Some(p), ..new }
            &&& u[p] == NodeView { children: u[p].children, ..t[p] }
            &&& forall|j: int| 0 <= j < t.len() && j != p ==> #[trigger] u[j] == t[j]
        }),
{
    let k0 = t[p].children.len() - 1;
    let u = inserted(t, p, k0, new);
    let id = t.len() as int;
    lemma_inserted(t, p, k0, new);
    assert(linked(t, p));
    let ch = t[p].children;
    let w = u[p].children;
    assert(w == ch.insert(k0, id));
    assert forall|j: int| 0 <= j < u.len() implies sound(#[trigger] u[j]) by {
        if j != id {
            assert(sound(t[j]));
        }
    }
    assert(settled(u)) by {
        assert forall|j: int, k: int| 0 <= j < u.len() && #[trigger] paragraph_at(
            u,
            j,
            k,
        ) implies !u[u[j].children[k - 1]].open by {
            if j < id {
                assert(linked(t, j));
                if j == p {
                    if k < k0 {
                        assert(w[k] == ch[k]);
                        assert(w[k - 1] == ch[k - 1]);
                        assert(paragraph_at(t, p, k));
                    } else if k == k0 {
                        assert(w[k] == id);
                        assert(w[k - 1] == ch[k - 1]);
                        assert(ch[k0 - 1] < t.len());
                    } else {
                        assert(w[k] == ch[k0]);
                        assert(ch.last() == ch[k0]);
                    }
                } else {
                    assert(paragraph_at(t, j, k));
                }
            }
        }
    }
    assert(w.last() == ch.last()) by {
        assert(w[k0 + 1] == ch[k0]);
    }
    if fences_read(t, -1) && fence_read(new) {
        assert forall|j: int| 0 <= j < u.len() && j != -1 implies fence_read(#[trigger] u[j]) by {
            if j != id {
                assert(fence_read(t[j]));
            }
        }
    }
}

/// What adding a block does.
pub proof fn lemma_child_added(
    b: Blocks,
    p: int,
    v: Value,
    start_line: int,
    info: Option<Seq<char>>,
    s: Set<int>,
)
    requires
        orderly(b.nodes),
        fences_read(b.nodes, -1),
        spine(b.nodes, p, s),
        all_open(b.nodes, s),
        kind_sound(v),
        fits_document(v) || b.nodes[p].value.can_contain(v),
        v is Paragraph && b.nodes[p].value.can_contain(v) ==> !last_open(b.nodes, p),
    ensures
        ({
            let t = b.nodes;
            let (r, id) = child_added(b, p, v, start_line, info);
            let u = r.nodes;
            &&& id == t.len()
            &&& u.len() == t.len() + 1
            &&& orderly(u)
            &&& spine(u, id, s)
            &&& fences_read(u, id)
            &&& fence_read(fresh(v, start_line)) ==> fences_read(u, -1)
            &&& untouched(t, u, s)
            &&& u[id] == NodeView { parent: u[id].parent, ..fresh(v, start_line) }
        }),
{
    lemma_made_room(b, p, v, info, s);
    let (r, q) = made_room(b, p, v, info);
    lemma_valid_ascii(Seq::<u8>::empty());
    lemma_block_appended(r.nodes, q, fresh(v, start_line), s);
}

/// A new block is what a line has reached when it is added.
pub proof fn lemma_child_in_motion(
    b: Blocks,
    p: int,
    v: Value,
    start_line: int,
    info: Option<Seq<char>>,
    current: int,
    m: int,
    s: Set<int>,
)
    requires
        in_motion(b.nodes, p, current, m, s),
        fences_read(b.nodes, -1),
        kind_sound(v),
        !(v is Paragraph),
        fits_document(v) || b.nodes[p].value.can_contain(v),
    ensures
        ({
            let t = b.nodes;
            let (r, id) = child_added(b, p, v, start_line, info);
            let u = r.nodes;
            &&& id == t.len()
            &&& u.len() == t.len() + 1
            &&& in_motion(u, id, current, m, s)
            &&& fences_read(u, id)
            &&& fence_read(fresh(v, start_line)) ==> fences_read(u, -1)
            &&& u[id] == NodeView { parent: u[id].parent, ..fresh(v, start_line) }
        }),
{
    lemma_child_added(b, p, v, start_line, info, s);
    let (r, id) = child_added(b, p, v, start_line, info);
    lemma_open_up_to_frame(b.nodes, r.nodes, current, m, s);
}

} // verus!
