//! The tree of nodes, kept in an arena.
//!
//! Nodes are named by their numbers, in the order in which they were made. The root is number 0,
//! and every child has a greater number than its parent.

use crate::nodes::{NodeValue, Value};
use vstd::prelude::*;

verus! {

/// `typed_arena::Arena`, which owns the nodes.
#[verifier::external_type_specification]
#[verifier::external_body]
#[verifier::reject_recursive_types(T)]
pub struct ExArena<T>(typed_arena::Arena<T>);

/// `Arena::alloc` moves the value into the arena, and hands back the only reference to it there.
pub assume_specification<T>[ typed_arena::Arena::<T>::alloc ](
    arena: &typed_arena::Arena<T>,
    value: T,
) -> (r: &mut T)
    ensures
        *r == value,
;

/// A node of the tree.
#[derive(Debug)]
pub struct AstNode {
    /// What the node is.
    pub value: NodeValue,
    /// The text gathered for it, in UTF-8.
    pub content: Vec<u8>,
    /// The line that it starts in, counted from 1.
    pub start_line: usize,
    /// Whether more lines may belong to it.
    pub open: bool,
    /// Whether the last line that belongs to it is blank.
    pub last_line_blank: bool,
    /// Whether it has been found to be no table header.
    pub table_visited: bool,
    pub parent: Option<usize>,
    pub children: Vec<usize>,
}

/// A node over mathematical values.
#[verifier::ext_equal]
pub struct NodeView {
    pub value: Value,
    pub content: Seq<u8>,
    pub start_line: int,
    pub open: bool,
    pub last_line_blank: bool,
    pub table_visited: bool,
    pub parent: Option<int>,
    pub children: Seq<int>,
}

/// The numbers in `s`.
pub open spec fn numbers(s: Seq<usize>) -> Seq<int> {
    Seq::new(s.len(), |k: int| s[k] as int)
}

impl View for AstNode {
    type V = NodeView;

    open spec fn view(&self) -> NodeView {
        NodeView {
            value: self.value@,
            content: self.content@,
            start_line: self.start_line as int,
            open: self.open,
            last_line_blank: self.last_line_blank,
            table_visited: self.table_visited,
            parent: match self.parent {
                Some(p) => Some(p as int),
                None => None,
            },
            children: numbers(self.children@),
        }
    }
}

/// The nodes of a tree, by number.
pub type Nodes = Seq<NodeView>;

/// A tree of nodes.
pub struct Tree<'a> {
    pub arena: &'a typed_arena::Arena<AstNode>,
    pub nodes: Vec<&'a mut AstNode>,
}

impl<'a> View for Tree<'a> {
    type V = Nodes;

    open spec fn view(&self) -> Nodes {
        Seq::new(self.nodes@.len(), |i: int| (*self.nodes@[i])@)
    }
}

/// A new node, not in the tree yet.
pub open spec fn fresh(value: Value, start_line: int) -> NodeView {
    NodeView {
        value,
        content: seq![],
        start_line,
        open: true,
        last_line_blank: false,
        table_visited: false,
        parent: None,
        children: seq![],
    }
}

/// `s` without the last `x` in it.
pub open spec fn without(s: Seq<int>, x: int) -> Seq<int>
    decreases s.len(),
{
    if s.len() == 0 {
        s
    } else if s.last() == x {
        s.drop_last()
    } else {
        without(s.drop_last(), x).push(s.last())
    }
}

/// The nodes with other children under `i`.
pub open spec fn with_children(t: Nodes, i: int, children: Seq<int>) -> Nodes {
    t.update(i, NodeView { children, ..t[i] })
}

/// The nodes with another parent over `i`.
pub open spec fn with_parent(t: Nodes, i: int, parent: Option<int>) -> Nodes {
    t.update(i, NodeView { parent, ..t[i] })
}

/// The nodes with `n` inserted under `p`, before its child at index `k`.
pub open spec fn inserted(t: Nodes, p: int, k: int, n: NodeView) -> Nodes {
    with_children(t, p, t[p].children.insert(k, t.len() as int)).push(
        NodeView { parent: Some(p), ..n },
    )
}

/// The nodes with `n` under `p`, behind its other children.
pub open spec fn appended(t: Nodes, p: int, n: NodeView) -> Nodes {
    with_children(t, p, t[p].children.push(t.len() as int)).push(
        NodeView { parent: Some(p), ..n },
    )
}

/// The nodes with `i` taken out from under its parent.
pub open spec fn detached(t: Nodes, i: int) -> Nodes {
    match t[i].parent {
        Some(p) => with_parent(with_children(t, p, without(t[p].children, i)), i, None),
        None => t,
    }
}

/// The nodes with `i`, which has no parent, under `p`, behind its other children.
pub open spec fn adopted(t: Nodes, p: int, i: int) -> Nodes {
    with_parent(with_children(t, p, t[p].children.push(i)), i, Some(p))
}

/// The last child of `i`.
pub open spec fn last_child(t: Nodes, i: int) -> Option<int> {
    if t[i].children.len() > 0 {
        Some(t[i].children.last())
    } else {
        None
    }
}

/// Whether the last child of `i` is open.
pub open spec fn last_open(t: Nodes, i: int) -> bool {
    last_child(t, i) matches Some(c) && t[c].open
}

/// The children that `i` names are its children, and so is it to its parent.
pub open spec fn linked(t: Nodes, i: int) -> bool {
    &&& t[i].parent matches Some(p) ==> 0 <= p < i && t[p].children.contains(i)
    &&& forall|k: int|
        0 <= k < t[i].children.len() ==> i < #[trigger] t[i].children[k] < t.len()
            && t[t[i].children[k]].parent == Some(i)
    &&& t[i].children.no_duplicates()
}

/// The nodes are a tree, and nodes taken out of it.
pub open spec fn is_tree(t: Nodes) -> bool {
    &&& t.len() > 0
    &&& t[0].parent is None
    &&& forall|i: int| 0 <= i < t.len() ==> #[trigger] linked(t, i)
}

/// What taking out an element leaves.
pub proof fn lemma_without(s: Seq<int>, x: int)
    requires
        s.no_duplicates(),
    ensures
        without(s, x).no_duplicates(),
        !without(s, x).contains(x),
        forall|y: int| y != x ==> (without(s, x).contains(y) <==> s.contains(y)),
        !s.contains(x) ==> without(s, x) == s,
        s.contains(x) ==> without(s, x).len() == s.len() - 1,
        without(s, x).len() <= s.len(),
    decreases s.len(),
{
    if s.len() > 0 {
        let rest = s.drop_last();
        assert(s =~= rest.push(s.last()));
        assert(forall|y: int| s.contains(y) <==> rest.contains(y) || y == s.last()) by {
            assert forall|y: int| rest.contains(y) || y == s.last() implies s.contains(y) by {
                if rest.contains(y) {
                    let k = choose|k: int| 0 <= k < rest.len() && rest[k] == y;
                    assert(s[k] == y);
                } else {
                    assert(s[s.len() - 1] == y);
                }
            }
            assert forall|y: int| s.contains(y) && y != s.last() implies rest.contains(y) by {
                let k = choose|k: int| 0 <= k < s.len() && s[k] == y;
                assert(rest[k] == y);
            }
        }
        if s.last() == x {
            if rest.contains(x) {
                let k = choose|k: int| 0 <= k < rest.len() && rest[k] == x;
                assert(s[k] == s[s.len() - 1]);
            }
        } else {
            lemma_without(rest, x);
            let w = without(rest, x);
            let r = w.push(s.last());
            assert(!w.contains(s.last())) by {
                if w.contains(s.last()) {
                    assert(rest.contains(s.last()));
                    let k = choose|k: int| 0 <= k < rest.len() && rest[k] == s.last();
                    assert(s[k] == s[s.len() - 1]);
                }
            }
            assert forall|y: int| r.contains(y) <==> (w.contains(y) || y == s.last()) by {
                if w.contains(y) {
                    let k = choose|k: int| 0 <= k < w.len() && w[k] == y;
                    assert(r[k] == y);
                }
                if y == s.last() {
                    assert(r[r.len() - 1] == y);
                }
            }
        }
    } else {
        assert(s =~= Seq::empty());
    }
}

/// Taking out an element is removing it where it stands.
pub proof fn lemma_without_at(s: Seq<int>, x: int) -> (k: int)
    requires
        s.contains(x),
    ensures
        0 <= k < s.len(),
        s[k] == x,
        without(s, x) == s.remove(k),
    decreases s.len(),
{
    if s.last() == x {
        assert(s.drop_last() =~= s.remove(s.len() - 1));
        s.len() - 1
    } else {
        let rest = s.drop_last();
        let m = choose|m: int| 0 <= m < s.len() && s[m] == x;
        assert(rest[m] == x);
        let k = lemma_without_at(rest, x);
        assert(rest.remove(k).push(s.last()) =~= s.remove(k));
        k
    }
}

/// A node that is taken out leaves a tree.
pub proof fn lemma_detached(t: Nodes, i: int)
    requires
        is_tree(t),
        0 <= i < t.len(),
    ensures
        is_tree(detached(t, i)),
        detached(t, i).len() == t.len(),
        detached(t, i)[i].parent is None,
{
    assert(linked(t, i));
    match t[i].parent {
        Some(p) => {
            let u = detached(t, i);
            assert(linked(t, p));
            lemma_without(t[p].children, i);
            let w = without(t[p].children, i);
            assert forall|j: int| 0 <= j < u.len() implies #[trigger] linked(u, j) by {
                assert(linked(t, j));
                if j == p {
                    assert forall|k: int| 0 <= k < u[j].children.len() implies j
                        < #[trigger] u[j].children[k] < u.len() && u[u[j].children[k]].parent
                        == Some(j) by {
                        let c = u[j].children[k];
                        assert(w.contains(c));
                        assert(t[p].children.contains(c));
                        let m = choose|m: int|
                            0 <= m < t[p].children.len() && t[p].children[m] == c;
                        assert(t[t[p].children[m]].parent == Some(p));
                    }
                } else {
                    assert(u[j].children == t[j].children);
                    assert forall|k: int| 0 <= k < u[j].children.len() implies j
                        < #[trigger] u[j].children[k] < u.len() && u[u[j].children[k]].parent
                        == Some(j) by {
                        assert(t[t[j].children[k]].parent == Some(j));
                    }
                }
                match u[j].parent {
                    Some(q) => {
                        assert(t[q].children.contains(j));
                        if q == p {
                            assert(w.contains(j));
                        }
                    },
                    None => {},
                }
            }
        },
        None => {},
    }
}

/// A node that is inserted makes a tree.
pub proof fn lemma_inserted(t: Nodes, p: int, k: int, n: NodeView)
    requires
        is_tree(t),
        0 <= p < t.len(),
        0 <= k <= t[p].children.len(),
        n.children.len() == 0,
    ensures
        is_tree(inserted(t, p, k, n)),
        inserted(t, p, k, n).len() == t.len() + 1,
{
    let u = inserted(t, p, k, n);
    let id = t.len() as int;
    let old = t[p].children;
    let new = old.insert(k, id);
    assert(linked(t, p));
    assert(new[k] == id);
    assert forall|c: int| old.contains(c) implies new.contains(c) by {
        let m = choose|m: int| 0 <= m < old.len() && old[m] == c;
        if m < k {
            assert(new[m] == c);
        } else {
            assert(new[m + 1] == c);
        }
    }
    assert forall|m: int| 0 <= m < new.len() implies #[trigger] new[m] == id || old.contains(
        new[m],
    ) by {
        if m < k {
            assert(new[m] == old[m]);
        } else if m > k {
            assert(new[m] == old[m - 1]);
        }
    }
    assert(new.no_duplicates()) by {
        assert forall|a: int, b: int| 0 <= a < b < new.len() implies new[a] != new[b] by {
            let oa = if a < k {
                a
            } else {
                a - 1
            };
            let ob = if b < k {
                b
            } else {
                b - 1
            };
            if a != k {
                assert(new[a] == old[oa]);
                assert(old[oa] < t.len());
            }
            if b != k {
                assert(new[b] == old[ob]);
                assert(old[ob] < t.len());
            }
        }
    }
    assert forall|j: int| 0 <= j < u.len() implies #[trigger] linked(u, j) by {
        if j == id {
            assert(u[j].children.len() == 0);
            assert(u[p].children.contains(id));
        } else {
            assert(linked(t, j));
            assert forall|m: int| 0 <= m < u[j].children.len() implies j
                < #[trigger] u[j].children[m] < u.len() && u[u[j].children[m]].parent == Some(j) by {
                if j == p {
                    let c = new[m];
                    if c != id {
                        assert(old.contains(c));
                        let x = choose|x: int| 0 <= x < old.len() && old[x] == c;
                        assert(t[t[p].children[x]].parent == Some(p));
                    }
                } else {
                    assert(t[t[j].children[m]].parent == Some(j));
                }
            }
            match u[j].parent {
                Some(q) => {
                    assert(t[q].children.contains(j));
                },
                None => {},
            }
        }
    }
}

/// Appending is inserting behind all children.
pub proof fn lemma_appended(t: Nodes, p: int, n: NodeView)
    requires
        is_tree(t),
        0 <= p < t.len(),
        n.children.len() == 0,
    ensures
        is_tree(appended(t, p, n)),
        appended(t, p, n).len() == t.len() + 1,
        appended(t, p, n) == inserted(t, p, t[p].children.len() as int, n),
{
    lemma_inserted(t, p, t[p].children.len() as int, n);
    assert(t[p].children.push(t.len() as int) =~= t[p].children.insert(
        t[p].children.len() as int,
        t.len() as int,
    ));
}

/// A node that was taken out can be put under any older node.
pub proof fn lemma_adopted(t: Nodes, p: int, i: int)
    requires
        is_tree(t),
        0 <= p < i < t.len(),
        t[i].parent is None,
    ensures
        is_tree(adopted(t, p, i)),
        adopted(t, p, i).len() == t.len(),
{
    let u = adopted(t, p, i);
    let old = t[p].children;
    let new = old.push(i);
    assert(linked(t, p));
    assert(!old.contains(i)) by {
        if old.contains(i) {
            let m = choose|m: int| 0 <= m < old.len() && old[m] == i;
            assert(t[t[p].children[m]].parent == Some(p));
        }
    }
    assert(new[new.len() - 1] == i);
    assert forall|c: int| old.contains(c) implies new.contains(c) by {
        let m = choose|m: int| 0 <= m < old.len() && old[m] == c;
        assert(new[m] == c);
    }
    assert forall|j: int| 0 <= j < u.len() implies #[trigger] linked(u, j) by {
        assert(linked(t, j));
        assert forall|m: int| 0 <= m < u[j].children.len() implies j
            < #[trigger] u[j].children[m] < u.len() && u[u[j].children[m]].parent == Some(j) by {
            if j == p {
                if m < old.len() {
                    assert(t[t[p].children[m]].parent == Some(p));
                }
            } else {
                assert(t[t[j].children[m]].parent == Some(j));
            }
        }
        match u[j].parent {
            Some(q) => {
                if j != i {
                    assert(t[q].children.contains(j));
                }
            },
            None => {},
        }
    }
}

/// Whether `u` has the nodes of `t` in the same places.
pub open spec fn same_shape(t: Nodes, u: Nodes) -> bool {
    &&& t.len() == u.len()
    &&& forall|i: int|
        0 <= i < t.len() ==> (#[trigger] u[i]).parent == t[i].parent && u[i].children
            == t[i].children
}

/// What is a tree does not depend on what the nodes hold.
pub proof fn lemma_same_shape(t: Nodes, u: Nodes)
    requires
        is_tree(t),
        same_shape(t, u),
    ensures
        is_tree(u),
{
    assert forall|i: int| 0 <= i < u.len() implies #[trigger] linked(u, i) by {
        assert(linked(t, i));
        assert(u[i].children == t[i].children);
        assert forall|k: int| 0 <= k < u[i].children.len() implies i
            < #[trigger] u[i].children[k] < u.len() && u[u[i].children[k]].parent == Some(i) by {
            assert(t[t[i].children[k]].parent == Some(i));
        }
    }
}

/// A node as the executable code makes it.
pub fn make_node(value: NodeValue, start_line: usize) -> (r: AstNode)
    ensures
        r@ == fresh(value@, start_line as int),
{
    let r = AstNode {
        value,
        content: Vec::new(),
        start_line,
        open: true,
        last_line_blank: false,
        table_visited: false,
        parent: None,
        children: Vec::new(),
    };
    assert(r@ =~= fresh(value@, start_line as int));
    r
}

/// Takes the last `x` out of `v`.
fn remove_last(v: &mut Vec<usize>, x: usize)
    ensures
        numbers(final(v)@) == without(numbers(old(v)@), x as int),
{
    let ghost s = numbers(v@);
    let n: usize = v.len();
    let mut k: usize = n;
    proof {
        assert(s.subrange(0, n as int) =~= s);
        assert(without(s, x as int) + s.subrange(n as int, n as int) =~= without(s, x as int));
    }
    while k > 0 && v[k - 1] != x
        invariant
            k <= n,
            n == v@.len(),
            s == numbers(v@),
            without(s, x as int) == without(s.subrange(0, k as int), x as int) + s.subrange(
                k as int,
                n as int,
            ),
        decreases k,
    {
        proof {
            let a = s.subrange(0, k as int);
            assert(a.drop_last() =~= s.subrange(0, k - 1));
            assert(without(a, x as int) + s.subrange(k as int, n as int) =~= without(
                a.drop_last(),
                x as int,
            ) + s.subrange(k - 1, n as int));
        }
        k -= 1;
    }
    if k > 0 {
        proof {
            let a = s.subrange(0, k as int);
            assert(a.drop_last() =~= s.subrange(0, k - 1));
            assert(without(s, x as int) =~= s.remove(k - 1));
        }
        v.remove(k - 1);
        proof {
            assert(numbers(v@) =~= s.remove(k - 1));
        }
    } else {
        proof {
            assert(s.subrange(0, 0) =~= Seq::<int>::empty());
            assert(without(s, x as int) =~= s);
        }
    }
}

impl<'a> Tree<'a> {
    /// A tree with a root and nothing else.
    pub fn new(arena: &'a typed_arena::Arena<AstNode>, root: AstNode) -> (r: Self)
        ensures
            r@ == seq![root@],
    {
        let mut nodes: Vec<&'a mut AstNode> = Vec::new();
        nodes.push(arena.alloc(root));
        let r = Tree { arena, nodes };
        assert(r@ =~= seq![root@]);
        r
    }

    /// The number of nodes.
    pub fn len(&self) -> (r: usize)
        ensures
            r == self@.len(),
    {
        self.nodes.len()
    }

    /// The node with number `i`.
    pub fn node(&self, i: usize) -> (r: &AstNode)
        requires
            i < self@.len(),
        ensures
            r@ == self@[i as int],
    {
        &*self.nodes[i]
    }

    /// The last child of `i`.
    pub fn last_child(&self, i: usize) -> (r: Option<usize>)
        requires
            i < self@.len(),
        ensures
            crate::scanners::index_of(r) == last_child(self@, i as int),
    {
        let n: usize = self.nodes[i].children.len();
        if n > 0 {
            Some(self.nodes[i].children[n - 1])
        } else {
            None
        }
    }

    /// Inserts a node under `p`, before its child at index `k`.
    pub fn insert(&mut self, p: usize, k: usize, node: AstNode) -> (r: usize)
        requires
            p < old(self)@.len(),
            k <= old(self)@[p as int].children.len(),
        ensures
            r == old(self)@.len(),
            final(self)@ == inserted(old(self)@, p as int, k as int, node@),
    {
        let id: usize = self.nodes.len();
        let mut n = node;
        n.parent = Some(p);
        self.nodes[p].children.insert(k, id);
        self.nodes.push(self.arena.alloc(n));
        proof {
            assert(self@[p as int].children =~= old(self)@[p as int].children.insert(
                k as int,
                id as int,
            ));
            assert(self@ =~= inserted(old(self)@, p as int, k as int, node@));
        }
        id
    }

    /// Puts a node under `p`, behind its other children.
    pub fn append(&mut self, p: usize, node: AstNode) -> (r: usize)
        requires
            p < old(self)@.len(),
        ensures
            r == old(self)@.len(),
            final(self)@ == appended(old(self)@, p as int, node@),
    {
        let id: usize = self.nodes.len();
        let mut n = node;
        n.parent = Some(p);
        self.nodes[p].children.push(id);
        self.nodes.push(self.arena.alloc(n));
        proof {
            assert(self@[p as int].children =~= old(self)@[p as int].children.push(id as int));
            assert(self@ =~= appended(old(self)@, p as int, node@));
        }
        id
    }

    /// Takes `i` out from under its parent.
    pub fn detach(&mut self, i: usize)
        requires
            is_tree(old(self)@),
            i < old(self)@.len(),
        ensures
            final(self)@ == detached(old(self)@, i as int),
    {
        proof {
            assert(linked(self@, i as int));
        }
        match self.nodes[i].parent {
            Some(p) => {
                remove_last(&mut self.nodes[p].children, i);
                self.nodes[i].parent = None;
                proof {
                    assert(self@ =~= detached(old(self)@, i as int));
                }
            },
            None => {},
        }
    }

    /// Puts `i`, which has no parent, under `p`, behind its other children.
    pub fn adopt(&mut self, p: usize, i: usize)
        requires
            p < old(self)@.len(),
            i < old(self)@.len(),
            p != i,
        ensures
            final(self)@ == adopted(old(self)@, p as int, i as int),
    {
        self.nodes[p].children.push(i);
        self.nodes[i].parent = Some(p);
        proof {
            assert(self@[p as int].children =~= old(self)@[p as int].children.push(i as int));
            assert(self@ =~= adopted(old(self)@, p as int, i as int));
        }
    }
}

} // verus!
