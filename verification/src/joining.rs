//! Adjacent texts are joined.

use crate::footnotes::with_value;
use crate::nodes::{NodeValue, Value};
use crate::tree::{
    is_tree, lemma_same_shape, linked, same_shape, with_children, with_parent, NodeView, Nodes,
    Tree,
};
use vstd::prelude::*;
use vstd::string::StringExecFns;

verus! {

/// Links and images, which are not gone into.
pub open spec fn bracket(v: Value) -> bool {
    v is Link || v is Image
}

/// Whether `i` is in the tree, and neither it nor what it is in is a link or an image.
pub open spec fn outside_links(t: Nodes, i: int) -> bool
    decreases i,
{
    i == 0 || {
        &&& !bracket(t[i].value)
        &&& t[i].parent matches Some(p) && 0 <= p < i && outside_links(t, p)
    }
}

/// The text of a node.
pub open spec fn text_in(v: Value) -> Seq<char> {
    match v {
        Value::Text(s) => s,
        _ => seq![],
    }
}

/// The nodes with the child at index `k` of `p` taken out.
pub open spec fn dropped(t: Nodes, p: int, k: int) -> Nodes {
    let c = t[p].children[k];
    with_parent(with_children(t, p, t[p].children.remove(k)), c, None)
}

/// The nodes with adjacent texts among the children of `p` joined, from index `k` on.
pub open spec fn joined_at(t: Nodes, p: int, k: int) -> Nodes
    decreases t[p].children.len() - k,
{
    let ch = t[p].children;
    if k < 0 || k + 1 >= ch.len() {
        t
    } else {
        let a = ch[k];
        let b = ch[k + 1];
        if t[a].value is Text && t[b].value is Text {
            let joined = Value::Text(text_in(t[a].value) + text_in(t[b].value));
            let u = dropped(with_value(t, a, joined), p, k + 1);
            if k <= u[p].children.len() < ch.len() {
                joined_at(u, p, k)
            } else {
                t
            }
        } else {
            joined_at(t, p, k + 1)
        }
    }
}

/// The nodes with adjacent texts joined in the first `n` nodes, unless these are in links or
/// images.
pub open spec fn joined_up_to(t: Nodes, n: int) -> Nodes
    decreases n,
{
    if n <= 0 {
        t
    } else {
        let u = joined_up_to(t, n - 1);
        if outside_links(u, n - 1) {
            joined_at(u, n - 1, 0)
        } else {
            u
        }
    }
}

/// Whether no two adjacent children of `p` before index `n` are texts.
pub open spec fn no_adjacent_texts(t: Nodes, p: int, n: int) -> bool {
    forall|k: int|
        #![trigger t[p].children[k]]
        0 <= k && k + 1 < n && k + 1 < t[p].children.len() ==> !(t[t[p].children[k]].value is Text
            && t[t[p].children[k + 1]].value is Text)
}

/// Taking out a child leaves a tree.
proof fn lemma_dropped(t: Nodes, p: int, k: int)
    requires
        is_tree(t),
        0 <= p < t.len(),
        0 <= k < t[p].children.len(),
    ensures
        is_tree(dropped(t, p, k)),
        dropped(t, p, k).len() == t.len(),
        t[p].children[k] > p,
{
    let u = dropped(t, p, k);
    let ch = t[p].children;
    let c = ch[k];
    let w = ch.remove(k);
    assert(linked(t, p));
    assert(u[p].children == w);
    assert forall|j: int| 0 <= j < u.len() implies #[trigger] linked(u, j) by {
        assert(linked(t, j));
        assert forall|m: int| 0 <= m < u[j].children.len() implies j
            < #[trigger] u[j].children[m] < u.len() && u[u[j].children[m]].parent == Some(j) by {
            if j == p {
                let o = if m < k {
                    m
                } else {
                    m + 1
                };
                assert(w[m] == ch[o]);
                assert(t[t[p].children[o]].parent == Some(p));
                assert(ch[o] != ch[k]);
            } else {
                assert(t[t[j].children[m]].parent == Some(j));
            }
        }
        assert(u[j].children.no_duplicates()) by {
            if j == p {
                assert forall|a: int, b: int| 0 <= a < b < w.len() implies w[a] != w[b] by {
                    let oa = if a < k {
                        a
                    } else {
                        a + 1
                    };
                    let ob = if b < k {
                        b
                    } else {
                        b + 1
                    };
                    assert(w[a] == ch[oa] && w[b] == ch[ob]);
                }
            }
        }
        match u[j].parent {
            Some(q) => {
                assert(t[q].children.contains(j));
                if q == p {
                    let m = choose|m: int| 0 <= m < ch.len() && ch[m] == j;
                    assert(m != k);
                    let o = if m < k {
                        m
                    } else {
                        m - 1
                    };
                    assert(w[o] == j);
                }
            },
            None => {},
        }
    }
}

/// What joining does under one node.
pub proof fn lemma_joined_at(t: Nodes, p: int, k: int)
    requires
        is_tree(t),
        0 <= p < t.len(),
        0 <= k,
        no_adjacent_texts(t, p, k + 1),
    ensures
        ({
            let u = joined_at(t, p, k);
            &&& is_tree(u)
            &&& u.len() == t.len()
            &&& no_adjacent_texts(u, p, u[p].children.len() as int)
            &&& u[p] == NodeView { children: u[p].children, ..t[p] }
            &&& forall|j: int| 0 <= j < p ==> #[trigger] u[j] == t[j]
            &&& forall|j: int| 0 <= j < t.len() && j != p ==> (#[trigger] u[j]).children
                == t[j].children
            &&& forall|j: int|
                0 <= j < t.len() ==> {
                    &&& (#[trigger] u[j]).value is Text <==> t[j].value is Text
                    &&& !(t[j].value is Text) ==> u[j].value == t[j].value
                    &&& u[j].open == t[j].open
                }
        }),
    decreases t[p].children.len() - k,
{
    let ch = t[p].children;
    if k + 1 < ch.len() {
        let a = ch[k];
        let b = ch[k + 1];
        assert(linked(t, p));
        if t[a].value is Text && t[b].value is Text {
            let joined = Value::Text(text_in(t[a].value) + text_in(t[b].value));
            let v = with_value(t, a, joined);
            assert(same_shape(t, v));
            lemma_same_shape(t, v);
            assert(v[p].children == ch);
            lemma_dropped(v, p, k + 1);
            let u = dropped(v, p, k + 1);
            let w = u[p].children;
            assert(w == ch.remove(k + 1));
            assert forall|m: int|
                #![trigger u[p].children[m]]
                0 <= m && m + 1 < k + 1 && m + 1 < u[p].children.len() implies !(
            u[u[p].children[m]].value is Text && u[u[p].children[m + 1]].value is Text) by {
                assert(w[m] == ch[m]);
                assert(w[m + 1] == ch[m + 1]);
                assert(t[p].children[m] == ch[m]);
            }
            lemma_joined_at(u, p, k);
        } else {
            assert forall|m: int|
                #![trigger t[p].children[m]]
                0 <= m && m + 1 < k + 2 && m + 1 < t[p].children.len() implies !(
            t[t[p].children[m]].value is Text && t[t[p].children[m + 1]].value is Text) by {}
            lemma_joined_at(t, p, k + 1);
        }
    }
}

/// Whether a node is outside links depends on what it is in alone.
proof fn lemma_outside_links_frame(t: Nodes, u: Nodes, i: int)
    requires
        forall|j: int|
            0 <= j <= i ==> (#[trigger] u[j]).parent == t[j].parent && (bracket(u[j].value)
                <==> bracket(t[j].value)),
        0 <= i,
    ensures
        outside_links(u, i) == outside_links(t, i),
    decreases i,
{
    if i != 0 {
        match t[i].parent {
            Some(p) => {
                if 0 <= p < i {
                    lemma_outside_links_frame(t, u, p);
                }
            },
            None => {},
        }
    }
}

/// What joining does under some of the nodes.
pub proof fn lemma_joined_up_to(t: Nodes, n: int)
    requires
        is_tree(t),
        0 <= n <= t.len(),
    ensures
        ({
            let u = joined_up_to(t, n);
            &&& is_tree(u)
            &&& u.len() == t.len()
            &&& forall|j: int|
                0 <= j < t.len() ==> {
                    &&& (#[trigger] u[j]).value is Text <==> t[j].value is Text
                    &&& !(t[j].value is Text) ==> u[j].value == t[j].value
                    &&& u[j].open == t[j].open
                }
            &&& forall|p: int|
                0 <= p < n && outside_links(u, p) ==> #[trigger] no_adjacent_texts(
                    u,
                    p,
                    u[p].children.len() as int,
                )
        }),
    decreases n,
{
    if n > 0 {
        lemma_joined_up_to(t, n - 1);
        let u = joined_up_to(t, n - 1);
        if outside_links(u, n - 1) {
            let v = joined_at(u, n - 1, 0);
            lemma_joined_at(u, n - 1, 0);
            assert forall|p: int| 0 <= p < n && outside_links(v, p) implies
                #[trigger] no_adjacent_texts(v, p, v[p].children.len() as int) by {
                if p < n - 1 {
                    lemma_outside_links_frame(u, v, p);
                    assert(no_adjacent_texts(u, p, u[p].children.len() as int));
                    assert(v[p].children == u[p].children);
                    assert(linked(u, p));
                    assert forall|k: int|
                        #![trigger v[p].children[k]]
                        0 <= k && k + 1 < v[p].children.len() implies !(
                    v[v[p].children[k]].value is Text && v[v[p].children[k + 1]].value
                        is Text) by {
                        assert(u[p].children[k] == v[p].children[k]);
                        assert(u[p].children[k + 1] == v[p].children[k + 1]);
                    }
                }
            }
        }
    }
}

/// Outside links and images no two texts are adjacent once they are joined.
pub proof fn law_texts_joined(t: Nodes, p: int)
    requires
        is_tree(t),
        0 <= p < t.len(),
        outside_links(joined_up_to(t, t.len() as int), p),
    ensures
        no_adjacent_texts(
            joined_up_to(t, t.len() as int),
            p,
            joined_up_to(t, t.len() as int)[p].children.len() as int,
        ),
{
    lemma_joined_up_to(t, t.len() as int);
}

/// All text in the nodes of `s`, one after the other.
pub open spec fn text_through(t: Nodes, s: Seq<int>) -> Seq<char>
    decreases s.len(),
{
    if s.len() == 0 {
        seq![]
    } else {
        text_through(t, s.drop_last()) + text_in(t[s.last()].value)
    }
}

/// Text in nodes one after the other.
proof fn lemma_text_through_concat(t: Nodes, a: Seq<int>, b: Seq<int>)
    ensures
        text_through(t, a + b) == text_through(t, a) + text_through(t, b),
    decreases b.len(),
{
    if b.len() == 0 {
        assert(a + b =~= a);
        assert(text_through(t, a) + text_through(t, b) =~= text_through(t, a));
    } else {
        lemma_text_through_concat(t, a, b.drop_last());
        assert((a + b).drop_last() =~= a + b.drop_last());
        let last = text_in(t[b.last()].value);
        assert(text_through(t, a) + text_through(t, b.drop_last()) + last =~= text_through(t, a)
            + (text_through(t, b.drop_last()) + last));
    }
}

/// Text in nodes depends on these alone.
proof fn lemma_text_through_frame(t: Nodes, u: Nodes, s: Seq<int>)
    requires
        forall|j: int| 0 <= j < s.len() ==> text_in(u[#[trigger] s[j]].value) == text_in(
            t[s[j]].value,
        ),
    ensures
        text_through(u, s) == text_through(t, s),
    decreases s.len(),
{
    if s.len() > 0 {
        let r = s.drop_last();
        assert forall|j: int| 0 <= j < r.len() implies text_in(u[#[trigger] r[j]].value)
            == text_in(t[r[j]].value) by {
            assert(r[j] == s[j]);
        }
        assert(s[s.len() - 1] == s.last());
        lemma_text_through_frame(t, u, r);
    }
}

/// Joining two texts keeps the text.
proof fn lemma_two_joined(t: Nodes, p: int, k: int)
    requires
        is_tree(t),
        0 <= p < t.len(),
        0 <= k,
        k + 1 < t[p].children.len(),
        t[t[p].children[k]].value is Text,
        t[t[p].children[k + 1]].value is Text,
    ensures
        ({
            let ch = t[p].children;
            let joined = text_in(t[ch[k]].value) + text_in(t[ch[k + 1]].value);
            let u = dropped(with_value(t, ch[k], Value::Text(joined)), p, k + 1);
            text_through(u, u[p].children) == text_through(t, ch)
        }),
{
    assert(linked(t, p));
    let ch = t[p].children;
    let a = ch[k];
    let b = ch[k + 1];
    let joined = text_in(t[a].value) + text_in(t[b].value);
    let u = dropped(with_value(t, a, Value::Text(joined)), p, k + 1);
    let before = ch.take(k);
    let after = ch.skip(k + 2);
    assert(b != p && a != p && a != b);
    assert(u[p].children =~= before + seq![a] + after);
    assert(ch =~= before + seq![a, b] + after);
    lemma_text_through_concat(u, before + seq![a], after);
    lemma_text_through_concat(u, before, seq![a]);
    lemma_text_through_concat(t, before + seq![a, b], after);
    lemma_text_through_concat(t, before, seq![a, b]);
    assert forall|j: int| 0 <= j < before.len() implies text_in(u[#[trigger] before[j]].value)
        == text_in(t[before[j]].value) by {
        assert(before[j] == ch[j]);
        assert(ch[j] != ch[k]);
    }
    assert forall|j: int| 0 <= j < after.len() implies text_in(u[#[trigger] after[j]].value)
        == text_in(t[after[j]].value) by {
        assert(after[j] == ch[j + k + 2]);
        assert(ch[j + k + 2] != ch[k]);
    }
    lemma_text_through_frame(t, u, before);
    lemma_text_through_frame(t, u, after);
    reveal_with_fuel(text_through, 3);
    assert(seq![a].drop_last() =~= Seq::<int>::empty());
    assert(seq![a, b].drop_last() =~= seq![a]);
    assert(u[a].value == Value::Text(joined));
    assert(text_through(u, seq![a]) =~= joined);
    assert(text_through(t, seq![a, b]) =~= joined);
}

/// Joining adjacent texts under a node keeps the text under it.
pub proof fn law_joining_keeps_text(t: Nodes, p: int, k: int)
    requires
        is_tree(t),
        0 <= p < t.len(),
        0 <= k,
    ensures
        text_through(joined_at(t, p, k), joined_at(t, p, k)[p].children) == text_through(
            t,
            t[p].children,
        ),
    decreases t[p].children.len() - k,
{
    let ch = t[p].children;
    if k + 1 < ch.len() {
        let a = ch[k];
        let b = ch[k + 1];
        assert(linked(t, p));
        if t[a].value is Text && t[b].value is Text {
            let joined = Value::Text(text_in(t[a].value) + text_in(t[b].value));
            let v = with_value(t, a, joined);
            assert(same_shape(t, v));
            lemma_same_shape(t, v);
            assert(v[p].children == ch);
            lemma_dropped(v, p, k + 1);
            lemma_two_joined(t, p, k);
            law_joining_keeps_text(dropped(v, p, k + 1), p, k);
        } else {
            law_joining_keeps_text(t, p, k + 1);
        }
    }
}

impl<'a> Tree<'a> {
    /// Joins adjacent texts among the children of `node`.
    fn join_children(&mut self, node: usize)
        requires
            is_tree(old(self)@),
            node < old(self)@.len(),
        ensures
            final(self)@ == joined_at(old(self)@, node as int, 0),
    {
        let ghost t = self@;
        let mut k: usize = 0;
        loop
            invariant_except_break
                is_tree(self@),
                node < self@.len(),
                joined_at(t, node as int, 0) == joined_at(self@, node as int, k as int),
                k <= self@[node as int].children.len(),
            ensures
                self@ == joined_at(t, node as int, 0),
            decreases self@[node as int].children.len() - k,
        {
            let ghost u = self@;
            let n: usize = self.nodes[node].children.len();
            if n - k < 2 {
                break;
            }
            let a: usize = self.nodes[node].children[k];
            let b: usize = self.nodes[node].children[k + 1];
            proof {
                assert(linked(u, node as int));
                assert(u[node as int].children[k as int] == a);
                assert(u[node as int].children[k + 1] == b);
            }
            let both: Option<String> = match (&self.node(a).value, &self.node(b).value) {
                (NodeValue::Text(x), NodeValue::Text(y)) => {
                    let mut s: String = x.clone();
                    s.append(y.as_str());
                    Some(s)
                },
                _ => None,
            };
            match both {
                Some(s) => {
                    let ghost joined = Value::Text(s@);
                    self.nodes[a].value = NodeValue::Text(s);
                    proof {
                        let v = with_value(u, a as int, joined);
                        assert(self@ =~= v);
                        assert(same_shape(u, v));
                        lemma_same_shape(u, v);
                        lemma_dropped(v, node as int, k + 1);
                    }
                    let ghost v = self@;
                    self.nodes[node].children.remove(k + 1);
                    self.nodes[b].parent = None;
                    proof {
                        assert(self@[node as int].children =~= v[node as int].children.remove(
                            k + 1,
                        ));
                        assert(self@ =~= dropped(v, node as int, k + 1));
                    }
                },
                None => {
                    k += 1;
                },
            }
        }
    }

    /// Whether `node`, which is no older than the nodes in `outside`, is outside links and
    /// images; those in `outside` are or are not.
    fn is_outside(&self, node: usize, outside: &Vec<bool>) -> (r: bool)
        requires
            is_tree(self@),
            node < self@.len(),
            outside@.len() == node,
            forall|j: int| 0 <= j < node ==> #[trigger] outside@[j] == outside_links(self@, j),
        ensures
            r == outside_links(self@, node as int),
    {
        proof {
            assert(linked(self@, node as int));
        }
        if node == 0 {
            return true;
        }
        if matches!(self.node(node).value, NodeValue::Link(_) | NodeValue::Image(_)) {
            return false;
        }
        match self.node(node).parent {
            Some(p) => outside[p],
            None => false,
        }
    }

    /// Joins adjacent texts outside links and images, and gives which nodes are outside these.
    pub fn join_texts(&mut self) -> (r: Vec<bool>)
        requires
            is_tree(old(self)@),
        ensures
            final(self)@ == joined_up_to(old(self)@, old(self)@.len() as int),
            is_tree(final(self)@),
            final(self)@.len() == old(self)@.len(),
            r@.len() == old(self)@.len(),
            forall|j: int|
                0 <= j < r@.len() ==> #[trigger] r@[j] == outside_links(final(self)@, j),
    {
        let ghost t = self@;
        let n: usize = self.len();
        let mut outside: Vec<bool> = Vec::new();
        let mut i: usize = 0;
        while i < n
            invariant
                i <= n,
                n == t.len(),
                is_tree(t),
                is_tree(self@),
                self@.len() == n,
                self@ == joined_up_to(t, i as int),
                outside@.len() == i,
                forall|j: int| 0 <= j < i ==> #[trigger] outside@[j] == outside_links(self@, j),
            decreases n - i,
        {
            let ghost u = self@;
            let out: bool = self.is_outside(i, &outside);
            if out {
                proof {
                    lemma_joined_at(u, i as int, 0);
                    assert forall|j: int| 0 <= j <= i implies outside_links(
                        joined_at(u, i as int, 0),
                        j,
                    ) == #[trigger] outside_links(u, j) by {
                        lemma_outside_links_frame(u, joined_at(u, i as int, 0), j);
                    }
                }
                self.join_children(i);
            }
            outside.push(out);
            i += 1;
        }
        outside
    }
}

} // verus!
