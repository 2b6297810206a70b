//! Going through the tree in the order of the document.

use crate::blocks::around;
use crate::nodes::{NodeValue, Value};
use crate::tree::{is_tree, linked, numbers, Nodes, Tree};
use vstd::prelude::*;

verus! {

/// Which nodes are not gone into.
#[derive(Debug, Clone, Copy, PartialEq, Eq, Structural)]
pub enum Stop {
    Nowhere,
    AtDefinitions,
    AtReferences,
}

impl Stop {
    /// Whether nodes of the kind `v` are not gone into.
    pub open spec fn stops(self, v: Value) -> bool {
        match self {
            Stop::Nowhere => false,
            Stop::AtDefinitions => v is FootnoteDefinition,
            Stop::AtReferences => v is FootnoteReference,
        }
    }
}

/// `i` and the nodes in it, in the order of the document.
pub open spec fn walked(t: Nodes, i: int, stop: Stop) -> Seq<int>
    decreases t.len() - i, t[i].children.len() + 1,
{
    if i < 0 || i >= t.len() {
        seq![]
    } else if stop.stops(t[i].value) {
        seq![i]
    } else {
        seq![i] + walked_from(t, i, 0, stop)
    }
}

/// The nodes in the children of `i` from index `k` on.
pub open spec fn walked_from(t: Nodes, i: int, k: int, stop: Stop) -> Seq<int>
    decreases t.len() - i, t[i].children.len() - k,
{
    if i < 0 || i >= t.len() || k < 0 || k >= t[i].children.len() {
        seq![]
    } else {
        let c = t[i].children[k];
        (if i < c < t.len() {
            walked(t, c, stop)
        } else {
            seq![]
        }) + walked_from(t, i, k + 1, stop)
    }
}

/// What is gone through when the nodes on a stack are, the top one first.
pub open spec fn pending(t: Nodes, stack: Seq<int>, stop: Stop) -> Seq<int>
    decreases stack.len(),
{
    if stack.len() == 0 {
        seq![]
    } else {
        walked(t, stack.last(), stop) + pending(t, stack.drop_last(), stop)
    }
}

/// Those of the nodes in `s` that are of a kind.
pub open spec fn picked(t: Nodes, s: Seq<int>, f: spec_fn(Value) -> bool) -> Seq<int>
    decreases s.len(),
{
    if s.len() == 0 {
        s
    } else if f(t[s.last()].value) {
        picked(t, s.drop_last(), f).push(s.last())
    } else {
        picked(t, s.drop_last(), f)
    }
}

/// What is picked.
pub proof fn lemma_picked(t: Nodes, s: Seq<int>, f: spec_fn(Value) -> bool)
    ensures
        forall|j: int|
            0 <= j < picked(t, s, f).len() ==> s.contains(#[trigger] picked(t, s, f)[j]) && f(
                t[picked(t, s, f)[j]].value,
            ),
        s.no_duplicates() ==> picked(t, s, f).no_duplicates(),
    decreases s.len(),
{
    if s.len() > 0 {
        let r = s.drop_last();
        let p = picked(t, r, f);
        let q = picked(t, s, f);
        lemma_picked(t, r, f);
        assert forall|j: int| 0 <= j < q.len() implies s.contains(#[trigger] q[j]) && f(
            t[q[j]].value,
        ) by {
            if j < p.len() {
                assert(q[j] == p[j]);
                let k = choose|k: int| 0 <= k < r.len() && r[k] == p[j];
                assert(s[k] == q[j]);
            } else {
                assert(s[s.len() - 1] == q[j]);
            }
        }
        if s.no_duplicates() {
            assert forall|a: int, b: int| 0 <= a < b < q.len() implies q[a] != q[b] by {
                assert(q[a] == p[a]);
                if b < p.len() {
                    assert(q[b] == p[b]);
                } else {
                    let k = choose|k: int| 0 <= k < r.len() && r[k] == p[a];
                    assert(s[k] == q[a]);
                    assert(s[s.len() - 1] == q[b]);
                }
            }
        }
    }
}

/// Whether all nodes in `s` are `i` or in it.
pub open spec fn all_in(t: Nodes, i: int, s: Seq<int>) -> bool {
    forall|j: int|
        0 <= j < s.len() ==> i <= #[trigger] s[j] < t.len() && around(t, i, s[j])
}

/// What is in a node is in what it is in.
proof fn lemma_around_parent(t: Nodes, i: int, c: int, j: int)
    requires
        around(t, c, j),
        t[c].parent == Some(i),
        0 <= i < c <= j,
    ensures
        around(t, i, j),
    decreases j,
{
    if c != j {
        lemma_around_le(t, c, t[j].parent->0);
        lemma_around_parent(t, i, c, t[j].parent->0);
    } else {
        assert(around(t, i, i));
    }
}

/// What is around a node is not younger.
proof fn lemma_around_le(t: Nodes, i: int, j: int)
    requires
        around(t, i, j),
    ensures
        i <= j,
    decreases j,
{
    if i != j {
        lemma_around_le(t, i, t[j].parent->0);
    }
}

/// No node is in two children of one.
proof fn lemma_apart(t: Nodes, i: int, a: int, b: int, j: int)
    requires
        around(t, a, j),
        around(t, b, j),
        t[a].parent == Some(i),
        t[b].parent == Some(i),
        i < a,
        i < b,
        0 <= i,
    ensures
        a == b,
    decreases j,
{
    if a == j {
        if b != j {
            lemma_around_le(t, b, i);
        }
    } else if b == j {
        lemma_around_le(t, a, i);
    } else {
        lemma_apart(t, i, a, b, t[j].parent->0);
    }
}

/// The nodes gone through from `i` on are `i` and nodes in it, none of them twice.
pub proof fn law_walked_once(t: Nodes, i: int, stop: Stop)
    requires
        is_tree(t),
        0 <= i < t.len(),
    ensures
        all_in(t, i, walked(t, i, stop)),
        walked(t, i, stop).no_duplicates(),
    decreases t.len() - i, t[i].children.len() + 1,
{
    if !stop.stops(t[i].value) {
        lemma_walked_from_once(t, i, 0, stop);
    }
}

/// The nodes gone through in the children of `i` from index `k` on are in these, none of them
/// twice.
proof fn lemma_walked_from_once(t: Nodes, i: int, k: int, stop: Stop)
    requires
        is_tree(t),
        0 <= i < t.len(),
        0 <= k <= t[i].children.len(),
    ensures
        ({
            let w = walked_from(t, i, k, stop);
            &&& all_in(t, i, w)
            &&& w.no_duplicates()
            &&& forall|j: int| 0 <= j < w.len() ==> #[trigger] w[j] > i
            &&& forall|j: int|
                0 <= j < w.len() ==> exists|m: int|
                    k <= m < t[i].children.len() && around(
                        t,
                        #[trigger] t[i].children[m],
                        #[trigger] w[j],
                    )
        }),
    decreases t.len() - i, t[i].children.len() - k,
{
    assert(linked(t, i));
    let ch = t[i].children;
    let w = walked_from(t, i, k, stop);
    if k < ch.len() {
        let c = ch[k];
        law_walked_once(t, c, stop);
        lemma_walked_from_once(t, i, k + 1, stop);
        let a = walked(t, c, stop);
        let b = walked_from(t, i, k + 1, stop);
        assert(w == a + b);
        assert forall|j: int| 0 <= j < w.len() implies i < #[trigger] w[j] < t.len() && around(
            t,
            i,
            w[j],
        ) && exists|m: int| k <= m < ch.len() && around(t, #[trigger] ch[m], w[j]) by {
            if j < a.len() {
                assert(w[j] == a[j]);
                lemma_around_parent(t, i, c, a[j]);
                assert(around(t, ch[k], w[j]));
            } else {
                let x = b[j - a.len()];
                assert(w[j] == x);
                let m = choose|m: int| k + 1 <= m < ch.len() && around(t, #[trigger] ch[m], x);
                assert(around(t, ch[m], w[j]));
            }
        }
        assert forall|x: int, y: int| 0 <= x < y < w.len() implies w[x] != w[y] by {
            if y < a.len() {
                assert(w[x] == a[x] && w[y] == a[y]);
            } else if x >= a.len() {
                assert(w[x] == b[x - a.len()] && w[y] == b[y - a.len()]);
            } else {
                assert(w[x] == a[x]);
                let z = b[y - a.len()];
                assert(w[y] == z);
                let m = choose|m: int| k + 1 <= m < ch.len() && around(t, #[trigger] ch[m], z);
                if w[x] == w[y] {
                    assert(t[ch[m]].parent == Some(i));
                    lemma_apart(t, i, c, ch[m], z);
                    assert(ch[k] == ch[m]);
                }
            }
        }
    }
}

impl<'a> Tree<'a> {
    /// Whether `node` is not gone into.
    fn stops_at(&self, node: usize, stop: Stop) -> (r: bool)
        requires
            node < self@.len(),
        ensures
            r == stop.stops(self@[node as int].value),
    {
        match stop {
            Stop::Nowhere => false,
            Stop::AtDefinitions => matches!(
                self.node(node).value,
                NodeValue::FootnoteDefinition(_)
            ),
            Stop::AtReferences => matches!(
                self.node(node).value,
                NodeValue::FootnoteReference(_)
            ),
        }
    }

    /// Puts the children of `node` on the stack, the first one on top.
    fn push_children(&self, node: usize, stack: &mut Vec<usize>, Ghost(stop): Ghost<Stop>)
        requires
            is_tree(self@),
            node < self@.len(),
            forall|j: int| 0 <= j < old(stack)@.len() ==> #[trigger] old(stack)@[j] < self@.len(),
        ensures
            forall|j: int|
                0 <= j < final(stack)@.len() ==> #[trigger] final(stack)@[j] < self@.len(),
            pending(self@, numbers(final(stack)@), stop) == walked_from(
                self@,
                node as int,
                0,
                stop,
            ) + pending(self@, numbers(old(stack)@), stop),
    {
        let ghost t = self@;
        let ghost rest = pending(t, numbers(stack@), stop);
        let n: usize = self.node(node).children.len();
        let mut k: usize = n;
        proof {
            assert(linked(t, node as int));
            assert(walked_from(t, node as int, n as int, stop) + rest =~= rest);
        }
        while k > 0
            invariant
                t == self@,
                node < t.len(),
                linked(t, node as int),
                k <= n,
                n == t[node as int].children.len(),
                forall|j: int| 0 <= j < stack@.len() ==> #[trigger] stack@[j] < t.len(),
                pending(t, numbers(stack@), stop) == walked_from(
                    t,
                    node as int,
                    k as int,
                    stop,
                ) + rest,
            decreases k,
        {
            let c: usize = self.node(node).children[k - 1];
            let ghost before = numbers(stack@);
            proof {
                assert(t[node as int].children[k - 1] == c);
            }
            stack.push(c);
            proof {
                assert(numbers(stack@) =~= before.push(c as int));
                assert(before.push(c as int).drop_last() =~= before);
                assert(walked(t, c as int, stop) + (walked_from(
                    t,
                    node as int,
                    k as int,
                    stop,
                ) + rest) =~= walked_from(t, node as int, k - 1, stop) + rest);
            }
            k -= 1;
        }
    }

    /// The nodes in the order of the document.
    pub fn walk(&self, stop: Stop) -> (r: Vec<usize>)
        requires
            is_tree(self@),
        ensures
            numbers(r@) == walked(self@, 0, stop),
            forall|k: int| 0 <= k < r@.len() ==> #[trigger] r@[k] < self@.len(),
    {
        let ghost t = self@;
        let mut visited: Vec<usize> = Vec::new();
        let mut stack: Vec<usize> = Vec::new();
        stack.push(0);
        proof {
            assert(numbers(stack@) =~= seq![0int]);
            assert(seq![0int].drop_last() =~= Seq::<int>::empty());
            assert(numbers(visited@) =~= Seq::<int>::empty());
            assert(pending(t, Seq::<int>::empty(), stop) =~= Seq::<int>::empty());
            assert(pending(t, seq![0int], stop) == walked(t, 0, stop) + pending(
                t,
                seq![0int].drop_last(),
                stop,
            ));
            assert(numbers(visited@) + pending(t, numbers(stack@), stop) =~= walked(t, 0, stop));
        }
        while stack.len() > 0
            invariant
                t == self@,
                is_tree(t),
                forall|j: int| 0 <= j < stack@.len() ==> #[trigger] stack@[j] < t.len(),
                forall|j: int| 0 <= j < visited@.len() ==> #[trigger] visited@[j] < t.len(),
                numbers(visited@) + pending(t, numbers(stack@), stop) == walked(t, 0, stop),
            decreases pending(t, numbers(stack@), stop).len(),
        {
            let ghost s0 = numbers(stack@);
            let ghost v0 = numbers(visited@);
            let x: usize = stack.pop().unwrap();
            visited.push(x);
            proof {
                assert(numbers(stack@) =~= s0.drop_last());
                assert(numbers(visited@) =~= v0.push(x as int));
                assert(s0.last() == x);
            }
            let ghost rest = pending(t, s0.drop_last(), stop);
            if !self.stops_at(x, stop) {
                self.push_children(x, &mut stack, Ghost(stop));
                proof {
                    let below = walked_from(t, x as int, 0, stop);
                    assert(v0 + (seq![x as int] + below + rest) =~= v0.push(x as int) + (below
                        + rest));
                }
            } else {
                proof {
                    assert(v0 + (seq![x as int] + rest) =~= v0.push(x as int) + rest);
                }
            }
        }
        proof {
            assert(numbers(stack@) =~= Seq::<int>::empty());
            assert(numbers(visited@) + Seq::<int>::empty() =~= numbers(visited@));
        }
        visited
    }
}

/// The child of `i` that `j` is in.
proof fn lemma_child_towards(t: Nodes, i: int, j: int) -> (c: int)
    requires
        around(t, i, j),
        i != j,
        0 <= i,
    ensures
        i < c <= j,
        t[c].parent == Some(i),
        around(t, c, j),
    decreases j,
{
    let p = t[j].parent->0;
    if p == i {
        j
    } else {
        lemma_child_towards(t, i, p)
    }
}

/// What is gone through in a child is gone through.
proof fn lemma_walked_in_child(t: Nodes, i: int, a: int, k: int, j: int, stop: Stop)
    requires
        0 <= i < t.len(),
        0 <= a <= k < t[i].children.len(),
        i < t[i].children[k] < t.len(),
        walked(t, t[i].children[k], stop).contains(j),
    ensures
        walked_from(t, i, a, stop).contains(j),
    decreases k - a,
{
    let c = t[i].children[a];
    let first = if i < c < t.len() {
        walked(t, c, stop)
    } else {
        seq![]
    };
    let rest = walked_from(t, i, a + 1, stop);
    let w = walked_from(t, i, a, stop);
    assert(w == first + rest);
    if a == k {
        let x = choose|x: int| 0 <= x < first.len() && first[x] == j;
        assert(w[x] == j);
    } else {
        lemma_walked_in_child(t, i, a + 1, k, j, stop);
        let x = choose|x: int| 0 <= x < rest.len() && rest[x] == j;
        assert(w[first.len() + x] == j);
    }
}

/// Where no kind of node is passed over, every node in `i` is gone through.
pub proof fn law_walked_all(t: Nodes, i: int, j: int)
    requires
        is_tree(t),
        0 <= i < t.len(),
        0 <= j < t.len(),
        around(t, i, j),
    ensures
        walked(t, i, Stop::Nowhere).contains(j),
    decreases t.len() - i,
{
    let w = walked(t, i, Stop::Nowhere);
    if i == j {
        assert(w[0] == i);
    } else {
        let c = lemma_child_towards(t, i, j);
        law_walked_all(t, c, j);
        assert(linked(t, c));
        let ch = t[i].children;
        assert(ch.contains(c));
        let k = choose|k: int| 0 <= k < ch.len() && ch[k] == c;
        lemma_walked_in_child(t, i, 0, k, j, Stop::Nowhere);
        let r = walked_from(t, i, 0, Stop::Nowhere);
        let x = choose|x: int| 0 <= x < r.len() && r[x] == j;
        assert(w[x + 1] == j);
    }
}

/// Nothing of a kind is passed over.
pub proof fn lemma_picked_all(t: Nodes, s: Seq<int>, f: spec_fn(Value) -> bool, j: int)
    requires
        s.contains(j),
        f(t[j].value),
    ensures
        picked(t, s, f).contains(j),
    decreases s.len(),
{
    let r = s.drop_last();
    let p = picked(t, r, f);
    if s.last() == j {
        assert(picked(t, s, f)[p.len() as int] == j);
    } else {
        let k = choose|k: int| 0 <= k < s.len() && s[k] == j;
        assert(r[k] == j);
        lemma_picked_all(t, r, f, j);
        let x = choose|x: int| 0 <= x < p.len() && p[x] == j;
        assert(picked(t, s, f)[x] == j);
    }
}

} // verus!
