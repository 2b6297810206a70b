//! Footnotes: which definition a reference means, and how they are numbered.

use crate::labels::{normal_label, normalize_label};
use crate::nodes::{NodeValue, Value};
use crate::tree::{
    adopted, detached, is_tree, lemma_adopted, lemma_detached, lemma_same_shape, linked, numbers,
    same_shape, NodeView, Nodes, Tree,
};
use crate::walking::{law_walked_once, lemma_picked, picked, walked, Stop};
use vstd::prelude::*;
use vstd::string::StringExecFns;
use vstd::utf8::{encode_utf8, encode_utf8_valid_utf8};

verus! {

/// A footnote definition.
#[derive(Debug)]
pub struct FootnoteDefinition {
    /// Its label, in the form in which labels are compared.
    pub label: String,
    pub node: usize,
    /// Its number, once it has been referred to.
    pub ix: Option<usize>,
}

/// A footnote definition over mathematical values.
#[verifier::ext_equal]
pub struct NoteView {
    pub label: Seq<char>,
    pub node: int,
    pub ix: Option<int>,
}

impl View for FootnoteDefinition {
    type V = NoteView;

    open spec fn view(&self) -> NoteView {
        NoteView {
            label: self.label@,
            node: self.node as int,
            ix: match self.ix {
                Some(x) => Some(x as int),
                None => None,
            },
        }
    }
}

/// The definitions in `s`.
pub open spec fn notes_in(s: Seq<FootnoteDefinition>) -> Seq<NoteView> {
    Seq::new(s.len(), |k: int| s[k]@)
}

/// The first definition from index `k` on with this label.
pub open spec fn find_note(m: Seq<NoteView>, label: Seq<char>, k: int) -> Option<int>
    decreases m.len() - k,
{
    if k < 0 || k >= m.len() {
        None
    } else if m[k].label == label {
        Some(k)
    } else {
        find_note(m, label, k + 1)
    }
}

/// The definitions with one more. It takes the place of an earlier one with the same label.
pub open spec fn with_note(m: Seq<NoteView>, label: Seq<char>, node: int) -> Seq<NoteView> {
    let n = NoteView { label, node, ix: None };
    match find_note(m, label, 0) {
        Some(k) => m.update(k, n),
        None => m.push(n),
    }
}

/// The name of a footnote definition or of a reference to one.
pub open spec fn footnote_name(v: Value) -> Seq<char> {
    match v {
        Value::FootnoteDefinition(name) => name,
        Value::FootnoteReference(name) => name,
        _ => seq![],
    }
}

/// The kind of footnote definitions.
pub open spec fn definition_kind() -> spec_fn(Value) -> bool {
    |v: Value| v is FootnoteDefinition
}

/// The kind of references to footnotes.
pub open spec fn reference_kind() -> spec_fn(Value) -> bool {
    |v: Value| v is FootnoteReference
}

/// The footnote definitions, in the order of the document; those in others are not among them.
pub open spec fn definitions(t: Nodes) -> Seq<int> {
    picked(t, walked(t, 0, Stop::AtDefinitions), definition_kind())
}

/// The references to footnotes, in the order of the document.
pub open spec fn footnote_references(t: Nodes) -> Seq<int> {
    picked(t, walked(t, 0, Stop::AtReferences), reference_kind())
}

/// The nodes with these definitions taken out, and the definitions by their labels.
pub open spec fn definitions_taken(t: Nodes, ids: Seq<int>) -> (Nodes, Seq<NoteView>)
    decreases ids.len(),
{
    if ids.len() == 0 {
        (t, seq![])
    } else {
        let (u, m) = definitions_taken(t, ids.drop_last());
        let d = ids.last();
        (
            detached(u, d),
            with_note(m, normal_label(encode_utf8(footnote_name(t[d].value))), d),
        )
    }
}

/// The digit `d`.
pub open spec fn digit(d: int) -> char {
    (48 + d) as char
}

/// `n` in decimal digits.
pub open spec fn decimal(n: int) -> Seq<char>
    decreases n,
{
    if n < 10 {
        seq![digit(n)]
    } else {
        decimal(n / 10).push(digit(n % 10))
    }
}

/// Footnotes as they are being numbered.
#[verifier::ext_equal]
pub struct Numbering {
    pub nodes: Nodes,
    pub notes: Seq<NoteView>,
    /// The definitions that have numbers, in the order of these.
    pub order: Seq<int>,
}

/// The nodes with another kind of node at `i`.
pub open spec fn with_value(t: Nodes, i: int, value: Value) -> Nodes {
    t.update(i, NodeView { value, ..t[i] })
}

/// What a reference without a definition turns into.
pub open spec fn plain_reference(name: Seq<char>) -> Seq<char> {
    seq!['[', '^'] + name + seq![']']
}

/// The footnotes when the reference `r` has been given its number: that of its definition, or
/// the next one if it is the first reference to it. One without a definition turns into text.
pub open spec fn reference_numbered(s: Numbering, r: int) -> Numbering {
    let name = footnote_name(s.nodes[r].value);
    match find_note(s.notes, name, 0) {
        Some(k) => match s.notes[k].ix {
            Some(ix) => Numbering {
                nodes: with_value(s.nodes, r, Value::FootnoteReference(decimal(ix))),
                ..s
            },
            None => {
                let ix = s.order.len() as int + 1;
                Numbering {
                    nodes: with_value(s.nodes, r, Value::FootnoteReference(decimal(ix))),
                    notes: s.notes.update(k, NoteView { ix: Some(ix), ..s.notes[k] }),
                    order: s.order.push(s.notes[k].node),
                }
            },
        },
        None => Numbering {
            nodes: with_value(s.nodes, r, Value::Text(plain_reference(name))),
            ..s
        },
    }
}

/// The footnotes when these references have been given their numbers.
pub open spec fn references_numbered(s: Numbering, ids: Seq<int>) -> Numbering
    decreases ids.len(),
{
    if ids.len() == 0 {
        s
    } else {
        reference_numbered(references_numbered(s, ids.drop_last()), ids.last())
    }
}

/// The nodes with the definitions at the end of the document, each named by its number.
pub open spec fn notes_placed(t: Nodes, order: Seq<int>) -> Nodes
    decreases order.len(),
{
    if order.len() == 0 {
        t
    } else {
        let u = notes_placed(t, order.drop_last());
        let d = order.last();
        adopted(
            with_value(u, d, Value::FootnoteDefinition(decimal(order.len() as int))),
            0,
            d,
        )
    }
}

/// The footnotes with all references numbered.
pub open spec fn numbering(t: Nodes) -> Numbering {
    let (u, m) = definitions_taken(t, definitions(t));
    references_numbered(
        Numbering { nodes: u, notes: m, order: seq![] },
        footnote_references(u),
    )
}

/// The nodes with footnotes numbered in the order of the first references to them, and the
/// definitions that are referred to, in this order, at the end of the document.
pub open spec fn footnotes_processed(t: Nodes) -> Nodes {
    notes_placed(numbering(t).nodes, numbering(t).order)
}

/// The definitions are different nodes outside the tree.
pub open spec fn notes_apart(t: Nodes, m: Seq<NoteView>) -> bool {
    &&& forall|k: int|
        0 <= k < m.len() ==> 0 < (#[trigger] m[k]).node < t.len() && t[m[k].node].parent is None
    &&& forall|k: int, l: int|
        0 <= k < l < m.len() ==> (#[trigger] m[k]).node != (#[trigger] m[l]).node
}

/// Definitions have the numbers of their places in the order.
pub open spec fn numbers_agree(m: Seq<NoteView>, order: Seq<int>) -> bool {
    &&& forall|k: int|
        0 <= k < m.len() ==> ((#[trigger] m[k]).ix matches Some(x) ==> 1 <= x <= order.len()
            && order[x - 1] == m[k].node)
    &&& forall|j: int|
        0 <= j < order.len() ==> exists|k: int|
            0 <= k < m.len() && (#[trigger] m[k]).node == #[trigger] order[j] && m[k].ix == Some(
                j + 1,
            )
}

/// Where a definition is found.
proof fn lemma_find_note(m: Seq<NoteView>, label: Seq<char>, k: int)
    requires
        0 <= k,
    ensures
        find_note(m, label, k) matches Some(j) ==> k <= j < m.len() && m[j].label == label,
    decreases m.len() - k,
{
    if k < m.len() {
        lemma_find_note(m, label, k + 1);
    }
}

/// What taking definitions out does.
pub proof fn lemma_definitions_taken(t: Nodes, ids: Seq<int>)
    requires
        is_tree(t),
        ids.no_duplicates(),
        forall|j: int| 0 <= j < ids.len() ==> 0 < #[trigger] ids[j] < t.len(),
    ensures
        ({
            let (u, m) = definitions_taken(t, ids);
            &&& is_tree(u)
            &&& u.len() == t.len()
            &&& forall|j: int|
                0 <= j < t.len() ==> #[trigger] u[j] == (NodeView {
                    parent: u[j].parent,
                    children: u[j].children,
                    ..t[j]
                })
            &&& notes_apart(u, m)
            &&& forall|k: int| 0 <= k < m.len() ==> ids.contains((#[trigger] m[k]).node)
            &&& forall|k: int| 0 <= k < m.len() ==> (#[trigger] m[k]).ix is None
            &&& forall|j: int| 0 <= j < ids.len() ==> u[#[trigger] ids[j]].parent is None
        }),
    decreases ids.len(),
{
    if ids.len() > 0 {
        let r = ids.drop_last();
        let d = ids.last();
        assert(ids[ids.len() - 1] == d);
        assert forall|j: int| 0 <= j < r.len() implies 0 < #[trigger] r[j] < t.len() by {
            assert(r[j] == ids[j]);
        }
        lemma_definitions_taken(t, r);
        let (u, m) = definitions_taken(t, r);
        let v = detached(u, d);
        lemma_detached(u, d);
        assert(linked(u, d));
        let label = normal_label(encode_utf8(footnote_name(t[d].value)));
        let n = with_note(m, label, d);
        lemma_find_note(m, label, 0);
        assert forall|k: int| 0 <= k < n.len() implies {
            &&& (#[trigger] n[k]).node == d || (k < m.len() && n[k] == m[k])
            &&& ids.contains(n[k].node)
            &&& n[k].ix is None
            &&& 0 < n[k].node < v.len()
            &&& v[n[k].node].parent is None
        } by {
            if n[k].node == d && !(k < m.len() && n[k] == m[k]) {
                assert(ids.contains(d));
            } else {
                assert(n[k] == m[k]);
                let x = choose|x: int| 0 <= x < r.len() && r[x] == m[k].node;
                assert(ids[x] == m[k].node);
            }
        }
        assert forall|k: int, l: int| 0 <= k < l < n.len() implies (#[trigger] n[k]).node
            != (#[trigger] n[l]).node by {
            if n[k] != m[k] || l >= m.len() || n[l] != m[l] {
                let o = if k < m.len() && n[k] == m[k] {
                    k
                } else {
                    l
                };
                assert(n[o] == m[o]);
                let x = choose|x: int| 0 <= x < r.len() && r[x] == m[o].node;
                assert(ids[x] == m[o].node);
                assert(ids[ids.len() - 1] == d);
            }
        }
        assert forall|j: int| 0 <= j < ids.len() implies v[#[trigger] ids[j]].parent is None by {
            if j < r.len() {
                assert(r[j] == ids[j]);
                assert(u[r[j]].parent is None);
            }
        }
    }
}

/// What numbering a reference does.
proof fn lemma_reference_numbered(s: Numbering, r: int)
    requires
        is_tree(s.nodes),
        0 <= r < s.nodes.len(),
        notes_apart(s.nodes, s.notes),
        numbers_agree(s.notes, s.order),
    ensures
        ({
            let q = reference_numbered(s, r);
            &&& is_tree(q.nodes)
            &&& same_shape(s.nodes, q.nodes)
            &&& notes_apart(q.nodes, q.notes)
            &&& numbers_agree(q.notes, q.order)
            &&& forall|j: int|
                0 <= j < s.nodes.len() && j != r ==> #[trigger] q.nodes[j] == s.nodes[j]
        }),
{
    let q = reference_numbered(s, r);
    let name = footnote_name(s.nodes[r].value);
    lemma_find_note(s.notes, name, 0);
    assert(same_shape(s.nodes, q.nodes));
    lemma_same_shape(s.nodes, q.nodes);
    assert forall|k: int| 0 <= k < q.notes.len() implies (#[trigger] q.notes[k]).node
        == s.notes[k].node by {}
    if q.order.len() > s.order.len() {
        let k0 = find_note(s.notes, name, 0)->0;
        assert forall|j: int| 0 <= j < q.order.len() implies exists|k: int|
            0 <= k < q.notes.len() && (#[trigger] q.notes[k]).node == #[trigger] q.order[j]
                && q.notes[k].ix == Some(j + 1) by {
            if j < s.order.len() {
                assert(q.order[j] == s.order[j]);
                let k = choose|k: int|
                    0 <= k < s.notes.len() && (#[trigger] s.notes[k]).node == s.order[j]
                        && s.notes[k].ix == Some(j + 1);
                assert(q.notes[k] == s.notes[k]);
            } else {
                assert(q.notes[k0].node == q.order[j]);
            }
        }
    }
}

/// What numbering references does.
pub proof fn lemma_references_numbered(s: Numbering, ids: Seq<int>)
    requires
        is_tree(s.nodes),
        notes_apart(s.nodes, s.notes),
        numbers_agree(s.notes, s.order),
        ids.no_duplicates(),
        forall|j: int| 0 <= j < ids.len() ==> 0 <= #[trigger] ids[j] < s.nodes.len(),
    ensures
        ({
            let q = references_numbered(s, ids);
            &&& is_tree(q.nodes)
            &&& same_shape(s.nodes, q.nodes)
            &&& notes_apart(q.nodes, q.notes)
            &&& numbers_agree(q.notes, q.order)
            &&& forall|j: int|
                0 <= j < s.nodes.len() && !ids.contains(j) ==> #[trigger] q.nodes[j]
                    == s.nodes[j]
        }),
    decreases ids.len(),
{
    if ids.len() > 0 {
        let r = ids.drop_last();
        assert(ids[ids.len() - 1] == ids.last());
        assert forall|j: int| 0 <= j < r.len() implies 0 <= #[trigger] r[j] < s.nodes.len() by {
            assert(r[j] == ids[j]);
        }
        lemma_references_numbered(s, r);
        let q = references_numbered(s, r);
        lemma_reference_numbered(q, ids.last());
        let v = reference_numbered(q, ids.last());
        assert forall|j: int|
            0 <= j < s.nodes.len() && !ids.contains(j) implies #[trigger] v.nodes[j]
            == s.nodes[j] by {
            assert(j != ids.last());
            if r.contains(j) {
                let k = choose|k: int| 0 <= k < r.len() && r[k] == j;
                assert(ids[k] == j);
            }
            assert(q.nodes[j] == s.nodes[j]);
        }
    }
}

/// What placing the definitions does.
pub proof fn lemma_notes_placed(t: Nodes, order: Seq<int>)
    requires
        is_tree(t),
        order.no_duplicates(),
        forall|j: int|
            0 <= j < order.len() ==> 0 < #[trigger] order[j] < t.len() && t[order[j]].parent
                is None,
    ensures
        is_tree(notes_placed(t, order)),
        notes_placed(t, order).len() == t.len(),
        notes_placed(t, order)[0].value == t[0].value,
        notes_placed(t, order)[0].open == t[0].open,
        forall|j: int|
            0 <= j < t.len() && !order.contains(j) ==> (#[trigger] notes_placed(
                t,
                order,
            )[j]).parent == t[j].parent,
    decreases order.len(),
{
    if order.len() > 0 {
        let r = order.drop_last();
        let d = order.last();
        assert(order[order.len() - 1] == d);
        assert forall|j: int| 0 <= j < r.len() implies 0 < #[trigger] r[j] < t.len()
            && t[r[j]].parent is None by {
            assert(r[j] == order[j]);
        }
        lemma_notes_placed(t, r);
        let u = notes_placed(t, r);
        assert(!r.contains(d)) by {
            if r.contains(d) {
                let k = choose|k: int| 0 <= k < r.len() && r[k] == d;
                assert(order[k] == order[order.len() - 1]);
            }
        }
        let v = with_value(u, d, Value::FootnoteDefinition(decimal(order.len() as int)));
        assert(same_shape(u, v));
        lemma_same_shape(u, v);
        assert(u[d].parent == t[d].parent);
        lemma_adopted(v, 0, d);
        assert forall|j: int| 0 <= j < t.len() && !order.contains(j) implies (
        #[trigger] notes_placed(t, order)[j]).parent == t[j].parent by {
            assert(j != d);
            if r.contains(j) {
                let k = choose|k: int| 0 <= k < r.len() && r[k] == j;
                assert(order[k] == j);
            }
            assert(u[j].parent == t[j].parent);
        }
    }
}

/// The definitions in the order of their numbers are all different.
pub proof fn lemma_order_distinct(t: Nodes, m: Seq<NoteView>, order: Seq<int>)
    requires
        notes_apart(t, m),
        numbers_agree(m, order),
    ensures
        order.no_duplicates(),
        forall|j: int|
            0 <= j < order.len() ==> 0 < #[trigger] order[j] < t.len() && t[order[j]].parent
                is None,
{
    assert forall|i: int, j: int| 0 <= i < j < order.len() implies order[i] != order[j] by {
        let a = choose|k: int|
            0 <= k < m.len() && (#[trigger] m[k]).node == order[i] && m[k].ix == Some(i + 1);
        let b = choose|k: int|
            0 <= k < m.len() && (#[trigger] m[k]).node == order[j] && m[k].ix == Some(j + 1);
        assert(m[a].node == order[i]);
        assert(m[b].node == order[j]);
        if a < b {
            assert(m[a].node != m[b].node);
        } else if b < a {
            assert(m[b].node != m[a].node);
        }
    }
    assert forall|j: int| 0 <= j < order.len() implies 0 < #[trigger] order[j] < t.len()
        && t[order[j]].parent is None by {
        let a = choose|k: int|
            0 <= k < m.len() && (#[trigger] m[k]).node == order[j] && m[k].ix == Some(j + 1);
        assert(m[a].node == order[j]);
    }
}

/// Writes `n` in decimal digits behind `s`.
fn push_decimal(s: &mut String, n: usize)
    ensures
        final(s)@ == old(s)@ + decimal(n as int),
    decreases n,
{
    let ghost before = s@;
    if n >= 10 {
        push_decimal(s, n / 10);
    }
    let d: u8 = (n % 10) as u8;
    let c: char = (48 + d) as char;
    s.push(c);
    proof {
        if n >= 10 {
            assert(before + decimal(n as int / 10).push(digit(n as int % 10)) =~= (before
                + decimal(n as int / 10)).push(digit(n as int % 10)));
        } else {
            assert(before + seq![digit(n as int)] =~= before.push(digit(n as int)));
        }
    }
}

/// `n` in decimal digits.
pub fn decimal_text(n: usize) -> (r: String)
    ensures
        r@ == decimal(n as int),
{
    let mut s: String = String::new();
    push_decimal(&mut s, n);
    proof {
        assert(Seq::<char>::empty() + decimal(n as int) =~= decimal(n as int));
    }
    s
}

/// Finds the definition with this label.
fn find_definition(notes: &Vec<FootnoteDefinition>, label: &String) -> (r: Option<usize>)
    ensures
        crate::scanners::index_of(r) == find_note(notes_in(notes@), label@, 0),
        r matches Some(k) ==> k < notes@.len(),
{
    let mut k: usize = 0;
    while k < notes.len()
        invariant
            k <= notes@.len(),
            find_note(notes_in(notes@), label@, 0) == find_note(
                notes_in(notes@),
                label@,
                k as int,
            ),
        decreases notes@.len() - k,
    {
        if notes[k].label == *label {
            return Some(k);
        }
        k += 1;
    }
    None
}

/// What a reference without a definition turns into.
fn plain_reference_text(name: &String) -> (r: String)
    ensures
        r@ == plain_reference(name@),
{
    let mut label: String = String::new();
    label.push('[');
    label.push('^');
    label.append(name.as_str());
    label.push(']');
    proof {
        assert(label@ =~= plain_reference(name@));
    }
    label
}

impl<'a> Tree<'a> {
    /// Takes the footnote definitions out of the tree, and gives them by their labels.
    fn find_footnote_definitions(&mut self) -> (r: Vec<FootnoteDefinition>)
        requires
            is_tree(old(self)@),
            !(old(self)@[0].value is FootnoteDefinition),
        ensures
            (final(self)@, notes_in(r@)) == definitions_taken(
                old(self)@,
                definitions(old(self)@),
            ),
            is_tree(final(self)@),
            notes_apart(final(self)@, notes_in(r@)),
            numbers_agree(notes_in(r@), seq![]),
            final(self)@.len() == old(self)@.len(),
            final(self)@[0].value == old(self)@[0].value,
    {
        let ghost t = self@;
        let all: Vec<usize> = self.walk(Stop::AtDefinitions);
        let ghost ids = numbers(all@);
        let ghost f = definition_kind();
        let mut notes: Vec<FootnoteDefinition> = Vec::new();
        let mut k: usize = 0;
        proof {
            law_walked_once(t, 0, Stop::AtDefinitions);
            assert(ids.subrange(0, 0) =~= Seq::<int>::empty());
            assert(picked(t, ids.subrange(0, 0), f) =~= Seq::<int>::empty());
            assert(notes_in(notes@) =~= Seq::<NoteView>::empty());
        }
        while k < all.len()
            invariant
                is_tree(t),
                !(t[0].value is FootnoteDefinition),
                k <= all@.len(),
                ids == numbers(all@),
                ids.no_duplicates(),
                f == definition_kind(),
                forall|j: int| 0 <= j < all@.len() ==> #[trigger] all@[j] < t.len(),
                (self@, notes_in(notes@)) == definitions_taken(
                    t,
                    picked(t, ids.subrange(0, k as int), f),
                ),
                is_tree(self@),
                self@.len() == t.len(),
                forall|j: int| 0 <= j < t.len() ==> (#[trigger] self@[j]).value == t[j].value,
            decreases all@.len() - k,
        {
            let x: usize = all[k];
            let ghost before = picked(t, ids.subrange(0, k as int), f);
            let ghost next = ids.subrange(0, k + 1);
            proof {
                assert(next.drop_last() =~= ids.subrange(0, k as int));
                assert(next.last() == x);
                assert(self@[x as int].value == t[x as int].value);
            }
            match &self.node(x).value {
                NodeValue::FootnoteDefinition(name) => {
                    proof {
                        encode_utf8_valid_utf8(name@);
                        assert(picked(t, next, f) == before.push(x as int));
                        assert(before.push(x as int).drop_last() =~= before);
                    }
                    let label: String = normalize_label(name.as_str().as_bytes());
                    self.detach(x);
                    let ghost m = notes_in(notes@);
                    let ghost l = label@;
                    match find_definition(&notes, &label) {
                        Some(j) => {
                            notes.set(j, FootnoteDefinition { label, node: x, ix: None });
                        },
                        None => {
                            notes.push(FootnoteDefinition { label, node: x, ix: None });
                        },
                    }
                    proof {
                        assert(notes_in(notes@) =~= with_note(m, l, x as int));
                        lemma_part(t, next, f);
                        lemma_definitions_taken(t, picked(t, next, f));
                    }
                },
                _ => {},
            }
            k += 1;
        }
        proof {
            assert(ids.subrange(0, k as int) =~= ids);
            lemma_part(t, ids, f);
            lemma_definitions_taken(t, picked(t, ids, f));
        }
        notes
    }

    /// Gives the reference `r` its number, or turns it into text.
    fn number_reference(
        &mut self,
        r: usize,
        notes: &mut Vec<FootnoteDefinition>,
        order: &mut Vec<usize>,
    )
        requires
            is_tree(old(self)@),
            r < old(self)@.len(),
            old(self)@[r as int].value is FootnoteReference,
            old(order)@.len() < usize::MAX,
        ensures
            (Numbering {
                nodes: final(self)@,
                notes: notes_in(final(notes)@),
                order: numbers(final(order)@),
            }) == reference_numbered(
                Numbering {
                    nodes: old(self)@,
                    notes: notes_in(old(notes)@),
                    order: numbers(old(order)@),
                },
                r as int,
            ),
            final(order)@.len() <= old(order)@.len() + 1,
    {
        let ghost t = self@;
        let ghost m = notes_in(notes@);
        let ghost o = numbers(order@);
        let name: String = match &self.node(r).value {
            NodeValue::FootnoteReference(name) => name.clone(),
            _ => String::new(),
        };
        match find_definition(notes, &name) {
            Some(k) => {
                let ix: usize = match notes[k].ix {
                    Some(ix) => ix,
                    None => {
                        let ix: usize = order.len() + 1;
                        let node: usize = notes[k].node;
                        let label: String = notes[k].label.clone();
                        notes.set(k, FootnoteDefinition { label, node, ix: Some(ix) });
                        order.push(node);
                        proof {
                            assert(numbers(order@) =~= o.push(node as int));
                            assert(notes_in(notes@) =~= m.update(
                                k as int,
                                NoteView { ix: Some(ix as int), ..m[k as int] },
                            ));
                        }
                        ix
                    },
                };
                self.nodes[r].value = NodeValue::FootnoteReference(decimal_text(ix));
                proof {
                    assert(self@ =~= with_value(
                        t,
                        r as int,
                        Value::FootnoteReference(decimal(ix as int)),
                    ));
                }
            },
            None => {
                self.nodes[r].value = NodeValue::Text(plain_reference_text(&name));
                proof {
                    assert(self@ =~= with_value(
                        t,
                        r as int,
                        Value::Text(plain_reference(name@)),
                    ));
                }
            },
        }
    }

    /// Numbers the references to footnotes, and gives the definitions that they mean in the
    /// order of their numbers.
    fn find_footnote_references(&mut self, notes: &mut Vec<FootnoteDefinition>) -> (r: Vec<usize>)
        requires
            is_tree(old(self)@),
            notes_apart(old(self)@, notes_in(old(notes)@)),
            numbers_agree(notes_in(old(notes)@), seq![]),
        ensures
            (Numbering {
                nodes: final(self)@,
                notes: notes_in(final(notes)@),
                order: numbers(r@),
            }) == references_numbered(
                Numbering {
                    nodes: old(self)@,
                    notes: notes_in(old(notes)@),
                    order: seq![],
                },
                footnote_references(old(self)@),
            ),
            is_tree(final(self)@),
            final(self)@.len() == old(self)@.len(),
            notes_apart(final(self)@, notes_in(final(notes)@)),
            numbers_agree(notes_in(final(notes)@), numbers(r@)),
    {
        let ghost t = self@;
        let all: Vec<usize> = self.walk(Stop::AtReferences);
        let ghost ids = numbers(all@);
        let ghost f = reference_kind();
        let ghost s0 = Numbering { nodes: t, notes: notes_in(notes@), order: seq![] };
        let mut order: Vec<usize> = Vec::new();
        let mut k: usize = 0;
        proof {
            law_walked_once(t, 0, Stop::AtReferences);
            assert(ids.subrange(0, 0) =~= Seq::<int>::empty());
            assert(picked(t, ids.subrange(0, 0), f) =~= Seq::<int>::empty());
            assert(numbers(order@) =~= Seq::<int>::empty());
        }
        while k < all.len()
            invariant
                is_tree(t),
                k <= all@.len(),
                order@.len() <= k,
                ids == numbers(all@),
                ids.no_duplicates(),
                f == reference_kind(),
                s0.nodes == t,
                notes_apart(t, s0.notes),
                numbers_agree(s0.notes, s0.order),
                forall|j: int| 0 <= j < all@.len() ==> #[trigger] all@[j] < t.len(),
                (Numbering {
                    nodes: self@,
                    notes: notes_in(notes@),
                    order: numbers(order@),
                }) == references_numbered(s0, picked(t, ids.subrange(0, k as int), f)),
                is_tree(self@),
                self@.len() == t.len(),
            decreases all@.len() - k,
        {
            let x: usize = all[k];
            let ghost before = picked(t, ids.subrange(0, k as int), f);
            let ghost next = ids.subrange(0, k + 1);
            proof {
                assert(next.drop_last() =~= ids.subrange(0, k as int));
                assert(next.last() == x);
                lemma_part(t, ids.subrange(0, k as int), f);
                lemma_references_numbered(s0, before);
                assert(!before.contains(x as int)) by {
                    if before.contains(x as int) {
                        let b = choose|b: int| 0 <= b < before.len() && before[b] == x;
                        let part = ids.subrange(0, k as int);
                        let a = choose|a: int| 0 <= a < part.len() && part[a] == before[b];
                        assert(ids[a] == ids[k as int]);
                    }
                }
                assert(self@[x as int] == t[x as int]);
            }
            if matches!(self.node(x).value, NodeValue::FootnoteReference(_)) {
                proof {
                    assert(picked(t, next, f) == before.push(x as int));
                    assert(before.push(x as int).drop_last() =~= before);
                }
                self.number_reference(x, notes, &mut order);
                proof {
                    lemma_part(t, next, f);
                    lemma_references_numbered(s0, picked(t, next, f));
                }
            }
            k += 1;
        }
        proof {
            assert(ids.subrange(0, k as int) =~= ids);
            lemma_part(t, ids, f);
            lemma_references_numbered(s0, picked(t, ids, f));
        }
        order
    }

    /// Numbers the footnotes in the order of the first references to them, and puts the
    /// definitions that are referred to at the end of the document in this order.
    pub fn process_footnotes(&mut self)
        requires
            is_tree(old(self)@),
            old(self)@[0].value is Document,
        ensures
            final(self)@ == footnotes_processed(old(self)@),
            is_tree(final(self)@),
            final(self)@.len() == old(self)@.len(),
    {
        let mut notes: Vec<FootnoteDefinition> = self.find_footnote_definitions();
        let order: Vec<usize> = self.find_footnote_references(&mut notes);
        let ghost t = self@;
        let ghost ids = numbers(order@);
        proof {
            lemma_order_distinct(t, notes_in(notes@), ids);
            assert(ids.subrange(0, 0) =~= Seq::<int>::empty());
        }
        let n: usize = order.len();
        let mut k: usize = 0;
        while k < n
            invariant
                is_tree(t),
                k <= n,
                n == order@.len(),
                ids == numbers(order@),
                ids.no_duplicates(),
                forall|j: int|
                    0 <= j < ids.len() ==> 0 < #[trigger] ids[j] < t.len() && t[ids[j]].parent
                        is None,
                self@ == notes_placed(t, ids.subrange(0, k as int)),
                self@.len() == t.len(),
            decreases n - k,
        {
            let d: usize = order[k];
            let ghost u = self@;
            proof {
                let next = ids.subrange(0, k + 1);
                assert(next.drop_last() =~= ids.subrange(0, k as int));
                assert(next.last() == d);
                assert(ids[k as int] == d);
            }
            self.nodes[d].value = NodeValue::FootnoteDefinition(decimal_text(k + 1));
            proof {
                assert(self@ =~= with_value(
                    u,
                    d as int,
                    Value::FootnoteDefinition(decimal(k + 1)),
                ));
            }
            self.adopt(0, d);
            k += 1;
        }
        proof {
            assert(ids.subrange(0, k as int) =~= ids);
            lemma_notes_placed(t, ids);
        }
    }
}

/// What is picked from some of the nodes gone through is different, and no root unless the root
/// is of that kind.
proof fn lemma_part(t: Nodes, s: Seq<int>, f: spec_fn(Value) -> bool)
    requires
        s.no_duplicates(),
        forall|j: int| 0 <= j < s.len() ==> 0 <= #[trigger] s[j] < t.len(),
    ensures
        picked(t, s, f).no_duplicates(),
        forall|j: int|
            0 <= j < picked(t, s, f).len() ==> 0 <= #[trigger] picked(t, s, f)[j] < t.len(),
        !f(t[0].value) ==> forall|j: int|
            0 <= j < picked(t, s, f).len() ==> 0 < #[trigger] picked(t, s, f)[j],
        forall|j: int|
            0 <= j < picked(t, s, f).len() ==> s.contains(#[trigger] picked(t, s, f)[j]),
{
    lemma_picked(t, s, f);
    let p = picked(t, s, f);
    assert forall|j: int| 0 <= j < p.len() implies 0 <= #[trigger] p[j] < t.len() by {
        assert(s.contains(p[j]));
        let k = choose|k: int| 0 <= k < s.len() && s[k] == p[j];
    }
    if !f(t[0].value) {
        assert forall|j: int| 0 <= j < p.len() implies 0 < #[trigger] p[j] by {
            assert(f(t[p[j]].value));
            assert(s.contains(p[j]));
            let k = choose|k: int| 0 <= k < s.len() && s[k] == p[j];
        }
    }
}

/// The number of the definition with this label.
pub open spec fn number_of(m: Seq<NoteView>, label: Seq<char>) -> Option<int> {
    match find_note(m, label, 0) {
        Some(k) => m[k].ix,
        None => None,
    }
}

/// What a reference to this label turns into.
pub open spec fn numbered_value(m: Seq<NoteView>, label: Seq<char>) -> Value {
    match number_of(m, label) {
        Some(x) => Value::FootnoteReference(decimal(x)),
        None => Value::Text(plain_reference(label)),
    }
}

/// The labels of `m` are those of `n`.
spec fn same_labels(m: Seq<NoteView>, n: Seq<NoteView>) -> bool {
    m.len() == n.len() && forall|k: int|
        0 <= k < m.len() ==> (#[trigger] m[k]).label == n[k].label
}

/// Where a definition is found depends on the labels alone.
proof fn lemma_find_by_labels(m: Seq<NoteView>, n: Seq<NoteView>, label: Seq<char>, k: int)
    requires
        same_labels(m, n),
    ensures
        find_note(m, label, k) == find_note(n, label, k),
    decreases m.len() - k,
{
    if 0 <= k < m.len() {
        assert(m[k].label == n[k].label);
        lemma_find_by_labels(m, n, label, k + 1);
    }
}

/// The references `ids` of `t` have the numbers that the definitions `m` have.
pub open spec fn references_agree(t: Nodes, u: Nodes, m: Seq<NoteView>, ids: Seq<int>) -> bool {
    forall|k: int|
        0 <= k < ids.len() ==> u[#[trigger] ids[k]].value == numbered_value(
            m,
            footnote_name(t[ids[k]].value),
        )
}

/// The number of the reference `r`.
pub open spec fn reference_number(t: Nodes, m: Seq<NoteView>, r: int) -> Option<int> {
    number_of(m, footnote_name(t[r].value))
}

/// Whether a reference before index `k` has the number before that of the reference there.
pub open spec fn preceded(t: Nodes, m: Seq<NoteView>, ids: Seq<int>, k: int) -> bool {
    match reference_number(t, m, ids[k]) {
        Some(x) => exists|l: int|
            0 <= l < k && reference_number(t, m, #[trigger] ids[l]) == Some(x - 1),
        None => false,
    }
}

/// A reference with a number above the first comes after one with the number before it.
pub open spec fn in_order(t: Nodes, m: Seq<NoteView>, ids: Seq<int>) -> bool {
    forall|k: int|
        0 <= k < ids.len() ==> match reference_number(t, m, #[trigger] ids[k]) {
            Some(x) => x > 1 ==> preceded(t, m, ids, k),
            None => true,
        }
}

/// Every definition that a reference is to has a number, and no others.
spec fn just_referred(t: Nodes, m: Seq<NoteView>, ids: Seq<int>) -> bool {
    &&& forall|k: int|
        0 <= k < ids.len() ==> {
            let label = footnote_name(t[#[trigger] ids[k]].value);
            find_note(m, label, 0) is Some ==> number_of(m, label) is Some
        }
    &&& forall|j: int|
        0 <= j < m.len() ==> ((#[trigger] m[j]).ix is Some ==> exists|k: int|
            0 <= k < ids.len() && number_of(m, footnote_name(t[#[trigger] ids[k]].value))
                == m[j].ix)
}

/// What the references to footnotes turn into.
#[verifier::rlimit(40)]
proof fn lemma_numbers(s: Numbering, ids: Seq<int>)
    requires
        is_tree(s.nodes),
        notes_apart(s.nodes, s.notes),
        s.order.len() == 0,
        forall|k: int| 0 <= k < s.notes.len() ==> (#[trigger] s.notes[k]).ix is None,
        ids.no_duplicates(),
        forall|j: int| 0 <= j < ids.len() ==> 0 <= #[trigger] ids[j] < s.nodes.len(),
    ensures
        ({
            let q = references_numbered(s, ids);
            &&& same_labels(q.notes, s.notes)
            &&& references_agree(s.nodes, q.nodes, q.notes, ids)
            &&& in_order(s.nodes, q.notes, ids)
            &&& just_referred(s.nodes, q.notes, ids)
        }),
    decreases ids.len(),
{
    if ids.len() > 0 {
        let t = s.nodes;
        let r = ids.drop_last();
        let x = ids.last();
        assert(ids[ids.len() - 1] == x);
        assert forall|j: int| 0 <= j < r.len() implies 0 <= #[trigger] r[j] < t.len() by {
            assert(r[j] == ids[j]);
        }
        lemma_numbers(s, r);
        lemma_references_numbered(s, r);
        let q = references_numbered(s, r);
        assert(!r.contains(x)) by {
            if r.contains(x) {
                let k = choose|k: int| 0 <= k < r.len() && r[k] == x;
                assert(ids[k] == ids[ids.len() - 1]);
            }
        }
        assert(q.nodes[x] == t[x]);
        let name = footnote_name(t[x].value);
        let v = reference_numbered(q, x);
        lemma_find_note(q.notes, name, 0);
        assert(same_labels(v.notes, q.notes));
        assert forall|label: Seq<char>| find_note(v.notes, label, 0) == #[trigger] find_note(
            q.notes,
            label,
            0,
        ) by {
            lemma_find_by_labels(v.notes, q.notes, label, 0);
        }
        assert forall|label: Seq<char>| number_of(q.notes, label) is Some implies number_of(
            v.notes,
            label,
        ) == #[trigger] number_of(q.notes, label) by {
            lemma_find_note(q.notes, label, 0);
            assert(find_note(v.notes, label, 0) == find_note(q.notes, label, 0));
        }
        assert(find_note(v.notes, name, 0) == find_note(q.notes, name, 0));
        assert(v.nodes[x].value == numbered_value(v.notes, name));
        assert forall|k: int| 0 <= k < ids.len() implies v.nodes[#[trigger] ids[k]].value
            == numbered_value(v.notes, footnote_name(t[ids[k]].value)) by {
            if k < r.len() {
                let label = footnote_name(t[r[k]].value);
                assert(ids[k] == r[k]);
                assert(r.contains(r[k]));
                assert(v.nodes[r[k]] == q.nodes[r[k]]);
                assert(find_note(v.notes, label, 0) == find_note(q.notes, label, 0));
                if number_of(q.notes, label) is Some {
                    assert(number_of(v.notes, label) == number_of(q.notes, label));
                }
            }
        }
        assert(just_referred(t, v.notes, ids)) by {
            assert forall|k: int| 0 <= k < ids.len() implies ({
                let label = footnote_name(t[#[trigger] ids[k]].value);
                find_note(v.notes, label, 0) is Some ==> number_of(v.notes, label) is Some
            }) by {
                let label = footnote_name(t[ids[k]].value);
                assert(find_note(v.notes, label, 0) == find_note(q.notes, label, 0));
                if k < r.len() {
                    assert(ids[k] == r[k]);
                    if find_note(q.notes, label, 0) is Some {
                        assert(number_of(v.notes, label) == number_of(q.notes, label));
                    }
                }
            }
            assert forall|j: int|
                0 <= j < v.notes.len() && (#[trigger] v.notes[j]).ix is Some implies exists|k: int|
                0 <= k < ids.len() && number_of(
                    v.notes,
                    footnote_name(t[#[trigger] ids[k]].value),
                ) == v.notes[j].ix by {
                if v.notes[j] == q.notes[j] {
                    let k = choose|k: int|
                        0 <= k < r.len() && number_of(
                            q.notes,
                            footnote_name(t[#[trigger] r[k]].value),
                        ) == q.notes[j].ix;
                    assert(ids[k] == r[k]);
                    let label = footnote_name(t[r[k]].value);
                    assert(number_of(v.notes, label) == number_of(q.notes, label));
                } else {
                    assert(number_of(v.notes, name) == v.notes[j].ix);
                    assert(ids[ids.len() - 1] == x);
                }
            }
        }
        lemma_in_order(s, ids);
    }
}

/// The numbers that references have come one after the other.
#[verifier::rlimit(40)]
proof fn lemma_in_order(s: Numbering, ids: Seq<int>)
    requires
        is_tree(s.nodes),
        notes_apart(s.nodes, s.notes),
        s.order.len() == 0,
        forall|k: int| 0 <= k < s.notes.len() ==> (#[trigger] s.notes[k]).ix is None,
        ids.len() > 0,
        ids.no_duplicates(),
        forall|j: int| 0 <= j < ids.len() ==> 0 <= #[trigger] ids[j] < s.nodes.len(),
        ({
            let q = references_numbered(s, ids.drop_last());
            &&& in_order(s.nodes, q.notes, ids.drop_last())
            &&& just_referred(s.nodes, q.notes, ids.drop_last())
            &&& same_labels(q.notes, s.notes)
        }),
    ensures
        in_order(s.nodes, references_numbered(s, ids).notes, ids),
{
    let t = s.nodes;
    let r = ids.drop_last();
    let x = ids.last();
    assert(ids[ids.len() - 1] == x);
    assert forall|j: int| 0 <= j < r.len() implies 0 <= #[trigger] r[j] < t.len() by {
        assert(r[j] == ids[j]);
    }
    lemma_references_numbered(s, r);
    let q = references_numbered(s, r);
    assert(!r.contains(x)) by {
        if r.contains(x) {
            let k = choose|k: int| 0 <= k < r.len() && r[k] == x;
            assert(ids[k] == ids[ids.len() - 1]);
        }
    }
    assert(q.nodes[x] == t[x]);
    let name = footnote_name(t[x].value);
    let v = reference_numbered(q, x);
    lemma_find_note(q.notes, name, 0);
    assert(same_labels(v.notes, q.notes));
    assert forall|label: Seq<char>| number_of(q.notes, label) is Some implies number_of(
        v.notes,
        label,
    ) == #[trigger] number_of(q.notes, label) by {
        lemma_find_note(q.notes, label, 0);
        lemma_find_by_labels(v.notes, q.notes, label, 0);
    }
    assert forall|k: int| 0 <= k < ids.len() implies match reference_number(
        t,
        v.notes,
        #[trigger] ids[k],
    ) {
        Some(n) => n > 1 ==> preceded(t, v.notes, ids, k),
        None => true,
    } by {
        let label = footnote_name(t[ids[k]].value);
        lemma_find_by_labels(v.notes, q.notes, label, 0);
        lemma_find_note(q.notes, label, 0);
        let n = number_of(v.notes, label);
        if n is Some && n->0 > 1 {
            if k < r.len() {
                assert(ids[k] == r[k]);
                assert(number_of(q.notes, label) == n);
                assert(preceded(t, q.notes, r, k));
                let l = choose|l: int|
                    0 <= l < k && reference_number(t, q.notes, #[trigger] r[l]) == Some(
                        n->0 - 1,
                    );
                assert(ids[l] == r[l]);
                let other = footnote_name(t[r[l]].value);
                assert(number_of(v.notes, other) == number_of(q.notes, other));
            } else if number_of(q.notes, label) is Some {
                let j = find_note(q.notes, label, 0)->0;
                assert(q.notes[j].ix == n);
                let a = choose|a: int|
                    0 <= a < r.len() && number_of(
                        q.notes,
                        footnote_name(t[#[trigger] r[a]].value),
                    ) == q.notes[j].ix;
                assert(preceded(t, q.notes, r, a));
                let l = choose|l: int|
                    0 <= l < a && reference_number(t, q.notes, #[trigger] r[l]) == Some(
                        n->0 - 1,
                    );
                assert(ids[l] == r[l]);
                let other = footnote_name(t[r[l]].value);
                assert(number_of(v.notes, other) == number_of(q.notes, other));
            } else {
                let z = q.order.len() - 1;
                assert(n == Some(q.order.len() as int + 1));
                let b = choose|b: int|
                    0 <= b < q.notes.len() && (#[trigger] q.notes[b]).node == q.order[z]
                        && q.notes[b].ix == Some(z + 1);
                assert(q.notes[b].ix is Some);
                let l = choose|l: int|
                    0 <= l < r.len() && number_of(
                        q.notes,
                        footnote_name(t[#[trigger] r[l]].value),
                    ) == q.notes[b].ix;
                assert(ids[l] == r[l]);
                let other = footnote_name(t[r[l]].value);
                assert(number_of(v.notes, other) == number_of(q.notes, other));
            }
        }
    }
}

/// What there is to number.
proof fn lemma_numbering(t: Nodes)
    requires
        is_tree(t),
        t[0].value is Document,
    ensures
        ({
            let (u, m) = definitions_taken(t, definitions(t));
            let ids = footnote_references(u);
            &&& is_tree(u)
            &&& u.len() == t.len()
            &&& notes_apart(u, m)
            &&& numbers_agree(m, seq![])
            &&& forall|k: int| 0 <= k < m.len() ==> (#[trigger] m[k]).ix is None
            &&& forall|j: int|
                0 <= j < definitions(t).len() ==> 0 < #[trigger] definitions(t)[j] < t.len()
                    && u[definitions(t)[j]].parent is None
            &&& ids.no_duplicates()
            &&& forall|j: int| 0 <= j < ids.len() ==> 0 < #[trigger] ids[j] < u.len()
            &&& u[0].value == t[0].value && u[0].open == t[0].open
        }),
{
    law_walked_once(t, 0, Stop::AtDefinitions);
    lemma_part(t, walked(t, 0, Stop::AtDefinitions), definition_kind());
    lemma_definitions_taken(t, definitions(t));
    let (u, m) = definitions_taken(t, definitions(t));
    law_walked_once(u, 0, Stop::AtReferences);
    lemma_part(u, walked(u, 0, Stop::AtReferences), reference_kind());
}

/// References to footnotes turn into the numbers of the definitions of their labels, and those
/// without a definition into text. The numbers count from one on, in the order of the first
/// references.
pub proof fn law_references_numbered(t: Nodes)
    requires
        is_tree(t),
        t[0].value is Document,
    ensures
        ({
            let u = definitions_taken(t, definitions(t)).0;
            let ids = footnote_references(u);
            let s = numbering(t);
            &&& references_agree(u, s.nodes, s.notes, ids)
            &&& in_order(u, s.notes, ids)
            &&& numbers_agree(s.notes, s.order)
        }),
{
    lemma_numbering(t);
    let (u, m) = definitions_taken(t, definitions(t));
    let s = Numbering { nodes: u, notes: m, order: seq![] };
    lemma_references_numbered(s, footnote_references(u));
    lemma_numbers(s, footnote_references(u));
}

/// The root stays what it is when footnotes are numbered.
pub proof fn lemma_root_of_footnotes(t: Nodes)
    requires
        is_tree(t),
        t[0].value is Document,
    ensures
        is_tree(footnotes_processed(t)),
        footnotes_processed(t)[0].value == t[0].value,
        footnotes_processed(t)[0].open == t[0].open,
{
    lemma_numbering(t);
    let (u, m) = definitions_taken(t, definitions(t));
    let ids = footnote_references(u);
    let s0 = Numbering { nodes: u, notes: m, order: seq![] };
    lemma_references_numbered(s0, ids);
    let s = numbering(t);
    if ids.contains(0) {
        let k = choose|k: int| 0 <= k < ids.len() && ids[k] == 0;
        assert(0 < ids[k]);
    }
    assert(s.nodes[0] == u[0]);
    lemma_order_distinct(s.nodes, s.notes, s.order);
    lemma_notes_placed(s.nodes, s.order);
}

/// Definitions go to the end of the document in the order given, named by their numbers.
proof fn lemma_placed_in_order(t: Nodes, order: Seq<int>)
    requires
        is_tree(t),
        order.no_duplicates(),
        forall|j: int|
            0 <= j < order.len() ==> 0 < #[trigger] order[j] < t.len() && t[order[j]].parent
                is None,
    ensures
        notes_placed(t, order)[0].children == t[0].children + order,
        forall|j: int|
            0 <= j < order.len() ==> notes_placed(t, order)[#[trigger] order[j]].value
                == Value::FootnoteDefinition(decimal(j + 1)),
    decreases order.len(),
{
    if order.len() > 0 {
        let r = order.drop_last();
        let d = order.last();
        assert(order[order.len() - 1] == d);
        assert forall|j: int| 0 <= j < r.len() implies 0 < #[trigger] r[j] < t.len()
            && t[r[j]].parent is None by {
            assert(r[j] == order[j]);
        }
        lemma_placed_in_order(t, r);
        lemma_notes_placed(t, r);
        assert((t[0].children + r).push(d) =~= t[0].children + order);
        assert forall|j: int| 0 <= j < order.len() implies notes_placed(
            t,
            order,
        )[#[trigger] order[j]].value == Value::FootnoteDefinition(decimal(j + 1)) by {
            if j < r.len() {
                assert(order[j] == r[j]);
                assert(order[j] != order[order.len() - 1]);
            }
        }
    } else {
        assert(t[0].children + order =~= t[0].children);
    }
}

/// The definitions that are referred to stand at the end of the document, each once, in the
/// order of their numbers and named by them. The others are no longer in the document.
pub proof fn law_definitions_placed(t: Nodes)
    requires
        is_tree(t),
        t[0].value is Document,
    ensures
        ({
            let s = numbering(t);
            let v = footnotes_processed(t);
            &&& s.order.no_duplicates()
            &&& v[0].children == s.nodes[0].children + s.order
            &&& forall|j: int|
                0 <= j < s.order.len() ==> v[#[trigger] s.order[j]].value
                    == Value::FootnoteDefinition(decimal(j + 1))
            &&& forall|j: int|
                0 <= j < definitions(t).len() && !s.order.contains(#[trigger] definitions(t)[j])
                    ==> v[definitions(t)[j]].parent is None
        }),
{
    lemma_numbering(t);
    let (u, m) = definitions_taken(t, definitions(t));
    let s0 = Numbering { nodes: u, notes: m, order: seq![] };
    lemma_references_numbered(s0, footnote_references(u));
    let s = numbering(t);
    lemma_order_distinct(s.nodes, s.notes, s.order);
    lemma_placed_in_order(s.nodes, s.order);
    lemma_notes_placed(s.nodes, s.order);
    assert forall|j: int|
        0 <= j < definitions(t).len() && !s.order.contains(
            #[trigger] definitions(t)[j],
        ) implies footnotes_processed(t)[definitions(t)[j]].parent is None by {
        let d = definitions(t)[j];
        assert(u[d].parent is None);
        assert(s.nodes[d].parent == u[d].parent);
    }
}

} // verus!
