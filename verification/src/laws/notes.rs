//! How footnotes are numbered, and in which order nodes are gone through.

use crate::footnotes::{
    decimal, definitions_taken, find_note, footnote_name, notes_placed, reference_numbered,
    with_note, NoteView, Numbering,
};
use crate::labels::normal_label;
use crate::nodes::Value;
use crate::tree::Nodes;
use crate::walking::{walked, walked_from, Stop};
use vstd::prelude::*;
use vstd::utf8::encode_utf8;

verus! {

/// The definition of a label is the one that has it.
pub proof fn law_note_found(m: Seq<NoteView>, label: Seq<char>)
    ensures
        match find_note(m, label, 0) {
            Some(k) => 0 <= k < m.len() && m[k].label == label,
            None => forall|k: int| 0 <= k < m.len() ==> (#[trigger] m[k]).label != label,
        },
{
    lemma_note_found(m, label, 0);
}

/// The first definition of a label from an index on.
proof fn lemma_note_found(m: Seq<NoteView>, label: Seq<char>, k: int)
    requires
        0 <= k,
    ensures
        match find_note(m, label, k) {
            Some(j) => k <= j < m.len() && m[j].label == label && forall|i: int|
                k <= i < j ==> (#[trigger] m[i]).label != label,
            None => forall|i: int| k <= i < m.len() ==> (#[trigger] m[i]).label != label,
        },
    decreases m.len() - k,
{
    if k < m.len() && m[k].label != label {
        lemma_note_found(m, label, k + 1);
    }
}

/// Of two definitions of a label the later one stands; other labels are not touched.
pub proof fn law_last_note_stands(m: Seq<NoteView>, label: Seq<char>, node: int, other: Seq<char>)
    requires
        other != label,
    ensures
        ({
            let n = with_note(m, label, node);
            &&& find_note(n, label, 0) matches Some(k) && n[k].node == node && n[k].ix is None
            &&& match find_note(m, other, 0) {
                Some(j) => find_note(n, other, 0) matches Some(i) && n[i] == m[j],
                None => find_note(n, other, 0) is None,
            }
        }),
{
    let n = with_note(m, label, node);
    lemma_note_found(m, label, 0);
    lemma_note_found(n, label, 0);
    lemma_note_found(m, other, 0);
    lemma_note_found(n, other, 0);
    match find_note(m, label, 0) {
        Some(k) => {
            assert(n[k].label == label);
            match find_note(m, other, 0) {
                Some(j) => {
                    assert(n[j] == m[j]);
                    let i = find_note(n, other, 0)->0;
                    if i < j {
                        assert(m[i].label != other);
                    } else if j < i {
                        assert(n[j].label != other);
                    }
                },
                None => {},
            }
        },
        None => {
            let k = m.len() as int;
            assert(n[k].label == label);
            let i = find_note(n, label, 0)->0;
            if i < k {
                assert(m[i].label != label);
            }
            match find_note(m, other, 0) {
                Some(j) => {
                    assert(n[j] == m[j]);
                    let h = find_note(n, other, 0)->0;
                    if h < j {
                        assert(m[h].label != other);
                    } else if j < h {
                        assert(n[j].label != other);
                    }
                },
                None => {},
            }
        },
    }
}

/// Definitions go by their labels in the form in which labels are compared.
pub proof fn law_notes_by_label(t: Nodes, ids: Seq<int>, d: int)
    requires
        0 <= d < t.len(),
        t[d].value is FootnoteDefinition,
    ensures
        ({
            let label = normal_label(encode_utf8(t[d].value->FootnoteDefinition_0));
            let m = definitions_taken(t, ids.push(d)).1;
            find_note(m, label, 0) matches Some(k) && m[k].node == d
        }),
{
    assert(ids.push(d).drop_last() =~= ids);
    let m = definitions_taken(t, ids).1;
    let label = normal_label(encode_utf8(footnote_name(t[d].value)));
    let other = label.push(' ');
    assert(other.len() != label.len());
    law_last_note_stands(m, label, d, other);
}

/// A reference to a label without a definition turns into its text: the label behind a caret, in
/// brackets.
pub proof fn law_plain_reference(s: Numbering, r: int)
    requires
        0 <= r < s.nodes.len(),
        s.nodes[r].value is FootnoteReference,
        find_note(s.notes, s.nodes[r].value->FootnoteReference_0, 0) is None,
    ensures
        ({
            let n = reference_numbered(s, r);
            let label = s.nodes[r].value->FootnoteReference_0;
            &&& n.nodes[r].value == Value::Text(seq!['[', '^'] + label + seq![']'])
            &&& n.notes == s.notes && n.order == s.order
            &&& forall|j: int| 0 <= j < s.nodes.len() && j != r ==> #[trigger] n.nodes[j]
                == s.nodes[j]
        }),
{
}

/// The first reference to a definition gives it the next number, and any other one has the same.
pub proof fn law_numbered(s: Numbering, r: int, k: int)
    requires
        0 <= r < s.nodes.len(),
        s.nodes[r].value is FootnoteReference,
        find_note(s.notes, s.nodes[r].value->FootnoteReference_0, 0) == Some(k),
        0 <= k < s.notes.len(),
    ensures
        ({
            let n = reference_numbered(s, r);
            &&& s.notes[k].ix matches Some(x) ==> n.nodes[r].value == Value::FootnoteReference(
                decimal(x),
            ) && n.order == s.order && n.notes == s.notes
            &&& s.notes[k].ix is None ==> {
                let x = s.order.len() as int + 1;
                &&& n.nodes[r].value == Value::FootnoteReference(decimal(x))
                &&& n.notes[k].ix == Some(x)
                &&& n.order == s.order.push(s.notes[k].node)
            }
        }),
{
}

/// The nodes gone through from each of these nodes on, one after the other.
pub open spec fn in_turn(t: Nodes, s: Seq<int>, stop: Stop) -> Seq<int>
    decreases s.len(),
{
    if s.len() == 0 {
        seq![]
    } else {
        in_turn(t, s.drop_last(), stop) + walked(t, s.last(), stop)
    }
}

/// One after the other, whichever is taken off first.
proof fn lemma_in_turn(t: Nodes, a: int, s: Seq<int>, stop: Stop)
    ensures
        in_turn(t, seq![a] + s, stop) == walked(t, a, stop) + in_turn(t, s, stop),
    decreases s.len(),
{
    let all = seq![a] + s;
    if s.len() == 0 {
        assert(all.drop_last() =~= s);
        assert(in_turn(t, s, stop) + walked(t, a, stop) =~= walked(t, a, stop) + in_turn(
            t,
            s,
            stop,
        ));
    } else {
        assert(all.drop_last() =~= seq![a] + s.drop_last());
        lemma_in_turn(t, a, s.drop_last(), stop);
        assert(walked(t, a, stop) + in_turn(t, s.drop_last(), stop) + walked(t, s.last(), stop)
            =~= walked(t, a, stop) + (in_turn(t, s.drop_last(), stop) + walked(
            t,
            s.last(),
            stop,
        )));
    }
}

/// Children are gone through in turn.
proof fn lemma_walked_in_turn(t: Nodes, i: int, k: int, stop: Stop)
    requires
        crate::tree::is_tree(t),
        0 <= i < t.len(),
        0 <= k <= t[i].children.len(),
    ensures
        walked_from(t, i, k, stop) == in_turn(t, t[i].children.skip(k), stop),
    decreases t[i].children.len() - k,
{
    let ch = t[i].children;
    if k < ch.len() {
        assert(crate::tree::linked(t, i));
        lemma_walked_in_turn(t, i, k + 1, stop);
        lemma_in_turn(t, ch[k], ch.skip(k + 1), stop);
        assert(ch.skip(k) =~= seq![ch[k]] + ch.skip(k + 1));
    }
}

/// A node is gone through before what is in it, and what is in it in the order of the document,
/// child by child. Where a kind of node is not gone into, nothing in it is gone through.
pub proof fn law_order(t: Nodes, i: int)
    requires
        crate::tree::is_tree(t),
        0 <= i < t.len(),
    ensures
        walked(t, i, Stop::Nowhere) == seq![i] + in_turn(t, t[i].children, Stop::Nowhere),
        walked(t, i, Stop::AtDefinitions) == if t[i].value is FootnoteDefinition {
            seq![i]
        } else {
            seq![i] + in_turn(t, t[i].children, Stop::AtDefinitions)
        },
        walked(t, i, Stop::AtReferences) == if t[i].value is FootnoteReference {
            seq![i]
        } else {
            seq![i] + in_turn(t, t[i].children, Stop::AtReferences)
        },
{
    lemma_walked_in_turn(t, i, 0, Stop::Nowhere);
    lemma_walked_in_turn(t, i, 0, Stop::AtDefinitions);
    lemma_walked_in_turn(t, i, 0, Stop::AtReferences);
    assert(t[i].children.skip(0) =~= t[i].children);
}

/// Definitions go to the end of the document in the order in which they are first referred to, and
/// each is named by its place in it.
pub proof fn law_notes_placed(t: Nodes, order: Seq<int>, k: int)
    requires
        t.len() > 0,
        forall|j: int| 0 <= j < order.len() ==> 0 < #[trigger] order[j] < t.len(),
        order.no_duplicates(),
        0 <= k < order.len(),
    ensures
        ({
            let u = notes_placed(t, order);
            &&& u.len() == t.len()
            &&& u[order[k]].value == Value::FootnoteDefinition(decimal(k + 1))
            &&& u[order[k]].parent == Some(0int)
            &&& u[0].children == t[0].children + order
        }),
    decreases order.len(),
{
    let before = order.drop_last();
    let d = order.last();
    assert forall|j: int| 0 <= j < before.len() implies 0 < #[trigger] before[j] < t.len() by {
        assert(before[j] == order[j]);
    }
    if before.len() > 0 {
        law_notes_placed(
            t,
            before,
            if k < before.len() {
                k
            } else {
                0
            },
        );
    }
    assert(t[0].children + before + seq![d] =~= t[0].children + order);
    assert(t[0].children.push(d) =~= t[0].children + order || before.len() > 0);
    if k < before.len() {
        assert(before[k] == order[k]);
        assert(order[k] != order[order.len() - 1]);
    }
}

} // verus!
