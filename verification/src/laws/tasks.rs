//! What makes a task of an item.

use crate::ctype::{lemma_run_end, lemma_run_end_is, run_end, spaces};
use crate::laws::words::{
    all_white, law_classes, white, CAPITAL_X, CLOSE_BRACKET, OPEN_BRACKET, SMALL_X, SPACE,
};
use crate::nodes::Value;
use crate::options::ComrakOptions;
use crate::postprocess::task_looked_for;
use crate::scanners::task_box;
use crate::tree::{is_tree, linked, Nodes};
use vstd::prelude::*;
use vstd::utf8::{decode_utf8, encode_utf8};

verus! {

/// A check box is any byte between square brackets, behind white space or at the start, and with
/// white space or nothing behind it. It takes the first white space behind it with it.
pub proof fn law_task_box(w: Seq<u8>, c: u8, rest: Seq<u8>)
    requires
        all_white(w),
    ensures
        ({
            let s = w + seq![OPEN_BRACKET, c, CLOSE_BRACKET] + rest;
            let n = w.len() as int + 3;
            &&& rest.len() == 0 ==> task_box(s) == Some((n, c))
            &&& rest.len() > 0 && white(rest[0]) ==> task_box(s) == Some((n + 1, c))
            &&& rest.len() > 0 && !white(rest[0]) ==> task_box(s) is None
        }),
{
    let s = w + seq![OPEN_BRACKET, c, CLOSE_BRACKET] + rest;
    let n = w.len() as int;
    assert forall|k: int| 0 <= k < n implies spaces()(#[trigger] s[k]) by {
        assert(white(w[k]));
        law_classes(w[k]);
    }
    assert(s[n] == OPEN_BRACKET && s[n + 1] == c && s[n + 2] == CLOSE_BRACKET);
    law_classes(OPEN_BRACKET);
    lemma_run_end_is(s, 0, n, spaces());
    if rest.len() > 0 {
        assert(s[n + 3] == rest[0]);
        law_classes(rest[0]);
    }
}

/// Nothing else is a check box.
pub proof fn law_no_other_task_box(s: Seq<u8>)
    ensures
        task_box(s) matches Some((end, c)) ==> exists|n: int|
            {
                &&& #[trigger] all_white(s.take(n))
                &&& 0 <= n && n + 3 <= end <= s.len()
                &&& s[n] == OPEN_BRACKET && s[n + 1] == c && s[n + 2] == CLOSE_BRACKET
                &&& end == n + 3 && end == s.len() || end == n + 4 && white(s[n + 3])
            },
{
    let n = run_end(s, 0, spaces());
    lemma_run_end(s, 0, spaces());
    assert forall|k: int| 0 <= k < n implies white(#[trigger] s.take(n)[k]) by {
        assert(spaces()(s[k]));
        law_classes(s[k]);
    }
    if n + 3 < s.len() {
        law_classes(s[n + 3]);
    }
    assert(all_white(s.take(n)));
}

/// A text that starts with a check box, and is first in a paragraph that is first in an item, makes
/// a task of the item: with a space, a small or a capital X in the box always, and with any other
/// symbol where matching is relaxed. The task comes first in the paragraph, with the symbol, or
/// none for a space, and the box is taken off the text. Elsewhere, or with another symbol, nothing
/// changes.
pub proof fn law_task(t: Nodes, x: int, p: int, g: int, c: u8, end: int, o: ComrakOptions)
    requires
        is_tree(t),
        0 <= x < t.len() && 0 <= p < t.len() && 0 <= g < t.len(),
        o.extension.tasklist,
        t[x].value is Text,
        task_box(encode_utf8(t[x].value->Text_0)) == Some((end, c)),
        t[x].parent == Some(p) && t[p].parent == Some(g),
        t[p].value is Paragraph && t[g].value is Item,
    ensures
        ({
            let u = task_looked_for(t, x, o);
            let bytes = encode_utf8(t[x].value->Text_0);
            let fits = c == SPACE || c == SMALL_X || c == CAPITAL_X
                || o.parse.relaxed_tasklist_matching;
            let first = t[p].children[0] == x && t[g].children[0] == p;
            if fits && first {
                &&& u.len() == t.len() + 1
                &&& u[t.len() as int].value == (Value::TaskItem {
                    symbol: if c == SPACE {
                        None
                    } else {
                        Some(c as char)
                    },
                })
                &&& u[t.len() as int].parent == Some(p)
                &&& u[p].children == seq![t.len() as int] + t[p].children
                &&& u[x].value == Value::Text(
                    decode_utf8(bytes.subrange(end, bytes.len() as int)),
                )
                &&& forall|j: int|
                    0 <= j < t.len() && j != p && j != x ==> #[trigger] u[j] == t[j]
            } else {
                u == t
            }
        }),
{
    assert(linked(t, x));
    assert(linked(t, p));
    let n = t.len() as int;
    let u = task_looked_for(t, x, o);
    assert(t[p].children.insert(0, n) =~= seq![n] + t[p].children);
}

/// No task is made of anything but an item, nor where tasks are not looked for.
pub proof fn law_no_other_task(t: Nodes, x: int, o: ComrakOptions)
    ensures
        !o.extension.tasklist ==> task_looked_for(t, x, o) == t,
        task_looked_for(t, x, o) != t ==> {
            &&& t[x].parent matches Some(p) && t[p].value is Paragraph && t[p].children[0] == x && (
            t[p].parent matches Some(g) && t[g].value is Item && t[g].children[0] == p)
        },
{
}

} // verus!
