//! What is made of the texts in a document, and what goes where.

use crate::inlines::{inlines_added, text_asked, Answers, InlineView, LinkView};
use crate::joining::{joined_at, outside_links};
use crate::laws::words::{all_white, white};
use crate::nodes::{same_list, NodeList, Value};
use crate::options::ComrakOptions;
use crate::parser::ParserView;
use crate::postprocess::{
    free_text, link_fits, link_split, links_added, task_marked, text_done, text_linked,
};
use crate::tree::{is_tree, linked, Nodes};
use vstd::prelude::*;
use vstd::utf8::{decode_utf8, encode_utf8};

verus! {

/// An address in a text becomes a link with the address in it. The text before it stays before it,
/// and what is behind it follows it.
#[verifier::rlimit(60)]
pub proof fn law_link(t: Nodes, p: int, k: int, x: int, l: LinkView)
    requires
        is_tree(t),
        0 <= p < x < t.len(),
        t[x].value is Text,
        0 <= k < t[p].children.len(),
        t[p].children[k] == x,
        link_fits(encode_utf8(t[x].value->Text_0), l),
    ensures
        ({
            let b = encode_utf8(t[x].value->Text_0);
            let n = t.len() as int;
            let u = links_added(t, p, k, x, seq![l]);
            &&& u[x].value == Value::Text(decode_utf8(b.take(l.start)))
            &&& u[n].value == Value::Link(l.url, seq![]) && u[n].parent == Some(p)
            &&& u[n].children == seq![n + 1]
            &&& u[n + 1].value == Value::Text(decode_utf8(b.subrange(l.start, l.end)))
                && u[n + 1].parent == Some(n)
            &&& l.end == b.len() ==> u.len() == n + 2 && u[p].children == t[p].children.insert(
                k + 1,
                n,
            )
            &&& l.end < b.len() ==> u.len() == n + 3 && u[p].children == t[p].children.insert(
                k + 1,
                n,
            ).insert(k + 2, n + 2) && u[n + 2].value == Value::Text(
                decode_utf8(b.skip(l.end)),
            ) && u[n + 2].parent == Some(p)
            &&& forall|j: int| 0 <= j < n && j != p && j != x ==> #[trigger] u[j] == t[j]
        }),
{
    let b = encode_utf8(t[x].value->Text_0);
    let n = t.len() as int;
    assert(linked(t, p));
    let u = link_split(t, p, k, x, l);
    assert(b.subrange(0, l.start) =~= b.take(l.start));
    assert(b.subrange(l.end, b.len() as int) =~= b.skip(l.end));
    assert(seq![l].subrange(1, 1) =~= seq![]);
    assert(u[n].children =~= seq![n + 1]);
    assert(u.len() == n + 2);
    reveal_with_fuel(links_added, 2);
}

/// Texts in links and images are not looked into, and all others in the tree are.
pub proof fn law_free_text(t: Nodes, x: int, p: int)
    requires
        is_tree(t),
        0 < p < x < t.len(),
        t[x].value is Text,
        t[x].parent == Some(p),
    ensures
        t[p].value is Link || t[p].value is Image ==> !free_text(t, x),
        !(t[p].value is Link) && !(t[p].value is Image) && t[p].parent == Some(0int) ==> free_text(
            t,
            x,
        ),
        t[p].parent is None ==> !free_text(t, x),
{
    reveal_with_fuel(outside_links, 3);
}

/// Two texts side by side become one, in their order, and the second one goes.
pub proof fn law_two_texts(t: Nodes, p: int, a: int, b: int)
    requires
        is_tree(t),
        0 <= p < t.len(),
        t[p].children == seq![a, b],
        t[a].value is Text && t[b].value is Text,
    ensures
        ({
            let u = joined_at(t, p, 0);
            &&& u[p].children == seq![a]
            &&& u[a].value == Value::Text(t[a].value->Text_0 + t[b].value->Text_0)
            &&& u[b].parent is None
        }),
{
    assert(linked(t, p));
    assert(t[p].children[0] == a && t[p].children[1] == b);
    assert(a != b);
    assert(seq![a, b].remove(1) =~= seq![a]);
    reveal_with_fuel(joined_at, 2);
}

/// Texts that are not side by side stay as they are.
pub proof fn law_texts_apart(t: Nodes, p: int, a: int, b: int, c: int)
    requires
        is_tree(t),
        0 <= p < t.len(),
        t[p].children == seq![a, b, c],
        !(t[b].value is Text),
    ensures
        joined_at(t, p, 0) == t,
{
    reveal_with_fuel(joined_at, 4);
    assert(t[p].children[1] == b);
}

/// A block is parsed for inlines with its text without the white space at its end, under the options,
/// with all definitions of the document, and up to the limit of these.
pub proof fn law_text_asked(p: ParserView, node: int, answers: Answers, t: Seq<u8>, w: Seq<u8>)
    requires
        p.blocks.nodes[node].content == t + w,
        all_white(w),
        t.len() > 0 ==> !white(t.last()),
    ensures
        text_asked(p, node, answers).content == t,
        text_asked(p, node, answers).refs == p.blocks.refs,
        text_asked(p, node, answers).max_ref_size == p.max_ref_size,
        text_asked(p, node, answers).answers == answers,
{
    crate::laws::leaves::lemma_rtrimmed_alone(t, w);
}

/// The inlines of a block go under it in their order: one without a parent into the block itself,
/// and one with a parent among those before it into that one.
pub proof fn law_inlines_placed(t: Nodes, node: int, found: Seq<InlineView>, k: int)
    requires
        0 <= node < t.len(),
        0 <= k < found.len(),
        forall|j: int| 0 <= j < found.len() ==> match (#[trigger] found[j]).parent {
            Some(i) => 0 <= i < j,
            None => true,
        },
    ensures
        ({
            let u = inlines_added(t, node, found);
            let n = t.len() as int;
            &&& u.len() == n + found.len()
            &&& u[n + k].value == found[k].value
            &&& u[n + k].parent == Some(
                match found[k].parent {
                    Some(i) => n + i,
                    None => node,
                },
            )
        }),
    decreases found.len(),
{
    lemma_inlines_placed(t, node, found, found.len() as int, k);
}

/// Where the first inlines go.
proof fn lemma_inlines_placed(t: Nodes, node: int, found: Seq<InlineView>, m: int, k: int)
    requires
        0 <= node < t.len(),
        0 <= m <= found.len(),
        forall|j: int| 0 <= j < found.len() ==> match (#[trigger] found[j]).parent {
            Some(i) => 0 <= i < j,
            None => true,
        },
    ensures
        ({
            let u = inlines_added(t, node, found.take(m));
            let n = t.len() as int;
            &&& u.len() == n + m
            &&& 0 <= k < m ==> u[n + k].value == found[k].value && u[n + k].parent == Some(
                match found[k].parent {
                    Some(i) => n + i,
                    None => node,
                },
            )
        }),
        found.take(found.len() as int) == found,
    decreases m,
{
    assert(found.take(found.len() as int) =~= found);
    if m > 0 {
        let f = found.take(m);
        assert(f.drop_last() =~= found.take(m - 1));
        assert(f.last() == found[m - 1]);
        lemma_inlines_placed(t, node, found, m - 1, k);
    }
}

/// Markers belong to one list where they are of one type, and have the same delimiter and the same
/// bullet; how far they are indented, where they start and how wide they are makes no difference.
pub proof fn law_one_list(a: NodeList, b: NodeList)
    ensures
        a.list_type != b.list_type || a.delimiter != b.delimiter || a.bullet_char != b.bullet_char
            ==> !same_list(a, b),
        same_list(
            a,
            NodeList {
                list_type: a.list_type,
                delimiter: a.delimiter,
                bullet_char: a.bullet_char,
                ..b
            },
        ),
{
}

/// What can be in what. Blocks are in the document, in quotes, in items, in footnotes and in the
/// parts of descriptions; items only in lists, rows only in tables, cells only in rows. Inlines are
/// in paragraphs, headings, cells and other inlines that hold some.
pub proof fn law_contained(v: Value, c: Value)
    requires
        !(c is Document) && !(c is FrontMatter),
    ensures
        c is Item ==> (v.can_contain(c) <==> v is List),
        c is TableRow && v.can_contain(c) && !crate::laws::blocks::holder(v) ==> v is Table,
        c is TableCell && v.can_contain(c) && !crate::laws::blocks::holder(v) ==> v is TableRow,
        v is List ==> (v.can_contain(c) <==> c is Item),
        v is Table ==> (v.can_contain(c) <==> c is TableRow),
        v is TableRow ==> (v.can_contain(c) <==> c is TableCell),
        v is DescriptionList ==> (v.can_contain(c) <==> c is DescriptionItem),
        v is DescriptionItem ==> (v.can_contain(c) <==> c is DescriptionTerm
            || c is DescriptionDetails),
        crate::laws::blocks::holder(v) ==> (v.can_contain(c) <==> c.block() && !(c is Item)),
        v is Paragraph || v is Heading || v is TableCell || v is Emph || v is Strong || v is Link
            || v is Image ==> (v.can_contain(c) <==> !c.block()),
        v is CodeBlock || v is HtmlBlock || v is ThematicBreak || v is Text || v is FrontMatter
            ==> !v.can_contain(c),
        v.contains_inlines() <==> v is Paragraph || v is Heading || v is TableCell,
        v.contains_inlines() ==> v.block(),
        v.accepts_lines() <==> v is Paragraph || v is Heading || v is CodeBlock,
{
}

/// Texts are searched for tasks and for addresses just where the options ask for it.
pub proof fn law_texts_searched(t: Nodes, x: int, links: Seq<LinkView>, o: ComrakOptions)
    ensures
        !o.extension.tasklist && !o.extension.autolink ==> text_done(t, x, links, o) == t,
        o.extension.tasklist && !o.extension.autolink ==> text_done(t, x, links, o) == task_marked(
            t,
            x,
            o.parse.relaxed_tasklist_matching,
        ),
        !o.extension.tasklist && o.extension.autolink ==> text_done(t, x, links, o) == text_linked(
            t,
            x,
            links,
        ),
{
}

} // verus!
