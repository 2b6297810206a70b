//! What blocks are made of what a line starts, and where its text goes.

use crate::adding::{blanks_marked, closed_up_to, left_of, line_added, rest_added, text_added};
use crate::blocks::{child_added, close, made_room, Blocks};
use crate::closing::{blank_after, ends_blank, finalized, loose_item, tight};
use crate::cursor::{lemma_advanced_bytes, with_nonspace, CursorView};
use crate::laws::leaves::repeated;
use crate::laws::words::{blank, SPACE};
use crate::nodes::{NodeHeading, NodeList, Value};
use crate::opening::{behind_marker, item_opened, moved_to, opened, underlined, with_child};
use crate::parser::ParserView;
use crate::references::stripped;
use crate::scanners::{html_end, SetextChar};
use crate::starts::BlockStart;
use crate::strings::{blank_text, without_closing_hashes};
use crate::tree::{NodeView, Nodes};
use vstd::prelude::*;
use vstd::utf8::decode_utf8;

verus! {

/// Whether blocks of the kind `v` hold blocks of any kind.
pub open spec fn holder(v: Value) -> bool {
    v is Document || v is BlockQuote || v is Item || v is FootnoteDefinition
        || v is DescriptionTerm || v is DescriptionDetails
}

/// Whether `u` is `t` with the new block `v` at the end of `i`, and nothing else changed.
pub open spec fn with_last(t: Nodes, i: int, v: Value, start_line: int, u: Nodes) -> bool {
    let id = t.len() as int;
    &&& u.len() == id + 1
    &&& u[id].value == v && u[id].parent == Some(i) && u[id].children.len() == 0 && u[id].open
        && u[id].content.len() == 0 && u[id].start_line == start_line
    &&& u[i].children == t[i].children.push(id)
    &&& u[i] == (NodeView { children: u[i].children, ..t[i] })
    &&& forall|j: int| 0 <= j < id && j != i ==> #[trigger] u[j] == t[j]
}

/// A block that can be held where it starts goes to the end of what is there. What the document
/// holds, a quote, an item, a footnote and the parts of a description hold too.
pub proof fn law_new_block(p: ParserView, i: int, v: Value)
    requires
        0 <= i < p.blocks.nodes.len(),
        holder(p.blocks.nodes[i].value),
        v.block() && !(v is Item) && !(v is Document) && !(v is FrontMatter),
    ensures
        with_last(
            p.blocks.nodes,
            i,
            v,
            p.line_number,
            with_child(p, i, v).0.blocks.nodes,
        ),
        with_child(p, i, v).1 == p.blocks.nodes.len(),
        with_child(p, i, v).0.blocks.refs == p.blocks.refs,
{
}

/// Where a block cannot be held, what is there is closed, and the block goes to what that was in.
pub proof fn law_made_room(b: Blocks, i: int, q: int, v: Value, n: int, info: Option<Seq<char>>)
    requires
        0 <= q < i < b.nodes.len(),
        b.nodes[i].parent == Some(q),
        b.nodes[i].value is Paragraph || b.nodes[i].value is Heading
            || b.nodes[i].value is CodeBlock
            || b.nodes[i].value is HtmlBlock || b.nodes[i].value is ThematicBreak,
        v.block(),
    ensures
        child_added(b, i, v, n, info) == child_added(close(b, i, info), q, v, n, info),
{
}

/// The kinds of the blocks that a line opens where they can be held.
#[verifier::rlimit(60)]
pub proof fn law_opened(p: ParserView, i: int, start: BlockStart, line: Seq<u8>)
    requires
        0 <= i < p.blocks.nodes.len(),
        holder(p.blocks.nodes[i].value),
        start is Quote || start is Html || start is Break || start is Footnote || start is Indented
            || start is Fence || start is Atx,
    ensures
        ({
            let (q, r) = opened(p, i, start, line);
            let t = p.blocks.nodes;
            let u = q.blocks.nodes;
            let at = p.cursor.first_nonspace;
            let v = u[t.len() as int].value;
            &&& r == Some(t.len() as int)
            &&& with_last(t, i, v, p.line_number, u)
            &&& q.blocks.refs == p.blocks.refs && q.current == p.current
            &&& start is Quote ==> v is BlockQuote
            &&& start is Break ==> v is ThematicBreak
            &&& start is Atx ==> v is Heading
            &&& start matches BlockStart::Html(k) ==> (v matches Value::HtmlBlock(n, text) && n
                == k && text.len() == 0)
            &&& start is Indented ==> (v matches Value::CodeBlock(b) && !b.fenced)
            &&& start matches BlockStart::Fence(n) ==> (v matches Value::CodeBlock(b) && b.fenced
                && b.fence_char == line[at] && b.fence_length == n && (0 <= at - p.cursor.offset
                <= usize::MAX ==> b.fence_offset == at - p.cursor.offset))
            &&& start matches BlockStart::Footnote(_, e) ==> v == Value::FootnoteDefinition(
                decode_utf8(line.subrange(at + 2, at + e)),
            )
        }),
{
    reveal(opened);
}

/// Where the line goes on behind what it opens: behind the hashes of a heading and their blanks,
/// behind a fence, behind the start of a footnote, at the line end behind a thematic break, and
/// four columns further on in indented code. HTML is read from its first byte on.
#[verifier::rlimit(60)]
pub proof fn law_opened_up_to(p: ParserView, i: int, start: BlockStart, line: Seq<u8>)
    requires
        0 <= p.cursor.offset <= p.cursor.first_nonspace < line.len(),
        0 <= p.cursor.column,
    ensures
        ({
            let c = opened(p, i, start, line).0.cursor;
            let at = p.cursor.first_nonspace;
            &&& start matches BlockStart::Atx(n) ==> at + n <= line.len() ==> c.offset == at + n
            &&& start matches BlockStart::Fence(n) ==> at + n <= line.len() ==> c.offset == at + n
            &&& start matches BlockStart::Footnote(n, _) ==> at + n <= line.len() ==> c.offset == at
                + n
            &&& start is Break ==> c.offset == line.len() - 1
            &&& start is Html ==> c == p.cursor
            &&& start is Indented && p.cursor.columns_left(line) >= 4 ==> c.column
                == p.cursor.column + 4
        }),
{
    reveal(opened);
    let c = p.cursor;
    let at = c.first_nonspace;
    match start {
        BlockStart::Atx(n) => {
            if at + n <= line.len() {
                lemma_advanced_bytes(c, line, at + n - c.offset);
            }
        },
        BlockStart::Fence(n) => {
            if at + n <= line.len() {
                lemma_advanced_bytes(c, line, at + n - c.offset);
            }
        },
        BlockStart::Footnote(n, _) => {
            if at + n <= line.len() {
                lemma_advanced_bytes(c, line, at + n - c.offset);
            }
        },
        BlockStart::Break => {
            lemma_advanced_bytes(c, line, line.len() - 1 - c.offset);
        },
        BlockStart::Indented => {
            if c.columns_left(line) >= 4 {
                crate::cursor::law_advanced_columns(c, line, 4);
            }
        },
        _ => {},
    }
}

/// An underlined paragraph becomes a heading, of the first level under equals signs and of the
/// second one under hyphens. Definitions at its start are taken off first; where nothing else is in
/// it, it stays a paragraph.
pub proof fn law_underlined_paragraph(p: ParserView, i: int, sc: SetextChar, line: Seq<u8>)
    requires
        0 <= i < p.blocks.nodes.len(),
    ensures
        ({
            let q = underlined(p, i, sc, line);
            let t = p.blocks.nodes;
            let u = q.blocks.nodes;
            let (rest, refs) = stripped(t[i].content, p.blocks.refs);
            &&& u.len() == t.len()
            &&& forall|j: int| 0 <= j < t.len() && j != i ==> #[trigger] u[j] == t[j]
            &&& u[i].content == rest && u[i].parent == t[i].parent
            &&& q.blocks.refs == refs
            &&& blank_text(rest) ==> u[i].value == t[i].value
            &&& !blank_text(rest) && sc == SetextChar::Equals ==> u[i].value == Value::Heading(
                NodeHeading { level: 1, setext: true },
            )
            &&& !blank_text(rest) && sc == SetextChar::Hyphen ==> u[i].value == Value::Heading(
                NodeHeading { level: 2, setext: true },
            )
        }),
{
}

/// What is left of a line is its text from the cursor on. Where the cursor is inside a tab, the
/// rest of the tab counts as spaces, up to the next column that is a multiple of four.
pub proof fn law_left(c: CursorView, line: Seq<u8>, n: nat)
    requires
        0 <= c.column,
        0 <= c.offset < line.len(),
        1 <= n <= 4,
        (c.column + n) % 4 == 0,
    ensures
        !c.partially_consumed_tab ==> left_of(c, line) == line.skip(c.offset),
        c.partially_consumed_tab ==> left_of(c, line) == repeated(SPACE, n) + line.skip(
            c.offset + 1,
        ),
{
    if c.partially_consumed_tab {
        assert(crate::cursor::tab_width(c.column) == n);
        assert(left_of(c, line) =~= repeated(SPACE, n) + line.skip(c.offset + 1));
    } else {
        assert(left_of(c, line) =~= line.skip(c.offset));
    }
}

/// A line that is not blank and starts nothing goes on with a paragraph, though it does not go on
/// with what that is in: its text is added to the paragraph, and everything stays open.
pub proof fn law_lazy_line(p: ParserView, i: int, line: Seq<u8>)
    requires
        0 <= p.current < p.blocks.nodes.len(),
        0 <= i < p.blocks.nodes.len(),
        p.current != i,
        p.blocks.nodes[p.current].value is Paragraph,
        !with_nonspace(p.cursor, line).blank,
        blanks_marked(p.blocks.nodes, i, false, p.line_number).len() == p.blocks.nodes.len(),
    ensures
        ({
            let q = text_added(p, i, i, line);
            let t = blanks_marked(p.blocks.nodes, i, false, p.line_number);
            let u = q.blocks.nodes;
            &&& q.current == p.current
            &&& u.len() == t.len()
            &&& u[p.current].content == t[p.current].content + left_of(
                with_nonspace(p.cursor, line),
                line,
            )
            &&& u[p.current].value == t[p.current].value && u[p.current].open
                == t[p.current].open
            &&& forall|j: int| 0 <= j < t.len() && j != p.current ==> #[trigger] u[j] == t[j]
        }),
{
}

/// A line is lazy just where it goes on with no block that it opens, is not blank, and the
/// innermost block is a paragraph that it was not matched with. Any other closes the blocks that
/// it was not matched with and goes to the block that it reached.
pub proof fn law_no_lazy_line(p: ParserView, i: int, m: int, line: Seq<u8>)
    requires
        i != m || p.current == m || with_nonspace(p.cursor, line).blank
            || !(p.blocks.nodes[p.current].value is Paragraph),
    ensures
        ({
            let c = with_nonspace(p.cursor, line);
            let nodes = blanks_marked(p.blocks.nodes, i, c.blank, p.line_number);
            let blocks = closed_up_to(Blocks { nodes, ..p.blocks }, p.current, m, p.info());
            text_added(p, i, m, line) == rest_added(ParserView { blocks, cursor: c, ..p }, i, line)
        }),
{
}

/// A tab of which spaces are left is used up with the line that they are added with.
pub proof fn law_tab_used(p: ParserView, i: int, line: Seq<u8>)
    requires
        0 <= i < p.blocks.nodes.len(),
    ensures
        ({
            let q = line_added(p, i, line);
            &&& p.cursor.partially_consumed_tab ==> q.cursor.offset == p.cursor.offset + 1
            &&& !p.cursor.partially_consumed_tab ==> q.cursor == p.cursor
            &&& q.cursor.column == p.cursor.column
            &&& q.blocks.nodes[i].content == p.blocks.nodes[i].content + left_of(p.cursor, line)
            &&& q.current == p.current
        }),
{
}

/// Whether `v` is a list of items with markers of the kind of `marker`.
pub open spec fn lists(v: Value, marker: NodeList) -> bool {
    match v {
        Value::List(of) => of.list_type == marker.list_type && of.delimiter == marker.delimiter
            && of.bullet_char == marker.bullet_char,
        _ => false,
    }
}

/// An item goes on with the list that it stands in where their markers are of one kind, and else
/// starts a new list. It keeps what its marker says, how far the marker is set in, and how wide
/// the marker is with the white space behind it.
pub proof fn law_item_opened(
    p: ParserView,
    i: int,
    g: int,
    n: usize,
    marker: NodeList,
    line: Seq<u8>,
)
    requires
        0 <= i < p.blocks.nodes.len(),
        n <= 10,
        0 <= p.cursor.indent <= 3,
    ensures
        ({
            let t = p.blocks.nodes;
            let (q, id) = item_opened(p, i, n, marker, line);
            let u = q.blocks.nodes;
            let width = behind_marker(
                moved_to(p.cursor, line, p.cursor.first_nonspace + n),
                line,
            ).1;
            let nl = NodeList {
                padding: (n + width) as usize,
                marker_offset: p.cursor.indent as usize,
                ..marker
            };
            let new = t.len() as int;
            &&& lists(t[i].value, marker) ==> {
                &&& id == new
                &&& with_last(t, i, Value::Item(nl), p.line_number, u)
            }
            &&& holder(t[i].value) ==> {
                &&& id == new + 1
                &&& u.len() == new + 2
                &&& u[new].value == Value::List(nl) && u[new].parent == Some(i)
                &&& u[new].children == seq![id]
                &&& u[id].value == Value::Item(nl) && u[id].parent == Some(new)
                &&& u[i].children == t[i].children.push(new)
            }
            &&& t[i].value is List && !lists(t[i].value, marker) && t[i].parent == Some(g) && 0 <= g
                < i && holder(t[g].value) ==> {
                &&& id == new + 1
                &&& u.len() == new + 2
                &&& u[new].value == Value::List(nl) && u[new].parent == t[i].parent
                &&& u[id].value == Value::Item(nl) && u[id].parent == Some(new)
                &&& !u[i].open
            }
        }),
{
    let t = p.blocks.nodes;
    let none: Seq<int> = seq![];
    assert(none.push(t.len() as int + 1) =~= seq![t.len() as int + 1]);
    reveal_with_fuel(made_room, 2);
    let closing = close(p.blocks, i, p.info());
    if t[i].value is List && 0 <= g < i {
        assert(closing.nodes.len() == t.len());
        assert(closing.nodes[g] == t[g]);
        assert(!closing.nodes[i].open);
    }
}

/// Where a line of text goes. A blank line adds nothing but to code and HTML. To a paragraph or a
/// heading a line adds its text from its first byte on that is no blank, to code and HTML all that
/// is left of it. Elsewhere it makes a new paragraph.
#[verifier::rlimit(60)]
pub proof fn law_text_goes(p: ParserView, i: int, line: Seq<u8>)
    requires
        0 <= i < p.blocks.nodes.len(),
        0 <= p.cursor.offset <= p.cursor.first_nonspace <= line.len(),
        p.cursor.partially_consumed_tab ==> p.cursor.offset < p.cursor.first_nonspace,
    ensures
        ({
            let q = rest_added(p, i, line);
            let t = p.blocks.nodes;
            let u = q.blocks.nodes;
            let v = t[i].value;
            let text = line.skip(p.cursor.first_nonspace);
            &&& v is CodeBlock ==> u[i].content == t[i].content + left_of(p.cursor, line)
                && q.current == i
            &&& p.cursor.blank && !(v is CodeBlock) && !(v is HtmlBlock) ==> q.blocks == p.blocks
                && q.current == i
            &&& !p.cursor.blank && v is Paragraph ==> u[i].content == t[i].content + text
                && q.current == i && u.len() == t.len()
            &&& !p.cursor.blank && holder(v) ==> {
                &&& q.current == t.len()
                &&& u.len() == t.len() + 1
                &&& u[t.len() as int].value is Paragraph
                &&& u[t.len() as int].content == text
                &&& u[t.len() as int].parent == Some(i)
                &&& u[i].children == t[i].children.push(t.len() as int)
            }
        }),
{
    let c = p.cursor;
    lemma_advanced_bytes(c, line, c.first_nonspace - c.offset);
    let d = moved_to(c, line, c.first_nonspace);
    assert(left_of(d, line) =~= line.skip(c.first_nonspace));
    let t = p.blocks.nodes;
    let none: Seq<u8> = seq![];
    assert(none + line.skip(c.first_nonspace) =~= line.skip(c.first_nonspace));
}

/// A line that holds the end of an HTML block closes it, and is the last one of it; another is
/// added to it.
pub proof fn law_html_text(p: ParserView, i: int, k: u8, line: Seq<u8>)
    requires
        0 <= i < p.blocks.nodes.len(),
        p.blocks.nodes[i].value == Value::HtmlBlock(k, seq![]),
        p.blocks.nodes[i].parent is Some,
    ensures
        ({
            let q = rest_added(p, i, line);
            let t = p.blocks.nodes;
            let u = q.blocks.nodes;
            let text = t[i].content + left_of(p.cursor, line);
            if html_end(line.subrange(p.cursor.first_nonspace, line.len() as int), k) {
                &&& u[i].value == Value::HtmlBlock(k, decode_utf8(text))
                &&& !u[i].open
                &&& Some(q.current) == t[i].parent
            } else {
                &&& u[i].content == text
                &&& u[i].open == t[i].open
                &&& q.current == i
            }
        }),
{
}

/// The text of a heading goes without the hashes that close it, that of an underlined one as it
/// is.
pub proof fn law_heading_text(p: ParserView, i: int, nh: NodeHeading, line: Seq<u8>)
    requires
        0 <= i < p.blocks.nodes.len(),
        p.blocks.nodes[i].value == Value::Heading(nh),
        !p.cursor.blank,
        0 <= p.cursor.offset <= p.cursor.first_nonspace,
        p.cursor.partially_consumed_tab ==> p.cursor.offset < p.cursor.first_nonspace,
        !nh.setext,
    ensures
        ({
            let u = rest_added(p, i, line).blocks.nodes;
            let t = p.blocks.nodes;
            let text = without_closing_hashes(line);
            let at = p.cursor.first_nonspace;
            &&& at <= text.len() ==> u[i].content == t[i].content + text.skip(at)
            &&& at > text.len() ==> u[i].content == t[i].content
        }),
{
    let c = p.cursor;
    let text = without_closing_hashes(line);
    if c.first_nonspace <= text.len() {
        lemma_advanced_bytes(c, text, c.first_nonspace - c.offset);
        let d = moved_to(c, text, c.first_nonspace);
        assert(left_of(d, text) =~= text.skip(c.first_nonspace));
    }
}

/// A list is loose where a blank line follows an item that is not its last one, or a block in an
/// item that is not the last one of the list.
pub proof fn law_loose(t: Nodes, i: int, a: int, b: int)
    requires
        0 <= a < t[i].children.len(),
    ensures
        ({
            let item = t[i].children[a];
            let subs = t[item].children;
            let last = a + 1 == t[i].children.len();
            &&& t[item].last_line_blank && !last ==> !tight(t, i)
            &&& 0 <= b < subs.len() && t[subs[b]].last_line_blank && !(last && b + 1 == subs.len())
                ==> !tight(t, i)
        }),
{
    let items = t[i].children;
    let subs = t[items[a]].children;
    if t[items[a]].last_line_blank && a + 1 < items.len() {
        assert(loose_item(t, items, a));
    }
    if 0 <= b < subs.len() && t[subs[b]].last_line_blank && !(a + 1 == items.len() && b + 1
        == subs.len()) {
        assert(ends_blank(t, subs[b]));
        assert(blank_after(t, items, a, b));
        assert(loose_item(t, items, a));
    }
}

/// A list is tight where no blank line is between what is in it: one of a single item with a single
/// block always, and any of which no block ends with a blank line.
pub proof fn law_tight(t: Nodes, i: int)
    ensures
        t[i].children.len() == 1 && t[t[i].children[0]].children.len() <= 1 ==> tight(t, i),
        (forall|a: int| 0 <= a < t[i].children.len() ==> {
            let item = #[trigger] t[i].children[a];
            !t[item].last_line_blank && forall|b: int|
                0 <= b < t[item].children.len() ==> !ends_blank(t, #[trigger] t[item].children[b])
        }) ==> tight(t, i),
{
    let items = t[i].children;
    if items.len() == 1 && t[items[0]].children.len() <= 1 {
        assert forall|a: int| 0 <= a < items.len() implies !#[trigger] loose_item(t, items, a) by {
            if exists|b: int| blank_after(t, items, a, b) {
                let b = choose|b: int| blank_after(t, items, a, b);
                assert(blank_after(t, items, a, b));
            }
        }
    }
    if forall|a: int| 0 <= a < items.len() ==> {
        let item = #[trigger] items[a];
        !t[item].last_line_blank && forall|b: int|
            0 <= b < t[item].children.len() ==> !ends_blank(t, #[trigger] t[item].children[b])
    } {
        assert forall|a: int| 0 <= a < items.len() implies !#[trigger] loose_item(t, items, a) by {
            let item = items[a];
            if exists|b: int| blank_after(t, items, a, b) {
                let b = choose|b: int| blank_after(t, items, a, b);
                assert(blank_after(t, items, a, b));
                assert(!ends_blank(t, t[item].children[b]));
            }
        }
    }
}

/// A block ends with a blank line where one follows it, and a list or an item also where its last
/// block does; no other kind of block goes by what is in it.
pub proof fn law_ends_blank(t: Nodes, i: int, c: int)
    requires
        0 <= i < c < t.len(),
        t[i].children.len() > 0,
        t[i].children.last() == c,
    ensures
        t[i].last_line_blank ==> ends_blank(t, i),
        t[i].value is List || t[i].value is Item ==> (ends_blank(t, i) <==> t[i].last_line_blank
            || ends_blank(t, c)),
        !(t[i].value is List) && !(t[i].value is Item) ==> (ends_blank(t, i)
            <==> t[i].last_line_blank),
{
}

/// What closing makes of a block: definitions are taken off a paragraph, and it goes if nothing is
/// left of it; a list is found tight or loose; of HTML the text is kept as it is.
pub proof fn law_closed(
    t: Nodes,
    refs: Map<Seq<char>, crate::references::ReferenceView>,
    i: int,
    info: Option<Seq<char>>,
)
    requires
        0 <= i < t.len(),
    ensures
        ({
            let (u, m) = finalized(t, refs, i, info);
            let (rest, more) = stripped(t[i].content, refs);
            &&& t[i].value is Paragraph ==> m == more
            &&& t[i].value is Paragraph && !blank_text(rest) ==> u[i].content == rest && !u[i].open
                && u[i].parent == t[i].parent && u[i].value == t[i].value
            &&& t[i].value is Paragraph && blank_text(rest) && (t[i].parent matches Some(p)
                && 0 <= p
                < i) ==> u[i].parent is None
            &&& !(t[i].value is Paragraph) ==> m == refs && !u[i].open && u[i].parent == t[i].parent
            &&& t[i].value matches Value::List(nl) ==> u[i].value == Value::List(
                NodeList { tight: tight(t, i), ..nl },
            )
            &&& t[i].value matches Value::HtmlBlock(k, _) ==> u[i].value == Value::HtmlBlock(
                k,
                decode_utf8(t[i].content),
            )
            &&& t[i].value is BlockQuote || t[i].value is Item || t[i].value is Heading
                || t[i].value is ThematicBreak ==> u[i] == (NodeView { open: false, ..t[i] })
        }),
{
}

} // verus!
