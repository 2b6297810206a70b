//! What the tree of a document does not depend on, and what settles it.

use crate::adding::text_added;
use crate::cursor::{with_nonspace, CursorView};
use crate::document::{
    blocks_closed, blocks_of, document_may_be, finalized_nodes, finished, may_be_found,
    may_finish_as, rest_read, Replies,
};
use crate::inlines::{
    inline_blocks, may_be_in, may_be_in_all, no_answers, text_asked, with_all_inlines, InlineText,
    InlineView, LinkView,
};
use crate::joining::{joined_up_to, text_in};
use crate::lines::{
    at_start, cut_at_end, fed, front_of, line_processed, lines_processed, size_after,
    text_processed, text_start, with_front_matter, with_line_feed,
};
use crate::matching::checked;
use crate::opening::{all_opened, one_opened, opened, takes_rest};
use crate::options::ComrakOptions;
use crate::parser::{starting, ParserView};
use crate::postprocess::{all_may_be_done, free_text, may_be_linked, task_looked_for, texts_done};
use crate::starts::{block_start, ends_with_paragraph, BlockStart};
use crate::tree::Nodes;
use vstd::prelude::*;
use vstd::utf8::{decode_utf8, encode_utf8};

verus! {

/// The state under other options.
pub open spec fn under(p: ParserView, o: ComrakOptions) -> ParserView {
    ParserView { options: o, ..p }
}

/// Which block starts is found by the options at parse time alone.
proof fn lemma_start_under(
    in_paragraph: bool,
    after_paragraph: bool,
    c: CursorView,
    line: Seq<u8>,
    all_matched: bool,
    maybe_lazy: bool,
    o1: ComrakOptions,
    o2: ComrakOptions,
)
    requires
        o1.parse_time() == o2.parse_time(),
    ensures
        block_start(in_paragraph, after_paragraph, c, line, all_matched, maybe_lazy, o1)
            == block_start(in_paragraph, after_paragraph, c, line, all_matched, maybe_lazy, o2),
{
    reveal(block_start);
    assert(o1.extension.footnotes == o2.parse_time().footnotes);
    assert(o1.extension.description_lists == o2.parse_time().description_lists);
}

/// A start is opened by the options at parse time alone.
#[verifier::rlimit(60)]
proof fn lemma_start_opened_under(
    p: ParserView,
    i: int,
    start: BlockStart,
    line: Seq<u8>,
    o: ComrakOptions,
)
    requires
        p.options.parse_time() == o.parse_time(),
    ensures
        ({
            let (q, r) = opened(p, i, start, line);
            &&& opened(under(p, o), i, start, line) == (under(q, o), r)
            &&& q.options == p.options
        }),
{
    reveal(opened);
    assert(under(p, o).info() == p.info());
    assert(o.extension.table == p.options.parse_time().table);
}

/// Opening a block looks at the options at parse time alone.
proof fn lemma_opened_under(
    p: ParserView,
    i: int,
    line: Seq<u8>,
    all_matched: bool,
    maybe_lazy: bool,
    o: ComrakOptions,
)
    requires
        p.options.parse_time() == o.parse_time(),
    ensures
        ({
            let (q, r) = one_opened(p, i, line, all_matched, maybe_lazy);
            &&& one_opened(under(p, o), i, line, all_matched, maybe_lazy) == (under(q, o), r)
            &&& q.options == p.options
        }),
{
    let t = p.blocks.nodes;
    let d = with_nonspace(p.cursor, line);
    let paragraph = t[i].value is Paragraph;
    let after = ends_with_paragraph(t, i);
    lemma_start_under(paragraph, after, d, line, all_matched, maybe_lazy, p.options, o);
    let (start, c) = block_start(
        paragraph,
        after,
        d,
        line,
        all_matched,
        maybe_lazy,
        p.options,
    );
    lemma_start_opened_under(ParserView { cursor: c, ..p }, i, start, line, o);
}

/// Opening blocks looks at the options at parse time alone.
#[verifier::rlimit(60)]
proof fn lemma_all_opened_under(
    p: ParserView,
    i: int,
    line: Seq<u8>,
    all_matched: bool,
    maybe_lazy: bool,
    o: ComrakOptions,
)
    requires
        p.options.parse_time() == o.parse_time(),
    ensures
        ({
            let (q, r) = all_opened(p, i, line, all_matched, maybe_lazy);
            &&& all_opened(under(p, o), i, line, all_matched, maybe_lazy) == (under(q, o), r)
            &&& q.options == p.options
        }),
    decreases line.len() - p.cursor.offset,
{
    lemma_opened_under(p, i, line, all_matched, maybe_lazy, o);
    let v = p.blocks.nodes[i].value;
    if !(v is CodeBlock || v is HtmlBlock) {
        match one_opened(p, i, line, all_matched, maybe_lazy) {
            (q, Some(j)) => {
                if !takes_rest(q.blocks.nodes[j].value) && p.cursor.offset < q.cursor.offset
                    <= line.len() {
                    lemma_all_opened_under(q, j, line, all_matched, false, o);
                }
            },
            (q, None) => {},
        }
    }
}

/// Adding text looks at the options at parse time alone.
#[verifier::rlimit(60)]
proof fn lemma_text_added_under(p: ParserView, i: int, m: int, line: Seq<u8>, o: ComrakOptions)
    requires
        p.options.parse_time() == o.parse_time(),
    ensures
        text_added(under(p, o), i, m, line) == under(text_added(p, i, m, line), o),
        text_added(p, i, m, line).options == p.options,
{
    assert(under(p, o).info() == p.info());
}

/// A line is read by the options at parse time alone.
#[verifier::rlimit(60)]
proof fn lemma_line_under(p: ParserView, line: Seq<u8>, o: ComrakOptions)
    requires
        p.options.parse_time() == o.parse_time(),
    ensures
        line_processed(under(p, o), line) == under(line_processed(p, line), o),
        line_processed(p, line).options == p.options,
{
    reveal(text_processed);
    let text = with_line_feed(line);
    let q = ParserView {
        cursor: at_start(text, p.line_number),
        line_number: p.line_number + 1,
        ..p
    };
    assert(under(q, o).info() == q.info());
    let (r, m) = checked(q, text);
    assert(checked(under(q, o), text) == (under(r, o), m));
    match m {
        Some((m, all)) => {
            let lazy = r.blocks.nodes[r.current].value is Paragraph;
            lemma_all_opened_under(r, m, text, all, lazy, o);
            let (a, i) = all_opened(r, m, text, all, lazy);
            lemma_text_added_under(a, i, m, text, o);
        },
        None => {},
    }
}

/// Lines are read by the options at parse time alone.
proof fn lemma_lines_under(p: ParserView, lines: Seq<Seq<u8>>, o: ComrakOptions)
    requires
        p.options.parse_time() == o.parse_time(),
    ensures
        lines_processed(under(p, o), lines) == under(lines_processed(p, lines), o),
        lines_processed(p, lines).options == p.options,
    decreases lines.len(),
{
    if lines.len() > 0 {
        lemma_lines_under(p, lines.drop_last(), o);
        lemma_line_under(lines_processed(p, lines.drop_last()), lines.last(), o);
    }
}

/// The blocks of a document are made by the options at parse time alone: what the options say
/// about output, the tag filter and the identifiers of headings among it, makes no difference.
pub proof fn law_blocks_by_parse_time(s: Seq<u8>, o1: ComrakOptions, o2: ComrakOptions)
    requires
        o1.parse_time() == o2.parse_time(),
    ensures
        blocks_of(s, o1).blocks == blocks_of(s, o2).blocks,
        blocks_of(s, o2) == under(blocks_of(s, o1), o2),
{
    let p1 = starting(o1);
    let p2 = starting(o2);
    assert(p2 == under(p1, o2));
    assert(p1.info() == p2.info());
    assert(o1.parse_time().front_matter_delimiter == o2.parse_time().front_matter_delimiter);
    assert(front_of(p1, s) == front_of(p2, s));
    let (t, q1) = match front_of(p1, s) {
        Some(e) => (
            s.subrange(e, s.len() as int),
            with_front_matter(p1, decode_utf8(s.subrange(0, e))),
        ),
        None => (s, p1),
    };
    let q2 = match front_of(p2, s) {
        Some(e) => with_front_matter(p2, decode_utf8(s.subrange(0, e))),
        None => p2,
    };
    assert(q2 == under(q1, o2));
    let start = text_start(t, q1.last_buffer_ended_with_cr);
    let lines = cut_at_end(t, start, seq![], true).0;
    let first = ParserView {
        total_size: size_after(q1.total_size, t.len() as int),
        last_buffer_ended_with_cr: false,
        ..q1
    };
    lemma_lines_under(first, lines, o2);
    let (a1, rest) = fed(p1, seq![], s, true);
    let (a2, rest2) = fed(p2, seq![], s, true);
    assert(a2 == under(a1, o2) && rest2 == rest);
    lemma_line_under(a1, rest, o2);
    let c1 = rest_read(a1, rest);
    assert(rest_read(a2, rest) == under(c1, o2));
    assert(under(c1, o2).info() == c1.info());
    assert(blocks_closed(under(c1, o2)) == under(blocks_closed(c1), o2));
}

/// Texts are looked into by the options at parse time alone.
proof fn lemma_texts_under(
    t: Nodes,
    n: int,
    replies: Replies,
    links: Seq<Seq<LinkView>>,
    o1: ComrakOptions,
    o2: ComrakOptions,
)
    requires
        o1.parse_time() == o2.parse_time(),
    ensures
        texts_done(t, n, links, o1) == texts_done(t, n, links, o2),
        all_may_be_done(t, n, replies.addresses, links, o1) == all_may_be_done(
            t,
            n,
            replies.addresses,
            links,
            o2,
        ),
    decreases n,
{
    assert(o1.extension.tasklist == o2.parse_time().tasklist);
    assert(o1.extension.autolink == o2.parse_time().autolink);
    assert(o1.parse.relaxed_tasklist_matching == o2.parse_time().relaxed_tasklist_matching);
    if n > 0 {
        lemma_texts_under(t, n - 1, replies, links, o1, o2);
    }
}

/// What may come of a text may come of it under options that agree at parse time.
proof fn lemma_tree_under(
    s: Seq<u8>,
    o1: ComrakOptions,
    o2: ComrakOptions,
    replies: Replies,
    nodes: Nodes,
)
    requires
        o1.parse_time() == o2.parse_time(),
        document_may_be(s, o1, replies, nodes),
    ensures
        document_may_be(s, o2, replies, nodes),
{
    law_blocks_by_parse_time(s, o1, o2);
    law_blocks_by_parse_time(s, o1, o1);
    let p = blocks_of(s, o1);
    let q = blocks_of(s, o2);
    assert(p.options == o1);
    assert(o1.extension.footnotes == o2.parse_time().footnotes);
    let (found, links) = choose|found: Seq<Seq<InlineView>>, links: Seq<Seq<LinkView>>|
        may_be_found(p, replies, found, links) && nodes == #[trigger] finished(p, found, links);
    let blocks = inline_blocks(p.blocks.nodes);
    assert(with_all_inlines(q, found).blocks == with_all_inlines(p, found).blocks);
    let t = finalized_nodes(p, found);
    assert(finalized_nodes(q, found) == t);
    let joined = joined_up_to(t, t.len() as int);
    lemma_texts_under(joined, t.len() as int, replies, links, o1, o2);
    assert forall|k: int| 0 <= k < blocks.len() implies may_be_in(
        q,
        blocks[k],
        replies.finds,
        replies.answers,
        #[trigger] found[k],
    ) by {
        assert(may_be_in(p, blocks[k], replies.finds, replies.answers, found[k]));
        assert(text_asked(p, blocks[k], replies.answers) == text_asked(
            q,
            blocks[k],
            replies.answers,
        ));
    }
    assert(may_be_in_all(q, replies.finds, replies.answers, found));
    assert(may_be_found(q, replies, found, links));
    assert(finished(q, found, links) == nodes);
}

/// Whether there is one reply to everything that may be asked while a document is parsed.
pub open spec fn settled_replies(replies: Replies) -> bool {
    &&& forall|q: InlineText, a: Seq<InlineView>, b: Seq<InlineView>|
        #[trigger] (replies.finds)(q, a) && #[trigger] (replies.finds)(q, b) ==> a == b
    &&& forall|text: Seq<char>, a: Option<LinkView>, b: Option<LinkView>|
        #[trigger] (replies.addresses)(text, a) && #[trigger] (replies.addresses)(text, b) ==> a
            == b
}

/// One list of addresses may be found in a text.
proof fn lemma_one_list(
    replies: Replies,
    text: Seq<char>,
    a: Seq<LinkView>,
    b: Seq<LinkView>,
)
    requires
        settled_replies(replies),
        may_be_linked(replies.addresses, text, a),
        may_be_linked(replies.addresses, text, b),
    ensures
        a == b,
    decreases a.len(),
{
    if a.len() > 0 && b.len() > 0 {
        assert(a[0] == b[0]);
        let bytes = encode_utf8(text);
        let end = a[0].end;
        if end < bytes.len() {
            let rest = decode_utf8(bytes.subrange(end, bytes.len() as int));
            let x = a.subrange(1, a.len() as int);
            let y = b.subrange(1, b.len() as int);
            lemma_one_list(replies, rest, x, y);
            assert(a =~= seq![a[0]] + x);
            assert(b =~= seq![b[0]] + y);
        } else {
            assert(a =~= seq![a[0]]);
            assert(b =~= seq![b[0]]);
        }
    } else {
        assert(a =~= b);
    }
}

/// Texts come out in one way.
proof fn lemma_texts_settled(
    t: Nodes,
    n: int,
    replies: Replies,
    a: Seq<Seq<LinkView>>,
    b: Seq<Seq<LinkView>>,
    o: ComrakOptions,
)
    requires
        settled_replies(replies),
        all_may_be_done(t, n, replies.addresses, a, o),
        all_may_be_done(t, n, replies.addresses, b, o),
    ensures
        texts_done(t, n, a, o) == texts_done(t, n, b, o),
    decreases n,
{
    if n > 0 {
        lemma_texts_settled(t, n - 1, replies, a, b, o);
        let u = texts_done(t, n - 1, a, o);
        if free_text(u, n - 1) && o.extension.autolink {
            let v = task_looked_for(u, n - 1, o);
            match v[n - 1].parent {
                Some(_) => {
                    let text = text_in(v[n - 1].value);
                    lemma_one_list(replies, text, a[n - 1], b[n - 1]);
                },
                None => {
                    assert(a[n - 1] =~= b[n - 1]);
                },
            }
        }
    }
}

/// Where there is one reply to everything that is asked, one tree comes of the closed blocks.
proof fn lemma_one_finish(p: ParserView, replies: Replies, a: Nodes, b: Nodes)
    requires
        settled_replies(replies),
        may_finish_as(p, replies, a),
        may_finish_as(p, replies, b),
    ensures
        a == b,
{
    let (f, k) = choose|found: Seq<Seq<InlineView>>, links: Seq<Seq<LinkView>>|
        may_be_found(p, replies, found, links) && a == #[trigger] finished(p, found, links);
    let (g, l) = choose|found: Seq<Seq<InlineView>>, links: Seq<Seq<LinkView>>|
        may_be_found(p, replies, found, links) && b == #[trigger] finished(p, found, links);
    let blocks = inline_blocks(p.blocks.nodes);
    assert forall|j: int| 0 <= j < blocks.len() implies f[j] == g[j] by {
        assert(may_be_in(p, blocks[j], replies.finds, replies.answers, f[j]));
        assert(may_be_in(p, blocks[j], replies.finds, replies.answers, g[j]));
        let q = text_asked(p, blocks[j], replies.answers);
        assert((replies.finds)(q, f[j]));
        assert((replies.finds)(q, g[j]));
    }
    assert(f =~= g);
    let t = finalized_nodes(p, f);
    let joined = joined_up_to(t, t.len() as int);
    lemma_texts_settled(joined, t.len() as int, replies, k, l, p.options);
}

/// What may come of closed blocks may come of the same blocks, whatever else has been counted.
proof fn lemma_finish_of_blocks(p: ParserView, q: ParserView, replies: Replies, nodes: Nodes)
    requires
        p.blocks == q.blocks,
        p.options == q.options,
        p.max_ref_size == q.max_ref_size,
        may_finish_as(p, replies, nodes),
    ensures
        may_finish_as(q, replies, nodes),
{
    let (found, links) = choose|found: Seq<Seq<InlineView>>, links: Seq<Seq<LinkView>>|
        may_be_found(p, replies, found, links) && nodes == #[trigger] finished(p, found, links);
    let blocks = inline_blocks(p.blocks.nodes);
    assert(with_all_inlines(q, found).blocks == with_all_inlines(p, found).blocks);
    assert(finalized_nodes(q, found) == finalized_nodes(p, found));
    assert forall|k: int| 0 <= k < blocks.len() implies may_be_in(
        q,
        blocks[k],
        replies.finds,
        replies.answers,
        #[trigger] found[k],
    ) by {
        assert(may_be_in(p, blocks[k], replies.finds, replies.answers, found[k]));
        assert(text_asked(p, blocks[k], replies.answers) == text_asked(
            q,
            blocks[k],
            replies.answers,
        ));
    }
    assert(may_be_in_all(q, replies.finds, replies.answers, found));
    assert(may_be_found(q, replies, found, links));
    assert(finished(q, found, links) == nodes);
}

/// The same closed blocks, the same options and the same limit on references make the same tree:
/// what may come of one may come of the other, and that is one tree where there is one reply to
/// everything that is asked.
pub proof fn law_tree_of_blocks(
    p: ParserView,
    q: ParserView,
    replies: Replies,
    a: Nodes,
    b: Nodes,
)
    requires
        p.blocks == q.blocks,
        p.options == q.options,
        p.max_ref_size == q.max_ref_size,
    ensures
        may_finish_as(p, replies, a) == may_finish_as(q, replies, a),
        settled_replies(replies) && may_finish_as(p, replies, a) && may_finish_as(q, replies, b)
            ==> a == b,
{
    if may_finish_as(p, replies, a) {
        lemma_finish_of_blocks(p, q, replies, a);
    }
    if may_finish_as(q, replies, a) {
        lemma_finish_of_blocks(q, p, replies, a);
    }
    if settled_replies(replies) && may_finish_as(q, replies, a) && may_finish_as(q, replies, b) {
        lemma_one_finish(q, replies, a, b);
    }
}

/// Where there is one reply to everything that is asked, one tree comes of a text.
pub proof fn law_one_tree(s: Seq<u8>, o: ComrakOptions, replies: Replies, a: Nodes, b: Nodes)
    requires
        settled_replies(replies),
        document_may_be(s, o, replies, a),
        document_may_be(s, o, replies, b),
    ensures
        a == b,
{
    lemma_one_finish(blocks_of(s, o), replies, a, b);
}

/// What may come of a text does not depend on what the options say about output, and that is one
/// tree where there is one reply to everything that is asked.
pub proof fn law_tree_by_parse_time(
    s: Seq<u8>,
    o1: ComrakOptions,
    o2: ComrakOptions,
    replies: Replies,
    a: Nodes,
    b: Nodes,
)
    requires
        o1.parse_time() == o2.parse_time(),
    ensures
        document_may_be(s, o1, replies, a) == document_may_be(s, o2, replies, a),
        settled_replies(replies) && document_may_be(s, o1, replies, a) && document_may_be(
            s,
            o2,
            replies,
            b,
        ) ==> a == b,
{
    if document_may_be(s, o1, replies, a) {
        lemma_tree_under(s, o1, o2, replies, a);
    }
    if document_may_be(s, o2, replies, a) {
        lemma_tree_under(s, o2, o1, replies, a);
    }
    if settled_replies(replies) && document_may_be(s, o2, replies, a) && document_may_be(
        s,
        o2,
        replies,
        b,
    ) {
        law_one_tree(s, o2, replies, a, b);
    }
}

/// A callback that answers no label is as good as none: what may come of a text is the same, and
/// that is one tree where there is one reply to everything that is asked.
pub proof fn law_silent_callback(
    s: Seq<u8>,
    o: ComrakOptions,
    replies: Replies,
    a: Nodes,
    b: Nodes,
)
    requires
        forall|label: Seq<char>, reply: Option<(Seq<char>, Seq<char>)>| #[trigger]
            (replies.answers)(label, reply) <==> reply is None,
    ensures
        ({
            let none = Replies { answers: no_answers(), ..replies };
            &&& document_may_be(s, o, replies, a) == document_may_be(s, o, none, a)
            &&& settled_replies(replies) && document_may_be(s, o, replies, a) && document_may_be(
                s,
                o,
                none,
                b,
            ) ==> a == b
        }),
{
    assert(replies.answers =~= no_answers());
    if settled_replies(replies) && document_may_be(s, o, replies, a) && document_may_be(
        s,
        o,
        replies,
        b,
    ) {
        law_one_tree(s, o, replies, a, b);
    }
}

} // verus!
