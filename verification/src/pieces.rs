//! What the cutting of text into lines, and into pieces, leaves the same.

use crate::adding::text_added;
use crate::ctype::line_end_byte;
use crate::cursor::CursorView;
use crate::document::{
    blocks_closed, blocks_of, document_may_be, may_finish_as, rest_read, Replies, MIN_REF_SIZE,
};
use crate::independence::{law_tree_of_blocks, settled_replies};
use crate::lines::{
    cut, cut_at_end, fed, front_of, lemma_cut_plain, lemma_line_number, lemma_lines_processed_push,
    lemma_replacement, line_processed, lines_processed, plain_byte, replacement, size_after,
    text_processed, text_start, with_front_matter,
};
use crate::matching::checked;
use crate::opening::{all_opened, one_opened, opened, takes_rest};
use crate::options::ComrakOptions;
use crate::parser::{starting, ParserView};
use crate::tree::Nodes;
use vstd::prelude::*;
use vstd::utf8::decode_utf8;

verus! {

/// The state with other counts of the text that has been read.
pub open spec fn recounted(p: ParserView, total_size: int, after_cr: bool) -> ParserView {
    ParserView { total_size, last_buffer_ended_with_cr: after_cr, ..p }
}

/// The state with another length of the last line as well.
spec fn counted(p: ParserView, n: int, b: bool, k: int) -> ParserView {
    ParserView {
        total_size: n,
        last_buffer_ended_with_cr: b,
        last_line_length: k,
        ..p
    }
}

/// Opening blocks does not look at the counts.
#[verifier::rlimit(60)]
proof fn lemma_opened_counted(
    p: ParserView,
    i: int,
    line: Seq<u8>,
    all_matched: bool,
    maybe_lazy: bool,
    n: int,
    b: bool,
    k: int,
)
    ensures
        ({
            let (q, r) = one_opened(p, i, line, all_matched, maybe_lazy);
            one_opened(counted(p, n, b, k), i, line, all_matched, maybe_lazy) == (
                counted(q, n, b, k),
                r,
            )
        }),
{
    reveal(opened);
}

/// Opening blocks does not look at the counts.
#[verifier::rlimit(60)]
proof fn lemma_all_opened_counted(
    p: ParserView,
    i: int,
    line: Seq<u8>,
    all_matched: bool,
    maybe_lazy: bool,
    n: int,
    b: bool,
    k: int,
)
    ensures
        ({
            let (q, r) = all_opened(p, i, line, all_matched, maybe_lazy);
            all_opened(counted(p, n, b, k), i, line, all_matched, maybe_lazy) == (
                counted(q, n, b, k),
                r,
            )
        }),
    decreases line.len() - p.cursor.offset,
{
    lemma_opened_counted(p, i, line, all_matched, maybe_lazy, n, b, k);
    let v = p.blocks.nodes[i].value;
    if !(v is CodeBlock || v is HtmlBlock) {
        match one_opened(p, i, line, all_matched, maybe_lazy) {
            (q, Some(j)) => {
                if !takes_rest(q.blocks.nodes[j].value) && p.cursor.offset < q.cursor.offset
                    <= line.len() {
                    lemma_all_opened_counted(q, j, line, all_matched, false, n, b, k);
                }
            },
            (q, None) => {},
        }
    }
}

/// Adding text does not look at the counts.
#[verifier::rlimit(60)]
proof fn lemma_text_added_counted(
    p: ParserView,
    i: int,
    m: int,
    line: Seq<u8>,
    n: int,
    b: bool,
    k: int,
)
    ensures
        text_added(counted(p, n, b, k), i, m, line) == counted(
            text_added(p, i, m, line),
            n,
            b,
            k,
        ),
{
}

/// A line is read the same whatever has been counted before it, and wherever the cursor was.
#[verifier::rlimit(60)]
proof fn lemma_line_counted(
    p: ParserView,
    line: Seq<u8>,
    n: int,
    b: bool,
    k: int,
    c: CursorView,
)
    ensures
        line_processed(ParserView { cursor: c, ..counted(p, n, b, k) }, line) == recounted(
            line_processed(p, line),
            n,
            b,
        ),
{
    reveal(text_processed);
    let text = crate::lines::with_line_feed(line);
    let q = ParserView {
        cursor: crate::lines::at_start(text, p.line_number),
        line_number: p.line_number + 1,
        ..p
    };
    let (r, m) = checked(q, text);
    assert(checked(counted(q, n, b, k), text) == (counted(r, n, b, k), m));
    match m {
        Some((m, all)) => {
            let lazy = r.blocks.nodes[r.current].value is Paragraph;
            lemma_all_opened_counted(r, m, text, all, lazy, n, b, k);
            let (a, i) = all_opened(r, m, text, all, lazy);
            lemma_text_added_counted(a, i, m, text, n, b, k);
        },
        None => {},
    }
}

/// A line is read the same whatever has been counted before it.
proof fn lemma_line_recounted(p: ParserView, line: Seq<u8>, n: int, b: bool)
    ensures
        line_processed(recounted(p, n, b), line) == recounted(line_processed(p, line), n, b),
{
    lemma_line_counted(p, line, n, b, p.last_line_length, p.cursor);
}

/// Lines are read the same wherever the cursor was and whatever the last line was long.
pub proof fn lemma_lines_aside(p: ParserView, lines: Seq<Seq<u8>>, k: int, c: CursorView)
    requires
        lines.len() > 0,
    ensures
        lines_processed(ParserView { cursor: c, last_line_length: k, ..p }, lines)
            == lines_processed(p, lines),
    decreases lines.len(),
{
    let q = ParserView { cursor: c, last_line_length: k, ..p };
    if lines.len() == 1 {
        let line = lines.last();
        assert(lines_processed(q, lines.drop_last()) == q);
        assert(lines_processed(p, lines.drop_last()) == p);
        let n = p.total_size;
        let b = p.last_buffer_ended_with_cr;
        assert(q == ParserView { cursor: c, ..counted(p, n, b, k) });
        lemma_line_counted(p, line, n, b, k, c);
        lemma_line_number(p, line);
    } else {
        lemma_lines_aside(p, lines.drop_last(), k, c);
    }
}

/// Lines are read the same whatever has been counted before them.
proof fn lemma_lines_recounted(p: ParserView, lines: Seq<Seq<u8>>, n: int, b: bool)
    ensures
        lines_processed(recounted(p, n, b), lines) == recounted(lines_processed(p, lines), n, b),
        lines_processed(p, lines).total_size == p.total_size,
        lines_processed(p, lines).options == p.options,
        lines_processed(p, lines).last_buffer_ended_with_cr == p.last_buffer_ended_with_cr,
    decreases lines.len(),
{
    if lines.len() > 0 {
        lemma_lines_recounted(p, lines.drop_last(), n, b);
        lemma_line_recounted(lines_processed(p, lines.drop_last()), lines.last(), n, b);
        lemma_line_number(lines_processed(p, lines.drop_last()), lines.last());
    }
}

/// Lines one after the other.
pub proof fn lemma_lines_concat(p: ParserView, a: Seq<Seq<u8>>, b: Seq<Seq<u8>>)
    ensures
        lines_processed(p, a + b) == lines_processed(lines_processed(p, a), b),
    decreases b.len(),
{
    if b.len() == 0 {
        assert(a + b =~= a);
    } else {
        lemma_lines_concat(p, a, b.drop_last());
        assert((a + b).drop_last() =~= a + b.drop_last());
        assert((a + b).last() == b.last());
    }
}

/// What is cut off a text depends only on what is left of it.
pub proof fn lemma_cut_shifted(a: Seq<u8>, b: Seq<u8>, j: int, buf: Seq<u8>)
    requires
        0 <= j <= b.len(),
    ensures
        cut(a + b, a.len() + j, buf) == cut(b, j, buf),
    decreases b.len() - j,
{
    let s = a + b;
    if j < b.len() {
        assert(s[a.len() + j] == b[j]);
        if j + 1 < b.len() {
            assert(s[a.len() + j + 1] == b[j + 1]);
        }
        if b[j] == 0 {
            lemma_cut_shifted(a, b, j + 1, buf + replacement());
        } else if line_end_byte(b[j]) {
            if b[j] == 13 && j + 1 < b.len() && b[j + 1] == 10 {
                lemma_cut_shifted(a, b, j + 2, seq![]);
            } else {
                lemma_cut_shifted(a, b, j + 1, seq![]);
            }
        } else {
            lemma_cut_shifted(a, b, j + 1, buf.push(b[j]));
        }
    }
}

/// Text can be cut in two pieces, and each of them into lines.
proof fn lemma_cut_concat(a: Seq<u8>, b: Seq<u8>, i: int, buf: Seq<u8>)
    requires
        0 <= i <= a.len(),
    ensures
        ({
            let (l, r) = cut(a, i, buf);
            let (m, rest) = cut(b, text_start(b, i < a.len() && a.last() == 13), r);
            cut(a + b, i, buf) == (l + m, rest)
        }),
    decreases a.len() - i,
{
    let s = a + b;
    if i == a.len() {
        lemma_cut_shifted(a, b, 0, buf);
        assert(Seq::<Seq<u8>>::empty() + cut(b, 0, buf).0 =~= cut(b, 0, buf).0);
    } else {
        assert(s[i] == a[i]);
        if i + 1 < a.len() {
            assert(s[i + 1] == a[i + 1]);
        } else if b.len() > 0 {
            assert(s[i + 1] == b[0]);
        }
        if a[i] == 0 {
            lemma_cut_concat(a, b, i + 1, buf + replacement());
        } else if line_end_byte(a[i]) {
            if i + 1 == a.len() {
                let start = text_start(b, a[i] == 13);
                lemma_cut_shifted(a, b, start, seq![]);
                assert(cut(a, i + 1, seq![]) == (Seq::<Seq<u8>>::empty(), Seq::<u8>::empty()));
                let m = cut(b, start, seq![]).0;
                assert(seq![buf] + Seq::<Seq<u8>>::empty() + m =~= seq![buf] + m);
            } else {
                let n = if a[i] == 13 && a[i + 1] == 10 {
                    i + 2
                } else {
                    i + 1
                };
                lemma_cut_concat(a, b, n, seq![]);
                let (l, r) = cut(a, n, seq![]);
                let m = cut(b, text_start(b, n < a.len() && a.last() == 13), r).0;
                assert(seq![buf] + (l + m) =~= seq![buf] + l + m);
            }
        } else {
            lemma_cut_concat(a, b, i + 1, buf.push(a[i]));
        }
    }
}

/// A text is read the same in one piece and in two.
///
/// A piece holds at least a byte. Front matter is looked for in the first text that is read, in
/// that piece alone, so there is none in it.
pub proof fn law_read_in_pieces(
    p: ParserView,
    buf: Seq<u8>,
    a: Seq<u8>,
    b: Seq<u8>,
    eof: bool,
)
    requires
        a.len() > 0,
        b.len() > 0,
        p.total_size >= 0,
        front_of(p, a) is None,
        front_of(p, a + b) is None,
    ensures
        ({
            let (q, rest) = fed(p, buf, a, false);
            fed(q, rest, b, eof) == fed(p, buf, a + b, eof)
        }),
{
    let cr = p.last_buffer_ended_with_cr;
    let start = text_start(a, cr);
    let (l, r) = cut(a, start, buf);
    let after = start < a.len() && a.last() == 13;
    let (m, rest) = cut(b, text_start(b, after), r);
    let s = a + b;
    let n1 = size_after(p.total_size, a.len() as int);
    let n2 = size_after(n1, b.len() as int);
    lemma_cut_concat(a, b, start, buf);
    assert(s[0] == a[0]);
    assert(s.last() == b.last());
    lemma_lines_recounted(recounted(p, n1, false), l, n2, false);
    let lines = cut_at_end(s, start, buf, eof).0;
    let second = cut_at_end(b, text_start(b, after), r, eof).0;
    assert(lines =~= l + second);
    lemma_lines_concat(recounted(p, n2, false), l, second);
    let q1 = recounted(lines_processed(recounted(p, n1, false), l), n1, after);
    assert(fed(p, buf, a, false).0 == q1);
    lemma_lines_recounted(recounted(p, n2, false), l + second, n2, false);
}

/// A text that does not end with a line end leaves something over.
proof fn lemma_cut_rest(s: Seq<u8>, i: int, buf: Seq<u8>)
    requires
        0 <= i < s.len(),
        !line_end_byte(s.last()),
    ensures
        cut(s, i, buf).1.len() > 0,
    decreases s.len() - i,
{
    if i + 1 == s.len() {
        lemma_replacement();
        reveal_with_fuel(cut, 2);
    } else if s[i] == 0 {
        lemma_cut_rest(s, i + 1, buf + replacement());
    } else if line_end_byte(s[i]) {
        let n = if s[i] == 13 && s[i + 1] == 10 {
            i + 2
        } else {
            i + 1
        };
        lemma_cut_rest(s, n, seq![]);
    } else {
        lemma_cut_rest(s, i + 1, buf.push(s[i]));
    }
}

/// The end of a document need not be announced: what the last piece of its text leaves over is
/// read when the document is finished.
pub proof fn law_end_unannounced(p: ParserView, buf: Seq<u8>, s: Seq<u8>)
    ensures
        ({
            let (p1, rest1) = fed(p, buf, s, true);
            let (p2, rest2) = fed(p, buf, s, false);
            rest_read(p1, rest1) == rest_read(p2, rest2)
        }),
{
    let (t, q) = match front_of(p, s) {
        Some(e) => (
            s.subrange(e, s.len() as int),
            with_front_matter(p, decode_utf8(s.subrange(0, e))),
        ),
        None => (s, p),
    };
    let start = text_start(t, q.last_buffer_ended_with_cr);
    if start < t.len() && plain_byte(t.last()) {
        lemma_cut_rest(t, start, buf);
        let (lines, rest) = cut(t, start, buf);
        let n = size_after(q.total_size, t.len() as int);
        lemma_lines_processed_push(recounted(q, n, false), lines, rest);
        lemma_lines_recounted(recounted(q, n, false), lines, n, false);
        lemma_lines_recounted(recounted(q, n, false), lines.push(rest), n, false);
    }
}

/// The lines of a text, each without its line end.
pub open spec fn all_lines(s: Seq<u8>) -> Seq<Seq<u8>> {
    let (lines, rest) = cut(s, 0, seq![]);
    if rest.len() > 0 {
        lines.push(rest)
    } else {
        lines
    }
}

/// How much text references may expand to in a document of `n` bytes.
pub open spec fn reference_limit(n: int) -> int {
    if size_after(0, n) > MIN_REF_SIZE {
        size_after(0, n)
    } else {
        MIN_REF_SIZE as int
    }
}

/// The blocks of a document are those that its lines make, one after the other.
pub proof fn law_blocks_of_lines(s: Seq<u8>, o: ComrakOptions)
    requires
        front_of(starting(o), s) is None,
    ensures
        blocks_of(s, o).blocks == blocks_closed(
            lines_processed(starting(o), all_lines(s)),
        ).blocks,
        blocks_of(s, o).options == o,
        blocks_of(s, o).max_ref_size == reference_limit(s.len() as int),
{
    let p = starting(o);
    law_end_unannounced(p, seq![], s);
    let n = size_after(0, s.len() as int);
    let (lines, rest) = cut(s, 0, seq![]);
    let after = 0 < s.len() && s.last() == 13;
    assert(text_start(s, false) == 0);
    lemma_lines_recounted(p, lines, n, false);
    assert(fed(p, seq![], s, false) == (recounted(lines_processed(p, lines), n, after), rest));
    if rest.len() > 0 {
        lemma_lines_processed_push(p, lines, rest);
        lemma_line_recounted(lines_processed(p, lines), rest, n, after);
        lemma_line_number(lines_processed(p, lines), rest);
    }
}

/// Texts with the same lines have the same blocks. Where references may expand to as much in one
/// as in the other, the same may come of them, and that is one tree where there is one reply to
/// everything that is asked.
pub proof fn law_tree_of_lines(
    s: Seq<u8>,
    u: Seq<u8>,
    o: ComrakOptions,
    replies: Replies,
    a: Nodes,
    b: Nodes,
)
    requires
        front_of(starting(o), s) is None,
        front_of(starting(o), u) is None,
        all_lines(s) == all_lines(u),
    ensures
        blocks_of(s, o).blocks == blocks_of(u, o).blocks,
        reference_limit(s.len() as int) == reference_limit(u.len() as int) ==> {
            &&& document_may_be(s, o, replies, a) == document_may_be(u, o, replies, a)
            &&& settled_replies(replies) && document_may_be(s, o, replies, a) && document_may_be(
                u,
                o,
                replies,
                b,
            ) ==> a == b
        },
{
    law_blocks_of_lines(s, o);
    law_blocks_of_lines(u, o);
    if reference_limit(s.len() as int) == reference_limit(u.len() as int) {
        law_tree_of_blocks(blocks_of(s, o), blocks_of(u, o), replies, a, b);
    }
}

/// A document makes the same tree in one piece and in two, and the same is counted of it.
///
/// A piece holds at least a byte. Front matter is looked for in the first piece alone, so there
/// is none in it.
pub proof fn law_tree_in_pieces(
    s: Seq<u8>,
    t: Seq<u8>,
    o: ComrakOptions,
    replies: Replies,
    a: Nodes,
    b: Nodes,
)
    requires
        s.len() > 0,
        t.len() > 0,
        front_of(starting(o), s) is None,
        front_of(starting(o), s + t) is None,
    ensures
        ({
            let (p, rest) = fed(starting(o), seq![], s, false);
            let (q, last) = fed(p, rest, t, true);
            let c = blocks_closed(rest_read(q, last));
            &&& (q, last) == fed(starting(o), seq![], s + t, true)
            &&& q.total_size == size_after(0, (s.len() + t.len()) as int)
            &&& c == blocks_of(s + t, o)
            &&& may_finish_as(c, replies, a) == document_may_be(s + t, o, replies, a)
            &&& settled_replies(replies) && may_finish_as(c, replies, a) && document_may_be(
                s + t,
                o,
                replies,
                b,
            ) ==> a == b
        }),
{
    let p = starting(o);
    law_read_in_pieces(p, seq![], s, t, true);
    let n = size_after(0, (s.len() + t.len()) as int);
    lemma_lines_recounted(
        recounted(p, n, false),
        cut_at_end(s + t, text_start(s + t, false), seq![], true).0,
        n,
        false,
    );
    law_tree_of_blocks(blocks_of(s + t, o), blocks_of(s + t, o), replies, a, b);
}

/// The text with every line end a line feed, for `\r\n` and then for `\r` alone.
pub open spec fn with_line_feeds(s: Seq<u8>) -> Seq<u8>
    decreases s.len(),
{
    if s.len() == 0 {
        seq![]
    } else if s[0] == 13 && s.len() > 1 && s[1] == 10 {
        seq![10u8] + with_line_feeds(s.skip(2))
    } else if s[0] == 13 {
        seq![10u8] + with_line_feeds(s.skip(1))
    } else {
        seq![s[0]] + with_line_feeds(s.skip(1))
    }
}

/// The text with every NUL replaced.
pub open spec fn nuls_replaced(s: Seq<u8>) -> Seq<u8>
    decreases s.len(),
{
    if s.len() == 0 {
        seq![]
    } else if s[0] == 0 {
        replacement() + nuls_replaced(s.skip(1))
    } else {
        seq![s[0]] + nuls_replaced(s.skip(1))
    }
}

/// A byte that neither ends a line nor is a NUL goes to the line.
proof fn lemma_cut_byte(c: u8, t: Seq<u8>, buf: Seq<u8>)
    ensures
        plain_byte(c) ==> cut(seq![c] + t, 0, buf) == cut(t, 0, buf.push(c)),
        c == 0 ==> cut(seq![c] + t, 0, buf) == cut(t, 0, buf + replacement()),
        c == 10 ==> cut(seq![c] + t, 0, buf) == (
            seq![buf] + cut(t, 0, seq![]).0,
            cut(t, 0, seq![]).1,
        ),
{
    let a = seq![c];
    assert((a + t)[0] == c);
    lemma_cut_shifted(a, t, 0, buf.push(c));
    lemma_cut_shifted(a, t, 0, buf + replacement());
    lemma_cut_shifted(a, t, 0, seq![]);
}

/// Line ends are cut off alike.
proof fn lemma_cut_with_line_feeds(s: Seq<u8>, buf: Seq<u8>)
    ensures
        cut(with_line_feeds(s), 0, buf) == cut(s, 0, buf),
        with_line_feeds(s).len() <= s.len(),
    decreases s.len(),
{
    if s.len() > 0 {
        if s[0] == 13 && s.len() > 1 && s[1] == 10 {
            assert(s =~= s.take(2) + s.skip(2));
            lemma_cut_with_line_feeds(s.skip(2), seq![]);
            lemma_cut_shifted(s.take(2), s.skip(2), 0, seq![]);
            lemma_cut_byte(10, with_line_feeds(s.skip(2)), buf);
        } else if line_end_byte(s[0]) {
            assert(s =~= s.take(1) + s.skip(1));
            lemma_cut_with_line_feeds(s.skip(1), seq![]);
            lemma_cut_shifted(s.take(1), s.skip(1), 0, seq![]);
            lemma_cut_byte(10, with_line_feeds(s.skip(1)), buf);
        } else {
            let next = if s[0] == 0 {
                buf + replacement()
            } else {
                buf.push(s[0])
            };
            assert(s =~= seq![s[0]] + s.skip(1));
            lemma_cut_with_line_feeds(s.skip(1), next);
            lemma_cut_byte(s[0], s.skip(1), buf);
            lemma_cut_byte(s[0], with_line_feeds(s.skip(1)), buf);
        }
    }
}

/// What stands for a NUL goes to the line as it is.
proof fn lemma_cut_replacement(t: Seq<u8>, buf: Seq<u8>)
    ensures
        cut(replacement() + t, 0, buf) == cut(t, 0, buf + replacement()),
        replacement().len() == 3,
{
    lemma_replacement();
    let u = replacement() + t;
    lemma_cut_shifted(replacement(), t, 0, buf + replacement());
    assert forall|k: int| 0 <= k < 3 implies plain_byte(#[trigger] u[k]) by {
        assert(u[k] == replacement()[k]);
    }
    lemma_cut_plain(u, 0, 3, buf);
    assert(u.subrange(0, 3) =~= replacement());
}

/// A replaced NUL does not end a line, nor does it join two line ends.
proof fn lemma_first_replaced(s: Seq<u8>)
    requires
        s.len() > 0,
    ensures
        nuls_replaced(s).len() > 0,
        nuls_replaced(s)[0] == 10 <==> s[0] == 10,
{
    lemma_replacement();
    if s[0] == 0 {
        assert(nuls_replaced(s)[0] == replacement()[0]);
        assert(plain_byte(replacement()[0]));
    }
}

/// NULs are replaced alike.
proof fn lemma_cut_nuls_replaced(s: Seq<u8>, buf: Seq<u8>)
    ensures
        cut(nuls_replaced(s), 0, buf) == cut(s, 0, buf),
        nuls_replaced(s).len() >= s.len(),
    decreases s.len(),
{
    if s.len() > 0 {
        let u = nuls_replaced(s);
        let rest = s.skip(1);
        let t = nuls_replaced(rest);
        assert(s =~= seq![s[0]] + rest);
        if s[0] == 0 {
            lemma_cut_nuls_replaced(rest, buf + replacement());
            lemma_cut_byte(0, rest, buf);
            lemma_cut_replacement(t, buf);
        } else if s[0] == 13 && s.len() > 1 && s[1] == 10 {
            assert(s =~= s.take(2) + s.skip(2));
            assert(rest.skip(1) =~= s.skip(2));
            let v = nuls_replaced(s.skip(2));
            assert(t == seq![10u8] + v);
            assert(u =~= seq![13u8, 10u8] + v);
            lemma_cut_nuls_replaced(s.skip(2), seq![]);
            lemma_cut_shifted(s.take(2), s.skip(2), 0, seq![]);
            lemma_cut_shifted(seq![13u8, 10u8], v, 0, seq![]);
        } else if line_end_byte(s[0]) {
            if rest.len() > 0 {
                lemma_first_replaced(rest);
                assert(u[1] == t[0]);
            }
            lemma_cut_nuls_replaced(rest, seq![]);
            lemma_cut_shifted(seq![s[0]], rest, 0, seq![]);
            lemma_cut_shifted(seq![s[0]], t, 0, seq![]);
        } else {
            lemma_cut_nuls_replaced(rest, buf.push(s[0]));
            lemma_cut_byte(s[0], rest, buf);
            lemma_cut_byte(s[0], t, buf);
        }
    }
}

/// It does not matter whether lines end with line feeds, carriage returns or both: the blocks are
/// the same. Where references may expand to as much either way, as in all documents that are not
/// longer than what they may expand to at least, the same may come of the text, and that is one
/// tree where there is one reply to everything that is asked.
pub proof fn law_line_ends_alike(
    s: Seq<u8>,
    o: ComrakOptions,
    replies: Replies,
    a: Nodes,
    b: Nodes,
)
    requires
        front_of(starting(o), s) is None,
        front_of(starting(o), with_line_feeds(s)) is None,
    ensures
        ({
            let u = with_line_feeds(s);
            &&& all_lines(u) == all_lines(s)
            &&& blocks_of(u, o).blocks == blocks_of(s, o).blocks
            &&& s.len() <= MIN_REF_SIZE ==> reference_limit(s.len() as int) == reference_limit(
                u.len() as int,
            )
            &&& reference_limit(s.len() as int) == reference_limit(u.len() as int) ==> {
                &&& document_may_be(s, o, replies, a) == document_may_be(u, o, replies, a)
                &&& settled_replies(replies) && document_may_be(s, o, replies, a)
                    && document_may_be(u, o, replies, b) ==> a == b
            }
        }),
{
    lemma_cut_with_line_feeds(s, seq![]);
    law_tree_of_lines(s, with_line_feeds(s), o, replies, a, b);
}

/// A NUL is as good as what stands for it, at the end of the text too: the blocks are the same.
/// Where references may expand to as much either way, as in all documents that are not longer
/// than what they may expand to at least, the same may come of the text, and that is one tree
/// where there is one reply to everything that is asked.
pub proof fn law_nuls_replaced(
    s: Seq<u8>,
    o: ComrakOptions,
    replies: Replies,
    a: Nodes,
    b: Nodes,
)
    requires
        front_of(starting(o), s) is None,
        front_of(starting(o), nuls_replaced(s)) is None,
    ensures
        ({
            let u = nuls_replaced(s);
            &&& all_lines(u) == all_lines(s)
            &&& blocks_of(u, o).blocks == blocks_of(s, o).blocks
            &&& u.len() <= MIN_REF_SIZE ==> reference_limit(s.len() as int) == reference_limit(
                u.len() as int,
            )
            &&& reference_limit(s.len() as int) == reference_limit(u.len() as int) ==> {
                &&& document_may_be(s, o, replies, a) == document_may_be(u, o, replies, a)
                &&& settled_replies(replies) && document_may_be(s, o, replies, a)
                    && document_may_be(u, o, replies, b) ==> a == b
            }
        }),
{
    lemma_cut_nuls_replaced(s, seq![]);
    law_tree_of_lines(s, nuls_replaced(s), o, replies, a, b);
}

/// The last line of a document needs no line end: the blocks are the same with one. Where
/// references may expand to as much either way, the same may come of the text, and that is one
/// tree where there is one reply to everything that is asked.
pub proof fn law_last_line_end_optional(
    s: Seq<u8>,
    o: ComrakOptions,
    replies: Replies,
    a: Nodes,
    b: Nodes,
)
    requires
        s.len() > 0,
        !line_end_byte(s.last()),
        front_of(starting(o), s) is None,
        front_of(starting(o), s.push(10)) is None,
    ensures
        ({
            let u = s.push(10);
            &&& all_lines(u) == all_lines(s)
            &&& blocks_of(u, o).blocks == blocks_of(s, o).blocks
            &&& reference_limit(s.len() as int) == reference_limit(u.len() as int) ==> {
                &&& document_may_be(s, o, replies, a) == document_may_be(u, o, replies, a)
                &&& settled_replies(replies) && document_may_be(s, o, replies, a)
                    && document_may_be(u, o, replies, b) ==> a == b
            }
        }),
{
    let t = seq![10u8];
    let (lines, rest) = cut(s, 0, seq![]);
    assert(s.push(10) =~= s + t);
    lemma_cut_concat(s, t, 0, seq![]);
    lemma_cut_rest(s, 0, seq![]);
    reveal_with_fuel(cut, 2);
    assert(cut(t, 0, rest).0 =~= seq![rest]);
    assert(all_lines(s.push(10)) =~= all_lines(s));
    law_tree_of_lines(s, s.push(10), o, replies, a, b);
}

} // verus!
