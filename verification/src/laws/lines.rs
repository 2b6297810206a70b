//! What the lines of a text are, and what is counted of it.

use crate::adding::text_added;
use crate::document::blocks_closed;
use crate::front::front_end;
use crate::laws::words::{line_end, LINE_FEED, RETURN};
use crate::lines::{
    at_start, bytes_fed, cut, cut_at_end, front_of, lemma_cut_plain, lemma_replacement, length_of,
    plain_byte, replacement, size_after, text_processed, text_start, with_line_feed,
};
use crate::matching::checked;
use crate::opening::all_opened;
use crate::parser::ParserView;
use crate::pieces::{all_lines, lemma_cut_shifted};
use vstd::prelude::*;
use vstd::utf8::encode_utf8;

verus! {

/// Whether `a` holds neither a line end nor a NUL.
pub open spec fn within_line(a: Seq<u8>) -> bool {
    forall|k: int| 0 <= k < a.len() ==> !line_end(#[trigger] a[k]) && a[k] != 0
}

/// What is cut off behind the first line end.
proof fn lemma_line_cut(a: Seq<u8>, end: Seq<u8>, rest: Seq<u8>)
    requires
        within_line(a),
        end == seq![LINE_FEED] || end == seq![RETURN, LINE_FEED]
            || end == seq![RETURN] && (rest.len() == 0
            || rest[0] != LINE_FEED),
    ensures
        ({
            let (lines, left) = cut(rest, 0, seq![]);
            cut(a + end + rest, 0, seq![]) == (seq![a] + lines, left)
        }),
{
    let s = a + end + rest;
    let n = a.len() as int;
    let none: Seq<u8> = seq![];
    assert forall|k: int| 0 <= k < n implies plain_byte(#[trigger] s[k]) by {
        assert(s[k] == a[k]);
    }
    lemma_cut_plain(s, 0, n, none);
    assert(none + s.subrange(0, n) =~= a);
    assert(s[n] == end[0]);
    if end.len() == 2 {
        assert(s[n + 1] == end[1]);
    } else if rest.len() > 0 {
        assert(s[n + 1] == rest[0]);
    }
    let e = a + end;
    assert(s =~= e + rest);
    lemma_cut_shifted(e, rest, 0, none);
}

/// A line ends with a line feed, a carriage return, or both, and what follows is cut into lines
/// alike. What ends with none of them is a line too. An empty text has no line.
pub proof fn law_lines(a: Seq<u8>, end: Seq<u8>, rest: Seq<u8>)
    requires
        within_line(a),
        end == seq![LINE_FEED] || end == seq![RETURN, LINE_FEED]
            || end == seq![RETURN] && (rest.len() == 0
            || rest[0] != LINE_FEED),
    ensures
        all_lines(a + end + rest) == seq![a] + all_lines(rest),
        a.len() > 0 ==> all_lines(a) == seq![a],
        all_lines(seq![]).len() == 0,
{
    lemma_line_cut(a, end, rest);
    let (lines, left) = cut(rest, 0, seq![]);
    assert((seq![a] + lines).push(left) =~= seq![a] + lines.push(left));
    let none: Seq<u8> = seq![];
    assert forall|k: int| 0 <= k < a.len() implies plain_byte(#[trigger] a[k]) by {
        assert(!line_end(a[k]));
    }
    lemma_cut_plain(a, 0, a.len() as int, none);
    assert(none + a.subrange(0, a.len() as int) =~= a);
    let nothing: Seq<Seq<u8>> = seq![];
    assert(nothing.push(a) =~= seq![a]);
}

/// A NUL in a line is replaced by the replacement character, of three bytes.
pub proof fn law_nul(a: Seq<u8>, b: Seq<u8>)
    requires
        within_line(a),
        within_line(b),
    ensures
        all_lines(a + seq![0u8] + b) == seq![a + seq![0xefu8, 0xbf, 0xbd] + b],
{
    lemma_replacement();
    let s = a + seq![0u8] + b;
    let n = a.len() as int;
    let none: Seq<u8> = seq![];
    assert forall|k: int| 0 <= k < n implies plain_byte(#[trigger] s[k]) by {
        assert(s[k] == a[k]);
    }
    lemma_cut_plain(s, 0, n, none);
    assert(none + s.subrange(0, n) =~= a);
    assert(s[n] == 0);
    let buf = a + replacement();
    assert forall|k: int| n + 1 <= k < s.len() implies plain_byte(#[trigger] s[k]) by {
        assert(s[k] == b[k - n - 1]);
    }
    lemma_cut_plain(s, n + 1, s.len() as int, buf);
    assert(buf + s.subrange(n + 1, s.len() as int) =~= a + seq![0xefu8, 0xbf, 0xbd] + b);
    let nothing: Seq<Seq<u8>> = seq![];
    let line = a + seq![0xefu8, 0xbf, 0xbd] + b;
    assert(nothing.push(line) =~= seq![line]);
}

/// A line starts at its first byte, and the first line of a document behind its byte order mark.
/// Nothing of it is read yet.
pub proof fn law_line_start(line: Seq<u8>, number: int)
    ensures
        ({
            let c = at_start(line, number);
            let marked = line.len() >= 3 && line.take(3) == seq![0xefu8, 0xbb, 0xbf];
            &&& number > 0 || !marked ==> c.offset == 0
            &&& number == 0 && marked ==> c.offset == 3
            &&& c.column == 0 && c.indent == 0 && !c.partially_consumed_tab
                && c.thematic_break_kill_pos == 0
        }),
{
    if line.len() >= 3 {
        let t = line.take(3);
        assert(t[0] == line[0] && t[1] == line[1] && t[2] == line[2]);
        if line[0] == 0xef && line[1] == 0xbb && line[2] == 0xbf {
            assert(t =~= seq![0xefu8, 0xbb, 0xbf]);
        }
    }
}

/// The length of a line does not count its line end.
pub proof fn law_length(a: Seq<u8>)
    requires
        within_line(a),
    ensures
        length_of(a) == a.len(),
        length_of(a.push(LINE_FEED)) == a.len(),
        length_of(a + seq![RETURN, LINE_FEED]) == a.len(),
        with_line_feed(a) == a.push(LINE_FEED),
        with_line_feed(a.push(LINE_FEED)) == a.push(LINE_FEED),
{
    let n = a.len() as int;
    if n > 0 {
        assert(!line_end(a[n - 1]));
        assert(a.push(LINE_FEED)[n - 1] == a[n - 1]);
        assert((a + seq![RETURN, LINE_FEED])[n - 1] == a[n - 1]);
    }
    let c = a + seq![RETURN, LINE_FEED];
    assert(c[n] == RETURN && c.last() == LINE_FEED);
}

/// References may expand to as much text as the document has, and to a hundred thousand bytes at
/// least.
pub proof fn law_reference_limit(p: ParserView)
    ensures
        blocks_closed(p).max_ref_size >= 100000,
        blocks_closed(p).max_ref_size >= p.total_size,
        blocks_closed(p).max_ref_size == 100000 || blocks_closed(p).max_ref_size == p.total_size,
        blocks_closed(p).current == 0,
{
}

/// Sizes add up, as far as they can be counted.
pub proof fn law_size(n: int, a: int, b: int)
    requires
        0 <= n <= usize::MAX && 0 <= a && 0 <= b,
    ensures
        n + a <= usize::MAX ==> size_after(n, a) == n + a,
        size_after(n, a) <= usize::MAX,
        size_after(n, a) >= n,
        size_after(size_after(n, a), b) == size_after(n, a + b),
{
}

/// A line feed that starts a piece of text is no line of its own, if the piece before it ended
/// with a carriage return. Whether this one does is kept in mind.
pub proof fn law_pieces(p: ParserView, buf: Seq<u8>, s: Seq<u8>, eof: bool)
    ensures
        text_start(s, false) == 0,
        s.len() > 0 && s[0] == LINE_FEED ==> text_start(s, true) == 1,
        s.len() > 0 && s[0] != LINE_FEED ==> text_start(s, true) == 0,
        s.len() > 0 ==> bytes_fed(p, buf, s, eof).0.last_buffer_ended_with_cr == (s.last()
            == RETURN),
        s.len() == 0 ==> !bytes_fed(p, buf, s, eof).0.last_buffer_ended_with_cr,
{
}

/// Where the text ends without a line end, what is left of it is a line too. Else it is kept for
/// the next piece.
pub proof fn law_last_line(s: Seq<u8>, i: int, buf: Seq<u8>)
    requires
        0 <= i < s.len(),
    ensures
        cut_at_end(s, i, buf, false) == cut(s, i, buf),
        s.last() != 0 && s.last() != LINE_FEED && s.last() != RETURN ==> {
            let (lines, rest) = cut_at_end(s, i, buf, true);
            &&& rest.len() == 0
            &&& lines == cut(s, i, buf).0.push(cut(s, i, buf).1)
        },
        s.last() == 0 || s.last() == LINE_FEED || s.last() == RETURN ==> cut_at_end(s, i, buf, true)
            == cut(s, i, buf),
{
}

/// Front matter is looked for at the start of the document alone, and just where the options have
/// a delimiter for it.
pub proof fn law_front_matter_first(p: ParserView, s: Seq<u8>)
    ensures
        p.total_size > 0 ==> front_of(p, s) is None,
        p.options.extension.front_matter_delimiter is None ==> front_of(p, s) is None,
        p.total_size == 0 ==> (p.options.extension.front_matter_delimiter matches Some(d)
            ==> front_of(p, s) == front_end(s, encode_utf8(d@))),
{
}

/// A line may be lazy where the innermost block is a paragraph, whatever block the line was
/// matched with.
pub proof fn law_line_read(p: ParserView, text: Seq<u8>)
    ensures
        match checked(p, text) {
            (q, Some((m, all))) => {
                let lazy = q.blocks.nodes[q.current].value is Paragraph;
                let (a, i) = all_opened(q, m, text, all, lazy);
                text_processed(p, text) == text_added(a, i, m, text)
            },
            (q, None) => text_processed(p, text) == q,
        },
{
    reveal(text_processed);
}

} // verus!
