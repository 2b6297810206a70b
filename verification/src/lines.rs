//! Lines, and how text is cut into them.

use crate::adding::text_added;
use crate::blocks::{at_rest, close, open_after};
use crate::ctype::{is_line_end_char, line_end_byte};
use crate::cursor::{Cursor, CursorView};
use crate::front::front_end;
use crate::matching::{checked, lemma_checked};
use crate::nodes::Value;
use crate::opening::{all_opened, has_reached, one_opened, opened, takes_rest, with_child};
use crate::parser::{Parser, ParserView};
use crate::prefixes::text_line;
use crate::text::{copy_range, lemma_boundary_at_ascii, lemma_valid_between, lemma_valid_push};
use vstd::prelude::*;
use vstd::utf8::{
    decode_utf8, encode_scalar, encode_utf8, encode_utf8_valid_utf8, is_char_boundary,
    is_char_boundary_iff_not_is_continuation_byte, is_char_boundary_start_end_of_seq,
    is_continuation_byte, last_continuation_byte, leading_byte_width_3, pop_first_scalar,
    second_last_continuation_byte, valid_utf8,
};

verus! {

/// The line with its line feed.
pub open spec fn with_line_feed(line: Seq<u8>) -> Seq<u8> {
    if line.len() > 0 && line.last() == 10 {
        line
    } else {
        line.push(10)
    }
}

/// Whether the line starts with a byte order mark.
pub open spec fn starts_with_mark(line: Seq<u8>) -> bool {
    line.len() >= 3 && line[0] == 239 && line[1] == 187 && line[2] == 191
}

/// The cursor at the start of a line, behind the byte order mark of the document.
pub open spec fn at_start(line: Seq<u8>, line_number: int) -> CursorView {
    CursorView {
        offset: if line_number == 0 && starts_with_mark(line) {
            3
        } else {
            0
        },
        column: 0,
        thematic_break_kill_pos: 0,
        first_nonspace: 0,
        first_nonspace_column: 0,
        indent: 0,
        blank: false,
        partially_consumed_tab: false,
    }
}

/// The length of a line without its line end.
pub open spec fn length_of(line: Seq<u8>) -> int {
    let n = if line.len() > 0 && line.last() == 10 {
        line.len() - 1
    } else {
        line.len() as int
    };
    if n > 0 && line[n - 1] == 13 {
        n - 1
    } else {
        n
    }
}

/// The state when a line, at whose start the cursor stands, has gone to the blocks.
#[verifier::opaque]
pub open spec fn text_processed(p: ParserView, text: Seq<u8>) -> ParserView {
    let (q, r) = checked(p, text);
    match r {
        Some((m, all)) => {
            let (a, i) = all_opened(
                q,
                m,
                text,
                all,
                q.blocks.nodes[q.current].value is Paragraph,
            );
            text_added(a, i, m, text)
        },
        None => q,
    }
}

/// The state when a line has been read.
pub open spec fn line_processed(p: ParserView, line: Seq<u8>) -> ParserView {
    let text = with_line_feed(line);
    let q = ParserView {
        cursor: at_start(text, p.line_number),
        line_number: p.line_number + 1,
        ..p
    };
    ParserView { last_line_length: length_of(text), ..text_processed(q, text) }
}

/// The state when lines have been read.
pub open spec fn lines_processed(p: ParserView, lines: Seq<Seq<u8>>) -> ParserView
    decreases lines.len(),
{
    if lines.len() == 0 {
        p
    } else {
        line_processed(lines_processed(p, lines.drop_last()), lines.last())
    }
}

/// Whether the columns of a line of `n` bytes can be counted.
pub open spec fn line_fits(n: int) -> bool {
    4 * (n + 1) + 8 <= usize::MAX
}

/// What stands for a NUL.
pub open spec fn replacement() -> Seq<u8> {
    encode_utf8("\u{fffd}"@)
}

/// A byte that neither ends a line nor has to be replaced.
pub open spec fn plain_byte(b: u8) -> bool {
    b != 0 && b != 10 && b != 13
}

/// The lines that end in `s` from `i` on, and what is left behind them; `buf` is what was left
/// before.
///
/// A line ends with a line feed, a carriage return or both. A NUL is replaced.
pub open spec fn cut(s: Seq<u8>, i: int, buf: Seq<u8>) -> (Seq<Seq<u8>>, Seq<u8>)
    decreases s.len() - i,
{
    if i < 0 || i >= s.len() {
        (seq![], buf)
    } else if s[i] == 0 {
        cut(s, i + 1, buf + replacement())
    } else if line_end_byte(s[i]) {
        let n = if s[i] == 13 && i + 1 < s.len() && s[i + 1] == 10 {
            i + 2
        } else {
            i + 1
        };
        let (lines, rest) = cut(s, n, seq![]);
        (seq![buf] + lines, rest)
    } else {
        cut(s, i + 1, buf.push(s[i]))
    }
}

/// Where a text goes on that follows one which ended with a carriage return or not.
pub open spec fn text_start(s: Seq<u8>, after_cr: bool) -> int {
    if after_cr && s.len() > 0 && s[0] == 10 {
        1
    } else {
        0
    }
}

/// The lines in `s` from `i` on and what is left, where at the end of the document a line that
/// has no line end is one too.
pub open spec fn cut_at_end(s: Seq<u8>, i: int, buf: Seq<u8>, eof: bool) -> (
    Seq<Seq<u8>>,
    Seq<u8>,
) {
    let (lines, rest) = cut(s, i, buf);
    if eof && i < s.len() && plain_byte(s.last()) {
        (lines.push(rest), seq![])
    } else {
        (lines, rest)
    }
}

/// The size of all text read, as far as it can be counted.
pub open spec fn size_after(total: int, n: int) -> int {
    if total + n > usize::MAX {
        usize::MAX as int
    } else {
        total + n
    }
}

/// The state when the bytes `s` have been read, and what is left of them for the next line.
pub open spec fn bytes_fed(p: ParserView, buf: Seq<u8>, s: Seq<u8>, eof: bool) -> (
    ParserView,
    Seq<u8>,
) {
    let start = text_start(s, p.last_buffer_ended_with_cr);
    let (lines, rest) = cut_at_end(s, start, buf, eof);
    let q = lines_processed(
        ParserView {
            total_size: size_after(p.total_size, s.len() as int),
            last_buffer_ended_with_cr: false,
            ..p
        },
        lines,
    );
    (
        ParserView {
            last_buffer_ended_with_cr: start < s.len() && s.last() == 13,
            ..q
        },
        rest,
    )
}

/// The state with front matter in the document.
pub open spec fn with_front_matter(p: ParserView, front: Seq<char>) -> ParserView {
    let (q, id) = with_child(p, 0, Value::FrontMatter(front));
    ParserView { blocks: close(q.blocks, id, p.info()), ..q }
}

/// Where the text that is no front matter starts, in the first text that is read.
pub open spec fn front_of(p: ParserView, s: Seq<u8>) -> Option<int> {
    match p.options.extension.front_matter_delimiter {
        Some(d) => if p.total_size == 0 {
            front_end(s, encode_utf8(d@))
        } else {
            None
        },
        None => None,
    }
}

/// The state when the bytes `s` have been read, front matter among them, and what is left of
/// them for the next line.
pub open spec fn fed(p: ParserView, buf: Seq<u8>, s: Seq<u8>, eof: bool) -> (
    ParserView,
    Seq<u8>,
) {
    match front_of(p, s) {
        Some(e) => bytes_fed(
            with_front_matter(p, decode_utf8(s.subrange(0, e))),
            buf,
            s.subrange(e, s.len() as int),
            eof,
        ),
        None => bytes_fed(p, buf, s, eof),
    }
}

/// What holds of a parser between two lines.
pub open spec fn between_lines(p: ParserView) -> bool {
    &&& at_rest(p.blocks.nodes, p.current)
    &&& p.total_size == 0 ==> p.current == 0
}

/// Text that starts with a byte order mark goes on behind it.
proof fn lemma_mark_boundary(line: Seq<u8>)
    requires
        valid_utf8(line),
        starts_with_mark(line),
        line.len() > 3,
    ensures
        is_char_boundary(line, 3),
{
    let u = pop_first_scalar(line);
    assert(u =~= line.subrange(3, line.len() as int));
    assert(valid_utf8(u));
    assert(u[0] == line[3]);
    assert(!is_continuation_byte(line[3]));
    is_char_boundary_iff_not_is_continuation_byte(line, 3);
}

/// A line with its line feed is text.
proof fn lemma_with_line_feed(line: Seq<u8>)
    requires
        valid_utf8(line),
        line_fits(line.len() as int),
    ensures
        text_line(with_line_feed(line)),
{
    lemma_valid_push(line, 10);
}

/// The cursor at the start of a line is ready.
proof fn lemma_at_start(line: Seq<u8>, line_number: int)
    requires
        text_line(line),
    ensures
        at_start(line, line_number).ready(line),
{
    is_char_boundary_start_end_of_seq(line);
    if starts_with_mark(line) {
        assert(line[line.len() - 1] == 10);
        lemma_mark_boundary(line);
    }
}

/// A line reads the same with its line feed and without. Either way it is the next line, and its
/// length is that of its text.
pub proof fn law_line_feed_optional(p: ParserView, line: Seq<u8>)
    requires
        line.len() == 0 || !line_end_byte(line.last()),
    ensures
        line_processed(p, line) == line_processed(p, line.push(10)),
        line_processed(p, line).line_number == p.line_number + 1,
        line_processed(p, line).last_line_length == line.len(),
{
    lemma_line_number(p, line);
    assert(with_line_feed(line) == line.push(10));
    assert(with_line_feed(line.push(10)) == line.push(10));
}

impl<'a, 'o> Parser<'a, 'o> {
    /// Hands a line, at whose start the cursor stands, to the blocks.
    #[verifier::rlimit(60)]
    fn process_text(&mut self, text: &[u8])
        requires
            at_rest(old(self)@.blocks.nodes, old(self)@.current),
            text_line(text@),
            old(self)@.cursor.ready(text@),
        ensures
            final(self)@ == text_processed(old(self)@, text@),
            at_rest(final(self)@.blocks.nodes, final(self)@.current),
    {
        let ghost p = self@;
        proof {
            reveal(text_processed);
            lemma_checked(p, text@);
        }
        let mut all_matched: bool = true;
        match self.check_open_blocks(text, &mut all_matched) {
            Some(last_matched) => {
                let mut container: usize = last_matched;
                let ghost s = open_after(p.blocks.nodes, last_matched as int);
                self.open_new_blocks(&mut container, text, all_matched);
                proof {
                    assert(has_reached(
                        self@,
                        container as int,
                        text@,
                        p.current,
                        last_matched as int,
                        s,
                    ));
                }
                self.add_text_to_container(container, last_matched, text);
            },
            None => {},
        }
    }

    /// Reads a line, which need not end with its line feed.
    #[verifier::rlimit(60)]
    pub(crate) fn process_line(&mut self, line: &[u8])
        requires
            at_rest(old(self)@.blocks.nodes, old(self)@.current),
            valid_utf8(line@),
            line_fits(line@.len() as int),
            line@.len() > 0 ==> line@.last() != 13,
            old(self)@.line_number < usize::MAX,
        ensures
            final(self)@ == line_processed(old(self)@, line@),
            at_rest(final(self)@.blocks.nodes, final(self)@.current),
    {
        let ghost p = self@;
        let mut new_line: Vec<u8> = copy_range(line, 0, line.len());
        proof {
            assert(new_line@ =~= line@);
            lemma_with_line_feed(line@);
        }
        let n: usize = line.len();
        if n == 0 || line[n - 1] != 10 {
            new_line.push(10);
        }
        let text: &[u8] = new_line.as_slice();
        proof {
            lemma_at_start(text@, p.line_number);
        }
        self.cursor = Cursor::new();
        if self.line_number == 0 && text.len() >= 3 && text[0] == 239 && text[1] == 187 && text[2]
            == 191 {
            self.cursor.offset = 3;
        }
        self.line_number += 1;
        self.process_text(text);
        let mut length: usize = text.len();
        if length > 0 && text[length - 1] == 10 {
            length -= 1;
        }
        if length > 0 && text[length - 1] == 13 {
            length -= 1;
        }
        self.last_line_length = length;
    }
}

/// Plain bytes are left for the line that they are in.
pub proof fn lemma_cut_plain(s: Seq<u8>, i: int, e: int, buf: Seq<u8>)
    requires
        0 <= i <= e <= s.len(),
        forall|k: int| i <= k < e ==> plain_byte(#[trigger] s[k]),
    ensures
        cut(s, i, buf) == cut(s, e, buf + s.subrange(i, e)),
    decreases e - i,
{
    if i < e {
        lemma_cut_plain(s, i + 1, e, buf.push(s[i]));
        assert(buf.push(s[i]) + s.subrange(i + 1, e) =~= buf + s.subrange(i, e));
    } else {
        assert(buf + s.subrange(i, e) =~= buf);
    }
}

/// What stands for a NUL is text of three bytes.
pub proof fn lemma_replacement()
    ensures
        replacement() == seq![239u8, 191u8, 189u8],
        replacement().len() == 3,
        valid_utf8(replacement()),
        forall|k: int| 0 <= k < 3 ==> plain_byte(#[trigger] replacement()[k]),
{
    reveal_strlit("\u{fffd}");
    let c = "\u{fffd}"@;
    encode_utf8_valid_utf8(c);
    reveal_with_fuel(encode_utf8, 2);
    assert(c.drop_first().len() == 0);
    let r = replacement();
    let x = '\u{fffd}' as u32;
    assert(x == 0xfffd);
    assert(r =~= encode_scalar(x));
    assert(leading_byte_width_3(0xfffdu32) == 0xef) by (bit_vector);
    assert(second_last_continuation_byte(0xfffdu32) == 0xbf) by (bit_vector);
    assert(last_continuation_byte(0xfffdu32) == 0xbd) by (bit_vector);
}

/// All bytes are plain.
pub open spec fn all_plain(s: Seq<u8>) -> bool {
    forall|k: int| 0 <= k < s.len() ==> plain_byte(#[trigger] s[k])
}

/// Lines one after the other.
pub proof fn lemma_lines_processed_push(p: ParserView, lines: Seq<Seq<u8>>, line: Seq<u8>)
    ensures
        lines_processed(p, lines.push(line)) == line_processed(lines_processed(p, lines), line),
{
    assert(lines.push(line).drop_last() =~= lines);
}

/// What stands between two ASCII bytes, or an ASCII byte and an end, is text.
pub proof fn lemma_segment(s: Seq<u8>, i: int, e: int)
    requires
        valid_utf8(s),
        0 <= i <= e <= s.len(),
        i == 0 || s[i - 1] < 128,
        e == s.len() || s[e] < 128,
    ensures
        valid_utf8(s.subrange(i, e)),
{
    is_char_boundary_start_end_of_seq(s);
    if i > 0 {
        lemma_boundary_at_ascii(s, i - 1);
    }
    if e < s.len() {
        lemma_boundary_at_ascii(s, e);
    }
    lemma_valid_between(s, i, e);
}

/// Where the plain bytes at `i` end.
pub fn skip_plain(s: &[u8], i: usize) -> (r: usize)
    requires
        i <= s@.len(),
    ensures
        i <= r <= s@.len(),
        forall|k: int| i <= k < r ==> plain_byte(#[trigger] s@[k]),
        r < s@.len() ==> !plain_byte(s@[r as int]),
{
    let mut e: usize = i;
    while e < s.len() && s[e] != 0 && !is_line_end_char(s[e])
        invariant
            i <= e <= s@.len(),
            forall|k: int| i <= k < e ==> plain_byte(#[trigger] s@[k]),
        decreases s@.len() - e,
    {
        e += 1;
    }
    e
}

impl<'a, 'o> Parser<'a, 'o> {
    /// Reads the line that `linebuf` holds, and empties it.
    #[verifier::rlimit(60)]
    pub(crate) fn process_buffer(&mut self, linebuf: &mut Vec<u8>)
        requires
            at_rest(old(self)@.blocks.nodes, old(self)@.current),
            valid_utf8(old(linebuf)@),
            all_plain(old(linebuf)@),
            line_fits(old(linebuf)@.len() as int),
            old(self)@.line_number < usize::MAX,
        ensures
            final(self)@ == line_processed(old(self)@, old(linebuf)@),
            at_rest(final(self)@.blocks.nodes, final(self)@.current),
            final(self)@.line_number == old(self)@.line_number + 1,
            final(self)@.total_size == old(self)@.total_size,
            final(linebuf)@ == Seq::<u8>::empty(),
    {
        proof {
            lemma_line_number(self@, linebuf@);
        }
        self.process_line(linebuf.as_slice());
        linebuf.truncate(0);
        proof {
            assert(linebuf@ =~= Seq::<u8>::empty());
        }
    }
}

/// What the blocks of a line do not touch is the same.
spec fn same_but_blocks(p: ParserView, q: ParserView) -> bool {
    q == ParserView { blocks: q.blocks, current: q.current, cursor: q.cursor, ..p }
}

/// Opening blocks touches only the blocks and the cursor.
proof fn lemma_opened_same(
    p: ParserView,
    i: int,
    line: Seq<u8>,
    all_matched: bool,
    maybe_lazy: bool,
)
    ensures
        same_but_blocks(p, one_opened(p, i, line, all_matched, maybe_lazy).0),
{
    reveal(opened);
}

/// Opening blocks touches only the blocks and the cursor.
proof fn lemma_all_opened_same(
    p: ParserView,
    i: int,
    line: Seq<u8>,
    all_matched: bool,
    maybe_lazy: bool,
)
    ensures
        same_but_blocks(p, all_opened(p, i, line, all_matched, maybe_lazy).0),
    decreases line.len() - p.cursor.offset,
{
    lemma_opened_same(p, i, line, all_matched, maybe_lazy);
    let v = p.blocks.nodes[i].value;
    if !(v is CodeBlock || v is HtmlBlock) {
        match one_opened(p, i, line, all_matched, maybe_lazy) {
            (q, Some(j)) => {
                if !takes_rest(q.blocks.nodes[j].value) && p.cursor.offset < q.cursor.offset
                    <= line.len() {
                    lemma_all_opened_same(q, j, line, all_matched, false);
                }
            },
            (q, None) => {},
        }
    }
}

/// A line counts as one, and touches only the blocks and where the parser is in them.
pub proof fn lemma_line_number(p: ParserView, line: Seq<u8>)
    ensures
        line_processed(p, line) == (ParserView {
            line_number: p.line_number + 1,
            total_size: p.total_size,
            last_buffer_ended_with_cr: p.last_buffer_ended_with_cr,
            max_ref_size: p.max_ref_size,
            options: p.options,
            ..line_processed(p, line)
        }),
{
    reveal(text_processed);
    let text = with_line_feed(line);
    let q = ParserView {
        cursor: at_start(text, p.line_number),
        line_number: p.line_number + 1,
        ..p
    };
    match checked(q, text) {
        (r, Some((m, all))) => {
            let lazy = r.blocks.nodes[r.current].value is Paragraph;
            lemma_all_opened_same(r, m, text, all, lazy);
        },
        _ => {},
    }
}

} // verus!