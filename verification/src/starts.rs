//! Which block a line starts.

use crate::ctype::{blanks, lemma_run_end, only, run_end};
use crate::cursor::{thematic_break, CursorView, CODE_INDENT};
use crate::markers::{lemma_marker_readable, list_marker, parse_list_marker};
use crate::nodes::{NodeList, NodeValue};
use crate::options::ComrakOptions;
use crate::parser::{Parser, ParserView};
use crate::prefixes::{lemma_poised, text_line};
use crate::scanners::{
    atx_heading_start, atx_start, footnote_definition, footnote_label_end, footnote_start,
    html_block_start, html_block_start_7, html_start, html_start_7, open_code_fence, open_fence,
    setext_heading_line, setext_line, SetextChar,
};
use crate::text::{lemma_boundary_at_ascii, lemma_valid_between};
use crate::tree::{is_tree, last_child, Nodes};
use crate::unwrap::{unwrap_into, unwrap_into_2};
use vstd::prelude::*;
use vstd::slice::slice_subrange;
use vstd::utf8::{is_char_boundary, valid_utf8};

verus! {

/// What starts at the byte looked up.
#[derive(Debug, Clone, Copy, PartialEq, Eq, Structural)]
pub enum BlockStart {
    Quote,
    /// A heading with hashes; the bytes they take with the blanks behind them.
    Atx(usize),
    /// A fenced code block; the length of the fence.
    Fence(usize),
    /// HTML; which of the seven start conditions it meets.
    Html(u8),
    /// The underline of a heading.
    Setext(SetextChar),
    /// A thematic break.
    Break,
    /// A footnote definition; the bytes up to its contents, and up to the end of its label.
    Footnote(usize, usize),
    /// The details of a description item.
    Details,
    /// A list item; the bytes of its marker.
    Item(usize, NodeList),
    /// An indented code block.
    Indented,
    /// None of these.
    Other,
}

/// The rest of the line from the byte looked up on.
pub open spec fn rest_of(c: CursorView, line: Seq<u8>) -> Seq<u8> {
    line.subrange(c.first_nonspace, line.len() as int)
}

/// What comes before thematic breaks in the order in which starts are looked for.
pub open spec fn early_start(in_paragraph: bool, c: CursorView, line: Seq<u8>) -> Option<
    BlockStart,
> {
    let rest = rest_of(c, line);
    if c.indent >= CODE_INDENT {
        None
    } else if line[c.first_nonspace] == 62 {
        Some(BlockStart::Quote)
    } else if atx_start(rest) is Some {
        Some(BlockStart::Atx(atx_start(rest)->0 as usize))
    } else if open_fence(rest) is Some {
        Some(BlockStart::Fence(open_fence(rest)->0 as usize))
    } else if html_start(rest) is Some {
        Some(BlockStart::Html(html_start(rest)->0))
    } else if !in_paragraph && html_start_7(rest) {
        Some(BlockStart::Html(7))
    } else if in_paragraph && setext_line(rest) is Some {
        Some(BlockStart::Setext(setext_line(rest)->0))
    } else {
        None
    }
}

/// What comes behind thematic breaks in that order.
pub open spec fn late_start(
    in_paragraph: bool,
    after_paragraph: bool,
    c: CursorView,
    line: Seq<u8>,
    maybe_lazy: bool,
    o: ComrakOptions,
) -> BlockStart {
    let rest = rest_of(c, line);
    if c.indent < CODE_INDENT {
        if o.extension.footnotes && footnote_start(rest) is Some {
            BlockStart::Footnote(
                footnote_start(rest)->0 as usize,
                footnote_label_end(rest) as usize,
            )
        } else if o.extension.description_lists && line[c.first_nonspace] == 58
            && after_paragraph {
            BlockStart::Details
        } else {
            match list_marker(line, c.first_nonspace, in_paragraph) {
                Some((n, nl)) => BlockStart::Item(n, nl),
                None => BlockStart::Other,
            }
        }
    } else if !maybe_lazy && !c.blank {
        BlockStart::Indented
    } else {
        BlockStart::Other
    }
}

/// Whether a thematic break is looked for: not in a line that may only go on with a paragraph,
/// and not where an earlier look has shown that there is none.
pub open spec fn looks_for_break(in_paragraph: bool, c: CursorView, all_matched: bool) -> bool {
    c.indent < CODE_INDENT && !(in_paragraph && !all_matched) && c.thematic_break_kill_pos
        <= c.first_nonspace
}

/// What starts at the byte looked up in a block that is a paragraph or not, and whose last
/// block is a paragraph or not; and the cursor with what was learnt of thematic breaks.
#[verifier::opaque]
pub open spec fn block_start(
    in_paragraph: bool,
    after_paragraph: bool,
    c: CursorView,
    line: Seq<u8>,
    all_matched: bool,
    maybe_lazy: bool,
    o: ComrakOptions,
) -> (BlockStart, CursorView) {
    let late = late_start(in_paragraph, after_paragraph, c, line, maybe_lazy, o);
    match early_start(in_paragraph, c, line) {
        Some(s) => (s, c),
        None => if looks_for_break(in_paragraph, c, all_matched) {
            let (k, found) = thematic_break(line, c.first_nonspace);
            if found {
                (BlockStart::Break, c)
            } else {
                (late, CursorView { thematic_break_kill_pos: k, ..c })
            }
        } else {
            (late, c)
        },
    }
}

/// Whether the last block in `i` is a paragraph.
pub open spec fn ends_with_paragraph(t: Nodes, i: int) -> bool {
    last_child(t, i) matches Some(x) && t[x].value is Paragraph
}

/// The bytes that a start takes lie in the line, and end where a character does.
pub open spec fn start_fits(s: BlockStart, c: CursorView, line: Seq<u8>) -> bool {
    let at = c.first_nonspace;
    match s {
        BlockStart::Quote | BlockStart::Details => at + 1 < line.len() && is_char_boundary(
            line,
            at + 1,
        ),
        BlockStart::Atx(n) => 1 <= n && at + n <= line.len() && at < run_end(line, at, only(35))
            <= at + 6 && run_end(line, at, only(35)) < line.len() && (at + n < line.len()
            ==> is_char_boundary(line, at + n)),
        BlockStart::Fence(n) => 1 <= n && at + n < line.len() && is_char_boundary(line, at + n),
        BlockStart::Html(k) => 1 <= k <= 7,
        BlockStart::Footnote(n, e) => {
            &&& 2 <= e <= n
            &&& at + n < line.len()
            &&& is_char_boundary(line, at + n)
            &&& valid_utf8(line.subrange(at + 2, at + e))
        },
        BlockStart::Item(n, _) => 1 <= n <= 10 && at + n < line.len() && is_char_boundary(
            line,
            at + n,
        ),
        BlockStart::Break => at + 4 <= line.len(),
        BlockStart::Indented => c.indent >= CODE_INDENT,
        _ => true,
    }
}

/// Hashes at the start of the rest of a line are hashes in the line.
proof fn lemma_run_in_rest(line: Seq<u8>, at: int, f: spec_fn(u8) -> bool)
    requires
        0 <= at <= line.len(),
    ensures
        run_end(line, at, f) == at + run_end(line.subrange(at, line.len() as int), 0, f),
{
    let rest = line.subrange(at, line.len() as int);
    let n = run_end(rest, 0, f);
    lemma_run_end(rest, 0, f);
    assert forall|k: int| at <= k < at + n implies f(#[trigger] line[k]) by {
        assert(rest[k - at] == line[k]);
    }
    if at + n < line.len() {
        assert(rest[n] == line[at + n]);
    }
    crate::ctype::lemma_run_end_is(line, at, at + n, f);
}

/// The start of a heading with hashes ends with an ASCII byte.
proof fn lemma_atx_end(s: Seq<u8>, n: int)
    requires
        atx_start(s) == Some(n),
    ensures
        1 <= n <= s.len(),
        s[n - 1] < 128,
{
    let h = run_end(s, 0, only(35));
    lemma_run_end(s, 0, only(35));
    lemma_run_end(s, h, blanks());
    if run_end(s, h, blanks()) > h {
        assert(blanks()(s[run_end(s, h, blanks()) - 1]));
    }
    assert(only(35)(s[h - 1]));
}

/// A footnote definition fits into its line.
proof fn lemma_footnote_fits(c: CursorView, line: Seq<u8>, n: int, e: int)
    requires
        text_line(line),
        0 <= c.first_nonspace < line.len(),
        footnote_start(rest_of(c, line)) == Some(n),
        e == footnote_label_end(rest_of(c, line)),
        3 <= e,
        e + 2 <= n <= rest_of(c, line).len(),
    ensures
        c.first_nonspace + n < line.len(),
        is_char_boundary(line, c.first_nonspace + n),
        valid_utf8(line.subrange(c.first_nonspace + 2, c.first_nonspace + e)),
{
    let at = c.first_nonspace;
    let rest = rest_of(c, line);
    lemma_run_end(rest, e + 2, blanks());
    if n == rest.len() {
        if n > e + 2 {
            assert(blanks()(rest[n - 1]));
        }
        assert(rest[n - 1] == line[line.len() - 1]);
    }
    if n > e + 2 {
        assert(blanks()(rest[n - 1]));
    }
    assert(rest[n - 1] == line[at + n - 1]);
    lemma_boundary_at_ascii(line, at + n - 1);
    assert(rest[1] == line[at + 1]);
    lemma_boundary_at_ascii(line, at + 1);
    assert(rest[e] == line[at + e]);
    lemma_boundary_at_ascii(line, at + e);
    lemma_valid_between(line, at + 2, at + e);
}

/// Where some of the starts can be.
pub proof fn lemma_block_start(
    in_paragraph: bool,
    after_paragraph: bool,
    c: CursorView,
    line: Seq<u8>,
    all_matched: bool,
    maybe_lazy: bool,
    o: ComrakOptions,
)
    ensures
        ({
            let (start, d) = block_start(
                in_paragraph,
                after_paragraph,
                c,
                line,
                all_matched,
                maybe_lazy,
                o,
            );
            &&& start is Details ==> {
                &&& c.indent < CODE_INDENT
                &&& line[c.first_nonspace] == 58
                &&& after_paragraph
            }
            &&& start is Setext ==> in_paragraph
            &&& start is Item ==> c.indent < CODE_INDENT
            &&& d == CursorView { thematic_break_kill_pos: d.thematic_break_kill_pos, ..c }
        }),
{
    reveal(block_start);
}

impl<'a, 'o> Parser<'a, 'o> {
    /// Finds what starts at the byte looked up.
    pub fn find_block_start(
        &mut self,
        container: usize,
        line: &[u8],
        all_matched: bool,
        maybe_lazy: bool,
    ) -> (r: BlockStart)
        requires
            is_tree(old(self)@.blocks.nodes),
            container < old(self)@.blocks.nodes.len(),
            text_line(line@),
            old(self)@.cursor.poised(line@),
        ensures
            ({
                let t = old(self)@.blocks.nodes;
                let (start, c) = block_start(
                    t[container as int].value is Paragraph,
                    ends_with_paragraph(t, container as int),
                    old(self)@.cursor,
                    line@,
                    all_matched,
                    maybe_lazy,
                    old(self)@.options,
                );
                &&& r == start
                &&& final(self)@ == (ParserView { cursor: c, ..old(self)@ })
            }),
            start_fits(r, final(self)@.cursor, line@),
            final(self)@.cursor.poised(line@),
    {
        let ghost t = self@.blocks.nodes;
        proof {
            reveal(block_start);
            lemma_poised(self@.cursor, line@);
            crate::blocks::lemma_last_child(t, container as int);
        }
        let in_paragraph: bool = matches!(self.tree.node(container).value, NodeValue::Paragraph);
        let at: usize = self.cursor.first_nonspace;
        let rest: &[u8] = slice_subrange(line, at, line.len());
        let indented: bool = self.cursor.indent >= CODE_INDENT;
        let mut matched: usize = 0;
        let mut kind: u8 = 0;
        let mut sc: SetextChar = SetextChar::Equals;
        if !indented {
            if line[at] == 62 {
                proof {
                    lemma_boundary_at_ascii(line@, at as int);
                }
                return BlockStart::Quote;
            }
            if unwrap_into(atx_heading_start(rest), &mut matched) {
                proof {
                    lemma_run_in_rest(line@, at as int, only(35));
                    lemma_atx_end(rest@, matched as int);
                    assert(rest@[matched - 1] == line@[at + matched - 1]);
                    lemma_boundary_at_ascii(line@, at + matched - 1);
                }
                return BlockStart::Atx(matched);
            }
            if unwrap_into(open_code_fence(rest), &mut matched) {
                proof {
                    lemma_run_end(rest@, 0, only(rest@[0]));
                    assert(only(rest@[0])(rest@[matched - 1]));
                    assert(rest@[matched - 1] == line@[at + matched - 1]);
                    lemma_boundary_at_ascii(line@, at + matched - 1);
                }
                return BlockStart::Fence(matched);
            }
            if unwrap_into(html_block_start(rest), &mut kind) {
                return BlockStart::Html(kind);
            }
            if !in_paragraph && unwrap_into(html_block_start_7(rest), &mut kind) {
                return BlockStart::Html(kind);
            }
            if in_paragraph && unwrap_into(setext_heading_line(rest), &mut sc) {
                return BlockStart::Setext(sc);
            }
            if !(in_paragraph && !all_matched) && self.cursor.thematic_break_kill_pos <= at
                && unwrap_into(self.cursor.scan_thematic_break(line), &mut matched) {
                return BlockStart::Break;
            }
            if self.options.extension.footnotes {
                match footnote_definition(rest) {
                    Some((n, e)) => {
                        proof {
                            lemma_footnote_fits(self@.cursor, line@, n as int, e as int);
                        }
                        return BlockStart::Footnote(n, e);
                    },
                    None => {},
                }
            }
            if self.options.extension.description_lists && line[at] == 58 {
                match self.tree.last_child(container) {
                    Some(x) => if matches!(self.tree.node(x).value, NodeValue::Paragraph) {
                        proof {
                            lemma_boundary_at_ascii(line@, at as int);
                        }
                        return BlockStart::Details;
                    },
                    None => {},
                }
            }
            let mut nl: NodeList = NodeList {
                list_type: crate::nodes::ListType::Bullet,
                marker_offset: 0,
                padding: 0,
                start: 0,
                delimiter: crate::nodes::ListDelimType::Period,
                bullet_char: 0,
                tight: false,
            };
            proof {
                lemma_marker_readable(line@, at as int, in_paragraph);
            }
            if unwrap_into_2(parse_list_marker(line, at, in_paragraph), &mut matched, &mut nl) {
                proof {
                    lemma_boundary_at_ascii(line@, at + matched);
                }
                return BlockStart::Item(matched, nl);
            }
            BlockStart::Other
        } else if !maybe_lazy && !self.cursor.blank {
            BlockStart::Indented
        } else {
            BlockStart::Other
        }
    }
}

} // verus!
