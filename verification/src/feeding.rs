//! Reading text, in as many pieces as it comes in.

use crate::blocks::{at_rest, lemma_child_added, lemma_close, lemma_spine_frame};
use crate::closing::{fence_read, sound};
use crate::front::split_off_front_matter;
use crate::lines::{
    all_plain, between_lines, bytes_fed, cut, fed, lemma_cut_plain, lemma_lines_processed_push,
    lemma_replacement, lemma_segment, line_fits, lines_processed, plain_byte, replacement,
    skip_plain, text_start, with_front_matter,
};
use crate::nodes::{NodeValue, Value};
use crate::parser::{Parser, ParserView};
use crate::text::{lemma_valid_ascii, lemma_valid_concat, push_bytes};
use vstd::prelude::*;
use vstd::slice::slice_subrange;
use vstd::utf8::{encode_utf8, encode_utf8_decode_utf8, encode_utf8_valid_utf8, valid_utf8};

verus! {

/// Whether text of `n` bytes can be read behind `buf`, as far as counting goes.
pub open spec fn text_fits(p: ParserView, buf: Seq<u8>, n: int) -> bool {
    &&& line_fits(buf.len() + 3 * n)
    &&& p.line_number + n + 1 <= usize::MAX
}

/// Reading one more line.
proof fn lemma_cut_line(s: Seq<u8>, e: int, line: Seq<u8>, done: Seq<Seq<u8>>)
    requires
        0 <= e < s.len(),
        s[e] == 10 || s[e] == 13,
    ensures
        ({
            let n = if s[e] == 13 && e + 1 < s.len() && s[e + 1] == 10 {
                e + 2
            } else {
                e + 1
            };
            &&& done + cut(s, e, line).0 == done.push(line) + cut(s, n, seq![]).0
            &&& cut(s, e, line).1 == cut(s, n, seq![]).1
        }),
{
    let n = if s[e] == 13 && e + 1 < s.len() && s[e + 1] == 10 {
        e + 2
    } else {
        e + 1
    };
    let (lines, rest) = cut(s, n, seq![]);
    assert(done + (seq![line] + lines) =~= done.push(line) + lines);
}

impl<'a, 'o> Parser<'a, 'o> {
    /// Reads the bytes `s`, and leaves in `linebuf` what belongs to a line that has not ended.
    #[verifier::rlimit(60)]
    fn feed_bytes(&mut self, linebuf: &mut Vec<u8>, s: &[u8], eof: bool)
        requires
            at_rest(old(self)@.blocks.nodes, old(self)@.current),
            valid_utf8(s@),
            valid_utf8(old(linebuf)@),
            all_plain(old(linebuf)@),
            text_fits(old(self)@, old(linebuf)@, s@.len() as int),
        ensures
            (final(self)@, final(linebuf)@) == bytes_fed(old(self)@, old(linebuf)@, s@, eof),
            at_rest(final(self)@.blocks.nodes, final(self)@.current),
            valid_utf8(final(linebuf)@),
            all_plain(final(linebuf)@),
            final(linebuf)@.len() <= old(linebuf)@.len() + 3 * s@.len(),
            final(self)@.line_number <= old(self)@.line_number + s@.len(),
            final(self)@.total_size == 0 ==> old(self)@.total_size == 0 && final(self)@.current
                == old(self)@.current,
    {
        let n: usize = s.len();
        let ghost buf0 = linebuf@;
        let ghost after_cr = self.last_buffer_ended_with_cr;
        if n > usize::MAX - self.total_size {
            self.total_size = usize::MAX;
        } else {
            self.total_size += n;
        }
        let mut i: usize = 0;
        if self.last_buffer_ended_with_cr && n > 0 && s[0] == 10 {
            i += 1;
        }
        self.last_buffer_ended_with_cr = false;
        let start: usize = i;
        let ghost p1 = self@;
        let ghost mut done: Seq<Seq<u8>> = seq![];
        let mut e: usize = skip_plain(s, i);
        proof {
            assert(done + cut(s@, start as int, buf0).0 =~= cut(s@, start as int, buf0).0);
        }
        while e < n
            invariant
                n == s@.len(),
                valid_utf8(s@),
                start <= i <= e <= n,
                start <= 1,
                start == text_start(s@, after_cr),
                forall|k: int| i <= k < e ==> plain_byte(#[trigger] s@[k]),
                e < n ==> !plain_byte(s@[e as int]),
                i > 0 ==> !plain_byte(s@[i - 1]),
                text_fits(p1, buf0, n as int),
                at_rest(self@.blocks.nodes, self@.current),
                valid_utf8(linebuf@),
                all_plain(linebuf@),
                linebuf@.len() <= buf0.len() + 3 * i,
                self@ == lines_processed(p1, done),
                self@.line_number == p1.line_number + done.len(),
                self@.total_size == p1.total_size,
                done.len() <= i,
                cut(s@, start as int, buf0).0 == done + cut(s@, i as int, linebuf@).0,
                cut(s@, start as int, buf0).1 == cut(s@, i as int, linebuf@).1,
            decreases n - i,
        {
            proof {
                lemma_segment(s@, i as int, e as int);
                lemma_valid_concat(linebuf@, s@.subrange(i as int, e as int));
                lemma_cut_plain(s@, i as int, e as int, linebuf@);
            }
            push_bytes(linebuf, slice_subrange(s, i, e));
            if s[e] == 0 {
                let mark: &str = "\u{fffd}";
                proof {
                    lemma_replacement();
                    lemma_valid_concat(linebuf@, replacement());
                }
                push_bytes(linebuf, mark.as_bytes());
                i = e + 1;
            } else {
                let ghost line = linebuf@;
                self.process_buffer(linebuf);
                proof {
                    lemma_lines_processed_push(p1, done, line);
                    lemma_cut_line(s@, e as int, line, done);
                    done = done.push(line);
                    lemma_valid_ascii(Seq::<u8>::empty());
                }
                i = e + 1;
                if s[e] == 13 && i < n && s[i] == 10 {
                    i += 1;
                }
            }
            e = skip_plain(s, i);
        }
        if i < n {
            proof {
                lemma_segment(s@, i as int, e as int);
                lemma_valid_concat(linebuf@, s@.subrange(i as int, e as int));
                lemma_cut_plain(s@, i as int, e as int, linebuf@);
                assert(done + Seq::<Seq<u8>>::empty() =~= done);
            }
            push_bytes(linebuf, slice_subrange(s, i, e));
            if eof {
                let ghost line = linebuf@;
                self.process_buffer(linebuf);
                proof {
                    lemma_lines_processed_push(p1, done, line);
                    lemma_valid_ascii(Seq::<u8>::empty());
                }
            }
        } else {
            proof {
                assert(done + Seq::<Seq<u8>>::empty() =~= done);
            }
        }
        self.last_buffer_ended_with_cr = start < n && s[n - 1] == 13;
    }

    /// Puts front matter into the document.
    #[verifier::rlimit(60)]
    fn add_front_matter(&mut self, front: String)
        requires
            at_rest(old(self)@.blocks.nodes, 0),
        ensures
            final(self)@ == with_front_matter(old(self)@, front@),
            at_rest(final(self)@.blocks.nodes, 0),
    {
        let ghost p = self@;
        proof {
            lemma_child_added(
                p.blocks,
                0,
                Value::FrontMatter(front@),
                p.line_number,
                p.info(),
                Set::empty(),
            );
        }
        let node: usize = self.add_child(0, NodeValue::FrontMatter(front));
        let ghost q = self@;
        proof {
            let u = q.blocks.nodes;
            assert(sound(u[node as int]));
            assert(fence_read(u[node as int]));
            lemma_close(q.blocks, node as int, q.info());
            lemma_spine_frame(
                u,
                crate::blocks::close(q.blocks, node as int, q.info()).nodes,
                0,
                Set::empty(),
            );
        }
        self.finalize(node);
    }

    /// Reads the text `s`, and leaves in `linebuf` what belongs to a line that has not ended.
    #[verifier::rlimit(60)]
    pub fn feed(&mut self, linebuf: &mut Vec<u8>, s: &str, eof: bool)
        requires
            between_lines(old(self)@),
            valid_utf8(old(linebuf)@),
            all_plain(old(linebuf)@),
            text_fits(old(self)@, old(linebuf)@, encode_utf8(s@).len() as int),
        ensures
            (final(self)@, final(linebuf)@) == fed(
                old(self)@,
                old(linebuf)@,
                encode_utf8(s@),
                eof,
            ),
            between_lines(final(self)@),
            valid_utf8(final(linebuf)@),
            all_plain(final(linebuf)@),
            final(linebuf)@.len() <= old(linebuf)@.len() + 3 * encode_utf8(s@).len(),
            final(self)@.line_number <= old(self)@.line_number + encode_utf8(s@).len(),
    {
        proof {
            encode_utf8_valid_utf8(s@);
        }
        if self.total_size == 0 {
            match &self.options.extension.front_matter_delimiter {
                Some(delimiter) => {
                    match split_off_front_matter(s, delimiter.as_str()) {
                        Some((front, rest)) => {
                            proof {
                                encode_utf8_decode_utf8(front@);
                                encode_utf8_valid_utf8(rest@);
                            }
                            self.add_front_matter(front.to_owned());
                            self.feed_bytes(linebuf, rest.as_bytes(), eof);
                            return;
                        },
                        None => {},
                    }
                },
                None => {},
            }
        }
        self.feed_bytes(linebuf, s.as_bytes(), eof);
    }
}

} // verus!
