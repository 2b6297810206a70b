//! What headings, thematic breaks and fences are.

use crate::closing::finished_code;
use crate::ctype::{blanks, lemma_run_end, lemma_run_end_is, only, run_end};
use crate::cursor::{break_bytes, count_of, thematic_break};
use crate::laws::texts::law_rtrimmed;
use crate::laws::words::{
    all_white, blank, blanks_between, law_classes, line_end, white, BACKTICK, EQUALS, HASH, HYPHEN,
    LINE_FEED, RETURN, STAR, TILDE, UNDERSCORE,
};
use crate::nodes::{CodeBlockView, NodeHeading};
use crate::opening::{atx_heading, setext_level};
use crate::scanners::{atx_start, close_fence, info_bytes, open_fence, setext_line, SetextChar};
use crate::strings::{
    end_without, gaps, hashes, inner_bytes, lemma_end_without, rtrimmed, without_closing_hashes,
};
use vstd::prelude::*;
use vstd::utf8::decode_utf8;

verus! {

/// `n` times the byte `c`.
pub open spec fn repeated(c: u8, n: nat) -> Seq<u8> {
    Seq::new(n, |k: int| c)
}

/// A run of a byte ends where another one follows.
pub proof fn lemma_repeated(c: u8, n: nat, rest: Seq<u8>)
    requires
        rest.len() > 0 ==> rest[0] != c,
    ensures
        run_end(repeated(c, n) + rest, 0, only(c)) == n,
{
    let s = repeated(c, n) + rest;
    if rest.len() > 0 {
        assert(s[n as int] == rest[0]);
    }
    lemma_run_end_is(s, 0, n as int, only(c));
}

/// From one to six hashes, and a blank or a line end behind them, open a heading, whose level is
/// how many there are. With another byte behind them they do not, nor do seven.
pub proof fn law_hashes(line: Seq<u8>, at: int, n: nat, e: int)
    requires
        0 <= at,
        n >= 1,
        at + n <= e < line.len(),
        forall|k: int| at <= k < at + n ==> #[trigger] line[k] == HASH,
        line[at + n] != HASH,
        blanks_between(line, at + n, e),
        !blank(line[e]),
    ensures
        ({
            let rest = line.subrange(at, line.len() as int);
            &&& atx_start(rest) is Some <==> n <= 6 && (e > at + n || line_end(line[e]))
            &&& atx_start(rest) is Some ==> {
                &&& atx_heading(line, at) == NodeHeading { level: n as u8, setext: false }
                &&& e > at + n ==> atx_start(rest) == Some(e - at)
                &&& e == at + n ==> atx_start(rest) == Some(n as int + 1)
            }
        }),
{
    let rest = line.subrange(at, line.len() as int);
    let m = n as int;
    assert forall|k: int| 0 <= k < m implies only(HASH)(#[trigger] rest[k]) by {
        assert(rest[k] == line[at + k]);
    }
    assert(rest[m] == line[at + m]);
    assert(rest[e - at] == line[e]);
    lemma_run_end_is(rest, 0, m, only(HASH));
    lemma_run_end_is(line, at, at + m, only(HASH));
    law_classes(line[at + m]);
    law_classes(line[e]);
    assert forall|k: int| m <= k < e - at implies blanks()(#[trigger] rest[k]) by {
        assert(rest[k] == line[at + k]);
        law_classes(rest[k]);
    }
    lemma_run_end_is(rest, m, e - at, blanks());
}

/// Nothing but hashes opens such a heading.
pub proof fn law_no_other_hashes(s: Seq<u8>)
    ensures
        atx_start(s) is Some ==> s.len() > 1 && s[0] == HASH,
{
}

/// Hashes at the end of a heading that a blank stands before, and white space around them, are
/// taken off. Without a blank before them they stay.
pub proof fn law_closing_hashes(t: Seq<u8>, gap: Seq<u8>, n: nat, end: Seq<u8>)
    requires
        all_white(end),
        n >= 1,
        t.len() > 0 ==> !white(t.last()),
        all_white(gap),
    ensures
        gap.len() > 0 && blank(gap.last()) ==> without_closing_hashes(
            t + gap + repeated(HASH, n) + end,
        ) == t,
        gap.len() == 0 && t.len() > 0 && t.last() != HASH ==> without_closing_hashes(
            t + repeated(HASH, n) + end,
        ) == t + repeated(HASH, n),
        t.len() > 0 && t.last() != HASH ==> without_closing_hashes(t + end) == t,
{
    let r = repeated(HASH, n);
    let s = t + gap + r + end;
    let u = t + gap + r;
    lemma_rtrimmed_alone(u, end);
    assert(u.last() == HASH);
    law_classes(HASH);
    if gap.len() > 0 && blank(gap.last()) {
        law_classes(gap.last());
        lemma_hashes_end(t + gap, n);
        assert((t + gap).last() == gap.last());
        let cut = gap.drop_last();
        assert(u.subrange(0, u.len() - n - 1) =~= t + cut);
        assert forall|k: int| 0 <= k < cut.len() implies white(#[trigger] cut[k]) by {
            assert(white(gap[k]));
        }
        lemma_rtrimmed_alone(t, cut);
    }
    if gap.len() == 0 && t.len() > 0 && t.last() != HASH {
        assert(t + r + end =~= s);
        assert(t + r =~= u);
        assert(t + gap =~= t);
        lemma_hashes_end(t, n);
        law_classes(t.last());
    }
    if t.len() > 0 && t.last() != HASH {
        lemma_rtrimmed_alone(t, end);
        assert(end_without(t, t.len() as int, hashes()) == t.len());
    }
}

/// There is one way to trim at the end.
pub proof fn lemma_rtrimmed_alone(t: Seq<u8>, end: Seq<u8>)
    requires
        all_white(end),
        t.len() > 0 ==> !white(t.last()),
    ensures
        rtrimmed(t + end) == t,
{
    let s = t + end;
    law_rtrimmed(s);
    let r = rtrimmed(s);
    if r.len() > t.len() {
        assert(r.last() == s[r.len() - 1]);
        assert(white(end[r.len() - 1 - t.len()]));
    } else if r.len() < t.len() {
        assert(s.skip(r.len() as int)[t.len() - 1 - r.len()] == t.last());
    }
    assert(r =~= t);
}

/// Where hashes at the end start.
proof fn lemma_hashes_end(t: Seq<u8>, n: nat)
    requires
        t.len() > 0,
        t.last() != HASH,
    ensures
        end_without(t + repeated(HASH, n), t.len() as int + n, hashes()) == t.len(),
    decreases n,
{
    let s = t + repeated(HASH, n);
    lemma_end_without(s, t.len() as int + n, hashes());
    let e = end_without(s, t.len() as int + n, hashes());
    if e < t.len() {
        assert(hashes()(s[t.len() - 1]));
    }
    if e > t.len() {
        assert(s[e - 1] == HASH);
    }
}

/// Equals signs alone on a line, with blanks behind them, underline a heading of the first level,
/// and hyphens one of the second level. One is enough.
pub proof fn law_underline(c: u8, n: nat, e: int, s: Seq<u8>)
    requires
        n <= e < s.len(),
        forall|k: int| 0 <= k < n ==> #[trigger] s[k] == c,
        s[n as int] != c,
        blanks_between(s, n as int, e),
        !blank(s[e]),
    ensures
        n >= 1 && c == EQUALS && line_end(s[e]) ==> setext_line(s) == Some(SetextChar::Equals),
        n >= 1 && c == HYPHEN && line_end(s[e]) ==> setext_line(s) == Some(SetextChar::Hyphen),
        n >= 1 && !line_end(s[e]) ==> setext_line(s) is None,
        n >= 1 && c != EQUALS && c != HYPHEN ==> setext_line(s) is None,
        setext_level(SetextChar::Equals) == 1,
        setext_level(SetextChar::Hyphen) == 2,
{
    assert forall|k: int| 0 <= k < n implies only(c)(#[trigger] s[k]) by {}
    lemma_run_end_is(s, 0, n as int, only(c));
    law_classes(s[e]);
    assert forall|k: int| n <= k < e implies blanks()(#[trigger] s[k]) by {
        law_classes(s[k]);
    }
    lemma_run_end_is(s, n as int, e, blanks());
    if n >= 1 {
        assert(s[0] == c);
        if c != EQUALS {
            assert(run_end(s, 0, only(EQUALS)) == 0);
        }
        if c != HYPHEN {
            assert(run_end(s, 0, only(HYPHEN)) == 0);
        }
    }
}

/// How many of a range are `c`.
pub open spec fn tally(s: Seq<u8>, c: u8, i: int, j: int) -> int
    decreases j - i,
{
    if i >= j {
        0
    } else if s[i] == c {
        1 + tally(s, c, i + 1, j)
    } else {
        tally(s, c, i + 1, j)
    }
}

/// Counting from either side gives the same.
proof fn lemma_tally(s: Seq<u8>, c: u8, i: int, j: int)
    requires
        i <= j,
    ensures
        tally(s, c, i, j) == count_of(s, c, i, j),
    decreases j - i,
{
    if i < j {
        lemma_tally(s, c, i + 1, j);
        lemma_count_first(s, c, i, j);
    }
}

/// What the first byte adds to a count.
proof fn lemma_count_first(s: Seq<u8>, c: u8, i: int, j: int)
    requires
        i < j,
    ensures
        count_of(s, c, i, j) == count_of(s, c, i + 1, j) + (if s[i] == c {
            1int
        } else {
            0
        }),
    decreases j - i,
{
    if i + 1 < j {
        lemma_count_first(s, c, i, j - 1);
    } else {
        assert(count_of(s, c, i, i) == 0);
        assert(count_of(s, c, i + 1, j) == 0);
    }
}

/// Three or more stars, hyphens or underscores of one kind, with blanks between them or not, make
/// a thematic break where nothing else is on the line. `e` is the first byte that is neither that
/// kind nor a blank.
pub proof fn law_thematic_break(line: Seq<u8>, i: int, e: int)
    requires
        0 <= i < e < line.len(),
        forall|k: int| i <= k < e ==> #[trigger] line[k] == line[i] || blank(line[k]),
        line[e] != line[i] && !blank(line[e]),
    ensures
        thematic_break(line, i).1 <==> {
            &&& line[i] == STAR || line[i] == HYPHEN || line[i] == UNDERSCORE
            &&& line_end(line[e])
            &&& tally(line, line[i], i, e) >= 3
        },
{
    let c = line[i];
    let f = break_bytes(c);
    law_classes(line[e]);
    if c == STAR || c == HYPHEN || c == UNDERSCORE {
        assert forall|k: int| i <= k < e implies f(#[trigger] line[k]) by {
            law_classes(line[k]);
        }
        lemma_run_end_is(line, i, e, f);
        lemma_tally(line, c, i, e);
    }
}

/// Three or more backticks or tildes open a code block. What follows on the line is its info
/// string, in which no NUL and, behind backticks, no backtick may be.
pub proof fn law_open_fence(c: u8, n: nat, info: Seq<u8>, end: u8, rest: Seq<u8>)
    requires
        n >= 1,
        forall|k: int| 0 <= k < info.len() ==> !line_end(#[trigger] info[k]),
        line_end(end),
        info.len() > 0 ==> info[0] != c,
    ensures
        open_fence(repeated(c, n) + info + seq![end] + rest) == if n >= 3 && (c == TILDE && (
        forall|k: int| 0 <= k < info.len() ==> #[trigger] info[k] != 0) || c == BACKTICK && (
        forall|k: int| 0 <= k < info.len() ==> #[trigger] info[k] != 0 && info[k] != BACKTICK)) {
            Some(n as int)
        } else {
            None
        },
{
    let s = repeated(c, n) + info + seq![end] + rest;
    let tail = info + seq![end] + rest;
    assert(s =~= repeated(c, n) + tail);
    assert(s[0] == c);
    if c == TILDE || c == BACKTICK {
        assert(tail[0] != c);
        lemma_repeated(c, n, tail);
        let m = n as int;
        let e = m + info.len();
        let f = info_bytes(c);
        lemma_run_end(s, m, f);
        let r = run_end(s, m, f);
        assert(s[e] == end);
        law_classes(end);
        assert(r <= e) by {
            if r > e {
                assert(f(s[e]));
            }
        }
        assert(forall|k: int| 0 <= k < info.len() ==> info[k] == s[m + k]);
        if r < e {
            law_classes(s[r]);
            assert(!f(s[r]));
            assert(!line_end(info[r - m]));
        } else {
            assert forall|k: int| 0 <= k < info.len() implies #[trigger] info[k] != 0
                && (c == BACKTICK
                ==> info[k] != BACKTICK) by {
                assert(f(s[m + k]));
            }
        }
    }
}

/// Three or more backticks or tildes with nothing but blanks behind them may close a code block.
pub proof fn law_close_fence(c: u8, n: nat, e: int, s: Seq<u8>)
    requires
        1 <= n <= e < s.len(),
        forall|k: int| 0 <= k < n ==> #[trigger] s[k] == c,
        s[n as int] != c,
        blanks_between(s, n as int, e),
        !blank(s[e]),
    ensures
        close_fence(s) == if n >= 3 && (c == BACKTICK || c == TILDE) && line_end(s[e]) {
            Some(n as int)
        } else {
            None
        },
{
    assert forall|k: int| 0 <= k < n implies only(c)(#[trigger] s[k]) by {}
    lemma_run_end_is(s, 0, n as int, only(c));
    law_classes(s[e]);
    assert forall|k: int| n <= k < e implies blanks()(#[trigger] s[k]) by {
        law_classes(s[k]);
    }
    lemma_run_end_is(s, n as int, e, blanks());
    assert(s[0] == c);
}

/// A fenced code block holds the lines behind that of its fence just as they are. Its info string
/// is what follows the fence, or the default one where nothing does.
pub proof fn law_fenced_code(
    b: CodeBlockView,
    info: Seq<u8>,
    end: Seq<u8>,
    lines: Seq<u8>,
    default_info: Option<Seq<char>>,
)
    requires
        b.fenced,
        forall|k: int| 0 <= k < info.len() ==> !line_end(#[trigger] info[k]),
        end == seq![LINE_FEED] || end == seq![RETURN, LINE_FEED]
            || end == seq![RETURN] && lines.len() > 0
            && lines[0] != LINE_FEED,
    ensures
        ({
            let r = finished_code(b, info + end + lines, default_info);
            let read = crate::closing::info_bytes(info);
            &&& r.literal == decode_utf8(lines)
            &&& read.len() > 0 ==> r.info == decode_utf8(read)
            &&& read.len() == 0 && default_info is Some ==> r.info == default_info->0
            &&& read.len() == 0 && default_info is None ==> r.info.len() == 0
        }),
{
    let s = info + end + lines;
    let n = info.len() as int;
    assert forall|k: int| 0 <= k < n implies inner_bytes()(#[trigger] s[k]) by {
        assert(s[k] == info[k]);
        law_classes(s[k]);
    }
    assert(s[n] == end[0]);
    law_classes(end[0]);
    lemma_run_end_is(s, 0, n, inner_bytes());
    if end.len() > 1 {
        assert(s[n + 1] == end[1]);
    } else if lines.len() > 0 {
        assert(s[n + 1] == lines[0]);
    }
    assert(s.subrange(0, n) =~= info);
    assert(s.subrange(n + end.len(), s.len() as int) =~= lines);
}

/// Blank lines at the end of an indented code block are no part of it; those inside it are, and so
/// are the blanks `w` at the end of its last line that is not blank.
pub proof fn law_indented_code(
    b: CodeBlockView,
    text: Seq<u8>,
    w: Seq<u8>,
    gap: Seq<u8>,
    default_info: Option<Seq<char>>,
)
    requires
        !b.fenced,
        text.len() > 0,
        !blank(text.last()) && !line_end(text.last()),
        forall|k: int| 0 <= k < w.len() ==> blank(#[trigger] w[k]),
        forall|k: int| 0 <= k < gap.len() ==> blank(#[trigger] gap[k]) || line_end(gap[k]),
        gap.len() > 0 && line_end(gap[0]),
    ensures
        finished_code(b, text + w + gap, default_info).literal == decode_utf8(
            (text + w).push(LINE_FEED),
        ),
{
    let s = text + w + gap;
    let n = text.len() as int;
    let h = n + w.len();
    lemma_end_without(s, s.len() as int, gaps());
    let m = end_without(s, s.len() as int, gaps());
    law_classes(text.last());
    law_classes(gap[0]);
    assert(s[n - 1] == text.last());
    if m < n {
        assert(gaps()(s[n - 1]));
    }
    if m > n {
        if m <= h {
            assert(s[m - 1] == w[m - 1 - n]);
        } else {
            assert(s[m - 1] == gap[m - 1 - h]);
        }
        law_classes(s[m - 1]);
        assert(!gaps()(s[m - 1]));
    }
    assert(s[h] == gap[0]);
    assert forall|k: int| n - 1 <= k < h implies inner_bytes()(#[trigger] s[k]) by {
        if k >= n {
            assert(s[k] == w[k - n]);
        }
        law_classes(s[k]);
    }
    lemma_run_end_is(s, n - 1, h, inner_bytes());
    assert(s.subrange(0, h) =~= text + w);
}

} // verus!
