//! What the rows of a table are.

use crate::ctype::{lemma_run_end, lemma_run_end_is, run_end};
use crate::laws::texts::{law_trimmed, law_trimmed_alone};
use crate::laws::words::{all_white, white, BACKSLASH, BAR, COLON, LINE_FEED, RETURN};
use crate::nodes::TableAlignment;
use crate::strings::trimmed;
use crate::table::{
    alignment_of, bar_end, bars_unescaped, cell_end, cell_text, row_end, row_from, row_of,
    row_space, row_spaces, RowView,
};
use crate::table_blocks::padded;
use vstd::prelude::*;

verus! {

/// Whether a backslash stands right before a bar in `s`.
pub open spec fn escapes_a_bar(s: Seq<u8>) -> bool {
    exists|k: int| 0 <= k && k + 1 < s.len() && #[trigger] s[k] == BACKSLASH && s[k + 1] == BAR
}

/// Bytes in front change nothing behind them.
proof fn lemma_bars_behind(a: Seq<u8>, s: Seq<u8>, i: int)
    requires
        0 <= i <= s.len(),
    ensures
        bars_unescaped(a + s, a.len() + i) == bars_unescaped(s, i),
    decreases s.len() - i,
{
    if i < s.len() {
        assert((a + s)[a.len() + i] == s[i]);
        if i + 1 < s.len() {
            assert((a + s)[a.len() + i + 1] == s[i + 1]);
        }
        lemma_bars_behind(a, s, i + 1);
    }
}

/// Two texts are unescaped each on its own, unless a backslash and a bar meet between them.
proof fn lemma_bars_concat(a: Seq<u8>, b: Seq<u8>, i: int)
    requires
        0 <= i <= a.len(),
        a.len() > 0 && b.len() > 0 ==> !(a.last() == BACKSLASH && b[0] == BAR),
    ensures
        bars_unescaped(a + b, i) == bars_unescaped(a, i) + bars_unescaped(b, 0),
    decreases a.len() - i,
{
    if i < a.len() {
        let s = a + b;
        assert(s[i] == a[i]);
        if i + 1 < a.len() {
            assert(s[i + 1] == a[i + 1]);
        } else if b.len() > 0 {
            assert(s[i + 1] == b[0]);
        }
        lemma_bars_concat(a, b, i + 1);
        assert(seq![a[i]] + (bars_unescaped(a, i + 1) + bars_unescaped(b, 0)) =~= seq![a[i]]
            + bars_unescaped(a, i + 1) + bars_unescaped(b, 0));
    } else {
        lemma_bars_behind(a, b, 0);
        assert(bars_unescaped(a, i) + bars_unescaped(b, 0) =~= bars_unescaped(b, 0));
    }
}

/// Nothing is taken out where no backslash stands before a bar.
proof fn lemma_bars_kept(s: Seq<u8>, i: int)
    requires
        !escapes_a_bar(s),
        0 <= i <= s.len(),
    ensures
        bars_unescaped(s, i) == s.skip(i),
    decreases s.len() - i,
{
    if i < s.len() {
        lemma_bars_kept(s, i + 1);
        assert(!(s[i] == BACKSLASH && i + 1 < s.len() && s[i + 1] == BAR));
        assert(seq![s[i]] + s.skip(i + 1) =~= s.skip(i));
    } else {
        assert(bars_unescaped(s, i) =~= s.skip(i));
    }
}

/// Inside a cell just the backslashes that stand right before bars are taken out: a cell without
/// one stays as it is byte for byte, and of an escaped bar the bar is left, between what is left
/// of the text before it and behind it.
pub proof fn law_bars_unescaped(a: Seq<u8>, b: Seq<u8>)
    ensures
        !escapes_a_bar(a) ==> bars_unescaped(a, 0) == a,
        bars_unescaped(a + seq![BACKSLASH, BAR] + b, 0) == bars_unescaped(a, 0).push(BAR)
            + bars_unescaped(b, 0),
{
    if !escapes_a_bar(a) {
        lemma_bars_kept(a, 0);
        assert(a.skip(0) =~= a);
    }
    let m = seq![BACKSLASH, BAR];
    lemma_bars_concat(a, m + b, 0);
    lemma_bars_concat(m, b, 0);
    assert(a + m + b =~= a + (m + b));
    assert(bars_unescaped(m, 2) =~= seq![]);
    assert(bars_unescaped(m, 1) =~= seq![BAR]);
    assert(bars_unescaped(m, 0) =~= seq![BAR]);
    assert(bars_unescaped(a, 0) + (seq![BAR] + bars_unescaped(b, 0)) =~= bars_unescaped(a, 0).push(
        BAR,
    ) + bars_unescaped(b, 0));
}

/// The text of a cell in which no bar is escaped is the cell without white space around it, and
/// else byte for byte as it is.
pub proof fn law_cell_text(a: Seq<u8>, t: Seq<u8>, b: Seq<u8>)
    requires
        all_white(a),
        all_white(b),
        t.len() > 0 ==> !white(t[0]) && !white(t.last()),
        !escapes_a_bar(t),
    ensures
        cell_text(a + t + b) == t,
{
    let s = a + t + b;
    assert(!escapes_a_bar(s)) by {
        if escapes_a_bar(s) {
            let k = choose|k: int|
                0 <= k && k + 1 < s.len() && #[trigger] s[k] == BACKSLASH && s[k + 1] == BAR;
            if k < a.len() {
                assert(white(a[k]));
            } else if k >= a.len() + t.len() {
                assert(white(b[k - a.len() - t.len()]));
            } else if k + 1 < a.len() + t.len() {
                assert(t[k - a.len()] == BACKSLASH && t[k - a.len() + 1] == BAR);
            } else {
                assert(white(b[0]));
            }
        }
    }
    law_bars_unescaped(s, seq![]);
    law_trimmed_alone(a, t, b);
}

/// A cell goes up to the first bar that no backslash in it stands before, or to the line end.
pub proof fn law_cell_end(s: Seq<u8>, start: int, c: int)
    requires
        0 <= start <= c <= s.len(),
    ensures
        cell_end(s, start, start) == c <==> {
            &&& forall|k: int|
                start <= k < c ==> #[trigger] s[k] != LINE_FEED && s[k] != RETURN && (s[k] == BAR
                    ==> k > start && s[k - 1] == BACKSLASH)
            &&& c == s.len() || s[c] == LINE_FEED || s[c] == RETURN || (s[c] == BAR && !(c > start
                && s[c - 1] == BACKSLASH))
        },
{
    lemma_cell_end_is(s, start, start);
    let e = cell_end(s, start, start);
    if e < c && e < s.len() {
        assert(s[e] == s[e]);
    }
}

/// What stops a cell, and what does not.
proof fn lemma_cell_end_is(s: Seq<u8>, start: int, k: int)
    requires
        0 <= start <= k <= s.len(),
    ensures
        ({
            let e = cell_end(s, start, k);
            &&& k <= e <= s.len()
            &&& forall|j: int|
                k <= j < e ==> #[trigger] s[j] != LINE_FEED && s[j] != RETURN && (s[j] == BAR ==> j
                    > start && s[j - 1] == BACKSLASH)
            &&& e == s.len() || s[e] == LINE_FEED || s[e] == RETURN || (s[e] == BAR && !(e > start
                && s[e - 1] == BACKSLASH))
        }),
    decreases s.len() - k,
{
    if k < s.len() {
        lemma_cell_end_is(s, start, k + 1);
    }
}

/// Whether `c` can stand between two bars: it holds no line end, every bar in it is escaped, and
/// it does not end with a backslash.
pub open spec fn cell(c: Seq<u8>) -> bool {
    &&& forall|k: int|
        0 <= k < c.len() ==> #[trigger] c[k] != LINE_FEED && c[k] != RETURN && (c[k] == BAR
            ==> k > 0
            && c[k - 1] == BACKSLASH)
    &&& c.len() > 0 ==> c.last() != BACKSLASH
}

/// These cells with bars between them, and `end` behind the last one.
pub open spec fn barred(cells: Seq<Seq<u8>>, end: Seq<u8>) -> Seq<u8>
    decreases cells.len(),
{
    if cells.len() == 0 {
        end
    } else if cells.len() == 1 {
        cells[0] + end
    } else {
        cells[0].push(BAR) + barred(cells.skip(1), end)
    }
}

/// The end of a row that a bar closes or not.
pub open spec fn row_tail(closed: bool) -> Seq<u8> {
    if closed {
        seq![BAR, LINE_FEED]
    } else {
        seq![LINE_FEED]
    }
}

/// The start of a row that a bar opens or not.
pub open spec fn row_lead(open: bool) -> Seq<u8> {
    if open {
        seq![BAR]
    } else {
        seq![]
    }
}

/// The texts of cells.
pub open spec fn cell_texts(cells: Seq<Seq<u8>>) -> Seq<Seq<u8>> {
    Seq::new(cells.len(), |k: int| cell_text(cells[k]))
}

/// White space before a cell does not belong to its text.
proof fn lemma_cell_text_behind(w: Seq<u8>, c: Seq<u8>)
    requires
        all_white(w),
    ensures
        cell_text(w + c) == cell_text(c),
{
    assert(!escapes_a_bar(w)) by {
        if escapes_a_bar(w) {
            let k = choose|k: int|
                0 <= k && k + 1 < w.len() && #[trigger] w[k] == BACKSLASH && w[k + 1] == BAR;
            assert(white(w[k]));
        }
    }
    if w.len() > 0 {
        assert(white(w[w.len() - 1]));
    }
    lemma_bars_concat(w, c, 0);
    law_bars_unescaped(w, seq![]);
    let u = bars_unescaped(c, 0);
    let i = law_trimmed(u);
    let t = trimmed(u);
    let a = w + u.take(i);
    let b = u.skip(i + t.len());
    assert(a + t + b =~= w + u);
    assert forall|k: int| 0 <= k < a.len() implies white(#[trigger] a[k]) by {
        if k < w.len() {
            assert(white(w[k]));
        } else {
            assert(white(u.take(i)[k - w.len()]));
        }
    }
    law_trimmed_alone(a, t, b);
}

/// A cell before a bar is read, and the row goes on behind the bar.
proof fn lemma_row_bar(s: Seq<u8>, o: int, c: int, done: Seq<Seq<u8>>)
    requires
        0 <= o <= c < s.len(),
        cell_end(s, o, o) == c,
        s[c] == BAR,
    ensures
        row_from(s, o, done, 0) == row_from(
            s,
            run_end(s, c + 1, row_spaces()),
            done.push(cell_text(s.subrange(o, c))),
            0,
        ),
        c < run_end(s, c + 1, row_spaces()) <= s.len(),
{
    lemma_run_end(s, c + 1, row_spaces());
}

/// A cell before the line end is the last one of its row.
proof fn lemma_row_end(s: Seq<u8>, o: int, c: int, done: Seq<Seq<u8>>)
    requires
        0 <= o <= c,
        c + 1 == s.len(),
        cell_end(s, o, o) == c,
        s[c] == LINE_FEED,
        done.len() > 0 || o < c,
    ensures
        row_from(s, o, done, 0) == Some(
            RowView {
                paragraph_offset: 0,
                cells: if o < c {
                    done.push(cell_text(s.subrange(o, c)))
                } else {
                    done
                },
            },
        ),
{
    assert(run_end(s, c, row_spaces()) == c);
    assert(row_end(s, c) == s.len());
}

/// What stands in a row up to its first bar, and behind it.
pub proof fn lemma_barred(cells: Seq<Seq<u8>>, end: Seq<u8>)
    requires
        cells.len() > 0,
        end.len() > 0,
    ensures
        ({
            let s = barred(cells, end);
            let n = cells[0].len() as int;
            &&& s.len() > n
            &&& s.take(n) == cells[0]
            &&& cells.len() > 1 ==> s[n] == BAR && s.skip(n + 1) == barred(cells.skip(1), end)
            &&& cells.len() == 1 ==> s.skip(n) == end && s[n] == end[0]
        }),
{
    let s = barred(cells, end);
    let n = cells[0].len() as int;
    assert(s.take(n) =~= cells[0]);
    if cells.len() > 1 {
        assert(s.skip(n + 1) =~= barred(cells.skip(1), end));
    } else {
        assert(s.skip(n) =~= end);
    }
}

/// Where the cell ends that is read from `o` on, behind white space at `b`.
proof fn lemma_cell_between(s: Seq<u8>, b: int, o: int, first: Seq<u8>)
    requires
        cell(first),
        0 <= b <= o <= b + first.len(),
        b + first.len() < s.len(),
        s.subrange(b, b + first.len()) == first,
        s[b + first.len()] == BAR || s[b + first.len()] == LINE_FEED,
        forall|k: int| b <= k < o ==> row_space(#[trigger] s[k]),
    ensures
        cell_end(s, o, o) == b + first.len(),
        cell_text(s.subrange(o, b + first.len())) == cell_text(first),
{
    let c = b + first.len();
    let whole = s.subrange(b, c);
    assert forall|k: int| o <= k < c implies #[trigger] s[k] != LINE_FEED && s[k] != RETURN && (s[k]
        == BAR ==> k > o && s[k - 1] == BACKSLASH) by {
        assert(s[k] == whole[k - b]);
        if s[k] == BAR {
            assert(s[k - 1] == whole[k - b - 1]);
            if k == o {
                assert(row_space(s[k - 1]));
            }
        }
    }
    if c > o {
        assert(s[c - 1] == whole[c - 1 - b]);
    }
    law_cell_end(s, o, c);
    let w = s.subrange(b, o);
    assert(w + s.subrange(o, c) =~= first);
    assert forall|k: int| 0 <= k < w.len() implies white(#[trigger] w[k]) by {
        assert(row_space(s[b + k]));
    }
    lemma_cell_text_behind(w, s.subrange(o, c));
}

/// Cells between bars are read one after the other.
proof fn lemma_row_from(
    s: Seq<u8>,
    b: int,
    o: int,
    cells: Seq<Seq<u8>>,
    done: Seq<Seq<u8>>,
    closed: bool,
)
    requires
        cells.len() > 0,
        forall|k: int| 0 <= k < cells.len() ==> cell(#[trigger] cells[k]),
        0 <= b <= o <= b + cells[0].len(),
        b <= s.len(),
        s.skip(b) == barred(cells, row_tail(closed)),
        forall|k: int| b <= k < o ==> row_space(#[trigger] s[k]),
        closed || cells.last().len() > 0 && !row_space(cells.last()[0]),
    ensures
        row_from(s, o, done, 0) == Some(
            RowView { paragraph_offset: 0, cells: done + cell_texts(cells) },
        ),
    decreases cells.len(),
{
    let end = row_tail(closed);
    let first = cells[0];
    let rest = cells.skip(1);
    let n = first.len() as int;
    let c = b + n;
    let tail = s.skip(b);
    lemma_barred(cells, end);
    assert(s.subrange(b, c) =~= tail.take(n));
    assert(s[c] == tail[n]);
    lemma_cell_between(s, b, o, first);
    let more = done.push(cell_text(first));
    if cells.len() > 1 {
        lemma_row_bar(s, o, c, done);
        let p = run_end(s, c + 1, row_spaces());
        assert(s.skip(c + 1) =~= tail.skip(n + 1));
        let next = rest[0];
        lemma_barred(rest, end);
        let e = c + 1 + next.len();
        assert(s[e] == s.skip(c + 1)[next.len() as int]);
        lemma_run_end(s, c + 1, row_spaces());
        assert(p <= e) by {
            if p > e {
                assert(row_spaces()(s[e]));
            }
        }
        assert forall|k: int| c + 1 <= k < p implies row_space(#[trigger] s[k]) by {
            assert(row_spaces()(s[k]));
        }
        assert forall|k: int| 0 <= k < rest.len() implies cell(#[trigger] rest[k]) by {
            assert(rest[k] == cells[k + 1]);
        }
        assert(rest.last() == cells.last());
        lemma_row_from(s, c + 1, p, rest, more, closed);
        assert(more + cell_texts(rest) =~= done + cell_texts(cells));
    } else {
        assert(s.skip(c) =~= tail.skip(n));
        assert(s.len() == c + end.len());
        assert(more =~= done + cell_texts(cells));
        if closed {
            assert(s[c + 1] == s.skip(c)[1]);
            lemma_row_bar(s, o, c, done);
            assert(run_end(s, c + 1, row_spaces()) == c + 1);
            law_cell_end(s, c + 1, c + 1);
            lemma_row_end(s, c + 1, c + 1, more);
        } else {
            if o == c {
                assert(s.subrange(b, c)[0] == s[b]);
            }
            lemma_row_end(s, o, c, done);
        }
    }
}

/// A row is read as its cells: what stands between two bars that are not escaped, each as the
/// text of a cell, in their order. A bar before the first cell and one behind the last make no
/// difference, where the row does not start or end with white space.
pub proof fn law_row(cells: Seq<Seq<u8>>, open: bool, closed: bool)
    requires
        cells.len() > 0,
        forall|k: int| 0 <= k < cells.len() ==> cell(#[trigger] cells[k]),
        open || cells[0].len() > 0 && cells[0][0] != BAR,
        closed || cells.last().len() > 0 && !white(cells.last()[0]),
    ensures
        row_of(row_lead(open) + barred(cells, row_tail(closed))) == Some(
            RowView { paragraph_offset: 0, cells: cell_texts(cells) },
        ),
{
    let end = row_tail(closed);
    let lead = row_lead(open);
    let body = barred(cells, end);
    let s = lead + body;
    let b = lead.len() as int;
    assert(s.skip(b) =~= body);
    let first = cells[0];
    let n = first.len() as int;
    let e = b + n;
    lemma_barred(cells, end);
    assert(s[e] == body[n]);
    lemma_run_end(s, b, row_spaces());
    let o = if open {
        run_end(s, 1, row_spaces())
    } else {
        0
    };
    if !open {
        assert(s[0] == body.take(n)[0]);
    }
    assert(bar_end(s, 0) == o);
    assert(o <= e) by {
        if o > e {
            assert(row_spaces()(s[e]));
        }
    }
    assert forall|k: int| b <= k < o implies row_space(#[trigger] s[k]) by {
        assert(row_spaces()(s[k]));
    }
    lemma_row_from(s, b, o, cells, seq![], closed);
    assert(Seq::<Seq<u8>>::empty() + cell_texts(cells) =~= cell_texts(cells));
}

/// Bytes in front change nothing in what is read behind them.
proof fn lemma_shifted(a: Seq<u8>, b: Seq<u8>, i: int, f: spec_fn(u8) -> bool)
    requires
        0 <= i <= b.len(),
    ensures
        run_end(a + b, a.len() + i, f) == a.len() + run_end(b, i, f),
{
    lemma_run_end(b, i, f);
    let e = run_end(b, i, f);
    assert forall|k: int| a.len() + i <= k < a.len() + e implies f(#[trigger] (a + b)[k]) by {
        assert((a + b)[k] == b[k - a.len()]);
        assert(f(b[k - a.len()]));
    }
    if e < b.len() {
        assert((a + b)[a.len() + e] == b[e]);
    }
    lemma_run_end_is(a + b, a.len() + i, a.len() + e, f);
}

/// Nor in the end of a cell.
proof fn lemma_cell_shifted(a: Seq<u8>, b: Seq<u8>, start: int, k: int)
    requires
        0 <= start <= k <= b.len(),
    ensures
        cell_end(a + b, a.len() + start, a.len() + k) == a.len() + cell_end(b, start, k),
    decreases b.len() - k,
{
    if k < b.len() {
        assert((a + b)[a.len() + k] == b[k]);
        if k > start {
            assert((a + b)[a.len() + k - 1] == b[k - 1]);
        }
        lemma_cell_shifted(a, b, start, k + 1);
    }
}

/// Nor in what is read of bars and line ends.
proof fn lemma_ends_shifted(a: Seq<u8>, b: Seq<u8>, i: int)
    requires
        0 <= i <= b.len(),
    ensures
        bar_end(a + b, a.len() + i) == a.len() + bar_end(b, i),
        row_end(a + b, a.len() + i) == a.len() + row_end(b, i),
        i <= bar_end(b, i) <= b.len(),
        i <= row_end(b, i) <= b.len(),
{
    let s = a + b;
    let n = a.len() as int;
    assert(forall|k: int| 0 <= k < b.len() ==> s[n + k] == #[trigger] b[k]);
    if i < b.len() {
        lemma_shifted(a, b, i + 1, row_spaces());
        lemma_run_end(b, i + 1, row_spaces());
        assert(s[n + i] == b[i]);
    }
    lemma_shifted(a, b, i, row_spaces());
    lemma_run_end(b, i, row_spaces());
    let r = run_end(b, i, row_spaces());
    if r < b.len() {
        assert(s[n + r] == b[r]);
    }
    if r + 1 < b.len() {
        assert(s[n + r + 1] == b[r + 1]);
    }
}

/// What is read behind `a` as if `b` stood alone.
pub open spec fn behind(row: Option<RowView>, n: int) -> Option<RowView> {
    match row {
        Some(r) => Some(RowView { paragraph_offset: r.paragraph_offset + n, cells: r.cells }),
        None => None,
    }
}

/// Nor in a row.
proof fn lemma_row_shifted(a: Seq<u8>, b: Seq<u8>, o: int, cells: Seq<Seq<u8>>, para: int)
    requires
        0 <= o <= b.len(),
    ensures
        row_from(a + b, a.len() + o, cells, a.len() + para) == behind(
            row_from(b, o, cells, para),
            a.len() as int,
        ),
    decreases b.len() - o,
{
    let s = a + b;
    let n = a.len() as int;
    if o < b.len() {
        lemma_cell_end_is(b, o, o);
        lemma_cell_shifted(a, b, o, o);
        let c = cell_end(b, o, o);
        lemma_ends_shifted(a, b, c);
        let p = bar_end(b, c);
        assert(s.subrange(n + o, n + c) =~= b.subrange(o, c));
        let more = if p > o {
            cells.push(cell_text(b.subrange(o, c)))
        } else {
            cells
        };
        if p > c {
            lemma_row_shifted(a, b, p, more, para);
        } else {
            lemma_ends_shifted(a, b, p);
            let e = row_end(b, p);
            lemma_ends_shifted(a, b, e);
            if e > p && e != b.len() {
                lemma_row_shifted(a, b, bar_end(b, e), seq![], e);
            }
        }
    }
}

/// Of several lines the last one is the row. A line before it is no part of it, and what is read
/// is what would be read of the rest alone, further behind.
pub proof fn law_last_line_is_row(a: Seq<u8>, b: Seq<u8>)
    requires
        a.len() > 0,
        cell(a) && a[0] != BAR,
        b.len() > 0,
    ensures
        row_of(a.push(LINE_FEED) + b) == behind(row_of(b), a.len() as int + 1),
{
    let s = a.push(LINE_FEED) + b;
    let c = a.len() as int;
    assert(s[0] == a[0]);
    assert forall|k: int| 0 <= k < c implies #[trigger] s[k] != LINE_FEED && s[k] != RETURN && (s[k]
        == BAR ==> k > 0 && s[k - 1] == BACKSLASH) by {
        assert(s[k] == a[k]);
        if k > 0 {
            assert(s[k - 1] == a[k - 1]);
        }
    }
    assert(s[c] == LINE_FEED);
    law_cell_end(s, 0, c);
    assert(bar_end(s, c) == c);
    assert(run_end(s, c, row_spaces()) == c);
    assert(row_end(s, c) == c + 1);
    lemma_ends_shifted(a.push(LINE_FEED), b, 0);
    let o = bar_end(b, 0);
    lemma_row_shifted(a.push(LINE_FEED), b, o, seq![], 0);
}

/// A colon at either end of a cell of the delimiter row says to which side its column goes: with
/// one at both to the middle, and with none nowhere.
pub proof fn law_alignment(c: Seq<u8>)
    requires
        c.len() > 0,
    ensures
        alignment_of(c.insert(0, COLON).push(COLON)) == TableAlignment::Center,
        c[0] != COLON && c.last() != COLON ==> {
            &&& alignment_of(c) == TableAlignment::Unaligned
            &&& alignment_of(c.insert(0, COLON)) == TableAlignment::Left
            &&& alignment_of(c.push(COLON)) == TableAlignment::Right
        },
{
}

/// A row of the body has as many cells as the header: more are dropped, and where there are
/// fewer, empty ones are added.
pub proof fn law_padded(cells: Seq<Seq<u8>>, n: nat, k: int)
    requires
        0 <= k < n,
    ensures
        padded(cells, n).len() == n,
        k < cells.len() ==> padded(cells, n)[k] == cells[k],
        k >= cells.len() ==> padded(cells, n)[k].len() == 0,
{
}

} // verus!
