//! What makes a table of a paragraph.

use crate::ctype::{lemma_run_end, lemma_run_end_is, only, run_end};
use crate::laws::tables::{
    barred, cell, cell_texts, law_cell_text, law_row, lemma_barred, row_lead, row_tail,
};
use crate::laws::words::{white, BAR, COLON, HYPHEN, LINE_FEED, RETURN};
use crate::nodes::TableAlignment;
use crate::table::{
    alignment_of, body_step, delimiter_row, header_step, marker_end, markers_from, row_end, row_of,
    row_space, row_spaces, RowView, TableStepView,
};
use vstd::prelude::*;

verus! {

/// `n` hyphens.
pub open spec fn hyphens(n: nat) -> Seq<u8> {
    Seq::new(n, |k: int| HYPHEN)
}

/// Hyphens with a colon before them or not, and one behind them or not.
pub open spec fn rule(left: bool, n: nat, right: bool) -> Seq<u8> {
    let r = hyphens(n);
    let l = if left {
        seq![COLON] + r
    } else {
        r
    };
    if right {
        l.push(COLON)
    } else {
        l
    }
}

/// These rules, one for each column.
pub open spec fn rules(columns: Seq<(bool, nat, bool)>) -> Seq<Seq<u8>> {
    Seq::new(columns.len(), |k: int| rule(columns[k].0, columns[k].1, columns[k].2))
}

/// The alignment of a column with a colon on the left or not, and one on the right or not.
pub open spec fn side(left: bool, right: bool) -> TableAlignment {
    match (left, right) {
        (true, true) => TableAlignment::Center,
        (true, false) => TableAlignment::Left,
        (false, true) => TableAlignment::Right,
        (false, false) => TableAlignment::Unaligned,
    }
}

/// The marker of a column is one or more hyphens, with a colon on either side or not, and white
/// space around them.
pub proof fn law_marker(s: Seq<u8>, i: int, a: int, b: int, c: int, d: int, e: int)
    requires
        0 <= i <= a <= b < c <= d <= e <= s.len(),
        forall|k: int| i <= k < a ==> row_space(#[trigger] s[k]),
        b == a || (b == a + 1 && s[a] == COLON),
        forall|k: int| b <= k < c ==> #[trigger] s[k] == HYPHEN,
        c < s.len() ==> s[c] != HYPHEN,
        d == c || (d == c + 1 && s[c] == COLON),
        d == c && c < s.len() ==> s[c] != COLON,
        forall|k: int| d <= k < e ==> row_space(#[trigger] s[k]),
        e < s.len() ==> !row_space(s[e]),
    ensures
        marker_end(s, i) == Some(e),
{
    assert(s[b] == HYPHEN);
    lemma_run_end_is(s, i, a, row_spaces());
    lemma_run_end_is(s, b, c, only(HYPHEN));
    lemma_run_end_is(s, d, e, row_spaces());
}

/// Where a rule stands, a marker is read.
proof fn lemma_rule_read(s: Seq<u8>, i: int, left: bool, n: nat, right: bool)
    requires
        0 <= i,
        n >= 1,
        i + rule(left, n, right).len() < s.len(),
        s.subrange(i, i + rule(left, n, right).len()) == rule(left, n, right),
        s[i + rule(left, n, right).len()] == BAR || s[i + rule(left, n, right).len()] == LINE_FEED,
    ensures
        marker_end(s, i) == Some(i + rule(left, n, right).len()),
{
    let r = rule(left, n, right);
    let e = i + r.len();
    let t = s.subrange(i, e);
    let b = if left {
        i + 1
    } else {
        i
    };
    let c = b + n;
    assert forall|k: int| b <= k < c implies #[trigger] s[k] == HYPHEN by {
        assert(s[k] == t[k - i]);
    }
    if left {
        assert(s[i] == t[0]);
    }
    if right {
        assert(s[c] == t[c - i]);
    }
    law_marker(s, i, i, b, c, e, e);
}

/// Rules between bars are read one after the other.
proof fn lemma_rules_read(s: Seq<u8>, i: int, columns: Seq<(bool, nat, bool)>, closed: bool)
    requires
        columns.len() > 0,
        forall|k: int| 0 <= k < columns.len() ==> (#[trigger] columns[k]).1 >= 1,
        0 <= i <= s.len(),
        s.skip(i) == barred(rules(columns), row_tail(closed)),
    ensures
        markers_from(s, i),
        marker_end(s, i) is Some,
    decreases columns.len(),
{
    let all = rules(columns);
    let end = row_tail(closed);
    let (left, n, right) = columns[0];
    let r = rule(left, n, right);
    let e = i + r.len();
    assert(all[0] == r);
    lemma_barred(all, end);
    let tail = s.skip(i);
    assert(s.subrange(i, e) =~= tail.take(r.len() as int));
    assert(s[e] == tail[r.len() as int]);
    lemma_rule_read(s, i, left, n, right);
    if columns.len() > 1 {
        let more = columns.skip(1);
        assert(all.skip(1) =~= rules(more));
        assert(s.skip(e + 1) =~= tail.skip(r.len() as int + 1));
        assert forall|k: int| 0 <= k < more.len() implies (#[trigger] more[k]).1 >= 1 by {
            assert(more[k] == columns[k + 1]);
        }
        lemma_rules_read(s, e + 1, more, closed);
    } else {
        assert(s.skip(e) =~= tail.skip(r.len() as int));
        assert(s.len() == e + end.len());
        if closed {
            assert(s[e + 1] == s.skip(e)[1]);
            assert(run_end(s, e + 1, row_spaces()) == e + 1);
            assert(run_end(s, e + 1, only(HYPHEN)) == e + 1);
            assert(marker_end(s, e + 1) is None);
            assert(row_end(s, e + 1) == e + 2);
        } else {
            assert(run_end(s, e, row_spaces()) == e);
            assert(row_end(s, e) == e + 1);
        }
    }
}

/// A rule is a cell, and its text is the rule.
proof fn lemma_rule_cell(left: bool, n: nat, right: bool)
    requires
        n >= 1,
    ensures
        cell(rule(left, n, right)),
        rule(left, n, right).len() > 0,
        !white(rule(left, n, right)[0]),
        rule(left, n, right)[0] != BAR,
        crate::table::cell_text(rule(left, n, right)) == rule(left, n, right),
        alignment_of(rule(left, n, right)) == side(left, right),
{
    let r = rule(left, n, right);
    let none: Seq<u8> = seq![];
    assert(none + r + none =~= r);
    law_cell_text(none, r, none);
}

/// A line of rules between bars, one for each column, makes a table of a paragraph whose last line
/// is a row of as many cells: that row is the header, and each column is aligned by the colons of
/// its rule. Of another number of cells no table is made, nor where it was tried before.
pub proof fn law_table_header(
    content: Seq<u8>,
    columns: Seq<(bool, nat, bool)>,
    open: bool,
    closed: bool,
    visited: bool,
)
    requires
        columns.len() > 0,
        forall|k: int| 0 <= k < columns.len() ==> (#[trigger] columns[k]).1 >= 1,
    ensures
        ({
            let line = row_lead(open) + barred(rules(columns), row_tail(closed));
            let step = header_step(content, visited, line);
            let alignments = Seq::new(
                columns.len(),
                |k: int| side(columns[k].0, columns[k].2),
            );
            &&& visited ==> step == TableStepView::Keep { visited: false }
            &&& match row_of(content) {
                Some(row) => if !visited && row.cells.len() == columns.len() {
                    step == TableStepView::Header { row, alignments }
                } else {
                    step == TableStepView::Keep { visited: !visited }
                },
                None => step == TableStepView::Keep { visited: !visited },
            }
        }),
{
    let all = rules(columns);
    let lead = row_lead(open);
    let body = barred(all, row_tail(closed));
    let line = lead + body;
    assert(line.skip(lead.len() as int) =~= body);
    assert forall|k: int| 0 <= k < columns.len() implies cell(#[trigger] all[k])
        && all[k].len() > 0 && !white(all[k][0]) && all[k][0] != BAR && crate::table::cell_text(
        all[k],
    ) == all[k] && alignment_of(all[k]) == side(columns[k].0, columns[k].2) by {
        lemma_rule_cell(columns[k].0, columns[k].1, columns[k].2);
    }
    lemma_barred(all, row_tail(closed));
    if !open {
        assert(line[0] == body.take(all[0].len() as int)[0]);
    }
    lemma_rules_read(line, lead.len() as int, columns, closed);
    assert(delimiter_row(line));
    law_row(all, open, closed);
    assert(cell_texts(all) =~= all);
    let marks = RowView { paragraph_offset: 0, cells: all };
    assert(row_of(line) == Some(marks));
    assert(Seq::new(marks.cells.len(), |k: int| alignment_of(marks.cells[k])) =~= Seq::new(
        columns.len(),
        |k: int| side(columns[k].0, columns[k].2),
    ));
}

/// Whether the first line of `s` holds nothing but bars, colons, hyphens and white space, and a
/// hyphen among them.
pub open spec fn ruled(s: Seq<u8>, i: int) -> bool {
    exists|e: int|
        {
            &&& i < e < s.len()
            &&& #[trigger] s[e] == LINE_FEED
            &&& exists|k: int| i <= k < e && #[trigger] s[k] == HYPHEN
            &&& forall|k: int|
                i <= k < e ==> row_space(#[trigger] s[k]) || s[k] == BAR || s[k] == COLON || s[k]
                    == HYPHEN || s[k] == RETURN
        }
}

/// What is read up to the end of a marker.
proof fn lemma_marker_bytes(s: Seq<u8>, i: int)
    requires
        0 <= i <= s.len(),
    ensures
        marker_end(s, i) matches Some(e) ==> {
            &&& i < e <= s.len()
            &&& exists|k: int| i <= k < e && #[trigger] s[k] == HYPHEN
            &&& forall|k: int|
                i <= k < e ==> row_space(#[trigger] s[k]) || s[k] == COLON || s[k] == HYPHEN
        },
{
    let a = run_end(s, i, row_spaces());
    lemma_run_end(s, i, row_spaces());
    let b = if a < s.len() && s[a] == COLON {
        a + 1
    } else {
        a
    };
    lemma_run_end(s, b, only(HYPHEN));
    let c = run_end(s, b, only(HYPHEN));
    if c > b {
        assert(only(HYPHEN)(s[b]));
        let d = if c < s.len() && s[c] == COLON {
            c + 1
        } else {
            c
        };
        lemma_run_end(s, d, row_spaces());
        let e = run_end(s, d, row_spaces());
        assert forall|k: int| i <= k < e implies row_space(#[trigger] s[k]) || s[k] == COLON || s[k]
            == HYPHEN by {
            if k < a {
                assert(row_spaces()(s[k]));
            } else if b <= k < c {
                assert(only(HYPHEN)(s[k]));
            } else if k >= d {
                assert(row_spaces()(s[k]));
            }
        }
    }
}

/// What is read up to a line end.
proof fn lemma_row_end_bytes(s: Seq<u8>, i: int)
    requires
        0 <= i <= s.len(),
    ensures
        row_end(s, i) > i ==> {
            let e = row_end(s, i) - 1;
            &&& i <= e < s.len()
            &&& s[e] == LINE_FEED
            &&& forall|k: int| i <= k < e ==> row_space(#[trigger] s[k]) || s[k] == RETURN
        },
{
    lemma_run_end(s, i, row_spaces());
    let a = run_end(s, i, row_spaces());
    assert forall|k: int| i <= k < a implies row_space(#[trigger] s[k]) by {
        assert(row_spaces()(s[k]));
    }
}

/// Markers hold nothing else.
proof fn lemma_markers_ruled(s: Seq<u8>, i: int)
    requires
        0 <= i <= s.len(),
        markers_from(s, i),
    ensures
        ruled(s, i),
    decreases s.len() - i,
{
    lemma_marker_bytes(s, i);
    let e = marker_end(s, i)->0;
    let h = choose|k: int| i <= k < e && #[trigger] s[k] == HYPHEN;
    if e < s.len() && s[e] == BAR && marker_end(s, e + 1) is Some {
        lemma_markers_ruled(s, e + 1);
        let f = choose|f: int|
            {
                &&& e + 1 < f < s.len()
                &&& #[trigger] s[f] == LINE_FEED
                &&& exists|k: int| e + 1 <= k < f && #[trigger] s[k] == HYPHEN
                &&& forall|k: int|
                    e + 1 <= k < f ==> row_space(#[trigger] s[k]) || s[k] == BAR || s[k] == COLON
                        || s[k] == HYPHEN || s[k] == RETURN
            };
        assert(s[f] == LINE_FEED && s[h] == HYPHEN);
    } else {
        let m = if e < s.len() && s[e] == BAR {
            e + 1
        } else {
            e
        };
        lemma_row_end_bytes(s, m);
        let f = row_end(s, m) - 1;
        assert(s[f] == LINE_FEED && s[h] == HYPHEN);
    }
}

/// No other line makes a table of a paragraph: one that does holds nothing but bars, colons,
/// hyphens and white space, and a hyphen among them. The header has as many cells as there are
/// alignments.
pub proof fn law_no_other_header(content: Seq<u8>, visited: bool, line: Seq<u8>)
    ensures
        header_step(content, visited, line) matches TableStepView::Header { row, alignments } ==> {
            &&& ruled(line, 0)
            &&& row_of(content) == Some(row)
            &&& row.cells.len() == alignments.len()
        },
{
    if delimiter_row(line) {
        if line.len() > 0 && line[0] == BAR {
            lemma_markers_ruled(line, 1);
            let f = choose|f: int|
                {
                    &&& 1 < f < line.len()
                    &&& #[trigger] line[f] == LINE_FEED
                    &&& exists|k: int| 1 <= k < f && #[trigger] line[k] == HYPHEN
                    &&& forall|k: int|
                        1 <= k < f ==> row_space(#[trigger] line[k]) || line[k] == BAR || line[k]
                            == COLON || line[k] == HYPHEN || line[k] == RETURN
                };
            let h = choose|k: int| 1 <= k < f && #[trigger] line[k] == HYPHEN;
            assert(line[f] == LINE_FEED && line[h] == HYPHEN);
        } else {
            lemma_markers_ruled(line, 0);
        }
    }
}

/// A line goes on with a table where it can be read as a row, and is not blank; its cells are
/// those of that row.
pub proof fn law_table_body(line: Seq<u8>, blank: bool)
    ensures
        blank ==> body_step(line, blank) is Nothing,
        !blank ==> match row_of(line) {
            Some(row) => body_step(line, blank) == TableStepView::Body { cells: row.cells },
            None => body_step(line, blank) is Nothing,
        },
{
}

/// White space inside a row is all white space but line ends.
pub proof fn law_row_space(b: u8)
    ensures
        row_space(b) <==> white(b) && b != LINE_FEED && b != RETURN,
{
}

} // verus!
