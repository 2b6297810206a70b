//! Rows of tables.

use crate::ctype::{lemma_run_end, lemma_run_end_is, only, run_end, skip_only};
use crate::nodes::TableAlignment;
use crate::strings::{lemma_trimmed_valid, lemma_valid_without, trim_slice, trimmed};
use crate::text::{lemma_boundary_at_ascii, lemma_valid_between};
use vstd::prelude::*;
use vstd::slice::slice_subrange;
use vstd::utf8::{is_char_boundary, is_char_boundary_start_end_of_seq, valid_utf8};

verus! {

/// White space inside a row.
pub open spec fn row_space(b: u8) -> bool {
    b == 32 || b == 9 || b == 11 || b == 12
}

/// The class of white space inside a row.
pub open spec fn row_spaces() -> spec_fn(u8) -> bool {
    |b: u8| row_space(b)
}

/// Passes white space inside a row.
fn skip_row_spaces(s: &[u8], i: usize) -> (r: usize)
    requires
        i <= s@.len(),
    ensures
        r == run_end(s@, i as int, row_spaces()),
        i <= r <= s@.len(),
{
    let mut k: usize = i;
    while k < s.len() && (s[k] == 32 || s[k] == 9 || s[k] == 11 || s[k] == 12)
        invariant
            i <= k <= s@.len(),
            forall|j: int| i <= j < k ==> row_spaces()(#[trigger] s@[j]),
        decreases s@.len() - k,
    {
        k += 1;
    }
    proof {
        lemma_run_end_is(s@, i as int, k as int, row_spaces());
    }
    k
}

/// The end of the cell that starts at `start` and goes on at `k`: at a line end, or at a bar
/// without a backslash before it.
pub open spec fn cell_end(s: Seq<u8>, start: int, k: int) -> int
    decreases s.len() - k,
{
    if 0 <= k < s.len() && s[k] != 10 && s[k] != 13 && (s[k] != 124 || (k > start && s[k - 1]
        == 92)) {
        cell_end(s, start, k + 1)
    } else {
        k
    }
}

/// Behind the bar at `i` and the white space after it; `i` itself, where no bar is.
pub open spec fn bar_end(s: Seq<u8>, i: int) -> int {
    if i < s.len() && s[i] == 124 {
        run_end(s, i + 1, row_spaces())
    } else {
        i
    }
}

/// Behind white space and a line end at `i`; `i` itself, where they are not there.
pub open spec fn row_end(s: Seq<u8>, i: int) -> int {
    let a = run_end(s, i, row_spaces());
    let b = if a < s.len() && s[a] == 13 {
        a + 1
    } else {
        a
    };
    if b < s.len() && s[b] == 10 {
        b + 1
    } else {
        i
    }
}

/// `s` from `i` on without the backslashes that stand before bars.
pub open spec fn bars_unescaped(s: Seq<u8>, i: int) -> Seq<u8>
    decreases s.len() - i,
{
    if i < 0 || i >= s.len() {
        seq![]
    } else if s[i] == 92 && i + 1 < s.len() && s[i + 1] == 124 {
        bars_unescaped(s, i + 1)
    } else {
        seq![s[i]] + bars_unescaped(s, i + 1)
    }
}

/// The text of a cell.
pub open spec fn cell_text(s: Seq<u8>) -> Seq<u8> {
    trimmed(bars_unescaped(s, 0))
}

/// A row, and where it starts in the text whose last line it is.
#[verifier::ext_equal]
pub struct RowView {
    pub paragraph_offset: int,
    pub cells: Seq<Seq<u8>>,
}

/// The row that is read up to `offset`: `cells` so far, in the line that starts at `para`.
///
/// Where a line ends and text is left, the lines so far are no part of the row.
pub open spec fn row_from(s: Seq<u8>, offset: int, cells: Seq<Seq<u8>>, para: int) -> Option<
    RowView,
>
    decreases s.len() - offset,
{
    if offset < 0 || offset >= s.len() {
        if offset == s.len() && cells.len() > 0 {
            Some(RowView { paragraph_offset: para, cells })
        } else {
            None
        }
    } else {
        let c = cell_end(s, offset, offset);
        let p = bar_end(s, c);
        let more = if p > offset {
            cells.push(cell_text(s.subrange(offset, c)))
        } else {
            cells
        };
        if p > c {
            if offset < p <= s.len() {
                row_from(s, p, more, para)
            } else {
                None
            }
        } else {
            let e = row_end(s, p);
            if e > p && e != s.len() {
                if offset < bar_end(s, e) <= s.len() {
                    row_from(s, bar_end(s, e), seq![], e)
                } else {
                    None
                }
            } else if e == s.len() && more.len() > 0 {
                Some(RowView { paragraph_offset: para, cells: more })
            } else {
                None
            }
        }
    }
}

/// The last line of `s` as a row: cells between bars, of which the first one may be left out.
pub open spec fn row_of(s: Seq<u8>) -> Option<RowView> {
    row_from(s, bar_end(s, 0), seq![], 0)
}

/// The end of a marker of the delimiter row at `i`: hyphens, with or without a colon on either
/// side, among white space.
pub open spec fn marker_end(s: Seq<u8>, i: int) -> Option<int> {
    let a = run_end(s, i, row_spaces());
    let b = if a < s.len() && s[a] == 58 {
        a + 1
    } else {
        a
    };
    let c = run_end(s, b, only(45));
    if c == b {
        None
    } else {
        let d = if c < s.len() && s[c] == 58 {
            c + 1
        } else {
            c
        };
        Some(run_end(s, d, row_spaces()))
    }
}

/// Whether markers between bars, up to the line end, are all that the line has from `i` on.
pub open spec fn markers_from(s: Seq<u8>, i: int) -> bool
    decreases s.len() - i,
{
    match marker_end(s, i) {
        Some(e) => {
            if i <= e < s.len() && s[e] == 124 && marker_end(s, e + 1) is Some {
                markers_from(s, e + 1)
            } else if e < s.len() && s[e] == 124 {
                row_end(s, e + 1) > e + 1
            } else {
                row_end(s, e) > e
            }
        },
        None => false,
    }
}

/// Whether `s` starts with a delimiter row.
pub open spec fn delimiter_row(s: Seq<u8>) -> bool {
    if s.len() > 0 && s[0] == 124 {
        markers_from(s, 1)
    } else {
        markers_from(s, 0)
    }
}

/// The alignment that a cell of the delimiter row stands for.
pub open spec fn alignment_of(cell: Seq<u8>) -> TableAlignment {
    let left = cell.len() > 0 && cell[0] == 58;
    let right = cell.len() > 0 && cell.last() == 58;
    if left && right {
        TableAlignment::Center
    } else if left {
        TableAlignment::Left
    } else if right {
        TableAlignment::Right
    } else {
        TableAlignment::Unaligned
    }
}

/// A row.
#[derive(Debug)]
pub struct Row {
    /// Where the row starts in the text whose last line it is.
    pub paragraph_offset: usize,
    /// The texts of its cells.
    pub cells: Vec<Vec<u8>>,
}

/// The texts in `cells`.
pub open spec fn texts(cells: Seq<Vec<u8>>) -> Seq<Seq<u8>> {
    Seq::new(cells.len(), |k: int| cells[k]@)
}

impl View for Row {
    type V = RowView;

    open spec fn view(&self) -> RowView {
        RowView { paragraph_offset: self.paragraph_offset as int, cells: texts(self.cells@) }
    }
}

/// Where a cell ends.
proof fn lemma_cell_end(s: Seq<u8>, start: int, k: int)
    requires
        0 <= k <= s.len(),
    ensures
        k <= cell_end(s, start, k) <= s.len(),
        cell_end(s, start, k) < s.len() ==> s[cell_end(s, start, k)] < 128,
    decreases s.len() - k,
{
    if k < s.len() {
        lemma_cell_end(s, start, k + 1);
    }
}

/// Finds where the cell at `start` ends.
fn scan_cell(s: &[u8], start: usize) -> (r: usize)
    requires
        start <= s@.len(),
    ensures
        r == cell_end(s@, start as int, start as int),
        start <= r <= s@.len(),
{
    let mut k: usize = start;
    while k < s.len() && s[k] != 10 && s[k] != 13 && (s[k] != 124 || (k > start && s[k - 1] == 92))
        invariant
            start <= k <= s@.len(),
            cell_end(s@, start as int, start as int) == cell_end(s@, start as int, k as int),
        decreases s@.len() - k,
    {
        k += 1;
    }
    k
}

/// Passes a bar and the white space after it.
fn scan_bar(s: &[u8], i: usize) -> (r: usize)
    requires
        i <= s@.len(),
    ensures
        r == bar_end(s@, i as int),
        i <= r <= s@.len(),
{
    if i < s.len() && s[i] == 124 {
        skip_row_spaces(s, i + 1)
    } else {
        i
    }
}

/// Passes white space and a line end.
fn scan_row_end(s: &[u8], i: usize) -> (r: usize)
    requires
        i <= s@.len(),
    ensures
        r == row_end(s@, i as int),
        i <= r <= s@.len(),
{
    let mut b: usize = skip_row_spaces(s, i);
    if b < s.len() && s[b] == 13 {
        b += 1;
    }
    if b < s.len() && s[b] == 10 {
        b + 1
    } else {
        i
    }
}

/// A copy of `s` without the backslashes that stand before bars.
fn unescape_pipes(s: &[u8]) -> (r: Vec<u8>)
    ensures
        r@ == bars_unescaped(s@, 0),
{
    let mut v: Vec<u8> = Vec::new();
    let mut i: usize = 0;
    while i < s.len()
        invariant
            i <= s@.len(),
            bars_unescaped(s@, 0) == v@ + bars_unescaped(s@, i as int),
        decreases s@.len() - i,
    {
        let ghost before = v@;
        if !(s[i] == 92 && s.len() - i > 1 && s[i + 1] == 124) {
            v.push(s[i]);
            proof {
                assert(before + bars_unescaped(s@, i as int) =~= v@ + bars_unescaped(
                    s@,
                    i + 1,
                ));
            }
        }
        i += 1;
    }
    proof {
        assert(v@ + bars_unescaped(s@, i as int) =~= v@);
    }
    v
}

/// Unescaping bars behind a text keeps it text.
proof fn lemma_bars_unescaped_valid(before: Seq<u8>, s: Seq<u8>, i: int)
    requires
        0 <= i <= s.len(),
        valid_utf8(before + s.subrange(i, s.len() as int)),
    ensures
        valid_utf8(before + bars_unescaped(s, i)),
    decreases s.len() - i,
{
    let all = before + s.subrange(i, s.len() as int);
    if i == s.len() {
        assert(all =~= before + bars_unescaped(s, i));
    } else if s[i] == 92 && i + 1 < s.len() && s[i + 1] == 124 {
        lemma_valid_without(all, before.len() as int);
        assert(all.subrange(0, before.len() as int) + all.subrange(
            before.len() as int + 1,
            all.len() as int,
        ) =~= before + s.subrange(i + 1, s.len() as int));
        lemma_bars_unescaped_valid(before, s, i + 1);
    } else {
        let next = before.push(s[i]);
        assert(next + s.subrange(i + 1, s.len() as int) =~= all);
        lemma_bars_unescaped_valid(next, s, i + 1);
        assert(next + bars_unescaped(s, i + 1) =~= before + bars_unescaped(s, i));
    }
}

/// The text of a cell is text.
pub proof fn lemma_cell_text_valid(s: Seq<u8>)
    requires
        valid_utf8(s),
    ensures
        valid_utf8(cell_text(s)),
{
    assert(Seq::<u8>::empty() + s.subrange(0, s.len() as int) =~= s);
    lemma_bars_unescaped_valid(Seq::empty(), s, 0);
    assert(Seq::<u8>::empty() + bars_unescaped(s, 0) =~= bars_unescaped(s, 0));
    lemma_trimmed_valid(bars_unescaped(s, 0));
}

/// Copies the text of a cell.
pub fn copy_cell(s: &[u8]) -> (r: Vec<u8>)
    ensures
        r@ == cell_text(s@),
{
    trim_slice(unescape_pipes(s).as_slice())
}

/// Where scans end that pass only ASCII, or start where a character does.
proof fn lemma_scan_ends(s: Seq<u8>, i: int)
    requires
        valid_utf8(s),
        0 <= i <= s.len(),
        is_char_boundary(s, i),
    ensures
        is_char_boundary(s, cell_end(s, i, i)),
        is_char_boundary(s, bar_end(s, i)),
        is_char_boundary(s, row_end(s, i)),
        i <= cell_end(s, i, i) <= s.len(),
        i <= bar_end(s, i) <= s.len(),
        i <= row_end(s, i) <= s.len(),
{
    is_char_boundary_start_end_of_seq(s);
    lemma_cell_end(s, i, i);
    let c = cell_end(s, i, i);
    if c < s.len() {
        lemma_boundary_at_ascii(s, c);
    }
    if i < s.len() && s[i] == 124 {
        let b = bar_end(s, i);
        lemma_run_end(s, i + 1, row_spaces());
        if b > i + 1 {
            assert(row_spaces()(s[b - 1]));
        }
        lemma_boundary_at_ascii(s, b - 1);
    }
    lemma_run_end(s, i, row_spaces());
    let e = row_end(s, i);
    if e > i {
        lemma_boundary_at_ascii(s, e - 1);
    }
}

/// Splits the last line of `s` into cells.
pub fn row(s: &[u8]) -> (r: Option<Row>)
    ensures
        match r {
            Some(w) => row_of(s@) == Some(w@),
            None => row_of(s@) is None,
        },
        valid_utf8(s@) ==> (r matches Some(w) ==> {
            &&& w.paragraph_offset <= s@.len()
            &&& is_char_boundary(s@, w.paragraph_offset as int)
            &&& forall|k: int| 0 <= k < w.cells@.len() ==> valid_utf8(#[trigger] w.cells@[k]@)
        }),
{
    let n: usize = s.len();
    let mut cells: Vec<Vec<u8>> = Vec::new();
    let mut offset: usize = scan_bar(s, 0);
    let mut para: usize = 0;
    proof {
        assert(texts(cells@) =~= Seq::<Seq<u8>>::empty());
        if valid_utf8(s@) {
            is_char_boundary_start_end_of_seq(s@);
            lemma_scan_ends(s@, 0);
        }
    }
    while offset < n
        invariant
            n == s@.len(),
            offset <= n,
            para <= n,
            row_of(s@) == row_from(s@, offset as int, texts(cells@), para as int),
            valid_utf8(s@) ==> is_char_boundary(s@, offset as int) && is_char_boundary(
                s@,
                para as int,
            ) && forall|k: int| 0 <= k < cells@.len() ==> valid_utf8(#[trigger] cells@[k]@),
        decreases n - offset,
    {
        let c: usize = scan_cell(s, offset);
        let p: usize = scan_bar(s, c);
        let ghost before = texts(cells@);
        proof {
            if valid_utf8(s@) {
                lemma_scan_ends(s@, offset as int);
                lemma_scan_ends(s@, c as int);
                lemma_scan_ends(s@, p as int);
                lemma_valid_between(s@, offset as int, c as int);
                lemma_cell_text_valid(s@.subrange(offset as int, c as int));
            }
        }
        if p > offset {
            cells.push(copy_cell(slice_subrange(s, offset, c)));
            proof {
                assert(texts(cells@) =~= before.push(
                    cell_text(s@.subrange(offset as int, c as int)),
                ));
            }
        }
        if p > c {
            offset = p;
        } else {
            let e: usize = scan_row_end(s, p);
            if e > p && e != n {
                para = e;
                cells = Vec::new();
                proof {
                    if valid_utf8(s@) {
                        lemma_scan_ends(s@, e as int);
                    }
                    assert(texts(cells@) =~= Seq::<Seq<u8>>::empty());
                }
                offset = scan_bar(s, e);
            } else {
                return if e == n && cells.len() > 0 {
                    Some(Row { paragraph_offset: para, cells })
                } else {
                    None
                };
            }
        }
    }
    if cells.len() > 0 {
        Some(Row { paragraph_offset: para, cells })
    } else {
        None
    }
}

/// Whether `line` is a row of a table.
pub fn matches(line: &[u8]) -> (r: bool)
    ensures
        r == row_of(line@) is Some,
{
    row(line).is_some()
}

/// Finds where a marker of the delimiter row ends.
fn scan_marker(s: &[u8], i: usize) -> (r: Option<usize>)
    requires
        i <= s@.len(),
    ensures
        crate::scanners::index_of(r) == marker_end(s@, i as int),
        r matches Some(e) ==> i < e <= s@.len(),
{
    let mut b: usize = skip_row_spaces(s, i);
    if b < s.len() && s[b] == 58 {
        b += 1;
    }
    let mut d: usize = skip_only(s, b, 45);
    if d == b {
        return None;
    }
    if d < s.len() && s[d] == 58 {
        d += 1;
    }
    Some(skip_row_spaces(s, d))
}

/// Whether `s` starts with a delimiter row.
pub fn table_start(s: &[u8]) -> (r: bool)
    ensures
        r == delimiter_row(s@),
{
    let mut i: usize = if s.len() > 0 && s[0] == 124 {
        1
    } else {
        0
    };
    loop
        invariant
            i <= s@.len(),
            delimiter_row(s@) == markers_from(s@, i as int),
        decreases s@.len() - i,
    {
        match scan_marker(s, i) {
            None => return false,
            Some(e) => {
                if e < s.len() && s[e] == 124 {
                    if scan_marker(s, e + 1).is_none() {
                        return scan_row_end(s, e + 1) > e + 1;
                    }
                    i = e + 1;
                } else {
                    return scan_row_end(s, e) > e;
                }
            },
        }
    }
}

/// The alignments that the cells of a delimiter row stand for.
pub fn alignments(cells: &Vec<Vec<u8>>) -> (r: Vec<TableAlignment>)
    ensures
        r@.len() == cells@.len(),
        forall|k: int| 0 <= k < cells@.len() ==> #[trigger] r@[k] == alignment_of(cells@[k]@),
{
    let mut r: Vec<TableAlignment> = Vec::new();
    let mut k: usize = 0;
    while k < cells.len()
        invariant
            k <= cells@.len(),
            r@.len() == k,
            forall|j: int| 0 <= j < k ==> #[trigger] r@[j] == alignment_of(cells@[j]@),
        decreases cells@.len() - k,
    {
        let n: usize = cells[k].len();
        let left: bool = n > 0 && cells[k][0] == 58;
        let right: bool = n > 0 && cells[k][n - 1] == 58;
        r.push(
            if left && right {
                TableAlignment::Center
            } else if left {
                TableAlignment::Left
            } else if right {
                TableAlignment::Right
            } else {
                TableAlignment::Unaligned
            },
        );
        k += 1;
    }
    r
}

/// What a line does to the block that it stands in, as far as tables go.
#[verifier::ext_equal]
pub enum TableStepView {
    /// There is no table.
    Nothing,
    /// The block stays the same, and from now on cannot become a table where `visited`.
    Keep { visited: bool },
    /// The last line of the paragraph is the header of a table with these alignments.
    Header { row: RowView, alignments: Seq<TableAlignment> },
    /// The line is the next row of the table.
    Body { cells: Seq<Seq<u8>> },
}

/// What a line does to the block that it stands in, as far as tables go.
#[derive(Debug)]
pub enum TableStep {
    Nothing,
    Keep { visited: bool },
    Header { row: Row, alignments: Vec<TableAlignment> },
    Body { cells: Vec<Vec<u8>> },
}

impl View for TableStep {
    type V = TableStepView;

    open spec fn view(&self) -> TableStepView {
        match *self {
            TableStep::Nothing => TableStepView::Nothing,
            TableStep::Keep { visited } => TableStepView::Keep { visited },
            TableStep::Header { row, alignments } => TableStepView::Header {
                row: row@,
                alignments: alignments@,
            },
            TableStep::Body { cells } => TableStepView::Body { cells: texts(cells@) },
        }
    }
}

/// What the line `rest` does to a paragraph of the text `content`. It makes a header of the
/// last line of the paragraph if it is a delimiter row with as many cells.
pub open spec fn header_step(content: Seq<u8>, visited: bool, rest: Seq<u8>) -> TableStepView {
    if visited || !delimiter_row(rest) {
        TableStepView::Keep { visited: false }
    } else {
        match (row_of(rest), row_of(content)) {
            (Some(marks), Some(header)) => if marks.cells.len() == header.cells.len() {
                TableStepView::Header {
                    row: header,
                    alignments: Seq::new(
                        marks.cells.len(),
                        |k: int| alignment_of(marks.cells[k]),
                    ),
                }
            } else {
                TableStepView::Keep { visited: true }
            },
            _ => TableStepView::Keep { visited: true },
        }
    }
}

/// What the line `rest` does to a table.
pub open spec fn body_step(rest: Seq<u8>, blank: bool) -> TableStepView {
    match row_of(rest) {
        Some(w) => if blank {
            TableStepView::Nothing
        } else {
            TableStepView::Body { cells: w.cells }
        },
        None => TableStepView::Nothing,
    }
}

/// Whether the texts in a step are text.
pub open spec fn texts_valid(cells: Seq<Seq<u8>>) -> bool {
    forall|k: int| 0 <= k < cells.len() ==> valid_utf8(#[trigger] cells[k])
}

/// Looks whether the line `rest` makes a table of a paragraph.
pub fn try_opening_header(content: &[u8], visited: bool, rest: &[u8]) -> (r: TableStep)
    requires
        valid_utf8(content@),
        valid_utf8(rest@),
    ensures
        r@ == header_step(content@, visited, rest@),
        r@ matches TableStepView::Header { row, .. } ==> {
            &&& texts_valid(row.cells)
            &&& 0 <= row.paragraph_offset <= content@.len()
            &&& is_char_boundary(content@, row.paragraph_offset)
        },
{
    if visited || !table_start(rest) {
        return TableStep::Keep { visited: false };
    }
    let marks: Row = match row(rest) {
        Some(w) => w,
        None => return TableStep::Keep { visited: true },
    };
    let header: Row = match row(content) {
        Some(w) => w,
        None => return TableStep::Keep { visited: true },
    };
    if header.cells.len() != marks.cells.len() {
        return TableStep::Keep { visited: true };
    }
    let a: Vec<TableAlignment> = alignments(&marks.cells);
    proof {
        assert(a@ =~= Seq::new(marks@.cells.len(), |k: int| alignment_of(marks@.cells[k])));
    }
    TableStep::Header { row: header, alignments: a }
}

/// Looks whether the line `rest` is the next row of a table.
pub fn try_opening_row(rest: &[u8], blank: bool) -> (r: TableStep)
    requires
        valid_utf8(rest@),
    ensures
        r@ == body_step(rest@, blank),
        r@ matches TableStepView::Body { cells } ==> texts_valid(cells),
{
    if blank {
        return TableStep::Nothing;
    }
    match row(rest) {
        Some(w) => TableStep::Body { cells: w.cells },
        None => TableStep::Nothing,
    }
}

} // verus!
