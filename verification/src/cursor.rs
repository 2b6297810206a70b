//! The position inside the line being parsed, in bytes and in columns.

use crate::ctype::{
    blank_byte, blanks, is_line_end_char, is_space_or_tab, lemma_run_end, lemma_run_end_from,
    lemma_run_end_is, line_end_byte, run_end,
};
use vstd::prelude::*;

verus! {

/// Tabs reach to the next column that is a multiple of this.
pub const TAB_STOP: usize = 4;

/// The indentation that makes a code block.
pub const CODE_INDENT: usize = 4;

/// Where the parser stands in the current line.
#[derive(Clone, Copy)]
pub struct Cursor {
    /// The next byte to look at.
    pub offset: usize,
    /// The column that `offset` stands at, with tabs expanded.
    pub column: usize,
    /// No thematic break starts before this index.
    pub thematic_break_kill_pos: usize,
    /// The first byte from `offset` on that is neither space nor tab.
    pub first_nonspace: usize,
    /// The column of that byte.
    pub first_nonspace_column: usize,
    /// The columns between `column` and `first_nonspace_column`.
    pub indent: usize,
    /// Whether only a line ending is left.
    pub blank: bool,
    /// Whether `offset` is at a tab whose first columns have been used.
    pub partially_consumed_tab: bool,
}

/// A cursor over the mathematical integers.
pub struct CursorView {
    pub offset: int,
    pub column: int,
    pub thematic_break_kill_pos: int,
    pub first_nonspace: int,
    pub first_nonspace_column: int,
    pub indent: int,
    pub blank: bool,
    pub partially_consumed_tab: bool,
}

impl View for Cursor {
    type V = CursorView;

    open spec fn view(&self) -> CursorView {
        CursorView {
            offset: self.offset as int,
            column: self.column as int,
            thematic_break_kill_pos: self.thematic_break_kill_pos as int,
            first_nonspace: self.first_nonspace as int,
            first_nonspace_column: self.first_nonspace_column as int,
            indent: self.indent as int,
            blank: self.blank,
            partially_consumed_tab: self.partially_consumed_tab,
        }
    }
}

/// The columns from `column` to the next tab stop.
pub open spec fn tab_width(column: int) -> int {
    TAB_STOP - column % (TAB_STOP as int)
}

/// The columns that byte `b` takes when it stands at `column`.
pub open spec fn byte_width(b: u8, column: int) -> int {
    if b == 9 {
        tab_width(column)
    } else {
        1
    }
}

/// The column reached from `column` by passing the bytes of `line` from `i` up to `j`.
pub open spec fn column_after(line: Seq<u8>, i: int, j: int, column: int) -> int
    decreases j - i,
{
    if i < j {
        column_after(line, i + 1, j, column + byte_width(line[i], column))
    } else {
        column
    }
}

/// The cursor after `count` more bytes or, with `columns`, after `count` more columns.
///
/// A tab of which only some columns are passed stays at the cursor, marked as partly consumed.
pub open spec fn advanced(c: CursorView, line: Seq<u8>, count: int, columns: bool) -> CursorView
    decreases count,
{
    if count <= 0 || c.offset >= line.len() {
        c
    } else {
        let width = byte_width(line[c.offset], c.column);
        if columns && width > count {
            CursorView { column: c.column + count, partially_consumed_tab: true, ..c }
        } else {
            let next = CursorView {
                offset: c.offset + 1,
                column: c.column + width,
                partially_consumed_tab: false,
                ..c
            };
            if !columns {
                advanced(next, line, count - 1, false)
            } else if width >= 1 {
                advanced(next, line, count - width, true)
            } else {
                c
            }
        }
    }
}

/// The cursor with the next byte that is neither space nor tab looked up.
pub open spec fn with_nonspace(c: CursorView, line: Seq<u8>) -> CursorView {
    let first = run_end(line, c.offset, blanks());
    let column = column_after(line, c.offset, first, c.column);
    CursorView {
        first_nonspace: first,
        first_nonspace_column: column,
        indent: column - c.column,
        blank: first < line.len() && line_end_byte(line[first]),
        ..c
    }
}

/// Whether columns in a line of this length can be counted in a `usize`.
pub open spec fn countable(line: Seq<u8>) -> bool {
    4 * line.len() + 8 <= usize::MAX
}

impl CursorView {
    /// The cursor lies in `line`, and what it has looked up there is right.
    pub open spec fn in_line(self, line: Seq<u8>) -> bool {
        &&& 0 <= self.offset <= line.len()
        &&& 0 <= self.column <= 4 * self.offset + 3
        &&& !self.partially_consumed_tab ==> self.column <= 4 * self.offset
        &&& self.partially_consumed_tab ==> self.offset < line.len() && line[self.offset] == 9
        &&& 0 <= self.thematic_break_kill_pos
        &&& 0 <= self.first_nonspace <= line.len()
        &&& self.first_nonspace > self.offset ==> {
            &&& self.first_nonspace == run_end(line, self.offset, blanks())
            &&& self.first_nonspace_column == column_after(
                line,
                self.offset,
                self.first_nonspace,
                self.column,
            )
        }
    }

    /// What was looked up belongs to where the cursor stands now.
    pub open spec fn looked_up(self, line: Seq<u8>) -> bool {
        with_nonspace(self, line) == self
    }

    /// The columns left in `line`.
    pub open spec fn columns_left(self, line: Seq<u8>) -> int {
        column_after(line, self.offset, line.len() as int, self.column) - self.column
    }
}

/// Widths lie between one column and a whole tab.
pub proof fn lemma_byte_width(b: u8, column: int)
    requires
        0 <= column,
    ensures
        1 <= byte_width(b, column) <= 4,
{
}

/// Columns add up over adjacent stretches of a line.
pub proof fn lemma_column_after_split(line: Seq<u8>, i: int, j: int, k: int, column: int)
    requires
        i <= j <= k,
    ensures
        column_after(line, i, k, column) == column_after(
            line,
            j,
            k,
            column_after(line, i, j, column),
        ),
    decreases j - i,
{
    if i < j {
        lemma_column_after_split(line, i + 1, j, k, column + byte_width(line[i], column));
    }
}

/// Each byte takes from one to four columns.
pub proof fn lemma_column_after_bounds(line: Seq<u8>, i: int, j: int, column: int)
    requires
        i <= j,
        0 <= column,
    ensures
        column + (j - i) <= column_after(line, i, j, column) <= column + 4 * (j - i),
    decreases j - i,
{
    if i < j {
        lemma_byte_width(line[i], column);
        lemma_column_after_bounds(line, i + 1, j, column + byte_width(line[i], column));
    }
}

/// Passing the rest of a partly consumed tab ends where the whole tab ends.
pub proof fn lemma_rest_of_tab(column: int, used: int)
    requires
        0 <= column,
        0 <= used < tab_width(column),
    ensures
        tab_width(column + used) == tab_width(column) - used,
{
}

/// Where an advance by bytes ends.
pub proof fn lemma_advanced_bytes(c: CursorView, line: Seq<u8>, count: int)
    requires
        0 <= count,
        0 <= c.offset,
        c.offset + count <= line.len(),
    ensures
        advanced(c, line, count, false) == (CursorView {
            offset: c.offset + count,
            column: column_after(line, c.offset, c.offset + count, c.column),
            partially_consumed_tab: count == 0 && c.partially_consumed_tab,
            ..c
        }),
    decreases count,
{
    if count > 0 {
        let next = CursorView {
            offset: c.offset + 1,
            column: c.column + byte_width(line[c.offset], c.column),
            partially_consumed_tab: false,
            ..c
        };
        lemma_advanced_bytes(next, line, count - 1);
    }
}

/// An advance by columns moves the column by just that many.
pub proof fn law_advanced_columns(c: CursorView, line: Seq<u8>, count: int)
    requires
        0 <= count <= c.columns_left(line),
        0 <= c.offset <= line.len(),
        0 <= c.column,
    ensures
        ({
            let r = advanced(c, line, count, true);
            &&& r.column == c.column + count
            &&& c.offset <= r.offset <= line.len()
            &&& r == CursorView {
                offset: r.offset,
                column: r.column,
                partially_consumed_tab: r.partially_consumed_tab,
                ..c
            }
        }),
    decreases count,
{
    if count > 0 && c.offset < line.len() {
        let width = byte_width(line[c.offset], c.column);
        lemma_byte_width(line[c.offset], c.column);
        if width <= count {
            let next = CursorView {
                offset: c.offset + 1,
                column: c.column + width,
                partially_consumed_tab: false,
                ..c
            };
            law_advanced_columns(next, line, count - width);
        }
    }
}

/// An advance by columns that ends where a byte starts ends at that byte.
pub proof fn lemma_advanced_to(c: CursorView, line: Seq<u8>, j: int)
    requires
        0 <= c.offset <= j <= line.len(),
        0 <= c.column,
    ensures
        ({
            let r = advanced(c, line, column_after(line, c.offset, j, c.column) - c.column, true);
            &&& r.offset == j
            &&& j > c.offset ==> !r.partially_consumed_tab
        }),
    decreases j - c.offset,
{
    lemma_column_after_bounds(line, c.offset, j, c.column);
    if c.offset < j {
        let width = byte_width(line[c.offset], c.column);
        lemma_byte_width(line[c.offset], c.column);
        lemma_column_after_bounds(line, c.offset + 1, j, c.column + width);
        let next = CursorView {
            offset: c.offset + 1,
            column: c.column + width,
            partially_consumed_tab: false,
            ..c
        };
        lemma_advanced_to(next, line, j);
    }
}

/// Advancing in two steps is advancing by the sum of them, also where a step ends inside a tab.
pub proof fn law_advanced_in_steps(c: CursorView, line: Seq<u8>, a: int, b: int, columns: bool)
    requires
        0 <= a,
        0 <= b,
        0 <= c.offset,
        0 <= c.column,
        !columns ==> c.offset + a <= line.len(),
        columns ==> c.offset <= line.len() && a <= c.columns_left(line),
    ensures
        advanced(advanced(c, line, a, columns), line, b, columns) == advanced(
            c,
            line,
            a + b,
            columns,
        ),
    decreases a,
{
    if a > 0 && c.offset < line.len() {
        let width = byte_width(line[c.offset], c.column);
        lemma_byte_width(line[c.offset], c.column);
        let next = CursorView {
            offset: c.offset + 1,
            column: c.column + width,
            partially_consumed_tab: false,
            ..c
        };
        if !columns {
            law_advanced_in_steps(next, line, a - 1, b, false);
        } else if width <= a {
            law_advanced_in_steps(next, line, a - width, b, true);
        } else {
            lemma_rest_of_tab(c.column, a);
            let mid = CursorView { column: c.column + a, partially_consumed_tab: true, ..c };
            assert(advanced(c, line, a, true) == mid);
            assert(byte_width(line[mid.offset], mid.column) == width - a);
            if b > 0 {
                if width - a > b {
                    assert(advanced(mid, line, b, true) == CursorView {
                        column: mid.column + b,
                        partially_consumed_tab: true,
                        ..mid
                    });
                } else {
                    assert(advanced(mid, line, b, true) == advanced(
                        next,
                        line,
                        b - (width - a),
                        true,
                    ));
                    assert(advanced(c, line, a + b, true) == advanced(
                        next,
                        line,
                        a + b - width,
                        true,
                    ));
                }
            }
        }
    }
}

/// An advance changes nothing but where the cursor stands, and marks a tab only where it ends
/// inside of one.
proof fn lemma_advanced_mark(c: CursorView, line: Seq<u8>, count: int, columns: bool)
    requires
        0 < count,
        0 <= c.offset < line.len(),
        0 <= c.column,
    ensures
        ({
            let r = advanced(c, line, count, columns);
            &&& r.partially_consumed_tab ==> columns && r.offset < line.len() && line[r.offset] == 9
                && r.column % (TAB_STOP as int) != 0
            &&& r == CursorView {
                offset: r.offset,
                column: r.column,
                partially_consumed_tab: r.partially_consumed_tab,
                ..c
            }
        }),
    decreases count,
{
    let width = byte_width(line[c.offset], c.column);
    lemma_byte_width(line[c.offset], c.column);
    if !(columns && width > count) {
        let next = CursorView {
            offset: c.offset + 1,
            column: c.column + width,
            partially_consumed_tab: false,
            ..c
        };
        let left = if columns {
            count - width
        } else {
            count - 1
        };
        if left > 0 && next.offset < line.len() {
            lemma_advanced_mark(next, line, left, columns);
        } else {
            assert(advanced(next, line, left, columns) == next);
        }
    }
}

/// An advance by columns moves the column by just that many, and one by bytes the offset, where
/// so many are left. An advance by none changes nothing. Any other marks the tab at the cursor as
/// partly consumed only where it ends inside of that tab. Nothing but the offset, the column and
/// that mark ever changes.
pub proof fn law_advanced(c: CursorView, line: Seq<u8>, count: int, columns: bool)
    requires
        0 <= count,
        0 <= c.offset <= line.len(),
        0 <= c.column,
    ensures
        ({
            let r = advanced(c, line, count, columns);
            &&& columns && count <= c.columns_left(line) ==> r.column == c.column + count
            &&& !columns && c.offset + count <= line.len() ==> r.offset == c.offset + count
                && r.column == column_after(line, c.offset, r.offset, c.column)
            &&& count == 0 ==> r == c
            &&& count > 0 && c.offset < line.len() && r.partially_consumed_tab ==> columns
                && r.offset < line.len() && line[r.offset] == 9 && r.column % (TAB_STOP as int)
                != 0
            &&& r == CursorView {
                offset: r.offset,
                column: r.column,
                partially_consumed_tab: r.partially_consumed_tab,
                ..c
            }
        }),
{
    if columns && count <= c.columns_left(line) {
        law_advanced_columns(c, line, count);
    }
    if !columns && c.offset + count <= line.len() {
        lemma_advanced_bytes(c, line, count);
    }
    if count > 0 && c.offset < line.len() {
        lemma_advanced_mark(c, line, count, columns);
    }
}

/// A cursor stays in its line as it advances.
pub proof fn lemma_advanced_in_line(c: CursorView, line: Seq<u8>, count: int, columns: bool)
    requires
        c.in_line(line),
        0 <= count,
    ensures
        advanced(c, line, count, columns).in_line(line),
        advanced(c, line, count, columns).first_nonspace == c.first_nonspace,
        advanced(c, line, count, columns).first_nonspace_column == c.first_nonspace_column,
        advanced(c, line, count, columns).indent == c.indent,
        advanced(c, line, count, columns).blank == c.blank,
        advanced(c, line, count, columns).thematic_break_kill_pos == c.thematic_break_kill_pos,
        advanced(c, line, count, columns).offset >= c.offset,
    decreases count,
{
    if count > 0 && c.offset < line.len() {
        let width = byte_width(line[c.offset], c.column);
        lemma_byte_width(line[c.offset], c.column);
        if columns && width > count {
            lemma_rest_of_tab(c.column, count);
        } else {
            let next = CursorView {
                offset: c.offset + 1,
                column: c.column + width,
                partially_consumed_tab: false,
                ..c
            };
            if c.first_nonspace > next.offset {
                lemma_run_end_from(line, c.offset, next.offset, blanks());
            }
            assert(next.column <= 4 * next.offset);
            let left = if columns {
                count - width
            } else {
                count - 1
            };
            lemma_advanced_in_line(next, line, left, columns);
        }
    }
}

/// Looking up finds the next byte from the cursor on that is neither space nor tab, or the end of
/// the line, and the column of it. The indent is how far that is, and the line is blank where a
/// line ending stands there. Nothing else changes, and looking up once more changes nothing.
pub proof fn law_looked_up(c: CursorView, line: Seq<u8>)
    requires
        0 <= c.offset <= line.len(),
    ensures
        ({
            let r = with_nonspace(c, line);
            let first = r.first_nonspace;
            &&& c.offset <= first <= line.len()
            &&& forall|k: int| c.offset <= k < first ==> blank_byte(#[trigger] line[k])
            &&& first < line.len() ==> !blank_byte(line[first])
            &&& r.first_nonspace_column == column_after(line, c.offset, first, c.column)
            &&& r.indent == r.first_nonspace_column - c.column
            &&& r.blank <==> first < line.len() && line_end_byte(line[first])
            &&& r == CursorView {
                first_nonspace: r.first_nonspace,
                first_nonspace_column: r.first_nonspace_column,
                indent: r.indent,
                blank: r.blank,
                ..c
            }
            &&& with_nonspace(r, line) == r
        }),
{
    lemma_run_end(line, c.offset, blanks());
}

/// Looking up keeps the cursor in its line and finds a byte of it, where one is left that is
/// neither space nor tab.
pub proof fn lemma_with_nonspace(c: CursorView, line: Seq<u8>)
    requires
        c.in_line(line),
    ensures
        with_nonspace(c, line).in_line(line),
        with_nonspace(c, line).looked_up(line),
        with_nonspace(c, line).indent >= 0,
        c.offset < line.len() && !blank_byte(line.last()) ==> with_nonspace(c, line).first_nonspace
            < line.len(),
{
    lemma_run_end(line, c.offset, blanks());
    let n = run_end(line, c.offset, blanks());
    lemma_column_after_bounds(line, c.offset, n, c.column);
}

/// What a cursor that has looked up knows.
pub proof fn lemma_looked_up(c: CursorView, line: Seq<u8>)
    requires
        c.in_line(line),
        c.looked_up(line),
    ensures
        c.offset <= c.first_nonspace <= line.len(),
        forall|k: int| c.offset <= k < c.first_nonspace ==> blank_byte(#[trigger] line[k]),
        c.first_nonspace < line.len() ==> !blank_byte(line[c.first_nonspace]),
        0 <= c.indent <= c.columns_left(line),
        c.indent >= c.first_nonspace - c.offset,
        advanced(c, line, c.indent, true).offset == c.first_nonspace,
        c.first_nonspace > c.offset ==> !advanced(c, line, c.indent, true).partially_consumed_tab,
{
    lemma_run_end(line, c.offset, blanks());
    lemma_column_after_bounds(line, c.offset, c.first_nonspace, c.column);
    lemma_column_after_split(line, c.offset, c.first_nonspace, line.len() as int, c.column);
    lemma_column_after_bounds(
        line,
        c.first_nonspace,
        line.len() as int,
        column_after(line, c.offset, c.first_nonspace, c.column),
    );
    lemma_advanced_to(c, line, c.first_nonspace);
}

impl Cursor {
    /// A cursor at the start of a line, nothing looked up yet.
    pub fn new() -> (r: Cursor)
        ensures
            r@ == (CursorView {
                offset: 0,
                column: 0,
                thematic_break_kill_pos: 0,
                first_nonspace: 0,
                first_nonspace_column: 0,
                indent: 0,
                blank: false,
                partially_consumed_tab: false,
            }),
    {
        Cursor {
            offset: 0,
            column: 0,
            thematic_break_kill_pos: 0,
            first_nonspace: 0,
            first_nonspace_column: 0,
            indent: 0,
            blank: false,
            partially_consumed_tab: false,
        }
    }

    /// Looks up the next byte that is neither space nor tab, and the indentation before it.
    ///
    /// A byte looked up earlier that still lies ahead is not searched again.
    pub fn find_first_nonspace(&mut self, line: &[u8])
        requires
            old(self)@.in_line(line@),
            countable(line@),
        ensures
            final(self)@ == with_nonspace(old(self)@, line@),
            final(self)@.in_line(line@),
            final(self)@.looked_up(line@),
    {
        let ghost c = self@;
        let mut chars_to_tab: usize = TAB_STOP - (self.column % TAB_STOP);

        if self.first_nonspace <= self.offset {
            self.first_nonspace = self.offset;
            self.first_nonspace_column = self.column;

            while self.first_nonspace < line.len() && is_space_or_tab(line[self.first_nonspace])
                invariant
                    countable(line@),
                    c.in_line(line@),
                    c == old(self)@,
                    c.offset == self.offset,
                    c.column == self.column,
                    self.thematic_break_kill_pos == c.thematic_break_kill_pos,
                    self.partially_consumed_tab == c.partially_consumed_tab,
                    self.offset <= self.first_nonspace <= line@.len(),
                    forall|k: int|
                        self.offset <= k < self.first_nonspace ==> blank_byte(#[trigger] line@[k]),
                    self.first_nonspace_column == column_after(
                        line@,
                        self.offset as int,
                        self.first_nonspace as int,
                        self.column as int,
                    ),
                    chars_to_tab == tab_width(self.first_nonspace_column as int),
                decreases line@.len() - self.first_nonspace,
            {
                proof {
                    let n = self.first_nonspace as int;
                    lemma_column_after_bounds(line@, self.offset as int, n, self.column as int);
                    lemma_column_after_split(
                        line@,
                        self.offset as int,
                        n,
                        n + 1,
                        self.column as int,
                    );
                    reveal_with_fuel(column_after, 2);
                }
                if line[self.first_nonspace] == 32 {
                    self.first_nonspace += 1;
                    self.first_nonspace_column += 1;
                    chars_to_tab -= 1;
                    if chars_to_tab == 0 {
                        chars_to_tab = TAB_STOP;
                    }
                } else {
                    self.first_nonspace += 1;
                    self.first_nonspace_column += chars_to_tab;
                    chars_to_tab = TAB_STOP;
                }
            }
            proof {
                lemma_run_end_is(
                    line@,
                    self.offset as int,
                    self.first_nonspace as int,
                    blanks(),
                );
            }
        }
        proof {
            lemma_run_end(line@, self.offset as int, blanks());
            lemma_column_after_bounds(
                line@,
                self.offset as int,
                self.first_nonspace as int,
                self.column as int,
            );
        }
        self.indent = self.first_nonspace_column - self.column;
        self.blank = self.first_nonspace < line.len() && is_line_end_char(
            line[self.first_nonspace],
        );
        proof {
            assert(self@ == with_nonspace(c, line@));
            lemma_with_nonspace(c, line@);
        }
    }

    /// Moves on by `count` bytes or, with `columns`, by `count` columns.
    pub fn advance_offset(&mut self, line: &[u8], count: usize, columns: bool)
        requires
            old(self)@.in_line(line@),
            countable(line@),
            !columns ==> old(self).offset + count <= line@.len(),
            columns ==> count <= old(self)@.columns_left(line@),
        ensures
            final(self)@ == advanced(old(self)@, line@, count as int, columns),
            final(self)@.in_line(line@),
    {
        let ghost c = self@;
        let mut left: usize = count;
        while left > 0
            invariant
                countable(line@),
                self@.in_line(line@),
                !columns ==> self.offset + left <= line@.len(),
                columns ==> left <= self@.columns_left(line@),
                advanced(c, line@, count as int, columns) == advanced(
                    self@,
                    line@,
                    left as int,
                    columns,
                ),
            decreases left,
        {
            let ghost before = self@;
            proof {
                if self.offset == line@.len() {
                    assert(self@.columns_left(line@) == 0);
                }
                lemma_byte_width(line@[self.offset as int], self.column as int);
                lemma_advanced_in_line(self@, line@, left as int, columns);
                lemma_advanced_in_line(self@, line@, 1, columns);
            }
            if line[self.offset] == 9 {
                let chars_to_tab: usize = TAB_STOP - (self.column % TAB_STOP);
                if columns {
                    self.partially_consumed_tab = chars_to_tab > left;
                    let chars_to_advance: usize = if left < chars_to_tab {
                        left
                    } else {
                        chars_to_tab
                    };
                    self.column += chars_to_advance;
                    if !self.partially_consumed_tab {
                        self.offset += 1;
                    }
                    left -= chars_to_advance;
                } else {
                    self.partially_consumed_tab = false;
                    self.column += chars_to_tab;
                    self.offset += 1;
                    left -= 1;
                }
            } else {
                self.partially_consumed_tab = false;
                self.offset += 1;
                self.column += 1;
                left -= 1;
            }
            proof {
                let width = byte_width(line@[before.offset], before.column);
                if columns && self.partially_consumed_tab {
                    lemma_advanced_in_line(before, line@, count as int, columns);
                } else {
                    if self@.first_nonspace > self@.offset {
                        lemma_run_end_from(line@, before.offset, self@.offset, blanks());
                    }
                    assert(column_after(line@, before.offset, line@.len() as int, before.column)
                        == column_after(
                        line@,
                        before.offset + 1,
                        line@.len() as int,
                        before.column + width,
                    ));
                }
            }
        }
    }
}

/// What a thematic break of `c`s is made of.
pub open spec fn break_bytes(c: u8) -> spec_fn(u8) -> bool {
    |b: u8| b == c || blank_byte(b)
}

/// How many `c`s there are in `s` from `i` up to `j`.
pub open spec fn count_of(s: Seq<u8>, c: u8, i: int, j: int) -> int
    decreases j - i,
{
    if i < j {
        count_of(s, c, i, j - 1) + (if s[j - 1] == c {
            1int
        } else {
            0
        })
    } else {
        0
    }
}

/// The thematic break at `i`: three or more `*`, `_` or `-`, all the same, among blanks, up to
/// the end of the line.
///
/// Gives the bytes it takes and `true`, or the index at which it turned out to be none and
/// `false`.
pub open spec fn thematic_break(line: Seq<u8>, i: int) -> (int, bool) {
    if i >= line.len() || !(line[i] == 42 || line[i] == 95 || line[i] == 45) {
        (i, false)
    } else {
        let c = line[i];
        let e = run_end(line, i, break_bytes(c));
        if e < line.len() && count_of(line, c, i, e) >= 3 && line_end_byte(line[e]) {
            (e - i + 1, true)
        } else {
            (e, false)
        }
    }
}

/// Where no thematic break was found, none starts before the byte at which that turned out.
pub proof fn law_no_break_before(line: Seq<u8>, i: int, j: int)
    requires
        0 <= i <= j,
        !thematic_break(line, i).1,
        j < thematic_break(line, i).0,
    ensures
        !thematic_break(line, j).1,
{
    let c = line[i];
    let f = break_bytes(c);
    lemma_run_end(line, i, f);
    assert(f(line[j]));
    if line[j] == c {
        lemma_run_end_from(line, i, j, f);
        lemma_count_of_less(line, c, i, j, run_end(line, i, f));
    }
}

/// There are no more in a part than in the whole.
proof fn lemma_count_of_less(s: Seq<u8>, c: u8, i: int, j: int, e: int)
    requires
        i <= j <= e,
    ensures
        count_of(s, c, j, e) <= count_of(s, c, i, e),
    decreases e - j,
{
    if j < e {
        lemma_count_of_less(s, c, i, j, e - 1);
    } else {
        lemma_count_of_positive(s, c, i, e);
    }
}

/// There are no fewer than none.
proof fn lemma_count_of_positive(s: Seq<u8>, c: u8, i: int, e: int)
    ensures
        count_of(s, c, i, e) >= 0,
    decreases e - i,
{
    if i < e {
        lemma_count_of_positive(s, c, i, e - 1);
    }
}

impl Cursor {
    /// Scans a thematic break at the byte looked up.
    pub fn scan_thematic_break_inner(&self, line: &[u8]) -> (r: (usize, bool))
        ensures
            (r.0 as int, r.1) == thematic_break(line@, self.first_nonspace as int),
            r.1 ==> 4 <= r.0 <= line@.len() - self.first_nonspace,
    {
        let start: usize = self.first_nonspace;
        if start >= line.len() {
            return (start, false);
        }
        let c: u8 = line[start];
        if c != 42 && c != 95 && c != 45 {
            return (start, false);
        }
        let mut i: usize = start;
        let mut count: usize = 0;
        while i < line.len() && (line[i] == c || is_space_or_tab(line[i]))
            invariant
                start <= i <= line@.len(),
                forall|k: int| start <= k < i ==> break_bytes(c)(#[trigger] line@[k]),
                count == count_of(line@, c, start as int, i as int),
                count <= i - start,
            decreases line@.len() - i,
        {
            if line[i] == c {
                count += 1;
            }
            i += 1;
        }
        proof {
            lemma_run_end_is(line@, start as int, i as int, break_bytes(c));
        }
        if i < line.len() && count >= 3 && is_line_end_char(line[i]) {
            ((i - start) + 1, true)
        } else {
            (i, false)
        }
    }

    /// Scans a thematic break at the byte looked up; where there is none, notes up to where
    /// none can start.
    pub fn scan_thematic_break(&mut self, line: &[u8]) -> (r: Option<usize>)
        ensures
            match r {
                Some(n) => {
                    &&& thematic_break(line@, old(self).first_nonspace as int) == (n as int, true)
                    &&& *final(self) == *old(self)
                    &&& 4 <= n <= line@.len() - old(self).first_nonspace
                },
                None => {
                    &&& !thematic_break(line@, old(self).first_nonspace as int).1
                    &&& final(self)@ == (CursorView {
                        thematic_break_kill_pos: thematic_break(
                            line@,
                            old(self).first_nonspace as int,
                        ).0,
                        ..old(self)@
                    })
                },
            },
    {
        let (offset, found) = self.scan_thematic_break_inner(line);
        if !found {
            self.thematic_break_kill_pos = offset;
            None
        } else {
            Some(offset)
        }
    }
}

} // verus!
