//! List markers.

use crate::ctype::{
    blanks, digit_byte, digits, is_line_end_char, isdigit, isspace, lemma_run_end, lemma_run_end_is,
    line_end_byte, run_end, skip_blanks, space_byte,
};
use crate::nodes::{ListDelimType, ListType, NodeList};
use vstd::prelude::*;

verus! {

/// The number that the digits of `s` from `i` up to `j` write.
pub open spec fn number(s: Seq<u8>, i: int, j: int) -> int
    decreases j - i,
{
    if i < j {
        10 * number(s, i, j - 1) + (s[j - 1] - 48)
    } else {
        0
    }
}

/// `10` to the power `n`.
pub open spec fn ten_to(n: int) -> int
    decreases n,
{
    if n <= 0 {
        1
    } else {
        10 * ten_to(n - 1)
    }
}

/// The marker of a bullet list.
pub open spec fn bullet_byte(b: u8) -> bool {
    b == 42 || b == 43 || b == 45
}

/// Where the digits of an ordered list marker at `pos` end: at most nine are taken.
pub open spec fn marker_digits_end(line: Seq<u8>, pos: int) -> int {
    let e = run_end(line, pos, digits());
    if e > pos + 9 {
        pos + 9
    } else {
        e
    }
}

/// The list marker at `pos`, with the bytes it takes.
///
/// White space must follow it. One that interrupts a paragraph must not be followed by
/// nothing else on its line and, if ordered, must start at 1.
pub open spec fn list_marker(line: Seq<u8>, pos: int, interrupts_paragraph: bool) -> Option<
    (usize, NodeList),
> {
    let c = line[pos];
    if bullet_byte(c) {
        if !space_byte(line[pos + 1]) {
            None
        } else if interrupts_paragraph && line[run_end(line, pos + 1, blanks())] == 10 {
            None
        } else {
            Some(
                (
                    1,
                    NodeList {
                        list_type: ListType::Bullet,
                        marker_offset: 0,
                        padding: 0,
                        start: 1,
                        delimiter: ListDelimType::Period,
                        bullet_char: c,
                        tight: false,
                    },
                ),
            )
        }
    } else if digit_byte(c) {
        let e = marker_digits_end(line, pos);
        if interrupts_paragraph && number(line, pos, e) != 1 {
            None
        } else if line[e] != 46 && line[e] != 41 {
            None
        } else if !space_byte(line[e + 1]) {
            None
        } else if interrupts_paragraph && line_end_byte(line[run_end(line, e + 1, blanks())]) {
            None
        } else {
            Some(
                (
                    (e + 1 - pos) as usize,
                    NodeList {
                        list_type: ListType::Ordered,
                        marker_offset: 0,
                        padding: 0,
                        start: number(line, pos, e) as usize,
                        delimiter: if line[e] == 46 {
                            ListDelimType::Period
                        } else {
                            ListDelimType::Paren
                        },
                        bullet_char: 0,
                        tight: false,
                    },
                ),
            )
        }
    } else {
        None
    }
}

/// Whether the line goes on as far as it is looked at for a marker at `pos`.
pub open spec fn marker_readable(line: Seq<u8>, pos: int, interrupts_paragraph: bool) -> bool {
    let c = line[pos];
    if bullet_byte(c) {
        &&& pos + 1 < line.len()
        &&& interrupts_paragraph && space_byte(line[pos + 1]) ==> run_end(line, pos + 1, blanks())
            < line.len()
    } else if digit_byte(c) {
        let e = marker_digits_end(line, pos);
        if interrupts_paragraph && number(line, pos, e) != 1 {
            e < line.len() || e == pos + 9
        } else {
            &&& e < line.len()
            &&& line[e] == 46 || line[e] == 41 ==> e + 1 < line.len()
            &&& (line[e] == 46 || line[e] == 41) && interrupts_paragraph && space_byte(line[e + 1])
                ==> run_end(line, e + 1, blanks()) < line.len()
        }
    } else {
        true
    }
}

/// A line that ends with a line end can be looked at for markers everywhere.
pub proof fn lemma_marker_readable(line: Seq<u8>, pos: int, interrupts_paragraph: bool)
    requires
        0 <= pos < line.len(),
        line_end_byte(line.last()),
    ensures
        marker_readable(line, pos, interrupts_paragraph),
{
    let last = line.len() - 1;
    assert(line[last] == line.last());
    if bullet_byte(line[pos]) {
        lemma_run_end(line, pos + 1, blanks());
        assert(run_end(line, pos + 1, blanks()) == line.len() ==> blanks()(line[last]));
    } else if digit_byte(line[pos]) {
        let e = marker_digits_end(line, pos);
        lemma_run_end(line, pos, digits());
        assert(run_end(line, pos, digits()) == line.len() ==> digits()(line[last]));
        if e + 1 < line.len() {
            lemma_run_end(line, e + 1, blanks());
            assert(run_end(line, e + 1, blanks()) == line.len() ==> blanks()(line[last]));
        }
    }
}

/// `n` digits write a number below `10` to the `n`.
pub proof fn lemma_number_bound(s: Seq<u8>, i: int, j: int)
    requires
        i <= j,
        forall|k: int| i <= k < j ==> digit_byte(#[trigger] s[k]),
    ensures
        0 <= number(s, i, j) < ten_to(j - i),
    decreases j - i,
{
    if i < j {
        lemma_number_bound(s, i, j - 1);
    }
}

/// Parses the list marker at `pos`.
pub fn parse_list_marker(line: &[u8], pos: usize, interrupts_paragraph: bool) -> (r: Option<
    (usize, NodeList),
>)
    requires
        pos < line@.len(),
        marker_readable(line@, pos as int, interrupts_paragraph),
    ensures
        r == list_marker(line@, pos as int, interrupts_paragraph),
        r matches Some((n, _)) ==> 1 <= n <= 10 && pos + n < line@.len() && space_byte(
            line@[pos + n],
        ),
{
    let mut pos: usize = pos;
    let mut c: u8 = line[pos];
    let startpos: usize = pos;

    if c == 42 || c == 45 || c == 43 {
        pos += 1;
        if !isspace(line[pos]) {
            return None;
        }
        if interrupts_paragraph {
            let i: usize = skip_blanks(line, pos);
            proof {
                lemma_run_end(line@, pos as int, blanks());
            }
            if line[i] == 10 {
                return None;
            }
        }
        return Some(
            (
                pos - startpos,
                NodeList {
                    list_type: ListType::Bullet,
                    marker_offset: 0,
                    padding: 0,
                    start: 1,
                    delimiter: ListDelimType::Period,
                    bullet_char: c,
                    tight: false,
                },
            ),
        );
    } else if isdigit(c) {
        let mut start: usize = 0;
        let mut count: usize = 0;
        let ghost end = marker_digits_end(line@, startpos as int);
        while count < 9 && isdigit(line[pos])
            invariant
                0 <= count <= 9,
                pos == startpos + count,
                pos <= line@.len(),
                count < 9 ==> pos < line@.len(),
                end == marker_digits_end(line@, startpos as int),
                end < line@.len() || end == startpos + 9,
                forall|k: int| startpos <= k < pos ==> digit_byte(#[trigger] line@[k]),
                start == number(line@, startpos as int, pos as int),
            decreases 9 - count,
        {
            proof {
                lemma_number_bound(line@, startpos as int, pos as int);
                reveal_with_fuel(ten_to, 10);
                assert(ten_to(count as int) <= 100_000_000);
            }
            start = 10 * start + (line[pos] - 48) as usize;
            pos += 1;
            count += 1;
            proof {
                if pos == line@.len() {
                    lemma_run_end_is(line@, startpos as int, pos as int, digits());
                }
            }
        }
        let ghost e = pos as int;
        proof {
            lemma_number_bound(line@, startpos as int, pos as int);
            lemma_run_end(line@, startpos as int, digits());
            if count < 9 {
                lemma_run_end_is(line@, startpos as int, pos as int, digits());
            } else {
                let full = run_end(line@, startpos as int, digits());
                if full < startpos + 9 {
                    assert(digits()(line@[full]));
                }
            }
            assert(e == marker_digits_end(line@, startpos as int));
        }
        if interrupts_paragraph && start != 1 {
            return None;
        }
        c = line[pos];
        if c != 46 && c != 41 {
            return None;
        }
        pos += 1;
        if !isspace(line[pos]) {
            return None;
        }
        if interrupts_paragraph {
            let i: usize = skip_blanks(line, pos);
            proof {
                lemma_run_end(line@, pos as int, blanks());
            }
            if is_line_end_char(line[i]) {
                return None;
            }
        }
        return Some(
            (
                pos - startpos,
                NodeList {
                    list_type: ListType::Ordered,
                    marker_offset: 0,
                    padding: 0,
                    start,
                    delimiter: if c == 46 {
                        ListDelimType::Period
                    } else {
                        ListDelimType::Paren
                    },
                    bullet_char: 0,
                    tight: false,
                },
            ),
        );
    }
    None
}

/// A list marker is at most nine digits and a delimiter, and the number it writes is below
/// `1_000_000_000`.
pub proof fn law_list_marker_bounds(line: Seq<u8>, pos: int, interrupts_paragraph: bool)
    requires
        0 <= pos < line.len(),
        line_end_byte(line.last()),
    ensures
        list_marker(line, pos, interrupts_paragraph) matches Some((n, nl)) ==> {
            &&& 1 <= n <= 10
            &&& nl.list_type == ListType::Bullet ==> n == 1 && nl.start == 1
            &&& nl.list_type == ListType::Ordered ==> n >= 2 && nl.start < 1_000_000_000
        },
{
    let e = marker_digits_end(line, pos);
    lemma_run_end(line, pos, digits());
    lemma_number_bound(line, pos, e);
    reveal_with_fuel(ten_to, 10);
}

/// A marker that may interrupt a paragraph is one that is read the same elsewhere; an ordered
/// one starts at 1.
pub proof fn law_list_marker_interrupting(line: Seq<u8>, pos: int)
    ensures
        list_marker(line, pos, true) matches Some(m) ==> list_marker(line, pos, false) == Some(m)
            && (m.1.list_type == ListType::Ordered ==> m.1.start == 1),
{
}

} // verus!
