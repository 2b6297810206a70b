//! What a list marker is.

use crate::ctype::{blanks, digits, lemma_run_end_is};
use crate::laws::words::{
    blank, blanks_between, law_classes, numeral, white, CLOSE_PAREN, HYPHEN, LINE_FEED, PERIOD,
    PLUS, RETURN, STAR,
};
use crate::markers::{list_marker, number};
use crate::nodes::{ListDelimType, ListType};
use vstd::prelude::*;

verus! {

/// A bullet is a star, a plus sign or a hyphen with white space behind it. Each makes an item of
/// a bullet list, whose bullet it is. Only where nothing but blanks and a line feed follow does
/// it not interrupt a paragraph. `e` is the first byte behind it that is no blank.
pub proof fn law_bullet(line: Seq<u8>, pos: int, e: int)
    requires
        0 <= pos < e < line.len(),
        line[pos] == STAR || line[pos] == PLUS || line[pos] == HYPHEN,
        blanks_between(line, pos + 1, e),
        !blank(line[e]),
    ensures
        list_marker(line, pos, false) is Some <==> white(line[pos + 1]),
        list_marker(line, pos, true) is Some <==> white(line[pos + 1]) && line[e] != LINE_FEED,
        forall|interrupts: bool|
            (#[trigger] list_marker(line, pos, interrupts)) matches Some((n, nl)) ==> {
                &&& n == 1
                &&& nl.list_type == ListType::Bullet
                &&& nl.bullet_char == line[pos]
            },
{
    law_classes(line[pos + 1]);
    assert forall|k: int| pos + 1 <= k < e implies blanks()(#[trigger] line[k]) by {
        law_classes(line[k]);
    }
    law_classes(line[e]);
    lemma_run_end_is(line, pos + 1, e, blanks());
}

/// An ordered marker is from one to nine digits and a period or a parenthesis, with white space
/// behind it. It makes an item of an ordered list that starts with the number the digits write.
/// It interrupts a paragraph only with the number one, and only where more than blanks and a line
/// end follow. `d` is the first byte that is no digit, and `e` the first one behind the marker
/// that is no blank.
pub proof fn law_ordered(line: Seq<u8>, pos: int, d: int, e: int)
    requires
        0 <= pos < d,
        d + 1 <= e < line.len(),
        forall|k: int| pos <= k < d ==> numeral(#[trigger] line[k]),
        !numeral(line[d]),
        blanks_between(line, d + 1, e),
        !blank(line[e]),
    ensures
        ({
            let marks = d - pos <= 9 && (line[d] == PERIOD
                || line[d] == CLOSE_PAREN) && white(line[d + 1]);
            let first = number(line, pos, d) == 1 && line[e] != LINE_FEED && line[e] != RETURN;
            &&& list_marker(line, pos, false) is Some <==> marks
            &&& list_marker(line, pos, true) is Some <==> marks && first
        }),
        forall|interrupts: bool|
            (#[trigger] list_marker(line, pos, interrupts)) matches Some((n, nl)) ==> {
                &&& n == d + 1 - pos
                &&& nl.list_type == ListType::Ordered
                &&& nl.start == number(line, pos, d)
                &&& nl.delimiter == ListDelimType::Period <==> line[d] == PERIOD
                &&& nl.delimiter == ListDelimType::Paren <==> line[d] == CLOSE_PAREN
            },
{
    assert forall|k: int| pos <= k < d implies digits()(#[trigger] line[k]) by {
        law_classes(line[k]);
    }
    law_classes(line[pos]);
    law_classes(line[d]);
    lemma_run_end_is(line, pos, d, digits());
    law_classes(line[d + 1]);
    assert forall|k: int| d + 1 <= k < e implies blanks()(#[trigger] line[k]) by {
        law_classes(line[k]);
    }
    law_classes(line[e]);
    lemma_run_end_is(line, d + 1, e, blanks());
    if d - pos > 9 {
        assert(numeral(line[pos + 9]));
    } else {
        crate::markers::lemma_number_bound(line, pos, d);
        reveal_with_fuel(crate::markers::ten_to, 10);
    }
}

/// Nothing else is a list marker.
pub proof fn law_no_other_marker(line: Seq<u8>, pos: int, interrupts: bool)
    requires
        0 <= pos < line.len(),
        !numeral(line[pos]),
        line[pos] != STAR && line[pos] != PLUS && line[pos] != HYPHEN,
    ensures
        list_marker(line, pos, interrupts) is None,
{
    law_classes(line[pos]);
}

} // verus!
