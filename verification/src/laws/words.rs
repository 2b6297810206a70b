//! Words in which the laws speak of bytes.

use crate::ctype::{
    alpha_byte, blank_byte, digit_byte, hex_byte, line_end_byte, lower_byte, punct_byte, space_byte,
};
use vstd::prelude::*;

verus! {

pub const TAB: u8 = 9;

pub const LINE_FEED: u8 = 10;

pub const RETURN: u8 = 13;

pub const SPACE: u8 = 32;

pub const BANG: u8 = 33;

pub const QUOTE: u8 = 34;

pub const HASH: u8 = 35;

pub const AMPERSAND: u8 = 38;

pub const APOSTROPHE: u8 = 39;

pub const OPEN_PAREN: u8 = 40;

pub const CLOSE_PAREN: u8 = 41;

pub const STAR: u8 = 42;

pub const PLUS: u8 = 43;

pub const HYPHEN: u8 = 45;

pub const PERIOD: u8 = 46;

pub const SLASH: u8 = 47;

pub const ZERO: u8 = 48;

pub const NINE: u8 = 57;

pub const COLON: u8 = 58;

pub const SEMICOLON: u8 = 59;

pub const LESS: u8 = 60;

pub const EQUALS: u8 = 61;

pub const GREATER: u8 = 62;

pub const QUESTION: u8 = 63;

pub const CAPITAL_A: u8 = 65;

pub const CAPITAL_F: u8 = 70;

pub const CAPITAL_X: u8 = 88;

pub const CAPITAL_Z: u8 = 90;

pub const OPEN_BRACKET: u8 = 91;

pub const BACKSLASH: u8 = 92;

pub const CLOSE_BRACKET: u8 = 93;

pub const CARET: u8 = 94;

pub const UNDERSCORE: u8 = 95;

pub const BACKTICK: u8 = 96;

pub const SMALL_A: u8 = 97;

pub const SMALL_F: u8 = 102;

pub const SMALL_X: u8 = 120;

pub const SMALL_Z: u8 = 122;

pub const BAR: u8 = 124;

pub const TILDE: u8 = 126;

/// Space or tab.
pub open spec fn blank(b: u8) -> bool {
    b == SPACE || b == TAB
}

/// Line feed or carriage return.
pub open spec fn line_end(b: u8) -> bool {
    b == LINE_FEED || b == RETURN
}

/// A blank, a line end, a vertical tab or a form feed.
pub open spec fn white(b: u8) -> bool {
    blank(b) || line_end(b) || b == 0x0b || b == 0x0c
}

/// A digit.
pub open spec fn numeral(b: u8) -> bool {
    ZERO <= b <= NINE
}

/// A capital.
pub open spec fn capital(b: u8) -> bool {
    CAPITAL_A <= b <= CAPITAL_Z
}

/// A letter.
pub open spec fn letter(b: u8) -> bool {
    capital(b) || SMALL_A <= b <= SMALL_Z
}

/// Whether all bytes of `s` from `i` up to `j` are blanks.
pub open spec fn blanks_between(s: Seq<u8>, i: int, j: int) -> bool {
    forall|k: int| i <= k < j ==> blank(#[trigger] s[k])
}

/// Whether all bytes of `s` are white space.
pub open spec fn all_white(s: Seq<u8>) -> bool {
    forall|k: int| 0 <= k < s.len() ==> white(#[trigger] s[k])
}

/// The classes of bytes: every byte that can be written is a blank or another white space, a
/// digit, a letter or punctuation, and none is two of these. A letter and its other case have
/// the same small letter.
pub proof fn law_classes(b: u8)
    ensures
        blank_byte(b) <==> blank(b),
        line_end_byte(b) <==> line_end(b),
        space_byte(b) <==> white(b),
        digit_byte(b) <==> numeral(b),
        alpha_byte(b) <==> letter(b),
        hex_byte(b) <==> numeral(b) || SMALL_A <= b <= SMALL_F || CAPITAL_A <= b <= CAPITAL_F,
        punct_byte(b) <==> 0x20 < b < 0x7f && !numeral(b) && !letter(b),
        capital(b) ==> lower_byte(b) == b - CAPITAL_A + SMALL_A,
        !capital(b) ==> lower_byte(b) == b,
{
}

} // verus!
