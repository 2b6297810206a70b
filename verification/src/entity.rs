//! Character references of HTML.

use crate::ctype::{
    digit_byte, digits, hex_byte, isdigit, isxdigit, lemma_run_end, lemma_run_end_is, run_end,
};
use crate::markers::number;
use crate::text::{lemma_boundary_at_ascii, lemma_valid_concat, push_bytes};
use vstd::prelude::*;
use vstd::slice::slice_subrange;
use vstd::utf8::{encode_utf8, encode_utf8_valid_utf8, valid_utf8, valid_utf8_split};

verus! {

/// How many named references there are.
pub const ENTITY_COUNT: usize = 2231;

/// No name is longer than this.
pub const ENTITY_MAX_LENGTH: usize = 32;

/// The first value that is no code point.
pub const CODE_POINT_END: u32 = 0x11_0000;

/// The named reference at an index of the table, with its `&` and its `;`, and the text that
/// it stands for.
pub uninterp spec fn entity(k: int) -> (Seq<char>, Seq<char>);

/// The named reference at `k`, and the text that it stands for.
///
/// Reads `entities::ENTITIES`, the table of the references of HTML 5: the fields `entity` and
/// `characters` of its entry at `k`, which are given the name [`entity`].
#[verifier::external_body]
fn entity_at(k: usize) -> (r: (&'static str, &'static str))
    requires
        k < ENTITY_COUNT,
    ensures
        (r.0@, r.1@) == entity(k as int),
{
    (entities::ENTITIES[k].entity, entities::ENTITIES[k].characters)
}

/// The character with the code point `v`.
///
/// Calls `char::from_u32`, which gives the character for every value that is a code point and
/// no surrogate.
#[verifier::external_body]
fn char_from(v: u32) -> (r: char)
    requires
        v < CODE_POINT_END,
        !(0xD800 <= v <= 0xDFFF),
    ensures
        r == v as char,
{
    char::from_u32(v).unwrap()
}

/// `String::push` puts the character behind those that the string holds.
pub assume_specification[ String::push ](s: &mut String, c: char)
    ensures
        final(s)@ == old(s)@.push(c),
;

/// The class of hexadecimal digits.
pub open spec fn hexes() -> spec_fn(u8) -> bool {
    |b: u8| hex_byte(b)
}

/// The value of a hexadecimal digit.
pub open spec fn hex_value(b: u8) -> int {
    if b <= 57 {
        b - 48
    } else if b <= 70 {
        b - 55
    } else {
        b - 87
    }
}

/// The number that the hexadecimal digits of `s` from `i` up to `j` write.
pub open spec fn hex_number(s: Seq<u8>, i: int, j: int) -> int
    decreases j - i,
{
    if i < j {
        16 * hex_number(s, i, j - 1) + hex_value(s[j - 1])
    } else {
        0
    }
}

/// The character that a numeric reference to `v` stands for: the replacement character where
/// `v` is no character.
pub open spec fn referenced_char(v: int) -> char {
    if v == 0 || 0xD800 <= v <= 0xDFFF || v >= CODE_POINT_END {
        '\u{FFFD}'
    } else {
        v as char
    }
}

/// A numeric reference at the start of `t`, behind its `&`: the value it writes, and the bytes
/// it takes.
pub open spec fn numeric_reference(t: Seq<u8>) -> Option<(int, int)> {
    if t.len() >= 3 && t[0] == 35 {
        if digit_byte(t[1]) {
            let e = run_end(t, 1, digits());
            if e - 1 <= 8 && e < t.len() && t[e] == 59 {
                Some((number(t, 1, e), e + 1))
            } else {
                None
            }
        } else if t[1] == 120 || t[1] == 88 {
            let e = run_end(t, 2, hexes());
            if 1 <= e - 2 <= 8 && e < t.len() && t[e] == 59 {
                Some((hex_number(t, 2, e), e + 1))
            } else {
                None
            }
        } else {
            None
        }
    } else {
        None
    }
}

/// The text of the first named reference from `k` on that has the name `name`.
pub open spec fn entity_text_from(name: Seq<u8>, k: int) -> Option<Seq<u8>>
    decreases ENTITY_COUNT - k,
{
    if k < 0 || k >= ENTITY_COUNT {
        None
    } else if encode_utf8(entity(k).0) == seq![38u8] + name + seq![59u8] {
        Some(encode_utf8(entity(k).1))
    } else {
        entity_text_from(name, k + 1)
    }
}

/// Bytes that a name is searched over.
pub open spec fn name_bytes() -> spec_fn(u8) -> bool {
    |b: u8| b != 32 && b != 59
}

/// A named reference at the start of `t`, behind its `&`: its text, and the bytes it takes.
pub open spec fn named_reference(t: Seq<u8>) -> Option<(Seq<u8>, int)> {
    let e = run_end(t, 2, name_bytes());
    if t.len() >= 2 && e < t.len() && e < ENTITY_MAX_LENGTH && t[e] == 59 {
        match entity_text_from(t.subrange(0, e), 0) {
            Some(text) => Some((text, e + 1)),
            None => None,
        }
    } else {
        None
    }
}

/// A reference at the start of `t`, behind its `&`: the text it stands for, and the bytes it
/// takes.
pub open spec fn reference(t: Seq<u8>) -> Option<(Seq<u8>, int)> {
    match numeric_reference(t) {
        Some((v, n)) => Some((encode_utf8(seq![referenced_char(v)]), n)),
        None => named_reference(t),
    }
}

/// `s` from `i` on, with the references in it replaced by what they stand for.
pub open spec fn html_unescaped_from(s: Seq<u8>, i: int) -> Seq<u8>
    decreases s.len() - i,
{
    if i < 0 || i >= s.len() {
        seq![]
    } else if s[i] == 38 {
        match reference(s.subrange(i + 1, s.len() as int)) {
            Some((text, n)) => if n > 0 {
                text + html_unescaped_from(s, i + 1 + n)
            } else {
                seq![]
            },
            None => seq![38u8] + html_unescaped_from(s, i + 1),
        }
    } else {
        seq![s[i]] + html_unescaped_from(s, i + 1)
    }
}

/// `s` with the references in it replaced by what they stand for.
pub open spec fn html_unescaped(s: Seq<u8>) -> Seq<u8> {
    html_unescaped_from(s, 0)
}

/// A reference ends with a semicolon and stands for text.
pub proof fn lemma_reference(t: Seq<u8>)
    ensures
        reference(t) matches Some((text, n)) ==> {
            &&& 3 <= n <= t.len()
            &&& t[n - 1] == 59
            &&& valid_utf8(text)
        },
    decreases t.len(),
{
    if t.len() >= 2 {
        lemma_run_end(t, 1, digits());
        lemma_run_end(t, 2, hexes());
        lemma_run_end(t, 2, name_bytes());
        lemma_entity_text_valid(t.subrange(0, run_end(t, 2, name_bytes())), 0);
        match numeric_reference(t) {
            Some((v, _)) => {
                encode_utf8_valid_utf8(seq![referenced_char(v)]);
            },
            None => {},
        }
    }
}

/// What a named reference stands for is text.
proof fn lemma_entity_text_valid(name: Seq<u8>, k: int)
    ensures
        entity_text_from(name, k) matches Some(text) ==> valid_utf8(text),
    decreases ENTITY_COUNT - k,
{
    if 0 <= k < ENTITY_COUNT {
        encode_utf8_valid_utf8(entity(k).1);
        lemma_entity_text_valid(name, k + 1);
    }
}

/// Replacing references behind a text keeps it text.
pub proof fn lemma_html_unescaped_valid(before: Seq<u8>, s: Seq<u8>, i: int)
    requires
        0 <= i <= s.len(),
        valid_utf8(before + s.subrange(i, s.len() as int)),
    ensures
        valid_utf8(before + html_unescaped_from(s, i)),
    decreases s.len() - i,
{
    let end = s.len() as int;
    let all = before + s.subrange(i, end);
    if i == s.len() {
        assert(all =~= before + html_unescaped_from(s, i));
    } else {
        let t = s.subrange(i + 1, end);
        lemma_reference(t);
        if s[i] == 38 && reference(t) is Some {
            let (text, n) = reference(t)->0;
            let at = before.len() as int;
            assert(all[at] == 38);
            lemma_boundary_at_ascii(all, at);
            valid_utf8_split(all, at);
            assert(all.subrange(0, at) =~= before);
            assert(all[at + n] == t[n - 1]);
            lemma_boundary_at_ascii(all, at + n);
            valid_utf8_split(all, at + n + 1);
            let rest = s.subrange(i + 1 + n, end);
            assert(all.subrange(at + n + 1, all.len() as int) =~= rest);
            lemma_valid_concat(before, text);
            lemma_valid_concat(before + text, rest);
            lemma_html_unescaped_valid(before + text, s, i + 1 + n);
            assert(before + text + html_unescaped_from(s, i + 1 + n) =~= before
                + html_unescaped_from(s, i));
        } else {
            let next = before.push(s[i]);
            assert(all =~= next + s.subrange(i + 1, end));
            lemma_html_unescaped_valid(next, s, i + 1);
            assert(next + html_unescaped_from(s, i + 1) =~= before + html_unescaped_from(s, i));
        }
    }
}

/// Decimal digits, and the number they write or, if smaller, the end of the code points.
fn decimal_value(t: &[u8], i: usize) -> (r: (usize, u32))
    requires
        i <= t@.len(),
    ensures
        r.0 == run_end(t@, i as int, digits()),
        i <= r.0 <= t@.len(),
        r.1 == number(t@, i as int, r.0 as int) || (r.1 == CODE_POINT_END && number(
            t@,
            i as int,
            r.0 as int,
        ) >= CODE_POINT_END),
{
    let mut e: usize = i;
    let mut v: u32 = 0;
    while e < t.len() && isdigit(t[e])
        invariant
            i <= e <= t@.len(),
            v <= CODE_POINT_END,
            forall|k: int| i <= k < e ==> digits()(#[trigger] t@[k]),
            v == number(t@, i as int, e as int) || (v == CODE_POINT_END && number(
                t@,
                i as int,
                e as int,
            ) >= CODE_POINT_END),
        decreases t@.len() - e,
    {
        v = v * 10 + (t[e] - 48) as u32;
        if v > CODE_POINT_END {
            v = CODE_POINT_END;
        }
        e += 1;
    }
    proof {
        lemma_run_end_is(t@, i as int, e as int, digits());
    }
    (e, v)
}

/// Hexadecimal digits, and the number they write or, if smaller, the end of the code points.
fn hexadecimal_value(t: &[u8], i: usize) -> (r: (usize, u32))
    requires
        i <= t@.len(),
    ensures
        r.0 == run_end(t@, i as int, hexes()),
        i <= r.0 <= t@.len(),
        r.1 == hex_number(t@, i as int, r.0 as int) || (r.1 == CODE_POINT_END && hex_number(
            t@,
            i as int,
            r.0 as int,
        ) >= CODE_POINT_END),
{
    let mut e: usize = i;
    let mut v: u32 = 0;
    while e < t.len() && isxdigit(t[e])
        invariant
            i <= e <= t@.len(),
            v <= CODE_POINT_END,
            forall|k: int| i <= k < e ==> hexes()(#[trigger] t@[k]),
            v == hex_number(t@, i as int, e as int) || (v == CODE_POINT_END && hex_number(
                t@,
                i as int,
                e as int,
            ) >= CODE_POINT_END),
        decreases t@.len() - e,
    {
        let b: u8 = t[e];
        let d: u8 = if b <= 57 {
            b - 48
        } else if b <= 70 {
            b - 55
        } else {
            b - 87
        };
        v = v * 16 + d as u32;
        if v > CODE_POINT_END {
            v = CODE_POINT_END;
        }
        e += 1;
    }
    proof {
        lemma_run_end_is(t@, i as int, e as int, hexes());
    }
    (e, v)
}

/// The bytes of the character that a numeric reference stands for.
fn character_bytes(v: u32, Ghost(n): Ghost<int>) -> (r: Vec<u8>)
    requires
        v == n || (v == CODE_POINT_END && n >= CODE_POINT_END),
    ensures
        r@ == encode_utf8(seq![referenced_char(n)]),
{
    let c: char = if v == 0 || (0xD800 <= v && v <= 0xDFFF) || v >= CODE_POINT_END {
        '\u{FFFD}'
    } else {
        char_from(v)
    };
    let mut s: String = String::new();
    s.push(c);
    proof {
        assert(s@ =~= seq![referenced_char(n)]);
    }
    vstd::slice::slice_to_vec(s.as_str().as_bytes())
}

/// Whether `whole` is `name` between `&` and `;`.
pub fn names(whole: &[u8], name: &[u8]) -> (r: bool)
    ensures
        r == (whole@ == seq![38u8] + name@ + seq![59u8]),
{
    let ghost wanted = seq![38u8] + name@ + seq![59u8];
    if whole.len() < 2 || whole.len() - 2 != name.len() {
        return false;
    }
    if whole[0] != 38 {
        proof {
            assert(wanted[0] == 38);
        }
        return false;
    }
    let n: usize = name.len();
    let mut k: usize = 0;
    while k < n
        invariant
            n == name@.len(),
            wanted == seq![38u8] + name@ + seq![59u8],
            whole@.len() == n + 2,
            k <= n,
            forall|m: int| 0 <= m < k ==> whole@[m + 1] == #[trigger] name@[m],
        decreases n - k,
    {
        if whole[k + 1] != name[k] {
            proof {
                assert(wanted[k + 1] == name@[k as int]);
            }
            return false;
        }
        k += 1;
    }
    if whole[n + 1] != 59 {
        proof {
            assert(wanted[n + 1] == 59);
        }
        return false;
    }
    proof {
        assert forall|i: int| 0 <= i < whole@.len() implies whole@[i] == wanted[i] by {
            if 0 < i < n + 1 {
                assert(whole@[(i - 1) + 1] == name@[i - 1]);
            }
        }
        assert(whole@ =~= wanted);
    }
    true
}

/// The text of the named reference `name`.
fn lookup(name: &[u8]) -> (r: Option<Vec<u8>>)
    ensures
        match r {
            Some(text) => entity_text_from(name@, 0) == Some(text@),
            None => entity_text_from(name@, 0) is None,
        },
{
    let mut k: usize = 0;
    while k < ENTITY_COUNT
        invariant
            k <= ENTITY_COUNT,
            entity_text_from(name@, 0) == entity_text_from(name@, k as int),
        decreases ENTITY_COUNT - k,
    {
        let (whole, text) = entity_at(k);
        if names(whole.as_bytes(), name) {
            return Some(vstd::slice::slice_to_vec(text.as_bytes()));
        }
        k += 1;
    }
    None
}

/// Reads the reference at the start of `text`, behind its `&`.
pub fn unescape(text: &[u8]) -> (r: Option<(Vec<u8>, usize)>)
    ensures
        match r {
            Some((v, n)) => reference(text@) == Some((v@, n as int)),
            None => reference(text@) is None,
        },
{
    proof {
        lemma_reference(text@);
    }
    if text.len() >= 3 && text[0] == 35 {
        if isdigit(text[1]) {
            let (e, v) = decimal_value(text, 1);
            if e - 1 <= 8 && e < text.len() && text[e] == 59 {
                return Some((character_bytes(v, Ghost(number(text@, 1, e as int))), e + 1));
            }
        } else if text[1] == 120 || text[1] == 88 {
            let (e, v) = hexadecimal_value(text, 2);
            if e - 2 >= 1 && e - 2 <= 8 && e < text.len() && text[e] == 59 {
                return Some((character_bytes(v, Ghost(hex_number(text@, 2, e as int))), e + 1));
            }
        }
    }
    if text.len() < 2 {
        return None;
    }
    let mut e: usize = 2;
    while e < text.len() && text[e] != 32 && text[e] != 59
        invariant
            2 <= e <= text@.len(),
            forall|k: int| 2 <= k < e ==> name_bytes()(#[trigger] text@[k]),
        decreases text@.len() - e,
    {
        e += 1;
    }
    proof {
        lemma_run_end_is(text@, 2, e as int, name_bytes());
    }
    if e < text.len() && e < ENTITY_MAX_LENGTH && text[e] == 59 {
        match lookup(slice_subrange(text, 0, e)) {
            Some(v) => Some((v, e + 1)),
            None => None,
        }
    } else {
        None
    }
}

/// A copy of `src` with the references in it replaced by what they stand for.
pub fn unescape_html(src: &[u8]) -> (r: Vec<u8>)
    ensures
        r@ == html_unescaped(src@),
        valid_utf8(src@) ==> valid_utf8(r@),
{
    let mut v: Vec<u8> = Vec::new();
    let mut i: usize = 0;
    while i < src.len()
        invariant
            i <= src@.len(),
            html_unescaped(src@) == v@ + html_unescaped_from(src@, i as int),
        decreases src@.len() - i,
    {
        let ghost before = v@;
        let ghost at = i as int;
        if src[i] == 38 {
            let rest: &[u8] = slice_subrange(src, i + 1, src.len());
            proof {
                lemma_reference(rest@);
            }
            match unescape(rest) {
                Some((text, n)) => {
                    push_bytes(&mut v, text.as_slice());
                    i = i + 1 + n;
                    proof {
                        assert(v@ + html_unescaped_from(src@, i as int) =~= before
                            + html_unescaped_from(src@, at));
                    }
                },
                None => {
                    v.push(38);
                    i += 1;
                    proof {
                        assert(v@ + html_unescaped_from(src@, i as int) =~= before
                            + html_unescaped_from(src@, at));
                    }
                },
            }
        } else {
            v.push(src[i]);
            i += 1;
            proof {
                assert(v@ + html_unescaped_from(src@, i as int) =~= before + html_unescaped_from(
                    src@,
                    at,
                ));
            }
        }
    }
    proof {
        assert(v@ =~= html_unescaped(src@));
        if valid_utf8(src@) {
            let none = Seq::<u8>::empty();
            assert(none + src@.subrange(0, src@.len() as int) =~= src@);
            lemma_html_unescaped_valid(none, src@, 0);
            assert(none + html_unescaped_from(src@, 0) =~= v@);
        }
    }
    v
}

} // verus!
