//! What character references stand for, and how numbers are written.

use crate::ctype::{digits, lemma_run_end, lemma_run_end_is, run_end};
use crate::entity::{
    entity, entity_text_from, hex_number, hexes, html_unescaped, html_unescaped_from, name_bytes,
    named_reference, numeric_reference, reference, referenced_char, ENTITY_COUNT,
};
use crate::footnotes::decimal;
use crate::laws::words::{
    law_classes, numeral, AMPERSAND, CAPITAL_A, CAPITAL_F, CAPITAL_X, HASH, SEMICOLON, SMALL_A,
    SMALL_F, SMALL_X, SPACE, ZERO,
};
use crate::markers::number;
use vstd::prelude::*;
use vstd::utf8::encode_utf8;

verus! {

/// The digit with the value `d`.
pub open spec fn digit_of(d: int, capitals: bool) -> u8 {
    if d < 10 {
        (ZERO + d) as u8
    } else if capitals {
        (CAPITAL_A + d - 10) as u8
    } else {
        (SMALL_A + d - 10) as u8
    }
}

/// `n` in decimal digits, or in hexadecimal ones.
pub open spec fn written(n: nat, hexadecimal: bool, capitals: bool) -> Seq<u8>
    decreases n,
{
    if n < 10 || hexadecimal && n < 16 {
        seq![digit_of(n as int, capitals)]
    } else if hexadecimal {
        written(n / 16, hexadecimal, capitals).push(digit_of((n % 16) as int, capitals))
    } else {
        written(n / 10, hexadecimal, capitals).push(digit_of((n % 10) as int, capitals))
    }
}

/// A number goes by its digits alone.
proof fn lemma_number_same(s: Seq<u8>, i: int, t: Seq<u8>, n: int)
    requires
        0 <= n <= t.len(),
        forall|k: int| 0 <= k < n ==> #[trigger] s[i + k] == t[k],
    ensures
        number(s, i, i + n) == number(t, 0, n),
        hex_number(s, i, i + n) == hex_number(t, 0, n),
    decreases n,
{
    if n > 0 {
        lemma_number_same(s, i, t, n - 1);
        assert(s[i + (n - 1)] == t[n - 1]);
    }
}

/// A number that is written in decimal digits is read as that number.
pub proof fn law_number_read(n: nat)
    ensures
        ({
            let s = written(n, false, false);
            &&& number(s, 0, s.len() as int) == n
            &&& forall|k: int| 0 <= k < s.len() ==> numeral(#[trigger] s[k])
        }),
    decreases n,
{
    if n >= 10 {
        law_number_read(n / 10);
        let t = written(n / 10, false, false);
        let s = written(n, false, false);
        assert(forall|k: int| 0 <= k < t.len() ==> #[trigger] s[0 + k] == t[k]);
        lemma_number_same(s, 0, t, t.len() as int);
    } else {
        let s = written(n, false, false);
        assert(number(s, 0, 0) == 0);
    }
}

/// A number that is written in hexadecimal digits is read as that number, in capitals or not.
pub proof fn law_hexadecimal_read(n: nat, capitals: bool)
    ensures
        ({
            let s = written(n, true, capitals);
            hex_number(s, 0, s.len() as int) == n
        }),
    decreases n,
{
    if n >= 16 {
        law_hexadecimal_read(n / 16, capitals);
        let t = written(n / 16, true, capitals);
        let s = written(n, true, capitals);
        assert(forall|k: int| 0 <= k < t.len() ==> #[trigger] s[0 + k] == t[k]);
        lemma_number_same(s, 0, t, t.len() as int);
    } else {
        let s = written(n, true, capitals);
        assert(hex_number(s, 0, 0) == 0);
    }
}

/// Numbers of footnotes are written in decimal digits.
pub proof fn law_decimal(n: nat)
    ensures
        decimal(n as int).len() == written(n, false, false).len(),
        forall|k: int|
            0 <= k < decimal(n as int).len() ==> #[trigger] decimal(n as int)[k] as int
                == written(n, false, false)[k] as int,
    decreases n,
{
    if n >= 10 {
        law_decimal(n / 10);
    }
}

/// A number sign, from one to eight decimal digits and a semicolon refer to the character of that
/// number; so do a number sign, an X and from one to eight hexadecimal digits.
pub proof fn law_numeric_reference(d: Seq<u8>, x: u8, rest: Seq<u8>)
    requires
        d.len() >= 1,
    ensures
        (forall|k: int| 0 <= k < d.len() ==> numeral(#[trigger] d[k])) ==> numeric_reference(
            seq![HASH] + d + seq![SEMICOLON] + rest,
        ) == if d.len() <= 8 {
            Some((number(d, 0, d.len() as int), d.len() as int + 2))
        } else {
            None
        },
        (x == SMALL_X || x == CAPITAL_X) && (forall|k: int|
            0 <= k < d.len() ==> numeral(#[trigger] d[k]) || SMALL_A <= d[k] <= SMALL_F
                || CAPITAL_A <= d[k]
                <= CAPITAL_F) ==> numeric_reference(seq![HASH, x] + d + seq![SEMICOLON]
                    + rest) == if d.len()
            <= 8 {
            Some((hex_number(d, 0, d.len() as int), d.len() as int + 3))
        } else {
            None
        },
{
    let n = d.len() as int;
    law_classes(SEMICOLON);
    if forall|k: int| 0 <= k < d.len() ==> numeral(#[trigger] d[k]) {
        let s = seq![HASH] + d + seq![SEMICOLON] + rest;
        assert forall|k: int| 1 <= k < n + 1 implies digits()(#[trigger] s[k]) by {
            assert(s[k] == d[k - 1]);
            law_classes(s[k]);
        }
        assert(s[1] == d[0]);
        law_classes(s[1]);
        assert(s[n + 1] == SEMICOLON);
        lemma_run_end_is(s, 1, n + 1, digits());
        assert(forall|k: int| 0 <= k < n ==> #[trigger] s[1 + k] == d[k]);
        lemma_number_same(s, 1, d, n);
    }
    if (x == SMALL_X || x == CAPITAL_X) && (forall|k: int|
        0 <= k < d.len() ==> numeral(#[trigger] d[k]) || SMALL_A <= d[k] <= SMALL_F
            || CAPITAL_A <= d[k]
            <= CAPITAL_F) {
        let s = seq![HASH, x] + d + seq![SEMICOLON] + rest;
        assert forall|k: int| 2 <= k < n + 2 implies hexes()(#[trigger] s[k]) by {
            assert(s[k] == d[k - 2]);
            law_classes(s[k]);
        }
        law_classes(x);
        assert(s[n + 2] == SEMICOLON);
        lemma_run_end_is(s, 2, n + 2, hexes());
        assert(forall|k: int| 0 <= k < n ==> #[trigger] s[2 + k] == d[k]);
        lemma_number_same(s, 2, d, n);
    }
}

/// A numeric reference stands for the character of its number. What is no character, and the NUL,
/// is replaced.
pub proof fn law_referenced_char(v: int, c: char)
    ensures
        v == c as int && v != 0 ==> referenced_char(v) == c,
        v == 0 ==> referenced_char(v) == '\u{fffd}',
        v > 0x10ffff || 0xd800 <= v <= 0xdfff ==> referenced_char(v) == '\u{fffd}',
{
}

/// A named reference stands for what the table has for its name, and for nothing where the table
/// does not have it.
proof fn lemma_entity_text(name: Seq<u8>, k: int)
    requires
        0 <= k <= ENTITY_COUNT,
    ensures
        match entity_text_from(name, k) {
            Some(text) => exists|j: int|
                k <= j < ENTITY_COUNT
                    && encode_utf8((#[trigger] entity(j)).0) == seq![AMPERSAND] + name
                    + seq![SEMICOLON] && text == encode_utf8(entity(j).1),
            None => forall|j: int|
                k <= j < ENTITY_COUNT
                    ==> encode_utf8((#[trigger] entity(j)).0) != seq![AMPERSAND] + name
                    + seq![SEMICOLON],
        },
    decreases ENTITY_COUNT - k,
{
    if k < ENTITY_COUNT {
        if encode_utf8(entity(k).0) != seq![AMPERSAND] + name + seq![SEMICOLON] {
            lemma_entity_text(name, k + 1);
        } else {
            assert(encode_utf8(entity(k).0) == seq![AMPERSAND] + name + seq![SEMICOLON]);
        }
    }
}

/// A name of the table, from two to 31 bytes without a space or a semicolon, and a semicolon behind
/// it stand for what the table says. A name that is not in the table stands for nothing.
pub proof fn law_named_reference(name: Seq<u8>, rest: Seq<u8>)
    requires
        2 <= name.len() < 32,
        forall|k: int| 2 <= k < name.len() ==> #[trigger] name[k] != SPACE && name[k] != SEMICOLON,
    ensures
        match named_reference(name + seq![SEMICOLON] + rest) {
            Some((text, n)) => {
                &&& n == name.len() + 1
                &&& exists|j: int|
                    0 <= j < 2231 && encode_utf8((#[trigger] entity(j)).0) == seq![AMPERSAND]
                        + name + seq![SEMICOLON] && text == encode_utf8(entity(j).1)
            },
            None => forall|j: int|
                0 <= j < 2231 ==> encode_utf8((#[trigger] entity(j)).0) != seq![AMPERSAND] + name
                    + seq![SEMICOLON],
        },
{
    let t = name + seq![SEMICOLON] + rest;
    let n = name.len() as int;
    assert forall|k: int| 2 <= k < n implies name_bytes()(#[trigger] t[k]) by {
        assert(t[k] == name[k]);
    }
    assert(t[n] == SEMICOLON);
    lemma_run_end_is(t, 2, n, name_bytes());
    assert(t.subrange(0, n) =~= name);
    lemma_entity_text(name, 0);
}

/// A name ends with the first semicolon from its third byte on, and no space comes before that.
pub proof fn law_name_in_reference(t: Seq<u8>)
    ensures
        named_reference(t) matches Some((_, n)) ==> {
            &&& 2 < n <= 32
            &&& n <= t.len()
            &&& t[n - 1] == SEMICOLON
            &&& forall|k: int| 2 <= k < n - 1 ==> #[trigger] t[k] != SPACE && t[k] != SEMICOLON
        },
{
    if t.len() >= 2 {
        lemma_run_end(t, 2, name_bytes());
        let e = run_end(t, 2, name_bytes());
        assert forall|k: int| 2 <= k < e implies #[trigger] t[k] != SPACE && t[k] != SEMICOLON by {
            assert(name_bytes()(t[k]));
        }
    }
}

/// Bytes in front change nothing behind them.
proof fn lemma_html_behind(a: Seq<u8>, s: Seq<u8>, i: int)
    requires
        0 <= i,
    ensures
        html_unescaped_from(a + s, a.len() + i) == html_unescaped_from(s, i),
    decreases s.len() - i,
{
    if i < s.len() {
        assert((a + s)[a.len() + i] == s[i]);
        assert((a + s).subrange(a.len() + i + 1, (a + s).len() as int) =~= s.subrange(
            i + 1,
            s.len() as int,
        ));
        if s[i] == AMPERSAND {
            match reference(s.subrange(i + 1, s.len() as int)) {
                Some((text, n)) => {
                    if n > 0 {
                        lemma_html_behind(a, s, i + 1 + n);
                    }
                },
                None => {
                    lemma_html_behind(a, s, i + 1);
                },
            }
        } else {
            lemma_html_behind(a, s, i + 1);
        }
    }
}

/// Text before the first ampersand is kept.
proof fn lemma_html_kept(a: Seq<u8>, s: Seq<u8>, i: int)
    requires
        forall|k: int| 0 <= k < a.len() ==> #[trigger] a[k] != AMPERSAND,
        0 <= i <= a.len(),
    ensures
        html_unescaped_from(a + s, i) == a.skip(i) + html_unescaped(s),
    decreases a.len() - i,
{
    if i < a.len() {
        assert((a + s)[i] == a[i]);
        lemma_html_kept(a, s, i + 1);
        assert(seq![a[i]] + (a.skip(i + 1) + html_unescaped(s)) =~= a.skip(i) + html_unescaped(
            s,
        ));
    } else {
        lemma_html_behind(a, s, 0);
        assert(a.skip(i) + html_unescaped(s) =~= html_unescaped(s));
    }
}

/// References in a text are replaced by what they stand for, and nothing else is changed: a text
/// without an ampersand stays as it is, and so does an ampersand that starts no reference.
pub proof fn law_html_unescaped(a: Seq<u8>, t: Seq<u8>)
    requires
        forall|k: int| 0 <= k < a.len() ==> #[trigger] a[k] != AMPERSAND,
    ensures
        html_unescaped(a) == a,
        match reference(t) {
            Some((text, n)) => 0 < n <= t.len()
                ==> html_unescaped(a + seq![AMPERSAND] + t) == a + text
                + html_unescaped(t.skip(n)),
            None => html_unescaped(a + seq![AMPERSAND] + t) == a.push(AMPERSAND)
                + html_unescaped(t),
        },
{
    let none: Seq<u8> = seq![];
    lemma_html_kept(a, none, 0);
    assert(a + none =~= a);
    assert(a.skip(0) + html_unescaped(none) =~= a);
    let s = seq![AMPERSAND] + t;
    assert(a + seq![AMPERSAND] + t =~= a + s);
    lemma_html_kept(a, s, 0);
    assert(a.skip(0) =~= a);
    assert(s.subrange(1, s.len() as int) =~= t);
    match reference(t) {
        Some((text, n)) => {
            if 0 < n <= t.len() {
                let rest = t.skip(n);
                assert(s =~= (seq![AMPERSAND] + t.take(n)) + rest);
                lemma_html_behind(seq![AMPERSAND] + t.take(n), rest, 0);
                assert(a + (text + html_unescaped(rest)) =~= a + text + html_unescaped(rest));
            }
        },
        None => {
            lemma_html_behind(seq![AMPERSAND], t, 0);
            assert(a + (seq![AMPERSAND] + html_unescaped(t)) =~= a.push(AMPERSAND)
                + html_unescaped(t));
        },
    }
}

/// A reference is a numeric one, and stands for one character then, or else a named one.
pub proof fn law_reference(t: Seq<u8>)
    ensures
        match numeric_reference(t) {
            Some((v, n)) => reference(t) == Some((encode_utf8(seq![referenced_char(v)]), n)),
            None => reference(t) == named_reference(t),
        },
{
}

} // verus!
