//! What front matter is.

use crate::front::{front_end, line_of, next_line_of};
use crate::laws::words::{LINE_FEED, RETURN};
use vstd::prelude::*;

verus! {

/// Whether a line starts at `i`.
pub open spec fn line_starts(s: Seq<u8>, i: int) -> bool {
    i == 0 || 0 < i <= s.len() && s[i - 1] == LINE_FEED
}

/// Whether `d` alone stands from `i` up to `e`, with the line end behind it, if one follows.
pub open spec fn alone(s: Seq<u8>, i: int, d: Seq<u8>, e: int) -> bool {
    let n = i + d.len();
    &&& 0 <= i && n <= e <= s.len()
    &&& s.subrange(i, n) == d
    &&& e == n && e == s.len() || s.subrange(n, e) == seq![LINE_FEED] || s.subrange(n, e)
        == seq![RETURN, LINE_FEED]
}

/// Whether a line from `i` on holds `d` alone.
pub open spec fn closes(s: Seq<u8>, i: int, d: Seq<u8>) -> bool {
    line_starts(s, i) && exists|e: int| alone(s, i, d, e)
}

/// A line that holds `d` alone is seen as one.
proof fn lemma_line_of(s: Seq<u8>, i: int, d: Seq<u8>, e: int)
    requires
        0 <= i,
    ensures
        alone(s, i, d, e) <==> line_of(s, i, d) == Some(e),
{
    let n = i + d.len();
    if alone(s, i, d, e) {
        let t = s.subrange(n, e);
        if t.len() == 1 {
            assert(s[n] == t[0]);
        }
        if t.len() == 2 {
            assert(s[n] == t[0] && s[n + 1] == t[1]);
        }
        if e > n {
            assert(t.len() == 1 || t.len() == 2);
        }
    }
    if line_of(s, i, d) == Some(e) && e > n {
        if e == n + 1 {
            assert(s.subrange(n, e) =~= seq![LINE_FEED]);
        } else {
            assert(s.subrange(n, e) =~= seq![RETURN, LINE_FEED]);
        }
    }
}

/// The first line from `i` on that holds `d` alone is found.
proof fn lemma_next_line(s: Seq<u8>, i: int, d: Seq<u8>)
    requires
        0 <= i <= s.len(),
    ensures
        match next_line_of(s, i, d) {
            Some(e) => exists|j: int|
                {
                    &&& i <= j <= s.len()
                    &&& line_starts(s, j)
                    &&& #[trigger] alone(s, j, d, e)
                    &&& forall|k: int| i <= k < j ==> !#[trigger] closes(s, k, d)
                },
            None => forall|k: int| i <= k <= s.len() ==> !#[trigger] closes(s, k, d),
        },
    decreases s.len() - i,
{
    let found = line_of(s, i, d);
    if line_starts(s, i) && found is Some {
        lemma_line_of(s, i, d, found->0);
        assert(alone(s, i, d, found->0));
    } else {
        assert(!closes(s, i, d)) by {
            if closes(s, i, d) {
                let e = choose|e: int| alone(s, i, d, e);
                lemma_line_of(s, i, d, e);
            }
        }
        if i < s.len() {
            lemma_next_line(s, i + 1, d);
            match next_line_of(s, i + 1, d) {
                Some(e) => {
                    let j = choose|j: int|
                        {
                            &&& i + 1 <= j <= s.len()
                            &&& line_starts(s, j)
                            &&& #[trigger] alone(s, j, d, e)
                            &&& forall|k: int| i + 1 <= k < j ==> !#[trigger] closes(s, k, d)
                        };
                    assert(alone(s, j, d, e));
                },
                None => {},
            }
        } else {
            assert(next_line_of(s, i + 1, d) is None);
        }
    }
}

/// Front matter starts with a first line that holds the delimiter alone, and ends with the end of
/// the next line that does. No line between these two holds the delimiter alone: of several lines
/// that could close it, the first one does. Where no line closes it, there is none.
pub proof fn law_front_matter(s: Seq<u8>, d: Seq<u8>, a: int)
    requires
        alone(s, 0, d, a),
        a > d.len(),
    ensures
        match front_end(s, d) {
            Some(e) => exists|j: int|
                {
                    &&& a <= j <= s.len()
                    &&& line_starts(s, j)
                    &&& #[trigger] alone(s, j, d, e)
                    &&& forall|k: int| a <= k < j ==> !#[trigger] closes(s, k, d)
                },
            None => forall|k: int| a <= k <= s.len() ==> !#[trigger] closes(s, k, d),
        },
{
    lemma_line_of(s, 0, d, a);
    lemma_next_line(s, a, d);
}

/// A text that does not start with the delimiter and a line end has no front matter.
pub proof fn law_no_front_matter(s: Seq<u8>, d: Seq<u8>)
    requires
        forall|a: int| #[trigger] alone(s, 0, d, a) ==> a <= d.len(),
    ensures
        front_end(s, d) is None,
{
    match line_of(s, 0, d) {
        Some(a) => {
            lemma_line_of(s, 0, d, a);
            assert(alone(s, 0, d, a));
        },
        None => {},
    }
}

/// Front matter of any lines that are not the delimiter alone is split off as a whole, the lines
/// of the delimiter with it, whatever follows.
pub proof fn law_front_matter_split_off(s: Seq<u8>, d: Seq<u8>, a: int, j: int, e: int)
    requires
        alone(s, 0, d, a),
        d.len() < a <= j,
        line_starts(s, j),
        alone(s, j, d, e),
        forall|k: int| a <= k < j ==> !#[trigger] closes(s, k, d),
    ensures
        front_end(s, d) == Some(e),
{
    law_front_matter(s, d, a);
    assert(closes(s, j, d));
    match front_end(s, d) {
        Some(f) => {
            let i = choose|i: int|
                {
                    &&& a <= i <= s.len()
                    &&& line_starts(s, i)
                    &&& #[trigger] alone(s, i, d, f)
                    &&& forall|k: int| a <= k < i ==> !#[trigger] closes(s, k, d)
                };
            assert(closes(s, i, d));
            assert(i == j);
            lemma_line_of(s, j, d, e);
            lemma_line_of(s, j, d, f);
        },
        None => {},
    }
}

} // verus!
