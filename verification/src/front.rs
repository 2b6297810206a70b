//! Front matter.

use crate::text::lemma_boundary_at_ascii;
use vstd::prelude::*;
use vstd::utf8::{
    decode_utf8_split, encode_utf8, encode_utf8_decode_utf8, encode_utf8_valid_utf8,
    is_char_boundary_start_end_of_seq,
};

verus! {

/// Whether `d` stands in `s` at `i`.
pub open spec fn follows(s: Seq<u8>, i: int, d: Seq<u8>) -> bool {
    0 <= i && i + d.len() <= s.len() && s.subrange(i, i + d.len()) == d
}

/// The end of the line that starts at `i`, if `d` is all that is on it.
pub open spec fn line_of(s: Seq<u8>, i: int, d: Seq<u8>) -> Option<int> {
    let e = i + d.len();
    if !follows(s, i, d) {
        None
    } else if e == s.len() {
        Some(e)
    } else if s[e] == 10 {
        Some(e + 1)
    } else if s[e] == 13 && e + 1 < s.len() && s[e + 1] == 10 {
        Some(e + 2)
    } else {
        None
    }
}

/// The end of the first line from `i` on that `d` is all that is on.
pub open spec fn next_line_of(s: Seq<u8>, i: int, d: Seq<u8>) -> Option<int>
    decreases s.len() + 1 - i,
{
    if i < 0 || i > s.len() {
        None
    } else if (i == 0 || s[i - 1] == 10) && line_of(s, i, d) is Some {
        line_of(s, i, d)
    } else {
        next_line_of(s, i + 1, d)
    }
}

/// Where front matter ends: at the end of the second line that the delimiter `d` is all that is
/// on. The first line is the first one of `s`.
pub open spec fn front_end(s: Seq<u8>, d: Seq<u8>) -> Option<int> {
    match line_of(s, 0, d) {
        Some(e) => if e > d.len() {
            next_line_of(s, e, d)
        } else {
            None
        },
        None => None,
    }
}

/// Where a line ends.
proof fn lemma_next_line_of(s: Seq<u8>, i: int, d: Seq<u8>)
    requires
        0 <= i,
    ensures
        next_line_of(s, i, d) matches Some(e) ==> i <= e <= s.len() && (e == s.len()
            || s[e - 1] == 10),
    decreases s.len() + 1 - i,
{
    if i <= s.len() && !((i == 0 || s[i - 1] == 10) && line_of(s, i, d) is Some) {
        lemma_next_line_of(s, i + 1, d);
    }
}

/// Whether `d` stands in `s` at `i`.
fn is_there(s: &[u8], i: usize, d: &[u8]) -> (r: bool)
    requires
        i <= s@.len(),
    ensures
        r == follows(s@, i as int, d@),
{
    let n: usize = s.len();
    if n - i < d.len() {
        return false;
    }
    let mut k: usize = 0;
    while k < d.len()
        invariant
            n == s@.len(),
            k <= d@.len(),
            i + d@.len() <= n,
            forall|j: int| 0 <= j < k ==> s@[i + j] == #[trigger] d@[j],
        decreases d@.len() - k,
    {
        if s[i + k] != d[k] {
            proof {
                if follows(s@, i as int, d@) {
                    assert(s@.subrange(i as int, i + d@.len())[k as int] == d@[k as int]);
                }
            }
            return false;
        }
        k += 1;
    }
    proof {
        assert(s@.subrange(i as int, i + d@.len()) =~= d@);
    }
    true
}

/// The end of the line that starts at `i`, if `d` is all that is on it.
fn scan_line_of(s: &[u8], i: usize, d: &[u8]) -> (r: Option<usize>)
    requires
        i <= s@.len(),
    ensures
        crate::scanners::index_of(r) == line_of(s@, i as int, d@),
        r matches Some(e) ==> e <= s@.len(),
{
    let n: usize = s.len();
    if !is_there(s, i, d) {
        return None;
    }
    let e: usize = i + d.len();
    if e == n {
        Some(e)
    } else if s[e] == 10 {
        Some(e + 1)
    } else if s[e] == 13 && n - e > 1 && s[e + 1] == 10 {
        Some(e + 2)
    } else {
        None
    }
}

/// Finds where front matter ends.
fn scan_front_end(s: &[u8], d: &[u8]) -> (r: Option<usize>)
    ensures
        crate::scanners::index_of(r) == front_end(s@, d@),
{
    let mut i: usize = match scan_line_of(s, 0, d) {
        Some(e) => if e > d.len() {
            e
        } else {
            return None;
        },
        None => return None,
    };
    let ghost start = i as int;
    let n: usize = s.len();
    loop
        invariant
            n == s@.len(),
            i <= n,
            next_line_of(s@, start, d@) == next_line_of(s@, i as int, d@),
            front_end(s@, d@) == next_line_of(s@, start, d@),
        decreases n - i,
    {
        if i == 0 || s[i - 1] == 10 {
            match scan_line_of(s, i, d) {
                Some(e) => return Some(e),
                None => {},
            }
        }
        if i == n {
            proof {
                assert(next_line_of(s@, i + 1, d@) is None);
            }
            return None;
        }
        i += 1;
    }
}

/// Splits front matter, which stands between two lines of the delimiter, off the start of `s`.
pub fn split_off_front_matter<'s>(s: &'s str, delimiter: &str) -> (r: Option<(&'s str, &'s str)>)
    ensures
        match front_end(encode_utf8(s@), encode_utf8(delimiter@)) {
            Some(e) => r matches Some((front, rest)) && encode_utf8(front@) == encode_utf8(
                s@,
            ).subrange(0, e) && encode_utf8(rest@) == encode_utf8(s@).subrange(
                e,
                encode_utf8(s@).len() as int,
            ),
            None => r is None,
        },
        r matches Some((front, rest)) ==> {
            &&& front@ + rest@ == s@
            &&& encode_utf8(front@) + encode_utf8(rest@) == encode_utf8(s@)
        },
{
    let bytes: &[u8] = s.as_bytes();
    match scan_front_end(bytes, delimiter.as_bytes()) {
        Some(e) => {
            proof {
                let all = encode_utf8(s@);
                let d = encode_utf8(delimiter@);
                encode_utf8_valid_utf8(s@);
                is_char_boundary_start_end_of_seq(all);
                lemma_next_line_of(all, line_of(all, 0, d)->0, d);
                if 0 < e < all.len() {
                    lemma_boundary_at_ascii(all, e - 1);
                }
                decode_utf8_split(all, e as int);
            }
            let (front, rest) = s.split_at(e);
            proof {
                encode_utf8_decode_utf8(s@);
                encode_utf8_decode_utf8(front@);
                encode_utf8_decode_utf8(rest@);
            }
            Some((front, rest))
        },
        None => None,
    }
}

} // verus!
