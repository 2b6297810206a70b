//! UTF-8 text as bytes.

use vstd::prelude::*;
use vstd::utf8::{
    decode_utf8, is_char_boundary, is_char_boundary_iff_not_is_continuation_byte,
    is_char_boundary_start_end_of_seq, is_continuation_byte, pop_first_scalar, valid_utf8,
    valid_utf8_concat, valid_utf8_split,
};

verus! {

/// Around an ASCII byte, characters start.
pub proof fn lemma_boundary_at_ascii(s: Seq<u8>, i: int)
    requires
        valid_utf8(s),
        0 <= i < s.len(),
        s[i] < 128,
    ensures
        is_char_boundary(s, i),
        is_char_boundary(s, i + 1),
{
    is_char_boundary_iff_not_is_continuation_byte(s, i);
    assert(!is_continuation_byte(s[i]));
    if i + 1 == s.len() {
        is_char_boundary_start_end_of_seq(s);
    } else {
        valid_utf8_split(s, i);
        let t = s.subrange(i, s.len() as int);
        assert(t[0] == s[i]);
        let u = pop_first_scalar(t);
        assert(u =~= s.subrange(i + 1, s.len() as int));
        assert(valid_utf8(u));
        assert(u[0] == s[i + 1]);
        assert(!is_continuation_byte(s[i + 1]));
        is_char_boundary_iff_not_is_continuation_byte(s, i + 1);
    }
}

/// What lies between two places where characters start is text.
pub proof fn lemma_valid_between(s: Seq<u8>, i: int, j: int)
    requires
        valid_utf8(s),
        0 <= i <= j <= s.len(),
        is_char_boundary(s, i),
        is_char_boundary(s, j),
    ensures
        valid_utf8(s.subrange(i, j)),
{
    valid_utf8_split(s, i);
    let t = s.subrange(i, s.len() as int);
    if j == s.len() {
        assert(t =~= s.subrange(i, j));
    } else {
        is_char_boundary_iff_not_is_continuation_byte(s, j);
        assert(t[j - i] == s[j]);
        is_char_boundary_iff_not_is_continuation_byte(t, j - i);
        valid_utf8_split(t, j - i);
        assert(t.subrange(0, j - i) =~= s.subrange(i, j));
    }
}

/// Bytes of ASCII are text.
pub proof fn lemma_valid_ascii(s: Seq<u8>)
    requires
        forall|i: int| 0 <= i < s.len() ==> #[trigger] s[i] < 128,
    ensures
        valid_utf8(s),
    decreases s.len(),
{
    if s.len() > 0 {
        let u = s.subrange(1, s.len() as int);
        lemma_valid_ascii(u);
        assert(pop_first_scalar(s) =~= u);
    }
}

/// Text with an ASCII byte behind it is text.
pub proof fn lemma_valid_push(s: Seq<u8>, b: u8)
    requires
        valid_utf8(s),
        b < 128,
    ensures
        valid_utf8(s.push(b)),
{
    lemma_valid_ascii(seq![b]);
    valid_utf8_concat(s, seq![b]);
    assert(s + seq![b] =~= s.push(b));
}

/// Text followed by text is text.
pub proof fn lemma_valid_concat(a: Seq<u8>, b: Seq<u8>)
    requires
        valid_utf8(a),
        valid_utf8(b),
    ensures
        valid_utf8(a + b),
{
    valid_utf8_concat(a, b);
}

/// The text that the bytes encode.
///
/// Calls `String::from_utf8`, which hands back the string that the bytes encode, and an error
/// only where they are no valid UTF-8.
#[verifier::external_body]
pub(crate) fn string_from_utf8(bytes: Vec<u8>) -> (r: String)
    requires
        valid_utf8(bytes@),
    ensures
        r@ == decode_utf8(bytes@),
{
    String::from_utf8(bytes).unwrap()
}

/// Appends the bytes of `s` to `v`.
pub fn push_bytes(v: &mut Vec<u8>, s: &[u8])
    ensures
        final(v)@ == old(v)@ + s@,
{
    v.extend_from_slice(s);
    assert(v@ =~= old(v)@ + s@);
}

/// Copies the bytes of `s` from `i` up to `j`.
pub fn copy_range(s: &[u8], i: usize, j: usize) -> (r: Vec<u8>)
    requires
        i <= j <= s@.len(),
    ensures
        r@ == s@.subrange(i as int, j as int),
{
    vstd::slice::slice_to_vec(vstd::slice::slice_subrange(s, i, j))
}

} // verus!
