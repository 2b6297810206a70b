//! Optional values written through references.

use vstd::prelude::*;

verus! {

/// Writes the value of `t`, where there is one, to `out`.
pub fn unwrap_into<T>(t: Option<T>, out: &mut T) -> (r: bool)
    ensures
        r == t is Some,
        *final(out) == (match t {
            Some(v) => v,
            None => *old(out),
        }),
{
    match t {
        Some(v) => {
            *out = v;
            true
        },
        _ => false,
    }
}

/// Copies the value that `t` refers to, where there is one, to `out`.
pub fn unwrap_into_copy<T: Copy>(t: Option<&T>, out: &mut T) -> (r: bool)
    ensures
        r == t is Some,
        *final(out) == (match t {
            Some(v) => *v,
            None => *old(out),
        }),
{
    match t {
        Some(v) => {
            *out = *v;
            true
        },
        _ => false,
    }
}

/// Writes the two values of `tu`, where there are any, to `out_t` and `out_u`.
pub fn unwrap_into_2<T, U>(tu: Option<(T, U)>, out_t: &mut T, out_u: &mut U) -> (r: bool)
    ensures
        r == tu is Some,
        (*final(out_t), *final(out_u)) == (match tu {
            Some(v) => v,
            None => (*old(out_t), *old(out_u)),
        }),
{
    match tu {
        Some((t, u)) => {
            *out_t = t;
            *out_u = u;
            true
        },
        _ => false,
    }
}

} // verus!
