//! SIMD-accelerated byte search from the `memchr` crate.
//!
//! Newline scanning and the inline tokenizer's trigger-byte scan go through
//! `memchr`; its documented semantics (index of the first occurrence, or
//! `None`) is assumed here and everything built on it is verified.

use vstd::prelude::*;

verus! {

/// Relies on memchr::memchr: the index of the first occurrence of `needle`
/// in `haystack`, or `None` when the byte does not occur.
pub assume_specification[ memchr::memchr ](needle: u8, haystack: &[u8]) -> (r: Option<usize>)
    ensures
        match r {
            Some(i) => i < haystack@.len() && haystack@[i as int] == needle && forall|j: int|
                0 <= j < i ==> haystack@[j] != needle,
            None => forall|j: int| 0 <= j < haystack@.len() ==> haystack@[j] != needle,
        },
;

/// Relies on memchr::memchr3: the index of the first occurrence of any of
/// the three needles in `haystack`, or `None` when none of them occurs.
pub assume_specification[ memchr::memchr3 ](
    needle1: u8,
    needle2: u8,
    needle3: u8,
    haystack: &[u8],
) -> (r: Option<usize>)
    ensures
        match r {
            Some(i) => {
                &&& i < haystack@.len()
                &&& (haystack@[i as int] == needle1 || haystack@[i as int] == needle2
                    || haystack@[i as int] == needle3)
                &&& forall|j: int|
                    0 <= j < i ==> haystack@[j] != needle1 && haystack@[j] != needle2
                        && haystack@[j] != needle3
            },
            None => forall|j: int|
                0 <= j < haystack@.len() ==> haystack@[j] != needle1 && haystack@[j] != needle2
                    && haystack@[j] != needle3,
        },
;

/// First position of byte `b` in `v[from..to]`, found with `memchr`.
pub fn memchr_in(v: &[u8], from: usize, to: usize, b: u8) -> (r: Option<usize>)
    requires
        from <= to <= v@.len(),
    ensures
        match r {
            Some(p) => from <= p < to && v@[p as int] == b && forall|j: int|
                from <= j < p ==> v@[j] != b,
            None => forall|j: int| from <= j < to ==> v@[j] != b,
        },
{
    let sub = vstd::slice::slice_subrange(v, from, to);
    let found = memchr::memchr(b, sub);
    match found {
        Some(i) => {
            proof {
                assert(sub@[i as int] == v@[from + i]);
                assert forall|j: int| from <= j < from + i implies v@[j] != b by {
                    assert(sub@[j - from] != b);
                }
            }
            Some(from + i)
        },
        None => {
            proof {
                assert forall|j: int| from <= j < to implies v@[j] != b by {
                    assert(sub@[j - from] != b);
                }
            }
            None
        },
    }
}

/// First position in `v[from..to]` holding any of three bytes, found with
/// `memchr3`.
pub fn memchr3_in(v: &[u8], from: usize, to: usize, b1: u8, b2: u8, b3: u8) -> (r: Option<usize>)
    requires
        from <= to <= v@.len(),
    ensures
        match r {
            Some(p) => from <= p < to && (v@[p as int] == b1 || v@[p as int] == b2 || v@[p as int]
                == b3) && forall|j: int|
                from <= j < p ==> v@[j] != b1 && v@[j] != b2 && v@[j] != b3,
            None => forall|j: int| from <= j < to ==> v@[j] != b1 && v@[j] != b2 && v@[j] != b3,
        },
{
    let sub = vstd::slice::slice_subrange(v, from, to);
    let found = memchr::memchr3(b1, b2, b3, sub);
    match found {
        Some(i) => {
            proof {
                assert(sub@[i as int] == v@[from + i]);
                assert forall|j: int|
                    from <= j < from + i implies v@[j] != b1 && v@[j] != b2 && v@[j] != b3 by {
                    assert(sub@[j - from] != b1 && sub@[j - from] != b2 && sub@[j - from] != b3);
                }
            }
            Some(from + i)
        },
        None => {
            proof {
                assert forall|j: int|
                    from <= j < to implies v@[j] != b1 && v@[j] != b2 && v@[j] != b3 by {
                    assert(sub@[j - from] != b1 && sub@[j - from] != b2 && sub@[j - from] != b3);
                }
            }
            None
        },
    }
}

} // verus!
