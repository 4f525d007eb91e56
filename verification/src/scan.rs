//! Byte searching over the input buffer.
//!
//! Both the chunk partitioner and the record scanner need the index of
//! the first occurrence of one byte in a slice; the searches are done by
//! outside routines whose results are pinned down here.

use vstd::prelude::*;
use bstr::ByteSlice;

verus! {

/// Relies on `memchr::memchr`: the index of the first occurrence of
/// `needle` in `haystack`, or `None` when the byte does not occur.
#[verifier::external_body]
pub(crate) fn memchr_first(needle: u8, haystack: &[u8]) -> (r: Option<usize>)
    ensures
        match r {
            Some(k) => k < haystack@.len() && haystack@[k as int] == needle && forall|j: int|
                0 <= j < k ==> haystack@[j] != needle,
            None => forall|j: int| 0 <= j < haystack@.len() ==> haystack@[j] != needle,
        },
{
    memchr::memchr(needle, haystack)
}

/// Relies on `bstr::ByteSlice::find_byte`: the index of the first
/// occurrence of `needle` in `haystack`, or `None` when the byte does
/// not occur.
#[verifier::external_body]
pub(crate) fn find_byte_first(haystack: &[u8], needle: u8) -> (r: Option<usize>)
    ensures
        match r {
            Some(k) => k < haystack@.len() && haystack@[k as int] == needle && forall|j: int|
                0 <= j < k ==> haystack@[j] != needle,
            None => forall|j: int| 0 <= j < haystack@.len() ==> haystack@[j] != needle,
        },
{
    haystack.find_byte(needle)
}

} // verus!
