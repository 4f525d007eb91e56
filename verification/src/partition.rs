//! The chunk partitioner.
//!
//! The byte range of the input is split into at most `workers` disjoint,
//! record-aligned sub-ranges. The candidate split point for worker `i`
//! is `len * i / workers`; the actual split is moved forward to the byte
//! just after the next line terminator, so that no record is ever
//! bisected. Empty candidate ranges are dropped. The partition fails
//! when some candidate has no terminator anywhere after it (a malformed
//! or truncated input).

use vstd::prelude::*;
use vstd::arithmetic::div_mod::lemma_div_is_ordered;
use vstd::arithmetic::div_mod::lemma_div_multiples_vanish;
use vstd::arithmetic::mul::lemma_mul_inequality;
use vstd::arithmetic::mul::lemma_mul_upper_bound;
use vstd::slice::slice_subrange;
use crate::ScanError;
use crate::scan::memchr_first;

verus! {

/// Index of the first line terminator (ASCII 10) at or after `from`.
pub open spec fn first_nl_from(s: Seq<u8>, from: int) -> Option<int>
    decreases s.len() - from,
{
    if from < 0 || from >= s.len() {
        None
    } else if s[from] == 10 {
        Some(from)
    } else {
        first_nl_from(s, from + 1)
    }
}

/// The ideal split point for worker `i` of `w`.
pub open spec fn split_cand(s: Seq<u8>, i: int, w: int) -> int {
    s.len() * i / w
}

/// The record-aligned split offset for worker `i`: byte 0 for the first
/// worker, otherwise the byte just after the first terminator at or
/// after the ideal split point.
pub open spec fn split_offset(s: Seq<u8>, i: int, w: int) -> Option<int> {
    if i == 0 {
        Some(0)
    } else {
        match first_nl_from(s, split_cand(s, i, w)) {
            Some(j) => Some(j + 1),
            None => None,
        }
    }
}

/// Every worker's split offset exists.
pub open spec fn splits_ok(s: Seq<u8>, w: int) -> bool {
    forall|i: int| 1 <= i < w ==> (#[trigger] split_offset(s, i, w)) is Some
}

/// The split offset of worker `i`, extended with the buffer length as
/// the offset one past the last worker.
pub open spec fn off_ext(s: Seq<u8>, i: int, w: int) -> int {
    if i < w {
        split_offset(s, i, w).unwrap()
    } else {
        s.len() as int
    }
}

/// The chunk ranges of the first `k` workers, empty ranges dropped.
pub open spec fn ranges_upto(s: Seq<u8>, w: int, k: int) -> Seq<(int, int)>
    decreases k,
{
    if k <= 0 {
        Seq::empty()
    } else {
        let prev = ranges_upto(s, w, k - 1);
        let a = off_ext(s, k - 1, w);
        let b = off_ext(s, k, w);
        if a < b {
            prev.push((a, b))
        } else {
            prev
        }
    }
}

/// All chunk ranges of a `w`-way partition.
pub open spec fn spec_ranges(s: Seq<u8>, w: int) -> Seq<(int, int)> {
    ranges_upto(s, w, w)
}

/// What `first_nl_from` finding (or missing) a terminator means for the
/// bytes themselves.
proof fn lemma_first_nl_props(s: Seq<u8>, from: int)
    requires
        0 <= from <= s.len(),
    ensures
        match first_nl_from(s, from) {
            Some(j) => from <= j < s.len() && s[j] == 10 && (forall|t: int|
                from <= t < j ==> s[t] != 10),
            None => forall|t: int| from <= t < s.len() ==> s[t] != 10,
        },
    decreases s.len() - from,
{
    if from < s.len() && s[from] != 10 {
        lemma_first_nl_props(s, from + 1);
    }
}

/// A terminator at `k` with none before it pins `first_nl_from`.
proof fn lemma_nl_at(s: Seq<u8>, from: int, k: int)
    requires
        0 <= from <= k < s.len(),
        s[k] == 10,
        forall|t: int| from <= t < k ==> s[t] != 10,
    ensures
        first_nl_from(s, from) == Some(k),
    decreases k - from,
{
    if from < k {
        lemma_nl_at(s, from + 1, k);
    }
}

/// No terminator from `from` on pins `first_nl_from` to `None`.
proof fn lemma_no_nl(s: Seq<u8>, from: int)
    requires
        0 <= from <= s.len(),
        forall|t: int| from <= t < s.len() ==> s[t] != 10,
    ensures
        first_nl_from(s, from) is None,
    decreases s.len() - from,
{
    if from < s.len() {
        lemma_no_nl(s, from + 1);
    }
}

/// Searching from a later start finds a terminator no earlier.
proof fn lemma_first_nl_monotone(s: Seq<u8>, a: int, b: int)
    requires
        0 <= a <= b <= s.len(),
        first_nl_from(s, b) is Some,
    ensures
        first_nl_from(s, a) is Some,
        first_nl_from(s, a).unwrap() <= first_nl_from(s, b).unwrap(),
    decreases b - a,
{
    lemma_first_nl_props(s, b);
    if a < b {
        if s[a] == 10 {
        } else {
            lemma_first_nl_monotone(s, a + 1, b);
        }
    }
}

/// Split offsets do not decrease from one worker to the next.
proof fn lemma_offsets_monotone(s: Seq<u8>, w: int, i: int)
    requires
        1 <= w,
        0 <= i < w,
        splits_ok(s, w),
    ensures
        0 <= off_ext(s, i, w),
        off_ext(s, i, w) <= off_ext(s, i + 1, w),
        off_ext(s, i + 1, w) <= s.len(),
{
    let len = s.len() as int;
    if i == 0 {
        if i + 1 < w {
            assert(split_offset(s, 1, w) is Some);
            lemma_cand_in_range(s, 1, w);
            lemma_first_nl_props(s, split_cand(s, 1, w));
        }
    } else {
        assert(split_offset(s, i, w) is Some);
        lemma_cand_in_range(s, i, w);
        lemma_first_nl_props(s, split_cand(s, i, w));
        if i + 1 < w {
            assert(split_offset(s, i + 1, w) is Some);
            lemma_cand_in_range(s, i + 1, w);
            lemma_mul_inequality(i, i + 1, len);
            lemma_div_is_ordered(len * i, len * (i + 1), w);
            lemma_first_nl_monotone(s, split_cand(s, i, w), split_cand(s, i + 1, w));
            lemma_first_nl_props(s, split_cand(s, i + 1, w));
        }
    }
}

/// The ideal split point lies inside the buffer.
proof fn lemma_cand_in_range(s: Seq<u8>, i: int, w: int)
    requires
        1 <= w,
        0 <= i <= w,
    ensures
        0 <= split_cand(s, i, w) <= s.len(),
{
    let len = s.len() as int;
    lemma_mul_inequality(0, i, len);
    lemma_div_is_ordered(0, len * i, w);
    lemma_mul_inequality(i, w, len);
    lemma_div_is_ordered(len * i, len * w, w);
    lemma_div_multiples_vanish(len, w);
}

/// Split the buffer into at most `workers` record-aligned chunk ranges.
///
/// On success the returned ranges are exactly the non-empty candidate
/// ranges, they tile `[0, len)` with no gap or overlap, and every range
/// other than the first starts just after a line terminator. The
/// partition fails with `MissingTerminator` exactly when some worker's
/// candidate split point has no terminator at or after it.
pub fn chunk_ranges(data: &[u8], workers: usize) -> (r: Result<Vec<(usize, usize)>, ScanError>)
    requires
        workers >= 1,
    ensures
        match r {
            Ok(v) => {
                &&& splits_ok(data@, workers as int)
                &&& v@.len() == spec_ranges(data@, workers as int).len()
                &&& forall|k: int|
                    0 <= k < v@.len() ==> (#[trigger] v@[k]).0 as int == spec_ranges(
                        data@,
                        workers as int,
                    )[k].0 && v@[k].1 as int == spec_ranges(data@, workers as int)[k].1
                &&& forall|k: int|
                    0 <= k < v@.len() ==> (#[trigger] v@[k]).0 < v@[k].1 <= data@.len()
                &&& forall|k: int|
                    0 <= k < v@.len() ==> ((#[trigger] v@[k]).0 == 0 || data@[v@[k].0 - 1] == 10)
                &&& forall|k: int| 0 <= k < v@.len() - 1 ==> (#[trigger] v@[k]).1 == v@[k + 1].0
                &&& (v@.len() > 0 ==> v@[0].0 == 0 && v@[v@.len() - 1].1 == data@.len())
                &&& (v@.len() == 0 <==> data@.len() == 0)
            },
            Err(e) => e == ScanError::MissingTerminator && !splits_ok(data@, workers as int),
        },
{
    let ghost s = data@;
    let ghost w = workers as int;
    let fsize: usize = data.len();
    let mut offsets: Vec<usize> = Vec::new();
    offsets.push(0);
    let mut i: usize = 1;
    while i < workers
        invariant
            1 <= i <= workers,
            fsize == s.len(),
            s == data@,
            w == workers as int,
            offsets@.len() == i as int,
            forall|k: int|
                0 <= k < i as int ==> (#[trigger] split_offset(s, k, w)) is Some && offsets@[k]
                    as int == split_offset(s, k, w).unwrap(),
            forall|k: int| 0 <= k < i as int ==> (#[trigger] offsets@[k]) as int <= s.len(),
        decreases workers - i,
    {
        proof {
            lemma_cand_in_range(s, i as int, w);
            lemma_mul_upper_bound(
                fsize as int,
                0xFFFF_FFFF_FFFF_FFFF,
                i as int,
                0xFFFF_FFFF_FFFF_FFFF,
            );
        }
        let cand: usize = ((fsize as u128 * i as u128) / workers as u128) as usize;
        assert(cand as int == split_cand(s, i as int, w));
        let tail = slice_subrange(data, cand, fsize);
        match memchr_first(10, tail) {
            None => {
                proof {
                    assert forall|t: int| cand as int <= t < s.len() implies s[t] != 10 by {
                        assert(tail@[t - cand as int] != 10);
                    }
                    lemma_no_nl(s, cand as int);
                    assert(first_nl_from(s, split_cand(s, i as int, w)) is None);
                    assert(split_offset(s, i as int, w) is None);
                    assert(!splits_ok(s, w));
                }
                return Err(ScanError::MissingTerminator);
            },
            Some(p) => {
                proof {
                    assert(s[cand as int + p as int] == 10);
                    assert forall|t: int| cand as int <= t < cand as int + p as int implies s[t]
                        != 10 by {
                        assert(tail@[t - cand as int] != 10);
                    }
                    lemma_nl_at(s, cand as int, cand as int + p as int);
                }
                offsets.push(cand + p + 1);
            },
        }
        i = i + 1;
    }
    assert(splits_ok(s, w));

    let mut ranges: Vec<(usize, usize)> = Vec::new();
    let mut k: usize = 0;
    while k < workers
        invariant
            0 <= k <= workers,
            fsize == s.len(),
            s == data@,
            w == workers as int,
            workers >= 1,
            splits_ok(s, w),
            offsets@.len() == w,
            forall|j: int|
                0 <= j < w ==> (#[trigger] split_offset(s, j, w)) is Some && offsets@[j] as int
                    == split_offset(s, j, w).unwrap(),
            forall|j: int| 0 <= j < w ==> (#[trigger] offsets@[j]) as int <= s.len(),
            ranges@.len() == ranges_upto(s, w, k as int).len(),
            forall|j: int|
                0 <= j < ranges@.len() ==> (#[trigger] ranges@[j]).0 as int == ranges_upto(
                    s,
                    w,
                    k as int,
                )[j].0 && ranges@[j].1 as int == ranges_upto(s, w, k as int)[j].1,
            forall|j: int|
                0 <= j < ranges@.len() ==> (#[trigger] ranges@[j]).0 < ranges@[j].1 <= s.len(),
            forall|j: int|
                0 <= j < ranges@.len() ==> ((#[trigger] ranges@[j]).0 == 0 || s[ranges@[j].0 - 1]
                    == 10),
            forall|j: int| 0 <= j < ranges@.len() - 1 ==> (#[trigger] ranges@[j]).1 == ranges@[j
                + 1].0,
            ranges@.len() > 0 ==> ranges@[0].0 == 0 && ranges@[ranges@.len() - 1].1 as int
                == off_ext(s, k as int, w),
            ranges@.len() == 0 ==> off_ext(s, k as int, w) == 0,
        decreases workers - k,
    {
        proof {
            lemma_offsets_monotone(s, w, k as int);
            if k as int >= 1 {
                lemma_first_nl_props(s, split_cand(s, k as int, w));
            }
        }
        let start: usize = offsets[k];
        let end: usize = if k + 1 < workers {
            offsets[k + 1]
        } else {
            fsize
        };
        assert(start as int == off_ext(s, k as int, w));
        assert(end as int == off_ext(s, k as int + 1, w));
        if start < end {
            ranges.push((start, end));
        }
        k = k + 1;
    }
    Ok(ranges)
}

} // verus!
