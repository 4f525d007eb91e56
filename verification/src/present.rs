//! The presenter, and the whole pipeline in one call.
//!
//! Entries are already sorted by name; each is printed as
//! `name=min/mean/max` with one decimal digit, the mean being the
//! rounded quotient of sum and count. Rounding is half-away-from-zero:
//! a quotient landing exactly on a half rounds up in magnitude.

use vstd::prelude::*;
use vstd::arithmetic::div_mod::lemma_div_is_ordered;
use vstd::arithmetic::div_mod::lemma_div_multiples_vanish;
use vstd::arithmetic::div_mod::lemma_div_multiples_vanish_fancy;
use vstd::arithmetic::mul::lemma_mul_inequality;
use crate::ScanError;
use crate::merge::Aggregate;
use crate::partition::chunk_ranges;
use crate::partition::spec_ranges;
use crate::partition::splits_ok;
use crate::stats::SRec;
use crate::stats::combine;
use crate::stats::srec_inv;
use crate::stats::lemma_combine_empty;
use crate::table::TABLE_CAP;
use crate::table::aggregate_chunk;
use crate::table::names_of;
use crate::table::scan_status;
use crate::table::spec_agg;
use vstd::slice::slice_subrange;

verus! {

/// The quotient `sum / count` rounded to the nearest integer, halves
/// rounding away from zero.
pub open spec fn round_half_away(sum: int, count: int) -> int {
    if sum >= 0 {
        (2 * sum + count) / (2 * count)
    } else {
        -((2 * (-sum) + count) / (2 * count))
    }
}

/// Every aggregated entry's rounded mean lies between its minimum and
/// its maximum, and its count is at least one.
pub proof fn lemma_mean_in_range(r: SRec)
    requires
        srec_inv(r),
    ensures
        r.count >= 1,
        r.min <= round_half_away(r.sum, r.count) <= r.max,
{
    let c = r.count;
    let m = 2 * c;
    if r.sum >= 0 {
        assert(c * r.max >= 0);
        assert(r.max >= 0) by (nonlinear_arith)
            requires
                c >= 1,
                c * r.max >= 0,
        ;
        assert(2 * r.sum + c <= m * r.max + (m - 1)) by (nonlinear_arith)
            requires
                c >= 1,
                m == 2 * c,
                r.sum <= c * r.max,
        ;
        lemma_div_is_ordered(2 * r.sum + c, m * r.max + (m - 1), m);
        lemma_div_multiples_vanish_fancy(r.max, m - 1, m);
        assert(m * r.min <= 2 * r.sum + c) by (nonlinear_arith)
            requires
                c >= 1,
                m == 2 * c,
                c * r.min <= r.sum,
        ;
        lemma_div_is_ordered(m * r.min, 2 * r.sum + c, m);
        lemma_div_multiples_vanish(r.min, m);
    } else {
        let a = -r.sum;
        assert(c * r.min <= r.sum);
        assert(r.min <= -1) by (nonlinear_arith)
            requires
                c >= 1,
                c * r.min <= r.sum,
                r.sum < 0,
                r.min <= r.max,
        ;
        assert(2 * a + c <= m * (-r.min) + (m - 1)) by (nonlinear_arith)
            requires
                c >= 1,
                m == 2 * c,
                a == -r.sum,
                c * r.min <= r.sum,
        ;
        lemma_div_is_ordered(2 * a + c, m * (-r.min) + (m - 1), m);
        lemma_div_multiples_vanish_fancy(-r.min, m - 1, m);
        assert(m * (-r.max) <= 2 * a + c) by (nonlinear_arith)
            requires
                c >= 1,
                m == 2 * c,
                a == -r.sum,
                r.sum <= c * r.max,
        ;
        lemma_div_is_ordered(m * (-r.max), 2 * a + c, m);
        lemma_div_multiples_vanish(-r.max, m);
    }
}

/// Compute the rounded mean, in tenths.
pub fn mean_tenths(sum: i128, count: u64) -> (r: i16)
    requires
        count >= 1,
        -999 * (count as int) <= sum <= 999 * (count as int),
    ensures
        r as int == round_half_away(sum as int, count as int),
        -999 <= r <= 999,
{
    proof {
        let rec = SRec { count: count as int, sum: sum as int, min: -999, max: 999 };
        assert(srec_inv(rec));
        lemma_mean_in_range(rec);
    }
    let c = count as i128;
    if sum >= 0 {
        ((2 * sum + c) / (2 * c)) as i16
    } else {
        (-((2 * (-sum) + c) / (2 * c))) as i16
    }
}

/// The decimal digit bytes of `n`.
pub open spec fn dec_digits(n: int) -> Seq<u8>
    decreases n,
{
    if n < 10 {
        seq![(48 + n) as u8]
    } else {
        dec_digits(n / 10).push((48 + n % 10) as u8)
    }
}

/// A value in tenths as text: sign, whole part, point, tenths digit.
pub open spec fn fmt_tenths(t: int) -> Seq<u8> {
    let a = if t < 0 {
        -t
    } else {
        t
    };
    (if t < 0 {
        seq![45u8]
    } else {
        Seq::<u8>::empty()
    }) + dec_digits(a / 10) + seq![46u8] + seq![(48 + a % 10) as u8]
}

/// Append the decimal digits of `n`.
fn push_digits(out: &mut Vec<u8>, n: u64)
    ensures
        final(out)@ == old(out)@ + dec_digits(n as int),
    decreases n,
{
    if n >= 10 {
        push_digits(out, n / 10);
        out.push((48 + n % 10) as u8);
        proof {
            assert(final(out)@ =~= old(out)@ + dec_digits(n as int));
        }
    } else {
        out.push((48 + n) as u8);
        proof {
            assert(final(out)@ =~= old(out)@ + dec_digits(n as int));
        }
    }
}

/// Append a value in tenths, formatted with one decimal digit.
fn push_tenths(out: &mut Vec<u8>, t: i16)
    requires
        -999 <= t <= 999,
    ensures
        final(out)@ == old(out)@ + fmt_tenths(t as int),
{
    let a: u64 = if t < 0 {
        out.push(45);
        (-(t as i32)) as u64
    } else {
        t as u64
    };
    push_digits(out, a / 10);
    out.push(46);
    out.push((48 + a % 10) as u8);
    proof {
        assert(final(out)@ =~= old(out)@ + fmt_tenths(t as int));
    }
}

/// Append bytes.
fn append_bytes(out: &mut Vec<u8>, s: &[u8])
    ensures
        final(out)@ == old(out)@ + s@,
{
    let mut i: usize = 0;
    while i < s.len()
        invariant
            0 <= i <= s@.len(),
            out@ == old(out)@ + s@.subrange(0, i as int),
        decreases s@.len() - i,
    {
        out.push(s[i]);
        proof {
            assert(out@ =~= old(out)@ + s@.subrange(0, i as int + 1));
        }
        i = i + 1;
    }
    proof {
        assert(s@.subrange(0, s@.len() as int) =~= s@);
    }
}

/// One formatted entry: `name=min/mean/max`.
pub open spec fn render_entry(name: Seq<u8>, r: SRec) -> Seq<u8> {
    name + seq![61u8] + fmt_tenths(r.min) + seq![47u8] + fmt_tenths(
        round_half_away(r.sum, r.count),
    ) + seq![47u8] + fmt_tenths(r.max)
}

/// The first `k` entries joined by `", "`.
pub open spec fn render_upto(a: Aggregate, k: int) -> Seq<u8>
    decreases k,
{
    if k <= 0 {
        Seq::empty()
    } else {
        render_upto(a, k - 1) + (if k > 1 {
            seq![44u8, 32u8]
        } else {
            Seq::<u8>::empty()
        }) + render_entry(a.names@[k - 1]@, a.srec_at(k - 1))
    }
}

/// The whole summary line, braces included, no trailing terminator.
pub open spec fn spec_render(a: Aggregate) -> Seq<u8> {
    seq![123u8] + render_upto(a, a.n()) + seq![125u8]
}

/// Format the aggregate as one summary line in ascending name order.
pub fn render(a: &Aggregate) -> (out: Vec<u8>)
    requires
        a.wf(),
    ensures
        out@ == spec_render(*a),
{
    let mut out: Vec<u8> = Vec::new();
    out.push(123);
    let n = a.names.len();
    let mut k: usize = 0;
    proof {
        assert(out@ =~= seq![123u8] + render_upto(*a, 0));
    }
    while k < n
        invariant
            0 <= k <= n,
            n == a.n(),
            a.wf(),
            out@ == seq![123u8] + render_upto(*a, k as int),
        decreases n - k,
    {
        if k > 0 {
            out.push(44);
            out.push(32);
        }
        let ghost before = out@;
        append_bytes(&mut out, a.names[k].as_slice());
        out.push(61);
        proof {
            assert(srec_inv(a.srec_at(k as int)));
            let c = a.counts@[k as int] as int;
            let mnv = a.mins@[k as int] as int;
            let mxv = a.maxs@[k as int] as int;
            let smv = a.sums@[k as int] as int;
            lemma_mul_inequality(-999, mnv, c);
            lemma_mul_inequality(mxv, 999, c);
            assert(c * mnv <= smv <= c * mxv);
            assert(-999 * c <= smv && smv <= 999 * c);
        }
        push_tenths(&mut out, a.mins[k]);
        out.push(47);
        let mean = mean_tenths(a.sums[k], a.counts[k]);
        push_tenths(&mut out, mean);
        out.push(47);
        push_tenths(&mut out, a.maxs[k]);
        proof {
            assert(out@ =~= seq![123u8] + render_upto(*a, k as int + 1));
        }
        k = k + 1;
    }
    out.push(125);
    proof {
        assert(out@ =~= spec_render(*a));
    }
    out
}

/// The bytes of chunk `k` of a partition.
pub open spec fn chunk_of(s: Seq<u8>, rs: Seq<(int, int)>, k: int) -> Seq<u8> {
    s.subrange(rs[k].0, rs[k].1)
}

/// The merged aggregate of the first `k` chunks of the partition.
pub open spec fn fold_chunks(s: Seq<u8>, rs: Seq<(int, int)>, k: int) -> Map<Seq<u8>, SRec>
    decreases k,
{
    if k <= 0 {
        Map::empty()
    } else {
        combine(fold_chunks(s, rs, k - 1), spec_agg(chunk_of(s, rs, k - 1), Map::empty()))
    }
}

/// Run the whole pipeline over one buffer with `workers` chunks: split,
/// aggregate each chunk, merge, and format. The output is the rendering
/// of the merged aggregate of all chunks, sorted by name.
pub fn summarize(data: &[u8], workers: usize) -> (r: Result<Vec<u8>, ScanError>)
    requires
        workers >= 1,
        forall|k: int|
            0 <= k < spec_ranges(data@, workers as int).len() ==> names_of(
                #[trigger] chunk_of(data@, spec_ranges(data@, workers as int), k),
            ).len() < TABLE_CAP,
    ensures
        match r {
            Ok(out) => {
                &&& splits_ok(data@, workers as int)
                &&& forall|k: int|
                    0 <= k < spec_ranges(data@, workers as int).len() ==> scan_status(
                        #[trigger] chunk_of(data@, spec_ranges(data@, workers as int), k),
                    ) is None
                &&& exists|a: Aggregate|
                    (#[trigger] a.wf()) && a@ == fold_chunks(
                        data@,
                        spec_ranges(data@, workers as int),
                        spec_ranges(data@, workers as int).len() as int,
                    ) && out@ == spec_render(a)
            },
            Err(e) => (!splits_ok(data@, workers as int) && e == ScanError::MissingTerminator) || (
            splits_ok(data@, workers as int) && exists|k: int|
                0 <= k < spec_ranges(data@, workers as int).len() && scan_status(
                    #[trigger] chunk_of(data@, spec_ranges(data@, workers as int), k),
                ) == Some(e)),
        },
{
    let ghost s = data@;
    let ghost w = workers as int;
    let ranges = match chunk_ranges(data, workers) {
        Ok(v) => v,
        Err(e) => {
            return Err(e);
        },
    };
    let ghost rs = spec_ranges(s, w);
    let mut agg = Aggregate::new();
    let mut k: usize = 0;
    let nr = ranges.len();
    proof {
        lemma_combine_empty(Map::<Seq<u8>, SRec>::empty());
        assert(agg@ =~= fold_chunks(s, rs, 0));
    }
    while k < nr
        invariant
            0 <= k <= nr,
            nr == ranges@.len(),
            s == data@,
            w == workers as int,
            rs == spec_ranges(s, w),
            nr == rs.len(),
            agg.wf(),
            agg@ == fold_chunks(s, rs, k as int),
            splits_ok(s, w),
            forall|j: int| 0 <= j < k ==> scan_status(#[trigger] chunk_of(s, rs, j)) is None,
            forall|j: int|
                0 <= j < nr ==> (#[trigger] ranges@[j]).0 as int == rs[j].0 && ranges@[j].1 as int
                    == rs[j].1,
            forall|j: int| 0 <= j < nr ==> (#[trigger] ranges@[j]).0 < ranges@[j].1 <= s.len(),
            forall|j: int|
                0 <= j < rs.len() ==> names_of(#[trigger] chunk_of(s, rs, j)).len() < TABLE_CAP,
            agg.total() <= ranges@[k as int - 1].1 || k == 0,
            k == 0 ==> agg.total() == 0,
            forall|j: int| 0 <= j < nr - 1 ==> (#[trigger] ranges@[j]).1 == ranges@[j + 1].0,
        decreases nr - k,
    {
        let (start, end) = ranges[k];
        let chunk = slice_subrange(data, start, end);
        proof {
            assert(chunk@ =~= chunk_of(s, rs, k as int));
        }
        let t = match aggregate_chunk(chunk) {
            Ok(t) => t,
            Err(e) => {
                proof {
                    assert(scan_status(chunk_of(s, rs, k as int)) == Some(e));
                }
                return Err(e);
            },
        };
        proof {
            crate::table::lemma_table_total_mono(t, 0, TABLE_CAP as int);
            if k > 0 {
                assert(ranges@[k as int - 1].1 == ranges@[k as int].0);
            }
            assert(agg.total() + t.total_upto(TABLE_CAP as int) <= end as int);
        }
        agg.fold_table(&t);
        k = k + 1;
    }
    let out = render(&agg);
    proof {
        assert(agg.wf() && agg@ == fold_chunks(s, rs, rs.len() as int) && out@ == spec_render(
            agg,
        ));
    }
    Ok(out)
}

} // verus!
