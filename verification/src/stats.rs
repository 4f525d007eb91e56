//! The mathematical model of aggregation.
//!
//! An aggregate maps each name (a byte sequence) to the count, sum,
//! minimum and maximum of the values recorded for it, all in tenths.
//! One record updates the map one name at a time; two aggregates merge
//! pointwise. Merging is commutative and associative, so the result of
//! folding per-worker tables together does not depend on the order or
//! the shape of the reduction tree.

use vstd::prelude::*;
use vstd::arithmetic::mul::lemma_mul_inequality;

verus! {

/// Aggregated statistics for one name, in tenths.
pub struct SRec {
    pub count: int,
    pub sum: int,
    pub min: int,
    pub max: int,
}

/// The statistics after one single observation `v`.
pub open spec fn srec_single(v: int) -> SRec {
    SRec { count: 1, sum: v, min: v, max: v }
}

/// The statistics after one more observation `v`.
pub open spec fn srec_add(r: SRec, v: int) -> SRec {
    SRec {
        count: r.count + 1,
        sum: r.sum + v,
        min: if v < r.min {
            v
        } else {
            r.min
        },
        max: if v > r.max {
            v
        } else {
            r.max
        },
    }
}

/// The combination of two aggregates of disjoint observation sets.
pub open spec fn srec_merge(a: SRec, b: SRec) -> SRec {
    SRec {
        count: a.count + b.count,
        sum: a.sum + b.sum,
        min: if a.min < b.min {
            a.min
        } else {
            b.min
        },
        max: if a.max > b.max {
            a.max
        } else {
            b.max
        },
    }
}

/// Every aggregated entry counts at least one observation, its extremes
/// are in the value range of the grammar, and its sum lies between
/// `count * min` and `count * max`.
pub open spec fn srec_inv(r: SRec) -> bool {
    &&& r.count >= 1
    &&& -999 <= r.min <= r.max <= 999
    &&& r.count * r.min <= r.sum <= r.count * r.max
}

/// An entry of at most `rb` observations has a sum bounded by the value
/// range times `rb`.
pub proof fn lemma_srec_sum_bounds(r: SRec, rb: int)
    requires
        srec_inv(r),
        r.count <= rb,
        0 <= rb,
    ensures
        -999 * rb <= r.sum <= 999 * rb,
{
    assert(r.sum <= 999 * rb) by (nonlinear_arith)
        requires
            r.count >= 1,
            r.count <= rb,
            r.max <= 999,
            r.sum <= r.count * r.max,
    ;
    assert(-999 * rb <= r.sum) by (nonlinear_arith)
        requires
            r.count >= 1,
            r.count <= rb,
            -999 <= r.min,
            r.count * r.min <= r.sum,
    ;
}

/// One record with name `name` and value `v` lands in the aggregate.
pub open spec fn upd_map(m: Map<Seq<u8>, SRec>, name: Seq<u8>, v: int) -> Map<Seq<u8>, SRec> {
    if m.dom().contains(name) {
        m.insert(name, srec_add(m[name], v))
    } else {
        m.insert(name, srec_single(v))
    }
}

/// The pointwise merge of two aggregates.
pub open spec fn combine(m1: Map<Seq<u8>, SRec>, m2: Map<Seq<u8>, SRec>) -> Map<Seq<u8>, SRec> {
    Map::new(
        |n: Seq<u8>| m1.dom().contains(n) || m2.dom().contains(n),
        |n: Seq<u8>|
            if m1.dom().contains(n) && m2.dom().contains(n) {
                srec_merge(m1[n], m2[n])
            } else if m1.dom().contains(n) {
                m1[n]
            } else {
                m2[n]
            },
    )
}

/// One whole entry `r` for name `n` lands in the aggregate.
pub open spec fn combine1(m: Map<Seq<u8>, SRec>, n: Seq<u8>, r: SRec) -> Map<Seq<u8>, SRec> {
    if m.dom().contains(n) {
        m.insert(n, srec_merge(m[n], r))
    } else {
        m.insert(n, r)
    }
}

/// Folding the entries of one aggregate into another, entry by entry,
/// is the pointwise merge.
pub proof fn lemma_combine_insert(
    m1: Map<Seq<u8>, SRec>,
    m2: Map<Seq<u8>, SRec>,
    n: Seq<u8>,
    r: SRec,
)
    requires
        !m2.dom().contains(n),
    ensures
        combine(m1, m2.insert(n, r)) == combine1(combine(m1, m2), n, r),
{
    assert(combine(m1, m2.insert(n, r)) =~= combine1(combine(m1, m2), n, r));
}

/// A single observation keeps the entry invariant.
pub proof fn lemma_srec_single_inv(v: int)
    requires
        -999 <= v <= 999,
    ensures
        srec_inv(srec_single(v)),
{
}

/// Adding an observation keeps the entry invariant.
pub proof fn lemma_srec_add_inv(r: SRec, v: int)
    requires
        srec_inv(r),
        -999 <= v <= 999,
    ensures
        srec_inv(srec_add(r, v)),
{
    let r2 = srec_add(r, v);
    assert(r.count * r2.min <= r.count * r.min) by (nonlinear_arith)
        requires
            r.count >= 1,
            r2.min <= r.min,
    ;
    assert(r2.count * r2.min == r.count * r2.min + r2.min) by (nonlinear_arith)
        requires
            r2.count == r.count + 1,
    ;
    assert(r.count * r.max <= r.count * r2.max) by (nonlinear_arith)
        requires
            r.count >= 1,
            r.max <= r2.max,
    ;
    assert(r2.count * r2.max == r.count * r2.max + r2.max) by (nonlinear_arith)
        requires
            r2.count == r.count + 1,
    ;
}

/// Merging keeps the entry invariant.
pub proof fn lemma_srec_merge_inv(a: SRec, b: SRec)
    requires
        srec_inv(a),
        srec_inv(b),
    ensures
        srec_inv(srec_merge(a, b)),
{
    let c = srec_merge(a, b);
    assert(a.count * c.min <= a.count * a.min) by (nonlinear_arith)
        requires
            a.count >= 1,
            c.min <= a.min,
    ;
    assert(b.count * c.min <= b.count * b.min) by (nonlinear_arith)
        requires
            b.count >= 1,
            c.min <= b.min,
    ;
    assert(c.count * c.min == a.count * c.min + b.count * c.min) by (nonlinear_arith)
        requires
            c.count == a.count + b.count,
    ;
    assert(a.count * a.max <= a.count * c.max) by (nonlinear_arith)
        requires
            a.count >= 1,
            a.max <= c.max,
    ;
    assert(b.count * b.max <= b.count * c.max) by (nonlinear_arith)
        requires
            b.count >= 1,
            b.max <= c.max,
    ;
    assert(c.count * c.max == a.count * c.max + b.count * c.max) by (nonlinear_arith)
        requires
            c.count == a.count + b.count,
    ;
}

/// Every entry of a map stays within the entry invariant.
pub open spec fn map_inv(m: Map<Seq<u8>, SRec>) -> bool {
    forall|n: Seq<u8>| m.dom().contains(n) ==> srec_inv(#[trigger] m[n])
}

/// A record update keeps the map invariant.
pub proof fn lemma_upd_map_inv(m: Map<Seq<u8>, SRec>, name: Seq<u8>, v: int)
    requires
        map_inv(m),
        -999 <= v <= 999,
    ensures
        map_inv(upd_map(m, name, v)),
{
    if m.dom().contains(name) {
        lemma_srec_add_inv(m[name], v);
    } else {
        lemma_srec_single_inv(v);
    }
}

/// Merging two aggregates keeps the map invariant.
pub proof fn lemma_combine_inv(m1: Map<Seq<u8>, SRec>, m2: Map<Seq<u8>, SRec>)
    requires
        map_inv(m1),
        map_inv(m2),
    ensures
        map_inv(combine(m1, m2)),
{
    assert forall|n: Seq<u8>| combine(m1, m2).dom().contains(n) implies srec_inv(
        #[trigger] combine(m1, m2)[n],
    ) by {
        if m1.dom().contains(n) && m2.dom().contains(n) {
            lemma_srec_merge_inv(m1[n], m2[n]);
        }
    }
}

/// Merging aggregates is commutative: the merged table does not depend
/// on which worker's table came first.
pub proof fn lemma_combine_commutes(m1: Map<Seq<u8>, SRec>, m2: Map<Seq<u8>, SRec>)
    ensures
        combine(m1, m2) == combine(m2, m1),
{
    assert(combine(m1, m2) =~= combine(m2, m1));
}

/// Merging aggregates is associative: the merged table does not depend
/// on the shape of the reduction tree.
pub proof fn lemma_combine_associates(
    m1: Map<Seq<u8>, SRec>,
    m2: Map<Seq<u8>, SRec>,
    m3: Map<Seq<u8>, SRec>,
)
    ensures
        combine(combine(m1, m2), m3) == combine(m1, combine(m2, m3)),
{
    assert(combine(combine(m1, m2), m3) =~= combine(m1, combine(m2, m3)));
}

/// The empty aggregate is the unit of merging.
pub proof fn lemma_combine_empty(m: Map<Seq<u8>, SRec>)
    ensures
        combine(m, Map::empty()) == m,
        combine(Map::empty(), m) == m,
{
    assert(combine(m, Map::empty()) =~= m);
    assert(combine(Map::empty(), m) =~= m);
}

} // verus!
