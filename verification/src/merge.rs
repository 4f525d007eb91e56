//! The global aggregate and the merge of per-worker tables.
//!
//! The global aggregate keeps one entry per name, sorted by byte-wise
//! lexicographic order, so the presenter can emit it directly. Folding a
//! worker's table into it, or merging two aggregates, combines entries
//! pointwise with the rule `count +=, sum +=, min = min, max = max`,
//! which the model proves commutative and associative.

use vstd::prelude::*;
use crate::stats::SRec;
use crate::stats::combine;
use crate::stats::combine1;
use crate::stats::lemma_combine_empty;
use crate::stats::lemma_combine_insert;
use crate::stats::lemma_srec_merge_inv;
use crate::stats::lemma_srec_sum_bounds;
use crate::stats::srec_inv;
use crate::stats::srec_merge;
use crate::table::ChunkTable;
use crate::table::TABLE_CAP;
use vstd::slice::slice_to_vec;

verus! {

/// Strict byte-wise lexicographic order on names.
pub open spec fn lex_lt(a: Seq<u8>, b: Seq<u8>) -> bool
    decreases a.len(),
{
    if b.len() == 0 {
        false
    } else if a.len() == 0 {
        true
    } else if a[0] < b[0] {
        true
    } else if a[0] > b[0] {
        false
    } else {
        lex_lt(a.skip(1), b.skip(1))
    }
}

/// Two names are equal or ordered one way or the other.
pub proof fn lemma_lex_total(a: Seq<u8>, b: Seq<u8>)
    ensures
        a == b || lex_lt(a, b) || lex_lt(b, a),
    decreases a.len(),
{
    if a.len() > 0 && b.len() > 0 && a[0] == b[0] {
        lemma_lex_total(a.skip(1), b.skip(1));
        if a.skip(1) == b.skip(1) {
            assert forall|k: int| 0 <= k < a.len() implies a[k] == b[k] by {
                if k > 0 {
                    assert(a.skip(1)[k - 1] == b.skip(1)[k - 1]);
                }
            }
            assert(a =~= b);
        }
    }
}

/// The order is strict: it never holds both ways, and never of a name
/// and itself.
pub proof fn lemma_lex_asym(a: Seq<u8>, b: Seq<u8>)
    requires
        lex_lt(a, b),
    ensures
        !lex_lt(b, a),
        a != b,
    decreases a.len(),
{
    if a.len() > 0 && b.len() > 0 && a[0] == b[0] {
        lemma_lex_asym(a.skip(1), b.skip(1));
        assert(a.skip(1) != b.skip(1));
    }
}

/// The order is transitive.
pub proof fn lemma_lex_trans(a: Seq<u8>, b: Seq<u8>, c: Seq<u8>)
    requires
        lex_lt(a, b),
        lex_lt(b, c),
    ensures
        lex_lt(a, c),
    decreases a.len(),
{
    if a.len() > 0 && c.len() > 0 {
        if a[0] == b[0] && b[0] == c[0] {
            lemma_lex_trans(a.skip(1), b.skip(1), c.skip(1));
        }
    }
}

/// Byte-wise lexicographic comparison of two byte strings.
pub fn lex_less(a: &[u8], b: &[u8]) -> (r: bool)
    ensures
        r == lex_lt(a@, b@),
{
    let mut i: usize = 0;
    proof {
        assert(a@.skip(0) =~= a@);
        assert(b@.skip(0) =~= b@);
    }
    while i < a.len() && i < b.len()
        invariant
            0 <= i <= a@.len(),
            0 <= i <= b@.len(),
            lex_lt(a@, b@) == lex_lt(a@.skip(i as int), b@.skip(i as int)),
            forall|k: int| 0 <= k < i ==> a@[k] == b@[k],
        decreases a@.len() - i,
    {
        if a[i] < b[i] {
            return true;
        }
        if a[i] > b[i] {
            return false;
        }
        proof {
            assert(a@.skip(i as int).skip(1) =~= a@.skip(i as int + 1));
            assert(b@.skip(i as int).skip(1) =~= b@.skip(i as int + 1));
        }
        i = i + 1;
    }
    let r = a.len() < b.len();
    proof {
        if i >= a@.len() {
            assert(a@.skip(i as int).len() == 0);
        } else {
            assert(b@.skip(i as int).len() == 0);
        }
    }
    r
}

/// The map held by a sequence of name/statistics entries, later entries
/// overriding earlier ones (the names are in fact unique).
pub open spec fn map_of(es: Seq<(Seq<u8>, SRec)>) -> Map<Seq<u8>, SRec>
    decreases es.len(),
{
    if es.len() == 0 {
        Map::empty()
    } else {
        map_of(es.drop_last()).insert(es.last().0, es.last().1)
    }
}

/// A name is in the map of `es` exactly when an entry holds it.
proof fn lemma_map_of_dom(es: Seq<(Seq<u8>, SRec)>, n: Seq<u8>)
    ensures
        map_of(es).dom().contains(n) <==> exists|j: int| 0 <= j < es.len() && (#[trigger] es[j]).0
            == n,
    decreases es.len(),
{
    if es.len() > 0 {
        lemma_map_of_dom(es.drop_last(), n);
        if es.last().0 == n {
            assert(es[es.len() - 1].0 == n);
        }
        if map_of(es).dom().contains(n) && es.last().0 != n {
            let j = choose|j: int|
                0 <= j < es.drop_last().len() && (#[trigger] es.drop_last()[j]).0 == n;
            assert(es[j].0 == n);
        }
        if exists|j: int| 0 <= j < es.len() && (#[trigger] es[j]).0 == n {
            let j = choose|j: int| 0 <= j < es.len() && (#[trigger] es[j]).0 == n;
            if j < es.len() - 1 {
                assert(es.drop_last()[j].0 == n);
                assert(map_of(es.drop_last()).dom().contains(n));
            }
        }
    }
}

/// With unique names, each entry is bound in the map of `es`.
proof fn lemma_map_of_entry(es: Seq<(Seq<u8>, SRec)>, j: int)
    requires
        0 <= j < es.len(),
        forall|x: int, y: int|
            0 <= x < es.len() && 0 <= y < es.len() && x != y ==> (#[trigger] es[x]).0 != (
            #[trigger] es[y]).0,
    ensures
        map_of(es).dom().contains(es[j].0),
        map_of(es)[es[j].0] == es[j].1,
    decreases es.len(),
{
    if j == es.len() - 1 {
    } else {
        lemma_map_of_entry(es.drop_last(), j);
        assert(es.drop_last()[j] == es[j]);
    }
}

/// Replacing entry `j`'s statistics (same name, unique names) replaces
/// that name's binding.
proof fn lemma_map_of_update(es1: Seq<(Seq<u8>, SRec)>, es2: Seq<(Seq<u8>, SRec)>, j: int)
    requires
        0 <= j < es1.len(),
        es2.len() == es1.len(),
        es2[j].0 == es1[j].0,
        forall|k: int| 0 <= k < es1.len() && k != j ==> #[trigger] es2[k] == es1[k],
        forall|x: int, y: int|
            0 <= x < es1.len() && 0 <= y < es1.len() && x != y ==> (#[trigger] es1[x]).0 != (
            #[trigger] es1[y]).0,
    ensures
        map_of(es2) == map_of(es1).insert(es1[j].0, es2[j].1),
    decreases es1.len(),
{
    let n = es1[j].0;
    if j == es1.len() - 1 {
        assert(es2.drop_last() =~= es1.drop_last());
    } else {
        assert(es2.last() == es1.last());
        lemma_map_of_update(es1.drop_last(), es2.drop_last(), j);
        assert(es1.drop_last()[j] == es1[j]);
        assert(es2.drop_last()[j] == es2[j]);
        let c = es1.last();
        assert(c.0 != n);
        assert(map_of(es1.drop_last()).insert(n, es2[j].1).insert(c.0, c.1) =~= map_of(
            es1.drop_last(),
        ).insert(c.0, c.1).insert(n, es2[j].1));
    }
}

/// Inserting an entry with a fresh name binds that name and nothing
/// else.
proof fn lemma_map_of_insert(es: Seq<(Seq<u8>, SRec)>, i: int, x: (Seq<u8>, SRec))
    requires
        0 <= i <= es.len(),
        forall|k: int| 0 <= k < es.len() ==> (#[trigger] es[k]).0 != x.0,
    ensures
        map_of(es.insert(i, x)) == map_of(es).insert(x.0, x.1),
    decreases es.len(),
{
    let es2 = es.insert(i, x);
    if i == es.len() {
        assert(es2.drop_last() =~= es);
        assert(es2.last() == x);
    } else {
        assert(es2.len() == es.len() + 1);
        assert(es2.last() == es.last());
        assert(es2.drop_last() =~= es.drop_last().insert(i, x));
        lemma_map_of_insert(es.drop_last(), i, x);
        let c = es.last();
        assert(es[es.len() - 1].0 != x.0);
        assert(map_of(es.drop_last()).insert(x.0, x.1).insert(c.0, c.1) =~= map_of(
            es.drop_last(),
        ).insert(c.0, c.1).insert(x.0, x.1));
    }
}

/// The global aggregate: parallel columns of entries, names strictly
/// ascending in lexicographic order.
pub struct Aggregate {
    pub names: Vec<Vec<u8>>,
    pub counts: Vec<u64>,
    pub sums: Vec<i128>,
    pub mins: Vec<i16>,
    pub maxs: Vec<i16>,
}

impl Aggregate {
    /// The number of entries.
    pub open spec fn n(self) -> int {
        self.names@.len() as int
    }

    /// All columns have the same length.
    pub open spec fn lens_ok(self) -> bool {
        &&& self.counts@.len() == self.n()
        &&& self.sums@.len() == self.n()
        &&& self.mins@.len() == self.n()
        &&& self.maxs@.len() == self.n()
    }

    /// The statistics of entry `i`.
    pub open spec fn srec_at(self, i: int) -> SRec {
        SRec {
            count: self.counts@[i] as int,
            sum: self.sums@[i] as int,
            min: self.mins@[i] as int,
            max: self.maxs@[i] as int,
        }
    }

    /// The entries, in presentation order.
    pub open spec fn entries(self) -> Seq<(Seq<u8>, SRec)> {
        Seq::new(self.n() as nat, |i: int| (self.names@[i]@, self.srec_at(i)))
    }

    /// Names strictly ascending: sorted and therefore unique.
    pub open spec fn sorted(self) -> bool {
        forall|i: int, j: int|
            0 <= i < j < self.n() ==> lex_lt(
                (#[trigger] self.names@[i])@,
                (#[trigger] self.names@[j])@,
            )
    }

    /// The aggregate invariant.
    pub open spec fn wf(self) -> bool {
        &&& self.lens_ok()
        &&& self.sorted()
        &&& forall|i: int| 0 <= i < self.n() ==> srec_inv(#[trigger] self.srec_at(i))
    }

    /// The total observation count over all entries.
    pub open spec fn total_upto(self, k: int) -> int
        decreases k,
    {
        if k <= 0 {
            0
        } else {
            self.total_upto(k - 1) + self.counts@[k - 1] as int
        }
    }

    /// The total observation count.
    pub open spec fn total(self) -> int {
        self.total_upto(self.n())
    }

    /// Sorted names never repeat.
    pub proof fn lemma_unique(self)
        requires
            self.sorted(),
        ensures
            forall|x: int, y: int|
                0 <= x < self.n() && 0 <= y < self.n() && x != y ==> (#[trigger] self.entries()[x]).0
                    != (#[trigger] self.entries()[y]).0,
    {
        assert forall|x: int, y: int|
            0 <= x < self.n() && 0 <= y < self.n() && x != y implies (#[trigger] self.entries()[x]).0
            != (#[trigger] self.entries()[y]).0 by {
            if x < y {
                assert(lex_lt(self.names@[x]@, self.names@[y]@));
                lemma_lex_asym(self.names@[x]@, self.names@[y]@);
            } else {
                assert(lex_lt(self.names@[y]@, self.names@[x]@));
                lemma_lex_asym(self.names@[y]@, self.names@[x]@);
            }
        }
    }

    /// Each entry's count is part of the total.
    proof fn lemma_count_le_total(self, i: int, k: int)
        requires
            self.lens_ok(),
            0 <= i < k <= self.n(),
        ensures
            self.counts@[i] as int <= self.total_upto(k),
            0 <= self.total_upto(k),
        decreases k,
    {
        if k > 0 {
            if i == k - 1 {
                self.lemma_total_nonneg(k - 1);
            } else {
                self.lemma_count_le_total(i, k - 1);
            }
        }
    }

    /// Totals are never negative.
    proof fn lemma_total_nonneg(self, k: int)
        requires
            0 <= k <= self.n(),
            self.lens_ok(),
        ensures
            0 <= self.total_upto(k),
        decreases k,
    {
        if k > 0 {
            self.lemma_total_nonneg(k - 1);
        }
    }
}

impl View for Aggregate {
    type V = Map<Seq<u8>, SRec>;

    open spec fn view(&self) -> Map<Seq<u8>, SRec> {
        map_of(self.entries())
    }
}

/// Changing one entry's statistics changes the total by the count
/// difference.
proof fn lemma_agg_total_update(a1: Aggregate, a2: Aggregate, j: int, k: int)
    requires
        a1.lens_ok(),
        a2.lens_ok(),
        a2.n() == a1.n(),
        0 <= j < a1.n(),
        0 <= k <= a1.n(),
        forall|i: int| 0 <= i < a1.n() && i != j ==> #[trigger] a2.counts@[i] == a1.counts@[i],
    ensures
        k <= j ==> a2.total_upto(k) == a1.total_upto(k),
        k > j ==> a2.total_upto(k) == a1.total_upto(k) - a1.counts@[j] + a2.counts@[j],
    decreases k,
{
    if k > 0 {
        lemma_agg_total_update(a1, a2, j, k - 1);
    }
}

/// Inserting an entry adds its count to the total.
proof fn lemma_agg_total_insert(a1: Aggregate, a2: Aggregate, j: int, k: int)
    requires
        a1.lens_ok(),
        a2.lens_ok(),
        a2.n() == a1.n() + 1,
        0 <= j <= a1.n(),
        j < k <= a2.n(),
        forall|i: int| 0 <= i < j ==> #[trigger] a2.counts@[i] == a1.counts@[i],
        forall|i: int| j < i < a2.n() ==> #[trigger] a2.counts@[i] == a1.counts@[i - 1],
    ensures
        a2.total_upto(k) == a1.total_upto(k - 1) + a2.counts@[j],
    decreases k,
{
    if k - 1 == j {
        assert(a2.total_upto(j) == a1.total_upto(j)) by {
            lemma_agg_total_prefix(a1, a2, j);
        }
    } else {
        lemma_agg_total_insert(a1, a2, j, k - 1);
        assert(a2.counts@[k - 1] == a1.counts@[k - 2]);
    }
}

/// Totals over a shared prefix of counts agree.
proof fn lemma_agg_total_prefix(a1: Aggregate, a2: Aggregate, k: int)
    requires
        0 <= k,
        forall|i: int| 0 <= i < k ==> #[trigger] a2.counts@[i] == a1.counts@[i],
    ensures
        a2.total_upto(k) == a1.total_upto(k),
    decreases k,
{
    if k > 0 {
        lemma_agg_total_prefix(a1, a2, k - 1);
    }
}

impl Aggregate {
    /// An empty aggregate.
    pub fn new() -> (a: Aggregate)
        ensures
            a.wf(),
            a@ == Map::<Seq<u8>, SRec>::empty(),
            a.total() == 0,
            a.n() == 0,
    {
        let a = Aggregate {
            names: Vec::new(),
            counts: Vec::new(),
            sums: Vec::new(),
            mins: Vec::new(),
            maxs: Vec::new(),
        };
        proof {
            assert(a.entries() =~= Seq::<(Seq<u8>, SRec)>::empty());
        }
        a
    }

    /// Merge one more entry into the existing entry `i` of the same
    /// name.
    #[verifier::rlimit(100)]
    fn combine_at(&mut self, i: usize, count: u64, sum: i128, mn: i16, mx: i16)
        requires
            old(self).wf(),
            i < old(self).n(),
            srec_inv(SRec { count: count as int, sum: sum as int, min: mn as int, max: mx as int }),
            old(self).total() + count <= 0xFFFF_FFFF_FFFF_FFFF,
        ensures
            final(self).wf(),
            old(self)@.dom().contains(old(self).names@[i as int]@),
            old(self)@[old(self).names@[i as int]@] == old(self).srec_at(i as int),
            final(self)@ == old(self)@.insert(
                old(self).names@[i as int]@,
                srec_merge(
                    old(self).srec_at(i as int),
                    SRec { count: count as int, sum: sum as int, min: mn as int, max: mx as int },
                ),
            ),
            final(self).total() == old(self).total() + count,
            final(self).names@ == old(self).names@,
    {
        let ghost a1 = *self;
        let ghost r2 = SRec { count: count as int, sum: sum as int, min: mn as int, max: mx as int };
        proof {
            self.lemma_count_le_total(i as int, self.n());
            lemma_srec_sum_bounds(self.srec_at(i as int), self.counts@[i as int] as int);
            lemma_srec_sum_bounds(r2, count as int);
            self.lemma_unique();
            lemma_map_of_entry(self.entries(), i as int);
        }
        let c = self.counts[i];
        let sm = self.sums[i];
        let lo = self.mins[i];
        let hi = self.maxs[i];
        self.counts[i] = c + count;
        self.sums[i] = sm + sum;
        self.mins[i] = if mn < lo {
            mn
        } else {
            lo
        };
        self.maxs[i] = if mx > hi {
            mx
        } else {
            hi
        };
        proof {
            assert(self.srec_at(i as int) == srec_merge(a1.srec_at(i as int), r2));
            lemma_srec_merge_inv(a1.srec_at(i as int), r2);
            assert(self.entries().len() == a1.entries().len());
            assert forall|k: int| 0 <= k < a1.n() && k != i as int implies #[trigger] self
                .entries()[k] == a1.entries()[k] by {}
            assert(self.entries()[i as int].0 == a1.entries()[i as int].0);
            lemma_map_of_update(a1.entries(), self.entries(), i as int);
            lemma_agg_total_update(a1, *self, i as int, self.n());
            assert forall|k: int| 0 <= k < self.n() implies srec_inv(
                #[trigger] self.srec_at(k),
            ) by {
                if k != i as int {
                    assert(self.srec_at(k) == a1.srec_at(k));
                }
            }
        }
    }

    /// Insert a new entry at position `i`, between the smaller and the
    /// larger names.
    #[verifier::rlimit(100)]
    fn insert_at(&mut self, i: usize, name: &[u8], count: u64, sum: i128, mn: i16, mx: i16)
        requires
            old(self).wf(),
            i <= old(self).n(),
            srec_inv(SRec { count: count as int, sum: sum as int, min: mn as int, max: mx as int }),
            forall|k: int| 0 <= k < i ==> lex_lt((#[trigger] old(self).names@[k])@, name@),
            forall|k: int|
                i <= k < old(self).n() ==> lex_lt(name@, (#[trigger] old(self).names@[k])@),
        ensures
            final(self).wf(),
            !old(self)@.dom().contains(name@),
            final(self)@ == old(self)@.insert(
                name@,
                SRec { count: count as int, sum: sum as int, min: mn as int, max: mx as int },
            ),
            final(self).total() == old(self).total() + count,
    {
        let ghost a1 = *self;
        let ghost r2 = SRec { count: count as int, sum: sum as int, min: mn as int, max: mx as int };
        proof {
            assert forall|k: int| 0 <= k < a1.n() implies (#[trigger] a1.names@[k])@ != name@ by {
                if k < i as int {
                    lemma_lex_asym(a1.names@[k]@, name@);
                } else {
                    lemma_lex_asym(name@, a1.names@[k]@);
                }
            }
            lemma_map_of_dom(a1.entries(), name@);
        }
        let nv = slice_to_vec(name);
        self.names.insert(i, nv);
        self.counts.insert(i, count);
        self.sums.insert(i, sum);
        self.mins.insert(i, mn);
        self.maxs.insert(i, mx);
        proof {
            a1.names@.insert_ensures(i as int, nv);
            a1.counts@.insert_ensures(i as int, count);
            a1.sums@.insert_ensures(i as int, sum);
            a1.mins@.insert_ensures(i as int, mn);
            a1.maxs@.insert_ensures(i as int, mx);
            assert(self.entries() =~= a1.entries().insert(i as int, (name@, r2)));
            assert forall|k: int| 0 <= k < a1.n() implies (#[trigger] a1.entries()[k]).0
                != name@ by {}
            lemma_map_of_insert(a1.entries(), i as int, (name@, r2));
            lemma_agg_total_insert(a1, *self, i as int, self.n());
            assert forall|x: int, y: int| 0 <= x < y < self.n() implies lex_lt(
                (#[trigger] self.names@[x])@,
                (#[trigger] self.names@[y])@,
            ) by {
                if y < i as int {
                } else if x < i as int && y == i as int {
                } else if x < i as int && y > i as int {
                    assert(self.names@[y] == a1.names@[y - 1]);
                } else if x == i as int {
                    assert(self.names@[y] == a1.names@[y - 1]);
                } else {
                    assert(self.names@[x] == a1.names@[x - 1]);
                    assert(self.names@[y] == a1.names@[y - 1]);
                }
            }
            assert forall|k: int| 0 <= k < self.n() implies srec_inv(
                #[trigger] self.srec_at(k),
            ) by {
                if k < i as int {
                    assert(self.srec_at(k) == a1.srec_at(k));
                } else if k > i as int {
                    assert(self.srec_at(k) == a1.srec_at(k - 1));
                }
            }
        }
    }

    /// Fold one whole entry into the aggregate: combine it with the
    /// entry of the same name, or insert it at its sorted position.
    pub fn absorb(&mut self, name: &[u8], count: u64, sum: i128, mn: i16, mx: i16)
        requires
            old(self).wf(),
            srec_inv(SRec { count: count as int, sum: sum as int, min: mn as int, max: mx as int }),
            old(self).total() + count <= 0xFFFF_FFFF_FFFF_FFFF,
        ensures
            final(self).wf(),
            final(self)@ == combine1(
                old(self)@,
                name@,
                SRec { count: count as int, sum: sum as int, min: mn as int, max: mx as int },
            ),
            final(self).total() == old(self).total() + count,
    {
        let n = self.names.len();
        let mut i: usize = 0;
        while i < n && lex_less(self.names[i].as_slice(), name)
            invariant
                0 <= i <= n,
                n == self.n(),
                self.wf(),
                *self == *old(self),
                forall|k: int| 0 <= k < i ==> lex_lt((#[trigger] self.names@[k])@, name@),
            decreases n - i,
        {
            i = i + 1;
        }
        if i < n {
            let eq = {
                let nm = &self.names[i];
                crate::table::bytes_eq_vec(name, nm)
            };
            if eq {
                self.combine_at(i, count, sum, mn, mx);
                return ;
            }
        }
        proof {
            assert forall|k: int| i as int <= k < self.n() implies lex_lt(
                name@,
                (#[trigger] self.names@[k])@,
            ) by {
                if k == i as int {
                    lemma_lex_total(name@, self.names@[k]@);
                } else {
                    lemma_lex_total(name@, self.names@[i as int]@);
                    assert(lex_lt(self.names@[i as int]@, self.names@[k]@));
                    lemma_lex_trans(name@, self.names@[i as int]@, self.names@[k]@);
                }
            }
        }
        self.insert_at(i, name, count, sum, mn, mx);
    }

    /// Fold a worker's table into the aggregate, slot by slot; empty
    /// slots are skipped. The result is the pointwise merge of the two
    /// aggregates.
    pub fn fold_table(&mut self, t: &ChunkTable)
        requires
            old(self).wf(),
            t.wf(),
            old(self).total() + t.total_upto(TABLE_CAP as int) <= 0xFFFF_FFFF_FFFF_FFFF,
        ensures
            final(self).wf(),
            final(self)@ == combine(old(self)@, t@),
            final(self).total() == old(self).total() + t.total_upto(TABLE_CAP as int),
    {
        proof {
            lemma_combine_empty(old(self)@);
            self.lemma_total_nonneg(self.n());
        }
        let mut j: usize = 0;
        while j < TABLE_CAP
            invariant
                0 <= j <= TABLE_CAP,
                self.wf(),
                t.wf(),
                old(self).total() + t.total_upto(TABLE_CAP as int) <= 0xFFFF_FFFF_FFFF_FFFF,
                0 <= old(self).total(),
                self@ == combine(old(self)@, t.view_upto(j as int)),
                self.total() == old(self).total() + t.total_upto(j as int),
            decreases TABLE_CAP - j,
        {
            let h = t.hashes[j];
            if h != 0 {
                proof {
                    assert(t.occ(j as int));
                    let nj = t.names@[j as int]@;
                    crate::table::lemma_view_dom(*t, j as int, nj);
                    if t.view_upto(j as int).dom().contains(nj) {
                        let q = choose|q: int|
                            0 <= q < j as int && #[trigger] t.occ(q) && t.names@[q]@ == nj;
                        assert(false);
                    }
                    lemma_combine_insert(
                        old(self)@,
                        t.view_upto(j as int),
                        t.names@[j as int]@,
                        t.srec_at(j as int),
                    );
                    lemma_table_total_mono_use(*t, j as int);
                }
                let nm = &t.names[j];
                let count = t.counts[j];
                let sum = t.sums[j];
                let mn = t.mins[j];
                let mx = t.maxs[j];
                self.absorb(nm.as_slice(), count, sum, mn, mx);
            }
            j = j + 1;
        }
    }

    /// Merge another aggregate into this one, entry by entry.
    pub fn merge_from(&mut self, other: &Aggregate)
        requires
            old(self).wf(),
            other.wf(),
            old(self).total() + other.total() <= 0xFFFF_FFFF_FFFF_FFFF,
        ensures
            final(self).wf(),
            final(self)@ == combine(old(self)@, other@),
            final(self).total() == old(self).total() + other.total(),
    {
        proof {
            lemma_combine_empty(old(self)@);
            self.lemma_total_nonneg(self.n());
            other.lemma_unique();
            assert(map_of(other.entries().subrange(0, 0)) =~= Map::<Seq<u8>, SRec>::empty());
        }
        let n = other.names.len();
        let mut j: usize = 0;
        while j < n
            invariant
                0 <= j <= n,
                n == other.n(),
                self.wf(),
                other.wf(),
                old(self).total() + other.total() <= 0xFFFF_FFFF_FFFF_FFFF,
                0 <= old(self).total(),
                self@ == combine(old(self)@, map_of(other.entries().subrange(0, j as int))),
                self.total() == old(self).total() + other.total_upto(j as int),
            decreases n - j,
        {
            proof {
                let es = other.entries().subrange(0, j as int + 1);
                assert(es.drop_last() =~= other.entries().subrange(0, j as int));
                assert(es.last() == other.entries()[j as int]);
                other.lemma_unique();
                lemma_map_of_dom(other.entries().subrange(0, j as int), other.names@[j as int]@);
                if map_of(other.entries().subrange(0, j as int)).dom().contains(
                    other.names@[j as int]@,
                ) {
                    let q = choose|q: int|
                        0 <= q < j as int && (#[trigger] other.entries().subrange(0, j as int)[q]).0
                            == other.names@[j as int]@;
                    assert(other.entries()[q].0 == other.entries()[j as int].0);
                    assert(false);
                }
                lemma_combine_insert(
                    old(self)@,
                    map_of(other.entries().subrange(0, j as int)),
                    other.names@[j as int]@,
                    other.srec_at(j as int),
                );
                other.lemma_count_le_total(j as int, other.n());
                lemma_agg_total_mono(*other, j as int + 1, other.n());
            }
            let nm = &other.names[j];
            let count = other.counts[j];
            let sum = other.sums[j];
            let mn = other.mins[j];
            let mx = other.maxs[j];
            self.absorb(nm.as_slice(), count, sum, mn, mx);
            j = j + 1;
        }
        proof {
            assert(other.entries().subrange(0, n as int) =~= other.entries());
        }
    }
}

/// Aggregate totals only grow with the prefix length.
proof fn lemma_agg_total_mono(a: Aggregate, k1: int, k2: int)
    requires
        a.lens_ok(),
        0 <= k1 <= k2 <= a.n(),
    ensures
        a.total_upto(k1) <= a.total_upto(k2),
    decreases k2,
{
    if k2 > 0 && k1 < k2 {
        lemma_agg_total_mono(a, k1, k2 - 1);
    }
}

/// A slot's count is part of the table's total.
proof fn lemma_table_total_mono_use(t: ChunkTable, j: int)
    requires
        t.lens_ok(),
        0 <= j < TABLE_CAP,
    ensures
        t.total_upto(j) + t.slot_count(j) == t.total_upto(j + 1),
        t.total_upto(j + 1) <= t.total_upto(TABLE_CAP as int),
        0 <= t.total_upto(j),
{
    crate::table::lemma_table_total_mono(t, j + 1, TABLE_CAP as int);
    crate::table::lemma_table_total_mono(t, 0, j);
}

} // verus!
