//! The per-worker open-addressing hash table and the chunk aggregator.
//!
//! One worker scans its chunk record by record: it finds the separator,
//! digests the name, decodes the value, and folds the record into a
//! fixed-capacity table addressed by `hash mod capacity` with linear
//! probing. A hash of 0 marks an empty slot; the digest never returns 0,
//! so the sentinel is unambiguous. Two distinct names may share a digest
//! (it reads only the first eight name bytes): slots match on the full
//! name bytes, never on the digest alone, so colliding names aggregate
//! independently.

use vstd::prelude::*;
use vstd::arithmetic::div_mod::lemma_add_mod_noop;
use vstd::arithmetic::div_mod::lemma_mod_bound;
use vstd::arithmetic::div_mod::lemma_mod_multiples_vanish;
use vstd::arithmetic::div_mod::lemma_small_mod;
use vstd::set_lib::lemma_len_subset;
use vstd::slice::slice_subrange;
use vstd::slice::slice_to_vec;
use crate::ScanError;
use crate::hashing::hash;
use crate::hashing::hash_of;
use crate::parse::parse_temperature;
use crate::parse::lemma_temp_bounds;
use crate::parse::temp_text_len;
use crate::parse::temp_value;
use crate::parse::temp_wf;
use crate::scan::find_byte_first;
use crate::stats::SRec;
use crate::stats::map_inv;
use crate::stats::srec_inv;
use crate::stats::srec_add;
use crate::stats::srec_single;
use crate::stats::upd_map;

verus! {

/// Capacity of a per-worker table: comfortably above the expected
/// number of distinct names.
pub const TABLE_CAP: usize = 32768;

/// Index of the first separator (ASCII 59) at or after `from`.
pub open spec fn first_semi_from(s: Seq<u8>, from: int) -> Option<int>
    decreases s.len() - from,
{
    if from < 0 || from >= s.len() {
        None
    } else if s[from] == 59 {
        Some(from)
    } else {
        first_semi_from(s, from + 1)
    }
}

/// What `first_semi_from` finding (or missing) a separator means for
/// the bytes themselves.
pub proof fn lemma_semi_props(s: Seq<u8>, from: int)
    requires
        0 <= from <= s.len(),
    ensures
        match first_semi_from(s, from) {
            Some(j) => from <= j < s.len() && s[j] == 59 && (forall|t: int|
                from <= t < j ==> s[t] != 59),
            None => forall|t: int| from <= t < s.len() ==> s[t] != 59,
        },
    decreases s.len() - from,
{
    if from < s.len() && s[from] != 59 {
        lemma_semi_props(s, from + 1);
    }
}

/// A separator at `k` with none before it pins `first_semi_from`.
proof fn lemma_semi_at(s: Seq<u8>, from: int, k: int)
    requires
        0 <= from <= k < s.len(),
        s[k] == 59,
        forall|t: int| from <= t < k ==> s[t] != 59,
    ensures
        first_semi_from(s, from) == Some(k),
    decreases k - from,
{
    if from < k {
        lemma_semi_at(s, from + 1, k);
    }
}

/// No separator from `from` on pins `first_semi_from` to `None`.
proof fn lemma_no_semi(s: Seq<u8>, from: int)
    requires
        0 <= from <= s.len(),
        forall|t: int| from <= t < s.len() ==> s[t] != 59,
    ensures
        first_semi_from(s, from) is None,
    decreases s.len() - from,
{
    if from < s.len() {
        lemma_no_semi(s, from + 1);
    }
}

/// The name of the record at the head of `u`: the bytes before the
/// first separator.
pub open spec fn rec_name(u: Seq<u8>) -> Seq<u8> {
    u.subrange(0, first_semi_from(u, 0).unwrap())
}

/// The bytes after the record's separator, where its value starts.
pub open spec fn rec_tail(u: Seq<u8>) -> Seq<u8> {
    u.skip(first_semi_from(u, 0).unwrap() + 1)
}

/// How far the scanner advances past the record at the head of `u`:
/// name, separator, value text and line terminator.
pub open spec fn rec_adv(u: Seq<u8>) -> int {
    first_semi_from(u, 0).unwrap() + 1 + temp_text_len(rec_tail(u)) + 1
}

/// What remains of `u` after its first record.
pub open spec fn rec_next(u: Seq<u8>) -> Seq<u8> {
    if rec_adv(u) < u.len() {
        u.skip(rec_adv(u))
    } else {
        Seq::empty()
    }
}

/// Scanning `u` succeeds (`None`), or stops at the first record with no
/// separator before the end of the chunk, or at the first value that
/// does not match the fixed-point grammar.
pub open spec fn scan_status(u: Seq<u8>) -> Option<ScanError>
    decreases u.len(),
    via scan_status_dec
{
    if u.len() == 0 {
        None
    } else if first_semi_from(u, 0) is None {
        Some(ScanError::MissingSeparator)
    } else if !temp_wf(rec_tail(u)) {
        Some(ScanError::BadValue)
    } else {
        scan_status(rec_next(u))
    }
}

/// A scanned record spans at least one byte, so the rest of the chunk is
/// strictly shorter.
pub proof fn lemma_rec_next_shrinks(u: Seq<u8>)
    ensures
        (u.len() > 0 && first_semi_from(u, 0) is Some && temp_wf(rec_tail(u))) ==> rec_next(
            u,
        ).len() < u.len(),
{
    if u.len() > 0 && first_semi_from(u, 0) is Some && temp_wf(rec_tail(u)) {
        lemma_semi_props(u, 0);
        lemma_temp_bounds(rec_tail(u));
    }
}

#[via_fn]
proof fn scan_status_dec(u: Seq<u8>) {
    lemma_rec_next_shrinks(u);
}

/// The aggregate of the records of `u`, folded into `m`.
pub open spec fn spec_agg(u: Seq<u8>, m: Map<Seq<u8>, SRec>) -> Map<Seq<u8>, SRec>
    decreases u.len(),
    via spec_agg_dec
{
    if u.len() == 0 || first_semi_from(u, 0) is None || !temp_wf(rec_tail(u)) {
        m
    } else {
        spec_agg(rec_next(u), upd_map(m, rec_name(u), temp_value(rec_tail(u))))
    }
}

#[via_fn]
proof fn spec_agg_dec(u: Seq<u8>, m: Map<Seq<u8>, SRec>) {
    lemma_rec_next_shrinks(u);
}

/// The set of record names that a scan of `u` meets.
pub open spec fn names_of(u: Seq<u8>) -> Set<Seq<u8>>
    decreases u.len(),
    via names_of_dec
{
    if u.len() == 0 || first_semi_from(u, 0) is None || !temp_wf(rec_tail(u)) {
        Set::empty()
    } else {
        names_of(rec_next(u)).insert(rec_name(u))
    }
}

#[via_fn]
proof fn names_of_dec(u: Seq<u8>) {
    lemma_rec_next_shrinks(u);
}

/// The name set of any chunk is finite.
pub proof fn lemma_names_finite(u: Seq<u8>)
    ensures
        names_of(u).finite(),
    decreases u.len(),
{
    if !(u.len() == 0 || first_semi_from(u, 0) is None || !temp_wf(rec_tail(u))) {
        lemma_rec_next_shrinks(u);
        lemma_names_finite(rec_next(u));
    }
}

/// How many probe steps separate slot `j` from the home slot `h`,
/// scanning forward and wrapping at the capacity.
pub open spec fn probe_dist(h: int, j: int) -> int {
    if j >= h {
        j - h
    } else {
        j + TABLE_CAP as int - h
    }
}

/// A worker's table: six parallel columns of `TABLE_CAP` slots. A slot
/// with hash 0 is empty; the stored name bytes are the full key.
pub struct ChunkTable {
    pub hashes: Vec<u64>,
    pub names: Vec<Vec<u8>>,
    pub counts: Vec<u64>,
    pub sums: Vec<i128>,
    pub mins: Vec<i16>,
    pub maxs: Vec<i16>,
}

impl ChunkTable {
    /// Slot `j` holds an entry.
    pub open spec fn occ(self, j: int) -> bool {
        self.hashes@[j] != 0
    }

    /// The statistics stored in slot `j`, as the model sees them.
    pub open spec fn srec_at(self, j: int) -> SRec {
        SRec {
            count: self.counts@[j] as int,
            sum: self.sums@[j] as int,
            min: self.mins@[j] as int,
            max: self.maxs@[j] as int,
        }
    }

    /// The home slot of the entry in slot `j`.
    pub open spec fn home_of(self, j: int) -> int {
        self.hashes@[j] as int % (TABLE_CAP as int)
    }

    /// All six columns have the fixed capacity.
    pub open spec fn lens_ok(self) -> bool {
        &&& self.hashes@.len() == TABLE_CAP
        &&& self.names@.len() == TABLE_CAP
        &&& self.counts@.len() == TABLE_CAP
        &&& self.sums@.len() == TABLE_CAP
        &&& self.mins@.len() == TABLE_CAP
        &&& self.maxs@.len() == TABLE_CAP
    }

    /// The `d` slots scanned forward from `h` are all occupied.
    pub open spec fn path_occupied(self, h: int, d: int) -> bool {
        forall|t: int| 0 <= t < d ==> #[trigger] self.occ((h + t) % (TABLE_CAP as int))
    }

    /// The table invariant: occupied slots store the digest of their own
    /// name, no name appears twice, every entry satisfies the statistics
    /// invariant, and the probe path from an entry's home slot to its
    /// slot is fully occupied (so a probe can never miss it).
    pub open spec fn wf(self) -> bool {
        &&& self.lens_ok()
        &&& forall|j: int|
            0 <= j < TABLE_CAP && #[trigger] self.occ(j) ==> self.hashes@[j] == hash_of(
                self.names@[j]@,
            )
        &&& forall|j: int|
            0 <= j < TABLE_CAP && #[trigger] self.occ(j) ==> srec_inv(self.srec_at(j))
        &&& forall|i: int, j: int|
            0 <= i < TABLE_CAP && 0 <= j < TABLE_CAP && i != j && #[trigger] self.occ(i)
                && #[trigger] self.occ(j) ==> self.names@[i]@ != self.names@[j]@
        &&& forall|j: int|
            0 <= j < TABLE_CAP && #[trigger] self.occ(j) ==> self.path_occupied(
                self.home_of(j),
                probe_dist(self.home_of(j), j),
            )
    }

    /// Every occupied slot counts at most `rb` observations.
    pub open spec fn counts_bounded(self, rb: int) -> bool {
        forall|j: int|
            0 <= j < TABLE_CAP && #[trigger] self.occ(j) ==> self.counts@[j] as int <= rb
    }

    /// The observation count held by slot `j` (0 when empty).
    pub open spec fn slot_count(self, j: int) -> int {
        if self.occ(j) {
            self.counts@[j] as int
        } else {
            0
        }
    }

    /// The total observation count of the first `k` slots.
    pub open spec fn total_upto(self, k: int) -> int
        decreases k,
    {
        if k <= 0 {
            0
        } else {
            self.total_upto(k - 1) + self.slot_count(k - 1)
        }
    }

    /// The aggregate held by the first `k` slots.
    pub open spec fn view_upto(self, k: int) -> Map<Seq<u8>, SRec>
        decreases k,
    {
        if k <= 0 {
            Map::empty()
        } else {
            let m = self.view_upto(k - 1);
            if self.occ(k - 1) {
                m.insert(self.names@[k - 1]@, self.srec_at(k - 1))
            } else {
                m
            }
        }
    }

    /// How many of the first `k` slots are occupied.
    pub open spec fn occ_count(self, k: int) -> int
        decreases k,
    {
        if k <= 0 {
            0
        } else {
            self.occ_count(k - 1) + if self.occ(k - 1) {
                1int
            } else {
                0int
            }
        }
    }
}

impl View for ChunkTable {
    type V = Map<Seq<u8>, SRec>;

    open spec fn view(&self) -> Map<Seq<u8>, SRec> {
        self.view_upto(TABLE_CAP as int)
    }
}

/// A name is in the aggregate of the first `k` slots exactly when one of
/// them holds it.
pub proof fn lemma_view_dom(t: ChunkTable, k: int, n: Seq<u8>)
    requires
        t.lens_ok(),
        0 <= k <= TABLE_CAP,
    ensures
        t.view_upto(k).dom().contains(n) <==> exists|j: int|
            0 <= j < k && #[trigger] t.occ(j) && t.names@[j]@ == n,
    decreases k,
{
    if k > 0 {
        lemma_view_dom(t, k - 1, n);
        if t.occ(k - 1) && t.names@[k - 1]@ == n {
            assert(t.view_upto(k).dom().contains(n));
        }
    }
}

/// An occupied slot's entry survives into the aggregate of any longer
/// prefix of slots.
proof fn lemma_view_entry(t: ChunkTable, j: int, k: int)
    requires
        t.wf(),
        0 <= j < k <= TABLE_CAP,
        t.occ(j),
    ensures
        t.view_upto(k).dom().contains(t.names@[j]@),
        t.view_upto(k)[t.names@[j]@] == t.srec_at(j),
    decreases k,
{
    if j == k - 1 {
    } else {
        lemma_view_entry(t, j, k - 1);
    }
}

/// The aggregate of the first `k` slots has one entry per occupied slot.
proof fn lemma_view_card(t: ChunkTable, k: int)
    requires
        t.wf(),
        0 <= k <= TABLE_CAP,
    ensures
        t.view_upto(k).dom().finite(),
        t.view_upto(k).dom().len() == t.occ_count(k),
    decreases k,
{
    if k > 0 {
        lemma_view_card(t, k - 1);
        if t.occ(k - 1) {
            lemma_view_dom(t, k - 1, t.names@[k - 1]@);
            assert(!t.view_upto(k - 1).dom().contains(t.names@[k - 1]@));
        }
    }
}

/// Slot totals only grow with the prefix length.
pub proof fn lemma_table_total_mono(t: ChunkTable, k1: int, k2: int)
    requires
        t.lens_ok(),
        0 <= k1 <= k2 <= TABLE_CAP,
    ensures
        t.total_upto(k1) <= t.total_upto(k2),
        0 <= t.total_upto(k2),
    decreases k2,
{
    if k2 > 0 {
        if k1 == k2 {
            lemma_table_total_mono(t, 0, k2 - 1);
        } else {
            lemma_table_total_mono(t, k1, k2 - 1);
        }
    }
}

/// Changing slot `j` alone shifts the total by that slot's change.
proof fn lemma_table_total_change(t1: ChunkTable, t2: ChunkTable, j: int, k: int)
    requires
        t1.lens_ok(),
        t2.lens_ok(),
        0 <= j < TABLE_CAP,
        0 <= k <= TABLE_CAP,
        forall|i: int|
            0 <= i < TABLE_CAP && i != j ==> #[trigger] t2.hashes@[i] == t1.hashes@[i]
                && t2.counts@[i] == t1.counts@[i],
    ensures
        k <= j ==> t2.total_upto(k) == t1.total_upto(k),
        k > j ==> t2.total_upto(k) == t1.total_upto(k) - t1.slot_count(j) + t2.slot_count(j),
    decreases k,
{
    if k > 0 {
        lemma_table_total_change(t1, t2, j, k - 1);
    }
}

/// A table whose every slot is occupied has a full count.
proof fn lemma_occ_count_full(t: ChunkTable, k: int)
    requires
        0 <= k <= TABLE_CAP,
        forall|j: int| 0 <= j < TABLE_CAP ==> #[trigger] t.occ(j),
    ensures
        t.occ_count(k) == k,
    decreases k,
{
    if k > 0 {
        lemma_occ_count_full(t, k - 1);
    }
}

/// Every entry of a well-formed table's aggregate satisfies the entry
/// invariant.
pub proof fn lemma_view_inv(t: ChunkTable)
    requires
        t.wf(),
    ensures
        map_inv(t@),
{
    assert forall|n: Seq<u8>| t@.dom().contains(n) implies srec_inv(#[trigger] t@[n]) by {
        lemma_view_dom(t, TABLE_CAP as int, n);
        let j = choose|j: int| 0 <= j < TABLE_CAP && #[trigger] t.occ(j) && t.names@[j]@ == n;
        lemma_view_entry(t, j, TABLE_CAP as int);
    }
}

/// Changing one slot `j` to hold name `n` (fresh among the other slots)
/// and record `r` turns the table's aggregate into the old aggregate
/// with `n` bound to `r`.
proof fn lemma_view_update(t1: ChunkTable, t2: ChunkTable, j: int, k: int)
    requires
        t1.lens_ok(),
        t2.lens_ok(),
        0 <= j < TABLE_CAP,
        0 <= k <= TABLE_CAP,
        forall|i: int|
            0 <= i < TABLE_CAP && i != j ==> #[trigger] t2.hashes@[i] == t1.hashes@[i]
                && t2.names@[i] == t1.names@[i] && t2.counts@[i] == t1.counts@[i]
                && t2.sums@[i] == t1.sums@[i] && t2.mins@[i] == t1.mins@[i] && t2.maxs@[i]
                == t1.maxs@[i],
        t2.occ(j),
        t1.occ(j) ==> t1.names@[j]@ == t2.names@[j]@,
        forall|i: int|
            0 <= i < TABLE_CAP && i != j && #[trigger] t1.occ(i) ==> t1.names@[i]@
                != t2.names@[j]@,
    ensures
        k <= j ==> t2.view_upto(k) == t1.view_upto(k),
        k > j ==> t2.view_upto(k) == t1.view_upto(k).insert(t2.names@[j]@, t2.srec_at(j)),
    decreases k,
{
    if k > 0 {
        lemma_view_update(t1, t2, j, k - 1);
        let n = t2.names@[j]@;
        let r = t2.srec_at(j);
        if k - 1 < j {
            assert(t2.occ(k - 1) == t1.occ(k - 1));
            if t1.occ(k - 1) {
                assert(t2.srec_at(k - 1) == t1.srec_at(k - 1));
            }
            assert(t2.view_upto(k) == t1.view_upto(k));
        } else if k - 1 == j {
            // both prefixes agree below `j`; slot `j`'s old entry, when
            // there is one, carries the same name and is overwritten
            assert(t2.view_upto(k) == t1.view_upto(j).insert(n, r));
            if t1.occ(j) {
                assert(t1.view_upto(k) == t1.view_upto(j).insert(n, t1.srec_at(j)));
                assert(t1.view_upto(k).insert(n, r) =~= t1.view_upto(j).insert(n, r));
            } else {
                assert(t1.view_upto(k) == t1.view_upto(j));
            }
        } else {
            // k - 1 > j
            assert(t2.occ(k - 1) == t1.occ(k - 1));
            if t1.occ(k - 1) {
                let c = t1.names@[k - 1]@;
                assert(t2.names@[k - 1] == t1.names@[k - 1]);
                assert(c != n);
                assert(t2.srec_at(k - 1) == t1.srec_at(k - 1));
                assert(t2.view_upto(k) == t1.view_upto(k - 1).insert(n, r).insert(
                    c,
                    t1.srec_at(k - 1),
                ));
                assert(t1.view_upto(k - 1).insert(n, r).insert(c, t1.srec_at(k - 1)) =~= t1
                    .view_upto(k - 1).insert(c, t1.srec_at(k - 1)).insert(n, r));
            }
        }
    }
}

/// A probe that reaches an empty slot after `p` mismatching occupied
/// slots shows the name is in no slot at all: an entry with that name
/// would have a fully occupied path covering the empty slot, or the
/// probe would already have matched it.
proof fn lemma_probe_miss(t: ChunkTable, name: Seq<u8>, rh: u64, home: int, p: int, idx: int)
    requires
        t.wf(),
        rh == hash_of(name),
        0 <= home < TABLE_CAP,
        0 <= p < TABLE_CAP,
        home == rh as int % (TABLE_CAP as int),
        idx == (home + p) % (TABLE_CAP as int),
        0 <= idx < TABLE_CAP,
        !t.occ(idx),
        forall|tt: int|
            0 <= tt < p ==> #[trigger] t.occ((home + tt) % (TABLE_CAP as int)) && t.names@[(home
                + tt) % (TABLE_CAP as int)]@ != name,
    ensures
        forall|q: int| 0 <= q < TABLE_CAP && #[trigger] t.occ(q) ==> t.names@[q]@ != name,
{
    let cap = TABLE_CAP as int;
    assert forall|q: int| 0 <= q < TABLE_CAP && #[trigger] t.occ(q) implies t.names@[q]@
        != name by {
        if t.names@[q]@ == name {
            assert(t.hashes@[q] == hash_of(name));
            let d = probe_dist(home, q);
            lemma_point_on_path(home, q);
            assert(t.path_occupied(home, d));
            if p < d {
                assert(t.occ((home + p) % cap));
                assert(false);
            } else if p == d {
                assert(false);
            } else {
                assert(t.occ((home + d) % cap) && t.names@[(home + d) % cap]@ != name);
                assert(false);
            }
        }
    }
}

/// A probe that wrapped all the way around saw every slot occupied, so
/// the aggregate holds as many entries as the table has slots.
proof fn lemma_probe_exhausted(t: ChunkTable, home: int, p: int)
    requires
        t.wf(),
        0 <= home < TABLE_CAP,
        p == TABLE_CAP as int,
        forall|tt: int| 0 <= tt < p ==> #[trigger] t.occ((home + tt) % (TABLE_CAP as int)),
    ensures
        t@.dom().len() >= TABLE_CAP,
{
    let cap = TABLE_CAP as int;
    assert forall|j: int| 0 <= j < TABLE_CAP implies #[trigger] t.occ(j) by {
        lemma_point_on_path(home, j);
        let tt = probe_dist(home, j);
        assert(t.occ((home + tt) % cap));
    }
    lemma_occ_count_full(t, cap);
    lemma_view_card(t, cap);
}

/// One failed probe extends the mismatching occupied path by one slot.
proof fn lemma_probe_advance(
    t: ChunkTable,
    name: Seq<u8>,
    home: int,
    p: int,
    old_idx: int,
    new_idx: int,
)
    requires
        t.wf(),
        0 <= home < TABLE_CAP,
        0 <= p < TABLE_CAP,
        old_idx == (home + p) % (TABLE_CAP as int),
        0 <= old_idx < TABLE_CAP,
        t.occ(old_idx),
        t.names@[old_idx]@ != name,
        new_idx == (old_idx + 1) % (TABLE_CAP as int),
        forall|tt: int|
            0 <= tt < p ==> #[trigger] t.occ((home + tt) % (TABLE_CAP as int)) && t.names@[(home
                + tt) % (TABLE_CAP as int)]@ != name,
    ensures
        new_idx == (home + (p + 1)) % (TABLE_CAP as int),
        0 <= new_idx < TABLE_CAP,
        forall|tt: int|
            0 <= tt < p + 1 ==> #[trigger] t.occ((home + tt) % (TABLE_CAP as int)) && t.names@[(
            home + tt) % (TABLE_CAP as int)]@ != name,
        p + 1 == TABLE_CAP ==> t@.dom().len() >= TABLE_CAP,
{
    let cap = TABLE_CAP as int;
    lemma_add_mod_noop(home + p, 1, cap);
    lemma_small_mod(1nat, cap as nat);
    lemma_mod_bound(home + p + 1, cap);
    assert forall|tt: int|
        0 <= tt < p + 1 implies #[trigger] t.occ((home + tt) % cap) && t.names@[(home + tt)
        % cap]@ != name by {
        if tt == p {
            assert((home + tt) % cap == old_idx);
        }
    }
    if p + 1 == TABLE_CAP {
        lemma_probe_exhausted(t, home, p + 1);
    }
}

/// Walking `p` slots forward from `h` and wrapping lands `p` steps away.
proof fn lemma_dist_roundtrip(h: int, p: int)
    requires
        0 <= h < TABLE_CAP,
        0 <= p < TABLE_CAP,
    ensures
        0 <= (h + p) % (TABLE_CAP as int) < TABLE_CAP,
        probe_dist(h, (h + p) % (TABLE_CAP as int)) == p,
{
    let cap = TABLE_CAP as int;
    if h + p < cap {
        lemma_small_mod((h + p) as nat, cap as nat);
    } else {
        lemma_mod_multiples_vanish(1, h + p - cap, cap);
        lemma_small_mod((h + p - cap) as nat, cap as nat);
    }
}

/// Every slot lies on the wrapped path of length `TABLE_CAP` from any
/// home slot.
proof fn lemma_point_on_path(h: int, j: int)
    requires
        0 <= h < TABLE_CAP,
        0 <= j < TABLE_CAP,
    ensures
        0 <= probe_dist(h, j) < TABLE_CAP,
        (h + probe_dist(h, j)) % (TABLE_CAP as int) == j,
{
    let cap = TABLE_CAP as int;
    let d = probe_dist(h, j);
    if j >= h {
        lemma_small_mod(j as nat, cap as nat);
    } else {
        lemma_mod_multiples_vanish(1, j, cap);
        lemma_small_mod(j as nat, cap as nat);
    }
}

/// Does the value grammar `'-'? digit{1,2} '.' digit` hold at the head
/// of `chars`?
fn check_temp_wf(chars: &[u8]) -> (r: bool)
    ensures
        r == temp_wf(chars@),
{
    let n = chars.len();
    let off: usize = if n > 0 && chars[0] == 45 {
        1
    } else {
        0
    };
    if n < off + 3 {
        return false;
    }
    if !(48 <= chars[off] && chars[off] <= 57) {
        return false;
    }
    if chars[off + 1] == 46 {
        48 <= chars[off + 2] && chars[off + 2] <= 57
    } else {
        if !(48 <= chars[off + 1] && chars[off + 1] <= 57) {
            return false;
        }
        if n < off + 4 {
            return false;
        }
        if chars[off + 2] != 46 {
            return false;
        }
        48 <= chars[off + 3] && chars[off + 3] <= 57
    }
}

/// Byte-for-byte equality of a slice and a vector.
pub fn bytes_eq_vec(a: &[u8], v: &Vec<u8>) -> (r: bool)
    ensures
        r == (a@ == v@),
{
    if a.len() != v.len() {
        return false;
    }
    let mut i: usize = 0;
    while i < a.len()
        invariant
            0 <= i <= a@.len(),
            a@.len() == v@.len(),
            forall|k: int| 0 <= k < i ==> a@[k] == v@[k],
        decreases a@.len() - i,
    {
        if a[i] != v[i] {
            return false;
        }
        i = i + 1;
    }
    proof {
        assert(a@ =~= v@);
    }
    true
}

impl ChunkTable {
    /// A fresh table of empty slots.
    pub fn new() -> (t: ChunkTable)
        ensures
            t.wf(),
            t@ == Map::<Seq<u8>, SRec>::empty(),
            t.counts_bounded(0),
            t.total_upto(TABLE_CAP as int) == 0,
    {
        let mut hashes: Vec<u64> = Vec::new();
        let mut names: Vec<Vec<u8>> = Vec::new();
        let mut counts: Vec<u64> = Vec::new();
        let mut sums: Vec<i128> = Vec::new();
        let mut mins: Vec<i16> = Vec::new();
        let mut maxs: Vec<i16> = Vec::new();
        let mut i: usize = 0;
        while i < TABLE_CAP
            invariant
                0 <= i <= TABLE_CAP,
                hashes@.len() == i,
                names@.len() == i,
                counts@.len() == i,
                sums@.len() == i,
                mins@.len() == i,
                maxs@.len() == i,
                forall|j: int| 0 <= j < i ==> hashes@[j] == 0,
            decreases TABLE_CAP - i,
        {
            hashes.push(0);
            names.push(Vec::new());
            counts.push(0);
            sums.push(0);
            mins.push(0);
            maxs.push(0);
            i = i + 1;
        }
        let t = ChunkTable { hashes, names, counts, sums, mins, maxs };
        proof {
            lemma_view_all_empty(t, TABLE_CAP as int);
        }
        t
    }

    /// Claim the empty slot `idx` for a name not yet in the table, at
    /// the end of a fully occupied probe path from the digest's home
    /// slot.
    #[verifier::rlimit(100)]
    fn claim_slot(
        &mut self,
        idx: usize,
        name: &[u8],
        rh: u64,
        v: i16,
        Ghost(home): Ghost<int>,
        Ghost(p): Ghost<int>,
        Ghost(rb): Ghost<int>,
    )
        requires
            old(self).wf(),
            idx < TABLE_CAP,
            rh == hash_of(name@),
            -999 <= v <= 999,
            !old(self).occ(idx as int),
            0 <= home < TABLE_CAP,
            0 <= p < TABLE_CAP,
            home == rh as int % (TABLE_CAP as int),
            idx as int == (home + p) % (TABLE_CAP as int),
            forall|t: int| 0 <= t < p ==> #[trigger] old(self).occ((home + t) % (TABLE_CAP as int)),
            forall|q: int|
                0 <= q < TABLE_CAP && #[trigger] old(self).occ(q) ==> old(self).names@[q]@
                    != name@,
            old(self).counts_bounded(rb),
            0 <= rb,
        ensures
            final(self).wf(),
            !old(self)@.dom().contains(name@),
            final(self)@ == old(self)@.insert(name@, srec_single(v as int)),
            final(self).counts_bounded(rb + 1),
            final(self).total_upto(TABLE_CAP as int) == old(self).total_upto(TABLE_CAP as int)
                + 1,
    {
        let ghost cap = TABLE_CAP as int;
        proof {
            lemma_view_dom(*self, cap, name@);
        }
        let name_vec: Vec<u8> = slice_to_vec(name);
        let ghost t1 = *self;
        self.hashes[idx] = rh;
        self.names[idx] = name_vec;
        self.counts[idx] = 1;
        self.sums[idx] = v as i128;
        self.mins[idx] = v;
        self.maxs[idx] = v;
        proof {
            assert(hash_of(name@) != 0);
            assert(self.occ(idx as int));
            lemma_view_update(t1, *self, idx as int, cap);
            assert(self.srec_at(idx as int) == srec_single(v as int));
            lemma_probe_wf_after(t1, *self, idx as int, home, p);
            lemma_table_total_change(t1, *self, idx as int, cap);
            assert forall|q: int|
                0 <= q < TABLE_CAP && #[trigger] self.occ(q) implies self.counts@[q] as int <= rb
                + 1 by {
                if q != idx as int {
                    assert(self.counts@[q] == t1.counts@[q]);
                    assert(t1.occ(q));
                }
            }
        }
    }

    /// Fold one more observation into the occupied slot `idx`.
    #[verifier::rlimit(100)]
    fn update_slot(&mut self, idx: usize, v: i16, Ghost(rb): Ghost<int>)
        requires
            old(self).wf(),
            idx < TABLE_CAP,
            old(self).occ(idx as int),
            -999 <= v <= 999,
            old(self).counts_bounded(rb),
            0 <= rb < 0x4000_0000_0000_0000,
        ensures
            final(self).wf(),
            old(self)@.dom().contains(old(self).names@[idx as int]@),
            old(self)@[old(self).names@[idx as int]@] == old(self).srec_at(idx as int),
            final(self)@ == old(self)@.insert(
                old(self).names@[idx as int]@,
                srec_add(old(self).srec_at(idx as int), v as int),
            ),
            final(self).counts_bounded(rb + 1),
            final(self).total_upto(TABLE_CAP as int) == old(self).total_upto(TABLE_CAP as int)
                + 1,
    {
        let ghost cap = TABLE_CAP as int;
        let c = self.counts[idx];
        let sm = self.sums[idx];
        let mn = self.mins[idx];
        let mx = self.maxs[idx];
        let ghost t1 = *self;
        proof {
            assert(t1.occ(idx as int));
            assert(srec_inv(t1.srec_at(idx as int)));
            assert(t1.counts@[idx as int] as int <= rb);
            crate::stats::lemma_srec_sum_bounds(t1.srec_at(idx as int), rb);
        }
        self.counts[idx] = c + 1;
        self.sums[idx] = sm + (v as i128);
        self.mins[idx] = if v < mn {
            v
        } else {
            mn
        };
        self.maxs[idx] = if v > mx {
            v
        } else {
            mx
        };
        proof {
            lemma_view_entry(t1, idx as int, cap);
            lemma_view_update(t1, *self, idx as int, cap);
            assert(self.srec_at(idx as int) == srec_add(t1.srec_at(idx as int), v as int));
            crate::stats::lemma_srec_add_inv(t1.srec_at(idx as int), v as int);
            lemma_probe_wf_same_occ(t1, *self, idx as int);
            lemma_table_total_change(t1, *self, idx as int, cap);
            assert forall|q: int|
                0 <= q < TABLE_CAP && #[trigger] self.occ(q) implies self.counts@[q] as int <= rb
                + 1 by {
                if q != idx as int {
                    assert(self.counts@[q] == t1.counts@[q]);
                    assert(t1.occ(q));
                }
            }
        }
    }

    /// Fold one record into the table: probe from the digest's home
    /// slot; a slot matching on digest, name length and name bytes is
    /// updated, the first empty slot is claimed otherwise.
    #[verifier::rlimit(100)]
    fn insert_record(&mut self, name: &[u8], rh: u64, v: i16, Ghost(rb): Ghost<int>)
        requires
            old(self).wf(),
            rh == hash_of(name@),
            -999 <= v <= 999,
            old(self)@.dom().finite(),
            old(self)@.dom().len() < TABLE_CAP,
            old(self).counts_bounded(rb),
            0 <= rb < 0x4000_0000_0000_0000,
        ensures
            final(self).wf(),
            final(self)@ == upd_map(old(self)@, name@, v as int),
            final(self).counts_bounded(rb + 1),
            final(self).total_upto(TABLE_CAP as int) == old(self).total_upto(TABLE_CAP as int)
                + 1,
    {
        let ghost cap = TABLE_CAP as int;
        let home: usize = (rh % (TABLE_CAP as u64)) as usize;
        proof {
            lemma_mod_bound(rh as int, cap);
        }
        let mut idx: usize = home;
        let ghost mut p: int = 0;
        loop
            invariant
                self.wf(),
                *self == *old(self),
                0 <= p < cap,
                cap == TABLE_CAP as int,
                home as int == rh as int % cap,
                0 <= home < TABLE_CAP,
                idx as int == (home as int + p) % cap,
                0 <= idx < TABLE_CAP,
                rh == hash_of(name@),
                -999 <= v <= 999,
                old(self)@.dom().finite(),
                old(self)@.dom().len() < TABLE_CAP,
                old(self).counts_bounded(rb),
                0 <= rb < 0x4000_0000_0000_0000,
                forall|t: int|
                    0 <= t < p ==> #[trigger] self.occ((home as int + t) % cap)
                        && self.names@[(home as int + t) % cap]@ != name@,
            decreases cap - p,
        {
            let h = self.hashes[idx];
            if h == 0 {
                proof {
                    lemma_probe_miss(*self, name@, rh, home as int, p, idx as int);
                }
                let ghost t1 = *self;
                self.claim_slot(idx, name, rh, v, Ghost(home as int), Ghost(p), Ghost(rb));
                proof {
                    assert(self@ == upd_map(t1@, name@, v as int));
                }
                return ;
            }
            let mut matched = false;
            if h == rh {
                let nm = &self.names[idx];
                matched = bytes_eq_vec(name, nm);
            }
            if matched {
                let ghost t1 = *self;
                self.update_slot(idx, v, Ghost(rb));
                proof {
                    assert(self@ == upd_map(t1@, name@, v as int));
                }
                return ;
            }
            // mismatch: the slot holds some other name
            proof {
                assert(self.occ(idx as int));
                if h == rh {
                    assert(self.names@[idx as int]@ != name@);
                } else {
                    assert(self.hashes@[idx as int] == hash_of(self.names@[idx as int]@));
                    assert(self.names@[idx as int]@ != name@);
                }
            }
            let old_idx = idx;
            idx = (idx + 1) % TABLE_CAP;
            proof {
                lemma_probe_advance(*self, name@, home as int, p, old_idx as int, idx as int);
                p = p + 1;
            }
        }
    }
}

/// Scan one record-aligned chunk end to end and fold every record into
/// a fresh table.
///
/// The scan mirrors the worker loop: find the next separator, digest the
/// name, decode the value, probe the table, advance past the consumed
/// bytes. It aborts on the first record with no separator and on the
/// first value that breaks the fixed-point grammar; the returned error
/// names exactly the first flaw the scan meets. The capacity
/// precondition is the original design's sizing assumption: the table
/// comfortably exceeds the distinct-name cardinality of the input.
pub fn aggregate_chunk(chunk: &[u8]) -> (r: Result<ChunkTable, ScanError>)
    requires
        names_of(chunk@).len() < TABLE_CAP,
    ensures
        match r {
            Ok(t) => {
                &&& scan_status(chunk@) is None
                &&& t.wf()
                &&& t@ == spec_agg(chunk@, Map::<Seq<u8>, SRec>::empty())
                &&& map_inv(t@)
                &&& t.total_upto(TABLE_CAP as int) <= chunk@.len()
            },
            Err(e) => scan_status(chunk@) == Some(e),
        },
{
    let ghost s = chunk@;
    let len: usize = chunk.len();
    let mut t = ChunkTable::new();
    let mut cursor: usize = 0;
    let ghost mut rb: int = 0;
    proof {
        lemma_names_finite(s);
        assert(s.skip(0) =~= s);
    }
    while cursor < len
        invariant
            t.wf(),
            0 <= cursor <= len,
            len == s.len(),
            s == chunk@,
            names_of(s).finite(),
            names_of(s).len() < TABLE_CAP,
            scan_status(s.skip(cursor as int)) == scan_status(s),
            spec_agg(s.skip(cursor as int), t@) == spec_agg(s, Map::<Seq<u8>, SRec>::empty()),
            t@.dom().union(names_of(s.skip(cursor as int))) == names_of(s),
            t@.dom().finite(),
            t.counts_bounded(rb),
            t.total_upto(TABLE_CAP as int) == rb,
            0 <= rb,
            4 * rb <= cursor,
        decreases len - cursor,
    {
        let ghost u = s.skip(cursor as int);
        let rest = slice_subrange(chunk, cursor, len);
        proof {
            assert(rest@ =~= u);
        }
        match find_byte_first(rest, 59) {
            None => {
                proof {
                    lemma_no_semi(u, 0);
                    assert(scan_status(u) == Some(ScanError::MissingSeparator));
                }
                return Err(ScanError::MissingSeparator);
            },
            Some(semi) => {
                proof {
                    lemma_semi_at(u, 0, semi as int);
                    assert(first_semi_from(u, 0) == Some(semi as int));
                }
                let rh = hash(rest, semi);
                let vtail = slice_subrange(rest, semi + 1, rest.len());
                proof {
                    assert(vtail@ =~= u.skip(semi as int + 1));
                    assert(vtail@ == rec_tail(u));
                }
                if !check_temp_wf(vtail) {
                    proof {
                        assert(scan_status(u) == Some(ScanError::BadValue));
                    }
                    return Err(ScanError::BadValue);
                }
                let (v, consumed) = parse_temperature(vtail);
                let name_slice = slice_subrange(rest, 0, semi);
                proof {
                    assert(name_slice@ =~= rec_name(u));
                    assert(rh == hash_of(rec_name(u)));
                    lemma_temp_bounds(rec_tail(u));
                    assert forall|n: Seq<u8>| t@.dom().contains(n) implies names_of(
                        s,
                    ).contains(n) by {
                        assert(t@.dom().union(names_of(u)).contains(n));
                    }
                    lemma_len_subset(t@.dom(), names_of(s));
                }
                let ghost t_old = t;
                t.insert_record(name_slice, rh, v, Ghost(rb));
                proof {
                    rb = rb + 1;
                    assert(t@ == upd_map(t_old@, rec_name(u), temp_value(rec_tail(u))));
                    assert(t@.dom() =~= t_old@.dom().insert(rec_name(u)));
                }
                let tail_len: usize = len - cursor - semi - 1;
                proof {
                    assert(tail_len as int == rec_tail(u).len());
                    assert(rec_adv(u) == semi as int + 1 + consumed as int);
                    assert(scan_status(u) == scan_status(rec_next(u)));
                    assert(spec_agg(u, t_old@) == spec_agg(rec_next(u), t@));
                    assert(names_of(u) == names_of(rec_next(u)).insert(rec_name(u)));
                    assert(t@.dom().union(names_of(rec_next(u))) =~= t_old@.dom().union(
                        names_of(u),
                    ));
                }
                if consumed >= tail_len {
                    proof {
                        assert(rec_adv(u) >= u.len());
                        assert(rec_next(u) =~= Seq::<u8>::empty());
                        assert(s.skip(len as int) =~= Seq::<u8>::empty());
                        assert(u.len() >= 4);
                    }
                    cursor = len;
                } else {
                    let adv = semi + 1 + consumed;
                    proof {
                        assert(adv as int == rec_adv(u));
                        assert((adv as int) < u.len());
                        assert(rec_next(u) == u.skip(adv as int));
                        assert(u.skip(adv as int) =~= s.skip(cursor as int + adv as int));
                        assert(adv >= 4);
                    }
                    cursor = cursor + adv;
                }
            },
        }
    }
    proof {
        assert(s.skip(cursor as int) =~= Seq::<u8>::empty());
        lemma_view_inv(t);
    }
    Ok(t)
}

/// An all-empty prefix of slots aggregates to the empty map.
proof fn lemma_view_all_empty(t: ChunkTable, k: int)
    requires
        0 <= k <= TABLE_CAP,
        t.lens_ok(),
        forall|j: int| 0 <= j < TABLE_CAP ==> t.hashes@[j] == 0,
    ensures
        t.view_upto(k) == Map::<Seq<u8>, SRec>::empty(),
        t.total_upto(k) == 0,
    decreases k,
{
    if k > 0 {
        lemma_view_all_empty(t, k - 1);
    }
}

/// Claiming a previously empty slot at the end of a fully occupied
/// probe path keeps the table invariant.
proof fn lemma_probe_wf_after(t1: ChunkTable, t2: ChunkTable, j: int, h: int, d: int)
    requires
        t1.wf(),
        t2.lens_ok(),
        0 <= j < TABLE_CAP,
        0 <= h < TABLE_CAP,
        0 <= d < TABLE_CAP,
        !t1.occ(j),
        t2.occ(j),
        j == (h + d) % (TABLE_CAP as int),
        h == t2.hashes@[j] as int % (TABLE_CAP as int),
        t2.hashes@[j] == hash_of(t2.names@[j]@),
        srec_inv(t2.srec_at(j)),
        forall|t: int| 0 <= t < d ==> #[trigger] t1.occ((h + t) % (TABLE_CAP as int)),
        forall|i: int|
            0 <= i < TABLE_CAP && i != j ==> #[trigger] t2.hashes@[i] == t1.hashes@[i]
                && t2.names@[i] == t1.names@[i] && t2.counts@[i] == t1.counts@[i]
                && t2.sums@[i] == t1.sums@[i] && t2.mins@[i] == t1.mins@[i] && t2.maxs@[i]
                == t1.maxs@[i],
        forall|i: int|
            0 <= i < TABLE_CAP && i != j && #[trigger] t1.occ(i) ==> t1.names@[i]@
                != t2.names@[j]@,
    ensures
        t2.wf(),
{
    let cap = TABLE_CAP as int;
    assert forall|q: int| 0 <= q < TABLE_CAP && #[trigger] t2.occ(q) implies t2.hashes@[q]
        == hash_of(t2.names@[q]@) && srec_inv(t2.srec_at(q)) by {
        if q != j {
            assert(t2.hashes@[q] == t1.hashes@[q]);
            assert(t1.occ(q));
            assert(t2.srec_at(q) == t1.srec_at(q));
        }
    }
    assert forall|a: int, b: int|
        0 <= a < TABLE_CAP && 0 <= b < TABLE_CAP && a != b && #[trigger] t2.occ(a)
            && #[trigger] t2.occ(b) implies t2.names@[a]@ != t2.names@[b]@ by {
        if a == j {
            assert(t1.occ(b) && t2.names@[b] == t1.names@[b]);
        } else if b == j {
            assert(t1.occ(a) && t2.names@[a] == t1.names@[a]);
        } else {
            assert(t1.occ(a) && t1.occ(b));
            assert(t2.names@[a] == t1.names@[a] && t2.names@[b] == t1.names@[b]);
        }
    }
    assert forall|q: int| 0 <= q < TABLE_CAP && #[trigger] t2.occ(q) implies t2.path_occupied(
        t2.home_of(q),
        probe_dist(t2.home_of(q), q),
    ) by {
        if q == j {
            lemma_dist_roundtrip(h, d);
            assert(probe_dist(h, j) == d);
            assert forall|t: int| 0 <= t < d implies #[trigger] t2.occ((h + t) % cap) by {
                lemma_mod_bound(h + t, cap);
                assert(t1.occ((h + t) % cap));
            }
        } else {
            assert(t1.occ(q));
            assert(t1.path_occupied(t1.home_of(q), probe_dist(t1.home_of(q), q)));
            assert(t2.home_of(q) == t1.home_of(q));
            assert forall|t: int|
                0 <= t < probe_dist(t2.home_of(q), q) implies #[trigger] t2.occ(
                (t2.home_of(q) + t) % cap,
            ) by {
                lemma_mod_bound(t2.home_of(q) + t, cap);
                assert(t1.occ((t1.home_of(q) + t) % cap));
            }
        }
    }
}

/// Updating the statistics of an occupied slot in place keeps the table
/// invariant.
proof fn lemma_probe_wf_same_occ(t1: ChunkTable, t2: ChunkTable, j: int)
    requires
        t1.wf(),
        t2.lens_ok(),
        0 <= j < TABLE_CAP,
        t1.occ(j),
        t2.occ(j),
        t2.hashes@[j] == t1.hashes@[j],
        t2.names@[j] == t1.names@[j],
        srec_inv(t2.srec_at(j)),
        forall|i: int|
            0 <= i < TABLE_CAP && i != j ==> #[trigger] t2.hashes@[i] == t1.hashes@[i]
                && t2.names@[i] == t1.names@[i] && t2.counts@[i] == t1.counts@[i]
                && t2.sums@[i] == t1.sums@[i] && t2.mins@[i] == t1.mins@[i] && t2.maxs@[i]
                == t1.maxs@[i],
    ensures
        t2.wf(),
{
    let cap = TABLE_CAP as int;
    assert forall|q: int| 0 <= q < TABLE_CAP implies #[trigger] t2.occ(q) == t1.occ(q) by {
        if q != j {
            assert(t2.hashes@[q] == t1.hashes@[q]);
        }
    }
    assert forall|q: int| 0 <= q < TABLE_CAP && #[trigger] t2.occ(q) implies t2.hashes@[q]
        == hash_of(t2.names@[q]@) && srec_inv(t2.srec_at(q)) by {
        if q != j {
            assert(t1.occ(q));
            assert(t2.srec_at(q) == t1.srec_at(q));
        }
    }
    assert forall|a: int, b: int|
        0 <= a < TABLE_CAP && 0 <= b < TABLE_CAP && a != b && #[trigger] t2.occ(a)
            && #[trigger] t2.occ(b) implies t2.names@[a]@ != t2.names@[b]@ by {
        assert(t1.occ(a) && t1.occ(b));
        assert(t2.names@[a] == t1.names@[a] && t2.names@[b] == t1.names@[b]);
    }
    assert forall|q: int| 0 <= q < TABLE_CAP && #[trigger] t2.occ(q) implies t2.path_occupied(
        t2.home_of(q),
        probe_dist(t2.home_of(q), q),
    ) by {
        assert(t1.occ(q));
        assert(t1.path_occupied(t1.home_of(q), probe_dist(t1.home_of(q), q)));
        assert(t2.home_of(q) == t1.home_of(q));
        assert forall|t: int|
            0 <= t < probe_dist(t2.home_of(q), q) implies #[trigger] t2.occ(
            (t2.home_of(q) + t) % cap,
        ) by {
            lemma_mod_bound(t2.home_of(q) + t, cap);
            assert(t1.occ((t1.home_of(q) + t) % cap));
        }
    }
}

} // verus!
