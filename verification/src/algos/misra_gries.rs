//! Misra-Gries frequent-items summary: deterministic heavy-hitter candidates
//! with `k` counters.
//!
//! Every reported count underestimates the true weight by at most
//! `total / (k + 1)`, and any key above that bound is present. Merging adds
//! summaries and trims again, which keeps the summed bound.

use vstd::prelude::*;
use vstd::string::*;

use crate::algos::count_min::{nonnegative, weight_of};
use crate::algos::counts::{
    add_counts, as_counts, by_count, count_or_zero, count_order, counts_fit, decrement, decremented,
    entry_memory, front_of, is_front, lemma_count_order, memory_of, summed,
    ENTRY_OVERHEAD,
};
use crate::bytes::{
    copy_bytes, joined, le, le_value, lemma_joined_first, lemma_joined_step, lemma_le_len,
    lemma_le_value_of_le, lemma_pow256_values, put_le,
};
use crate::error::{SketchError, SketchErrorView};
use crate::hash::{hash64, hash_of, HashSpec};
use crate::keymap::{keys_differ, lemma_entry, map_of, KeyMap};
use crate::order::{
    key_order, lemma_key_order, lemma_listing_exists, lemma_listing_len, listing, lists_range,
};
use crate::sketch::{Compat, Sketch, SketchCompatibility};
use crate::snapshot::{
    algorithm_id, count_error, field_at, framed, law_snapshot_round_trip, read_snapshot,
    snapshot_bytes, snapshot_content, snapshot_err, write_snapshot, Reader, SnapshotHeader, Writer,
    SNAPSHOT_VERSION,
};
use crate::sums::{
    lemma_sum_add, lemma_sum_at_least, lemma_sum_constant, lemma_sum_empty, lemma_sum_insert,
    lemma_sum_remove, lemma_sum_same, lemma_sum_split, sum_over,
};
use crate::text::{dec, push_decimal};

verus! {

pub const ALGORITHM: &'static str = "misra-gries";

#[derive(Debug, Clone)]
pub struct MisraGries {
    capacity: usize,
    /// Merge-compatibility metadata only.
    hash: HashSpec,
    counters: KeyMap<u64>,
    total_weight: u64,
    updates: u64,
}

/// The mathematical state of a [`MisraGries`] summary.
#[verifier::ext_equal]
pub ghost struct Frequent {
    pub capacity: int,
    pub hash: HashSpec,
    pub counters: Map<Seq<u8>, int>,
    pub total: int,
    pub updates: int,
}

/// The smallest count.
pub open spec fn is_least_count(m: Map<Seq<u8>, int>, v: int) -> bool {
    &&& exists|k: Seq<u8>| #[trigger] m.contains_key(k) && m[k] == v
    &&& forall|k: Seq<u8>| #[trigger] m.contains_key(k) ==> v <= m[k]
}

pub open spec fn least_count(m: Map<Seq<u8>, int>) -> int {
    choose|v: int| is_least_count(m, v)
}

/// The keys with a count below `d`.
pub open spec fn keys_below(m: Map<Seq<u8>, int>, d: int) -> Set<Seq<u8>> {
    m.dom().filter(|k: Seq<u8>| m[k] < d)
}

/// `d` is the `n`-th smallest count.
pub open spec fn is_nth_count(m: Map<Seq<u8>, int>, n: int, d: int) -> bool {
    &&& keys_below(m, d).len() < n
    &&& n <= keys_below(m, d + 1).len()
}

pub open spec fn nth_count(m: Map<Seq<u8>, int>, n: int) -> int {
    choose|d: int| is_nth_count(m, n, d)
}

/// At most `capacity` counters: if there are more, the smallest surplus one
/// is subtracted from all.
pub open spec fn trimmed(m: Map<Seq<u8>, int>, capacity: int) -> Map<Seq<u8>, int> {
    if m.dom().len() <= capacity {
        m
    } else {
        decremented(m, nth_count(m, m.dom().len() - capacity))
    }
}

impl Frequent {
    pub open spec fn empty(capacity: int, hash: HashSpec) -> Frequent {
        Frequent { capacity, hash, counters: Map::empty(), total: 0, updates: 0 }
    }

    pub open spec fn bounded(self) -> bool {
        &&& self.capacity > 0
        &&& self.counters.dom().finite()
        &&& self.counters.dom().len() <= self.capacity
    }

    pub open spec fn fits(self) -> bool {
        &&& counts_fit(self.counters)
        &&& 0 <= self.total <= u64::MAX
        &&& 0 <= self.updates <= u64::MAX
    }

    /// By how much a new key of this weight lowers the counters of a full
    /// summary.
    pub open spec fn drop_for(self, weight: int) -> int {
        let least = least_count(self.counters);
        if least < weight {
            least
        } else {
            weight
        }
    }

    pub open spec fn counters_after(self, key: Seq<u8>, weight: int) -> Map<Seq<u8>, int> {
        if self.counters.contains_key(key) {
            self.counters.insert(key, self.counters[key] + weight)
        } else if self.counters.dom().len() < self.capacity {
            self.counters.insert(key, weight)
        } else {
            let d = self.drop_for(weight);
            let rest = decremented(self.counters, d);
            if weight - d > 0 && rest.dom().len() < self.capacity {
                rest.insert(key, weight - d)
            } else {
                rest
            }
        }
    }

    /// The state after adding `weight` for `key`.
    pub open spec fn added(self, key: Seq<u8>, weight: int) -> Frequent {
        Frequent {
            counters: self.counters_after(key, weight),
            total: self.total + weight,
            updates: self.updates + 1,
            ..self
        }
    }

    pub open spec fn merged(self, other: Frequent) -> Frequent {
        Frequent {
            counters: trimmed(summed(self.counters, other.counters), self.capacity),
            total: self.total + other.total,
            updates: self.updates + other.updates,
            ..self
        }
    }

    pub open spec fn fed(self, stream: Seq<(Seq<u8>, int)>) -> Frequent
        decreases stream.len(),
    {
        if stream.len() == 0 {
            self
        } else {
            self.fed(stream.drop_last()).added(stream.last().0, stream.last().1)
        }
    }

    pub open spec fn compat(self) -> Compat {
        Compat {
            algorithm: ALGORITHM@,
            version: 1,
            hash: self.hash,
            params_hash: hash_of(le(self.capacity as nat, 8), 0),
        }
    }

    pub open spec fn payload(self) -> Seq<u8> {
        le(self.total as nat, 8) + le(self.updates as nat, 8) + le(
            self.counters.dom().len() as u32 as nat,
            4,
        ) + joined(counter_parts(self.counters))
    }

    pub open spec fn snapshot(self, window_start: u64, window_end: u64) -> Seq<u8> {
        snapshot_bytes(
            SnapshotHeader {
                version: SNAPSHOT_VERSION,
                algorithm_id: algorithm_id::MISRA_GRIES,
                hash: self.hash,
                window_start_nanos: window_start,
                window_end_nanos: window_end,
            },
            le(self.capacity as nat, 8),
            self.payload(),
        )
    }

    /// The state that a snapshot denotes, or why it denotes none.
    pub open spec fn from_snapshot(bytes: Seq<u8>) -> Result<Frequent, SketchErrorView> {
        match snapshot_content(bytes) {
            Err(e) => Err(e),
            Ok((header, params, payload)) => {
                let capacity = field_at(params, 0, 8);
                let n = field_at(payload, 16, 4);
                if header.algorithm_id != algorithm_id::MISRA_GRIES {
                    snapshot_err("not a misra-gries snapshot"@)
                } else if params.len() < 8 {
                    snapshot_err("unexpected end of snapshot"@)
                } else if capacity > usize::MAX {
                    snapshot_err(
                        "misra-gries snapshot capacity "@ + dec(capacity)
                            + " does not fit this platform"@,
                    )
                } else if capacity == 0 {
                    snapshot_err("misra-gries snapshot capacity must be positive"@)
                } else if payload.len() < 20 {
                    snapshot_err("unexpected end of snapshot"@)
                } else if n > capacity {
                    snapshot_err(
                        "misra-gries snapshot counter count "@ + dec(n) + " exceeds capacity "@
                            + dec(capacity),
                    )
                } else if 12 * n > payload.len() - 20 {
                    Err(count_error(n, (payload.len() - 20) as nat))
                } else {
                    match read_counters(payload.skip(20), n, Map::empty()) {
                        Err(e) => Err(e),
                        Ok(counters) => Ok(
                            Frequent {
                                capacity: capacity as int,
                                hash: header.hash,
                                counters,
                                total: field_at(payload, 0, 8) as int,
                                updates: field_at(payload, 8, 8) as int,
                            },
                        ),
                    }
                }
            },
        }
    }
}

/// One counter in a snapshot.
pub open spec fn counter_bytes(key: Seq<u8>, count: int) -> Seq<u8> {
    framed(key) + le(count as nat, 8)
}

/// The counters by ascending key.
pub open spec fn counter_parts(m: Map<Seq<u8>, int>) -> Seq<Seq<u8>> {
    let order = listing(m.dom(), key_order());
    Seq::new(order.len(), |i: int| counter_bytes(order[i], m[order[i]]))
}

/// What `n` counters at the start of `rest` add to `known`. A key that comes
/// again replaces its count.
pub open spec fn read_counters(rest: Seq<u8>, n: nat, known: Map<Seq<u8>, int>) -> Result<
    Map<Seq<u8>, int>,
    SketchErrorView,
>
    decreases n,
{
    let len = le_value(rest.take(4)) as int;
    if n == 0 {
        Ok(known)
    } else if rest.len() < 4 || rest.len() < 12 + len {
        snapshot_err("unexpected end of snapshot"@)
    } else {
        read_counters(
            rest.skip(12 + len),
            (n - 1) as nat,
            known.insert(rest.subrange(4, 4 + len), field_at(rest, 4 + len, 8) as int),
        )
    }
}

impl View for MisraGries {
    type V = Frequent;

    closed spec fn view(&self) -> Frequent {
        Frequent {
            capacity: self.capacity as int,
            hash: self.hash,
            counters: as_counts(self.counters@),
            total: self.total_weight as int,
            updates: self.updates as int,
        }
    }
}

proof fn lemma_least_count_unique(m: Map<Seq<u8>, int>, v: int)
    requires
        is_least_count(m, v),
    ensures
        least_count(m) == v,
{
    let w = least_count(m);
    assert(is_least_count(m, w));
    let a = choose|k: Seq<u8>| #[trigger] m.contains_key(k) && m[k] == v;
    let b = choose|k: Seq<u8>| #[trigger] m.contains_key(k) && m[k] == w;
    assert(m.contains_key(a) && m.contains_key(b));
}

proof fn lemma_nth_count_unique(m: Map<Seq<u8>, int>, n: int, d: int)
    requires
        m.dom().finite(),
        is_nth_count(m, n, d),
    ensures
        nth_count(m, n) == d,
{
    let e = nth_count(m, n);
    assert(is_nth_count(m, n, e));
    if d < e {
        assert(keys_below(m, d + 1).subset_of(keys_below(m, e)));
        vstd::set_lib::lemma_len_subset(keys_below(m, d + 1), keys_below(m, e));
    }
    if e < d {
        assert(keys_below(m, e + 1).subset_of(keys_below(m, d)));
        vstd::set_lib::lemma_len_subset(keys_below(m, e + 1), keys_below(m, d));
    }
}

/// The `n`-th smallest count stands at the `n`-th place from the end of the
/// ranking.
proof fn lemma_nth_count(m: Map<Seq<u8>, int>, n: int)
    requires
        m.dom().finite(),
        0 < n <= m.dom().len(),
    ensures
        ({
            let names = listing(m.dom(), count_order(m));
            let key = names[names.len() - n];
            &&& names.len() == m.dom().len()
            &&& m.contains_key(key)
            &&& is_nth_count(m, n, m[key])
            &&& nth_count(m, n) == m[key]
        }),
{
    let lt = count_order(m);
    lemma_count_order(m);
    lemma_listing_exists(m.dom(), lt);
    let names = listing(m.dom(), lt);
    lemma_listing_len(names, m.dom(), lt);
    let at = names.len() - n;
    let d = m[names[at]];
    assert(names.contains(names[at]));
    assert(m.dom().contains(names[at]));
    // Behind the place are smaller or equal counts, before it larger or equal
    // ones.
    let tail = names.skip(at);
    let rest = names.skip(at + 1);
    assert(tail.no_duplicates());
    assert(rest.no_duplicates());
    tail.unique_seq_to_set();
    rest.unique_seq_to_set();
    assert forall|k: Seq<u8>| #[trigger] tail.to_set().contains(k) implies keys_below(
        m,
        d + 1,
    ).contains(k) by {
        let q = choose|q: int| 0 <= q < tail.len() && tail[q] == k;
        assert(names[at + q] == k);
        assert(names.contains(k));
        assert(m.dom().contains(k));
        if q > 0 {
            assert(lt(names[at], names[at + q]));
        }
    }
    assert forall|k: Seq<u8>| #[trigger] keys_below(m, d).contains(k) implies rest.to_set().contains(
        k,
    ) by {
        assert(m.dom().contains(k));
        assert(names.contains(k));
        let q = choose|q: int| 0 <= q < names.len() && names[q] == k;
        if q < at {
            assert(lt(names[q], names[at]));
        }
        assert(q > at);
        assert(rest[q - at - 1] == k);
    }
    vstd::set_lib::lemma_len_subset(tail.to_set(), keys_below(m, d + 1));
    vstd::set_lib::lemma_len_subset(keys_below(m, d), rest.to_set());
    lemma_nth_count_unique(m, n, d);
}

/// The counters that subtracting `d` removes are those up to `d`.
proof fn lemma_decremented_len(m: Map<Seq<u8>, int>, d: int)
    requires
        m.dom().finite(),
    ensures
        decremented(m, d).dom().finite(),
        decremented(m, d).dom().len() + keys_below(m, d + 1).len() == m.dom().len(),
{
    let gone = keys_below(m, d + 1);
    lemma_sum_split(m.dom(), gone, |k: Seq<u8>| 0int);
    assert(m.dom().intersect(gone) =~= gone);
    assert(m.dom().difference(gone) =~= decremented(m, d).dom());
}

impl MisraGries {
    /// At most `capacity` counters, all of which fit into 64 bits.
    pub proof fn law_tracked_keys_are_bounded(&self)
        requires
            self.wf(),
        ensures
            self@.bounded(),
            self@.fits(),
            self@.capacity <= usize::MAX,
    {
    }

    pub fn new(capacity: usize, hash: HashSpec) -> (r: Result<Self, SketchError>)
        ensures
            r is Ok <==> capacity > 0,
            r matches Ok(s) ==> s.wf() && s@ == Frequent::empty(capacity as int, hash),
            r matches Err(e) ==> e@ == SketchErrorView::InvalidParam(
                "misra-gries capacity must be positive"@,
            ),
    {
        if capacity == 0 {
            return Err(SketchError::InvalidParam("misra-gries capacity must be positive".to_owned()));
        }
        let s = MisraGries {
            capacity,
            hash,
            counters: KeyMap::new(),
            total_weight: 0,
            updates: 0,
        };
        proof {
            s.counters.lemma_list();
            assert(s@.counters =~= Map::empty());
        }
        Ok(s)
    }

    pub fn capacity(&self) -> (r: usize)
        ensures
            r == self@.capacity,
    {
        self.capacity
    }

    pub fn total_weight(&self) -> (r: u64)
        ensures
            r == self@.total,
    {
        self.total_weight
    }

    /// Number of counters.
    pub fn len(&self) -> (r: usize)
        requires
            self.wf(),
        ensures
            r == self@.counters.dom().len(),
    {
        assert(self@.counters.dom() =~= self.counters@.dom());
        self.counters.len()
    }

    pub fn is_empty(&self) -> (r: bool)
        requires
            self.wf(),
        ensures
            r == (self@.counters.dom().len() == 0),
    {
        self.len() == 0
    }

    /// The smallest count.
    fn least(&self) -> (r: u64)
        requires
            self.wf(),
            self@.counters.dom().len() > 0,
        ensures
            is_least_count(self@.counters, r as int),
            r == least_count(self@.counters),
    {
        let n: usize = self.len();
        let ghost list = self.counters.list();
        let ghost m = self@.counters;
        proof {
            self.counters.lemma_list();
            assert(m.dom() =~= self.counters@.dom());
        }
        let mut least: u64 = *self.counters.value(0);
        let mut at: usize = 0;
        let mut i: usize = 1;
        while i < n
            invariant
                n == list.len(),
                list == self.counters.list(),
                at < n,
                1 <= i <= n,
                least == list[at as int].1,
                forall|j: int| 0 <= j < i ==> least <= (#[trigger] list[j]).1,
            decreases n - i,
        {
            let c: u64 = *self.counters.value(i);
            if c < least {
                least = c;
                at = i;
            }
            i += 1;
        }
        proof {
            lemma_entry(list, at as int);
            assert(m.contains_key(list[at as int].0@));
            assert forall|k: Seq<u8>| #[trigger] m.contains_key(k) implies least <= m[k] by {
                crate::keymap::lemma_number(list, k);
                let j = crate::keymap::number_of(list, k);
                lemma_entry(list, j);
                assert(least <= list[j].1);
            }
            lemma_least_count_unique(m, least as int);
        }
        least
    }

    /// Add `weight` for `key`.
    pub fn add(&mut self, key: &[u8], weight: u64)
        requires
            old(self).wf(),
            old(self)@.added(key@, weight as int).fits(),
        ensures
            final(self).wf(),
            final(self)@ == old(self)@.added(key@, weight as int),
    {
        let ghost start = self@;
        let ghost goal = start.added(key@, weight as int);
        assert(goal.total == start.total + weight && goal.updates == start.updates + 1);
        self.total_weight = self.total_weight + weight;
        self.updates = self.updates + 1;
        proof {
            self.counters.lemma_list();
            assert(start.counters.dom() =~= self.counters@.dom());
        }
        if let Some(i) = self.counters.find(key) {
            assert(goal.counters.contains_key(key@));
            let c: u64 = *self.counters.value(i);
            assert(start.counters[key@] == c);
            self.counters.replace(i, c + weight);
            proof {
                self.counters.lemma_list();
                assert(self@.counters =~= goal.counters);
                assert(self@.counters.dom() =~= start.counters.dom());
            }
            return;
        }
        if self.counters.len() < self.capacity {
            self.counters.push(copy_bytes(key), weight);
            proof {
                self.counters.lemma_list();
                assert(self@.counters =~= goal.counters);
                assert(self@.counters.dom() =~= self.counters@.dom());
            }
            return;
        }
        // Lower all counters by the largest amount that none falls below.
        let min: u64 = self.least();
        let d: u64 = if min < weight {
            min
        } else {
            weight
        };
        self.counters = decrement(&self.counters, d);
        proof {
            self.counters.lemma_list();
            lemma_decremented_len(start.counters, d as int);
            assert(self@.counters == decremented(start.counters, d as int));
            assert(self@.counters.dom() =~= self.counters@.dom());
        }
        let leftover: u64 = weight - d;
        if leftover > 0 && self.counters.len() < self.capacity {
            assert(!self.counters@.contains_key(key@)) by {
                assert(!self@.counters.contains_key(key@));
            }
            let ghost rest = self@.counters;
            self.counters.push(copy_bytes(key), leftover);
            proof {
                self.counters.lemma_list();
                assert(self@.counters =~= rest.insert(key@, leftover as int));
                assert(self@.counters.dom() =~= self.counters@.dom());
            }
        }
    }

    /// The count of `key`, if it has a counter.
    pub fn get(&self, key: &[u8]) -> (r: Option<u64>)
        requires
            self.wf(),
        ensures
            r is Some <==> self@.counters.contains_key(key@),
            r matches Some(c) ==> c == self@.counters[key@],
    {
        match self.counters.get(key) {
            Some(c) => Some(*c),
            None => None,
        }
    }

    /// All counters by count, largest first.
    pub fn candidates(&self) -> (r: Vec<(Vec<u8>, u64)>)
        requires
            self.wf(),
        ensures
            is_front(r@, self@.counters, self@.counters.dom().len() as int),
    {
        front_of(&self.counters, self.len())
    }

    /// The `n`-th smallest count.
    fn nth_smallest(&self, n: usize) -> (r: u64)
        requires
            self.counters.wf(),
            0 < n <= self.counters.list().len(),
        ensures
            is_nth_count(self@.counters, n as int, r as int),
            r == nth_count(self@.counters, n as int),
    {
        let order = by_count(&self.counters);
        let ghost m = self@.counters;
        let ghost names = self.counters.keys_of(order@);
        let total: usize = order.len();
        let at: usize = total - n;
        assert(order@[at as int] < self.counters.list().len());
        let d: u64 = *self.counters.value(order[at]);
        proof {
            self.counters.lemma_list();
            assert(m.dom() =~= self.counters@.dom());
            let lt = count_order(m);
            lemma_count_order(m);
            lemma_listing_len(names, m.dom(), lt);
            lemma_entry(self.counters.list(), order@[at as int] as int);
            assert(m[names[at as int]] == d);
            lemma_nth_count(m, n as int);
        }
        d
    }

    /// Back to at most `capacity` counters.
    fn trim_to_capacity(&mut self)
        requires
            old(self).counters.wf(),
            old(self).capacity > 0,
        ensures
            final(self).wf(),
            final(self)@ == (Frequent {
                counters: trimmed(old(self)@.counters, old(self)@.capacity),
                ..old(self)@
            }),
    {
        proof {
            self.counters.lemma_list();
            assert(self@.counters.dom() =~= self.counters@.dom());
        }
        let n: usize = self.counters.len();
        if n > self.capacity {
            let excess: usize = n - self.capacity;
            let ghost before = self@.counters;
            let d: u64 = self.nth_smallest(excess);
            self.counters = decrement(&self.counters, d);
            proof {
                lemma_decremented_len(before, d as int);
                self.counters.lemma_list();
                assert(self@.counters.dom() =~= self.counters@.dom());
            }
        }
    }

    fn params_hash(&self) -> (r: u64)
        ensures
            r == hash_of(le(self.capacity as nat, 8), 0),
    {
        let mut w: Vec<u8> = Vec::new();
        put_le(&mut w, self.capacity as u64, 8);
        assert(w@ =~= le(self.capacity as nat, 8));
        hash64(w.as_slice(), 0)
    }

    pub fn to_snapshot(&self, window_start_nanos: u64, window_end_nanos: u64) -> (r: Vec<u8>)
        requires
            self.wf(),
        ensures
            r@ == self@.snapshot(window_start_nanos, window_end_nanos),
    {
        let ghost m = self@.counters;
        let mut params = Writer::new();
        params.u64(self.capacity as u64);
        assert(params.buf@ =~= le(self.capacity as nat, 8));
        let mut payload = Writer::new();
        payload.u64(self.total_weight);
        payload.u64(self.updates);
        payload.u32(self.len() as u32);
        let ghost lead = payload.buf@;
        let order = self.counters.ascending();
        let ghost parts = counter_parts(m);
        let ghost list = self.counters.list();
        proof {
            self.counters.lemma_list();
            assert(m.dom() =~= self.counters@.dom());
        }
        let mut i: usize = 0;
        assert(lead + joined(parts.take(0)) =~= lead);
        while i < order.len()
            invariant
                m == as_counts(map_of(list)),
                list == self.counters.list(),
                keys_differ(list),
                lists_range(order@, 0, list.len() as int),
                self.counters.keys_of(order@) == listing(m.dom(), key_order()),
                parts == counter_parts(m),
                i <= order.len(),
                payload.buf@ == lead + joined(parts.take(i as int)),
            decreases order.len() - i,
        {
            let p: usize = order[i];
            assert(p < list.len());
            let ghost start = payload.buf@;
            payload.lp_bytes(self.counters.key(p).as_slice());
            payload.u64(*self.counters.value(p));
            proof {
                lemma_entry(list, p as int);
                lemma_joined_step(parts, i as int);
                let names = self.counters.keys_of(order@);
                assert(parts[i as int] == counter_bytes(names[i as int], m[names[i as int]]));
                assert(payload.buf@ =~= start + parts[i as int]);
                assert(payload.buf@ =~= lead + joined(parts.take(i + 1)));
            }
            i += 1;
        }
        assert(parts.take(i as int) =~= parts);
        assert(payload.buf@ =~= self@.payload());
        write_snapshot(
            &SnapshotHeader {
                version: SNAPSHOT_VERSION,
                algorithm_id: algorithm_id::MISRA_GRIES,
                hash: self.hash,
                window_start_nanos,
                window_end_nanos,
            },
            params.buf.as_slice(),
            payload.buf.as_slice(),
        )
    }

    pub fn from_snapshot(bytes: &[u8]) -> (r: Result<Self, SketchError>)
        ensures
            match Frequent::from_snapshot(bytes@) {
                Ok(s) => r matches Ok(x) && x.wf() && x@ == s,
                Err(e) => r matches Err(x) && x@ == e,
            },
    {
        let (header, params, payload) = read_snapshot(bytes)?;
        if header.algorithm_id != algorithm_id::MISRA_GRIES {
            return Err(SketchError::Snapshot("not a misra-gries snapshot".to_owned()));
        }
        let mut p = Reader::new(params.as_slice());
        let encoded_capacity: u64 = p.u64()?;
        if encoded_capacity > usize::MAX as u64 {
            let mut message = "misra-gries snapshot capacity ".to_owned();
            push_decimal(&mut message, encoded_capacity);
            message.append(" does not fit this platform");
            return Err(SketchError::Snapshot(message));
        }
        let capacity: usize = encoded_capacity as usize;
        if capacity == 0 {
            return Err(
                SketchError::Snapshot("misra-gries snapshot capacity must be positive".to_owned()),
            );
        }
        let mut r = Reader::new(payload.as_slice());
        let total_weight: u64 = r.u64()?;
        let updates: u64 = r.u64()?;
        let n: usize = r.u32()? as usize;
        if n > capacity {
            let mut message = "misra-gries snapshot counter count ".to_owned();
            push_decimal(&mut message, n as u64);
            message.append(" exceeds capacity ");
            push_decimal(&mut message, capacity as u64);
            return Err(SketchError::Snapshot(message));
        }
        // Each counter takes at least a key length and a count.
        r.check_count(n, 12)?;
        let mut counters: KeyMap<u64> = KeyMap::new();
        let ghost outcome = read_counters(payload@.skip(20), n as nat, Map::empty());
        proof {
            assert(r.rest() =~= payload@.skip(20));
            counters.lemma_list();
            assert(as_counts(counters@) =~= Map::empty());
        }
        let mut i: usize = 0;
        while i < n
            invariant
                i <= n,
                r.wf(),
                counters.wf(),
                counters@.dom().len() <= i,
                outcome == read_counters(r.rest(), (n - i) as nat, as_counts(counters@)),
                match Frequent::from_snapshot(bytes@) {
                    Ok(s) => outcome == Ok::<_, SketchErrorView>(s.counters),
                    Err(e) => outcome == Err::<Map<Seq<u8>, int>, _>(e),
                },
            decreases n - i,
        {
            let ghost rest = r.rest();
            let ghost len = le_value(rest.take(4)) as int;
            let ghost known = as_counts(counters@);
            let key = copy_bytes(r.lp_bytes()?);
            assert(r.rest().len() >= 8 ==> r.rest().take(8) =~= rest.subrange(
                4 + len,
                4 + len + 8,
            ));
            let count: u64 = r.u64()?;
            assert(r.rest() =~= rest.skip(12 + len));
            counters.insert(key, count);
            assert(as_counts(counters@) =~= known.insert(key@, count as int));
            i += 1;
        }
        let s = MisraGries { capacity, hash: header.hash, counters, total_weight, updates };
        proof {
            s.counters.lemma_list();
            assert(s@.counters.dom() =~= s.counters@.dom());
        }
        Ok(s)
    }
}

impl Sketch for MisraGries {
    closed spec fn wf(&self) -> bool {
        self.counters.wf() && self@.bounded()
    }

    open spec fn compat(&self) -> Compat {
        self@.compat()
    }

    open spec fn update_fits(&self, key: Seq<u8>, value: u64) -> bool {
        self@.added(key, value as int).fits()
    }

    open spec fn is_updated(&self, key: Seq<u8>, value: u64, after: &Self) -> bool {
        after@ == self@.added(key, value as int)
    }

    open spec fn merge_fits(&self, other: &Self) -> bool {
        &&& counts_fit(summed(self@.counters, other@.counters))
        &&& self@.total + other@.total <= u64::MAX
        &&& self@.updates + other@.updates <= u64::MAX
    }

    open spec fn is_merged(&self, other: &Self, after: &Self) -> bool {
        after@ == self@.merged(other@)
    }

    open spec fn is_cleared(&self, after: &Self) -> bool {
        after@ == Frequent::empty(self@.capacity, self@.hash)
    }

    open spec fn updates(&self) -> u64 {
        self@.updates as u64
    }

    open spec fn memory_fits(&self) -> bool {
        entry_memory(self@.counters.dom()) + vstd::layout::size_of::<Self>() <= usize::MAX
    }

    open spec fn is_memory(&self, bytes: usize) -> bool {
        bytes == entry_memory(self@.counters.dom()) + vstd::layout::size_of::<Self>()
    }

    fn update(&mut self, key: &[u8], value: u64) {
        self.add(key, value);
    }

    fn merge_from(&mut self, other: &Self) -> (r: Result<(), SketchError>) {
        self.compatibility().ensure_matches(&other.compatibility())?;
        let ghost start = self@;
        add_counts(&mut self.counters, &other.counters);
        self.trim_to_capacity();
        self.total_weight = self.total_weight + other.total_weight;
        self.updates = self.updates + other.updates;
        assert(self@ =~= start.merged(other@));
        Ok(())
    }

    fn memory_bytes(&self) -> (r: usize) {
        assert(self@.counters.dom() =~= self.counters@.dom());
        memory_of(&self.counters, ENTRY_OVERHEAD) + core::mem::size_of::<Self>()
    }

    fn reset(&mut self) {
        self.counters = KeyMap::new();
        self.total_weight = 0;
        self.updates = 0;
        proof {
            self.counters.lemma_list();
            assert(self@.counters =~= Map::empty());
        }
    }

    fn update_count(&self) -> (r: u64) {
        self.updates
    }

    fn compatibility(&self) -> (r: SketchCompatibility) {
        SketchCompatibility {
            algorithm: ALGORITHM.to_owned(),
            version: 1,
            hash: self.hash,
            params_hash: self.params_hash(),
        }
    }
}

// ---------------------------------------------------------------------------
// Laws
// ---------------------------------------------------------------------------

/// The sum of all counters.
pub open spec fn counter_sum(m: Map<Seq<u8>, int>) -> int {
    sum_over(m.dom(), |k: Seq<u8>| m[k])
}

/// What a summary promises about the true weights of all keys: no count
/// exceeds the true weight, and what is missing, `capacity + 1` times over, is
/// covered by the weight that no counter holds.
pub open spec fn lower_bounds(s: Frequent, truth: spec_fn(Seq<u8>) -> int) -> bool {
    &&& s.bounded()
    &&& forall|k: Seq<u8>| #[trigger] s.counters.contains_key(k) ==> 0 <= s.counters[k]
    &&& forall|k: Seq<u8>|
        {
            &&& count_or_zero(s.counters, k) <= #[trigger] truth(k)
            &&& (s.capacity + 1) * (truth(k) - count_or_zero(s.counters, k)) <= s.total
                - counter_sum(s.counters)
        }
}

/// The true weights after `weight` more of `key`.
pub open spec fn with_weight(
    truth: spec_fn(Seq<u8>) -> int,
    key: Seq<u8>,
    weight: int,
) -> spec_fn(Seq<u8>) -> int {
    |k: Seq<u8>| truth(k) + if k == key { weight } else { 0 }
}

proof fn lemma_counter_sum_nonnegative(s: Frequent, truth: spec_fn(Seq<u8>) -> int)
    requires
        lower_bounds(s, truth),
    ensures
        0 <= counter_sum(s.counters),
{
    let m = s.counters;
    assert forall|k: Seq<u8>| #[trigger] m.dom().contains(k) implies 0 <= (|k: Seq<u8>| m[k])(k) by {
        assert(m.contains_key(k));
    }
    lemma_sum_at_least(m.dom(), |k: Seq<u8>| m[k], 0);
}

/// Every reported count underestimates by at most `total / (capacity + 1)`,
/// and a key heavier than that has a counter.
pub proof fn law_undercount_is_bounded(
    s: Frequent,
    truth: spec_fn(Seq<u8>) -> int,
    key: Seq<u8>,
)
    requires
        lower_bounds(s, truth),
    ensures
        count_or_zero(s.counters, key) <= truth(key),
        (s.capacity + 1) * (truth(key) - count_or_zero(s.counters, key)) <= s.total,
        (s.capacity + 1) * truth(key) > s.total ==> s.counters.contains_key(key),
{
    lemma_counter_sum_nonnegative(s, truth);
    assert(count_or_zero(s.counters, key) <= truth(key));
}

/// A summary without content promises nothing false of an empty stream.
pub proof fn law_empty_lower_bounds(capacity: int, hash: HashSpec)
    requires
        capacity > 0,
    ensures
        lower_bounds(Frequent::empty(capacity, hash), |k: Seq<u8>| 0),
{
    let s = Frequent::empty(capacity, hash);
    assert(s.counters.dom() =~= Set::empty());
    assert((capacity + 1) * 0 == 0) by (nonlinear_arith);
}

/// A map that is not empty has a least count.
pub proof fn lemma_least_exists(m: Map<Seq<u8>, int>)
    requires
        m.dom().finite(),
        m.dom().len() > 0,
    ensures
        is_least_count(m, least_count(m)),
{
    lemma_nth_count(m, 1);
    let names = listing(m.dom(), count_order(m));
    let key = names[names.len() - 1];
    let d = m[key];
    assert(keys_below(m, d).len() == 0);
    keys_below(m, d).lemma_len0_is_empty();
    assert forall|k: Seq<u8>| #[trigger] m.contains_key(k) implies d <= m[k] by {
        if m[k] < d {
            assert(keys_below(m, d).contains(k));
        }
    }
    assert(is_least_count(m, d));
}

/// The sum after subtracting an amount that no more than `low` keys are below.
proof fn lemma_decremented_sum(m: Map<Seq<u8>, int>, d: int)
    requires
        m.dom().finite(),
        d >= 0,
        forall|k: Seq<u8>| #[trigger] m.contains_key(k) ==> 0 <= m[k],
    ensures
        keys_below(m, d).finite(),
        counter_sum(decremented(m, d)) + d * (m.dom().len() - keys_below(m, d).len())
            <= counter_sum(m),
        keys_below(m, d).len() == 0 ==> counter_sum(decremented(m, d)) + d * m.dom().len()
            == counter_sum(m),
{
    let f = |k: Seq<u8>| m[k];
    let g = |k: Seq<u8>| m[k] - d;
    let low = keys_below(m, d);
    let high = m.dom().difference(low);
    lemma_sum_split(m.dom(), low, f);
    assert(m.dom().intersect(low) =~= low);
    assert forall|k: Seq<u8>| #[trigger] low.contains(k) implies 0 <= f(k) by {
        assert(m.contains_key(k));
    }
    lemma_sum_at_least(low, f, 0);
    // On the high part, `f` is `g` plus `d`.
    lemma_sum_constant(high, d);
    lemma_sum_add(high, g, |k: Seq<u8>| d);
    lemma_sum_same(high, f, |k: Seq<u8>| g(k) + (|k: Seq<u8>| d)(k));
    // Keys at exactly `d` contribute nothing to `g`.
    let t = decremented(m, d);
    lemma_sum_split(high, t.dom(), g);
    assert(high.intersect(t.dom()) =~= t.dom());
    lemma_sum_same(t.dom(), g, |k: Seq<u8>| t[k]);
    let level = high.difference(t.dom());
    lemma_sum_constant(level, 0);
    lemma_sum_same(level, g, |k: Seq<u8>| 0int);
    if low.len() == 0 {
        low.lemma_len0_is_empty();
        lemma_sum_empty(f);
    }
}

/// Adding keeps the promise.
pub proof fn law_add_keeps_lower_bounds(
    s: Frequent,
    truth: spec_fn(Seq<u8>) -> int,
    key: Seq<u8>,
    weight: int,
)
    requires
        lower_bounds(s, truth),
        weight >= 0,
    ensures
        lower_bounds(s.added(key, weight), with_weight(truth, key, weight)),
{
    let m = s.counters;
    let t = s.added(key, weight);
    let n = t.counters;
    let now = with_weight(truth, key, weight);
    let c1 = s.capacity + 1;
    let f = |k: Seq<u8>| m[k];
    let g = |k: Seq<u8>| n[k];
    let dom = m.dom();
    let spare = s.total - counter_sum(m);
    if m.contains_key(key) {
        assert(n.dom() =~= dom);
        lemma_sum_remove(dom, f, key);
        lemma_sum_remove(dom, g, key);
        lemma_sum_same(dom.remove(key), f, g);
        assert forall|k: Seq<u8>|
            {
                &&& count_or_zero(n, k) <= #[trigger] now(k)
                &&& c1 * (now(k) - count_or_zero(n, k)) <= t.total - counter_sum(n)
            } by {
            assert(count_or_zero(m, k) <= truth(k));
        }
    } else if dom.len() < s.capacity {
        assert(n.dom() =~= dom.insert(key));
        lemma_sum_insert(dom, g, key);
        lemma_sum_same(dom, f, g);
        assert forall|k: Seq<u8>|
            {
                &&& count_or_zero(n, k) <= #[trigger] now(k)
                &&& c1 * (now(k) - count_or_zero(n, k)) <= t.total - counter_sum(n)
            } by {
            assert(count_or_zero(m, k) <= truth(k));
        }
    } else {
        lemma_least_exists(m);
        let d = s.drop_for(weight);
        let rest = decremented(m, d);
        assert(keys_below(m, d) =~= Set::empty());
        let holder = choose|k: Seq<u8>| #[trigger] m.contains_key(k) && m[k] == least_count(m);
        assert(m.contains_key(holder));
        assert(d >= 0);
        lemma_decremented_sum(m, d);
        lemma_decremented_len(m, d);
        let r = |k: Seq<u8>| rest[k];
        if weight - d > 0 {
            // The least counter is used up, so there is room.
            assert(keys_below(m, d + 1).contains(holder));
            assert(keys_below(m, d + 1).len() > 0) by {
                if keys_below(m, d + 1).len() == 0 {
                    keys_below(m, d + 1).lemma_len0_is_empty();
                }
            }
            assert(n == rest.insert(key, weight - d));
            assert(n.dom() =~= rest.dom().insert(key));
            lemma_sum_insert(rest.dom(), g, key);
            lemma_sum_same(rest.dom(), r, g);
        } else {
            assert(n == rest);
        }
        assert(counter_sum(n) == counter_sum(rest) + weight - d);
        assert(d * dom.len() == d * s.capacity) by (nonlinear_arith)
            requires
                dom.len() == s.capacity,
        ;
        assert(d * s.capacity + d == c1 * d) by (nonlinear_arith)
            requires
                c1 == s.capacity + 1,
        ;
        assert(t.total - counter_sum(n) == spare + c1 * d);
        assert forall|k: Seq<u8>|
            {
                &&& count_or_zero(n, k) <= #[trigger] now(k)
                &&& c1 * (now(k) - count_or_zero(n, k)) <= t.total - counter_sum(n)
            } by {
            assert(count_or_zero(m, k) <= truth(k));
            let under = truth(k) - count_or_zero(m, k);
            let after = now(k) - count_or_zero(n, k);
            assert(c1 * under <= spare);
            assert(after <= under + d);
            assert(c1 * after <= c1 * under + c1 * d) by (nonlinear_arith)
                requires
                    after <= under + d,
                    c1 > 0,
            ;
        }
    }
    assert forall|k: Seq<u8>| #[trigger] n.contains_key(k) implies 0 <= n[k] by {
        if k != key {
            assert(m.contains_key(k));
        }
    }
}

/// The true weights in two streams together.
pub open spec fn joint_weight(
    a: spec_fn(Seq<u8>) -> int,
    b: spec_fn(Seq<u8>) -> int,
) -> spec_fn(Seq<u8>) -> int {
    |k: Seq<u8>| a(k) + b(k)
}

/// Merging keeps the promise for both streams together.
pub proof fn law_merge_keeps_lower_bounds(
    s: Frequent,
    t: Frequent,
    first: spec_fn(Seq<u8>) -> int,
    second: spec_fn(Seq<u8>) -> int,
)
    requires
        lower_bounds(s, first),
        lower_bounds(t, second),
        s.capacity == t.capacity,
    ensures
        lower_bounds(s.merged(t), joint_weight(first, second)),
{
    let a = s.counters;
    let b = t.counters;
    let u = summed(a, b);
    let m = s.merged(t);
    let n = m.counters;
    let now = joint_weight(first, second);
    let c1 = s.capacity + 1;
    // The sum of the union is the sum of the sums.
    assert(u.dom() =~= a.dom().union(b.dom()));
    let f = |k: Seq<u8>| count_or_zero(a, k);
    let g = |k: Seq<u8>| count_or_zero(b, k);
    lemma_sum_add(u.dom(), f, g);
    lemma_sum_same(u.dom(), |k: Seq<u8>| u[k], |k: Seq<u8>| f(k) + g(k));
    lemma_sum_extended(a, u.dom());
    lemma_sum_extended(b, u.dom());
    assert(counter_sum(u) == counter_sum(a) + counter_sum(b));
    assert forall|k: Seq<u8>| #[trigger] u.contains_key(k) implies 0 <= u[k] by {}
    let spare = m.total - counter_sum(u);
    assert forall|k: Seq<u8>|
        {
            &&& count_or_zero(u, k) <= #[trigger] now(k)
            &&& c1 * (now(k) - count_or_zero(u, k)) <= spare
        } by {
        assert(count_or_zero(a, k) <= first(k));
        assert(count_or_zero(b, k) <= second(k));
        let x = first(k) - count_or_zero(a, k);
        let y = second(k) - count_or_zero(b, k);
        assert(c1 * (x + y) == c1 * x + c1 * y) by (nonlinear_arith);
        assert(now(k) - count_or_zero(u, k) == x + y);
    }
    if u.dom().len() > s.capacity {
        let excess = u.dom().len() - s.capacity;
        lemma_nth_count(u, excess);
        let d = nth_count(u, excess);
        assert(d >= 0);
        lemma_decremented_sum(u, d);
        lemma_decremented_len(u, d);
        let high = u.dom().len() - keys_below(u, d).len();
        assert(c1 * d <= d * high) by (nonlinear_arith)
            requires
                d >= 0,
                high >= c1,
        ;
        assert forall|k: Seq<u8>|
            {
                &&& count_or_zero(n, k) <= #[trigger] now(k)
                &&& c1 * (now(k) - count_or_zero(n, k)) <= m.total - counter_sum(n)
            } by {
            assert(count_or_zero(u, k) <= now(k));
            let under = now(k) - count_or_zero(u, k);
            let after = now(k) - count_or_zero(n, k);
            assert(c1 * after <= c1 * under + c1 * d) by (nonlinear_arith)
                requires
                    after <= under + d,
                    c1 > 0,
            ;
        }
    }
}

/// Keys without a count add nothing.
proof fn lemma_sum_extended(m: Map<Seq<u8>, int>, keys: Set<Seq<u8>>)
    requires
        keys.finite(),
        m.dom().subset_of(keys),
    ensures
        sum_over(keys, |k: Seq<u8>| count_or_zero(m, k)) == counter_sum(m),
{
    let f = |k: Seq<u8>| count_or_zero(m, k);
    lemma_sum_split(keys, m.dom(), f);
    assert(keys.intersect(m.dom()) =~= m.dom());
    lemma_sum_same(m.dom(), f, |k: Seq<u8>| m[k]);
    let rest = keys.difference(m.dom());
    lemma_sum_constant(rest, 0);
    lemma_sum_same(rest, f, |k: Seq<u8>| 0int);
}

/// A stream of additions keeps the promise: every count is at most the true
/// weight and misses at most `total / (capacity + 1)` of it.
pub proof fn law_stream_lower_bounds(capacity: int, hash: HashSpec, stream: Seq<(Seq<u8>, int)>)
    requires
        capacity > 0,
        nonnegative(stream),
    ensures
        lower_bounds(
            Frequent::empty(capacity, hash).fed(stream),
            |k: Seq<u8>| weight_of(stream, k),
        ),
    decreases stream.len(),
{
    let truth = |k: Seq<u8>| weight_of(stream, k);
    if stream.len() == 0 {
        law_empty_lower_bounds(capacity, hash);
        lemma_same_weights(Frequent::empty(capacity, hash), |k: Seq<u8>| 0, truth);
    } else {
        let front = stream.drop_last();
        assert(stream.last() == stream[stream.len() - 1]);
        assert(nonnegative(front));
        law_stream_lower_bounds(capacity, hash, front);
        let before = |k: Seq<u8>| weight_of(front, k);
        let s = Frequent::empty(capacity, hash).fed(front);
        law_add_keeps_lower_bounds(s, before, stream.last().0, stream.last().1);
        lemma_same_weights(
            s.added(stream.last().0, stream.last().1),
            with_weight(before, stream.last().0, stream.last().1),
            truth,
        );
    }
}

proof fn lemma_same_weights(
    s: Frequent,
    a: spec_fn(Seq<u8>) -> int,
    b: spec_fn(Seq<u8>) -> int,
)
    requires
        lower_bounds(s, a),
        forall|k: Seq<u8>| a(k) == #[trigger] b(k),
    ensures
        lower_bounds(s, b),
{
    assert forall|k: Seq<u8>|
        {
            &&& count_or_zero(s.counters, k) <= #[trigger] b(k)
            &&& (s.capacity + 1) * (b(k) - count_or_zero(s.counters, k)) <= s.total - counter_sum(
                s.counters,
            )
        } by {
        assert(a(k) == b(k));
    }
}

/// Reading counters that were written gives the counters.
proof fn lemma_counters_read_back(
    m: Map<Seq<u8>, int>,
    order: Seq<Seq<u8>>,
    known: Map<Seq<u8>, int>,
)
    requires
        forall|i: int| 0 <= i < order.len() ==> m.contains_key(#[trigger] order[i]),
        forall|i: int| 0 <= i < order.len() ==> (#[trigger] order[i]).len() <= u32::MAX,
        counts_fit(m),
    ensures
        ({
            let parts = Seq::new(order.len(), |i: int| counter_bytes(order[i], m[order[i]]));
            read_counters(joined(parts), order.len(), known) == Ok::<_, SketchErrorView>(
                known.union_prefer_right(m.restrict(order.to_set())),
            )
        }),
    decreases order.len(),
{
    let parts = Seq::new(order.len(), |i: int| counter_bytes(order[i], m[order[i]]));
    if order.len() == 0 {
        assert(known.union_prefer_right(m.restrict(order.to_set())) =~= known);
    } else {
        let k = order[0];
        let c = m[k];
        let tail = order.drop_first();
        let tail_parts = Seq::new(tail.len(), |i: int| counter_bytes(tail[i], m[tail[i]]));
        lemma_joined_first(parts);
        assert(parts.drop_first() =~= tail_parts);
        assert(m.contains_key(order[0]));
        lemma_pow256_values();
        lemma_le_value_of_le(k.len(), 4);
        lemma_le_value_of_le(c as nat, 8);
        let bytes = joined(parts);
        let n = k.len() as int;
        assert(bytes =~= counter_bytes(k, c) + joined(tail_parts));
        assert(bytes.take(4) =~= le(k.len(), 4));
        assert(bytes.subrange(4, 4 + n) =~= k);
        assert(bytes.subrange(4 + n, 4 + n + 8) =~= le(c as nat, 8));
        assert(bytes.skip(12 + n) =~= joined(tail_parts));
        assert forall|i: int| 0 <= i < tail.len() implies m.contains_key(#[trigger] tail[i])
            && tail[i].len() <= u32::MAX by {
            assert(tail[i] == order[i + 1]);
        }
        let next = known.insert(k, c);
        lemma_counters_read_back(m, tail, next);
        assert(order.to_set() =~= tail.to_set().insert(k)) by {
            assert forall|x: Seq<u8>| order.contains(x) implies tail.contains(x) || x == k by {
                let i = choose|i: int| 0 <= i < order.len() && order[i] == x;
                if i > 0 {
                    assert(tail[i - 1] == x);
                }
            }
            assert forall|x: Seq<u8>| tail.contains(x) implies order.contains(x) by {
                let i = choose|i: int| 0 <= i < tail.len() && tail[i] == x;
                assert(order[i + 1] == x);
            }
            assert(order.contains(order[0]));
        }
        assert(next.union_prefer_right(m.restrict(tail.to_set())) =~= known.union_prefer_right(
            m.restrict(order.to_set()),
        ));
    }
}

proof fn lemma_counters_size(m: Map<Seq<u8>, int>, order: Seq<Seq<u8>>)
    ensures
        joined(
            Seq::new(order.len(), |i: int| counter_bytes(order[i], m[order[i]])),
        ).len() >= 12 * order.len(),
    decreases order.len(),
{
    let parts = Seq::new(order.len(), |i: int| counter_bytes(order[i], m[order[i]]));
    if order.len() > 0 {
        let front = order.drop_last();
        lemma_counters_size(m, front);
        assert(parts.drop_last() =~= Seq::new(
            front.len(),
            |i: int| counter_bytes(front[i], m[front[i]]),
        ));
        lemma_le_len(order.last().len() as u32 as nat, 4);
        lemma_le_len(m[order.last()] as nat, 8);
    }
}

/// Reading a snapshot back gives the summary that was written, for every
/// summary whose keys and payload fit the format's length fields.
#[verifier::spinoff_prover]
#[verifier::rlimit(40)]
pub proof fn law_misra_gries_snapshot_round_trip(
    s: Frequent,
    window_start: u64,
    window_end: u64,
)
    requires
        s.bounded(),
        s.fits(),
        s.capacity <= usize::MAX,
        s.payload().len() <= u32::MAX,
        s.counters.dom().len() <= u32::MAX,
        forall|k: Seq<u8>| #[trigger] s.counters.contains_key(k) ==> k.len() <= u32::MAX,
    ensures
        Frequent::from_snapshot(s.snapshot(window_start, window_end)) == Ok::<
            Frequent,
            SketchErrorView,
        >(s),
{
    lemma_pow256_values();
    lemma_key_order();
    let dom = s.counters.dom();
    lemma_listing_exists(dom, key_order());
    let order = listing(dom, key_order());
    let params = le(s.capacity as nat, 8);
    let payload = s.payload();
    lemma_le_value_of_le(s.capacity as nat, 8);
    lemma_le_value_of_le(s.total as nat, 8);
    lemma_le_value_of_le(s.updates as nat, 8);
    lemma_le_value_of_le(dom.len(), 4);
    law_snapshot_round_trip(
        SnapshotHeader {
            version: SNAPSHOT_VERSION,
            algorithm_id: algorithm_id::MISRA_GRIES,
            hash: s.hash,
            window_start_nanos: window_start,
            window_end_nanos: window_end,
        },
        params,
        payload,
    );
    assert(params.subrange(0, 8) =~= params);
    assert(payload.subrange(0, 8) =~= le(s.total as nat, 8));
    assert(payload.subrange(8, 16) =~= le(s.updates as nat, 8));
    assert(payload.subrange(16, 20) =~= le(dom.len(), 4));
    assert(payload.skip(20) =~= joined(counter_parts(s.counters)));
    lemma_counters_size(s.counters, order);
    assert forall|i: int| 0 <= i < order.len() implies s.counters.contains_key(
        #[trigger] order[i],
    ) by {
        assert(order.contains(order[i]));
        assert(dom.contains(order[i]));
    }
    lemma_counters_read_back(s.counters, order, Map::empty());
    assert(Map::<Seq<u8>, int>::empty().union_prefer_right(s.counters.restrict(order.to_set()))
        =~= s.counters) by {
        assert forall|k: Seq<u8>| dom.contains(k) implies order.to_set().contains(k) by {
            assert(order.contains(k));
        }
    }
}

} // verus!
