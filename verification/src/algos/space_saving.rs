//! SpaceSaving (Metwally, Agrawal, El Abbadi): top-k / heavy hitters with a
//! bounded set of tracked candidates.
//!
//! For capacity `c`, every tracked key's count is an upper bound of its true
//! weight, overestimated by at most its recorded `error`; any key with true
//! weight above `N / c` is tracked.
//!
//! Merging follows the mergeable-summaries construction: counts of shared
//! keys add; a key present in only one summary is charged the other's minimum
//! count as additional potential error; the union is then trimmed back to
//! capacity.

use std::collections::HashMap;

use vstd::layout::{layout_for_type_is_valid, layout_of_primitives, size_of};
use vstd::prelude::*;
use vstd::std_specs::hash::*;
use vstd::string::*;

use crate::algos::heap::{
    heap_ordered, lemma_down_done, lemma_down_step, lemma_lower_irreflexive, lemma_lower_total,
    lemma_root_least, lemma_up_done, lemma_up_step, lower, open_above, open_below, parent, swapped,
    Rank,
};
use crate::algos::summary::{
    entry_bytes, entry_parts, key_digest, lemma_leaders, lemma_least_unique, lemma_ranking_order,
    ranking_order, read_entries, Summary, Tally, DIGEST_DOMAIN,
};
pub use crate::algos::summary::ALGORITHM;
use crate::bytes::{bytes_before, copy_bytes, joined, le, le_value, lemma_joined_step, same_bytes};
use crate::error::{SketchError, SketchErrorView};
use crate::hash::{hash64, hash_of, HashSpec};
use crate::memory::{
    allocated, allocated_map, capped, is_room, plus, rooms_bytes, sum_rooms, times,
};
use crate::order::{
    bytes_less, is_listing, key_order, lemma_bytes_irreflexive, lemma_bytes_total,
    lemma_bytes_transitive, lemma_key_order, lemma_listing, lemma_listing_len, listing, lists_range, ranked, Ranking,
};
use crate::sketch::{Compat, Sketch, SketchCompatibility};
use crate::snapshot::{
    algorithm_id, read_snapshot, write_snapshot, Reader, SnapshotHeader, Writer, SNAPSHOT_VERSION,
};
use crate::text::push_decimal;

verus! {

#[derive(Debug, Clone, Copy, PartialEq, Eq, Structural)]
pub struct Entry {
    /// Upper-bound count for this key.
    pub count: u64,
    /// Maximum possible overestimation of `count`.
    pub error: u64,
}

impl View for Entry {
    type V = Tally;

    open spec fn view(&self) -> Tally {
        Tally { count: self.count as int, error: self.error as int }
    }
}

impl Entry {
    /// Guaranteed (lower-bound) count.
    pub fn guaranteed(&self) -> (r: u64)
        requires
            self.error <= self.count,
        ensures
            r == self.count - self.error,
    {
        self.count - self.error
    }
}

#[derive(Debug, Clone)]
struct Slot {
    key: Vec<u8>,
    digest: u64,
    entry: Entry,
    heap_index: usize,
}

/// The slots whose keys share one digest.
#[derive(Debug, Clone)]
enum IndexBucket {
    One(usize),
    Many(Vec<usize>),
}

impl IndexBucket {
    spec fn slots(&self) -> Seq<usize> {
        match self {
            IndexBucket::One(i) => seq![*i],
            IndexBucket::Many(v) => v@,
        }
    }
}

spec fn occurs(v: Seq<usize>, s: int) -> bool {
    exists|p: int| 0 <= p < v.len() && #[trigger] v[p] == s
}

#[derive(Debug, Clone)]
pub struct SpaceSaving {
    capacity: usize,
    hash: HashSpec,
    /// Arena of tracked keys. Slot indices never move, so the heap compares
    /// and swaps integers.
    slots: Vec<Slot>,
    /// Lookup by digest; colliding digests are told apart by key bytes.
    key_index: HashMap<u64, IndexBucket>,
    /// Binary min-heap of slot indices.
    min_heap: Vec<usize>,
    total_weight: u64,
    updates: u64,
}

// ---------------------------------------------------------------------------
// Slots as a map
// ---------------------------------------------------------------------------

spec fn holds_key(slots: Seq<Slot>, key: Seq<u8>) -> bool {
    exists|s: int| 0 <= s < slots.len() && #[trigger] slots[s].key@ == key
}

spec fn slot_of(slots: Seq<Slot>, key: Seq<u8>) -> int {
    choose|s: int| 0 <= s < slots.len() && #[trigger] slots[s].key@ == key
}

spec fn slots_map(slots: Seq<Slot>) -> Map<Seq<u8>, Tally> {
    Map::new(|k: Seq<u8>| holds_key(slots, k), |k: Seq<u8>| slots[slot_of(slots, k)].entry@)
}

spec fn distinct_keys(slots: Seq<Slot>) -> bool {
    forall|i: int, j: int|
        0 <= i < slots.len() && 0 <= j < slots.len() && i != j ==> #[trigger] slots[i].key@
            != #[trigger] slots[j].key@
}

proof fn lemma_slot(slots: Seq<Slot>, s: int)
    requires
        distinct_keys(slots),
        0 <= s < slots.len(),
    ensures
        slot_of(slots, slots[s].key@) == s,
        slots_map(slots).contains_key(slots[s].key@),
        slots_map(slots)[slots[s].key@] == slots[s].entry@,
{
    let k = slots[s].key@;
    assert(holds_key(slots, k));
    let t = slot_of(slots, k);
    assert(slots[t].key@ == k);
}

/// Every tracked key is that of a slot.
proof fn lemma_slot_of(slots: Seq<Slot>, k: Seq<u8>)
    requires
        holds_key(slots, k),
    ensures
        0 <= slot_of(slots, k) < slots.len(),
        slots[slot_of(slots, k)].key@ == k,
{
}

/// Only keys and entries matter to the map.
proof fn lemma_same_map(a: Seq<Slot>, b: Seq<Slot>)
    requires
        a.len() == b.len(),
        distinct_keys(a),
        forall|s: int|
            0 <= s < a.len() ==> #[trigger] a[s].key == b[s].key && a[s].entry == b[s].entry,
    ensures
        distinct_keys(b),
        slots_map(a) == slots_map(b),
{
    assert forall|i: int, j: int| 0 <= i < b.len() && 0 <= j < b.len() && i != j implies (
    #[trigger] b[i]).key@ != (#[trigger] b[j]).key@ by {
        assert(a[i].key == b[i].key && a[j].key == b[j].key);
    }
    assert forall|k: Seq<u8>| holds_key(a, k) <==> holds_key(b, k) by {
        if holds_key(a, k) {
            let s = slot_of(a, k);
            assert(a[s].key == b[s].key);
            assert(b[s].key@ == k);
        }
        if holds_key(b, k) {
            let s = slot_of(b, k);
            assert(a[s].key == b[s].key);
            assert(a[s].key@ == k);
        }
    }
    assert forall|k: Seq<u8>| holds_key(a, k) implies slots_map(a)[k] == slots_map(b)[k] by {
        let s = slot_of(a, k);
        assert(a[s].key == b[s].key && a[s].entry == b[s].entry);
        lemma_slot(a, s);
        lemma_slot(b, s);
    }
    assert(slots_map(a) =~= slots_map(b));
}

proof fn lemma_map_push(slots: Seq<Slot>, slot: Slot)
    requires
        distinct_keys(slots),
        !holds_key(slots, slot.key@),
    ensures
        distinct_keys(slots.push(slot)),
        slots_map(slots.push(slot)) == slots_map(slots).insert(slot.key@, slot.entry@),
{
    let t = slots.push(slot);
    assert forall|i: int, j: int| 0 <= i < t.len() && 0 <= j < t.len() && i != j implies (
    #[trigger] t[i]).key@ != (#[trigger] t[j]).key@ by {
        if i == slots.len() {
            assert(slots[j].key@ != slot.key@);
        } else if j == slots.len() {
            assert(slots[i].key@ != slot.key@);
        }
    }
    let m = slots_map(slots).insert(slot.key@, slot.entry@);
    assert forall|k: Seq<u8>| holds_key(t, k) <==> m.contains_key(k) by {
        if holds_key(t, k) {
            let s = slot_of(t, k);
            if s < slots.len() {
                assert(slots[s].key@ == k);
            }
        }
        if holds_key(slots, k) {
            let s = slot_of(slots, k);
            assert(t[s].key@ == k);
        }
        if k == slot.key@ {
            assert(t[slots.len() as int].key@ == k);
        }
    }
    assert forall|k: Seq<u8>| holds_key(t, k) implies slots_map(t)[k] == m[k] by {
        let s = slot_of(t, k);
        lemma_slot(t, s);
        if s < slots.len() {
            lemma_slot(slots, s);
        }
    }
    assert(slots_map(t) =~= m);
}

/// Another key and entry in one slot.
proof fn lemma_map_replace(slots: Seq<Slot>, s: int, slot: Slot)
    requires
        distinct_keys(slots),
        0 <= s < slots.len(),
        slot.key@ == slots[s].key@ || !holds_key(slots, slot.key@),
    ensures
        distinct_keys(slots.update(s, slot)),
        slots_map(slots.update(s, slot)) == slots_map(slots).remove(slots[s].key@).insert(
            slot.key@,
            slot.entry@,
        ),
{
    let t = slots.update(s, slot);
    assert forall|i: int, j: int| 0 <= i < t.len() && 0 <= j < t.len() && i != j implies (
    #[trigger] t[i]).key@ != (#[trigger] t[j]).key@ by {
        if i == s {
            assert(slots[j].key@ != slots[s].key@);
        } else if j == s {
            assert(slots[i].key@ != slots[s].key@);
        } else {
            assert(slots[i].key@ != slots[j].key@);
        }
    }
    let m = slots_map(slots).remove(slots[s].key@).insert(slot.key@, slot.entry@);
    assert forall|k: Seq<u8>| holds_key(t, k) <==> m.contains_key(k) by {
        if holds_key(t, k) {
            let p = slot_of(t, k);
            if p != s {
                assert(slots[p].key@ == k);
            }
        }
        if m.contains_key(k) {
            if k == slot.key@ {
                assert(t[s].key@ == k);
            } else {
                let p = slot_of(slots, k);
                assert(t[p].key@ == k);
            }
        }
    }
    assert forall|k: Seq<u8>| holds_key(t, k) implies slots_map(t)[k] == m[k] by {
        let p = slot_of(t, k);
        lemma_slot(t, p);
        if p != s {
            lemma_slot(slots, p);
            assert(slots[p].key@ != slots[s].key@);
        }
    }
    assert(slots_map(t) =~= m);
}

proof fn lemma_map_len(slots: Seq<Slot>)
    requires
        distinct_keys(slots),
    ensures
        slots_map(slots).dom().finite(),
        slots_map(slots).dom().len() == slots.len(),
{
    let keys = slots.map_values(|s: Slot| s.key@);
    assert forall|i: int, j: int| 0 <= i < keys.len() && 0 <= j < keys.len() && i != j implies keys[i]
        != keys[j] by {
        assert(slots[i].key@ != slots[j].key@);
    }
    keys.unique_seq_to_set();
    assert forall|k: Seq<u8>| slots_map(slots).dom().contains(k) <==> keys.to_set().contains(k) by {
        if holds_key(slots, k) {
            let s = slot_of(slots, k);
            assert(keys[s] == k);
        }
        if keys.contains(k) {
            let s = choose|s: int| 0 <= s < keys.len() && keys[s] == k;
            assert(slots[s].key@ == k);
        }
    }
    assert(slots_map(slots).dom() =~= keys.to_set());
}

// ---------------------------------------------------------------------------
// The index
// ---------------------------------------------------------------------------

/// The index lists the slot under its digest.
spec fn lists(index: Map<u64, IndexBucket>, slots: Seq<Slot>, s: int) -> bool {
    &&& index.contains_key(slots[s].digest)
    &&& occurs(index[slots[s].digest].slots(), s)
}

/// What the index holds at place `p` under `d` is a slot with that digest
/// other than `skip`.
spec fn listed_ok(
    index: Map<u64, IndexBucket>,
    slots: Seq<Slot>,
    skip: int,
    d: u64,
    p: int,
) -> bool {
    let s = index[d].slots()[p];
    &&& s < slots.len()
    &&& s != skip
    &&& slots[s as int].digest == d
}

spec fn bucket_ok(index: Map<u64, IndexBucket>, d: u64) -> bool {
    &&& index[d].slots().no_duplicates()
    &&& index[d].slots().len() > 0
    &&& index[d] is Many ==> index[d].slots().len() > 1
}

/// The index lists under a digest exactly the slots that have it, each once;
/// slot `skip` is left out.
spec fn indexed(index: Map<u64, IndexBucket>, slots: Seq<Slot>, skip: int) -> bool {
    &&& forall|d: u64, p: int|
        index.contains_key(d) && 0 <= p < index[d].slots().len() ==> #[trigger] listed_ok(
            index,
            slots,
            skip,
            d,
            p,
        )
    &&& forall|s: int| 0 <= s < slots.len() && s != skip ==> #[trigger] lists(index, slots, s)
    &&& forall|d: u64| index.contains_key(d) ==> #[trigger] bucket_ok(index, d)
}

// ---------------------------------------------------------------------------
// Representation
// ---------------------------------------------------------------------------

spec fn rank_of_slot(slot: Slot) -> Rank {
    Rank { count: slot.entry.count as int, digest: slot.digest, key: slot.key@ }
}

spec fn heap_ranks(heap: Seq<usize>, slots: Seq<Slot>) -> Seq<Rank> {
    heap.map_values(|s: usize| rank_of_slot(slots[s as int]))
}

impl View for SpaceSaving {
    type V = Summary;

    closed spec fn view(&self) -> Summary {
        Summary {
            capacity: self.capacity as int,
            hash: self.hash,
            entries: slots_map(self.slots@),
            total: self.total_weight as int,
            updates: self.updates as int,
        }
    }
}

impl SpaceSaving {
    spec fn slot_rank(&self, s: int) -> Rank {
        rank_of_slot(self.slots@[s])
    }

    /// The ranks of the heap's nodes.
    spec fn ranks(&self) -> Seq<Rank> {
        heap_ranks(self.min_heap@, self.slots@)
    }

    /// Heap and slots point at each other.
    spec fn linked(&self) -> bool {
        &&& self.min_heap@.len() == self.slots@.len()
        &&& forall|h: int|
            0 <= h < self.min_heap@.len() ==> (#[trigger] self.min_heap@[h]) < self.slots@.len()
                && self.slots@[self.min_heap@[h] as int].heap_index == h
        &&& forall|s: int|
            0 <= s < self.slots@.len() ==> (#[trigger] self.slots@[s]).heap_index
                < self.min_heap@.len() && self.min_heap@[self.slots@[s].heap_index as int] == s
    }

    spec fn digests_ok(&self) -> bool {
        forall|s: int|
            0 <= s < self.slots@.len() ==> (#[trigger] self.slots@[s]).digest == key_digest(
                self.hash.seed,
                self.slots@[s].key@,
            )
    }

    /// The index lists under a digest exactly the slots that have it, each
    /// once; slot `skip` is left out.
    spec fn indexed_but(&self, skip: int) -> bool {
        indexed(self.key_index@, self.slots@, skip)
    }

    spec fn errors_ok(&self) -> bool {
        forall|s: int|
            0 <= s < self.slots@.len() ==> (#[trigger] self.slots@[s]).entry.error
                <= self.slots@[s].entry.count
    }

    /// Consistent but for the order of the heap.
    spec fn arranged(&self) -> bool {
        &&& self.capacity > 0
        &&& self.slots@.len() <= self.capacity
        &&& self.linked()
        &&& self.digests_ok()
        &&& self.indexed_but(-1)
        &&& self.errors_ok()
        &&& distinct_keys(self.slots@)
    }

    /// The same content, but for where the heap holds it.
    spec fn same_content(&self, other: &Self) -> bool {
        &&& self.capacity == other.capacity
        &&& self.hash == other.hash
        &&& self.key_index == other.key_index
        &&& self.total_weight == other.total_weight
        &&& self.updates == other.updates
        &&& self.slots@.len() == other.slots@.len()
        &&& forall|s: int|
            0 <= s < self.slots@.len() ==> (#[trigger] self.slots@[s]).key == other.slots@[s].key
                && self.slots@[s].digest == other.slots@[s].digest && self.slots@[s].entry
                == other.slots@[s].entry
    }

    fn key_digest(&self, key: &[u8]) -> (r: u64)
        ensures
            r == key_digest(self.hash.seed, key@),
    {
        hash64(key, self.hash.seed ^ DIGEST_DOMAIN)
    }

    fn bucket(&self, digest: u64) -> (r: Option<&IndexBucket>)
        ensures
            r is Some <==> self.key_index@.contains_key(digest),
            r matches Some(b) ==> *b == self.key_index@[digest],
    {
        broadcast use group_hash_axioms;

        self.key_index.get(&digest)
    }

    /// The slot of `key`, if it is tracked.
    fn find_slot_with_digest(&self, key: &[u8], digest: u64) -> (r: Option<usize>)
        requires
            self.digests_ok(),
            self.indexed_but(-1),
            digest == key_digest(self.hash.seed, key@),
        ensures
            r is Some <==> holds_key(self.slots@, key@),
            r matches Some(s) ==> s < self.slots@.len() && self.slots@[s as int].key@ == key@,
    {
        match self.bucket(digest) {
            None => {
                assert forall|s: int| 0 <= s < self.slots@.len() implies #[trigger] self.slots@[s].key@
                    != key@ by {
                    assert(lists(self.key_index@, self.slots@, s));
                }
                None
            },
            Some(IndexBucket::One(index)) => {
                let i: usize = *index;
                assert(listed_ok(self.key_index@, self.slots@, -1, digest, 0));
                if same_bytes(self.slots[i].key.as_slice(), key) {
                    return Some(i);
                }
                assert forall|s: int| 0 <= s < self.slots@.len() implies #[trigger] self.slots@[s].key@
                    != key@ by {
                    assert(lists(self.key_index@, self.slots@, s));
                    if self.slots@[s].key@ == key@ {
                        let listed = self.key_index@[digest].slots();
                        assert(occurs(listed, s));
                        assert(listed[0] == i);
                    }
                }
                None
            },
            Some(IndexBucket::Many(indices)) => {
                let mut p: usize = 0;
                while p < indices.len()
                    invariant
                        self.digests_ok(),
                        self.indexed_but(-1),
                        self.key_index@.contains_key(digest),
                        self.key_index@[digest].slots() == indices@,
                        p <= indices.len(),
                        forall|q: int|
                            0 <= q < p ==> self.slots@[(#[trigger] indices@[q]) as int].key@
                                != key@,
                    decreases indices.len() - p,
                {
                    assert(listed_ok(self.key_index@, self.slots@, -1, digest, p as int));
                    let i: usize = indices[p];
                    if same_bytes(self.slots[i].key.as_slice(), key) {
                        return Some(i);
                    }
                    p += 1;
                }
                assert forall|s: int| 0 <= s < self.slots@.len() implies #[trigger] self.slots@[s].key@
                    != key@ by {
                    assert(lists(self.key_index@, self.slots@, s));
                    if self.slots@[s].key@ == key@ {
                        assert(occurs(indices@, s));
                        let q = choose|q: int| 0 <= q < indices@.len() && indices@[q] == s;
                        assert(self.slots@[indices@[q] as int].key@ != key@);
                    }
                }
                None
            },
        }
    }

    fn find_slot(&self, key: &[u8]) -> (r: Option<usize>)
        requires
            self.digests_ok(),
            self.indexed_but(-1),
        ensures
            r is Some <==> holds_key(self.slots@, key@),
            r matches Some(s) ==> s < self.slots@.len() && self.slots@[s as int].key@ == key@,
    {
        self.find_slot_with_digest(key, self.key_digest(key))
    }

    fn take_bucket(&mut self, digest: u64) -> (r: Option<IndexBucket>)
        ensures
            *final(self) == (SpaceSaving { key_index: final(self).key_index, ..*old(self) }),
            final(self).key_index@ == old(self).key_index@.remove(digest),
            r is Some <==> old(self).key_index@.contains_key(digest),
            r matches Some(b) ==> b == old(self).key_index@[digest],
    {
        broadcast use group_hash_axioms;

        self.key_index.remove(&digest)
    }

    fn put_bucket(&mut self, digest: u64, bucket: IndexBucket)
        ensures
            *final(self) == (SpaceSaving { key_index: final(self).key_index, ..*old(self) }),
            final(self).key_index@ == old(self).key_index@.insert(digest, bucket),
    {
        broadcast use group_hash_axioms;

        self.key_index.insert(digest, bucket);
    }

    /// Enter the one slot that the index does not list yet.
    fn add_to_index(&mut self, digest: u64, slot_index: usize)
        requires
            slot_index < old(self).slots@.len(),
            old(self).slots@[slot_index as int].digest == digest,
            old(self).indexed_but(slot_index as int),
        ensures
            *final(self) == (SpaceSaving { key_index: final(self).key_index, ..*old(self) }),
            final(self).indexed_but(-1),
    {
        let ghost before = *self;
        let ghost known = before.key_index@.contains_key(digest);
        let ghost listed = if known {
            before.key_index@[digest].slots()
        } else {
            Seq::empty()
        };
        let bucket: IndexBucket = match self.take_bucket(digest) {
            None => IndexBucket::One(slot_index),
            Some(IndexBucket::One(existing)) => {
                let mut both: Vec<usize> = Vec::new();
                both.push(existing);
                both.push(slot_index);
                IndexBucket::Many(both)
            },
            Some(IndexBucket::Many(indices)) => {
                let mut more = indices;
                more.push(slot_index);
                IndexBucket::Many(more)
            },
        };
        assert(bucket.slots() =~= listed.push(slot_index));
        self.put_bucket(digest, bucket);
        proof {
            let after = *self;
            assert(after.key_index@ =~= before.key_index@.insert(digest, bucket));
            assert forall|d: u64, p: int|
                after.key_index@.contains_key(d) && 0 <= p < after.key_index@[d].slots().len()
                implies #[trigger] listed_ok(after.key_index@, after.slots@, -1, d, p) by {
                if d == digest && p == listed.len() {
                } else {
                    assert(listed_ok(before.key_index@, before.slots@, slot_index as int, d, p));
                }
            }
            assert forall|s: int| 0 <= s < after.slots@.len() implies #[trigger] lists(after.key_index@, after.slots@, s) by {
                if s == slot_index {
                    assert(after.key_index@[digest].slots()[listed.len() as int] == s);
                } else {
                    assert(lists(before.key_index@, before.slots@, s));
                    let d = after.slots@[s].digest;
                    let q = choose|q: int|
                        0 <= q < before.key_index@[d].slots().len()
                            && before.key_index@[d].slots()[q] == s;
                    assert(after.key_index@[d].slots()[q] == s);
                }
            }
            assert forall|d: u64| after.key_index@.contains_key(d) implies #[trigger] bucket_ok(after.key_index@, 
                d,
            ) by {
                if d == digest {
                    if known {
                        assert(bucket_ok(before.key_index@, d));
                    }
                    let t = after.key_index@[d].slots();
                    assert forall|i: int, j: int|
                        0 <= i < t.len() && 0 <= j < t.len() && i != j implies t[i] != t[j] by {
                        if i < listed.len() {
                            assert(listed_ok(before.key_index@, before.slots@, slot_index as int, d, i));
                        }
                        if j < listed.len() {
                            assert(listed_ok(before.key_index@, before.slots@, slot_index as int, d, j));
                        }
                    }
                } else {
                    assert(bucket_ok(before.key_index@, d));
                }
            }
        }
    }

    /// Drop one slot from the index.
    fn remove_from_index(&mut self, digest: u64, slot_index: usize)
        requires
            slot_index < old(self).slots@.len(),
            old(self).slots@[slot_index as int].digest == digest,
            old(self).indexed_but(-1),
        ensures
            *final(self) == (SpaceSaving { key_index: final(self).key_index, ..*old(self) }),
            final(self).indexed_but(slot_index as int),
    {
        let ghost before = *self;
        let ghost listed = before.key_index@[digest].slots();
        proof {
            assert(lists(before.key_index@, before.slots@, slot_index as int));
            assert(bucket_ok(before.key_index@, digest));
        }
        let ghost place = choose|p: int| 0 <= p < listed.len() && listed[p] == slot_index;
        match self.take_bucket(digest) {
            None => {},
            Some(IndexBucket::One(existing)) => {
                proof {
                    assert(listed.len() == 1 && listed[0] == existing);
                    let after = *self;
                    assert forall|d: u64, p: int|
                        after.key_index@.contains_key(d) && 0 <= p
                            < after.key_index@[d].slots().len() implies #[trigger] listed_ok(after.key_index@, after.slots@, 
                        slot_index as int,
                        d,
                        p,
                    ) by {
                        assert(listed_ok(before.key_index@, before.slots@, -1, d, p));
                    }
                    assert forall|s: int| 0 <= s < after.slots@.len() && s != slot_index implies
                        #[trigger] lists(after.key_index@, after.slots@, s) by {
                        assert(lists(before.key_index@, before.slots@, s));
                    }
                    assert forall|d: u64| after.key_index@.contains_key(d) implies
                        #[trigger] bucket_ok(after.key_index@, d) by {
                        assert(bucket_ok(before.key_index@, d));
                    }
                }
            },
            Some(IndexBucket::Many(indices)) => {
                let mut rest = indices;
                let mut position: usize = 0;
                while rest[position] != slot_index
                    invariant
                        rest@ == listed,
                        0 <= position <= place < listed.len(),
                        listed[place] == slot_index,
                    decreases place - position,
                {
                    assert(rest.len() == listed.len());
                    position += 1;
                }
                assert(listed.no_duplicates());
                rest.swap_remove(position);
                let ghost left = rest@;
                let ghost last = listed.len() - 1;
                proof {
                    assert(left.len() == last);
                    assert forall|q: int| 0 <= q < left.len() implies #[trigger] left[q]
                        == listed[if q == position { last } else { q }] by {}
                }
                if rest.len() == 1 {
                    let only: usize = rest[0];
                    let bucket = IndexBucket::One(only);
                    assert(bucket.slots() =~= left);
                    self.put_bucket(digest, bucket);
                    proof {
                        self.lemma_dropped(before, digest, slot_index, left, position as int);
                    }
                } else {
                    self.put_bucket(digest, IndexBucket::Many(rest));
                    proof {
                        self.lemma_dropped(before, digest, slot_index, left, position as int);
                    }
                }
            },
        }
    }

    /// The index after one slot has left its bucket.
    proof fn lemma_dropped(
        &self,
        before: SpaceSaving,
        digest: u64,
        slot_index: usize,
        left: Seq<usize>,
        position: int,
    )
        requires
            before.indexed_but(-1),
            before.key_index@.contains_key(digest),
            self.slots == before.slots,
            slot_index < before.slots@.len(),
            before.slots@[slot_index as int].digest == digest,
            ({
                let listed = before.key_index@[digest].slots();
                let last = listed.len() - 1;
                &&& 0 <= position < listed.len()
                &&& listed[position] == slot_index
                &&& left.len() == last
                &&& forall|q: int|
                    0 <= q < left.len() ==> #[trigger] left[q] == listed[if q == position {
                        last
                    } else {
                        q
                    }]
                &&& left.len() == 0 ==> self.key_index@ == before.key_index@.remove(digest)
                &&& left.len() > 0 ==> self.key_index@.contains_key(digest)
                    && self.key_index@[digest].slots() == left && (
                self.key_index@[digest] is Many ==> left.len() > 1)
                &&& forall|d: u64|
                    d != digest ==> (#[trigger] self.key_index@.contains_key(d)
                        <==> before.key_index@.contains_key(d))
                &&& forall|d: u64|
                    d != digest && before.key_index@.contains_key(d) ==> #[trigger] self.key_index@[d]
                        == before.key_index@[d]
            }),
        ensures
            self.indexed_but(slot_index as int),
    {
        let listed = before.key_index@[digest].slots();
        let last = listed.len() - 1;
        assert(bucket_ok(before.key_index@, digest));
        assert forall|d: u64, p: int|
            self.key_index@.contains_key(d) && 0 <= p < self.key_index@[d].slots().len() implies
            #[trigger] listed_ok(self.key_index@, self.slots@, slot_index as int, d, p) by {
            if d == digest {
                let q = if p == position { last } else { p };
                assert(left[p] == listed[q]);
                assert(listed_ok(before.key_index@, before.slots@, -1, d, q));
                assert(listed[q] != listed[position]);
            } else {
                assert(listed_ok(before.key_index@, before.slots@, -1, d, p));
                if before.key_index@[d].slots()[p] == slot_index {
                    assert(before.slots@[slot_index as int].digest == d);
                }
            }
        }
        assert forall|s: int| 0 <= s < self.slots@.len() && s != slot_index implies
            #[trigger] lists(self.key_index@, self.slots@, s) by {
            assert(lists(before.key_index@, before.slots@, s));
            let d = self.slots@[s].digest;
            let b = before.key_index@[d].slots();
            let q = choose|q: int| 0 <= q < b.len() && b[q] == s;
            if d == digest {
                if q == last {
                    assert(left[position] == s);
                } else {
                    assert(left[q] == s);
                }
            } else {
                assert(self.key_index@[d].slots()[q] == s);
            }
        }
        assert forall|d: u64| self.key_index@.contains_key(d) implies #[trigger] bucket_ok(self.key_index@, 
            d,
        ) by {
            if d == digest {
                assert forall|i: int, j: int|
                    0 <= i < left.len() && 0 <= j < left.len() && i != j implies left[i]
                    != left[j] by {
                    let a = if i == position { last } else { i };
                    let b = if j == position { last } else { j };
                    assert(left[i] == listed[a] && left[j] == listed[b]);
                }
            } else {
                assert(bucket_ok(before.key_index@, d));
            }
        }
    }

    fn slot_is_less(&self, left: usize, right: usize) -> (r: bool)
        requires
            left < self.slots@.len(),
            right < self.slots@.len(),
        ensures
            r == lower(self.slot_rank(left as int), self.slot_rank(right as int)),
    {
        let a = &self.slots[left];
        let b = &self.slots[right];
        if a.entry.count != b.entry.count {
            a.entry.count < b.entry.count
        } else if a.digest != b.digest {
            a.digest < b.digest
        } else {
            bytes_less(a.key.as_slice(), b.key.as_slice())
        }
    }

    fn heap_slot_is_less(&self, left: usize, right: usize) -> (r: bool)
        requires
            self.linked(),
            left < self.min_heap@.len(),
            right < self.min_heap@.len(),
        ensures
            r == lower(self.ranks()[left as int], self.ranks()[right as int]),
    {
        self.slot_is_less(self.min_heap[left], self.min_heap[right])
    }

    fn swap_heap(&mut self, left: usize, right: usize)
        requires
            old(self).linked(),
            left < old(self).min_heap@.len(),
            right < old(self).min_heap@.len(),
            left != right,
        ensures
            final(self).linked(),
            final(self).same_content(old(self)),
            final(self).ranks() == swapped(old(self).ranks(), left as int, right as int),
    {
        let a: usize = self.min_heap[left];
        let b: usize = self.min_heap[right];
        self.min_heap.set(left, b);
        self.min_heap.set(right, a);
        self.slots[b].heap_index = left;
        self.slots[a].heap_index = right;
        proof {
            let x = *old(self);
            let y = *self;
            assert(x.slots@[a as int].heap_index == left);
            assert(x.slots@[b as int].heap_index == right);
            assert forall|h: int| 0 <= h < y.min_heap@.len() implies (#[trigger] y.min_heap@[h])
                < y.slots@.len() && y.slots@[y.min_heap@[h] as int].heap_index == h by {
                assert(x.min_heap@[h] < x.slots@.len());
                assert(x.slots@[x.min_heap@[h] as int].heap_index == h);
            }
            assert forall|s: int| 0 <= s < y.slots@.len() implies (#[trigger] y.slots@[s]).heap_index
                < y.min_heap@.len() && y.min_heap@[y.slots@[s].heap_index as int] == s by {
                assert(x.slots@[s].heap_index < x.min_heap@.len());
                assert(x.min_heap@[x.slots@[s].heap_index as int] == s);
            }
            assert(y.ranks() =~= swapped(x.ranks(), left as int, right as int));
        }
    }

    /// Restore the heap above `start`, whose node may be too low.
    fn sift_up(&mut self, start: usize)
        requires
            old(self).linked(),
            start < old(self).min_heap@.len(),
            open_above(old(self).ranks(), start as int),
        ensures
            final(self).linked(),
            final(self).same_content(old(self)),
            heap_ordered(final(self).ranks()),
    {
        let mut index: usize = start;
        while index > 0
            invariant_except_break
                open_above(self.ranks(), index as int),
            invariant
                self.linked(),
                self.same_content(old(self)),
                index < self.min_heap@.len(),
            ensures
                heap_ordered(self.ranks()),
            decreases index,
        {
            let up: usize = (index - 1) / 2;
            assert(up == parent(index as int));
            if !self.heap_slot_is_less(index, up) {
                proof {
                    lemma_up_done(self.ranks(), index as int);
                }
                break;
            }
            proof {
                lemma_up_step(self.ranks(), index as int);
            }
            self.swap_heap(index, up);
            index = up;
        }
    }

    /// Restore the heap below `start`, whose node may be too high.
    fn sift_down(&mut self, start: usize)
        requires
            old(self).linked(),
            start < old(self).min_heap@.len(),
            open_below(old(self).ranks(), start as int),
        ensures
            final(self).linked(),
            final(self).same_content(old(self)),
            heap_ordered(final(self).ranks()),
    {
        let mut index: usize = start;
        loop
            invariant_except_break
                open_below(self.ranks(), index as int),
            invariant
                self.linked(),
                self.same_content(old(self)),
                index < self.min_heap@.len(),
            ensures
                heap_ordered(self.ranks()),
            decreases self.min_heap@.len() - index,
        {
            let n: usize = self.min_heap.len();
            if index >= n / 2 {
                proof {
                    assert forall|c: int| 0 < c < n && parent(c) == index implies !lower(
                        #[trigger] self.ranks()[c],
                        self.ranks()[index as int],
                    ) by {}
                    lemma_down_done(self.ranks(), index as int);
                }
                break;
            }
            let left: usize = index * 2 + 1;
            let right: usize = left + 1;
            let smallest: usize = if right < n && self.heap_slot_is_less(right, left) {
                right
            } else {
                left
            };
            proof {
                let r = self.ranks();
                assert forall|c: int| 0 < c < r.len() && parent(c) == index implies !lower(
                    #[trigger] r[c],
                    r[smallest as int],
                ) by {
                    assert(c == left || c == right);
                    lemma_lower_irreflexive(r[left as int]);
                    if right < n {
                        lemma_lower_irreflexive(r[right as int]);
                        lemma_lower_total(r[left as int], r[right as int]);
                    }
                }
            }
            if !self.heap_slot_is_less(smallest, index) {
                proof {
                    let r = self.ranks();
                    assert forall|c: int| 0 < c < r.len() && parent(c) == index implies !lower(
                        #[trigger] r[c],
                        r[index as int],
                    ) by {
                        crate::algos::heap::lemma_not_lower_transitive(
                            r[c],
                            r[smallest as int],
                            r[index as int],
                        );
                    }
                    lemma_down_done(r, index as int);
                }
                break;
            }
            proof {
                lemma_down_step(self.ranks(), index as int, smallest as int);
            }
            self.swap_heap(index, smallest);
            index = smallest;
        }
    }

    // -----------------------------------------------------------------------
    // Invariant
    // -----------------------------------------------------------------------

    /// Everything is consistent: heap and slots point at each other, the heap
    /// is ordered, the index finds exactly the tracked keys, and no key is
    /// tracked twice.
    closed spec fn consistent(&self) -> bool {
        self.arranged() && heap_ordered(self.ranks())
    }

    /// Moving nodes about in the heap changes nothing else.
    proof fn lemma_carried(&self, before: SpaceSaving)
        requires
            self.same_content(&before),
            before.digests_ok(),
            before.indexed_but(-1),
            before.errors_ok(),
            distinct_keys(before.slots@),
        ensures
            self.digests_ok(),
            self.indexed_but(-1),
            self.errors_ok(),
            distinct_keys(self.slots@),
            self@ == before@,
    {
        assert forall|s: int| 0 <= s < self.slots@.len() implies (#[trigger] self.slots@[s]).digest
            == key_digest(self.hash.seed, self.slots@[s].key@) by {
            assert(before.slots@[s].digest == key_digest(before.hash.seed, before.slots@[s].key@));
        }
        assert forall|d: u64, p: int|
            self.key_index@.contains_key(d) && 0 <= p < self.key_index@[d].slots().len() implies
            #[trigger] listed_ok(self.key_index@, self.slots@, -1, d, p) by {
            assert(listed_ok(before.key_index@, before.slots@, -1, d, p));
        }
        assert forall|s: int| 0 <= s < self.slots@.len() implies #[trigger] lists(self.key_index@, self.slots@, s) by {
            assert(lists(before.key_index@, before.slots@, s));
            assert(self.slots@[s].digest == before.slots@[s].digest);
        }
        assert forall|d: u64| self.key_index@.contains_key(d) implies #[trigger] bucket_ok(self.key_index@, 
            d,
        ) by {
            assert(bucket_ok(before.key_index@, d));
        }
        assert forall|s: int| 0 <= s < self.slots@.len() implies (
        #[trigger] self.slots@[s]).entry.error <= self.slots@[s].entry.count by {
            assert(before.slots@[s].entry.error <= before.slots@[s].entry.count);
        }
        assert forall|s: int| 0 <= s < self.slots@.len() implies (
        #[trigger] before.slots@[s]).key == self.slots@[s].key && before.slots@[s].entry
            == self.slots@[s].entry by {
            assert(self.slots@[s].key == before.slots@[s].key);
        }
        lemma_same_map(before.slots@, self.slots@);
    }

    /// The rank of a slot is the rank of its key.
    proof fn lemma_rank(&self, s: int)
        requires
            self.digests_ok(),
            distinct_keys(self.slots@),
            0 <= s < self.slots@.len(),
        ensures
            self.slot_rank(s) == self@.rank(self.slots@[s].key@),
    {
        lemma_slot(self.slots@, s);
        assert(self.slots@[s].digest == key_digest(self.hash.seed, self.slots@[s].key@));
    }

    /// The root of the heap holds the least key.
    proof fn lemma_root(&self)
        requires
            self.consistent(),
            self.slots@.len() > 0,
        ensures
            self@.is_least(self.slots@[self.min_heap@[0] as int].key@),
            self@.least() == self.slots@[self.min_heap@[0] as int].key@,
            self@.minimum_count() == self.slots@[self.min_heap@[0] as int].entry.count,
    {
        let root = self.min_heap@[0] as int;
        assert(root < self.slots@.len());
        let key = self.slots@[root].key@;
        lemma_slot(self.slots@, root);
        self.lemma_rank(root);
        assert forall|j: Seq<u8>| #[trigger] self@.entries.contains_key(j) implies !lower(
            self@.rank(j),
            self@.rank(key),
        ) by {
            lemma_slot_of(self.slots@, j);
            let s = slot_of(self.slots@, j);
            self.lemma_rank(s);
            let h = self.slots@[s].heap_index as int;
            assert(self.min_heap@[h] == s);
            lemma_root_least(self.ranks(), h);
        }
        lemma_least_unique(self@, key);
        lemma_map_len(self.slots@);
    }

    /// At most `capacity` keys, no error above its count, and all numbers fit
    /// into 64 bits.
    pub proof fn law_tracked_keys_are_bounded(&self)
        requires
            self.wf(),
        ensures
            self@.bounded(),
            self@.fits(),
            self@.capacity <= usize::MAX,
    {
        lemma_map_len(self.slots@);
        assert forall|k: Seq<u8>| #[trigger] self@.entries.contains_key(k) implies 0
            <= self@.entries[k].error <= self@.entries[k].count <= u64::MAX by {
            lemma_slot_of(self.slots@, k);
            lemma_slot(self.slots@, slot_of(self.slots@, k));
        }
    }

    pub fn new(capacity: usize, hash: HashSpec) -> (r: Result<Self, SketchError>)
        ensures
            r is Ok <==> capacity > 0,
            r matches Ok(s) ==> s.wf() && s@ == Summary::empty(capacity as int, hash),
            r matches Err(e) ==> e@ == SketchErrorView::InvalidParam(
                "spacesaving capacity must be positive"@,
            ),
    {
        broadcast use group_hash_axioms;

        if capacity == 0 {
            return Err(SketchError::InvalidParam("spacesaving capacity must be positive".to_owned()));
        }
        let s = SpaceSaving {
            capacity,
            hash,
            slots: Vec::new(),
            key_index: HashMap::new(),
            min_heap: Vec::new(),
            total_weight: 0,
            updates: 0,
        };
        assert(s@.entries =~= Map::empty());
        Ok(s)
    }

    pub fn capacity(&self) -> (r: usize)
        ensures
            r == self@.capacity,
    {
        self.capacity
    }

    pub fn total_weight(&self) -> (r: u64)
        ensures
            r == self@.total,
    {
        self.total_weight
    }

    /// Number of tracked keys.
    pub fn len(&self) -> (r: usize)
        requires
            self.wf(),
        ensures
            r == self@.entries.dom().len(),
    {
        proof {
            lemma_map_len(self.slots@);
        }
        self.slots.len()
    }

    pub fn is_empty(&self) -> (r: bool)
        requires
            self.wf(),
        ensures
            r == (self@.entries.dom().len() == 0),
    {
        proof {
            lemma_map_len(self.slots@);
        }
        self.slots.len() == 0
    }

    fn minimum_count(&self) -> (r: u64)
        requires
            self.consistent(),
        ensures
            r == self@.minimum_count(),
    {
        if self.min_heap.len() == 0 {
            proof {
                lemma_map_len(self.slots@);
            }
            return 0;
        }
        proof {
            self.lemma_root();
        }
        let root: usize = self.min_heap[0];
        self.slots[root].entry.count
    }

    fn insert_entry_with_digest(&mut self, key: Vec<u8>, digest: u64, count: u64, error: u64)
        requires
            old(self).consistent(),
            old(self).slots@.len() < old(self).capacity,
            !holds_key(old(self).slots@, key@),
            digest == key_digest(old(self).hash.seed, key@),
            error <= count,
        ensures
            final(self).consistent(),
            final(self)@ == (Summary {
                entries: old(self)@.entries.insert(
                    key@,
                    Tally { count: count as int, error: error as int },
                ),
                ..old(self)@
            }),
            final(self).slots@.len() == old(self).slots@.len() + 1,
    {
        let ghost before = *self;
        let slot_index: usize = self.slots.len();
        let heap_index: usize = self.min_heap.len();
        let slot = Slot { key, digest, entry: Entry { count, error }, heap_index };
        let ghost added = slot;
        self.slots.push(slot);
        proof {
            let mid = *self;
            assert forall|d: u64, p: int|
                mid.key_index@.contains_key(d) && 0 <= p < mid.key_index@[d].slots().len() implies
                #[trigger] listed_ok(mid.key_index@, mid.slots@, slot_index as int, d, p) by {
                assert(listed_ok(before.key_index@, before.slots@, -1, d, p));
            }
            assert forall|s: int| 0 <= s < mid.slots@.len() && s != slot_index implies
                #[trigger] lists(mid.key_index@, mid.slots@, s) by {
                assert(lists(before.key_index@, before.slots@, s));
            }
            assert forall|d: u64| mid.key_index@.contains_key(d) implies #[trigger] bucket_ok(mid.key_index@, 
                d,
            ) by {
                assert(bucket_ok(before.key_index@, d));
            }
        }
        self.add_to_index(digest, slot_index);
        self.min_heap.push(slot_index);
        let ghost mid = *self;
        proof {
            lemma_map_push(before.slots@, added);
            assert forall|h: int| 0 <= h < mid.min_heap@.len() implies (#[trigger] mid.min_heap@[h])
                < mid.slots@.len() && mid.slots@[mid.min_heap@[h] as int].heap_index == h by {
                if h < before.min_heap@.len() {
                    assert(before.min_heap@[h] < before.slots@.len());
                }
            }
            assert forall|s: int| 0 <= s < mid.slots@.len() implies (#[trigger] mid.slots@[s]).heap_index
                < mid.min_heap@.len() && mid.min_heap@[mid.slots@[s].heap_index as int] == s by {
                if s < before.slots@.len() {
                    assert(before.slots@[s].heap_index < before.min_heap@.len());
                }
            }
            assert(mid.linked());
            assert forall|h: int| 0 <= h < before.min_heap@.len() implies #[trigger] mid.ranks()[h]
                == before.ranks()[h] by {
                assert(before.min_heap@[h] < before.slots@.len());
            }
            assert forall|i: int| 0 < i < mid.ranks().len() && i != heap_index implies
                #[trigger] crate::algos::heap::settled(mid.ranks(), i) by {
                assert(crate::algos::heap::settled(before.ranks(), i));
                assert(mid.ranks()[i] == before.ranks()[i]);
                assert(mid.ranks()[parent(i)] == before.ranks()[parent(i)]);
            }
            assert(open_above(mid.ranks(), heap_index as int));
            assert forall|s: int| 0 <= s < mid.slots@.len() implies (#[trigger] mid.slots@[s]).digest
                == key_digest(mid.hash.seed, mid.slots@[s].key@) by {
                if s < before.slots@.len() {
                    assert(before.slots@[s].digest == key_digest(
                        before.hash.seed,
                        before.slots@[s].key@,
                    ));
                }
            }
            assert forall|s: int| 0 <= s < mid.slots@.len() implies (
            #[trigger] mid.slots@[s]).entry.error <= mid.slots@[s].entry.count by {
                if s < before.slots@.len() {
                    assert(before.slots@[s].entry.error <= before.slots@[s].entry.count);
                }
            }
        }
        self.sift_up(heap_index);
        proof {
            self.lemma_carried(mid);
        }
    }

    fn insert_entry(&mut self, key: Vec<u8>, count: u64, error: u64)
        requires
            old(self).consistent(),
            old(self).slots@.len() < old(self).capacity,
            !holds_key(old(self).slots@, key@),
            error <= count,
        ensures
            final(self).consistent(),
            final(self)@ == (Summary {
                entries: old(self)@.entries.insert(
                    key@,
                    Tally { count: count as int, error: error as int },
                ),
                ..old(self)@
            }),
            final(self).slots@.len() == old(self).slots@.len() + 1,
    {
        let digest: u64 = self.key_digest(key.as_slice());
        self.insert_entry_with_digest(key, digest, count, error);
    }

    /// Put a new key in place of the least one, which is handed back.
    fn replace_min(&mut self, key: Vec<u8>, digest: u64, count: u64, error: u64) -> (r: Vec<u8>)
        requires
            old(self).consistent(),
            old(self).slots@.len() > 0,
            !holds_key(old(self).slots@, key@),
            digest == key_digest(old(self).hash.seed, key@),
            error <= count,
        ensures
            final(self).consistent(),
            r@ == old(self)@.least(),
            final(self)@ == (Summary {
                entries: old(self)@.entries.remove(old(self)@.least()).insert(
                    key@,
                    Tally { count: count as int, error: error as int },
                ),
                ..old(self)@
            }),
    {
        let ghost before = *self;
        let slot_index: usize = self.min_heap[0];
        proof {
            self.lemma_root();
            assert(before.min_heap@[0] < before.slots@.len());
            assert(before.slots@[slot_index as int].heap_index == 0);
        }
        let old_digest: u64 = self.slots[slot_index].digest;
        self.remove_from_index(old_digest, slot_index);
        let ghost unlisted = *self;
        let mut old_key = key;
        core::mem::swap(&mut self.slots[slot_index].key, &mut old_key);
        self.slots[slot_index].digest = digest;
        self.slots[slot_index].entry = Entry { count, error };
        let ghost changed = *self;
        let ghost slot = changed.slots@[slot_index as int];
        proof {
            assert(changed.slots@ =~= before.slots@.update(slot_index as int, slot));
            assert forall|d: u64, p: int|
                changed.key_index@.contains_key(d) && 0 <= p < changed.key_index@[d].slots().len()
                implies #[trigger] listed_ok(changed.key_index@, changed.slots@, slot_index as int, d, p) by {
                assert(listed_ok(unlisted.key_index@, unlisted.slots@, slot_index as int, d, p));
            }
            assert forall|s: int| 0 <= s < changed.slots@.len() && s != slot_index implies
                #[trigger] lists(changed.key_index@, changed.slots@, s) by {
                assert(lists(unlisted.key_index@, unlisted.slots@, s));
            }
            assert forall|d: u64| changed.key_index@.contains_key(d) implies
                #[trigger] bucket_ok(changed.key_index@, d) by {
                assert(bucket_ok(unlisted.key_index@, d));
            }
        }
        self.add_to_index(digest, slot_index);
        let ghost mid = *self;
        proof {
            lemma_map_replace(before.slots@, slot_index as int, slot);
            assert forall|h: int| 0 <= h < mid.min_heap@.len() implies (#[trigger] mid.min_heap@[h])
                < mid.slots@.len() && mid.slots@[mid.min_heap@[h] as int].heap_index == h by {
                assert(before.min_heap@[h] < before.slots@.len());
            }
            assert forall|s: int| 0 <= s < mid.slots@.len() implies (#[trigger] mid.slots@[s]).heap_index
                < mid.min_heap@.len() && mid.min_heap@[mid.slots@[s].heap_index as int] == s by {
                assert(before.slots@[s].heap_index < before.min_heap@.len());
            }
            assert forall|h: int| 0 < h < before.min_heap@.len() implies #[trigger] mid.ranks()[h]
                == before.ranks()[h] by {
                assert(before.min_heap@[h] < before.slots@.len());
                assert(before.slots@[before.min_heap@[h] as int].heap_index == h);
            }
            assert forall|i: int| 0 < i < mid.ranks().len() && parent(i) != 0 implies
                #[trigger] crate::algos::heap::settled(mid.ranks(), i) by {
                assert(crate::algos::heap::settled(before.ranks(), i));
                assert(mid.ranks()[i] == before.ranks()[i]);
                assert(mid.ranks()[parent(i)] == before.ranks()[parent(i)]);
            }
            assert(open_below(mid.ranks(), 0));
            assert forall|s: int| 0 <= s < mid.slots@.len() implies (#[trigger] mid.slots@[s]).digest
                == key_digest(mid.hash.seed, mid.slots@[s].key@) by {
                assert(before.slots@[s].digest == key_digest(
                    before.hash.seed,
                    before.slots@[s].key@,
                ));
            }
            assert forall|s: int| 0 <= s < mid.slots@.len() implies (
            #[trigger] mid.slots@[s]).entry.error <= mid.slots@[s].entry.count by {
                assert(before.slots@[s].entry.error <= before.slots@[s].entry.count);
            }
        }
        self.sift_down(0);
        proof {
            self.lemma_carried(mid);
        }
        old_key
    }

    /// Add weight to a tracked key.
    fn raise(&mut self, slot_index: usize, weight: u64)
        requires
            old(self).consistent(),
            slot_index < old(self).slots@.len(),
            old(self).slots@[slot_index as int].entry.count + weight <= u64::MAX,
        ensures
            final(self).consistent(),
            final(self)@ == (Summary {
                entries: old(self)@.entries.insert(
                    old(self).slots@[slot_index as int].key@,
                    Tally {
                        count: old(self).slots@[slot_index as int].entry.count + weight,
                        error: old(self).slots@[slot_index as int].entry.error as int,
                    },
                ),
                ..old(self)@
            }),
    {
        let ghost before = *self;
        let count: u64 = self.slots[slot_index].entry.count + weight;
        self.slots[slot_index].entry.count = count;
        let heap_index: usize = self.slots[slot_index].heap_index;
        let ghost mid = *self;
        let ghost slot = mid.slots@[slot_index as int];
        proof {
            let at = heap_index as int;
            assert(mid.slots@ =~= before.slots@.update(slot_index as int, slot));
            assert(before.slots@[slot_index as int].heap_index == at);
            assert(before.min_heap@[at] == slot_index);
            lemma_map_replace(before.slots@, slot_index as int, slot);
            lemma_slot(before.slots@, slot_index as int);
            assert(mid@.entries =~= before@.entries.insert(slot.key@, slot.entry@));
            assert forall|h: int| 0 <= h < mid.min_heap@.len() implies (#[trigger] mid.min_heap@[h])
                < mid.slots@.len() && mid.slots@[mid.min_heap@[h] as int].heap_index == h by {
                assert(before.min_heap@[h] < before.slots@.len());
            }
            assert forall|s: int| 0 <= s < mid.slots@.len() implies (#[trigger] mid.slots@[s]).heap_index
                < mid.min_heap@.len() && mid.min_heap@[mid.slots@[s].heap_index as int] == s by {
                assert(before.slots@[s].heap_index < before.min_heap@.len());
            }
            let old_ranks = before.ranks();
            let new_ranks = mid.ranks();
            assert forall|h: int| 0 <= h < before.min_heap@.len() && h != at implies
                #[trigger] new_ranks[h] == old_ranks[h] by {
                assert(before.min_heap@[h] < before.slots@.len());
                assert(before.slots@[before.min_heap@[h] as int].heap_index == h);
            }
            assert forall|i: int| 0 < i < new_ranks.len() && parent(i) != at implies
                #[trigger] crate::algos::heap::settled(new_ranks, i) by {
                assert(crate::algos::heap::settled(old_ranks, i));
                assert(new_ranks[parent(i)] == old_ranks[parent(i)]);
            }
            assert forall|i: int|
                0 < i < new_ranks.len() && at > 0 && parent(i) == at implies !lower(
                #[trigger] new_ranks[i],
                new_ranks[parent(at)],
            ) by {
                assert(crate::algos::heap::settled(old_ranks, i));
                assert(crate::algos::heap::settled(old_ranks, at));
                crate::algos::heap::lemma_not_lower_transitive(
                    old_ranks[i],
                    old_ranks[at],
                    old_ranks[parent(at)],
                );
                assert(new_ranks[parent(at)] == old_ranks[parent(at)]);
            }
            assert(open_below(new_ranks, at));
            assert forall|d: u64, p: int|
                mid.key_index@.contains_key(d) && 0 <= p < mid.key_index@[d].slots().len() implies
                #[trigger] listed_ok(mid.key_index@, mid.slots@, -1, d, p) by {
                assert(listed_ok(before.key_index@, before.slots@, -1, d, p));
            }
            assert forall|s: int| 0 <= s < mid.slots@.len() implies #[trigger] lists(mid.key_index@, mid.slots@, s) by {
                assert(lists(before.key_index@, before.slots@, s));
            }
            assert forall|d: u64| mid.key_index@.contains_key(d) implies #[trigger] bucket_ok(mid.key_index@, 
                d,
            ) by {
                assert(bucket_ok(before.key_index@, d));
            }
            assert forall|s: int| 0 <= s < mid.slots@.len() implies (#[trigger] mid.slots@[s]).digest
                == key_digest(mid.hash.seed, mid.slots@[s].key@) by {
                assert(before.slots@[s].digest == key_digest(
                    before.hash.seed,
                    before.slots@[s].key@,
                ));
            }
            assert forall|s: int| 0 <= s < mid.slots@.len() implies (
            #[trigger] mid.slots@[s]).entry.error <= mid.slots@[s].entry.count by {
                assert(before.slots@[s].entry.error <= before.slots@[s].entry.count);
            }
        }
        // Counts only increase, so the node can move down but never up.
        self.sift_down(heap_index);
        proof {
            self.lemma_carried(mid);
        }
    }

    /// Add `weight` for `key`.
    pub fn add(&mut self, key: &[u8], weight: u64)
        requires
            old(self).wf(),
            old(self)@.added(key@, weight as int).fits(),
        ensures
            final(self).wf(),
            final(self)@ == old(self)@.added(key@, weight as int),
    {
        let ghost start = self@;
        let ghost goal = start.added(key@, weight as int);
        assert(goal.total == start.total + weight && goal.updates == start.updates + 1);
        assert(goal.entries.contains_key(key@));
        self.total_weight = self.total_weight + weight;
        self.updates = self.updates + 1;
        let digest: u64 = self.key_digest(key);
        proof {
            lemma_map_len(self.slots@);
        }
        if let Some(slot_index) = self.find_slot_with_digest(key, digest) {
            proof {
                lemma_slot(self.slots@, slot_index as int);
            }
            self.raise(slot_index, weight);
            assert(self@ =~= goal);
            return;
        }
        if self.slots.len() < self.capacity {
            self.insert_entry_with_digest(copy_bytes(key), digest, weight, 0);
            assert(self@ =~= goal);
            return;
        }
        // Evict the current minimum and inherit its count as error.
        let minimum: u64 = self.minimum_count();
        let ghost mid = self@;
        assert(mid.least() == start.least() && mid.minimum_count() == start.minimum_count()) by {
            self.lemma_root();
            assert(start.is_least(mid.least()));
            lemma_least_unique(start, mid.least());
        }
        self.replace_min(copy_bytes(key), digest, minimum + weight, minimum);
        assert(self@ =~= goal);
    }
}

impl SpaceSaving {
    /// Add using a caller-owned key buffer. If the key is new, its bytes are
    /// moved into the summary instead of copied. Either way `key` is left
    /// empty, for the caller to reuse.
    pub fn add_key_buf(&mut self, key: &mut Vec<u8>, weight: u64)
        requires
            old(self).wf(),
            old(self)@.added(old(key)@, weight as int).fits(),
        ensures
            final(self).wf(),
            final(self)@ == old(self)@.added(old(key)@, weight as int),
            final(key)@ == Seq::<u8>::empty(),
    {
        let ghost start = self@;
        let ghost name = key@;
        let ghost goal = start.added(name, weight as int);
        assert(goal.total == start.total + weight && goal.updates == start.updates + 1);
        assert(goal.entries.contains_key(name));
        self.total_weight = self.total_weight + weight;
        self.updates = self.updates + 1;
        let digest: u64 = self.key_digest(key.as_slice());
        proof {
            lemma_map_len(self.slots@);
        }
        if let Some(slot_index) = self.find_slot_with_digest(key.as_slice(), digest) {
            proof {
                lemma_slot(self.slots@, slot_index as int);
            }
            self.raise(slot_index, weight);
            key.clear();
            assert(self@ =~= goal);
            return;
        }
        let mut owned_key: Vec<u8> = Vec::with_capacity(allocated(key));
        core::mem::swap(&mut owned_key, key);
        if self.slots.len() < self.capacity {
            self.insert_entry_with_digest(owned_key, digest, weight, 0);
            assert(self@ =~= goal);
            return;
        }
        // Evict the current minimum, inherit its count as error, and reuse
        // the evicted key's allocation.
        let minimum: u64 = self.minimum_count();
        let ghost mid = self@;
        assert(mid.least() == start.least() && mid.minimum_count() == start.minimum_count()) by {
            self.lemma_root();
            assert(start.is_least(mid.least()));
            lemma_least_unique(start, mid.least());
        }
        let mut scratch = self.replace_min(owned_key, digest, minimum + weight, minimum);
        scratch.clear();
        *key = scratch;
        assert(self@ =~= goal);
    }
}

impl Sketch for SpaceSaving {
    closed spec fn wf(&self) -> bool {
        self.consistent()
    }

    open spec fn compat(&self) -> Compat {
        self@.compat()
    }

    open spec fn update_fits(&self, key: Seq<u8>, value: u64) -> bool {
        self@.added(key, value as int).fits()
    }

    open spec fn is_updated(&self, key: Seq<u8>, value: u64, after: &Self) -> bool {
        after@ == self@.added(key, value as int)
    }

    open spec fn merge_fits(&self, other: &Self) -> bool {
        self@.merge_fits(other@)
    }

    open spec fn is_merged(&self, other: &Self, after: &Self) -> bool {
        after@ == self@.merged(other@)
    }

    open spec fn is_cleared(&self, after: &Self) -> bool {
        after@ == Summary::empty(self@.capacity, self@.hash)
    }

    open spec fn updates(&self) -> u64 {
        self@.updates as u64
    }

    open spec fn memory_fits(&self) -> bool {
        true
    }

    open spec fn is_memory(&self, bytes: usize) -> bool {
        SpaceSaving::is_memory_of(self@, bytes)
    }

    fn update(&mut self, key: &[u8], value: u64) {
        self.add(key, value);
    }

    fn merge_from(&mut self, other: &Self) -> (r: Result<(), SketchError>) {
        self.compatibility().ensure_matches(&other.compatibility())?;
        let ghost start = self@;
        let ghost union = start.combined(other@);
        let rows = self.combined_rows(other);
        // Trim back to capacity, keeping the largest counts.
        let kept = ranked_rows(&rows, self.capacity, Ghost(union));
        self.reset_entries();
        let ghost order = listing(union.dom(), ranking_order(union));
        let n: usize = kept.len();
        let mut i: usize = 0;
        proof {
            assert(self@.entries =~= union.restrict(order.take(0).to_set()));
            lemma_ranking_order(union);
            lemma_listing_len(order, union.dom(), ranking_order(union));
        }
        while i < n
            invariant
                self.consistent(),
                is_listing(order, union.dom(), ranking_order(union)),
                order.no_duplicates(),
                n == kept.len(),
                n <= order.len(),
                n <= start.capacity,
                i <= n,
                forall|j: int|
                    0 <= j < n ==> (#[trigger] kept@[j]).0@ == order[j] && kept@[j].1@
                        == union[order[j]],
                forall|k: Seq<u8>| #[trigger]
                    union.contains_key(k) ==> union[k].error <= union[k].count,
                self.slots@.len() == i,
                self@ == (Summary {
                    entries: union.restrict(order.take(i as int).to_set()),
                    ..start
                }),
            decreases n - i,
        {
            let ghost front = order.take(i as int).to_set();
            proof {
                assert(kept@[i as int].0@ == order[i as int]);
                assert(order.contains(order[i as int]));
                assert(union.dom().contains(order[i as int]));
                assert(!front.contains(order[i as int])) by {
                    if front.contains(order[i as int]) {
                        let q = choose|q: int|
                            0 <= q < i && order.take(i as int)[q] == order[i as int];
                        assert(order[q] == order[i as int]);
                    }
                }
                if holds_key(self.slots@, order[i as int]) {
                    assert(slots_map(self.slots@).contains_key(order[i as int]));
                }
            }
            let entry: Entry = kept[i].1;
            let key = copy_bytes(kept[i].0.as_slice());
            self.insert_entry(key, entry.count, entry.error);
            proof {
                lemma_take_step(order, i as int);
                assert(self@.entries =~= union.restrict(order.take(i + 1).to_set()));
            }
            i += 1;
        }
        self.total_weight = self.total_weight + other.total_weight;
        self.updates = self.updates + other.updates;
        proof {
            lemma_leaders(union, order, start.capacity);
            assert(self@ =~= start.merged(other@));
        }
        Ok(())
    }

    fn memory_bytes(&self) -> (r: usize) {
        let rooms = self.rooms();
        Self::held_bytes(&rooms)
    }

    fn reset(&mut self) {
        broadcast use group_hash_axioms;

        self.slots.clear();
        self.key_index.clear();
        self.min_heap.clear();
        self.total_weight = 0;
        self.updates = 0;
        assert(self@.entries =~= Map::empty());
    }

    fn update_count(&self) -> (r: u64) {
        self.updates
    }

    fn compatibility(&self) -> (r: SketchCompatibility) {
        SketchCompatibility {
            algorithm: ALGORITHM.to_owned(),
            version: 1,
            hash: self.hash,
            params_hash: self.params_hash(),
        }
    }
}

proof fn lemma_take_step(order: Seq<Seq<u8>>, i: int)
    requires
        0 <= i < order.len(),
    ensures
        order.take(i + 1).to_set() == order.take(i).to_set().insert(order[i]),
{
    let a = order.take(i + 1);
    let b = order.take(i);
    assert forall|k: Seq<u8>| a.to_set().contains(k) <==> b.to_set().insert(order[i]).contains(k) by {
        if a.contains(k) {
            let q = choose|q: int| 0 <= q < a.len() && a[q] == k;
            if q < i {
                assert(b[q] == k);
            }
        }
        if b.contains(k) {
            let q = choose|q: int| 0 <= q < b.len() && b[q] == k;
            assert(a[q] == k);
        }
        if k == order[i] {
            assert(a[i] == k);
        }
    }
    assert(a.to_set() =~= b.to_set().insert(order[i]));
}

// ---------------------------------------------------------------------------
// Memory
// ---------------------------------------------------------------------------

/// The rooms of a summary's vectors and of its index.
pub struct SummaryRooms {
    /// Slots.
    pub slots: usize,
    /// Bytes of each key.
    pub keys: Vec<usize>,
    /// Digests.
    pub index: usize,
    /// Slots of each digest that several keys share.
    pub shared: Vec<usize>,
    /// Nodes of the heap.
    pub heap: usize,
}

/// The digests of the tracked keys.
pub open spec fn digests(s: Summary) -> Set<u64> {
    s.entries.dom().map(|k: Seq<u8>| key_digest(s.hash.seed, k))
}

/// The tracked keys with digest `d`.
pub open spec fn sharing(s: Summary, d: u64) -> Set<Seq<u8>> {
    s.entries.dom().filter(|k: Seq<u8>| key_digest(s.hash.seed, k) == d)
}

impl SpaceSaving {
    /// The bytes of a slot.
    pub closed spec fn slot_size() -> nat {
        size_of::<Slot>()
    }

    /// The bytes of what the index holds under a digest.
    pub closed spec fn bucket_size() -> nat {
        size_of::<IndexBucket>()
    }

    /// A summary can have these rooms. The keys are listed in `order`, the
    /// digests that several keys share in `shared`.
    pub open spec fn has_rooms(
        s: Summary,
        rooms: SummaryRooms,
        order: Seq<Seq<u8>>,
        shared: Seq<u64>,
    ) -> bool {
        let word = size_of::<usize>();
        &&& order.no_duplicates()
        &&& order.to_set() == s.entries.dom()
        &&& is_room(rooms.slots, order.len(), SpaceSaving::slot_size())
        &&& rooms.keys@.len() == order.len()
        &&& forall|i: int|
            0 <= i < order.len() ==> is_room(#[trigger] rooms.keys@[i], order[i].len(), 1)
        &&& rooms.index >= digests(s).len()
        &&& rooms.index * (8 + SpaceSaving::bucket_size()) <= usize::MAX
        &&& shared.no_duplicates()
        &&& forall|d: u64| #[trigger] shared.contains(d) <==> sharing(s, d).len() > 1
        &&& rooms.shared@.len() == shared.len()
        &&& forall|i: int|
            0 <= i < shared.len() ==> is_room(
                #[trigger] rooms.shared@[i],
                sharing(s, shared[i]).len(),
                word,
            )
        &&& is_room(rooms.heap, order.len(), word)
    }

    /// The bytes of a summary with these rooms: its own, slots, keys, index
    /// with a control byte for each digest, and heap.
    pub open spec fn bytes_of(rooms: SummaryRooms) -> int {
        let word = size_of::<usize>();
        size_of::<SpaceSaving>() + rooms.slots * SpaceSaving::slot_size() + rooms_bytes(
            rooms.keys@,
            1,
            0,
        ) + rooms.index * (8 + SpaceSaving::bucket_size() + 1) + rooms_bytes(
            rooms.shared@,
            word,
            0,
        ) + rooms.heap * word
    }

    /// The bytes that a summary in this state can hold. The rooms are up to
    /// the allocator. More than a word can count is reported as the largest
    /// word.
    pub open spec fn is_memory_of(s: Summary, bytes: usize) -> bool {
        exists|rooms: SummaryRooms, order: Seq<Seq<u8>>, shared: Seq<u64>| #[trigger]
            SpaceSaving::has_rooms(s, rooms, order, shared) && bytes == capped(
                SpaceSaving::bytes_of(rooms),
            )
    }

    /// The bytes of a summary with these rooms.
    pub fn held_bytes(rooms: &SummaryRooms) -> (r: usize)
        ensures
            r == capped(SpaceSaving::bytes_of(*rooms)),
    {
        let word: usize = core::mem::size_of::<usize>();
        let slot: usize = core::mem::size_of::<Slot>();
        let bucket: usize = core::mem::size_of::<IndexBucket>();
        layout_for_type_is_valid::<IndexBucket>();
        let slots: usize = times(rooms.slots, slot);
        let index: usize = times(rooms.index, 8 + bucket + 1);
        let heap: usize = times(rooms.heap, word);
        proof {
            lemma_products(rooms.slots, slot);
            lemma_products(rooms.index, (9 + bucket) as usize);
            lemma_products(rooms.heap, word);
        }
        let keys: usize = sum_rooms(&rooms.keys, 1, 0);
        let shared: usize = sum_rooms(&rooms.shared, word, 0);
        let fixed: usize = core::mem::size_of::<Self>();
        plus(plus(plus(plus(plus(fixed, slots), keys), index), shared), heap)
    }

    /// The room of each key.
    fn key_rooms(&self) -> (r: Vec<usize>)
        ensures
            r@.len() == self.slots@.len(),
            forall|i: int|
                0 <= i < r@.len() ==> is_room(#[trigger] r@[i], self.slots@[i].key@.len(), 1),
    {
        broadcast use layout_of_primitives;

        let mut rooms: Vec<usize> = Vec::new();
        while rooms.len() < self.slots.len()
            invariant
                rooms@.len() <= self.slots@.len(),
                forall|i: int|
                    0 <= i < rooms@.len() ==> is_room(
                        #[trigger] rooms@[i],
                        self.slots@[i].key@.len(),
                        1,
                    ),
            decreases self.slots@.len() - rooms@.len(),
        {
            let room: usize = allocated(&self.slots[rooms.len()].key);
            rooms.push(room);
        }
        rooms
    }

    /// The digests under which the index holds several slots, and the room
    /// for those.
    fn shared_rooms(&self) -> (r: (Vec<u64>, Vec<usize>))
        ensures
            r.0@.no_duplicates(),
            r.0@.len() == r.1@.len(),
            forall|d: u64| #[trigger]
                r.0@.contains(d) <==> self.key_index@.contains_key(d) && self.key_index@[d] is Many,
            forall|i: int|
                0 <= i < r.1@.len() ==> is_room(
                    #[trigger] r.1@[i],
                    self.key_index@[r.0@[i]].slots().len(),
                    size_of::<usize>(),
                ),
    {
        broadcast use group_hash_axioms;

        let mut found: Vec<u64> = Vec::new();
        let mut rooms: Vec<usize> = Vec::new();
        let ghost index = self.key_index@;
        let ghost mut passed: Seq<u64> = Seq::empty();
        for digest in it: self.key_index.keys()
            invariant
                index == self.key_index@,
                it.seq().unref().to_set() == index.dom(),
                it.seq().no_duplicates(),
                passed == it.seq().unref().take(it.index()),
                it.index() == it.seq().len() ==> passed.to_set() == index.dom(),
                found@.no_duplicates(),
                found@.len() == rooms@.len(),
                forall|d: u64| #[trigger]
                    found@.contains(d) <==> passed.contains(d) && index[d] is Many,
                forall|i: int|
                    0 <= i < rooms@.len() ==> is_room(
                        #[trigger] rooms@[i],
                        index[found@[i]].slots().len(),
                        size_of::<usize>(),
                    ),
        {
            let ghost all = it.seq().unref();
            let ghost before = found@;
            proof {
                assert(all[it.index()] == *digest);
                assert(all.contains(*digest));
                assert(all.to_set().contains(*digest));
                assert(!passed.contains(*digest)) by {
                    if passed.contains(*digest) {
                        let j = choose|j: int| 0 <= j < passed.len() && passed[j] == *digest;
                        assert(it.seq()[j] == it.seq()[it.index()]);
                    }
                }
            }
            if let Some(IndexBucket::Many(indices)) = self.bucket(*digest) {
                let room: usize = allocated(indices);
                found.push(*digest);
                rooms.push(room);
            }
            proof {
                lemma_push_contains(passed, *digest);
                lemma_push_contains(before, *digest);
                if index[*digest] is Many {
                    assert(found@ == before.push(*digest));
                }
                passed = passed.push(*digest);
                assert(passed =~= all.take(it.index() + 1));
                assert(it.index() + 1 == all.len() ==> passed =~= all);
            }
        }
        proof {
            assert forall|d: u64| index.contains_key(d) <==> passed.contains(d) by {
                assert(index.dom().contains(d) <==> passed.to_set().contains(d));
            }
        }
        (found, rooms)
    }

    /// The rooms that the allocator gave.
    fn rooms(&self) -> (r: SummaryRooms)
        requires
            self.consistent(),
        ensures
            exists|order: Seq<Seq<u8>>, shared: Seq<u64>| #[trigger]
                SpaceSaving::has_rooms(self@, r, order, shared),
    {
        let keys = self.key_rooms();
        let (found, shared) = self.shared_rooms();
        let rooms = SummaryRooms {
            slots: allocated(&self.slots),
            keys,
            index: allocated_map(&self.key_index),
            shared,
            heap: allocated(&self.min_heap),
        };
        proof {
            let order = self.slots@.map_values(|s: Slot| s.key@);
            lemma_map_len(self.slots@);
            assert(order.no_duplicates()) by {
                assert forall|i: int, j: int|
                    0 <= i < order.len() && 0 <= j < order.len() && i != j implies order[i]
                    != order[j] by {
                    assert(self.slots@[i].key@ != self.slots@[j].key@);
                }
            }
            assert(order.to_set() =~= self@.entries.dom()) by {
                assert forall|k: Seq<u8>| order.contains(k) <==> holds_key(self.slots@, k) by {
                    if holds_key(self.slots@, k) {
                        assert(order[slot_of(self.slots@, k)] == k);
                    }
                    if order.contains(k) {
                        let i = choose|i: int| 0 <= i < order.len() && order[i] == k;
                        assert(self.slots@[i].key@ == k);
                    }
                }
            }
            self.lemma_digests();
            assert forall|d: u64| #[trigger] found@.contains(d) <==> sharing(self@, d).len() > 1 by {
                self.lemma_sharing(d);
            }
            assert forall|i: int| 0 <= i < found@.len() implies is_room(
                #[trigger] rooms.shared@[i],
                sharing(self@, found@[i]).len(),
                size_of::<usize>(),
            ) by {
                assert(found@.contains(found@[i]));
                self.lemma_sharing(found@[i]);
            }
            assert(SpaceSaving::has_rooms(self@, rooms, order, found@));
        }
        rooms
    }

    /// The index has an entry for every digest.
    proof fn lemma_digests(&self)
        requires
            self.consistent(),
        ensures
            digests(self@) == self.key_index@.dom(),
    {
        assert forall|d: u64| digests(self@).contains(d) <==> self.key_index@.contains_key(d) by {
            if self.key_index@.contains_key(d) {
                assert(bucket_ok(self.key_index@, d));
                assert(listed_ok(self.key_index@, self.slots@, -1, d, 0));
                let s = self.key_index@[d].slots()[0] as int;
                lemma_slot(self.slots@, s);
                assert(self.slots@[s].digest == key_digest(self.hash.seed, self.slots@[s].key@));
                assert(self@.entries.dom().contains(self.slots@[s].key@));
            }
            if digests(self@).contains(d) {
                let k = choose|k: Seq<u8>|
                    self@.entries.dom().contains(k) && key_digest(self@.hash.seed, k) == d;
                let s = slot_of(self.slots@, k);
                lemma_slot_of(self.slots@, k);
                assert(self.slots@[s].digest == d);
                assert(lists(self.key_index@, self.slots@, s));
            }
        }
        assert(digests(self@) =~= self.key_index@.dom());
    }

    /// The index lists as many slots under a digest as keys share it.
    proof fn lemma_sharing(&self, d: u64)
        requires
            self.consistent(),
        ensures
            sharing(self@, d).len() == (if self.key_index@.contains_key(d) {
                self.key_index@[d].slots().len()
            } else {
                0
            }),
            self.key_index@.contains_key(d) ==> (self.key_index@[d] is Many
                <==> self.key_index@[d].slots().len() > 1),
    {
        lemma_map_len(self.slots@);
        let listed = if self.key_index@.contains_key(d) {
            self.key_index@[d].slots()
        } else {
            Seq::empty()
        };
        let keys = listed.map_values(|s: usize| self.slots@[s as int].key@);
        if self.key_index@.contains_key(d) {
            assert(bucket_ok(self.key_index@, d));
        }
        assert forall|p: int| 0 <= p < listed.len() implies (#[trigger] listed[p])
            < self.slots@.len() && self.slots@[listed[p] as int].digest == d by {
            assert(listed_ok(self.key_index@, self.slots@, -1, d, p));
        }
        assert forall|i: int, j: int|
            0 <= i < keys.len() && 0 <= j < keys.len() && i != j implies keys[i] != keys[j] by {
            assert(listed[i] != listed[j]);
            assert(self.slots@[listed[i] as int].key@ != self.slots@[listed[j] as int].key@);
        }
        keys.unique_seq_to_set();
        assert forall|k: Seq<u8>| keys.to_set().contains(k) <==> sharing(self@, d).contains(k) by {
            if keys.contains(k) {
                let p = choose|p: int| 0 <= p < keys.len() && keys[p] == k;
                lemma_slot(self.slots@, listed[p] as int);
                assert(self.slots@[listed[p] as int].digest == d);
            }
            if sharing(self@, d).contains(k) {
                let s = slot_of(self.slots@, k);
                lemma_slot_of(self.slots@, k);
                assert(self.slots@[s].digest == d);
                assert(lists(self.key_index@, self.slots@, s));
                let p = choose|p: int| 0 <= p < listed.len() && listed[p] == s;
                assert(keys[p] == k);
            }
        }
        assert(keys.to_set() =~= sharing(self@, d));
    }
}

proof fn lemma_push_contains(s: Seq<u64>, x: u64)
    ensures
        forall|d: u64| #[trigger] s.push(x).contains(d) <==> s.contains(d) || d == x,
        s.no_duplicates() && !s.contains(x) ==> s.push(x).no_duplicates(),
{
    let t = s.push(x);
    assert forall|d: u64| #[trigger] t.contains(d) <==> s.contains(d) || d == x by {
        if s.contains(d) {
            let j = choose|j: int| 0 <= j < s.len() && s[j] == d;
            assert(t[j] == d);
        }
        assert(t[s.len() as int] == x);
        if t.contains(d) {
            let j = choose|j: int| 0 <= j < t.len() && t[j] == d;
            if j < s.len() {
                assert(s[j] == d);
            }
        }
    }
}

proof fn lemma_products(a: usize, b: usize)
    ensures
        a * b >= 0,
{
    assert(a * b >= 0) by (nonlinear_arith)
        requires
            a >= 0,
            b >= 0,
    ;
}

// ---------------------------------------------------------------------------
// Rankings
// ---------------------------------------------------------------------------

/// `key` is that of one of the first `n` slots.
spec fn came_from(slots: Seq<Slot>, n: int, key: Seq<u8>) -> bool {
    exists|q: int| 0 <= q < n && (#[trigger] slots[q]).key@ == key
}

/// `rows` lists the content of `m`, each key once.
spec fn describes(rows: Seq<(Vec<u8>, Entry)>, m: Map<Seq<u8>, Tally>) -> bool {
    &&& forall|i: int|
        0 <= i < rows.len() ==> m.contains_key((#[trigger] rows[i]).0@) && m[rows[i].0@]
            == rows[i].1@
    &&& forall|k: Seq<u8>| #[trigger] m.contains_key(k) ==> row_with(rows, k)
    &&& forall|i: int, j: int|
        0 <= i < rows.len() && 0 <= j < rows.len() && i != j ==> (#[trigger] rows[i]).0@ != (
        #[trigger] rows[j]).0@
}

spec fn row_with(rows: Seq<(Vec<u8>, Entry)>, k: Seq<u8>) -> bool {
    exists|i: int| 0 <= i < rows.len() && (#[trigger] rows[i]).0@ == k
}

/// Rows by count, largest first, and then by key.
struct ByCount<'a> {
    rows: &'a Vec<(Vec<u8>, Entry)>,
}

impl<'a> Ranking for ByCount<'a> {
    closed spec fn size(&self) -> nat {
        self.rows@.len()
    }

    closed spec fn ahead(&self, i: int, j: int) -> bool {
        let a = self.rows@[i];
        let b = self.rows@[j];
        if a.1.count != b.1.count {
            a.1.count > b.1.count
        } else {
            bytes_before(a.0@, b.0@)
        }
    }

    closed spec fn ranking_wf(&self) -> bool {
        forall|i: int, j: int|
            0 <= i < self.rows@.len() && 0 <= j < self.rows@.len() && i != j ==> (
            #[trigger] self.rows@[i]).0@ != (#[trigger] self.rows@[j]).0@
    }

    proof fn strict(&self) {
        assert forall|i: int| 0 <= i < self.size() implies !#[trigger] self.ahead(i, i) by {
            lemma_bytes_irreflexive(self.rows@[i].0@);
        }
        assert forall|i: int, j: int|
            0 <= i < self.size() && 0 <= j < self.size() && i != j implies #[trigger] self.ahead(
            i,
            j,
        ) || self.ahead(j, i) by {
            lemma_bytes_total(self.rows@[i].0@, self.rows@[j].0@);
        }
        assert forall|i: int, j: int, k: int|
            0 <= i < self.size() && 0 <= j < self.size() && 0 <= k < self.size()
                && #[trigger] self.ahead(i, j) && #[trigger] self.ahead(j, k) implies self.ahead(
            i,
            k,
        ) by {
            if self.rows@[i].1.count == self.rows@[j].1.count && self.rows@[j].1.count
                == self.rows@[k].1.count {
                lemma_bytes_transitive(self.rows@[i].0@, self.rows@[j].0@, self.rows@[k].0@);
            }
        }
    }

    fn is_ahead(&self, i: usize, j: usize) -> (r: bool) {
        let a = &self.rows[i];
        let b = &self.rows[j];
        if a.1.count != b.1.count {
            a.1.count > b.1.count
        } else {
            bytes_less(a.0.as_slice(), b.0.as_slice())
        }
    }
}

/// The first `limit` rows of the ranking of `m`.
fn ranked_rows(
    rows: &Vec<(Vec<u8>, Entry)>,
    limit: usize,
    m: Ghost<Map<Seq<u8>, Tally>>,
) -> (r: Vec<(Vec<u8>, Entry)>)
    requires
        describes(rows@, m@),
    ensures
        is_listing(listing(m@.dom(), ranking_order(m@)), m@.dom(), ranking_order(m@)),
        is_top(r@, m@, limit as int),
{
    let by_count = ByCount { rows };
    let order = ranked(&by_count, rows.len());
    let ghost s = Seq::new(order@.len(), |i: int| rows@[order@[i] as int].0@);
    proof {
        lemma_ranking_order(m@);
        let lt = ranking_order(m@);
        assert forall|i: int, j: int| 0 <= i < j < s.len() implies lt(
            #[trigger] s[i],
            #[trigger] s[j],
        ) by {
            assert(by_count.ahead(order@[i] as int, order@[j] as int));
            assert(m@[rows@[order@[i] as int].0@] == rows@[order@[i] as int].1@);
            assert(m@[rows@[order@[j] as int].0@] == rows@[order@[j] as int].1@);
        }
        assert forall|k: Seq<u8>| #[trigger] m@.dom().contains(k) <==> s.contains(k) by {
            if m@.contains_key(k) {
                assert(row_with(rows@, k));
                let p = choose|p: int| 0 <= p < rows@.len() && (#[trigger] rows@[p]).0@ == k;
                assert(order@.contains(p as usize));
                let q = choose|q: int| 0 <= q < order@.len() && order@[q] == p as usize;
                assert(s[q] == k);
            }
            if s.contains(k) {
                let q = choose|q: int| 0 <= q < s.len() && s[q] == k;
                assert(order@[q] < rows@.len());
                assert(m@.contains_key(rows@[order@[q] as int].0@));
            }
        }
        assert(is_listing(s, m@.dom(), lt));
        lemma_listing(s, m@.dom(), lt);
    }
    let mut out: Vec<(Vec<u8>, Entry)> = Vec::new();
    let mut i: usize = 0;
    while i < limit && i < order.len()
        invariant
            describes(rows@, m@),
            lists_range(order@, 0, rows@.len() as int),
            s == Seq::new(order@.len(), |i: int| rows@[order@[i] as int].0@),
            i <= limit,
            i <= order.len(),
            out.len() == i,
            forall|j: int|
                0 <= j < i ==> (#[trigger] out@[j]).0@ == s[j] && out@[j].1@ == m@[s[j]],
        decreases order.len() - i,
    {
        let p: usize = order[i];
        assert(p < rows@.len());
        assert(m@[rows@[p as int].0@] == rows@[p as int].1@);
        out.push((copy_bytes(rows[p].0.as_slice()), rows[p].1));
        i += 1;
    }
    out
}

/// `r` is the front of the ranking of `m`: its `limit` first keys (all of
/// them, if there are fewer), with what is recorded of each.
pub open spec fn is_top(
    r: Seq<(Vec<u8>, Entry)>,
    m: Map<Seq<u8>, Tally>,
    limit: int,
) -> bool {
    let s = listing(m.dom(), ranking_order(m));
    &&& r.len() == if limit < s.len() { limit } else { s.len() as int }
    &&& forall|j: int|
        0 <= j < r.len() ==> (#[trigger] r[j]).0@ == s[j] && r[j].1@ == m[s[j]]
}

impl SpaceSaving {
    /// What is recorded of `key`, if it is tracked.
    pub fn get(&self, key: &[u8]) -> (r: Option<&Entry>)
        requires
            self.wf(),
        ensures
            r is Some <==> self@.entries.contains_key(key@),
            r matches Some(e) ==> e@ == self@.entries[key@],
    {
        match self.find_slot(key) {
            Some(index) => {
                proof {
                    lemma_slot(self.slots@, index as int);
                }
                Some(&self.slots[index].entry)
            },
            None => None,
        }
    }

    /// Tracked keys with their entries, in slot order.
    fn rows(&self) -> (r: Vec<(Vec<u8>, Entry)>)
        requires
            self.consistent(),
        ensures
            describes(r@, self@.entries),
            r.len() == self.slots@.len(),
    {
        let mut out: Vec<(Vec<u8>, Entry)> = Vec::new();
        let mut i: usize = 0;
        while i < self.slots.len()
            invariant
                i <= self.slots.len(),
                out.len() == i,
                forall|j: int|
                    0 <= j < i ==> (#[trigger] out@[j]).0@ == self.slots@[j].key@ && out@[j].1
                        == self.slots@[j].entry,
            decreases self.slots.len() - i,
        {
            out.push((copy_bytes(self.slots[i].key.as_slice()), self.slots[i].entry));
            i += 1;
        }
        proof {
            let m = self@.entries;
            assert forall|j: int| 0 <= j < out@.len() implies m.contains_key(
                (#[trigger] out@[j]).0@,
            ) && m[out@[j].0@] == out@[j].1@ by {
                lemma_slot(self.slots@, j);
            }
            assert forall|k: Seq<u8>| #[trigger] m.contains_key(k) implies row_with(out@, k) by {
                lemma_slot_of(self.slots@, k);
                assert(out@[slot_of(self.slots@, k)].0@ == k);
            }
            assert forall|i: int, j: int|
                0 <= i < out@.len() && 0 <= j < out@.len() && i != j implies (#[trigger] out@[i]).0@
                != (#[trigger] out@[j]).0@ by {
                assert(self.slots@[i].key@ != self.slots@[j].key@);
            }
        }
        out
    }

    /// Tracked keys by count, largest first, trimmed to `limit`.
    pub fn top_k(&self, limit: usize) -> (r: Vec<(Vec<u8>, Entry)>)
        requires
            self.wf(),
        ensures
            is_top(r@, self@.entries, limit as int),
    {
        let rows = self.rows();
        ranked_rows(&rows, limit, Ghost(self@.entries))
    }

    /// Forget all keys.
    fn reset_entries(&mut self)
        requires
            old(self).consistent(),
        ensures
            final(self).consistent(),
            final(self).slots@.len() == 0,
            final(self)@ == (Summary { entries: Map::empty(), ..old(self)@ }),
    {
        broadcast use group_hash_axioms;

        self.slots.clear();
        self.key_index.clear();
        self.min_heap.clear();
        assert(self@.entries =~= Map::empty());
    }

    /// What an absent key is charged in a merge.
    fn absent_charge(&self) -> (r: u64)
        requires
            self.consistent(),
        ensures
            r == self@.absent_charge(),
    {
        proof {
            lemma_map_len(self.slots@);
        }
        if self.slots.len() >= self.capacity {
            self.minimum_count()
        } else {
            0
        }
    }

    /// The union of what two summaries track.
    fn combined_rows(&self, other: &SpaceSaving) -> (r: Vec<(Vec<u8>, Entry)>)
        requires
            self.consistent(),
            other.consistent(),
            self@.merge_fits(other@),
        ensures
            describes(r@, self@.combined(other@)),
            forall|k: Seq<u8>| #[trigger]
                self@.combined(other@).contains_key(k) ==> self@.combined(other@)[k].error
                    <= self@.combined(other@)[k].count,
    {
        let ghost union = self@.combined(other@);
        let self_min: u64 = self.absent_charge();
        let other_min: u64 = other.absent_charge();
        proof {
            assert forall|k: Seq<u8>| #[trigger] union.contains_key(k) implies union[k].error
                <= union[k].count by {
                if self@.entries.contains_key(k) {
                    lemma_slot_of(self.slots@, k);
                    lemma_slot(self.slots@, slot_of(self.slots@, k));
                }
                if other@.entries.contains_key(k) {
                    lemma_slot_of(other.slots@, k);
                    lemma_slot(other.slots@, slot_of(other.slots@, k));
                }
            }
        }
        let mut rows: Vec<(Vec<u8>, Entry)> = Vec::new();
        let mut i: usize = 0;
        while i < self.slots.len()
            invariant
                self.consistent(),
                other.consistent(),
                self@.merge_fits(other@),
                union == self@.combined(other@),
                forall|k: Seq<u8>| #[trigger]
                    union.contains_key(k) ==> union[k].error <= union[k].count,
                other_min == other@.absent_charge(),
                i <= self.slots.len(),
                rows.len() == i,
                forall|j: int|
                    0 <= j < i ==> (#[trigger] rows@[j]).0@ == self.slots@[j].key@
                        && union.contains_key(rows@[j].0@) && rows@[j].1@ == union[rows@[j].0@],
            decreases self.slots.len() - i,
        {
            let ghost key = self.slots@[i as int].key@;
            proof {
                lemma_slot(self.slots@, i as int);
                assert(union.contains_key(key));
                assert(union[key].count == self@.charge(key).count + other@.charge(key).count);
                assert(union[key].error <= union[key].count);
            }
            let mine: Entry = self.slots[i].entry;
            let (count, error): (u64, u64) = match other.get(self.slots[i].key.as_slice()) {
                Some(e) => (e.count, e.error),
                None => (other_min, other_min),
            };
            assert(other@.charge(key) == (Tally { count: count as int, error: error as int }));
            rows.push(
                (
                    copy_bytes(self.slots[i].key.as_slice()),
                    Entry { count: mine.count + count, error: mine.error + error },
                ),
            );
            i += 1;
        }
        let ghost own = rows@.len();
        let mut j: usize = 0;
        while j < other.slots.len()
            invariant
                self.consistent(),
                other.consistent(),
                self@.merge_fits(other@),
                union == self@.combined(other@),
                forall|k: Seq<u8>| #[trigger]
                    union.contains_key(k) ==> union[k].error <= union[k].count,
                self_min == self@.absent_charge(),
                own == self.slots@.len(),
                own <= rows@.len(),
                j <= other.slots.len(),
                forall|p: int|
                    0 <= p < rows@.len() ==> union.contains_key((#[trigger] rows@[p]).0@)
                        && rows@[p].1@ == union[rows@[p].0@],
                forall|p: int|
                    0 <= p < own ==> (#[trigger] rows@[p]).0@ == self.slots@[p].key@,
                forall|p: int|
                    own <= p < rows@.len() ==> !holds_key(self.slots@, (#[trigger] rows@[p]).0@)
                        && came_from(other.slots@, j as int, rows@[p].0@),
                forall|p: int, q: int|
                    own <= p < rows@.len() && own <= q < rows@.len() && p != q ==> (
                    #[trigger] rows@[p]).0@ != (#[trigger] rows@[q]).0@,
                forall|q: int|
                    0 <= q < j && !holds_key(self.slots@, (#[trigger] other.slots@[q]).key@)
                        ==> row_with(rows@, other.slots@[q].key@),
            decreases other.slots.len() - j,
        {
            let ghost before = rows@;
            let ghost key = other.slots@[j as int].key@;
            proof {
                lemma_slot(other.slots@, j as int);
            }
            if self.find_slot(other.slots[j].key.as_slice()).is_none() {
                let theirs: Entry = other.slots[j].entry;
                proof {
                    assert(union.contains_key(key));
                    assert(union[key].count == self@.charge(key).count + other@.charge(key).count);
                    assert(union[key].error <= union[key].count);
                    assert(!self@.entries.contains_key(key));
                }
                rows.push(
                    (
                        copy_bytes(other.slots[j].key.as_slice()),
                        Entry { count: theirs.count + self_min, error: theirs.error + self_min },
                    ),
                );
                proof {
                    assert forall|p: int, q: int|
                        own <= p < rows@.len() && own <= q < rows@.len() && p != q implies (
                    #[trigger] rows@[p]).0@ != (#[trigger] rows@[q]).0@ by {
                        if p < before.len() {
                            assert(came_from(other.slots@, j as int, before[p].0@));
                        }
                        if q < before.len() {
                            assert(came_from(other.slots@, j as int, before[q].0@));
                        }
                    }
                    assert(rows@[before.len() as int].0@ == key);
                    assert(other.slots@[j as int].key@ == key);
                    assert(came_from(other.slots@, j + 1, key));
                }
            }
            proof {
                assert forall|p: int| own <= p < rows@.len() implies !holds_key(
                    self.slots@,
                    (#[trigger] rows@[p]).0@,
                ) && came_from(other.slots@, j + 1, rows@[p].0@) by {
                    if p < before.len() {
                        assert(came_from(other.slots@, j as int, before[p].0@));
                        let q = choose|q: int|
                            0 <= q < j && (#[trigger] other.slots@[q]).key@ == before[p].0@;
                        assert(other.slots@[q].key@ == rows@[p].0@);
                    }
                }
                assert forall|q: int|
                    0 <= q < j + 1 && !holds_key(
                        self.slots@,
                        (#[trigger] other.slots@[q]).key@,
                    ) implies row_with(rows@, other.slots@[q].key@) by {
                    if q < j {
                        assert(row_with(before, other.slots@[q].key@));
                        let p = choose|p: int|
                            0 <= p < before.len() && (#[trigger] before[p]).0@
                                == other.slots@[q].key@;
                        assert(rows@[p].0@ == other.slots@[q].key@);
                    } else {
                        assert(rows@[before.len() as int].0@ == key);
                    }
                }
            }
            j += 1;
        }
        proof {
            assert forall|k: Seq<u8>| #[trigger] union.contains_key(k) implies row_with(rows@, k) by {
                if self@.entries.contains_key(k) {
                    lemma_slot_of(self.slots@, k);
                    assert(rows@[slot_of(self.slots@, k)].0@ == k);
                } else {
                    lemma_slot_of(other.slots@, k);
                    assert(other.slots@[slot_of(other.slots@, k)].key@ == k);
                }
            }
            assert forall|p: int, q: int|
                0 <= p < rows@.len() && 0 <= q < rows@.len() && p != q implies (
            #[trigger] rows@[p]).0@ != (#[trigger] rows@[q]).0@ by {
                if p < own && q < own {
                    assert(self.slots@[p].key@ != self.slots@[q].key@);
                } else if p < own {
                    assert(self.slots@[p].key@ == rows@[p].0@);
                    assert(holds_key(self.slots@, rows@[p].0@));
                } else if q < own {
                    assert(self.slots@[q].key@ == rows@[q].0@);
                    assert(holds_key(self.slots@, rows@[q].0@));
                }
            }
        }
        rows
    }

    fn params_hash(&self) -> (r: u64)
        ensures
            r == hash_of(le(self.capacity as nat, 8), 0),
    {
        let mut w: Vec<u8> = Vec::new();
        crate::bytes::put_le(&mut w, self.capacity as u64, 8);
        assert(w@ =~= le(self.capacity as nat, 8));
        hash64(w.as_slice(), 0)
    }

    pub fn to_snapshot(&self, window_start_nanos: u64, window_end_nanos: u64) -> (r: Vec<u8>)
        requires
            self.wf(),
        ensures
            r@ == self@.snapshot(window_start_nanos, window_end_nanos),
    {
        let ghost m = self@.entries;
        let mut params = Writer::new();
        params.u64(self.capacity as u64);
        assert(params.buf@ =~= le(self.capacity as nat, 8));
        let mut payload = Writer::new();
        payload.u64(self.total_weight);
        payload.u64(self.updates);
        payload.u32(self.slots.len() as u32);
        let ghost lead = payload.buf@;
        // Ascending keys make snapshots byte-stable.
        let by_key = ByKey { slots: &self.slots };
        let order = ranked(&by_key, self.slots.len());
        let ghost names = Seq::new(order@.len(), |i: int| self.slots@[order@[i] as int].key@);
        let ghost parts = entry_parts(m);
        proof {
            lemma_map_len(self.slots@);
            lemma_key_order();
            let lt = key_order();
            assert forall|i: int, j: int| 0 <= i < j < names.len() implies lt(
                #[trigger] names[i],
                #[trigger] names[j],
            ) by {
                assert(by_key.ahead(order@[i] as int, order@[j] as int));
            }
            assert forall|k: Seq<u8>| #[trigger] m.dom().contains(k) <==> names.contains(k) by {
                if m.contains_key(k) {
                    lemma_slot_of(self.slots@, k);
                    let s = slot_of(self.slots@, k);
                    assert(order@.contains(s as usize));
                    let q = choose|q: int| 0 <= q < order@.len() && order@[q] == s as usize;
                    assert(names[q] == k);
                }
                if names.contains(k) {
                    let q = choose|q: int| 0 <= q < names.len() && names[q] == k;
                    assert(order@[q] < self.slots@.len());
                    lemma_slot(self.slots@, order@[q] as int);
                }
            }
            assert(is_listing(names, m.dom(), lt));
            lemma_listing(names, m.dom(), lt);
        }
        let mut i: usize = 0;
        assert(lead + joined(parts.take(0)) =~= lead);
        while i < order.len()
            invariant
                self.consistent(),
                m == self@.entries,
                lists_range(order@, 0, self.slots@.len() as int),
                names == Seq::new(order@.len(), |i: int| self.slots@[order@[i] as int].key@),
                names == listing(m.dom(), key_order()),
                parts == entry_parts(m),
                i <= order.len(),
                payload.buf@ == lead + joined(parts.take(i as int)),
            decreases order.len() - i,
        {
            let index: usize = order[i];
            assert(index < self.slots@.len());
            let slot = &self.slots[index];
            let ghost start = payload.buf@;
            payload.lp_bytes(slot.key.as_slice());
            payload.u64(slot.entry.count);
            payload.u64(slot.entry.error);
            proof {
                lemma_slot(self.slots@, index as int);
                lemma_joined_step(parts, i as int);
                assert(parts[i as int] == entry_bytes(names[i as int], m[names[i as int]]));
                assert(payload.buf@ =~= start + parts[i as int]);
                assert(payload.buf@ =~= lead + joined(parts.take(i + 1)));
            }
            i += 1;
        }
        assert(parts.take(i as int) =~= parts);
        assert(payload.buf@ =~= self@.payload());
        write_snapshot(
            &SnapshotHeader {
                version: SNAPSHOT_VERSION,
                algorithm_id: algorithm_id::SPACE_SAVING,
                hash: self.hash,
                window_start_nanos,
                window_end_nanos,
            },
            params.buf.as_slice(),
            payload.buf.as_slice(),
        )
    }

    pub fn from_snapshot(bytes: &[u8]) -> (r: Result<Self, SketchError>)
        ensures
            match Summary::from_snapshot(bytes@) {
                Ok(s) => r matches Ok(x) && x.wf() && x@ == s,
                Err(e) => r matches Err(x) && x@ == e,
            },
    {
        let (header, params, payload) = read_snapshot(bytes)?;
        if header.algorithm_id != algorithm_id::SPACE_SAVING {
            return Err(SketchError::Snapshot("not a spacesaving snapshot".to_owned()));
        }
        let mut p = Reader::new(params.as_slice());
        let encoded_capacity: u64 = p.u64()?;
        if encoded_capacity > usize::MAX as u64 {
            let mut message = "spacesaving snapshot capacity ".to_owned();
            push_decimal(&mut message, encoded_capacity);
            message.append(" does not fit this platform");
            return Err(SketchError::Snapshot(message));
        }
        let capacity: usize = encoded_capacity as usize;
        if capacity == 0 {
            return Err(
                SketchError::Snapshot("spacesaving snapshot capacity must be positive".to_owned()),
            );
        }
        let mut r = Reader::new(payload.as_slice());
        let total_weight: u64 = r.u64()?;
        let updates: u64 = r.u64()?;
        let n: usize = r.u32()? as usize;
        if n > capacity {
            let mut message = "spacesaving snapshot entry count ".to_owned();
            push_decimal(&mut message, n as u64);
            message.append(" exceeds capacity ");
            push_decimal(&mut message, capacity as u64);
            return Err(SketchError::Snapshot(message));
        }
        // Each entry takes at least a key length, a count and an error.
        r.check_count(n, 20)?;
        let mut summary = SpaceSaving::new(capacity, header.hash)?;
        summary.total_weight = total_weight;
        summary.updates = updates;
        let ghost outcome = read_entries(payload@.skip(20), n as nat, Map::empty());
        let ghost shell = summary@;
        proof {
            lemma_map_len(summary.slots@);
            assert(summary@.entries.dom() =~= Set::empty());
        }
        assert(r.rest() =~= payload@.skip(20));
        let mut i: usize = 0;
        while i < n
            invariant
                i <= n,
                n <= capacity,
                r.wf(),
                summary.consistent(),
                summary.capacity == capacity,
                summary.slots@.len() == i,
                summary@ == (Summary { entries: summary@.entries, ..shell }),
                outcome == read_entries(r.rest(), (n - i) as nat, summary@.entries),
                match Summary::from_snapshot(bytes@) {
                    Ok(s) => outcome == Ok::<_, SketchErrorView>(s.entries),
                    Err(e) => outcome == Err::<Map<Seq<u8>, Tally>, _>(e),
                },
            decreases n - i,
        {
            let ghost rest = r.rest();
            let ghost len = le_value(rest.take(4)) as int;
            let key = copy_bytes(r.lp_bytes()?);
            assert(r.rest().len() >= 8 ==> r.rest().take(8) =~= rest.subrange(
                4 + len,
                4 + len + 8,
            ));
            let count: u64 = r.u64()?;
            assert(r.rest().len() >= 8 ==> r.rest().take(8) =~= rest.subrange(
                12 + len,
                12 + len + 8,
            ));
            let error: u64 = r.u64()?;
            assert(r.rest() =~= rest.skip(20 + len));
            if error > count {
                let mut message = "spacesaving snapshot entry error ".to_owned();
                push_decimal(&mut message, error);
                message.append(" exceeds count ");
                push_decimal(&mut message, count);
                return Err(SketchError::Snapshot(message));
            }
            let digest: u64 = summary.key_digest(key.as_slice());
            if summary.find_slot_with_digest(key.as_slice(), digest).is_some() {
                assert(summary@.entries.contains_key(key@));
                return Err(
                    SketchError::Snapshot("spacesaving snapshot contains a duplicate key".to_owned()),
                );
            }
            summary.insert_entry_with_digest(key, digest, count, error);
            i += 1;
        }
        Ok(summary)
    }
}

/// Slots by key.
struct ByKey<'a> {
    slots: &'a Vec<Slot>,
}

impl<'a> Ranking for ByKey<'a> {
    closed spec fn size(&self) -> nat {
        self.slots@.len()
    }

    closed spec fn ahead(&self, i: int, j: int) -> bool {
        bytes_before(self.slots@[i].key@, self.slots@[j].key@)
    }

    closed spec fn ranking_wf(&self) -> bool {
        distinct_keys(self.slots@)
    }

    proof fn strict(&self) {
        assert forall|i: int| 0 <= i < self.size() implies !#[trigger] self.ahead(i, i) by {
            lemma_bytes_irreflexive(self.slots@[i].key@);
        }
        assert forall|i: int, j: int|
            0 <= i < self.size() && 0 <= j < self.size() && i != j implies #[trigger] self.ahead(
            i,
            j,
        ) || self.ahead(j, i) by {
            lemma_bytes_total(self.slots@[i].key@, self.slots@[j].key@);
        }
        assert forall|i: int, j: int, k: int|
            0 <= i < self.size() && 0 <= j < self.size() && 0 <= k < self.size()
                && #[trigger] self.ahead(i, j) && #[trigger] self.ahead(j, k) implies self.ahead(
            i,
            k,
        ) by {
            lemma_bytes_transitive(self.slots@[i].key@, self.slots@[j].key@, self.slots@[k].key@);
        }
    }

    fn is_ahead(&self, i: usize, j: usize) -> (r: bool) {
        bytes_less(self.slots[i].key.as_slice(), self.slots[j].key.as_slice())
    }
}

} // verus!
