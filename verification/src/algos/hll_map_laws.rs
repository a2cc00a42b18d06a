//! What holds of a map of HyperLogLogs over its whole history of insertions.

use vstd::prelude::*;

use crate::algos::hll::{lemma_register_bounds, valid_precision, Hll};
use crate::algos::hll_map::{
    group_parts, is_smallest, law_hll_map_snapshot_round_trip, lemma_inserted_shaped, HllGroups,
};
use crate::bytes::{joined, lemma_joined_first, lemma_le_len};
use crate::error::SketchErrorView;
use crate::hash::HashSpec;
use crate::order::{key_order, lemma_key_order, lemma_listing_exists, listing};

verus! {

/// `after` is what an insertion leaves: where a new key finds no room, one of
/// the smallest keys goes, by the sizes that the sketches have.
pub open spec fn is_insertion(
    before: HllGroups,
    key: Seq<u8>,
    item: Seq<u8>,
    sizes: Map<Seq<u8>, int>,
    after: HllGroups,
) -> bool {
    if before.must_evict(key) {
        &&& sizes.dom() == before.groups.dom()
        &&& exists|victim: Seq<u8>| #[trigger]
            is_smallest(sizes, victim) && after == before.without(victim).seen(key, item)
    } else {
        after == before.seen(key, item)
    }
}

/// The map is within its bounds, and its numbers are consistent.
pub open spec fn is_sound(s: HllGroups) -> bool {
    &&& s.max_keys > 0
    &&& valid_precision(s.precision)
    &&& s.groups.dom().finite()
    &&& s.groups.dom().len() <= s.max_keys
    &&& 0 <= s.evicted
    &&& s.evicted + s.groups.dom().len() <= s.updates
    &&& forall|k: Seq<u8>| #[trigger]
        s.groups.contains_key(k) ==> s.groups[k].shaped() && s.groups[k].updates <= s.updates
}

/// What an insertion does to the keys: the key is tracked; a key that was
/// there, or one that finds room, displaces none; any other displaces exactly
/// one, and none was smaller.
pub proof fn law_insertion_displaces_the_smallest(
    before: HllGroups,
    key: Seq<u8>,
    item: Seq<u8>,
    sizes: Map<Seq<u8>, int>,
    after: HllGroups,
)
    requires
        is_sound(before),
        before.updates < u64::MAX,
        is_insertion(before, key, item, sizes, after),
    ensures
        is_sound(after),
        after.groups.contains_key(key),
        after.max_keys == before.max_keys,
        after.precision == before.precision,
        after.hash == before.hash,
        after.updates == before.updates + 1,
        before.groups.contains_key(key) || before.groups.dom().len() < before.max_keys ==> {
            &&& after.groups.dom() == before.groups.dom().insert(key)
            &&& after.evicted == before.evicted
        },
        !before.groups.contains_key(key) && before.groups.dom().len() >= before.max_keys
            ==> exists|victim: Seq<u8>| #[trigger]
            is_smallest(sizes, victim) && after.groups.dom() == before.groups.dom().remove(
                victim,
            ).insert(key) && after.evicted == before.evicted + 1,
{
    let fresh = Hll::empty(before.precision, before.hash);
    lemma_register_bounds(before.precision, 0);
    lemma_inserted_shaped(fresh, item);
    if before.groups.contains_key(key) {
        lemma_inserted_shaped(before.groups[key], item);
    }
    if before.must_evict(key) {
        let victim = choose|victim: Seq<u8>| #[trigger]
            is_smallest(sizes, victim) && after == before.without(victim).seen(key, item);
        assert(before.groups.dom().contains(victim));
        assert(after.groups.dom() =~= before.groups.dom().remove(victim).insert(key));
        assert forall|k: Seq<u8>| #[trigger] after.groups.contains_key(
            k,
        ) implies after.groups[k].shaped() && after.groups[k].updates <= after.updates by {
            if k != key {
                assert(before.groups.contains_key(k));
            }
        }
    } else {
        assert(after.groups.dom() =~= before.groups.dom().insert(key));
        assert forall|k: Seq<u8>| #[trigger] after.groups.contains_key(
            k,
        ) implies after.groups[k].shaped() && after.groups[k].updates <= after.updates by {
            if k != key {
                assert(before.groups.contains_key(k));
            }
        }
    }
}

/// One insertion of a history.
pub ghost struct Insertion {
    pub key: Seq<u8>,
    pub item: Seq<u8>,
    pub sizes: Map<Seq<u8>, int>,
}

/// The states of a map from its creation on, one per insertion.
pub open spec fn is_history(
    max_keys: int,
    precision: u8,
    hash: HashSpec,
    insertions: Seq<Insertion>,
    states: Seq<HllGroups>,
) -> bool {
    &&& states.len() == insertions.len() + 1
    &&& states[0] == HllGroups::empty(max_keys, precision, hash)
    &&& forall|i: int|
        0 <= i < insertions.len() ==> #[trigger] is_insertion(
            states[i],
            insertions[i].key,
            insertions[i].item,
            insertions[i].sizes,
            states[i + 1],
        )
}

/// Whatever was inserted, the map never outgrows its bound, keeps its
/// configuration, counts every insertion, and has evicted no more keys than
/// were inserted beyond those it tracks.
pub proof fn law_history_stays_in_bounds(
    max_keys: int,
    precision: u8,
    hash: HashSpec,
    insertions: Seq<Insertion>,
    states: Seq<HllGroups>,
    i: int,
)
    requires
        max_keys > 0,
        valid_precision(precision),
        is_history(max_keys, precision, hash, insertions, states),
        0 <= i < states.len(),
        insertions.len() <= u64::MAX,
    ensures
        is_sound(states[i]),
        states[i].max_keys == max_keys,
        states[i].precision == precision,
        states[i].hash == hash,
        states[i].updates == i,
        i > 0 ==> states[i].groups.contains_key(insertions[i - 1].key),
    decreases i,
{
    if i == 0 {
        assert(states[0].groups.dom() =~= Set::empty());
    } else {
        law_history_stays_in_bounds(max_keys, precision, hash, insertions, states, i - 1);
        let at = insertions[i - 1];
        assert(is_insertion(states[i - 1], at.key, at.item, at.sizes, states[i - 1 + 1]));
        law_insertion_displaces_the_smallest(
            states[i - 1],
            at.key,
            at.item,
            at.sizes,
            states[i],
        );
    }
}

proof fn lemma_joined_parts(parts: Seq<Seq<u8>>, i: int)
    requires
        0 <= i < parts.len(),
        forall|j: int| 0 <= j < parts.len() ==> (#[trigger] parts[j]).len() >= 8,
    ensures
        parts[i].len() <= joined(parts).len(),
        8 * parts.len() <= joined(parts).len(),
    decreases parts.len(),
{
    let tail = parts.drop_first();
    lemma_joined_first(parts);
    assert(parts[0].len() >= 8);
    assert forall|j: int| 0 <= j < tail.len() implies (#[trigger] tail[j]).len() >= 8 by {
        assert(tail[j] == parts[j + 1]);
    }
    if i > 0 {
        lemma_joined_parts(tail, i - 1);
        assert(tail[i - 1] == parts[i]);
    } else if tail.len() > 0 {
        lemma_joined_parts(tail, 0);
    }
}

proof fn lemma_payload_bounds(s: HllGroups, window_start: u64, window_end: u64)
    requires
        s.groups.dom().finite(),
        s.payload(window_start, window_end).len() <= u32::MAX,
    ensures
        s.groups.dom().len() <= u32::MAX,
        forall|k: Seq<u8>| #[trigger] s.groups.contains_key(k) ==> k.len() <= u32::MAX,
{
    let dom = s.groups.dom();
    let order = listing(dom, key_order());
    let parts = group_parts(s.groups, window_start, window_end);
    lemma_key_order();
    lemma_listing_exists(dom, key_order());
    assert(joined(parts).len() <= s.payload(window_start, window_end).len());
    assert forall|j: int| 0 <= j < parts.len() implies (#[trigger] parts[j]).len() >= 8
        + order[j].len() by {
        let h = s.groups[order[j]].snapshot(window_start, window_end);
        lemma_le_len(order[j].len() as u32 as nat, 4);
        lemma_le_len(h.len() as u32 as nat, 4);
    }
    assert forall|k: Seq<u8>| #[trigger] s.groups.contains_key(k) implies k.len() <= u32::MAX by {
        assert(dom.contains(k));
        assert(order.contains(k));
        let i = choose|i: int| 0 <= i < order.len() && order[i] == k;
        lemma_joined_parts(parts, i);
        assert(parts[i].len() >= 8 + order[i].len());
    }
    if parts.len() > 0 {
        lemma_joined_parts(parts, 0);
    }
}

/// A map that was built by insertions reads back from its snapshot, unless
/// its payload outgrows the format's length field.
pub proof fn law_built_hll_map_reads_back(
    max_keys: int,
    precision: u8,
    hash: HashSpec,
    insertions: Seq<Insertion>,
    states: Seq<HllGroups>,
    window_start: u64,
    window_end: u64,
)
    requires
        0 < max_keys <= usize::MAX,
        valid_precision(precision),
        is_history(max_keys, precision, hash, insertions, states),
        insertions.len() <= u64::MAX,
        states.last().payload(window_start, window_end).len() <= u32::MAX,
    ensures
        HllGroups::from_snapshot(states.last().snapshot(window_start, window_end)) == Ok::<
            HllGroups,
            SketchErrorView,
        >(states.last()),
{
    let s = states.last();
    law_history_stays_in_bounds(
        max_keys,
        precision,
        hash,
        insertions,
        states,
        states.len() - 1,
    );
    lemma_payload_bounds(s, window_start, window_end);
    law_hll_map_snapshot_round_trip(s, window_start, window_end);
}

} // verus!
