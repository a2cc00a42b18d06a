//! What one operation changes in a summary or a map of sketches, and what it
//! leaves alone.

use vstd::prelude::*;

use crate::algos::counts::count_or_zero;
use crate::algos::hll::Hll;
use crate::algos::hll_map::{joint_groups, HllGroups};
use crate::algos::misra_gries::{is_least_count, least_count, lemma_least_exists, Frequent};
use crate::algos::summary::Summary;
use crate::algos::summary_laws::lemma_least;

verus! {

/// An addition to a key that is known raises its count and nothing else. A new key
/// that finds room starts with its weight and without error. One that finds
/// none takes the place of a key of the least count, which it inherits as count
/// and as error; all others stay as they are.
pub proof fn law_additions_change_one_key(s: Summary, key: Seq<u8>, weight: int)
    requires
        s.bounded(),
    ensures
        ({
            let t = s.added(key, weight);
            let known = s.entries.contains_key(key);
            let room = s.entries.dom().len() < s.capacity;
            &&& t.entries.contains_key(key)
            &&& t.total == s.total + weight
            &&& t.updates == s.updates + 1
            &&& t.capacity == s.capacity && t.hash == s.hash
            &&& known ==> t.entries[key].count == s.entries[key].count + weight
                && t.entries[key].error == s.entries[key].error
            &&& !known && room ==> t.entries[key].count == weight && t.entries[key].error == 0
            &&& known || room ==> forall|k: Seq<u8>|
                k != key ==> (#[trigger] t.entries.contains_key(k) <==> s.entries.contains_key(k))
                    && (s.entries.contains_key(k) ==> t.entries[k] == s.entries[k])
            &&& !known && !room ==> exists|gone: Seq<u8>|
                {
                    &&& #[trigger] s.entries.contains_key(gone)
                    &&& forall|k: Seq<u8>| #[trigger]
                        s.entries.contains_key(k) ==> s.entries[gone].count <= s.entries[k].count
                    &&& !t.entries.contains_key(gone)
                    &&& t.entries[key].error == s.entries[gone].count
                    &&& t.entries[key].count == s.entries[gone].count + weight
                    &&& forall|k: Seq<u8>|
                        k != key && k != gone ==> (#[trigger] t.entries.contains_key(k)
                            <==> s.entries.contains_key(k)) && (s.entries.contains_key(k)
                            ==> t.entries[k] == s.entries[k])
                }
        }),
{
    if !s.entries.contains_key(key) && s.is_full() {
        lemma_least(s);
        let gone = s.least();
        assert(s.entries.contains_key(gone));
    }
}

/// An addition to a key that is known, or of a key that finds room, raises its count
/// by the weight and changes no other. A key that finds no room lowers every
/// count by the same amount, at most its own weight and at most the least
/// count, and keeps what is left of its weight if a place has become free.
pub proof fn law_frequent_additions(s: Frequent, key: Seq<u8>, weight: int)
    requires
        s.bounded(),
        weight > 0,
    ensures
        ({
            let t = s.added(key, weight);
            let known = s.counters.contains_key(key);
            let room = s.counters.dom().len() < s.capacity;
            &&& t.total == s.total + weight
            &&& t.updates == s.updates + 1
            &&& known || room ==> forall|k: Seq<u8>| #[trigger]
                count_or_zero(t.counters, k) == count_or_zero(s.counters, k) + if k == key {
                    weight
                } else {
                    0
                }
            &&& !known && !room ==> exists|least: int|
                {
                    let d = if least < weight {
                        least
                    } else {
                        weight
                    };
                    &&& #[trigger] is_least_count(s.counters, least)
                    &&& forall|k: Seq<u8>|
                        k != key && #[trigger] s.counters.contains_key(k) ==> count_or_zero(
                            t.counters,
                            k,
                        ) == (if s.counters[k] > d {
                            s.counters[k] - d
                        } else {
                            0
                        })
                    &&& t.counters.contains_key(key) ==> t.counters[key] == weight - d
                    &&& weight <= least ==> !t.counters.contains_key(key)
                }
        }),
{
    if !s.counters.contains_key(key) && s.counters.dom().len() >= s.capacity {
        lemma_least_exists(s.counters);
        assert(is_least_count(s.counters, least_count(s.counters)));
    }
}

/// A sighting changes the sketch of its key, which starts empty, and no other;
/// a displaced key takes its sketch along and is counted.
pub proof fn law_sightings_change_one_key(
    s: HllGroups,
    key: Seq<u8>,
    item: Seq<u8>,
    victim: Seq<u8>,
    k: Seq<u8>,
)
    ensures
        ({
            let t = s.seen(key, item);
            &&& t.groups.contains_key(key)
            &&& s.groups.contains_key(key) ==> t.groups[key] == s.groups[key].inserted(item)
            &&& !s.groups.contains_key(key) ==> t.groups[key] == Hll::empty(
                s.precision,
                s.hash,
            ).inserted(item)
            &&& k != key ==> (t.groups.contains_key(k) <==> s.groups.contains_key(k)) && (
            s.groups.contains_key(k) ==> t.groups[k] == s.groups[k])
            &&& t.updates == s.updates + 1
            &&& t.evicted == s.evicted
        }),
        ({
            let t = s.without(victim);
            &&& !t.groups.contains_key(victim)
            &&& k != victim ==> (t.groups.contains_key(k) <==> s.groups.contains_key(k)) && (
            s.groups.contains_key(k) ==> t.groups[k] == s.groups[k])
            &&& t.evicted == s.evicted + 1
            &&& t.updates == s.updates
        }),
{
}

/// A merge of maps holds of every key that it keeps what both sides have seen
/// of it, and counts the keys that it leaves out.
pub proof fn law_maps_merge_key_by_key(
    a: HllGroups,
    b: HllGroups,
    kept: Set<Seq<u8>>,
    k: Seq<u8>,
)
    ensures
        ({
            let m = a.merged(b, kept);
            let x = a.groups.contains_key(k);
            let y = b.groups.contains_key(k);
            &&& m.groups.contains_key(k) <==> (x || y) && kept.contains(k)
            &&& m.groups.contains_key(k) && x && y ==> m.groups[k] == a.groups[k].merged(
                b.groups[k],
            )
            &&& m.groups.contains_key(k) && x && !y ==> m.groups[k] == a.groups[k]
            &&& m.groups.contains_key(k) && !x && y ==> m.groups[k] == b.groups[k]
            &&& m.updates == a.updates + b.updates
            &&& m.evicted + m.groups.dom().len() == a.evicted + b.evicted + a.groups.dom().union(
                b.groups.dom(),
            ).len()
        }),
{
    assert(joint_groups(a.groups, b.groups).dom() =~= a.groups.dom().union(b.groups.dom()));
}

} // verus!
