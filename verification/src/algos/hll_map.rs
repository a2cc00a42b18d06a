//! HLLMap: bounded keyed cardinality, a fixed-capacity map from group key to a
//! HyperLogLog, for queries like `distinct_count(dst.ip) by src.ip`.
//!
//! Both dimensions are approximate: cardinalities carry HLL error, and once
//! the map is full the key with the smallest estimated cardinality is evicted,
//! so keys with low fan-out may be dropped.
//!
//! How cardinalities are estimated is left to the caller, who passes a size:
//! any function from a sketch to a number that orders sketches by their
//! estimate.

use vstd::layout::{layout_for_type_is_valid, size_of};
use vstd::prelude::*;
use vstd::string::*;

use crate::algos::counts::{
    as_counts, count_order, front_of, is_front, lemma_count_order, lemma_list_step,
};
use crate::algos::hll::{
    law_hll_snapshot_round_trip, lemma_with_hash, valid_precision, Hll, HyperLogLog, MIN_PRECISION,
};
use crate::bytes::{
    copy_bytes, joined, le, le_value, lemma_joined_first, lemma_joined_step, lemma_le_value_of_le,
    lemma_pow256_values,
};
use crate::error::{SketchError, SketchErrorView};
use crate::hash::{hash64, hash_of, HashSpec};
use crate::keymap::{
    has_key, keyed, keys_differ, lemma_entry, lemma_number, map_of, number_of, KeyMap,
};
use crate::memory::{capped, plus};
use crate::order::{
    key_order, lemma_key_order, lemma_listing_exists, lemma_listing_len, listing, lists_range,
};
use crate::sketch::{Compat, Sketch, SketchCompatibility};
use crate::snapshot::{
    algorithm_id, field_at, framed, law_snapshot_round_trip, read_snapshot, snapshot_bytes,
    snapshot_content, snapshot_err, write_snapshot, Reader, SnapshotHeader, Writer,
    SNAPSHOT_VERSION,
};
use crate::text::dec;

verus! {

pub const ALGORITHM: &'static str = "hllmap";

#[derive(Debug, Clone)]
pub struct HllMap {
    max_keys: usize,
    precision: u8,
    hash: HashSpec,
    map: KeyMap<HyperLogLog>,
    evicted_keys: u64,
    updates: u64,
}

/// The mathematical state of an [`HllMap`].
#[verifier::ext_equal]
pub ghost struct HllGroups {
    pub max_keys: int,
    pub precision: u8,
    pub hash: HashSpec,
    pub groups: Map<Seq<u8>, Hll>,
    pub evicted: int,
    pub updates: int,
}

/// The states of the sketches of all keys.
pub open spec fn as_groups(m: Map<Seq<u8>, HyperLogLog>) -> Map<Seq<u8>, Hll> {
    Map::new(|k: Seq<u8>| m.contains_key(k), |k: Seq<u8>| m[k]@)
}

/// `x` is a size of a sketch in state `a`.
pub open spec fn has_size<F: Fn(&HyperLogLog) -> u64>(size: F, a: Hll, x: int) -> bool {
    exists|h: HyperLogLog, y: u64|
        h@ == a && y == x && #[trigger] call_ensures(size, (&h,), y)
}

/// `sizes` holds a size for the sketch of every key.
pub open spec fn sized<F: Fn(&HyperLogLog) -> u64>(
    size: F,
    groups: Map<Seq<u8>, Hll>,
    sizes: Map<Seq<u8>, int>,
) -> bool {
    &&& sizes.dom() == groups.dom()
    &&& forall|k: Seq<u8>| #[trigger] groups.contains_key(k) ==> has_size(size, groups[k], sizes[k])
}

/// The size can be taken of every sketch.
pub open spec fn is_total<F: Fn(&HyperLogLog) -> u64>(size: F) -> bool {
    forall|h: &HyperLogLog| h.wf() ==> #[trigger] call_requires(size, (h,))
}

/// No key has a smaller size.
pub open spec fn is_smallest(sizes: Map<Seq<u8>, int>, victim: Seq<u8>) -> bool {
    &&& sizes.contains_key(victim)
    &&& forall|k: Seq<u8>| #[trigger] sizes.contains_key(k) ==> sizes[victim] <= sizes[k]
}

/// The first `n` keys by size, largest first.
pub open spec fn largest(sizes: Map<Seq<u8>, int>, n: int) -> Set<Seq<u8>> {
    let order = listing(sizes.dom(), count_order(sizes));
    order.take(if n < order.len() { n } else { order.len() as int }).to_set()
}

/// Key by key the merged sketch.
pub open spec fn joint_groups(a: Map<Seq<u8>, Hll>, b: Map<Seq<u8>, Hll>) -> Map<Seq<u8>, Hll> {
    Map::new(
        |k: Seq<u8>| a.contains_key(k) || b.contains_key(k),
        |k: Seq<u8>|
            if !b.contains_key(k) {
                a[k]
            } else if !a.contains_key(k) {
                b[k]
            } else {
                a[k].merged(b[k])
            },
    )
}

/// The length of a key and the bytes that its sketch can hold.
pub open spec fn part_of(part: (usize, usize), key: Seq<u8>, h: Hll) -> bool {
    part.0 == key.len() && h.is_memory(part.1)
}

/// The bytes of keys, of their sketches and of their entries.
pub open spec fn parts_bytes(parts: Seq<(usize, usize)>) -> int
    decreases parts.len(),
{
    if parts.len() == 0 {
        0
    } else {
        parts_bytes(parts.drop_last()) + (parts.last().0 + parts.last().1 + 32)
    }
}

impl HllGroups {
    pub open spec fn empty(max_keys: int, precision: u8, hash: HashSpec) -> HllGroups {
        HllGroups {
            max_keys,
            precision,
            hash,
            groups: Map::empty(),
            evicted: 0,
            updates: 0,
        }
    }

    pub open spec fn shaped(self) -> bool {
        &&& self.groups.dom().finite()
        &&& forall|k: Seq<u8>| #[trigger] self.groups.contains_key(k) ==> self.groups[k].shaped()
    }

    /// The parts are those of the keys, in the order in which they are listed.
    pub open spec fn has_parts(self, order: Seq<Seq<u8>>, parts: Seq<(usize, usize)>) -> bool {
        &&& order.no_duplicates()
        &&& forall|k: Seq<u8>| #[trigger] order.contains(k) <==> self.groups.contains_key(k)
        &&& parts.len() == order.len()
        &&& forall|i: int|
            0 <= i < parts.len() ==> part_of(
                #[trigger] parts[i],
                order[i],
                self.groups[order[i]],
            )
    }

    /// The bytes that a map in this state can hold: its own and, for each key,
    /// its length, the bytes of its sketch and those of an entry. More than a
    /// word can count is reported as the largest word.
    pub open spec fn is_memory(self, bytes: usize) -> bool {
        &&& self.groups.dom().len() == 0 ==> bytes == size_of::<HllMap>()
        &&& exists|order: Seq<Seq<u8>>, parts: Seq<(usize, usize)>| #[trigger]
            self.has_parts(order, parts) && bytes == capped(
                parts_bytes(parts) + size_of::<HllMap>(),
            )
    }

    /// The error refuses to merge the sketches of a shared key.
    pub open spec fn refused_for_shared(self, other: HllGroups, e: SketchErrorView) -> bool {
        exists|k: Seq<u8>| #[trigger]
            self.groups.contains_key(k) && other.groups.contains_key(k) && self.groups[k].compat()
                != other.groups[k].compat() && e == self.groups[k].compat().refusal(
                other.groups[k].compat(),
            )
    }

    /// A new key has to displace one.
    pub open spec fn must_evict(self, key: Seq<u8>) -> bool {
        &&& !self.groups.contains_key(key)
        &&& self.groups.dom().len() >= self.max_keys
        &&& self.groups.dom().len() > 0
    }

    /// The sketch of `key` after it has seen `item`.
    pub open spec fn group_after(self, key: Seq<u8>, item: Seq<u8>) -> Hll {
        if self.groups.contains_key(key) {
            self.groups[key].inserted(item)
        } else {
            Hll::empty(self.precision, self.hash).inserted(item)
        }
    }

    /// The state after `key` has seen `item`, with room for `key`.
    pub open spec fn seen(self, key: Seq<u8>, item: Seq<u8>) -> HllGroups {
        HllGroups {
            groups: self.groups.insert(key, self.group_after(key, item)),
            updates: self.updates + 1,
            ..self
        }
    }

    pub open spec fn without(self, victim: Seq<u8>) -> HllGroups {
        HllGroups { groups: self.groups.remove(victim), evicted: self.evicted + 1, ..self }
    }

    /// The sketches of keys that two maps share can merge.
    pub open spec fn mergeable(self, other: HllGroups) -> bool {
        forall|k: Seq<u8>| #[trigger]
            self.groups.contains_key(k) && other.groups.contains_key(k)
                ==> self.groups[k].compat() == other.groups[k].compat()
    }

    /// The state after merging, with the keys that `kept` holds.
    pub open spec fn merged(self, other: HllGroups, kept: Set<Seq<u8>>) -> HllGroups {
        let union = joint_groups(self.groups, other.groups);
        HllGroups {
            groups: union.restrict(kept),
            evicted: self.evicted + other.evicted + (union.dom().len() - union.restrict(
                kept,
            ).dom().len()),
            updates: self.updates + other.updates,
            ..self
        }
    }

    pub open spec fn merge_fits(self, other: HllGroups) -> bool {
        &&& self.evicted + other.evicted + joint_groups(self.groups, other.groups).dom().len()
            <= u64::MAX
        &&& self.updates + other.updates <= u64::MAX
        &&& forall|k: Seq<u8>| #[trigger]
            self.groups.contains_key(k) && other.groups.contains_key(k)
                ==> self.groups[k].updates + other.groups[k].updates <= u64::MAX
    }

    pub open spec fn params_hash(self) -> u64 {
        hash_of(le(self.max_keys as nat, 8) + seq![self.precision], 0)
    }

    pub open spec fn compat(self) -> Compat {
        Compat {
            algorithm: ALGORITHM@,
            version: 1,
            hash: self.hash,
            params_hash: self.params_hash(),
        }
    }

    pub open spec fn payload(self, window_start: u64, window_end: u64) -> Seq<u8> {
        le(self.updates as nat, 8) + le(self.evicted as nat, 8) + le(
            self.groups.dom().len() as u32 as nat,
            4,
        ) + joined(group_parts(self.groups, window_start, window_end))
    }

    pub open spec fn snapshot(self, window_start: u64, window_end: u64) -> Seq<u8> {
        snapshot_bytes(
            SnapshotHeader {
                version: SNAPSHOT_VERSION,
                algorithm_id: algorithm_id::HLL_MAP,
                hash: self.hash,
                window_start_nanos: window_start,
                window_end_nanos: window_end,
            },
            le(self.max_keys as nat, 8) + seq![self.precision],
            self.payload(window_start, window_end),
        )
    }

    /// The state that a snapshot denotes, or why it denotes none.
    pub open spec fn from_snapshot(bytes: Seq<u8>) -> Result<HllGroups, SketchErrorView> {
        match snapshot_content(bytes) {
            Err(e) => Err(e),
            Ok((header, params, payload)) => {
                if header.algorithm_id != algorithm_id::HLL_MAP {
                    snapshot_err("not an hllmap snapshot"@)
                } else if params.len() < 9 || payload.len() < 20 {
                    snapshot_err("unexpected end of snapshot"@)
                } else {
                    match read_groups(payload.skip(20), field_at(payload, 16, 4), Map::empty()) {
                        Err(e) => Err(e),
                        Ok(groups) => Ok(
                            HllGroups {
                                max_keys: field_at(params, 0, 8) as u64 as usize as int,
                                precision: params[8],
                                hash: header.hash,
                                groups,
                                evicted: field_at(payload, 8, 8) as int,
                                updates: field_at(payload, 0, 8) as int,
                            },
                        ),
                    }
                }
            },
        }
    }
}

/// One key in a snapshot, with the snapshot of its sketch.
pub open spec fn group_bytes(key: Seq<u8>, h: Hll, window_start: u64, window_end: u64) -> Seq<u8> {
    framed(key) + framed(h.snapshot(window_start, window_end))
}

/// The keys in ascending order.
pub open spec fn group_parts(m: Map<Seq<u8>, Hll>, window_start: u64, window_end: u64) -> Seq<
    Seq<u8>,
> {
    let order = listing(m.dom(), key_order());
    Seq::new(order.len(), |i: int| group_bytes(order[i], m[order[i]], window_start, window_end))
}

/// What `n` keys at the start of `rest` add to `known`. A key that comes again
/// replaces its sketch.
pub open spec fn read_groups(rest: Seq<u8>, n: nat, known: Map<Seq<u8>, Hll>) -> Result<
    Map<Seq<u8>, Hll>,
    SketchErrorView,
>
    decreases n,
{
    let len = le_value(rest.take(4)) as int;
    let tail = rest.skip(4 + len);
    let inner = le_value(tail.take(4)) as int;
    if n == 0 {
        Ok(known)
    } else if rest.len() < 4 || rest.len() < 4 + len || tail.len() < 4 || tail.len() < 4 + inner {
        snapshot_err("unexpected end of snapshot"@)
    } else {
        match Hll::from_snapshot(tail.subrange(4, 4 + inner)) {
            Err(e) => Err(e),
            Ok(h) => read_groups(
                tail.skip(4 + inner),
                (n - 1) as nat,
                known.insert(rest.subrange(4, 4 + len), h),
            ),
        }
    }
}

impl View for HllMap {
    type V = HllGroups;

    closed spec fn view(&self) -> HllGroups {
        HllGroups {
            max_keys: self.max_keys as int,
            precision: self.precision,
            hash: self.hash,
            groups: as_groups(self.map@),
            evicted: self.evicted_keys as int,
            updates: self.updates as int,
        }
    }
}

spec fn sketches_wf(m: Map<Seq<u8>, HyperLogLog>) -> bool {
    forall|k: Seq<u8>| #[trigger] m.contains_key(k) ==> m[k].wf()
}

/// A size for every key of the map.
fn sizes_of<F: Fn(&HyperLogLog) -> u64>(map: &KeyMap<HyperLogLog>, size: &F) -> (r: KeyMap<u64>)
    requires
        map.wf(),
        sketches_wf(map@),
        is_total(*size),
    ensures
        r.wf(),
        sized(*size, as_groups(map@), as_counts(r@)),
        r@.dom() == map@.dom(),
{
    let n: usize = map.len();
    let ghost list = map.list();
    let mut out: KeyMap<u64> = KeyMap::new();
    let mut i: usize = 0;
    proof {
        map.lemma_list();
        assert(out@.dom() =~= map_of(list.take(0)).dom()) by {
            assert forall|k: Seq<u8>| !has_key(list.take(0), k) by {
                if has_key(list.take(0), k) {
                    assert(keyed(list.take(0), k, number_of(list.take(0), k)));
                }
            }
        }
    }
    while i < n
        invariant
            n == list.len(),
            list == map.list(),
            keys_differ(list),
            map@ == map_of(list),
            sketches_wf(map@),
            is_total(*size),
            out.wf(),
            i <= n,
            out@.dom() == map_of(list.take(i as int)).dom(),
            forall|k: Seq<u8>| #[trigger]
                out@.contains_key(k) ==> map@.contains_key(k) && has_size(
                    *size,
                    map@[k]@,
                    out@[k] as int,
                ),
        decreases n - i,
    {
        let h = map.value(i);
        let ghost before = out@;
        proof {
            lemma_list_step(list, i as int);
            lemma_entry(list, i as int);
            assert(map@.contains_key(list[i as int].0@));
        }
        let s: u64 = size(h);
        out.push(copy_bytes(map.key(i).as_slice()), s);
        proof {
            let key = list[i as int].0@;
            assert(call_ensures(*size, (h,), s));
            assert(has_size(*size, map@[key]@, s as int));
            assert(out@.dom() =~= map_of(list.take(i + 1)).dom());
            assert forall|k: Seq<u8>| #[trigger] out@.contains_key(k) implies map@.contains_key(k)
                && has_size(*size, map@[k]@, out@[k] as int) by {
                if k != key {
                    assert(before.contains_key(k));
                }
            }
        }
        i += 1;
    }
    proof {
        assert(list.take(n as int) =~= list);
        let groups = as_groups(map@);
        let sizes = as_counts(out@);
        assert(sizes.dom() =~= groups.dom());
        assert forall|k: Seq<u8>| #[trigger] groups.contains_key(k) implies has_size(
            *size,
            groups[k],
            sizes[k],
        ) by {
            assert(out@.contains_key(k));
        }
    }
    out
}

/// Some keys of a map, with their sketches.
fn keep_only(map: KeyMap<HyperLogLog>, kept: &Vec<(Vec<u8>, u64)>) -> (r: KeyMap<HyperLogLog>)
    requires
        map.wf(),
        sketches_wf(map@),
        forall|i: int| 0 <= i < kept@.len() ==> map@.contains_key((#[trigger] kept@[i]).0@),
        forall|i: int, j: int|
            0 <= i < kept@.len() && 0 <= j < kept@.len() && i != j ==> (#[trigger] kept@[i]).0@ != (
            #[trigger] kept@[j]).0@,
    ensures
        r.wf(),
        sketches_wf(r@),
        as_groups(r@) == as_groups(map@).restrict(key_set(kept@, kept@.len() as int)),
        r@.dom().len() == kept@.len(),
{
    let ghost groups = as_groups(map@);
    let ghost all = map@;
    let mut rest = map;
    let mut out: KeyMap<HyperLogLog> = KeyMap::new();
    let mut i: usize = 0;
    proof {
        assert(as_groups(out@) =~= groups.restrict(key_set(kept@, 0)));
        out.lemma_list();
    }
    while i < kept.len()
        invariant
            groups == as_groups(all),
            sketches_wf(all),
            rest.wf(),
            rest@.dom() == all.dom(),
            forall|j: int| 0 <= j < kept@.len() ==> all.contains_key((#[trigger] kept@[j]).0@),
            forall|a: int, b: int|
                0 <= a < kept@.len() && 0 <= b < kept@.len() && a != b ==> (#[trigger] kept@[a]).0@
                    != (#[trigger] kept@[b]).0@,
            out.wf(),
            sketches_wf(out@),
            i <= kept@.len(),
            out@.dom().len() == i,
            as_groups(out@) == groups.restrict(key_set(kept@, i as int)),
            forall|j: int|
                i <= j < kept@.len() ==> rest@[(#[trigger] kept@[j]).0@] == all[kept@[j].0@],
        decreases kept@.len() - i,
    {
        let ghost key = kept@[i as int].0@;
        let ghost before = out@;
        let ghost old_rest = rest@;
        proof {
            if key_set(kept@, i as int).contains(key) {
                let j = choose|j: int| 0 <= j < i && (#[trigger] kept@[j]).0@ == key;
                assert(kept@[j].0@ != kept@[i as int].0@);
            }
            assert(!as_groups(before).contains_key(key));
            assert(all.contains_key(kept@[i as int].0@));
            assert(rest@.dom().contains(key));
            out.lemma_list();
        }
        if let Some(at) = rest.find(kept[i].0.as_slice()) {
            let h = rest.replace(at, HyperLogLog::blank(MIN_PRECISION, HashSpec::new(0)));
            assert(h == all[key]);
            out.push(copy_bytes(kept[i].0.as_slice()), h);
            proof {
                out.lemma_list();
                assert forall|k: Seq<u8>| key_set(kept@, i + 1).contains(k) <==> key_set(
                    kept@,
                    i as int,
                ).insert(key).contains(k) by {
                    if key_set(kept@, i + 1).contains(k) {
                        let j = choose|j: int| 0 <= j < i + 1 && (#[trigger] kept@[j]).0@ == k;
                        if j < i {
                            assert(kept@[j].0@ == k);
                        }
                    }
                    if key_set(kept@, i as int).contains(k) {
                        let j = choose|j: int| 0 <= j < i && (#[trigger] kept@[j]).0@ == k;
                        assert(kept@[j].0@ == k);
                    }
                    if k == key {
                        assert(kept@[i as int].0@ == k);
                    }
                }
                let goal = groups.restrict(key_set(kept@, i + 1));
                let known = groups.restrict(key_set(kept@, i as int));
                assert forall|k: Seq<u8>| as_groups(out@).contains_key(k) <==> goal.contains_key(
                    k,
                ) by {
                    assert(as_groups(before).contains_key(k) <==> known.contains_key(k));
                }
                assert forall|k: Seq<u8>| as_groups(out@).contains_key(k) implies as_groups(out@)[k]
                    == goal[k] by {
                    if k != key {
                        assert(known.contains_key(k));
                        assert(as_groups(before)[k] == known[k]);
                    }
                }
                assert(as_groups(out@) =~= goal);
                assert(rest@.dom() =~= all.dom());
                assert forall|j: int| i + 1 <= j < kept@.len() implies rest@[(
                #[trigger] kept@[j]).0@] == all[kept@[j].0@] by {
                    assert(kept@[j].0@ != kept@[i as int].0@);
                }
                assert(out@.dom() =~= before.dom().insert(key));
            }
        }
        i += 1;
    }
    out
}

/// The keys of the first `n` rows.
pub open spec fn key_set(rows: Seq<(Vec<u8>, u64)>, n: int) -> Set<Seq<u8>> {
    Set::new(|k: Seq<u8>| exists|j: int| 0 <= j < n && (#[trigger] rows[j]).0@ == k)
}

/// The first rows of a ranking hold the largest keys.
proof fn lemma_front_is_largest(rows: Seq<(Vec<u8>, u64)>, sizes: Map<Seq<u8>, int>, limit: int)
    requires
        is_front(rows, sizes, limit),
        0 <= limit,
    ensures
        key_set(rows, rows.len() as int) == largest(sizes, limit),
        forall|i: int| 0 <= i < rows.len() ==> sizes.contains_key((#[trigger] rows[i]).0@),
        forall|i: int, j: int|
            0 <= i < rows.len() && 0 <= j < rows.len() && i != j ==> (#[trigger] rows[i]).0@ != (
            #[trigger] rows[j]).0@,
{
    let lt = count_order(sizes);
    lemma_count_order(sizes);
    let order = listing(sizes.dom(), lt);
    lemma_listing_len(order, sizes.dom(), lt);
    let front = order.take(rows.len() as int);
    assert forall|k: Seq<u8>| key_set(rows, rows.len() as int).contains(k)
        <==> front.to_set().contains(k) by {
        if key_set(rows, rows.len() as int).contains(k) {
            let j = choose|j: int| 0 <= j < rows.len() && (#[trigger] rows[j]).0@ == k;
            assert(front[j] == k);
        }
        if front.contains(k) {
            let j = choose|j: int| 0 <= j < front.len() && front[j] == k;
            assert(rows[j].0@ == k);
        }
    }
    assert(key_set(rows, rows.len() as int) =~= largest(sizes, limit));
    assert forall|i: int| 0 <= i < rows.len() implies sizes.contains_key(
        (#[trigger] rows[i]).0@,
    ) by {
        assert(order.contains(order[i]));
        assert(sizes.dom().contains(order[i]));
    }
    assert forall|i: int, j: int|
        0 <= i < rows.len() && 0 <= j < rows.len() && i != j implies (#[trigger] rows[i]).0@ != (
    #[trigger] rows[j]).0@ by {
        assert(order[i] != order[j]);
    }
}

impl HllMap {
    /// Every sketch is in range, and the number of keys is known.
    pub proof fn law_groups_are_in_range(&self)
        requires
            self.wf(),
        ensures
            self@.shaped(),
    {
    }

    /// The representation is consistent.
    pub closed spec fn wf(&self) -> bool {
        self.map.wf() && sketches_wf(self.map@) && self@.shaped()
    }

    pub fn new(max_keys: usize, precision: u8, hash: HashSpec) -> (r: Result<Self, SketchError>)
        ensures
            r is Ok <==> max_keys > 0 && valid_precision(precision),
            r matches Ok(s) ==> s.wf() && s@ == HllGroups::empty(
                max_keys as int,
                precision,
                hash,
            ),
            r matches Err(e) ==> e@ == SketchErrorView::InvalidParam(
                if max_keys == 0 {
                    "hllmap max_keys must be positive"@
                } else {
                    "hll precision must be in [4, 18], got "@ + dec(precision as nat)
                },
            ),
    {
        if max_keys == 0 {
            return Err(SketchError::InvalidParam("hllmap max_keys must be positive".to_owned()));
        }
        // Validates the precision.
        HyperLogLog::new(precision, hash)?;
        let s = HllMap {
            max_keys,
            precision,
            hash,
            map: KeyMap::new(),
            evicted_keys: 0,
            updates: 0,
        };
        proof {
            s.map.lemma_list();
            assert(s@.groups =~= Map::empty());
        }
        Ok(s)
    }

    pub fn max_keys(&self) -> (r: usize)
        ensures
            r == self@.max_keys,
    {
        self.max_keys
    }

    pub fn precision(&self) -> (r: u8)
        ensures
            r == self@.precision,
    {
        self.precision
    }

    /// Number of tracked keys.
    pub fn len(&self) -> (r: usize)
        requires
            self.wf(),
        ensures
            r == self@.groups.dom().len(),
    {
        assert(self@.groups.dom() =~= self.map@.dom());
        self.map.len()
    }

    pub fn is_empty(&self) -> (r: bool)
        requires
            self.wf(),
        ensures
            r == (self@.groups.dom().len() == 0),
    {
        self.len() == 0
    }

    /// Keys dropped because of the bound: a visible accuracy signal.
    pub fn evicted_keys(&self) -> (r: u64)
        ensures
            r == self@.evicted,
    {
        self.evicted_keys
    }

    /// Record that `key` saw the distinct `item`. If there is no room for a
    /// new key, one of smallest size makes room.
    pub fn insert<F: Fn(&HyperLogLog) -> u64>(&mut self, key: &[u8], item: &[u8], size: &F)
        requires
            old(self).wf(),
            is_total(*size),
            old(self)@.updates < u64::MAX,
            !old(self)@.groups.contains_key(key@) ==> valid_precision(old(self)@.precision),
            old(self)@.must_evict(key@) ==> old(self)@.evicted < u64::MAX,
            old(self)@.groups.contains_key(key@) ==> old(self)@.groups[key@].updates < u64::MAX,
        ensures
            final(self).wf(),
            !old(self)@.must_evict(key@) ==> final(self)@ == old(self)@.seen(key@, item@),
            old(self)@.must_evict(key@) ==> exists|sizes: Map<Seq<u8>, int>, victim: Seq<u8>|
                #![trigger sized(*size, old(self)@.groups, sizes), is_smallest(sizes, victim)]
                sized(*size, old(self)@.groups, sizes) && is_smallest(sizes, victim)
                    && final(self)@ == old(self)@.without(victim).seen(key@, item@),
    {
        let ghost start = self@;
        self.updates = self.updates + 1;
        proof {
            self.map.lemma_list();
            assert(start.groups.dom() =~= self.map@.dom());
        }
        if let Some(i) = self.map.find(key) {
            assert(start.groups.contains_key(key@));
            let ghost before = self.map@;
            let mut h = self.map.replace(
                i,
                HyperLogLog::blank(MIN_PRECISION, HashSpec::new(0)),
            );
            h.insert(item);
            self.map.replace(i, h);
            proof {
                assert(self.map@ =~= before.insert(key@, h));
                self.map.lemma_list();
                assert(self@.groups =~= start.groups.insert(key@, h@));
                lemma_inserted_shaped(start.groups[key@], item@);
            }
            return;
        }
        if self.map.len() >= self.max_keys && self.map.len() > 0 {
            self.evict_smallest(size);
        }
        let ghost roomy = self@;
        let mut h = HyperLogLog::blank(self.precision, self.hash);
        h.insert(item);
        self.map.push(copy_bytes(key), h);
        proof {
            self.map.lemma_list();
            lemma_inserted_shaped(Hll::empty(self.precision, self.hash), item@);
            assert(self@.groups =~= roomy.groups.insert(key@, h@));
            assert(start.must_evict(key@) ==> !roomy.groups.contains_key(key@));
            if !start.must_evict(key@) {
                assert(self@ =~= start.seen(key@, item@));
            } else {
                let (sizes, victim) = choose|sizes: Map<Seq<u8>, int>, victim: Seq<u8>|
                    #![trigger sized(*size, start.groups, sizes), is_smallest(sizes, victim)]
                    sized(*size, start.groups, sizes) && is_smallest(sizes, victim) && roomy == (
                    HllGroups { updates: start.updates + 1, ..start.without(victim) });
                assert(self@ =~= start.without(victim).seen(key@, item@));
            }
        }
    }

    /// Drop one key of smallest size.
    fn evict_smallest<F: Fn(&HyperLogLog) -> u64>(&mut self, size: &F)
        requires
            old(self).wf(),
            is_total(*size),
            old(self)@.groups.dom().len() > 0,
            old(self)@.evicted < u64::MAX,
        ensures
            final(self).wf(),
            exists|sizes: Map<Seq<u8>, int>, victim: Seq<u8>|
                #![trigger sized(*size, old(self)@.groups, sizes), is_smallest(sizes, victim)]
                sized(*size, old(self)@.groups, sizes) && is_smallest(sizes, victim)
                    && final(self)@ == old(self)@.without(victim),
    {
        let ghost start = self@;
        let sizes = sizes_of(&self.map, size);
        let ghost m = as_counts(sizes@);
        let n: usize = self.len();
        let rows = front_of(&sizes, n - 1);
        let mut map: KeyMap<HyperLogLog> = KeyMap::new();
        core::mem::swap(&mut self.map, &mut map);
        proof {
            map.lemma_list();
            assert(start.groups.dom() =~= map@.dom());
            assert(m.dom() =~= map@.dom());
            lemma_front_is_largest(rows@, m, n - 1);
        }
        self.map = keep_only(map, &rows);
        self.evicted_keys = self.evicted_keys + 1;
        proof {
            let lt = count_order(m);
            lemma_count_order(m);
            let order = listing(m.dom(), lt);
            lemma_listing_len(order, m.dom(), lt);
            let victim = order[n - 1];
            assert(order.contains(victim));
            assert(m.dom().contains(victim));
            assert forall|k: Seq<u8>| #[trigger] m.contains_key(k) implies m[victim] <= m[k] by {
                assert(m.dom().contains(k));
                let q = choose|q: int| 0 <= q < order.len() && order[q] == k;
                if q < n - 1 {
                    assert(lt(order[q], order[n - 1]));
                }
            }
            assert(is_smallest(m, victim));
            let front = order.take(n - 1);
            assert forall|k: Seq<u8>| start.groups.contains_key(k) implies (front.to_set().contains(k)
                <==> k != victim) by {
                assert(m.dom().contains(k));
                let q = choose|q: int| 0 <= q < order.len() && order[q] == k;
                if q < n - 1 {
                    assert(front[q] == k);
                    assert(order[q] != order[n - 1]);
                } else {
                    if front.contains(k) {
                        let p = choose|p: int| 0 <= p < front.len() && front[p] == k;
                        assert(order[p] != order[n - 1]);
                    }
                }
            }
            assert(self@.groups =~= start.groups.remove(victim));
            self.map.lemma_list();
            assert(self@ =~= start.without(victim));
            assert(sized(*size, start.groups, m));
        }
    }

    /// The sketch of `key`, from which its cardinality is estimated.
    pub fn get(&self, key: &[u8]) -> (r: Option<&HyperLogLog>)
        requires
            self.wf(),
        ensures
            r is Some <==> self@.groups.contains_key(key@),
            r matches Some(h) ==> h.wf() && h@ == self@.groups[key@],
    {
        self.map.get(key)
    }

    /// All tracked keys with their sizes, largest first.
    pub fn entries<F: Fn(&HyperLogLog) -> u64>(&self, size: &F) -> (r: Vec<(Vec<u8>, u64)>)
        requires
            self.wf(),
            is_total(*size),
        ensures
            exists|sizes: Map<Seq<u8>, int>| #[trigger]
                sized(*size, self@.groups, sizes) && is_front(
                    r@,
                    sizes,
                    self@.groups.dom().len() as int,
                ),
    {
        let sizes = sizes_of(&self.map, size);
        let n: usize = self.len();
        let r = front_of(&sizes, n);
        assert(sized(*size, self@.groups, as_counts(sizes@)));
        r
    }

    fn params_hash(&self) -> (r: u64)
        ensures
            r == self@.params_hash(),
    {
        let mut w = Writer::new();
        w.u64(self.max_keys as u64);
        w.u8(self.precision);
        assert(w.buf@ =~= le(self.max_keys as nat, 8) + seq![self.precision]);
        hash64(w.buf.as_slice(), 0)
    }

    /// Counts the key itself as the distinct item.
    pub fn update<F: Fn(&HyperLogLog) -> u64>(&mut self, key: &[u8], size: &F)
        requires
            old(self).wf(),
            is_total(*size),
            old(self)@.updates < u64::MAX,
            !old(self)@.groups.contains_key(key@) ==> valid_precision(old(self)@.precision),
            old(self)@.must_evict(key@) ==> old(self)@.evicted < u64::MAX,
            old(self)@.groups.contains_key(key@) ==> old(self)@.groups[key@].updates < u64::MAX,
        ensures
            final(self).wf(),
            !old(self)@.must_evict(key@) ==> final(self)@ == old(self)@.seen(key@, key@),
            old(self)@.must_evict(key@) ==> exists|sizes: Map<Seq<u8>, int>, victim: Seq<u8>|
                #![trigger sized(*size, old(self)@.groups, sizes), is_smallest(sizes, victim)]
                sized(*size, old(self)@.groups, sizes) && is_smallest(sizes, victim)
                    && final(self)@ == old(self)@.without(victim).seen(key@, key@),
    {
        self.insert(key, key, size);
    }

    /// Whether the sketches of shared keys can merge.
    fn check_shared(&self, other: &HllMap) -> (r: Result<(), SketchError>)
        requires
            self.wf(),
            other.wf(),
        ensures
            r is Ok <==> self@.mergeable(other@),
            r matches Err(e) ==> self@.refused_for_shared(other@, e@),
    {
        let n: usize = other.map.len();
        let ghost list = other.map.list();
        proof {
            other.map.lemma_list();
        }
        let mut i: usize = 0;
        while i < n
            invariant
                self.wf(),
                other.wf(),
                n == list.len(),
                list == other.map.list(),
                keys_differ(list),
                other.map@ == map_of(list),
                i <= n,
                forall|j: int|
                    0 <= j < i && self@.groups.contains_key((#[trigger] list[j]).0@)
                        ==> self@.groups[list[j].0@].compat() == other@.groups[list[j].0@].compat(),
            decreases n - i,
        {
            proof {
                lemma_entry(list, i as int);
                assert(other.map@.contains_key(list[i as int].0@));
            }
            if let Some(mine) = self.map.get(other.map.key(i).as_slice()) {
                let theirs = other.map.value(i);
                assert(self@.groups.contains_key(list[i as int].0@));
                mine.compatibility().ensure_matches(&theirs.compatibility())?;
            }
            i += 1;
        }
        proof {
            assert forall|k: Seq<u8>| #[trigger]
                self@.groups.contains_key(k) && other@.groups.contains_key(k) implies self@.groups[k].compat()
                == other@.groups[k].compat() by {
                lemma_number(list, k);
                assert(list[number_of(list, k)].0@ == k);
            }
        }
        Ok(())
    }

    /// Whether the maps fit together: unless the descriptors of the maps and
    /// of the sketches of shared keys are equal, they do not.
    pub fn check_merge(&self, other: &HllMap) -> (r: Result<(), SketchError>)
        requires
            self.wf(),
            other.wf(),
        ensures
            r is Ok <==> self@.compat() == other@.compat() && self@.mergeable(other@),
            r matches Err(e) ==> if self@.compat() != other@.compat() {
                e@ == self@.compat().refusal(other@.compat())
            } else {
                self@.refused_for_shared(other@, e@)
            },
    {
        self.compatibility().ensure_matches(&other.compatibility())?;
        self.check_shared(other)
    }

    /// Whether no counter overflows in a merge.
    pub fn can_merge(&self, other: &HllMap) -> (r: bool)
        requires
            self.wf(),
            other.wf(),
        ensures
            r == self@.merge_fits(other@),
    {
        let ghost mine = self@.groups;
        let ghost theirs = other@.groups;
        let n: usize = other.map.len();
        let ghost list = other.map.list();
        let mut keys: u128 = self.map.len() as u128;
        let mut fits: bool = true;
        let mut i: usize = 0;
        let ghost mut seen: Set<Seq<u8>> = self.map@.dom();
        proof {
            other.map.lemma_list();
            self.map.lemma_list();
        }
        while i < n
            invariant
                self.wf(),
                other.wf(),
                mine == self@.groups,
                theirs == other@.groups,
                n == list.len(),
                list == other.map.list(),
                keys_differ(list),
                other.map@ == map_of(list),
                i <= n,
                seen.finite(),
                keys == seen.len(),
                keys <= usize::MAX + i,
                forall|k: Seq<u8>| #[trigger]
                    seen.contains(k) <==> mine.contains_key(k) || exists|j: int|
                        0 <= j < i && (#[trigger] list[j]).0@ == k,
                fits <==> forall|j: int|
                    0 <= j < i && mine.contains_key((#[trigger] list[j]).0@)
                        ==> mine[list[j].0@].updates + theirs[list[j].0@].updates <= u64::MAX,
            decreases n - i,
        {
            let ghost key = list[i as int].0@;
            let ghost before = seen;
            proof {
                lemma_entry(list, i as int);
                assert(other.map@.contains_key(key));
                assert forall|j: int| 0 <= j < i implies (#[trigger] list[j]).0@ != key by {}
            }
            match self.map.get(other.map.key(i).as_slice()) {
                Some(h) => {
                    let theirs_updates: u64 = other.map.value(i).update_count();
                    fits = fits && h.update_count() <= u64::MAX - theirs_updates;
                },
                None => {
                    keys = keys + 1;
                },
            }
            proof {
                seen = seen.insert(key);
                assert forall|k: Seq<u8>| #[trigger]
                    seen.contains(k) <==> mine.contains_key(k) || exists|j: int|
                        0 <= j < i + 1 && (#[trigger] list[j]).0@ == k by {
                    if before.contains(k) && !mine.contains_key(k) {
                        let j = choose|j: int| 0 <= j < i && (#[trigger] list[j]).0@ == k;
                        assert(list[j].0@ == k);
                    }
                    if k == key {
                        assert(list[i as int].0@ == k);
                    }
                }
            }
            i += 1;
        }
        proof {
            let union = joint_groups(mine, theirs);
            assert forall|k: Seq<u8>| seen.contains(k) <==> union.dom().contains(k) by {
                if theirs.contains_key(k) {
                    lemma_number(list, k);
                    assert(list[number_of(list, k)].0@ == k);
                }
                if seen.contains(k) && !mine.contains_key(k) {
                    let j = choose|j: int| 0 <= j < n && (#[trigger] list[j]).0@ == k;
                    lemma_entry(list, j);
                    assert(other.map@.contains_key(list[j].0@));
                }
            }
            assert(seen =~= union.dom());
            if fits {
                assert forall|k: Seq<u8>| #[trigger]
                    mine.contains_key(k) && theirs.contains_key(k) implies mine[k].updates
                    + theirs[k].updates <= u64::MAX by {
                    lemma_number(list, k);
                    assert(list[number_of(list, k)].0@ == k);
                }
            } else {
                let j = choose|j: int|
                    0 <= j < n && mine.contains_key((#[trigger] list[j]).0@)
                        && mine[list[j].0@].updates + theirs[list[j].0@].updates > u64::MAX;
                lemma_entry(list, j);
                assert(other.map@.contains_key(list[j].0@));
                assert(mine.contains_key(list[j].0@) && theirs.contains_key(list[j].0@));
            }
        }
        fits && self.updates <= u64::MAX - other.updates && self.evicted_keys as u128
            + other.evicted_keys as u128 + keys <= u64::MAX as u128
    }

    /// Merge `other` into `self`, and keep the keys of largest size. Refused,
    /// with `self` unchanged, unless the descriptors of the maps and of the
    /// sketches of shared keys are equal.
    pub fn merge_from<F: Fn(&HyperLogLog) -> u64>(&mut self, other: &Self, size: &F) -> (r: Result<
        (),
        SketchError,
    >)
        requires
            old(self).wf(),
            other.wf(),
            is_total(*size),
            old(self)@.compat() == other@.compat() && old(self)@.mergeable(other@) ==> old(
                self,
            )@.merge_fits(other@),
        ensures
            final(self).wf(),
            r is Ok <==> old(self)@.compat() == other@.compat() && old(self)@.mergeable(other@),
            r is Err ==> final(self)@ == old(self)@,
            r matches Err(e) ==> if old(self)@.compat() != other@.compat() {
                e@ == old(self)@.compat().refusal(other@.compat())
            } else {
                old(self)@.refused_for_shared(other@, e@)
            },
            r is Ok ==> exists|sizes: Map<Seq<u8>, int>| #[trigger]
                sized(*size, joint_groups(old(self)@.groups, other@.groups), sizes)
                    && final(self)@ == old(self)@.merged(
                    other@,
                    largest(sizes, old(self)@.max_keys),
                ),
    {
        self.check_merge(other)?;
        let ghost start = self@;
        let ghost union = joint_groups(start.groups, other@.groups);
        self.unite(other);
        proof {
            self.map.lemma_list();
            assert(union.dom() =~= self.map@.dom());
        }
        let n: usize = self.len();
        let sizes = sizes_of(&self.map, size);
        let ghost m = as_counts(sizes@);
        let mut dropped: usize = 0;
        if n > self.max_keys {
            let rows = front_of(&sizes, self.max_keys);
            let mut map: KeyMap<HyperLogLog> = KeyMap::new();
            core::mem::swap(&mut self.map, &mut map);
            proof {
                assert(m.dom() =~= map@.dom());
                lemma_front_is_largest(rows@, m, self.max_keys as int);
                lemma_count_order(m);
                lemma_listing_len(
                    listing(m.dom(), count_order(m)),
                    m.dom(),
                    count_order(m),
                );
            }
            self.map = keep_only(map, &rows);
            dropped = n - rows.len();
            proof {
                self.map.lemma_list();
                assert(self@.groups.dom() =~= self.map@.dom());
            }
        } else {
            proof {
                lemma_count_order(m);
                lemma_listing_exists(m.dom(), count_order(m));
                let order = listing(m.dom(), count_order(m));
                assert(order.take(order.len() as int) =~= order);
                assert forall|k: Seq<u8>| union.contains_key(k) implies largest(
                    m,
                    self.max_keys as int,
                ).contains(k) by {
                    assert(m.dom().contains(k));
                    assert(order.contains(k));
                }
                assert(union.restrict(largest(m, self.max_keys as int)) =~= union);
            }
        }
        self.evicted_keys = self.evicted_keys + dropped as u64 + other.evicted_keys;
        self.updates = self.updates + other.updates;
        proof {
            assert(self@ =~= start.merged(other@, largest(m, start.max_keys)));
            assert(sized(*size, union, m));
        }
        Ok(())
    }

    /// Merge the sketches of `other`, without a bound.
    fn unite(&mut self, other: &HllMap)
        requires
            old(self).wf(),
            other.wf(),
            old(self)@.mergeable(other@),
            old(self)@.merge_fits(other@),
        ensures
            final(self).wf(),
            final(self)@ == (HllGroups {
                groups: joint_groups(old(self)@.groups, other@.groups),
                ..old(self)@
            }),
    {
        let ghost start = self@;
        let n: usize = other.map.len();
        let ghost list = other.map.list();
        proof {
            other.map.lemma_list();
            assert forall|k: Seq<u8>| !has_key(list.take(0), k) by {
                if has_key(list.take(0), k) {
                    assert(keyed(list.take(0), k, number_of(list.take(0), k)));
                }
            }
            assert(start.groups =~= joint_groups(start.groups, as_groups(map_of(list.take(0)))));
        }
        let mut i: usize = 0;
        while i < n
            invariant
                other.wf(),
                self.wf(),
                start.mergeable(other@),
                start.merge_fits(other@),
                start.shaped(),
                n == list.len(),
                list == other.map.list(),
                keys_differ(list),
                other.map@ == map_of(list),
                i <= n,
                self@ == (HllGroups {
                    groups: joint_groups(start.groups, as_groups(map_of(list.take(i as int)))),
                    ..start
                }),
            decreases n - i,
        {
            let ghost part = as_groups(map_of(list.take(i as int)));
            let ghost key = list[i as int].0@;
            let ghost before = self@.groups;
            let ghost inner = self.map@;
            let ghost theirs = other@.groups[key];
            proof {
                lemma_list_step(list, i as int);
                lemma_entry(list, i as int);
                assert(other.map@.contains_key(key));
                assert(!part.contains_key(key));
                assert(self.map@.contains_key(key) <==> start.groups.contains_key(key)) by {
                    assert(as_groups(inner).contains_key(key) <==> joint_groups(
                        start.groups,
                        part,
                    ).contains_key(key));
                }
                if start.groups.contains_key(key) {
                    assert(as_groups(inner)[key] == joint_groups(start.groups, part)[key]);
                    assert(start.groups.contains_key(key) && other@.groups.contains_key(key));
                }
            }
            match self.map.find(other.map.key(i).as_slice()) {
                Some(at) => {
                    let mut mine = self.map.replace(
                        at,
                        HyperLogLog::blank(MIN_PRECISION, HashSpec::new(0)),
                    );
                    assert(mine@ == start.groups[key]);
                    let outcome = mine.merge_from(other.map.value(i));
                    assert(outcome is Ok);
                    self.map.replace(at, mine);
                    assert(self.map@ =~= inner.insert(key, mine));
                },
                None => {
                    self.map.push(
                        copy_bytes(other.map.key(i).as_slice()),
                        other.map.value(i).copy(),
                    );
                },
            }
            proof {
                let next = joint_groups(
                    start.groups,
                    as_groups(map_of(list.take(i + 1))),
                );
                assert(as_groups(map_of(list.take(i + 1))) =~= part.insert(key, theirs));
                let known = joint_groups(start.groups, part);
                assert forall|k: Seq<u8>| self@.groups.contains_key(k) <==> next.contains_key(k) by {
                    assert(before.contains_key(k) <==> known.contains_key(k));
                }
                assert forall|k: Seq<u8>| self@.groups.contains_key(k) implies self@.groups[k]
                    == next[k] by {
                    if k != key {
                        assert(before.contains_key(k));
                        assert(before[k] == known[k]);
                    }
                }
                assert(self@.groups =~= next);
                self.map.lemma_list();
                assert(self@.groups.dom() =~= self.map@.dom());
                assert forall|k: Seq<u8>| #[trigger] self.map@.contains_key(k) implies self.map@[k].wf() by {
                    if k != key {
                        assert(inner.contains_key(k));
                    }
                }
                assert forall|k: Seq<u8>| #[trigger] self@.groups.contains_key(k) implies self@.groups[k].shaped() by {
                    if k != key {
                        assert(before.contains_key(k));
                    } else {
                        assert(other@.groups.contains_key(key));
                    }
                }
            }
            i += 1;
        }
        assert(list.take(n as int) =~= list);
    }

    /// The bytes of a map with a key for each part: the length of the key and
    /// the bytes of its sketch.
    pub fn held_bytes(parts: &Vec<(usize, usize)>) -> (r: usize)
        ensures
            r == capped(parts_bytes(parts@) + size_of::<Self>()),
    {
        let mut acc: usize = core::mem::size_of::<Self>();
        let mut i: usize = 0;
        while i < parts.len()
            invariant
                i <= parts@.len(),
                parts_bytes(parts@.take(i as int)) >= 0,
                acc == capped(parts_bytes(parts@.take(i as int)) + size_of::<Self>()),
            decreases parts@.len() - i,
        {
            assert(parts@.take(i + 1).drop_last() =~= parts@.take(i as int));
            acc = plus(acc, plus(plus(parts[i].0, parts[i].1), 32));
            i += 1;
        }
        assert(parts@.take(i as int) =~= parts@);
        acc
    }

    /// Bytes of memory currently held.
    pub fn memory_bytes(&self) -> (r: usize)
        requires
            self.wf(),
        ensures
            self@.is_memory(r),
    {
        layout_for_type_is_valid::<Self>();
        let n: usize = self.map.len();
        let ghost list = self.map.list();
        let mut parts: Vec<(usize, usize)> = Vec::new();
        let mut i: usize = 0;
        proof {
            self.map.lemma_list();
            assert(self@.groups.dom() =~= self.map@.dom());
        }
        while i < n
            invariant
                self.wf(),
                n == list.len(),
                list == self.map.list(),
                self.map@ == map_of(list),
                keys_differ(list),
                i <= n,
                parts@.len() == i,
                forall|j: int|
                    0 <= j < i ==> part_of(
                        #[trigger] parts@[j],
                        list[j].0@,
                        self@.groups[list[j].0@],
                    ),
            decreases n - i,
        {
            proof {
                lemma_entry(list, i as int);
                assert(self.map@.contains_key(list[i as int].0@));
            }
            parts.push((self.map.key(i).len(), self.map.value(i).memory_bytes()));
            i += 1;
        }
        proof {
            let order = Seq::new(n as nat, |j: int| list[j].0@);
            assert forall|k: Seq<u8>| order.contains(k) <==> self@.groups.contains_key(k) by {
                if order.contains(k) {
                    let j = choose|j: int| 0 <= j < order.len() && order[j] == k;
                    lemma_entry(list, j);
                    assert(self.map@.contains_key(list[j].0@));
                }
                if self@.groups.contains_key(k) {
                    lemma_number(list, k);
                    assert(order[number_of(list, k)] == k);
                }
            }
            assert(self@.has_parts(order, parts@));
        }
        Self::held_bytes(&parts)
    }

    /// Clear all state, keeping configuration.
    pub fn reset(&mut self)
        requires
            old(self).wf(),
        ensures
            final(self).wf(),
            final(self)@ == HllGroups::empty(
                old(self)@.max_keys,
                old(self)@.precision,
                old(self)@.hash,
            ),
    {
        self.map = KeyMap::new();
        self.evicted_keys = 0;
        self.updates = 0;
        proof {
            self.map.lemma_list();
            assert(self@.groups =~= Map::empty());
        }
    }

    pub fn update_count(&self) -> (r: u64)
        ensures
            r == self@.updates,
    {
        self.updates
    }

    pub fn compatibility(&self) -> (r: SketchCompatibility)
        ensures
            r@ == self@.compat(),
    {
        SketchCompatibility {
            algorithm: ALGORITHM.to_owned(),
            version: 1,
            hash: self.hash,
            params_hash: self.params_hash(),
        }
    }

    pub fn to_snapshot(&self, window_start_nanos: u64, window_end_nanos: u64) -> (r: Vec<u8>)
        requires
            self.wf(),
        ensures
            r@ == self@.snapshot(window_start_nanos, window_end_nanos),
    {
        let ghost m = self@.groups;
        let mut params = Writer::new();
        params.u64(self.max_keys as u64);
        params.u8(self.precision);
        assert(params.buf@ =~= le(self.max_keys as nat, 8) + seq![self.precision]);
        let mut payload = Writer::new();
        payload.u64(self.updates);
        payload.u64(self.evicted_keys);
        payload.u32(self.len() as u32);
        let ghost lead = payload.buf@;
        let order = self.map.ascending();
        let ghost parts = group_parts(m, window_start_nanos, window_end_nanos);
        let ghost list = self.map.list();
        proof {
            self.map.lemma_list();
            assert(m.dom() =~= self.map@.dom());
        }
        let mut i: usize = 0;
        assert(lead + joined(parts.take(0)) =~= lead);
        while i < order.len()
            invariant
                self.wf(),
                m == as_groups(map_of(list)),
                list == self.map.list(),
                self.map@ == map_of(list),
                keys_differ(list),
                lists_range(order@, 0, list.len() as int),
                self.map.keys_of(order@) == listing(m.dom(), key_order()),
                parts == group_parts(m, window_start_nanos, window_end_nanos),
                i <= order.len(),
                payload.buf@ == lead + joined(parts.take(i as int)),
            decreases order.len() - i,
        {
            let p: usize = order[i];
            assert(p < list.len());
            let ghost start = payload.buf@;
            proof {
                lemma_entry(list, p as int);
                assert(self.map@.contains_key(list[p as int].0@));
            }
            payload.lp_bytes(self.map.key(p).as_slice());
            let inner = self.map.value(p).to_snapshot(window_start_nanos, window_end_nanos);
            payload.lp_bytes(inner.as_slice());
            proof {
                lemma_joined_step(parts, i as int);
                let names = self.map.keys_of(order@);
                assert(parts[i as int] == group_bytes(
                    names[i as int],
                    m[names[i as int]],
                    window_start_nanos,
                    window_end_nanos,
                ));
                assert(payload.buf@ =~= start + parts[i as int]);
                assert(payload.buf@ =~= lead + joined(parts.take(i + 1)));
            }
            i += 1;
        }
        assert(parts.take(i as int) =~= parts);
        assert(payload.buf@ =~= self@.payload(window_start_nanos, window_end_nanos));
        write_snapshot(
            &SnapshotHeader {
                version: SNAPSHOT_VERSION,
                algorithm_id: algorithm_id::HLL_MAP,
                hash: self.hash,
                window_start_nanos,
                window_end_nanos,
            },
            params.buf.as_slice(),
            payload.buf.as_slice(),
        )
    }

    pub fn from_snapshot(bytes: &[u8]) -> (r: Result<Self, SketchError>)
        ensures
            match HllGroups::from_snapshot(bytes@) {
                Ok(s) => r matches Ok(x) && x.wf() && x@ == s,
                Err(e) => r matches Err(x) && x@ == e,
            },
    {
        let (header, params, payload) = read_snapshot(bytes)?;
        if header.algorithm_id != algorithm_id::HLL_MAP {
            return Err(SketchError::Snapshot("not an hllmap snapshot".to_owned()));
        }
        let mut p = Reader::new(params.as_slice());
        let max_keys: usize = p.u64()? as usize;
        let precision: u8 = p.u8()?;
        let mut r = Reader::new(payload.as_slice());
        let updates: u64 = r.u64()?;
        let evicted_keys: u64 = r.u64()?;
        let n: usize = r.u32()? as usize;
        let mut map: KeyMap<HyperLogLog> = KeyMap::new();
        let ghost outcome = read_groups(payload@.skip(20), n as nat, Map::empty());
        proof {
            assert(r.rest() =~= payload@.skip(20));
            assert(as_groups(map@) =~= Map::empty());
        }
        let mut i: usize = 0;
        while i < n
            invariant
                i <= n,
                r.wf(),
                map.wf(),
                sketches_wf(map@),
                forall|k: Seq<u8>| #[trigger] map@.contains_key(k) ==> map@[k]@.shaped(),
                outcome == read_groups(r.rest(), (n - i) as nat, as_groups(map@)),
                match HllGroups::from_snapshot(bytes@) {
                    Ok(s) => outcome == Ok::<_, SketchErrorView>(s.groups),
                    Err(e) => outcome == Err::<Map<Seq<u8>, Hll>, _>(e),
                },
            decreases n - i,
        {
            let ghost rest = r.rest();
            let ghost len = le_value(rest.take(4)) as int;
            let ghost known = as_groups(map@);
            let ghost before = map@;
            let key = copy_bytes(r.lp_bytes()?);
            let ghost tail = r.rest();
            assert(tail =~= rest.skip(4 + len));
            let bytes_inner = r.lp_bytes()?;
            let inner = HyperLogLog::from_snapshot(bytes_inner)?;
            map.insert(key, inner);
            assert(as_groups(map@) =~= known.insert(key@, inner@));
            i += 1;
        }
        let s = HllMap { max_keys, precision, hash: header.hash, map, evicted_keys, updates };
        proof {
            s.map.lemma_list();
            assert(s@.groups.dom() =~= s.map@.dom());
        }
        Ok(s)
    }
}

pub proof fn lemma_inserted_shaped(s: Hll, item: Seq<u8>)
    requires
        s.shaped(),
        s.updates < u64::MAX,
    ensures
        s.inserted(item).shaped(),
{
    lemma_with_hash(s, hash_of(item, s.hash.seed));
}

// ---------------------------------------------------------------------------
// Laws
// ---------------------------------------------------------------------------

/// Insertions never let the map outgrow its bound.
pub proof fn law_insert_keeps_bound(s: HllGroups, key: Seq<u8>, item: Seq<u8>, victim: Seq<u8>)
    requires
        s.groups.dom().finite(),
        s.max_keys > 0,
        s.groups.dom().len() <= s.max_keys,
        s.groups.contains_key(victim),
    ensures
        !s.must_evict(key) ==> s.seen(key, item).groups.dom().len() <= s.max_keys,
        s.must_evict(key) ==> s.without(victim).seen(key, item).groups.dom().len() <= s.max_keys,
{
    assert(s.seen(key, item).groups.dom() =~= s.groups.dom().insert(key));
    assert(s.without(victim).seen(key, item).groups.dom() =~= s.groups.dom().remove(victim).insert(
        key,
    ));
}

/// A key that is larger than some other key is not the one that is evicted,
/// and its sketch stays as it is.
pub proof fn law_larger_keys_survive(
    s: HllGroups,
    sizes: Map<Seq<u8>, int>,
    victim: Seq<u8>,
    key: Seq<u8>,
    item: Seq<u8>,
    large: Seq<u8>,
    small: Seq<u8>,
)
    requires
        sizes.dom() == s.groups.dom(),
        is_smallest(sizes, victim),
        sizes.contains_key(large),
        sizes.contains_key(small),
        sizes[small] < sizes[large],
        large != key,
    ensures
        s.without(victim).seen(key, item).groups.contains_key(large),
        s.without(victim).seen(key, item).groups[large] == s.groups[large],
{
    assert(s.groups.dom().contains(large));
}

/// A merge keeps at most `max_keys` keys, and every key that it drops is no
/// larger than any key that it keeps.
pub proof fn law_merge_keeps_largest(
    a: HllGroups,
    b: HllGroups,
    sizes: Map<Seq<u8>, int>,
    kept: Seq<u8>,
    dropped: Seq<u8>,
)
    requires
        a.groups.dom().finite(),
        b.groups.dom().finite(),
        a.max_keys >= 0,
        sizes.dom() == joint_groups(a.groups, b.groups).dom(),
    ensures
        ({
            let m = a.merged(b, largest(sizes, a.max_keys));
            let union = joint_groups(a.groups, b.groups);
            &&& m.groups.dom().len() <= a.max_keys
            &&& m.groups.contains_key(kept) && union.contains_key(dropped)
                && !m.groups.contains_key(dropped) ==> sizes[dropped] <= sizes[kept]
        }),
{
    let union = joint_groups(a.groups, b.groups);
    assert(union.dom() =~= a.groups.dom().union(b.groups.dom()));
    let lt = count_order(sizes);
    lemma_count_order(sizes);
    lemma_listing_exists(sizes.dom(), lt);
    let order = listing(sizes.dom(), lt);
    lemma_listing_len(order, sizes.dom(), lt);
    let n = if a.max_keys < order.len() { a.max_keys } else { order.len() as int };
    let front = order.take(n);
    assert(front.no_duplicates()) by {
        assert forall|i: int, j: int|
            0 <= i < front.len() && 0 <= j < front.len() && i != j implies front[i] != front[j] by {
            assert(order[i] != order[j]);
        }
    }
    front.unique_seq_to_set();
    let m = a.merged(b, largest(sizes, a.max_keys));
    assert forall|k: Seq<u8>| front.to_set().contains(k) implies union.contains_key(k) by {
        let i = choose|i: int| 0 <= i < front.len() && front[i] == k;
        assert(order[i] == k);
        assert(order.contains(k));
        assert(sizes.dom().contains(k));
    }
    assert(m.groups.dom() =~= front.to_set());
    if m.groups.contains_key(kept) && union.contains_key(dropped) && !m.groups.contains_key(
        dropped,
    ) {
        let i = choose|i: int| 0 <= i < front.len() && front[i] == kept;
        assert(order[i] == kept);
        assert(sizes.dom().contains(dropped));
        let j = choose|j: int| 0 <= j < order.len() && order[j] == dropped;
        if j < n {
            assert(front[j] == dropped);
        }
        assert(lt(order[i], order[j]));
    }
}

/// Reading one group that was written.
proof fn lemma_group_read(
    k: Seq<u8>,
    snap: Seq<u8>,
    h: Hll,
    more: Seq<u8>,
    n: nat,
    known: Map<Seq<u8>, Hll>,
)
    requires
        n > 0,
        k.len() <= u32::MAX,
        snap.len() <= u32::MAX,
        Hll::from_snapshot(snap) == Ok::<Hll, SketchErrorView>(h),
    ensures
        read_groups(framed(k) + framed(snap) + more, n, known) == read_groups(
            more,
            (n - 1) as nat,
            known.insert(k, h),
        ),
{
    lemma_pow256_values();
    lemma_le_value_of_le(k.len(), 4);
    lemma_le_value_of_le(snap.len(), 4);
    let bytes = framed(k) + framed(snap) + more;
    let n = k.len() as int;
    let rest = le(snap.len(), 4) + snap + more;
    assert(bytes =~= le(k.len(), 4) + k + rest);
    assert(bytes.take(4) =~= le(k.len(), 4));
    assert(bytes.subrange(4, 4 + n) =~= k);
    assert(bytes.skip(4 + n) =~= rest);
    assert(rest.take(4) =~= le(snap.len(), 4));
    assert(rest.subrange(4, 4 + snap.len() as int) =~= snap);
    assert(rest.skip(4 + snap.len() as int) =~= more);
}

/// Reading groups that were written gives the groups.
proof fn lemma_groups_read_back(
    m: Map<Seq<u8>, Hll>,
    order: Seq<Seq<u8>>,
    known: Map<Seq<u8>, Hll>,
    window_start: u64,
    window_end: u64,
)
    requires
        forall|i: int| 0 <= i < order.len() ==> m.contains_key(#[trigger] order[i]),
        forall|i: int| 0 <= i < order.len() ==> (#[trigger] order[i]).len() <= u32::MAX,
        forall|k: Seq<u8>| #[trigger] m.contains_key(k) ==> m[k].shaped(),
    ensures
        ({
            let parts = Seq::new(
                order.len(),
                |i: int| group_bytes(order[i], m[order[i]], window_start, window_end),
            );
            read_groups(joined(parts), order.len(), known) == Ok::<_, SketchErrorView>(
                known.union_prefer_right(m.restrict(order.to_set())),
            )
        }),
    decreases order.len(),
{
    let parts = Seq::new(
        order.len(),
        |i: int| group_bytes(order[i], m[order[i]], window_start, window_end),
    );
    if order.len() == 0 {
        assert(known.union_prefer_right(m.restrict(order.to_set())) =~= known);
    } else {
        let k = order[0];
        let h = m[k];
        let snap = h.snapshot(window_start, window_end);
        let tail = order.drop_first();
        let tail_parts = Seq::new(
            tail.len(),
            |i: int| group_bytes(tail[i], m[tail[i]], window_start, window_end),
        );
        lemma_joined_first(parts);
        assert(parts.drop_first() =~= tail_parts);
        assert(m.contains_key(order[0]));
        law_hll_snapshot_round_trip(h, window_start, window_end);
        lemma_snapshot_len(h, window_start, window_end);
        assert(joined(parts) =~= framed(k) + framed(snap) + joined(tail_parts));
        lemma_group_read(k, snap, h, joined(tail_parts), order.len(), known);
        assert forall|i: int| 0 <= i < tail.len() implies m.contains_key(#[trigger] tail[i])
            && tail[i].len() <= u32::MAX by {
            assert(tail[i] == order[i + 1]);
        }
        let next = known.insert(k, h);
        lemma_groups_read_back(m, tail, next, window_start, window_end);
        assert(order.to_set() =~= tail.to_set().insert(k)) by {
            assert forall|x: Seq<u8>| order.contains(x) implies tail.contains(x) || x == k by {
                let i = choose|i: int| 0 <= i < order.len() && order[i] == x;
                if i > 0 {
                    assert(tail[i - 1] == x);
                }
            }
            assert forall|x: Seq<u8>| tail.contains(x) implies order.contains(x) by {
                let i = choose|i: int| 0 <= i < tail.len() && tail[i] == x;
                assert(order[i + 1] == x);
            }
            assert(order.contains(order[0]));
        }
        assert(next.union_prefer_right(m.restrict(tail.to_set())) =~= known.union_prefer_right(
            m.restrict(order.to_set()),
        ));
    }
}

proof fn lemma_snapshot_len(h: Hll, window_start: u64, window_end: u64)
    requires
        h.shaped(),
    ensures
        h.snapshot(window_start, window_end).len() <= 0x10_0000,
{
    law_hll_snapshot_round_trip(h, window_start, window_end);
    reveal(Hll::snapshot);
    let header = SnapshotHeader {
        version: SNAPSHOT_VERSION,
        algorithm_id: algorithm_id::HYPER_LOG_LOG,
        hash: h.hash,
        window_start_nanos: window_start,
        window_end_nanos: window_end,
    };
    crate::snapshot::lemma_snapshot_len(header, seq![h.precision], h.payload());
}

/// Reading a snapshot back gives the map that was written, for every map whose
/// keys and payload fit the format's length fields.
#[verifier::rlimit(60)]
#[verifier::spinoff_prover]
pub proof fn law_hll_map_snapshot_round_trip(s: HllGroups, window_start: u64, window_end: u64)
    requires
        s.shaped(),
        0 <= s.max_keys <= usize::MAX,
        0 <= s.evicted <= u64::MAX,
        0 <= s.updates <= u64::MAX,
        s.payload(window_start, window_end).len() <= u32::MAX,
        s.groups.dom().len() <= u32::MAX,
        forall|k: Seq<u8>| #[trigger] s.groups.contains_key(k) ==> k.len() <= u32::MAX,
    ensures
        HllGroups::from_snapshot(s.snapshot(window_start, window_end)) == Ok::<
            HllGroups,
            SketchErrorView,
        >(s),
{
    lemma_pow256_values();
    lemma_key_order();
    let dom = s.groups.dom();
    lemma_listing_exists(dom, key_order());
    let order = listing(dom, key_order());
    let params = le(s.max_keys as nat, 8) + seq![s.precision];
    let payload = s.payload(window_start, window_end);
    lemma_le_value_of_le(s.max_keys as nat, 8);
    lemma_le_value_of_le(s.evicted as nat, 8);
    lemma_le_value_of_le(s.updates as nat, 8);
    lemma_le_value_of_le(dom.len(), 4);
    law_snapshot_round_trip(
        SnapshotHeader {
            version: SNAPSHOT_VERSION,
            algorithm_id: algorithm_id::HLL_MAP,
            hash: s.hash,
            window_start_nanos: window_start,
            window_end_nanos: window_end,
        },
        params,
        payload,
    );
    assert(params.subrange(0, 8) =~= le(s.max_keys as nat, 8));
    assert(payload.subrange(0, 8) =~= le(s.updates as nat, 8));
    assert(payload.subrange(8, 16) =~= le(s.evicted as nat, 8));
    assert(payload.subrange(16, 20) =~= le(dom.len(), 4));
    assert(payload.skip(20) =~= joined(group_parts(s.groups, window_start, window_end)));
    assert forall|i: int| 0 <= i < order.len() implies s.groups.contains_key(#[trigger] order[i]) by {
        assert(order.contains(order[i]));
        assert(dom.contains(order[i]));
    }
    lemma_groups_read_back(s.groups, order, Map::empty(), window_start, window_end);
    assert(Map::<Seq<u8>, Hll>::empty().union_prefer_right(s.groups.restrict(order.to_set()))
        =~= s.groups) by {
        assert forall|k: Seq<u8>| dom.contains(k) implies order.to_set().contains(k) by {
            assert(order.contains(k));
        }
    }
}

} // verus!
