//! The mathematical model of SpaceSaving summaries.

use vstd::prelude::*;

use crate::algos::heap::{lemma_lower_total, lower, Rank};
use crate::bytes::{
    bytes_before, joined, le, le_value, lemma_joined_first, lemma_le_value_of_le,
    lemma_pow256_values,
};
use crate::error::SketchErrorView;
use crate::hash::{hash_of, HashSpec};
use crate::order::{
    ascends, is_listing, key_order, lemma_bytes_irreflexive, lemma_bytes_total,
    lemma_bytes_transitive, lemma_key_order, lemma_listing_exists, listing, strict_total,
};
use crate::sketch::Compat;
use crate::snapshot::{
    algorithm_id, count_error, field_at, framed, law_snapshot_round_trip, snapshot_bytes,
    snapshot_content, snapshot_err, SnapshotHeader, SNAPSHOT_VERSION,
};
use crate::text::dec;

verus! {

pub const ALGORITHM: &'static str = "spacesaving";

/// Domain separation of the digests that index the keys.
pub const DIGEST_DOMAIN: u64 = 0x5350_4143_4553_4156;

/// What is recorded of one key: an upper bound of its weight, and by how much
/// that bound may exceed the weight.
pub ghost struct Tally {
    pub count: int,
    pub error: int,
}

/// The mathematical state of a SpaceSaving summary.
#[verifier::ext_equal]
pub ghost struct Summary {
    pub capacity: int,
    pub hash: HashSpec,
    pub entries: Map<Seq<u8>, Tally>,
    pub total: int,
    pub updates: int,
}

/// The digest of a key under a hash seed.
pub open spec fn key_digest(seed: u64, key: Seq<u8>) -> u64 {
    hash_of(key, seed ^ DIGEST_DOMAIN)
}

/// The larger count first; among equal counts, keys in ascending order.
pub open spec fn outranks(m: Map<Seq<u8>, Tally>, a: Seq<u8>, b: Seq<u8>) -> bool {
    if m[a].count != m[b].count {
        m[a].count > m[b].count
    } else {
        bytes_before(a, b)
    }
}

pub open spec fn ranking_order(m: Map<Seq<u8>, Tally>) -> spec_fn(Seq<u8>, Seq<u8>) -> bool {
    |a: Seq<u8>, b: Seq<u8>| outranks(m, a, b)
}

pub proof fn lemma_ranking_order(m: Map<Seq<u8>, Tally>)
    ensures
        strict_total(ranking_order(m)),
{
    let lt = ranking_order(m);
    assert forall|a: Seq<u8>| !#[trigger] lt(a, a) by {
        lemma_bytes_irreflexive(a);
    }
    assert forall|a: Seq<u8>, b: Seq<u8>| a != b implies #[trigger] lt(a, b) || lt(b, a) by {
        lemma_bytes_total(a, b);
    }
    assert forall|a: Seq<u8>, b: Seq<u8>, c: Seq<u8>| #[trigger] lt(a, b) && #[trigger] lt(
        b,
        c,
    ) implies lt(a, c) by {
        if m[a].count == m[b].count && m[b].count == m[c].count {
            lemma_bytes_transitive(a, b, c);
        }
    }
}

/// The keys of `m` that come before `key` in the ranking.
pub open spec fn ahead_of(m: Map<Seq<u8>, Tally>, key: Seq<u8>) -> Set<Seq<u8>> {
    m.dom().filter(|j: Seq<u8>| outranks(m, j, key))
}

/// The first `n` keys of the ranking, with what is recorded of them.
pub open spec fn leaders(m: Map<Seq<u8>, Tally>, n: int) -> Map<Seq<u8>, Tally> {
    m.restrict(m.dom().filter(|k: Seq<u8>| ahead_of(m, k).len() < n))
}

impl Summary {
    pub open spec fn empty(capacity: int, hash: HashSpec) -> Summary {
        Summary { capacity, hash, entries: Map::empty(), total: 0, updates: 0 }
    }

    pub open spec fn rank(self, key: Seq<u8>) -> Rank {
        Rank { count: self.entries[key].count, digest: key_digest(self.hash.seed, key), key }
    }

    /// `key` is the tracked key of least count (ties broken by digest and
    /// bytes): the one that an eviction removes.
    pub open spec fn is_least(self, key: Seq<u8>) -> bool {
        &&& self.entries.contains_key(key)
        &&& forall|j: Seq<u8>| #[trigger]
            self.entries.contains_key(j) ==> !lower(self.rank(j), self.rank(key))
    }

    pub open spec fn least(self) -> Seq<u8> {
        choose|k: Seq<u8>| self.is_least(k)
    }

    /// The least tracked count, or zero if nothing is tracked.
    pub open spec fn minimum_count(self) -> int {
        if self.entries.dom().len() == 0 {
            0
        } else {
            self.entries[self.least()].count
        }
    }

    /// All numbers fit into 64 bits, and no error exceeds its count.
    pub open spec fn fits(self) -> bool {
        &&& forall|k: Seq<u8>| #[trigger]
            self.entries.contains_key(k) ==> 0 <= self.entries[k].error <= self.entries[k].count
                <= u64::MAX
        &&& 0 <= self.total <= u64::MAX
        &&& 0 <= self.updates <= u64::MAX
    }

    /// At most `capacity` keys are tracked.
    pub open spec fn bounded(self) -> bool {
        &&& self.capacity > 0
        &&& self.entries.dom().finite()
        &&& self.entries.dom().len() <= self.capacity
    }

    pub open spec fn is_full(self) -> bool {
        self.entries.dom().len() >= self.capacity
    }

    /// What is tracked after adding `weight` for `key`. A new key that finds
    /// no room replaces the least one and inherits its count as error.
    pub open spec fn entries_after(self, key: Seq<u8>, weight: int) -> Map<Seq<u8>, Tally> {
        if self.entries.contains_key(key) {
            self.entries.insert(
                key,
                Tally { count: self.entries[key].count + weight, ..self.entries[key] },
            )
        } else if !self.is_full() {
            self.entries.insert(key, Tally { count: weight, error: 0 })
        } else {
            let minimum = self.minimum_count();
            self.entries.remove(self.least()).insert(
                key,
                Tally { count: minimum + weight, error: minimum },
            )
        }
    }

    pub open spec fn added(self, key: Seq<u8>, weight: int) -> Summary {
        Summary {
            entries: self.entries_after(key, weight),
            total: self.total + weight,
            updates: self.updates + 1,
            ..self
        }
    }

    /// What an absent key is charged in a merge: a full summary may have
    /// dropped up to its least count of it.
    pub open spec fn absent_charge(self) -> int {
        if self.is_full() {
            self.minimum_count()
        } else {
            0
        }
    }

    /// What the summary says of `key`, tracked or not.
    pub open spec fn charge(self, key: Seq<u8>) -> Tally {
        if self.entries.contains_key(key) {
            self.entries[key]
        } else {
            Tally { count: self.absent_charge(), error: self.absent_charge() }
        }
    }

    /// The union of what two summaries track, before trimming.
    pub open spec fn combined(self, other: Summary) -> Map<Seq<u8>, Tally> {
        Map::new(
            |k: Seq<u8>| self.entries.contains_key(k) || other.entries.contains_key(k),
            |k: Seq<u8>|
                Tally {
                    count: self.charge(k).count + other.charge(k).count,
                    error: self.charge(k).error + other.charge(k).error,
                },
        )
    }

    /// The summary after merging `other`: counts and errors add, and the
    /// largest counts are kept.
    pub open spec fn merged(self, other: Summary) -> Summary {
        Summary {
            entries: leaders(self.combined(other), self.capacity),
            total: self.total + other.total,
            updates: self.updates + other.updates,
            ..self
        }
    }

    /// The sums of a merge fit into 64 bits.
    pub open spec fn merge_fits(self, other: Summary) -> bool {
        &&& forall|k: Seq<u8>| #[trigger]
            self.combined(other).contains_key(k) ==> self.combined(other)[k].count <= u64::MAX
        &&& self.total + other.total <= u64::MAX
        &&& self.updates + other.updates <= u64::MAX
    }

    pub open spec fn compat(self) -> Compat {
        Compat {
            algorithm: ALGORITHM@,
            version: 1,
            hash: self.hash,
            params_hash: hash_of(le(self.capacity as nat, 8), 0),
        }
    }

    /// The state after a stream of additions, first to last.
    pub open spec fn fed(self, stream: Seq<(Seq<u8>, int)>) -> Summary
        decreases stream.len(),
    {
        if stream.len() == 0 {
            self
        } else {
            self.fed(stream.drop_last()).added(stream.last().0, stream.last().1)
        }
    }
}

/// At most one key is least.
pub proof fn lemma_least_unique(s: Summary, a: Seq<u8>)
    requires
        s.is_least(a),
    ensures
        s.least() == a,
{
    let b = s.least();
    assert(s.is_least(b));
    lemma_lower_total(s.rank(a), s.rank(b));
    assert(s.rank(a).key == a);
}

/// In the ranking of `m`, the key at place `i` has `i` keys ahead of it.
pub proof fn lemma_place(m: Map<Seq<u8>, Tally>, s: Seq<Seq<u8>>, i: int)
    requires
        is_listing(s, m.dom(), ranking_order(m)),
        0 <= i < s.len(),
    ensures
        ahead_of(m, s[i]).len() == i,
        m.contains_key(s[i]),
{
    let lt = ranking_order(m);
    lemma_ranking_order(m);
    assert(s.contains(s[i]));
    assert(m.dom().contains(s[i]));
    let front = s.take(i);
    lemma_listing_distinct(s, lt);
    assert forall|a: int, b: int| 0 <= a < front.len() && 0 <= b < front.len() && a != b implies front[a]
        != front[b] by {
        assert(s[a] != s[b]);
    }
    front.unique_seq_to_set();
    assert forall|k: Seq<u8>| #[trigger] ahead_of(m, s[i]).contains(k) <==> front.to_set().contains(
        k,
    ) by {
        if ahead_of(m, s[i]).contains(k) {
            assert(m.dom().contains(k));
            assert(s.contains(k));
            let p = choose|p: int| 0 <= p < s.len() && s[p] == k;
            assert(lt(s[p], s[i]));
            if p >= i {
                if p > i {
                    assert(lt(s[i], s[p]));
                    assert(lt(s[p], s[p]));
                }
            }
            assert(front[p] == k);
        }
        if front.contains(k) {
            let p = choose|p: int| 0 <= p < front.len() && front[p] == k;
            assert(s[p] == k);
            assert(lt(s[p], s[i]));
            assert(s.contains(k));
            assert(m.dom().contains(k));
        }
    }
    assert(ahead_of(m, s[i]) =~= front.to_set());
}

proof fn lemma_listing_distinct(s: Seq<Seq<u8>>, lt: spec_fn(Seq<u8>, Seq<u8>) -> bool)
    requires
        strict_total(lt),
        crate::order::ascends(s, lt),
    ensures
        s.no_duplicates(),
{
    assert forall|a: int, b: int| 0 <= a < s.len() && 0 <= b < s.len() && a != b implies s[a]
        != s[b] by {
        if a < b {
            assert(lt(s[a], s[b]));
        } else {
            assert(lt(s[b], s[a]));
        }
    }
}

/// The leaders are the front of the ranking.
pub proof fn lemma_leaders(m: Map<Seq<u8>, Tally>, s: Seq<Seq<u8>>, n: int)
    requires
        is_listing(s, m.dom(), ranking_order(m)),
        0 <= n,
    ensures
        leaders(m, n) == m.restrict(s.take(if n < s.len() { n } else { s.len() as int }).to_set()),
{
    let cut = if n < s.len() { n } else { s.len() as int };
    let kept = s.take(cut).to_set();
    assert forall|k: Seq<u8>| leaders(m, n).contains_key(k) <==> m.restrict(kept).contains_key(k) by {
        if m.dom().contains(k) {
            assert(s.contains(k));
            let p = choose|p: int| 0 <= p < s.len() && s[p] == k;
            lemma_place(m, s, p);
            if p < cut {
                assert(s.take(cut)[p] == k);
            }
            if kept.contains(k) {
                let q = choose|q: int| 0 <= q < cut && s.take(cut)[q] == k;
                assert(s[q] == k);
                lemma_place(m, s, q);
            }
        }
    }
    assert(leaders(m, n) =~= m.restrict(kept));
}

// ---------------------------------------------------------------------------
// Snapshots
// ---------------------------------------------------------------------------

/// One tracked key in a snapshot.
pub open spec fn entry_bytes(key: Seq<u8>, t: Tally) -> Seq<u8> {
    framed(key) + le(t.count as nat, 8) + le(t.error as nat, 8)
}

/// The tracked keys in ascending order.
pub open spec fn entry_parts(m: Map<Seq<u8>, Tally>) -> Seq<Seq<u8>> {
    let order = listing(m.dom(), key_order());
    Seq::new(order.len(), |i: int| entry_bytes(order[i], m[order[i]]))
}

/// What `n` entries at the start of `rest` add to `known`, or why they cannot
/// be taken.
pub open spec fn read_entries(rest: Seq<u8>, n: nat, known: Map<Seq<u8>, Tally>) -> Result<
    Map<Seq<u8>, Tally>,
    SketchErrorView,
>
    decreases n,
{
    let len = le_value(rest.take(4)) as int;
    let key = rest.subrange(4, 4 + len);
    let count = field_at(rest, 4 + len, 8);
    let error = field_at(rest, 12 + len, 8);
    if n == 0 {
        Ok(known)
    } else if rest.len() < 4 || rest.len() < 20 + len {
        snapshot_err("unexpected end of snapshot"@)
    } else if error > count {
        snapshot_err(
            "spacesaving snapshot entry error "@ + dec(error) + " exceeds count "@ + dec(count),
        )
    } else if known.contains_key(key) {
        snapshot_err("spacesaving snapshot contains a duplicate key"@)
    } else {
        read_entries(
            rest.skip(20 + len),
            (n - 1) as nat,
            known.insert(key, Tally { count: count as int, error: error as int }),
        )
    }
}

impl Summary {
    pub open spec fn payload(self) -> Seq<u8> {
        le(self.total as nat, 8) + le(self.updates as nat, 8) + le(
            self.entries.dom().len() as u32 as nat,
            4,
        ) + joined(entry_parts(self.entries))
    }

    /// The snapshot of the state for a window.
    pub open spec fn snapshot(self, window_start: u64, window_end: u64) -> Seq<u8> {
        snapshot_bytes(
            SnapshotHeader {
                version: SNAPSHOT_VERSION,
                algorithm_id: algorithm_id::SPACE_SAVING,
                hash: self.hash,
                window_start_nanos: window_start,
                window_end_nanos: window_end,
            },
            le(self.capacity as nat, 8),
            self.payload(),
        )
    }

    /// The state that a snapshot denotes, or why it denotes none.
    pub open spec fn from_snapshot(bytes: Seq<u8>) -> Result<Summary, SketchErrorView> {
        match snapshot_content(bytes) {
            Err(e) => Err(e),
            Ok((header, params, payload)) => {
                let capacity = field_at(params, 0, 8);
                let n = field_at(payload, 16, 4);
                if header.algorithm_id != algorithm_id::SPACE_SAVING {
                    snapshot_err("not a spacesaving snapshot"@)
                } else if params.len() < 8 {
                    snapshot_err("unexpected end of snapshot"@)
                } else if capacity > usize::MAX {
                    snapshot_err(
                        "spacesaving snapshot capacity "@ + dec(capacity)
                            + " does not fit this platform"@,
                    )
                } else if capacity == 0 {
                    snapshot_err("spacesaving snapshot capacity must be positive"@)
                } else if payload.len() < 20 {
                    snapshot_err("unexpected end of snapshot"@)
                } else if n > capacity {
                    snapshot_err(
                        "spacesaving snapshot entry count "@ + dec(n) + " exceeds capacity "@ + dec(
                            capacity,
                        ),
                    )
                } else if 20 * n > payload.len() - 20 {
                    Err(count_error(n, (payload.len() - 20) as nat))
                } else {
                    match read_entries(payload.skip(20), n, Map::empty()) {
                        Err(e) => Err(e),
                        Ok(entries) => Ok(
                            Summary {
                                capacity: capacity as int,
                                hash: header.hash,
                                entries,
                                total: field_at(payload, 0, 8) as int,
                                updates: field_at(payload, 8, 8) as int,
                            },
                        ),
                    }
                }
            },
        }
    }
}

/// Reading entries that were written gives the entries.
proof fn lemma_entries_read_back(
    m: Map<Seq<u8>, Tally>,
    order: Seq<Seq<u8>>,
    known: Map<Seq<u8>, Tally>,
)
    requires
        order.no_duplicates(),
        forall|i: int| 0 <= i < order.len() ==> m.contains_key(#[trigger] order[i]),
        forall|i: int| 0 <= i < order.len() ==> !known.contains_key(#[trigger] order[i]),
        forall|i: int| 0 <= i < order.len() ==> (#[trigger] order[i]).len() <= u32::MAX,
        forall|k: Seq<u8>| #[trigger]
            m.contains_key(k) ==> 0 <= m[k].error <= m[k].count <= u64::MAX,
    ensures
        ({
            let parts = Seq::new(order.len(), |i: int| entry_bytes(order[i], m[order[i]]));
            read_entries(joined(parts), order.len(), known) == Ok::<_, SketchErrorView>(
                known.union_prefer_right(m.restrict(order.to_set())),
            )
        }),
    decreases order.len(),
{
    let parts = Seq::new(order.len(), |i: int| entry_bytes(order[i], m[order[i]]));
    if order.len() == 0 {
        assert(known.union_prefer_right(m.restrict(order.to_set())) =~= known);
    } else {
        let k = order[0];
        let t = m[k];
        let tail = order.drop_first();
        let tail_parts = Seq::new(tail.len(), |i: int| entry_bytes(tail[i], m[tail[i]]));
        lemma_joined_first(parts);
        assert(parts.drop_first() =~= tail_parts);
        assert(m.contains_key(order[0]));
        lemma_pow256_values();
        lemma_le_value_of_le(k.len(), 4);
        lemma_le_value_of_le(t.count as nat, 8);
        lemma_le_value_of_le(t.error as nat, 8);
        let bytes = joined(parts);
        assert(bytes =~= entry_bytes(k, t) + joined(tail_parts));
        assert(bytes.take(4) =~= le(k.len(), 4));
        let n = k.len() as int;
        assert(bytes.subrange(4, 4 + n) =~= k);
        assert(bytes.subrange(4 + n, 4 + n + 8) =~= le(t.count as nat, 8));
        assert(bytes.subrange(12 + n, 12 + n + 8) =~= le(t.error as nat, 8));
        assert(bytes.skip(20 + n) =~= joined(tail_parts));
        let next = known.insert(k, t);
        assert forall|i: int| 0 <= i < tail.len() implies !next.contains_key(#[trigger] tail[i]) by {
            assert(tail[i] == order[i + 1]);
        }
        assert forall|i: int| 0 <= i < tail.len() implies m.contains_key(#[trigger] tail[i])
            && tail[i].len() <= u32::MAX by {
            assert(tail[i] == order[i + 1]);
        }
        assert(tail.no_duplicates()) by {
            assert forall|i: int, j: int|
                0 <= i < tail.len() && 0 <= j < tail.len() && i != j implies tail[i] != tail[j] by {
                assert(order[i + 1] != order[j + 1]);
            }
        }
        lemma_entries_read_back(m, tail, next);
        assert(order.to_set() =~= tail.to_set().insert(k)) by {
            assert forall|x: Seq<u8>| order.contains(x) implies tail.contains(x) || x == k by {
                let i = choose|i: int| 0 <= i < order.len() && order[i] == x;
                if i > 0 {
                    assert(tail[i - 1] == x);
                }
            }
            assert forall|x: Seq<u8>| tail.contains(x) implies order.contains(x) by {
                let i = choose|i: int| 0 <= i < tail.len() && tail[i] == x;
                assert(order[i + 1] == x);
            }
            assert(order.contains(order[0]));
        }
        assert(t == Tally { count: t.count as nat as int, error: t.error as nat as int });
        assert(!tail.contains(k)) by {
            if tail.contains(k) {
                let i = choose|i: int| 0 <= i < tail.len() && tail[i] == k;
                assert(order[i + 1] == order[0]);
            }
        }
        assert(next.union_prefer_right(m.restrict(tail.to_set())) =~= known.union_prefer_right(
            m.restrict(order.to_set()),
        ));
    }
}

/// Entries take at least twenty bytes each.
proof fn lemma_entries_size(m: Map<Seq<u8>, Tally>, order: Seq<Seq<u8>>)
    ensures
        joined(
            Seq::new(order.len(), |i: int| entry_bytes(order[i], m[order[i]])),
        ).len() >= 20 * order.len(),
    decreases order.len(),
{
    let parts = Seq::new(order.len(), |i: int| entry_bytes(order[i], m[order[i]]));
    if order.len() > 0 {
        let front = order.drop_last();
        lemma_entries_size(m, front);
        assert(parts.drop_last() =~= Seq::new(
            front.len(),
            |i: int| entry_bytes(front[i], m[front[i]]),
        ));
        crate::bytes::lemma_le_len(order.last().len() as u32 as nat, 4);
        crate::bytes::lemma_le_len(m[order.last()].count as nat, 8);
        crate::bytes::lemma_le_len(m[order.last()].error as nat, 8);
    }
}

/// Reading a snapshot back gives the summary that was written, for every
/// summary whose keys and payload fit the format's length fields.
pub proof fn law_space_saving_snapshot_round_trip(
    s: Summary,
    window_start: u64,
    window_end: u64,
)
    requires
        s.bounded(),
        s.fits(),
        s.capacity <= usize::MAX,
        s.payload().len() <= u32::MAX,
        s.entries.dom().len() <= u32::MAX,
        forall|k: Seq<u8>| #[trigger] s.entries.contains_key(k) ==> k.len() <= u32::MAX,
    ensures
        Summary::from_snapshot(s.snapshot(window_start, window_end)) == Ok::<
            Summary,
            SketchErrorView,
        >(s),
{
    lemma_pow256_values();
    lemma_key_order();
    let dom = s.entries.dom();
    lemma_listing_exists(dom, key_order());
    let order = listing(dom, key_order());
    lemma_listing_distinct(order, key_order());
    let params = le(s.capacity as nat, 8);
    let payload = s.payload();
    lemma_le_value_of_le(s.capacity as nat, 8);
    lemma_le_value_of_le(s.total as nat, 8);
    lemma_le_value_of_le(s.updates as nat, 8);
    lemma_le_value_of_le(dom.len(), 4);
    law_snapshot_round_trip(
        SnapshotHeader {
            version: SNAPSHOT_VERSION,
            algorithm_id: algorithm_id::SPACE_SAVING,
            hash: s.hash,
            window_start_nanos: window_start,
            window_end_nanos: window_end,
        },
        params,
        payload,
    );
    assert(params.subrange(0, 8) =~= params);
    assert(payload.subrange(0, 8) =~= le(s.total as nat, 8));
    assert(payload.subrange(8, 16) =~= le(s.updates as nat, 8));
    assert(payload.subrange(16, 20) =~= le(dom.len(), 4));
    assert(payload.skip(20) =~= joined(entry_parts(s.entries)));
    lemma_entries_size(s.entries, order);
    assert forall|i: int| 0 <= i < order.len() implies s.entries.contains_key(#[trigger] order[i]) by {
        assert(order.contains(order[i]));
        assert(dom.contains(order[i]));
    }
    lemma_entries_read_back(s.entries, order, Map::empty());
    assert(Map::<Seq<u8>, Tally>::empty().union_prefer_right(s.entries.restrict(order.to_set()))
        =~= s.entries) by {
        assert forall|k: Seq<u8>| dom.contains(k) implies order.to_set().contains(k) by {
            assert(order.contains(k));
        }
    }
}

} // verus!
