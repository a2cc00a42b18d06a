//! What a HyperLogLog remembers is decided by the set of hashes it has seen:
//! not by their order, by repetitions, or by how streams were split.

use vstd::prelude::*;

use crate::algos::hll::{
    first_above, hashes_of, insertion_point, larger, law_hll_snapshot_round_trip,
    law_registers_of_stream, lemma_insertion_point, lemma_register_bounds, lemma_with_hash,
    lemma_with_hashes, max_rank, raised, raised_all, register_count, register_index, register_rank,
    sparse_limit_of, strictly_ascending, valid_precision, zeros, Hll, Memory, STORAGE_DENSE,
    STORAGE_SPARSE,
};
use crate::algos::table::{lemma_words_index, lemma_words_len, words};
use crate::bytes::{lemma_le_of_le_value, lemma_pow256_values};
use crate::error::SketchErrorView;
use crate::hash::{hash_of, HashSpec};
use crate::snapshot::{
    algorithm_id, field_at, law_snapshot_round_trip, snapshot_content, SnapshotHeader,
    SNAPSHOT_VERSION,
};

verus! {

/// Per register the highest rank of the hashes seen that belong to it.
pub open spec fn registers_of(r: Seq<u8>, p: u8, seen: Set<u64>) -> bool {
    &&& r.len() == register_count(p)
    &&& forall|i: int|
        0 <= i < r.len() ==> #[trigger] r[i] == 0 || exists|h: u64|
            seen.contains(h) && register_index(p, h) == i && #[trigger] register_rank(p, h) == r[i]
    &&& forall|h: u64| #[trigger]
        seen.contains(h) ==> register_rank(p, h) <= r[register_index(p, h)]
}

/// The state is that of a sketch that has seen these hashes: all of them are
/// kept while they are few, and else the registers.
pub open spec fn remembers(s: Hll, seen: Set<u64>) -> bool {
    &&& s.shaped()
    &&& seen.finite()
    &&& match s.memory {
        Memory::Hashes(v) => v.to_set() == seen,
        Memory::Registers(r) => seen.len() > sparse_limit_of(s.precision) && registers_of(
            r,
            s.precision,
            seen,
        ),
    }
}

proof fn lemma_registers_unique(a: Seq<u8>, b: Seq<u8>, p: u8, seen: Set<u64>)
    requires
        registers_of(a, p, seen),
        registers_of(b, p, seen),
    ensures
        a == b,
{
    assert forall|i: int| 0 <= i < a.len() implies a[i] == b[i] by {
        if a[i] > b[i] {
            let h = choose|h: u64|
                seen.contains(h) && register_index(p, h) == i && #[trigger] register_rank(p, h)
                    == a[i];
            assert(register_rank(p, h) <= b[register_index(p, h)]);
        }
        if b[i] > a[i] {
            let h = choose|h: u64|
                seen.contains(h) && register_index(p, h) == i && #[trigger] register_rank(p, h)
                    == b[i];
            assert(register_rank(p, h) <= a[register_index(p, h)]);
        }
    }
    assert(a =~= b);
}

proof fn lemma_raised_registers(r: Seq<u8>, p: u8, seen: Set<u64>, h: u64)
    requires
        valid_precision(p),
        registers_of(r, p, seen),
    ensures
        registers_of(raised(r, p, h), p, seen.insert(h)),
{
    lemma_register_bounds(p, h);
    let after = raised(r, p, h);
    let more = seen.insert(h);
    assert forall|i: int| 0 <= i < after.len() implies #[trigger] after[i] == 0 || exists|g: u64|
        more.contains(g) && register_index(p, g) == i && #[trigger] register_rank(p, g)
            == after[i] by {
        if after[i] != r[i] {
            assert(more.contains(h) && register_index(p, h) == i && register_rank(p, h)
                == after[i]);
        } else if r[i] != 0 {
            let g = choose|g: u64|
                seen.contains(g) && register_index(p, g) == i && #[trigger] register_rank(p, g)
                    == r[i];
            assert(more.contains(g) && register_rank(p, g) == after[i]);
        }
    }
    assert forall|g: u64| #[trigger] more.contains(g) implies register_rank(p, g)
        <= after[register_index(p, g)] by {
        lemma_register_bounds(p, g);
        if g != h {
            assert(seen.contains(g));
        }
    }
}

proof fn lemma_larger_registers(a: Seq<u8>, b: Seq<u8>, p: u8, s: Set<u64>, t: Set<u64>)
    requires
        valid_precision(p),
        registers_of(a, p, s),
        registers_of(b, p, t),
    ensures
        registers_of(larger(a, b), p, s.union(t)),
{
    let after = larger(a, b);
    let more = s.union(t);
    assert forall|i: int| 0 <= i < after.len() implies #[trigger] after[i] == 0 || exists|g: u64|
        more.contains(g) && register_index(p, g) == i && #[trigger] register_rank(p, g)
            == after[i] by {
        if after[i] != 0 {
            if b[i] > a[i] {
                let g = choose|g: u64|
                    t.contains(g) && register_index(p, g) == i && #[trigger] register_rank(p, g)
                        == b[i];
                assert(more.contains(g) && register_rank(p, g) == after[i]);
            } else {
                let g = choose|g: u64|
                    s.contains(g) && register_index(p, g) == i && #[trigger] register_rank(p, g)
                        == a[i];
                assert(more.contains(g) && register_rank(p, g) == after[i]);
            }
        }
    }
    assert forall|g: u64| #[trigger] more.contains(g) implies register_rank(p, g)
        <= after[register_index(p, g)] by {
        lemma_register_bounds(p, g);
        if s.contains(g) {
            assert(register_rank(p, g) <= a[register_index(p, g)]);
        } else {
            assert(t.contains(g));
            assert(register_rank(p, g) <= b[register_index(p, g)]);
        }
    }
}

proof fn lemma_pushed_set(v: Seq<u64>)
    requires
        v.len() > 0,
    ensures
        v.to_set() == v.drop_last().to_set().insert(v.last()),
{
    assert forall|x: u64| v.to_set().contains(x) implies v.drop_last().to_set().insert(
        v.last(),
    ).contains(x) by {
        let i = choose|i: int| 0 <= i < v.len() && v[i] == x;
        if i < v.len() - 1 {
            assert(v.drop_last()[i] == x);
        }
    }
    assert forall|x: u64| v.drop_last().to_set().insert(v.last()).contains(x) implies
        v.to_set().contains(x) by {
        if x == v.last() {
            assert(v[v.len() - 1] == x);
        } else {
            let i = choose|i: int| 0 <= i < v.drop_last().len() && v.drop_last()[i] == x;
            assert(v[i] == x);
        }
    }
    assert(v.to_set() =~= v.drop_last().to_set().insert(v.last()));
}

proof fn lemma_registers_of_hashes(p: u8, v: Seq<u64>)
    requires
        valid_precision(p),
    ensures
        registers_of(raised_all(zeros(p), p, v), p, v.to_set()),
    decreases v.len(),
{
    if v.len() == 0 {
        lemma_register_bounds(p, 0);
        assert(v.to_set() =~= Set::empty());
    } else {
        lemma_registers_of_hashes(p, v.drop_last());
        lemma_raised_registers(
            raised_all(zeros(p), p, v.drop_last()),
            p,
            v.drop_last().to_set(),
            v.last(),
        );
        lemma_pushed_set(v);
    }
}

/// The registers of a state, kept or not, are those of the hashes seen.
proof fn lemma_registers(s: Hll, seen: Set<u64>)
    requires
        remembers(s, seen),
    ensures
        registers_of(s.registers(), s.precision, seen),
{
    if let Memory::Hashes(v) = s.memory {
        lemma_registers_of_hashes(s.precision, v);
    }
}

proof fn lemma_ascending_len(v: Seq<u64>)
    requires
        strictly_ascending(v),
    ensures
        v.to_set().len() == v.len(),
        v.to_set().finite(),
{
    assert(v.no_duplicates());
    v.unique_seq_to_set();
}

proof fn lemma_ascending_unique(a: Seq<u64>, b: Seq<u64>)
    requires
        strictly_ascending(a),
        strictly_ascending(b),
        a.to_set() == b.to_set(),
    ensures
        a == b,
    decreases a.len(),
{
    lemma_ascending_len(a);
    lemma_ascending_len(b);
    if a.len() > 0 {
        let x = a.last();
        let y = b.last();
        assert(a.to_set().contains(x)) by {
            assert(a[a.len() - 1] == x);
        }
        assert(b.to_set().contains(y)) by {
            assert(b[b.len() - 1] == y);
        }
        let i = choose|i: int| 0 <= i < b.len() && b[i] == x;
        let j = choose|j: int| 0 <= j < a.len() && a[j] == y;
        assert(x == y);
        let c = a.drop_last();
        let d = b.drop_last();
        lemma_pushed_set(a);
        lemma_pushed_set(b);
        assert(!c.to_set().contains(x));
        assert(!d.to_set().contains(x));
        assert(c.to_set() =~= a.to_set().remove(x));
        assert(d.to_set() =~= b.to_set().remove(x));
        lemma_ascending_unique(c, d);
        assert(a =~= c.push(x));
        assert(b =~= d.push(x));
    } else {
        assert(a =~= b);
    }
}

/// The hashes seen decide what is remembered.
pub proof fn law_memory_is_decided_by_the_hashes(a: Hll, b: Hll, seen: Set<u64>)
    requires
        remembers(a, seen),
        remembers(b, seen),
        a.precision == b.precision,
    ensures
        a.memory == b.memory,
{
    match (a.memory, b.memory) {
        (Memory::Hashes(v), Memory::Hashes(w)) => {
            lemma_ascending_unique(v, w);
        },
        (Memory::Registers(r), Memory::Registers(q)) => {
            lemma_registers_unique(r, q, a.precision, seen);
        },
        (Memory::Hashes(v), Memory::Registers(_)) => {
            lemma_ascending_len(v);
        },
        (Memory::Registers(_), Memory::Hashes(w)) => {
            lemma_ascending_len(w);
        },
    }
}

proof fn lemma_remembers_one_more(s: Hll, seen: Set<u64>, h: u64)
    requires
        remembers(s, seen),
    ensures
        remembers(s.with_hash(h), seen.insert(h)),
{
    let p = s.precision;
    lemma_with_hash(s, h);
    lemma_registers(s, seen);
    lemma_raised_registers(s.registers(), p, seen, h);
    match s.memory {
        Memory::Hashes(v) => {
            lemma_ascending_len(v);
            if v.contains(h) {
                assert(seen.contains(h));
                assert(seen.insert(h) =~= seen);
            } else {
                assert(!seen.contains(h));
                lemma_insertion_point(v, h);
                let at = insertion_point(v, h);
                let w = v.insert(at, h);
                assert forall|x: u64| w.to_set().contains(x) implies seen.insert(h).contains(
                    x,
                ) by {
                    let i = choose|i: int| 0 <= i < w.len() && w[i] == x;
                    if i < at {
                        assert(v[i] == x);
                    } else if i > at {
                        assert(v[i - 1] == x);
                    }
                }
                assert forall|x: u64| seen.insert(h).contains(x) implies w.to_set().contains(
                    x,
                ) by {
                    if x == h {
                        assert(w[at] == x);
                    } else {
                        let i = choose|i: int| 0 <= i < v.len() && v[i] == x;
                        if i < at {
                            assert(w[i] == x);
                        } else {
                            assert(w[i + 1] == x);
                        }
                    }
                }
                assert(w.to_set() =~= seen.insert(h));
            }
        },
        Memory::Registers(_) => {},
    }
}

proof fn lemma_remembers_more(s: Hll, seen: Set<u64>, hashes: Seq<u64>)
    requires
        remembers(s, seen),
    ensures
        remembers(s.with_hashes(hashes), seen.union(hashes.to_set())),
    decreases hashes.len(),
{
    if hashes.len() == 0 {
        assert(seen.union(hashes.to_set()) =~= seen);
    } else {
        let front = hashes.drop_last();
        lemma_remembers_more(s, seen, front);
        lemma_remembers_one_more(
            s.with_hashes(front),
            seen.union(front.to_set()),
            hashes.last(),
        );
        lemma_pushed_set(hashes);
        assert(seen.union(front.to_set()).insert(hashes.last()) =~= seen.union(hashes.to_set()));
    }
}

/// A merge remembers what either sketch has seen.
pub proof fn law_merge_remembers_both(a: Hll, b: Hll, s: Set<u64>, t: Set<u64>)
    requires
        remembers(a, s),
        remembers(b, t),
        a.precision == b.precision,
        a.updates + b.updates <= u64::MAX,
    ensures
        remembers(a.merged(b), s.union(t)),
{
    match b.memory {
        Memory::Hashes(w) => {
            lemma_remembers_more(a, s, w);
            lemma_with_hashes(a, w);
        },
        Memory::Registers(r) => {
            lemma_with_hash(a, 0);
            lemma_registers(a, s);
            lemma_larger_registers(a.registers(), r, a.precision, s, t);
            vstd::set_lib::lemma_len_subset(t, s.union(t));
            lemma_ranks_in_range(a.merged(b), s.union(t));
        },
    }
}

/// Registers of hashes are in range.
proof fn lemma_ranks_in_range(s: Hll, seen: Set<u64>)
    requires
        valid_precision(s.precision),
        s.memory is Registers,
        registers_of(s.memory->Registers_0, s.precision, seen),
    ensures
        forall|i: int|
            0 <= i < s.memory->Registers_0.len() ==> #[trigger] s.memory->Registers_0[i]
                <= max_rank(s.precision),
{
    let r = s.memory->Registers_0;
    let p = s.precision;
    lemma_register_bounds(p, 0);
    assert forall|i: int| 0 <= i < r.len() implies #[trigger] r[i] <= max_rank(p) by {
        if r[i] != 0 {
            let h = choose|h: u64|
                seen.contains(h) && register_index(p, h) == i && #[trigger] register_rank(p, h)
                    == r[i];
            lemma_register_bounds(p, h);
        }
    }
}

/// The hashes of keys, as a set.
pub open spec fn hash_set(keys: Seq<Seq<u8>>, seed: u64) -> Set<u64> {
    hashes_of(keys, seed).to_set()
}

/// After a stream a sketch remembers the hashes of its keys.
pub proof fn law_stream_is_remembered(p: u8, hash: HashSpec, keys: Seq<Seq<u8>>)
    requires
        valid_precision(p),
        keys.len() <= u64::MAX,
    ensures
        remembers(Hll::empty(p, hash).fed(keys), hash_set(keys, hash.seed)),
    decreases keys.len(),
{
    let hashes = hashes_of(keys, hash.seed);
    law_registers_of_stream(p, hash, keys);
    if keys.len() == 0 {
        assert(hashes.to_set() =~= Set::empty());
        assert(Seq::<u64>::empty().to_set() =~= Set::empty());
    } else {
        let front = keys.drop_last();
        law_stream_is_remembered(p, hash, front);
        law_registers_of_stream(p, hash, front);
        lemma_remembers_one_more(
            Hll::empty(p, hash).fed(front),
            hash_set(front, hash.seed),
            hash_of(keys.last(), hash.seed),
        );
        assert(hashes.drop_last() =~= hashes_of(front, hash.seed));
        lemma_pushed_set(hashes);
    }
}

/// Two sketches that were fed the same hashes, equally often updated, are in
/// the same state.
proof fn lemma_same_state(p: u8, hash: HashSpec, a: Seq<Seq<u8>>, b: Seq<Seq<u8>>)
    requires
        valid_precision(p),
        a.len() == b.len() <= u64::MAX,
        hash_set(a, hash.seed) == hash_set(b, hash.seed),
    ensures
        Hll::empty(p, hash).fed(a) == Hll::empty(p, hash).fed(b),
{
    let s = Hll::empty(p, hash);
    law_registers_of_stream(p, hash, a);
    law_registers_of_stream(p, hash, b);
    law_stream_is_remembered(p, hash, a);
    law_stream_is_remembered(p, hash, b);
    law_memory_is_decided_by_the_hashes(s.fed(a), s.fed(b), hash_set(a, hash.seed));
}

proof fn lemma_concat_set(a: Seq<u64>, b: Seq<u64>)
    ensures
        (a + b).to_set() == a.to_set().union(b.to_set()),
{
    assert forall|x: u64| (a + b).to_set().contains(x) implies a.to_set().union(
        b.to_set(),
    ).contains(x) by {
        let i = choose|i: int| 0 <= i < (a + b).len() && (a + b)[i] == x;
        if i < a.len() {
            assert(a[i] == x);
        } else {
            assert(b[i - a.len()] == x);
        }
    }
    assert forall|x: u64| a.to_set().union(b.to_set()).contains(x) implies (a
        + b).to_set().contains(x) by {
        if a.to_set().contains(x) {
            let i = choose|i: int| 0 <= i < a.len() && a[i] == x;
            assert((a + b)[i] == x);
        } else {
            let i = choose|i: int| 0 <= i < b.len() && b[i] == x;
            assert((a + b)[a.len() + i] == x);
        }
    }
    assert((a + b).to_set() =~= a.to_set().union(b.to_set()));
}

/// Merging the sketches of two streams gives the sketch of one stream
/// followed by the other: what is kept and the number of updates, and so the
/// snapshot.
pub proof fn law_hll_merge_equals_single_stream(
    p: u8,
    hash: HashSpec,
    first: Seq<Seq<u8>>,
    second: Seq<Seq<u8>>,
)
    requires
        valid_precision(p),
        first.len() + second.len() <= u64::MAX,
    ensures
        ({
            let s = Hll::empty(p, hash);
            s.fed(first).merged(s.fed(second)) == s.fed(first + second)
        }),
{
    let s = Hll::empty(p, hash);
    let a = s.fed(first);
    let b = s.fed(second);
    let whole = s.fed(first + second);
    law_registers_of_stream(p, hash, first);
    law_registers_of_stream(p, hash, second);
    law_registers_of_stream(p, hash, first + second);
    law_stream_is_remembered(p, hash, first);
    law_stream_is_remembered(p, hash, second);
    law_stream_is_remembered(p, hash, first + second);
    let x = hashes_of(first, hash.seed);
    let y = hashes_of(second, hash.seed);
    assert(hashes_of(first + second, hash.seed) =~= x + y);
    lemma_concat_set(x, y);
    law_merge_remembers_both(a, b, x.to_set(), y.to_set());
    if let Memory::Hashes(w) = b.memory {
        lemma_with_hashes(a, w);
    }
    law_memory_is_decided_by_the_hashes(a.merged(b), whole, (x + y).to_set());
}

/// The order of keys does not matter: permuted streams give one state, and so
/// one snapshot.
pub proof fn law_key_order_does_not_matter(
    p: u8,
    hash: HashSpec,
    keys: Seq<Seq<u8>>,
    permuted: Seq<Seq<u8>>,
)
    requires
        valid_precision(p),
        keys.len() <= u64::MAX,
        keys.to_multiset() == permuted.to_multiset(),
    ensures
        Hll::empty(p, hash).fed(keys) == Hll::empty(p, hash).fed(permuted),
{
    broadcast use vstd::seq_lib::group_to_multiset_ensures;

    assert(keys.len() == keys.to_multiset().len());
    assert(permuted.len() == permuted.to_multiset().len());
    lemma_hash_subset(keys, permuted, hash.seed);
    lemma_hash_subset(permuted, keys, hash.seed);
    assert(hash_set(keys, hash.seed) =~= hash_set(permuted, hash.seed));
    lemma_same_state(p, hash, keys, permuted);
}

proof fn lemma_hash_subset(keys: Seq<Seq<u8>>, more: Seq<Seq<u8>>, seed: u64)
    requires
        keys.to_multiset() == more.to_multiset(),
    ensures
        forall|h: u64| hash_set(keys, seed).contains(h) ==> hash_set(more, seed).contains(h),
{
    broadcast use vstd::seq_lib::group_to_multiset_ensures;

    assert forall|h: u64| hash_set(keys, seed).contains(h) implies hash_set(more, seed).contains(
        h,
    ) by {
        let a = hashes_of(keys, seed);
        let i = choose|i: int| 0 <= i < a.len() && a[i] == h;
        let key = keys[i];
        assert(keys.contains(key));
        assert(keys.to_multiset().count(key) > 0);
        assert(more.to_multiset().count(key) > 0);
        assert(more.contains(key));
        let j = choose|j: int| 0 <= j < more.len() && more[j] == key;
        assert(hashes_of(more, seed)[j] == h);
    }
}

/// A key that was seen at any time before changes nothing but the number of
/// updates.
pub proof fn law_seen_keys_change_nothing(
    p: u8,
    hash: HashSpec,
    keys: Seq<Seq<u8>>,
    key: Seq<u8>,
)
    requires
        valid_precision(p),
        keys.len() < u64::MAX,
        keys.contains(key),
    ensures
        ({
            let s = Hll::empty(p, hash).fed(keys);
            s.inserted(key) == (Hll { updates: s.updates + 1, ..s })
        }),
{
    let s = Hll::empty(p, hash).fed(keys);
    let h = hash_of(key, hash.seed);
    let seen = hash_set(keys, hash.seed);
    law_registers_of_stream(p, hash, keys);
    law_stream_is_remembered(p, hash, keys);
    lemma_remembers_one_more(s, seen, h);
    let i = choose|i: int| 0 <= i < keys.len() && keys[i] == key;
    assert(hashes_of(keys, hash.seed)[i] == h);
    assert(seen.insert(h) =~= seen);
    law_memory_is_decided_by_the_hashes(s.with_hash(h), s, seen);
}

// ---------------------------------------------------------------------------
// Snapshots
// ---------------------------------------------------------------------------

proof fn lemma_first_above(r: Seq<u8>, max: int, i: int)
    requires
        first_above(r, max) is None,
        0 <= i < r.len(),
    ensures
        r[i] <= max,
    decreases r.len(),
{
    if i > 0 {
        lemma_first_above(r.drop_first(), max, i - 1);
        assert(r.drop_first()[i - 1] == r[i]);
    }
}

/// What a snapshot denotes is in range and is written as the payload that was
/// read.
proof fn lemma_read_memory(p: u8, payload: Seq<u8>, s: Hll)
    requires
        valid_precision(p),
        payload.len() >= 8,
        s.precision == p,
        s.updates == field_at(payload, 0, 8),
        Hll::read_memory(p, payload.skip(8)) == Ok::<Memory, SketchErrorView>(s.memory),
    ensures
        s.shaped(),
        s.payload() == payload,
{
    lemma_pow256_values();
    lemma_register_bounds(p, 0);
    let rest = payload.skip(8);
    let head = payload.subrange(0, 8);
    lemma_le_of_le_value(head);
    assert(payload =~= head + rest);
    match s.memory {
        Memory::Hashes(v) => {
            let n = field_at(rest, 1, 4);
            lemma_le_of_le_value(rest.subrange(1, 5));
            let ints = v.map_values(|h: u64| h as int);
            lemma_words_len(ints);
            let tail = rest.skip(5);
            assert(tail =~= words(ints)) by {
                assert forall|k: int| 0 <= k < tail.len() implies tail[k] == words(ints)[k] by {
                    let i = k / 8;
                    lemma_words_index(ints, i);
                    let word = rest.subrange(5 + 8 * i, 5 + 8 * i + 8);
                    lemma_le_of_le_value(word);
                    assert(v[i] == field_at(rest, 5 + 8 * i, 8));
                    assert(words(ints).subrange(8 * i, 8 * i + 8) == word);
                    assert(words(ints).subrange(8 * i, 8 * i + 8)[k - 8 * i] == words(ints)[k]);
                    assert(word[k - 8 * i] == tail[k]);
                }
            }
            assert(rest =~= seq![STORAGE_SPARSE] + rest.subrange(1, 5) + tail);
        },
        Memory::Registers(r) => {
            assert forall|i: int| 0 <= i < r.len() implies #[trigger] r[i] <= max_rank(p) by {
                lemma_first_above(r, max_rank(p), i);
            }
            assert(rest =~= seq![STORAGE_DENSE] + r);
        },
    }
}

/// Only canonical snapshots are taken: what was read is in range, and it is
/// written back with the same header and the same payload.
pub proof fn law_taken_hll_snapshot_is_written_back(bytes: Seq<u8>, s: Hll)
    requires
        Hll::from_snapshot(bytes) == Ok::<Hll, SketchErrorView>(s),
    ensures
        s.shaped(),
        snapshot_content(bytes) is Ok,
        ({
            let (header, params, payload) = snapshot_content(bytes)->Ok_0;
            let again = s.snapshot(header.window_start_nanos, header.window_end_nanos);
            &&& snapshot_content(again) == Ok::<
                (SnapshotHeader, Seq<u8>, Seq<u8>),
                SketchErrorView,
            >((header, seq![s.precision], payload))
            &&& Hll::from_snapshot(again) == Ok::<Hll, SketchErrorView>(s)
        }),
{
    reveal(Hll::from_snapshot);
    reveal(Hll::snapshot);
    let (header, params, payload) = snapshot_content(bytes)->Ok_0;
    lemma_read_memory(s.precision, payload, s);
    law_hll_snapshot_round_trip(s, header.window_start_nanos, header.window_end_nanos);
    law_snapshot_round_trip(
        SnapshotHeader {
            version: SNAPSHOT_VERSION,
            algorithm_id: algorithm_id::HYPER_LOG_LOG,
            hash: s.hash,
            window_start_nanos: header.window_start_nanos,
            window_end_nanos: header.window_end_nanos,
        },
        seq![s.precision],
        payload,
    );
}

} // verus!
