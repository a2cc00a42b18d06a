//! How high the levels of a KLL sketch grow: every level doubles the number
//! of insertions that it takes to reach it.

use vstd::arithmetic::power2::{
    lemma_pow2_adds, lemma_pow2_strictly_increases, lemma_pow2_unfold, pow2,
};
use vstd::prelude::*;

use crate::algos::kll::{
    capacity_at, compacted, compressed, every_other, items_from, law_kll_snapshot_round_trip,
    lemma_capacity_bound, lemma_compaction_shrinks, level_bytes, overflows, parity, Kll,
    MAX_LEVELS, MIN_LEVEL_CAPACITY,
};
use crate::algos::table::lemma_words_len;
use crate::bytes::{joined, lemma_joined_first, lemma_le_len};
use crate::error::SketchErrorView;
use crate::hash::{mix, HashSpec};
use crate::sorting::{lemma_sorted_words, sorted_words};

verus! {

/// Insertions that it takes at least before something reaches a level.
pub open spec fn toll(level: nat) -> nat {
    if level == 0 {
        0
    } else {
        9 * pow2((level - 1) as nat)
    }
}

/// The tolls of the levels from `level` upwards that hold something.
pub open spec fn tolls_from(levels: Seq<Seq<u64>>, level: int) -> nat
    decreases levels.len() - level,
{
    if level < 0 || level >= levels.len() {
        0
    } else {
        (if levels[level].len() > 0 {
            toll(level as nat)
        } else {
            0
        }) + tolls_from(levels, level + 1)
    }
}

/// No level from `level` upwards overflows.
pub open spec fn settled_from(levels: Seq<Seq<u64>>, k: int, level: int) -> bool {
    forall|l: int| level <= l < levels.len() ==> !(#[trigger] overflows(levels, k, l))
}

/// No level overflows, the top is in use, and the tolls of the levels in use
/// were paid.
pub open spec fn is_paid(s: Kll) -> bool {
    &&& s.shaped()
    &&& settled_from(s.levels, s.k, 0)
    &&& s.levels.len() > 1 ==> s.levels.last().len() > 0
    &&& s.levels[0].len() + tolls_from(s.levels, 1) <= s.n
}

proof fn lemma_settled_is_kept(levels: Seq<Seq<u64>>, rng: u64, k: int, level: int)
    requires
        0 <= level,
        settled_from(levels, k, level),
    ensures
        compressed(levels, rng, k, level) == (levels, rng),
    decreases levels.len() - level,
{
    if level < levels.len() {
        assert(!overflows(levels, k, level));
        lemma_settled_is_kept(levels, rng, k, level + 1);
    }
}

proof fn lemma_tolls_same(a: Seq<Seq<u64>>, b: Seq<Seq<u64>>, level: int)
    requires
        0 <= level,
        a.len() == b.len(),
        forall|l: int| level <= l < a.len() ==> #[trigger] a[l] == b[l],
    ensures
        tolls_from(a, level) == tolls_from(b, level),
    decreases a.len() - level,
{
    if level < a.len() {
        assert(a[level] == b[level]);
        lemma_tolls_same(a, b, level + 1);
    }
}

proof fn lemma_capacity_falls(k: int, depth: nat)
    requires
        k >= MIN_LEVEL_CAPACITY,
    ensures
        capacity_at(k, depth + 1) <= capacity_at(k, depth),
{
    lemma_capacity_bound(k, depth);
}

proof fn lemma_toll_doubles(level: nat)
    requires
        level >= 1,
    ensures
        toll(level + 1) == 2 * toll(level),
{
    lemma_pow2_unfold(level);
}

/// Empty levels do not count.
proof fn lemma_tolls_skip_empty(levels: Seq<Seq<u64>>, from: int, to: int)
    requires
        0 <= from <= to <= levels.len(),
        forall|l: int| from <= l < to ==> (#[trigger] levels[l]).len() == 0,
    ensures
        tolls_from(levels, from) == tolls_from(levels, to),
    decreases to - from,
{
    if from < to {
        assert(levels[from].len() == 0);
        lemma_tolls_skip_empty(levels, from + 1, to);
    }
}

/// A pass that has just moved `added` items to `level`, on top of `held`:
/// everything below is empty, everything above is settled.
proof fn lemma_pass(levels: Seq<Seq<u64>>, rng: u64, k: int, level: int, held: int, n: int)
    requires
        k >= MIN_LEVEL_CAPACITY,
        1 <= level < levels.len(),
        forall|l: int| 0 <= l < level ==> (#[trigger] levels[l]).len() == 0,
        settled_from(levels, k, level + 1),
        0 <= held < levels[level].len(),
        held <= capacity_at(k, (levels.len() - 1 - level) as nat),
        levels[level].len() - held <= capacity_at(k, (levels.len() - 1 - level) as nat),
        level + 1 < levels.len() ==> levels.last().len() > 0,
        toll(level as nat) + (if held > 0 {
            toll(level as nat)
        } else {
            0
        }) + tolls_from(levels, level + 1) <= n,
    ensures
        ({
            let t = compressed(levels, rng, k, level).0;
            &&& t.len() >= levels.len()
            &&& t[0].len() == 0
            &&& settled_from(t, k, 0)
            &&& t.last().len() > 0
            &&& tolls_from(t, 1) <= n
        }),
    decreases items_from(levels, level), levels.len() - level,
{
    let cap = capacity_at(k, (levels.len() - 1 - level) as nat);
    lemma_capacity_bound(k, (levels.len() - 1 - level) as nat);
    if !overflows(levels, k, level) {
        assert(settled_from(levels, k, level));
        lemma_settled_is_kept(levels, rng, k, level);
        lemma_tolls_skip_empty(levels, 1, level);
        assert forall|l: int| 0 <= l < levels.len() implies !(#[trigger] overflows(
            levels,
            k,
            l,
        )) by {
            lemma_capacity_bound(k, (levels.len() - 1 - l) as nat);
            if l < level {
                assert(levels[l].len() == 0);
            }
        }
        assert(levels[0].len() == 0);
    } else {
        let o = parity(mix(rng));
        let next = compacted(levels, level, o);
        let moved = every_other(sorted_words(levels[level]), o);
        lemma_compaction_shrinks(levels, level, o);
        lemma_sorted_words(levels[level]);
        assert(held > 0);
        let above = if level + 1 < levels.len() {
            levels[level + 1]
        } else {
            Seq::empty()
        };
        assert(next[level + 1] =~= above + moved);
        assert(moved.len() <= cap && moved.len() > 0);
        let depth = (next.len() - 1 - (level + 1)) as nat;
        lemma_capacity_bound(k, depth);
        if level + 1 < levels.len() {
            lemma_capacity_falls(k, depth);
            assert(!overflows(levels, k, level + 1));
        }
        assert(cap <= capacity_at(k, depth));
        assert forall|l: int| 0 <= l < level + 1 implies (#[trigger] next[l]).len() == 0 by {
            if l < level {
                assert(levels[l].len() == 0);
            }
        }
        assert forall|l: int| level + 2 <= l < next.len() implies !(#[trigger] overflows(
            next,
            k,
            l,
        )) by {
            assert(!overflows(levels, k, l));
        }
        lemma_toll_doubles(level as nat);
        if level + 1 < levels.len() {
            lemma_tolls_same(levels, next, level + 2);
        }
        lemma_pass(next, mix(rng), k, level + 1, above.len() as int, n);
    }
}

proof fn lemma_inserted_is_paid(s: Kll, v: u64)
    requires
        is_paid(s),
    ensures
        is_paid(s.inserted(v)),
        s.inserted(v).k == s.k,
        s.inserted(v).n == s.n + 1,
        s.inserted(v).updates == s.updates + 1,
        s.inserted(v).hash == s.hash,
{
    let k = s.k;
    let levels = s.levels.update(0, s.levels[0].push(v));
    let cap = capacity_at(k, (levels.len() - 1) as nat);
    lemma_capacity_bound(k, (levels.len() - 1) as nat);
    assert(!overflows(s.levels, k, 0));
    lemma_tolls_same(s.levels, levels, 1);
    assert forall|l: int| 1 <= l < levels.len() implies !(#[trigger] overflows(levels, k, l)) by {
        assert(!overflows(s.levels, k, l));
    }
    if !overflows(levels, k, 0) {
        assert(settled_from(levels, k, 0));
        lemma_settled_is_kept(levels, s.rng, k, 0);
    } else {
        let o = parity(mix(s.rng));
        let next = compacted(levels, 0, o);
        let moved = every_other(sorted_words(levels[0]), o);
        lemma_compaction_shrinks(levels, 0, o);
        lemma_sorted_words(levels[0]);
        let above = if 1 < levels.len() {
            levels[1]
        } else {
            Seq::empty()
        };
        assert(next[1] =~= above + moved);
        assert(0 < moved.len() <= cap);
        let depth = (next.len() - 2) as nat;
        lemma_capacity_bound(k, depth);
        if 1 < levels.len() {
            lemma_capacity_falls(k, depth);
            assert(!overflows(levels, k, 1));
        }
        assert forall|l: int| 2 <= l < next.len() implies !(#[trigger] overflows(next, k, l)) by {
            assert(!overflows(levels, k, l));
        }
        if 1 < levels.len() {
            lemma_tolls_same(levels, next, 2);
        }
        assert(toll(1) == 9) by {
            vstd::arithmetic::power2::lemma2_to64();
        }
        lemma_pass(next, mix(s.rng), k, 1, above.len() as int, s.n + 1);
    }
}

proof fn lemma_stream_is_paid(k: int, hash: HashSpec, values: Seq<u64>)
    requires
        k >= MIN_LEVEL_CAPACITY,
    ensures
        ({
            let s = Kll::empty(k, hash).fed(values);
            &&& is_paid(s)
            &&& s.k == k
            &&& s.hash == hash
            &&& s.n == values.len()
            &&& s.updates == values.len()
        }),
    decreases values.len(),
{
    if values.len() == 0 {
        lemma_capacity_bound(k, 0);
    } else {
        lemma_stream_is_paid(k, hash, values.drop_last());
        lemma_inserted_is_paid(Kll::empty(k, hash).fed(values.drop_last()), values.last());
    }
}

proof fn lemma_top_is_paid(levels: Seq<Seq<u64>>, level: int)
    requires
        1 <= level < levels.len(),
        levels.last().len() > 0,
    ensures
        tolls_from(levels, level) >= toll((levels.len() - 1) as nat),
    decreases levels.len() - level,
{
    if level + 1 < levels.len() {
        lemma_top_is_paid(levels, level + 1);
    }
}

/// It takes at least `9 * 2^(l - 1)` insertions to reach level `l`: levels grow
/// with the logarithm of the stream, and a stream that can be counted never
/// needs more of them than the format holds.
pub proof fn law_levels_grow_logarithmically(k: int, hash: HashSpec, values: Seq<u64>)
    requires
        k >= MIN_LEVEL_CAPACITY,
    ensures
        ({
            let s = Kll::empty(k, hash).fed(values);
            &&& s.levels.len() > 1 ==> 9 * pow2((s.levels.len() - 2) as nat) <= values.len()
            &&& values.len() <= u64::MAX ==> s.levels.len() <= 62 <= MAX_LEVELS
        }),
{
    let s = Kll::empty(k, hash).fed(values);
    lemma_stream_is_paid(k, hash, values);
    if s.levels.len() > 1 {
        lemma_top_is_paid(s.levels, 1);
        let l = (s.levels.len() - 2) as nat;
        if s.levels.len() > 62 {
            if l > 61 {
                lemma_pow2_strictly_increases(61, l);
            }
            lemma_pow2_adds(61, 3);
            vstd::arithmetic::power2::lemma2_to64();
            assert(9 * pow2(l) > u64::MAX);
        }
    }
}

proof fn lemma_level_in_payload(levels: Seq<Seq<u64>>, l: int)
    requires
        0 <= l < levels.len(),
    ensures
        levels[l].len() <= joined(levels.map_values(|v: Seq<u64>| level_bytes(v))).len(),
    decreases levels.len(),
{
    let parts = levels.map_values(|v: Seq<u64>| level_bytes(v));
    let tail = levels.drop_first();
    lemma_joined_first(parts);
    assert(parts.drop_first() =~= tail.map_values(|v: Seq<u64>| level_bytes(v)));
    if l > 0 {
        lemma_level_in_payload(tail, l - 1);
        assert(tail[l - 1] == levels[l]);
    } else {
        lemma_words_len(levels[0].map_values(|v: u64| v as int));
        lemma_le_len(levels[0].len() as u32 as nat, 4);
    }
}

/// A sketch that was built by insertions reads back from its snapshot, unless
/// its payload outgrows the format's length field.
pub proof fn law_built_kll_reads_back(
    k: int,
    hash: HashSpec,
    values: Seq<u64>,
    window_start: u64,
    window_end: u64,
)
    requires
        MIN_LEVEL_CAPACITY <= k <= usize::MAX,
        values.len() <= u64::MAX,
        Kll::empty(k, hash).fed(values).payload().len() <= u32::MAX,
    ensures
        ({
            let s = Kll::empty(k, hash).fed(values);
            Kll::from_snapshot(s.snapshot(window_start, window_end)) == Ok::<Kll, SketchErrorView>(
                s,
            )
        }),
{
    let s = Kll::empty(k, hash).fed(values);
    lemma_stream_is_paid(k, hash, values);
    law_levels_grow_logarithmically(k, hash, values);
    let tail = joined(s.levels.map_values(|v: Seq<u64>| level_bytes(v)));
    assert(tail.len() <= s.payload().len());
    assert forall|l: int| 0 <= l < s.levels.len() implies (#[trigger] s.levels[l]).len()
        <= u32::MAX by {
        lemma_level_in_payload(s.levels, l);
    }
    law_kll_snapshot_round_trip(s, window_start, window_end);
}

} // verus!
