//! KLL quantile sketch (Karnin, Lang, Liberty 2016) over 64-bit values.
//!
//! Level `l` holds items of weight `2^l`. A level that overflows its capacity
//! is sorted and every other item (random parity) is promoted to the next
//! level. Capacities decay geometrically from the top level (`k`) down (factor
//! 2/3, floor 8). The normalized rank error is about `2.3 / k` with high
//! probability.
//!
//! Parities come from a SplitMix64 stream seeded by the sketch's hash spec, so
//! identically configured sketches fed the same stream are byte-identical.

use vstd::arithmetic::power2::{lemma_pow2_unfold, pow2};
use vstd::layout::{layout_of_primitives, size_of};
use vstd::prelude::*;
use vstd::string::*;

use crate::algos::table::{lemma_words_index, lemma_words_len, words};
use crate::bytes::{
    joined, le, le_value, lemma_joined_first, lemma_joined_step, lemma_le_value_of_le,
    lemma_pow256_values, put_le,
};
use crate::error::{SketchError, SketchErrorView};
use crate::hash::{hash64, hash_of, mix, splitmix64, HashSpec};
use crate::memory::{allocated, capped, is_room, plus, rooms_bytes, sum_rooms};
use crate::order::{in_rank_order, lists_range, ranked, Ranking};
use crate::sketch::{Compat, Sketch, SketchCompatibility};
use crate::snapshot::{
    algorithm_id, count_error, field_at, law_snapshot_round_trip, read_snapshot, snapshot_bytes,
    snapshot_content, snapshot_err, write_snapshot, Reader, SnapshotHeader, Writer,
    SNAPSHOT_VERSION,
};
use crate::sorting::{lemma_sorted_words, sort_words, sorted_words};
use crate::sums::{lemma_sum_insert, lemma_sum_same, sum_over};
use crate::text::{dec, push_decimal};

verus! {

pub const ALGORITHM: &'static str = "kll";

pub const MIN_LEVEL_CAPACITY: usize = 8;

/// Weights are powers of two in 64 bits.
pub const MAX_LEVELS: usize = 64;

/// Separates the parities from other uses of the seed.
pub const PARITY_TAG: u64 = 0x6B6C_6C00;

#[derive(Debug, Clone)]
pub struct KllSketch {
    k: usize,
    hash: HashSpec,
    /// Unsorted until compaction or a query.
    levels: Vec<Vec<u64>>,
    n: u64,
    rng_state: u64,
    updates: u64,
}

/// The mathematical state of a [`KllSketch`].
#[verifier::ext_equal]
pub ghost struct Kll {
    pub k: int,
    pub hash: HashSpec,
    pub levels: Seq<Seq<u64>>,
    pub n: int,
    pub rng: u64,
    pub updates: int,
}

/// `k` after `depth` decays.
pub open spec fn decayed(k: int, depth: nat) -> int
    decreases depth,
{
    if depth == 0 {
        k
    } else {
        decayed(k, (depth - 1) as nat) * 2 / 3
    }
}

/// Capacity of a level that lies `depth` levels below the top.
pub open spec fn capacity_at(k: int, depth: nat) -> int {
    if decayed(k, depth) < MIN_LEVEL_CAPACITY {
        MIN_LEVEL_CAPACITY as int
    } else {
        decayed(k, depth)
    }
}

/// Every other item, from the first or from the second on.
pub open spec fn every_other(s: Seq<u64>, offset: int) -> Seq<u64> {
    Seq::new(((s.len() - offset + 1) / 2) as nat, |i: int| s[offset + 2 * i])
}

/// The number of items from `level` upwards.
pub open spec fn items_from(levels: Seq<Seq<u64>>, level: int) -> nat
    decreases levels.len() - level,
{
    if level >= levels.len() || level < 0 {
        0
    } else {
        levels[level].len() + items_from(levels, level + 1)
    }
}

/// The level overflows.
pub open spec fn overflows(levels: Seq<Seq<u64>>, k: int, level: int) -> bool {
    levels[level].len() > capacity_at(k, (levels.len() - 1 - level) as nat)
}

/// The levels after `level` has been compacted with the given parity.
pub open spec fn compacted(levels: Seq<Seq<u64>>, level: int, offset: int) -> Seq<Seq<u64>> {
    let grown = if level + 1 == levels.len() {
        levels.push(Seq::empty())
    } else {
        levels
    };
    grown.update(level, Seq::empty()).update(
        level + 1,
        grown[level + 1] + every_other(sorted_words(levels[level]), offset),
    )
}

/// The parity that a generator state stands for.
pub open spec fn parity(rng: u64) -> int {
    if rng & 1 == 1 {
        1
    } else {
        0
    }
}

/// Levels and generator after all overflowing levels from `level` upwards
/// have been compacted.
pub open spec fn compressed(levels: Seq<Seq<u64>>, rng: u64, k: int, level: int) -> (
    Seq<Seq<u64>>,
    u64,
)
    decreases items_from(levels, level), levels.len() - level,
{
    if level < 0 || level >= levels.len() {
        (levels, rng)
    } else if !overflows(levels, k, level) {
        compressed(levels, rng, k, level + 1)
    } else {
        proof {
            lemma_compaction_shrinks(levels, level, parity(mix(rng)));
        }
        compressed(compacted(levels, level, parity(mix(rng))), mix(rng), k, level + 1)
    }
}

proof fn lemma_items_same(a: Seq<Seq<u64>>, b: Seq<Seq<u64>>, level: int)
    requires
        0 <= level,
        a.len() == b.len(),
        forall|i: int| level <= i < a.len() ==> #[trigger] a[i].len() == b[i].len(),
    ensures
        items_from(a, level) == items_from(b, level),
    decreases a.len() - level,
{
    if level < a.len() {
        assert(a[level].len() == b[level].len());
        lemma_items_same(a, b, level + 1);
    }
}

pub proof fn lemma_compaction_shrinks(levels: Seq<Seq<u64>>, level: int, offset: int)
    requires
        0 <= level < levels.len(),
        levels[level].len() > 1,
        0 <= offset <= 1,
    ensures
        items_from(compacted(levels, level, offset), level + 1) < items_from(levels, level),
        compacted(levels, level, offset).len() >= levels.len(),
{
    lemma_sorted_words(levels[level]);
    let t = compacted(levels, level, offset);
    reveal_with_fuel(items_from, 3);
    if level + 2 < t.len() {
        lemma_items_same(t, levels, level + 2);
    }
}

/// The items of all levels with their weights.
pub open spec fn weighted(levels: Seq<Seq<u64>>) -> Seq<(u64, nat)>
    decreases levels.len(),
{
    if levels.len() == 0 {
        Seq::empty()
    } else {
        weighted(levels.drop_last()) + levels.last().map_values(
            |v: u64| (v, pow2((levels.len() - 1) as nat)),
        )
    }
}

/// The weight of all items up to `v`.
pub open spec fn weight_upto(s: Seq<(u64, nat)>, v: u64) -> nat
    decreases s.len(),
{
    if s.len() == 0 {
        0
    } else {
        weight_upto(s.drop_last(), v) + if s.last().0 <= v { s.last().1 } else { 0 }
    }
}

/// The weight of all items.
pub open spec fn full_weight(s: Seq<(u64, nat)>) -> nat {
    weight_upto(s, u64::MAX)
}

/// Some item has this value.
pub open spec fn holds_value(s: Seq<(u64, nat)>, v: u64) -> bool {
    exists|i: int| 0 <= i < s.len() && (#[trigger] s[i]).0 == v
}

/// `v` is the value at weight `target`: the least item up to which there is
/// that much weight, or the largest item if there is not that much.
pub open spec fn is_value_at(s: Seq<(u64, nat)>, target: int, v: u64) -> bool {
    &&& holds_value(s, v)
    &&& if target <= full_weight(s) {
        &&& target <= weight_upto(s, v)
        &&& forall|w: u64| #[trigger] holds_value(s, w) && w < v ==> weight_upto(s, w) < target
    } else {
        forall|w: u64| #[trigger] holds_value(s, w) ==> w <= v
    }
}

/// Level by level one after the other.
pub open spec fn stacked(a: Seq<Seq<u64>>, b: Seq<Seq<u64>>) -> Seq<Seq<u64>> {
    Seq::new(
        if a.len() < b.len() { b.len() } else { a.len() },
        |i: int|
            (if i < a.len() { a[i] } else { Seq::empty() }) + (if i < b.len() {
                b[i]
            } else {
                Seq::empty()
            }),
    )
}

impl Kll {
    pub open spec fn empty(k: int, hash: HashSpec) -> Kll {
        Kll {
            k,
            hash,
            levels: seq![Seq::<u64>::empty()],
            n: 0,
            rng: mix(hash.seed ^ PARITY_TAG),
            updates: 0,
        }
    }

    /// The vectors of the levels can have these rooms.
    pub open spec fn has_rooms(self, rooms: Seq<usize>) -> bool {
        &&& rooms.len() == self.levels.len()
        &&& forall|l: int|
            0 <= l < rooms.len() ==> is_room(#[trigger] rooms[l], self.levels[l].len(), 8)
    }

    /// The bytes that a sketch in this state can hold: its own, those of the
    /// vector of each level and those of the room in it, which is up to the
    /// allocator. More than a word can count is reported as the largest word.
    pub open spec fn is_memory(self, bytes: usize) -> bool {
        exists|rooms: Seq<usize>| #[trigger]
            self.has_rooms(rooms) && bytes == capped(
                rooms_bytes(rooms, 8, 24) + size_of::<KllSketch>(),
            )
    }

    pub open spec fn shaped(self) -> bool {
        self.k >= MIN_LEVEL_CAPACITY && self.levels.len() >= 1
    }

    pub open spec fn compressed(self) -> Kll {
        let (levels, rng) = compressed(self.levels, self.rng, self.k, 0);
        Kll { levels, rng, ..self }
    }

    pub open spec fn inserted(self, v: u64) -> Kll {
        Kll {
            levels: self.levels.update(0, self.levels[0].push(v)),
            n: self.n + 1,
            updates: self.updates + 1,
            ..self
        }.compressed()
    }

    pub open spec fn fed(self, values: Seq<u64>) -> Kll
        decreases values.len(),
    {
        if values.len() == 0 {
            self
        } else {
            self.fed(values.drop_last()).inserted(values.last())
        }
    }

    pub open spec fn merged(self, other: Kll) -> Kll {
        Kll {
            levels: stacked(self.levels, other.levels),
            n: self.n + other.n,
            updates: self.updates + other.updates,
            rng: mix(self.rng ^ other.rng),
            ..self
        }.compressed()
    }

    pub open spec fn items(self) -> Seq<(u64, nat)> {
        weighted(self.levels)
    }

    pub open spec fn compat(self) -> Compat {
        Compat {
            algorithm: ALGORITHM@,
            version: 1,
            hash: self.hash,
            params_hash: hash_of(le(self.k as nat, 8), 0),
        }
    }

    pub open spec fn payload(self) -> Seq<u8> {
        le(self.n as nat, 8) + le(self.rng as nat, 8) + le(self.updates as nat, 8) + le(
            self.levels.len() as u32 as nat,
            4,
        ) + joined(self.levels.map_values(|l: Seq<u64>| level_bytes(l)))
    }

    pub open spec fn snapshot(self, window_start: u64, window_end: u64) -> Seq<u8> {
        snapshot_bytes(
            SnapshotHeader {
                version: SNAPSHOT_VERSION,
                algorithm_id: algorithm_id::KLL,
                hash: self.hash,
                window_start_nanos: window_start,
                window_end_nanos: window_end,
            },
            le(self.k as nat, 8),
            self.payload(),
        )
    }

    /// The state that a snapshot denotes, or why it denotes none.
    pub open spec fn from_snapshot(bytes: Seq<u8>) -> Result<Kll, SketchErrorView> {
        match snapshot_content(bytes) {
            Err(e) => Err(e),
            Ok((header, params, payload)) => {
                let k = field_at(params, 0, 8);
                let count = field_at(payload, 24, 4);
                if header.algorithm_id != algorithm_id::KLL {
                    snapshot_err("not a kll snapshot"@)
                } else if params.len() < 8 {
                    snapshot_err("unexpected end of snapshot"@)
                } else if k > usize::MAX {
                    snapshot_err("kll snapshot k "@ + dec(k) + " does not fit this platform"@)
                } else if k < MIN_LEVEL_CAPACITY {
                    snapshot_err("kll snapshot k must be >= 8, got "@ + dec(k))
                } else if payload.len() < 28 {
                    snapshot_err("unexpected end of snapshot"@)
                } else if count > MAX_LEVELS {
                    snapshot_err("kll snapshot has "@ + dec(count) + " levels, maximum is 64"@)
                } else if 4 * count > payload.len() - 28 {
                    Err(count_error(count, (payload.len() - 28) as nat))
                } else {
                    match read_levels(payload.skip(28), count, Seq::empty()) {
                        Err(e) => Err(e),
                        Ok(levels) => Ok(
                            Kll {
                                k: k as int,
                                hash: header.hash,
                                levels: if levels.len() == 0 {
                                    seq![Seq::<u64>::empty()]
                                } else {
                                    levels
                                },
                                n: field_at(payload, 0, 8) as int,
                                rng: field_at(payload, 8, 8) as u64,
                                updates: field_at(payload, 16, 8) as int,
                            },
                        ),
                    }
                }
            },
        }
    }
}

/// One level in a snapshot.
pub open spec fn level_bytes(l: Seq<u64>) -> Seq<u8> {
    le(l.len() as u32 as nat, 4) + words(l.map_values(|v: u64| v as int))
}

/// The values of a level whose length stands at the start of `rest`.
pub open spec fn level_at(rest: Seq<u8>) -> Seq<u64> {
    Seq::new(le_value(rest.take(4)), |i: int| field_at(rest, 4 + 8 * i, 8) as u64)
}

/// What `n` levels at the start of `rest` add to `known`.
pub open spec fn read_levels(rest: Seq<u8>, n: nat, known: Seq<Seq<u64>>) -> Result<
    Seq<Seq<u64>>,
    SketchErrorView,
>
    decreases n,
{
    let len = le_value(rest.take(4));
    if n == 0 {
        Ok(known)
    } else if rest.len() < 4 {
        snapshot_err("unexpected end of snapshot"@)
    } else if 8 * len > rest.len() - 4 {
        Err(count_error(len, (rest.len() - 4) as nat))
    } else {
        read_levels(rest.skip(4 + 8 * len as int), (n - 1) as nat, known.push(level_at(rest)))
    }
}

spec fn level_views(levels: Seq<Vec<u64>>) -> Seq<Seq<u64>> {
    levels.map_values(|l: Vec<u64>| l@)
}

impl View for KllSketch {
    type V = Kll;

    closed spec fn view(&self) -> Kll {
        Kll {
            k: self.k as int,
            hash: self.hash,
            levels: level_views(self.levels@),
            n: self.n as int,
            rng: self.rng_state,
            updates: self.updates as int,
        }
    }
}

impl KllSketch {
    pub fn new(k: usize, hash: HashSpec) -> (r: Result<Self, SketchError>)
        ensures
            r is Ok <==> k >= MIN_LEVEL_CAPACITY,
            r matches Ok(s) ==> s.wf() && s@ == Kll::empty(k as int, hash),
            r matches Err(e) ==> e@ == SketchErrorView::InvalidParam(
                "kll k must be >= 8, got "@ + dec(k as nat),
            ),
    {
        if k < MIN_LEVEL_CAPACITY {
            let mut message = "kll k must be >= 8, got ".to_owned();
            push_decimal(&mut message, k as u64);
            return Err(SketchError::InvalidParam(message));
        }
        let mut levels: Vec<Vec<u64>> = Vec::new();
        levels.push(Vec::new());
        let s = KllSketch {
            k,
            hash,
            levels,
            n: 0,
            rng_state: splitmix64(hash.seed ^ PARITY_TAG),
            updates: 0,
        };
        assert(s@.levels =~= seq![Seq::<u64>::empty()]);
        Ok(s)
    }

    pub fn k(&self) -> (r: usize)
        ensures
            r == self@.k,
    {
        self.k
    }

    /// Number of values inserted.
    pub fn n(&self) -> (r: u64)
        ensures
            r == self@.n,
    {
        self.n
    }

    /// The bytes of a sketch with a level for each room.
    pub fn held_bytes(rooms: &Vec<usize>) -> (r: usize)
        ensures
            r == capped(rooms_bytes(rooms@, 8, 24) + size_of::<Self>()),
    {
        plus(sum_rooms(rooms, 8, 24), core::mem::size_of::<Self>())
    }

    /// Number of levels.
    pub fn level_count(&self) -> (r: usize)
        ensures
            r == self@.levels.len(),
    {
        self.levels.len()
    }

    /// Number of items held in a level.
    pub fn level_len(&self, level: usize) -> (r: usize)
        requires
            level < self@.levels.len(),
        ensures
            r == self@.levels[level as int].len(),
    {
        self.levels[level].len()
    }

    /// Capacity of `level` given the current number of levels.
    fn capacity(&self, level: usize) -> (r: usize)
        requires
            self.wf(),
            level < self@.levels.len(),
        ensures
            r == capacity_at(self@.k, (self@.levels.len() - 1 - level) as nat),
    {
        let depth: usize = self.levels.len() - 1 - level;
        let mut cap: usize = self.k;
        let mut i: usize = 0;
        while i < depth
            invariant
                i <= depth,
                cap == decayed(self.k as int, i as nat),
                cap <= self.k,
            decreases depth - i,
        {
            cap = (cap as u128 * 2 / 3) as usize;
            i += 1;
        }
        if cap < MIN_LEVEL_CAPACITY {
            MIN_LEVEL_CAPACITY
        } else {
            cap
        }
    }

    fn next_bit(&mut self) -> (r: bool)
        ensures
            *final(self) == (KllSketch { rng_state: mix(old(self).rng_state), ..*old(self) }),
            parity(mix(old(self).rng_state)) == if r { 1int } else { 0 },
    {
        self.rng_state = splitmix64(self.rng_state);
        self.rng_state & 1 == 1
    }

    pub fn insert(&mut self, value: u64)
        requires
            old(self).wf(),
            old(self)@.n < u64::MAX,
            old(self)@.updates < u64::MAX,
        ensures
            final(self).wf(),
            final(self)@ == old(self)@.inserted(value),
    {
        let ghost start = self@;
        self.n = self.n + 1;
        self.updates = self.updates + 1;
        self.levels[0].push(value);
        assert(self@.levels =~= start.levels.update(0, start.levels[0].push(value)));
        self.compress();
    }

    fn compress(&mut self)
        requires
            old(self).wf(),
        ensures
            final(self).wf(),
            final(self)@ == old(self)@.compressed(),
    {
        let ghost start = self@;
        let mut level: usize = 0;
        while level < self.levels.len()
            invariant
                self.wf(),
                level <= self.levels@.len(),
                self@ == (Kll { levels: self@.levels, rng: self@.rng, ..start }),
                compressed(start.levels, start.rng, start.k, 0) == compressed(
                    self@.levels,
                    self@.rng,
                    start.k,
                    level as int,
                ),
            decreases items_from(self@.levels, level as int), self.levels@.len() - level,
        {
            let cap: usize = self.capacity(level);
            if self.levels[level].len() <= cap {
                level += 1;
                continue;
            }
            let ghost before = self@;
            proof {
                lemma_compaction_shrinks(before.levels, level as int, parity(mix(before.rng)));
                lemma_sorted_words(before.levels[level as int]);
            }
            if level + 1 == self.levels.len() {
                self.levels.push(Vec::new());
            }
            let mut buf: Vec<u64> = Vec::new();
            core::mem::swap(&mut self.levels[level], &mut buf);
            let sorted = sort_words(&buf);
            let offset: usize = if self.next_bit() {
                1
            } else {
                0
            };
            let above: usize = level + 1;
            let ghost base = self.levels@[above as int]@;
            let ghost promoted = every_other(sorted@, offset as int);
            let rest: usize = sorted.len() - offset;
            let count: usize = rest / 2 + rest % 2;
            assert(count == promoted.len());
            let mut i: usize = 0;
            let ghost mid = *self;
            assert(base + promoted.take(0) =~= base);
            while i < count
                invariant
                    offset <= 1,
                    i <= count,
                    count == promoted.len(),
                    promoted == every_other(sorted@, offset as int),
                    above < self.levels@.len(),
                    *self == (KllSketch { levels: self.levels, ..mid }),
                    self.levels@.len() == mid.levels@.len(),
                    forall|j: int|
                        0 <= j < self.levels@.len() && j != above ==> #[trigger] self.levels@[j]
                            == mid.levels@[j],
                    self.levels@[above as int]@ == base + promoted.take(i as int),
                decreases count - i,
            {
                assert(sorted@.len() == sorted.len());
                let v: u64 = sorted[offset + 2 * i];
                self.levels[above].push(v);
                proof {
                    assert(promoted[i as int] == v);
                    assert(promoted.take(i + 1) =~= promoted.take(i as int).push(v));
                    assert(self.levels@[above as int]@ =~= base + promoted.take(i + 1));
                }
                i += 1;
            }
            proof {
                assert(promoted.take(promoted.len() as int) =~= promoted);
                let goal = compacted(before.levels, level as int, offset as int);
                assert forall|j: int| 0 <= j < goal.len() implies #[trigger] self@.levels[j]
                    == goal[j] by {
                    if j != level + 1 {
                        assert(self.levels@[j] == mid.levels@[j]);
                    }
                }
                assert(self@.levels =~= goal);
            }
            level += 1;
        }
    }

    /// All items with their weights.
    fn weighted_items(&self) -> (r: Vec<(u64, u64)>)
        requires
            self@.levels.len() <= MAX_LEVELS,
        ensures
            r@.len() == self@.items().len(),
            forall|i: int|
                0 <= i < r@.len() ==> (#[trigger] r@[i]).0 == self@.items()[i].0 && r@[i].1
                    == self@.items()[i].1,
    {
        let ghost levels = self@.levels;
        let mut out: Vec<(u64, u64)> = Vec::new();
        let mut w: u64 = 1;
        let mut level: usize = 0;
        proof {
            vstd::arithmetic::power2::lemma2_to64();
            assert(weighted(levels.take(0)) =~= Seq::<(u64, nat)>::empty());
        }
        while level < self.levels.len()
            invariant
                levels == self@.levels,
                levels.len() <= MAX_LEVELS,
                level <= self.levels@.len(),
                level < self.levels@.len() ==> w == pow2(level as nat),
                out@.len() == weighted(levels.take(level as int)).len(),
                forall|i: int|
                    0 <= i < out@.len() ==> (#[trigger] out@[i]).0 == weighted(
                        levels.take(level as int),
                    )[i].0 && out@[i].1 == weighted(levels.take(level as int))[i].1,
            decreases self.levels@.len() - level,
        {
            let ghost known = weighted(levels.take(level as int));
            let ghost items = levels[level as int].map_values(|v: u64| (v, pow2(level as nat)));
            let ghost next = weighted(levels.take(level + 1));
            proof {
                assert(levels.take(level + 1).drop_last() =~= levels.take(level as int));
                assert(levels.take(level + 1).last() == levels[level as int]);
                assert(next =~= known + items);
            }
            let mut i: usize = 0;
            while i < self.levels[level].len()
                invariant
                    level < self.levels@.len(),
                    levels == self@.levels,
                    w == pow2(level as nat),
                    next == known + items,
                    items == levels[level as int].map_values(|v: u64| (v, pow2(level as nat))),
                    i <= self.levels@[level as int]@.len(),
                    out@.len() == known.len() + i,
                    forall|j: int|
                        0 <= j < out@.len() ==> (#[trigger] out@[j]).0 == next[j].0 && out@[j].1
                            == next[j].1,
                decreases self.levels@[level as int]@.len() - i,
            {
                out.push((self.levels[level][i], w));
                assert(next[known.len() + i] == items[i as int]);
                i += 1;
            }
            if level + 1 < self.levels.len() {
                proof {
                    lemma_pow2_unfold((level + 1) as nat);
                    lemma_pow2_bound(level as nat);
                }
                w = w * 2;
            }
            level += 1;
        }
        assert(levels.take(level as int) =~= levels);
        out
    }

    /// The value at weight `target`, if the sketch has seen anything and
    /// still holds items.
    pub fn value_at(&self, target: u64) -> (r: Option<u64>)
        requires
            self.wf(),
            self@.levels.len() <= MAX_LEVELS,
            full_weight(self@.items()) <= u64::MAX,
        ensures
            r is Some <==> self@.n > 0 && self@.items().len() > 0,
            r matches Some(v) ==> is_value_at(self@.items(), target as int, v),
    {
        if self.n == 0 {
            return None;
        }
        let items = self.weighted_items();
        let ghost s = self@.items();
        if items.len() == 0 {
            return None;
        }
        let by_value = ByValue { items: &items };
        let order = ranked(&by_value, items.len());
        let ghost w = |p: int| s[p].1 as int;
        proof {
            lemma_weight_is_sum(s, u64::MAX);
            crate::order::lemma_ranked_distinct(&by_value, order@);
            crate::sums::lemma_sum_empty(w);
            assert(front_set(order@, 0) =~= Set::empty());
        }
        let mut acc: u64 = 0;
        let mut i: usize = 0;
        while i < order.len()
            invariant
                self.n > 0,
                s == self@.items(),
                full_weight(s) <= u64::MAX,
                w == (|p: int| s[p].1 as int),
                items@.len() == s.len(),
                forall|j: int|
                    0 <= j < items@.len() ==> (#[trigger] items@[j]).0 == s[j].0 && items@[j].1
                        == s[j].1,
                by_value == (ByValue { items: &items }),
                lists_range(order@, 0, items@.len() as int),
                in_rank_order(&by_value, order@),
                order@.no_duplicates(),
                i <= order@.len(),
                front_set(order@, i as int).finite(),
                acc == sum_over(front_set(order@, i as int), w),
                i > 0 ==> acc < target,
            decreases order@.len() - i,
        {
            let p: usize = order[i];
            assert(p < items@.len());
            let ghost before = front_set(order@, i as int);
            proof {
                lemma_front_step(order@, i as int);
                lemma_sum_insert(before, w, p as int);
                lemma_front_weight(s, order@, i as int, &by_value);
            }
            acc = acc + items[p].1;
            let v: u64 = items[p].0;
            if acc >= target {
                proof {
                    assert(s[p as int].0 == v);
                    lemma_weight_monotone(s, v, u64::MAX);
                    assert forall|x: u64| #[trigger] holds_value(s, x) && x < v implies weight_upto(
                        s,
                        x,
                    ) < target by {
                        lemma_below_is_before(s, order@, i as int, &by_value, x);
                        let q = choose|q: int| 0 <= q < s.len() && (#[trigger] s[q]).0 == x;
                        assert(order@.contains(q as usize));
                    }
                }
                return Some(v);
            }
            i += 1;
        }
        proof {
            assert(front_set(order@, i as int) =~= positions_upto(s, u64::MAX)) by {
                assert forall|p: int| positions_upto(s, u64::MAX).contains(p) implies front_set(
                    order@,
                    i as int,
                ).contains(p) by {
                    assert(order@.contains(p as usize));
                    let q = choose|q: int| 0 <= q < order@.len() && order@[q] == p as usize;
                    assert(order@[q] == p);
                }
            }
        }
        let last: usize = order[order.len() - 1];
        let v: u64 = items[last].0;
        proof {
            assert(s[last as int].0 == v);
            assert forall|x: u64| #[trigger] holds_value(s, x) implies x <= v by {
                let q = choose|q: int| 0 <= q < s.len() && (#[trigger] s[q]).0 == x;
                assert(order@.contains(q as usize));
                let at = choose|at: int| 0 <= at < order@.len() && order@[at] == q as usize;
                if at < order@.len() - 1 {
                    assert(by_value.ahead(order@[at] as int, order@[order@.len() - 1] as int));
                    assert(items@[q].0 == s[q].0);
                }
            }
        }
        Some(v)
    }

    /// The weight of all items.
    pub fn total_weight(&self) -> (r: u64)
        requires
            self@.levels.len() <= MAX_LEVELS,
            full_weight(self@.items()) <= u64::MAX,
        ensures
            r == full_weight(self@.items()),
    {
        self.rank_weights(u64::MAX).0
    }

    /// The weight of all items up to `value`, and of all items.
    pub fn rank_weights(&self, value: u64) -> (r: (u64, u64))
        requires
            self@.levels.len() <= MAX_LEVELS,
            full_weight(self@.items()) <= u64::MAX,
        ensures
            r.0 == weight_upto(self@.items(), value),
            r.1 == full_weight(self@.items()),
            r.0 <= r.1,
    {
        let items = self.weighted_items();
        let ghost s = self@.items();
        let mut le: u64 = 0;
        let mut total: u64 = 0;
        let mut i: usize = 0;
        while i < items.len()
            invariant
                items@.len() == s.len(),
                full_weight(s) <= u64::MAX,
                forall|j: int|
                    0 <= j < items@.len() ==> (#[trigger] items@[j]).0 == s[j].0 && items@[j].1
                        == s[j].1,
                i <= items@.len(),
                le == weight_upto(s.take(i as int), value),
                total == weight_upto(s.take(i as int), u64::MAX),
                le <= total,
            decreases items@.len() - i,
        {
            proof {
                assert(s.take(i + 1).drop_last() =~= s.take(i as int));
                assert(s.take(i + 1).last() == s[i as int]);
                lemma_weight_prefix(s, i + 1, u64::MAX);
            }
            total = total + items[i].1;
            if items[i].0 <= value {
                le = le + items[i].1;
            }
            i += 1;
        }
        assert(s.take(i as int) =~= s);
        (le, total)
    }

    fn params_hash(&self) -> (r: u64)
        ensures
            r == hash_of(le(self.k as nat, 8), 0),
    {
        let mut w: Vec<u8> = Vec::new();
        put_le(&mut w, self.k as u64, 8);
        assert(w@ =~= le(self.k as nat, 8));
        hash64(w.as_slice(), 0)
    }

    pub fn to_snapshot(&self, window_start_nanos: u64, window_end_nanos: u64) -> (r: Vec<u8>)
        requires
            self.wf(),
        ensures
            r@ == self@.snapshot(window_start_nanos, window_end_nanos),
    {
        let mut params = Writer::new();
        params.u64(self.k as u64);
        assert(params.buf@ =~= le(self.k as nat, 8));
        let mut payload = Writer::new();
        payload.u64(self.n);
        payload.u64(self.rng_state);
        payload.u64(self.updates);
        payload.u32(self.levels.len() as u32);
        let ghost lead = payload.buf@;
        let ghost levels = self@.levels;
        let ghost parts = levels.map_values(|l: Seq<u64>| level_bytes(l));
        let mut level: usize = 0;
        assert(lead + joined(parts.take(0)) =~= lead);
        while level < self.levels.len()
            invariant
                levels == self@.levels,
                parts == levels.map_values(|l: Seq<u64>| level_bytes(l)),
                level <= self.levels@.len(),
                payload.buf@ == lead + joined(parts.take(level as int)),
            decreases self.levels@.len() - level,
        {
            let ghost start = payload.buf@;
            let ghost ints = levels[level as int].map_values(|v: u64| v as int);
            payload.u32(self.levels[level].len() as u32);
            let ghost headed = payload.buf@;
            let mut i: usize = 0;
            assert(headed + words(ints.take(0)) =~= headed);
            while i < self.levels[level].len()
                invariant
                    level < self.levels@.len(),
                    levels == self@.levels,
                    ints == levels[level as int].map_values(|v: u64| v as int),
                    i <= self.levels@[level as int]@.len(),
                    payload.buf@ == headed + words(ints.take(i as int)),
                decreases self.levels@[level as int]@.len() - i,
            {
                payload.u64(self.levels[level][i]);
                proof {
                    assert(ints.take(i + 1).drop_last() =~= ints.take(i as int));
                    assert(payload.buf@ =~= headed + words(ints.take(i + 1)));
                }
                i += 1;
            }
            proof {
                assert(ints.take(i as int) =~= ints);
                lemma_joined_step(parts, level as int);
                assert(payload.buf@ =~= start + parts[level as int]);
                assert(payload.buf@ =~= lead + joined(parts.take(level + 1)));
            }
            level += 1;
        }
        assert(parts.take(level as int) =~= parts);
        assert(payload.buf@ =~= self@.payload());
        write_snapshot(
            &SnapshotHeader {
                version: SNAPSHOT_VERSION,
                algorithm_id: algorithm_id::KLL,
                hash: self.hash,
                window_start_nanos,
                window_end_nanos,
            },
            params.buf.as_slice(),
            payload.buf.as_slice(),
        )
    }

    pub fn from_snapshot(bytes: &[u8]) -> (r: Result<Self, SketchError>)
        ensures
            match Kll::from_snapshot(bytes@) {
                Ok(s) => r matches Ok(x) && x.wf() && x@ == s,
                Err(e) => r matches Err(x) && x@ == e,
            },
    {
        let (header, params, payload) = read_snapshot(bytes)?;
        if header.algorithm_id != algorithm_id::KLL {
            return Err(SketchError::Snapshot("not a kll snapshot".to_owned()));
        }
        let mut p = Reader::new(params.as_slice());
        let encoded_k: u64 = p.u64()?;
        if encoded_k > usize::MAX as u64 {
            let mut message = "kll snapshot k ".to_owned();
            push_decimal(&mut message, encoded_k);
            message.append(" does not fit this platform");
            return Err(SketchError::Snapshot(message));
        }
        let k: usize = encoded_k as usize;
        if k < MIN_LEVEL_CAPACITY {
            let mut message = "kll snapshot k must be >= 8, got ".to_owned();
            push_decimal(&mut message, encoded_k);
            return Err(SketchError::Snapshot(message));
        }
        let mut r = Reader::new(payload.as_slice());
        let n: u64 = r.u64()?;
        let rng_state: u64 = r.u64()?;
        let updates: u64 = r.u64()?;
        let num_levels: usize = r.u32()? as usize;
        if num_levels > MAX_LEVELS {
            let mut message = "kll snapshot has ".to_owned();
            push_decimal(&mut message, num_levels as u64);
            message.append(" levels, maximum is 64");
            return Err(SketchError::Snapshot(message));
        }
        r.check_count(num_levels, 4)?;
        let mut levels: Vec<Vec<u64>> = Vec::new();
        let ghost outcome = read_levels(payload@.skip(28), num_levels as nat, Seq::empty());
        let mut i: usize = 0;
        assert(r.rest() =~= payload@.skip(28));
        assert(level_views(levels@) =~= Seq::empty());
        while i < num_levels
            invariant
                i <= num_levels,
                r.wf(),
                outcome == read_levels(
                    r.rest(),
                    (num_levels - i) as nat,
                    level_views(levels@),
                ),
                match Kll::from_snapshot(bytes@) {
                    Ok(s) => outcome matches Ok(l) && s.levels == (if l.len() == 0 {
                        seq![Seq::<u64>::empty()]
                    } else {
                        l
                    }),
                    Err(e) => outcome == Err::<Seq<Seq<u64>>, _>(e),
                },
            decreases num_levels - i,
        {
            let ghost rest = r.rest();
            let ghost known = level_views(levels@);
            let len: usize = r.u32()? as usize;
            assert(r.rest() =~= rest.skip(4));
            r.check_count(len, 8)?;
            let ghost target = level_at(rest);
            let mut level: Vec<u64> = Vec::new();
            let mut j: usize = 0;
            while j < len
                invariant
                    j <= len,
                    r.wf(),
                    r.rest() == rest.skip(4 + 8 * j),
                    rest.len() >= 4 + 8 * len,
                    len == le_value(rest.take(4)),
                    target == level_at(rest),
                    level@ == target.take(j as int),
                decreases len - j,
            {
                assert(r.rest().take(8) =~= rest.subrange(4 + 8 * j, 4 + 8 * j + 8));
                let v: u64 = r.u64()?;
                level.push(v);
                assert(level@ =~= target.take(j + 1));
                assert(r.rest() =~= rest.skip(4 + 8 * (j + 1)));
                j += 1;
            }
            assert(level@ =~= target);
            levels.push(level);
            assert(level_views(levels@) =~= known.push(target));
            i += 1;
        }
        if levels.len() == 0 {
            levels.push(Vec::new());
            assert(level_views(levels@) =~= seq![Seq::<u64>::empty()]);
        }
        Ok(KllSketch { k, hash: header.hash, levels, n, rng_state, updates })
    }
}

proof fn lemma_pow2_bound(e: nat)
    requires
        e < 63,
    ensures
        2 * pow2(e) <= 0x8000_0000_0000_0000,
{
    vstd::arithmetic::power2::lemma2_to64_rest();
    if e < 62 {
        vstd::arithmetic::power2::lemma_pow2_strictly_increases(e, 62);
    }
    lemma_pow2_unfold(63);
}

/// Items by value.
struct ByValue<'a> {
    items: &'a Vec<(u64, u64)>,
}

impl<'a> Ranking for ByValue<'a> {
    closed spec fn size(&self) -> nat {
        self.items@.len()
    }

    closed spec fn ahead(&self, i: int, j: int) -> bool {
        self.items@[i].0 < self.items@[j].0 || (self.items@[i].0 == self.items@[j].0 && i < j)
    }

    closed spec fn ranking_wf(&self) -> bool {
        true
    }

    proof fn strict(&self) {
    }

    fn is_ahead(&self, i: usize, j: usize) -> (r: bool) {
        let a: u64 = self.items[i].0;
        let b: u64 = self.items[j].0;
        a < b || (a == b && i < j)
    }
}

// ---------------------------------------------------------------------------
// Weights as sums over positions
// ---------------------------------------------------------------------------

spec fn positions_upto(s: Seq<(u64, nat)>, v: u64) -> Set<int> {
    Set::new(|p: int| 0 <= p < s.len() && s[p].0 <= v)
}

/// The first `n` listed positions.
spec fn front_set(order: Seq<usize>, n: int) -> Set<int> {
    Set::new(|p: int| exists|i: int| 0 <= i < n && #[trigger] order[i] == p)
}

proof fn lemma_front_step(order: Seq<usize>, n: int)
    requires
        0 <= n < order.len(),
        order.no_duplicates(),
    ensures
        front_set(order, n + 1) == front_set(order, n).insert(order[n] as int),
        !front_set(order, n).contains(order[n] as int),
{
    let a = front_set(order, n + 1);
    let b = front_set(order, n).insert(order[n] as int);
    assert forall|p: int| a.contains(p) <==> b.contains(p) by {
        if a.contains(p) {
            let i = choose|i: int| 0 <= i < n + 1 && #[trigger] order[i] == p;
            if i < n {
                assert(order[i] == p);
            }
        }
        if front_set(order, n).contains(p) {
            let i = choose|i: int| 0 <= i < n && #[trigger] order[i] == p;
            assert(order[i] == p);
        }
        if p == order[n] {
            assert(order[n] == p);
        }
    }
    assert(a =~= b);
    if front_set(order, n).contains(order[n] as int) {
        let i = choose|i: int| 0 <= i < n && #[trigger] order[i] == order[n] as int;
        assert(order[i] == order[n]);
    }
}

proof fn lemma_weight_is_sum(s: Seq<(u64, nat)>, v: u64)
    ensures
        positions_upto(s, v).finite(),
        weight_upto(s, v) == sum_over(positions_upto(s, v), |p: int| s[p].1 as int),
    decreases s.len(),
{
    let w = |p: int| s[p].1 as int;
    if s.len() == 0 {
        assert(positions_upto(s, v) =~= Set::empty());
    } else {
        let t = s.drop_last();
        lemma_weight_is_sum(t, v);
        let last = s.len() - 1;
        let a = positions_upto(t, v);
        lemma_sum_same(a, |p: int| t[p].1 as int, w);
        if s.last().0 <= v {
            assert(positions_upto(s, v) =~= a.insert(last as int));
            lemma_sum_insert(a, w, last as int);
        } else {
            assert(positions_upto(s, v) =~= a);
        }
    }
}

/// Positions within positions weigh no more.
proof fn lemma_sum_subset(a: Set<int>, b: Set<int>, w: spec_fn(int) -> int)
    requires
        b.finite(),
        a.subset_of(b),
        forall|p: int| #[trigger] b.contains(p) ==> 0 <= w(p),
    ensures
        a.finite(),
        sum_over(a, w) <= sum_over(b, w),
{
    vstd::set_lib::lemma_len_subset(a, b);
    crate::sums::lemma_sum_split(b, a, w);
    assert(b.intersect(a) =~= a);
    crate::sums::lemma_sum_at_least(b.difference(a), w, 0);
}

/// What has been listed up to a place weighs no more than what is up to its
/// value.
proof fn lemma_front_weight<'a>(
    s: Seq<(u64, nat)>,
    order: Seq<usize>,
    i: int,
    by_value: &ByValue<'a>,
)
    requires
        by_value.items@.len() == s.len(),
        forall|j: int| 0 <= j < s.len() ==> (#[trigger] by_value.items@[j]).0 == s[j].0,
        lists_range(order, 0, s.len() as int),
        in_rank_order(by_value, order),
        0 <= i < order.len(),
    ensures
        sum_over(front_set(order, i + 1), |p: int| s[p].1 as int) <= weight_upto(
            s,
            s[order[i] as int].0,
        ),
        weight_upto(s, s[order[i] as int].0) <= full_weight(s),
{
    let v = s[order[i] as int].0;
    let w = |p: int| s[p].1 as int;
    lemma_weight_is_sum(s, v);
    assert forall|p: int| #[trigger] front_set(order, i + 1).contains(p) implies positions_upto(
        s,
        v,
    ).contains(p) by {
        let q = choose|q: int| 0 <= q < i + 1 && #[trigger] order[q] == p;
        assert(order[q] < s.len());
        if q < i {
            assert(by_value.ahead(order[q] as int, order[i] as int));
        }
        assert(by_value.items@[p].0 == s[p].0);
        assert(by_value.items@[order[i] as int].0 == v);
    }
    lemma_sum_subset(front_set(order, i + 1), positions_upto(s, v), w);
    lemma_weight_monotone(s, v, u64::MAX);
}

/// Everything below the value at a place has been listed before the place.
proof fn lemma_below_is_before<'a>(
    s: Seq<(u64, nat)>,
    order: Seq<usize>,
    i: int,
    by_value: &ByValue<'a>,
    x: u64,
)
    requires
        by_value.items@.len() == s.len(),
        s.len() <= usize::MAX,
        forall|j: int| 0 <= j < s.len() ==> (#[trigger] by_value.items@[j]).0 == s[j].0,
        lists_range(order, 0, s.len() as int),
        in_rank_order(by_value, order),
        0 <= i < order.len(),
        x < s[order[i] as int].0,
        front_set(order, i).finite(),
    ensures
        weight_upto(s, x) <= sum_over(front_set(order, i), |p: int| s[p].1 as int),
        holds_value(s, x) ==> i > 0,
{
    let w = |p: int| s[p].1 as int;
    lemma_weight_is_sum(s, x);
    assert forall|p: int| #[trigger] positions_upto(s, x).contains(p) implies front_set(
        order,
        i,
    ).contains(p) by {
        assert(order.contains(p as usize));
        let q = choose|q: int| 0 <= q < order.len() && order[q] == p as usize;
        assert(by_value.items@[p].0 == s[p].0);
        assert(by_value.items@[order[i] as int].0 == s[order[i] as int].0);
        if q > i {
            assert(by_value.ahead(order[i] as int, order[q] as int));
        }
        assert(order[q] == p);
    }
    lemma_sum_subset(positions_upto(s, x), front_set(order, i), w);
    if holds_value(s, x) {
        let q = choose|q: int| 0 <= q < s.len() && (#[trigger] s[q]).0 == x;
        assert(positions_upto(s, x).contains(q));
        assert(front_set(order, i).contains(q));
    }
}

proof fn lemma_weight_monotone(s: Seq<(u64, nat)>, a: u64, b: u64)
    requires
        a <= b,
    ensures
        weight_upto(s, a) <= weight_upto(s, b),
    decreases s.len(),
{
    if s.len() > 0 {
        lemma_weight_monotone(s.drop_last(), a, b);
    }
}

proof fn lemma_weight_prefix(s: Seq<(u64, nat)>, n: int, v: u64)
    requires
        0 <= n <= s.len(),
    ensures
        weight_upto(s.take(n), v) <= weight_upto(s, v),
    decreases s.len() - n,
{
    if n < s.len() {
        lemma_weight_prefix(s, n + 1, v);
        assert(s.take(n + 1).drop_last() =~= s.take(n));
    } else {
        assert(s.take(n) =~= s);
    }
}

impl Sketch for KllSketch {
    open spec fn wf(&self) -> bool {
        self@.shaped()
    }

    open spec fn compat(&self) -> Compat {
        self@.compat()
    }

    open spec fn update_fits(&self, key: Seq<u8>, value: u64) -> bool {
        self@.n < u64::MAX && self@.updates < u64::MAX
    }

    /// The key does not matter; the weight is the value.
    open spec fn is_updated(&self, key: Seq<u8>, value: u64, after: &Self) -> bool {
        after@ == self@.inserted(value)
    }

    open spec fn merge_fits(&self, other: &Self) -> bool {
        self@.n + other@.n <= u64::MAX && self@.updates + other@.updates <= u64::MAX
    }

    open spec fn is_merged(&self, other: &Self, after: &Self) -> bool {
        after@ == self@.merged(other@)
    }

    open spec fn is_cleared(&self, after: &Self) -> bool {
        after@ == Kll::empty(self@.k, self@.hash)
    }

    open spec fn updates(&self) -> u64 {
        self@.updates as u64
    }

    open spec fn memory_fits(&self) -> bool {
        true
    }

    open spec fn is_memory(&self, bytes: usize) -> bool {
        self@.is_memory(bytes)
    }

    fn update(&mut self, key: &[u8], value: u64) {
        self.insert(value);
    }

    fn merge_from(&mut self, other: &Self) -> (r: Result<(), SketchError>) {
        self.compatibility().ensure_matches(&other.compatibility())?;
        let ghost start = self@;
        let ghost theirs = other@.levels;
        let ghost goal = stacked(start.levels, theirs);
        while self.levels.len() < other.levels.len()
            invariant
                start.levels.len() <= self.levels@.len(),
                self.levels@.len() <= goal.len(),
                goal == stacked(start.levels, theirs),
                theirs == other@.levels,
                self@ == (Kll { levels: self@.levels, ..start }),
                forall|j: int|
                    0 <= j < self@.levels.len() ==> #[trigger] self@.levels[j] == if j
                        < start.levels.len() {
                        start.levels[j]
                    } else {
                        Seq::empty()
                    },
            decreases other.levels@.len() - self.levels@.len(),
        {
            let ghost before = self@.levels;
            self.levels.push(Vec::new());
            assert(self@.levels =~= before.push(Seq::empty()));
        }
        let mut level: usize = 0;
        while level < other.levels.len()
            invariant
                goal == stacked(start.levels, theirs),
                theirs == other@.levels,
                self.levels@.len() == goal.len(),
                other.levels@.len() <= goal.len(),
                level <= other.levels@.len(),
                self@ == (Kll { levels: self@.levels, ..start }),
                forall|j: int|
                    0 <= j < self@.levels.len() ==> #[trigger] self@.levels[j] == if j < level {
                        goal[j]
                    } else if j < start.levels.len() {
                        start.levels[j]
                    } else {
                        Seq::empty()
                    },
            decreases other.levels@.len() - level,
        {
            let ghost before = self@.levels;
            let ghost mid = *self;
            let ghost extra = theirs[level as int];
            let mut i: usize = 0;
            assert(before[level as int] + extra.take(0) =~= before[level as int]);
            while i < other.levels[level].len()
                invariant
                    level < other.levels@.len(),
                    level < self.levels@.len(),
                    extra == other.levels@[level as int]@,
                    self.levels@.len() == mid.levels@.len(),
                    *self == (KllSketch { levels: self.levels, ..mid }),
                    before == level_views(mid.levels@),
                    forall|j: int|
                        0 <= j < self.levels@.len() && j != level ==> #[trigger] self.levels@[j]
                            == mid.levels@[j],
                    i <= extra.len(),
                    self.levels@[level as int]@ == before[level as int] + extra.take(i as int),
                decreases extra.len() - i,
            {
                let v: u64 = other.levels[level][i];
                self.levels[level].push(v);
                proof {
                    assert(extra.take(i + 1) =~= extra.take(i as int).push(v));
                    assert(self.levels@[level as int]@ =~= before[level as int] + extra.take(
                        i + 1,
                    ));
                }
                i += 1;
            }
            proof {
                assert(extra.take(i as int) =~= extra);
                assert forall|j: int| 0 <= j < self@.levels.len() implies #[trigger] self@.levels[j]
                    == if j < level + 1 {
                    goal[j]
                } else if j < start.levels.len() {
                    start.levels[j]
                } else {
                    Seq::empty()
                } by {
                    if j != level {
                        assert(self.levels@[j] == mid.levels@[j]);
                        assert(self@.levels[j] == before[j]);
                    }
                }
            }
            level += 1;
        }
        assert(self@.levels =~= goal) by {
            assert forall|j: int| 0 <= j < goal.len() implies self@.levels[j] == goal[j] by {
                if j >= theirs.len() {
                    assert(goal[j] =~= start.levels[j]);
                }
            }
        }
        self.n = self.n + other.n;
        self.updates = self.updates + other.updates;
        self.rng_state = splitmix64(self.rng_state ^ other.rng_state);
        self.compress();
        Ok(())
    }

    fn memory_bytes(&self) -> (r: usize) {
        broadcast use layout_of_primitives;

        let mut rooms: Vec<usize> = Vec::new();
        while rooms.len() < self.levels.len()
            invariant
                rooms@.len() <= self.levels@.len(),
                forall|l: int|
                    0 <= l < rooms@.len() ==> is_room(
                        #[trigger] rooms@[l],
                        self@.levels[l].len(),
                        8,
                    ),
            decreases self.levels@.len() - rooms@.len(),
        {
            let room: usize = allocated(&self.levels[rooms.len()]);
            rooms.push(room);
        }
        assert(self@.has_rooms(rooms@));
        Self::held_bytes(&rooms)
    }

    fn reset(&mut self) {
        let mut levels: Vec<Vec<u64>> = Vec::new();
        levels.push(Vec::new());
        self.levels = levels;
        self.n = 0;
        self.rng_state = splitmix64(self.hash.seed ^ PARITY_TAG);
        self.updates = 0;
        assert(self@.levels =~= seq![Seq::<u64>::empty()]);
    }

    fn update_count(&self) -> (r: u64) {
        self.updates
    }

    fn compatibility(&self) -> (r: SketchCompatibility) {
        SketchCompatibility {
            algorithm: ALGORITHM.to_owned(),
            version: 1,
            hash: self.hash,
            params_hash: self.params_hash(),
        }
    }
}

// ---------------------------------------------------------------------------
// Laws
// ---------------------------------------------------------------------------

pub proof fn lemma_capacity_bound(k: int, depth: nat)
    requires
        k >= MIN_LEVEL_CAPACITY,
    ensures
        0 <= decayed(k, depth) <= k,
        MIN_LEVEL_CAPACITY <= capacity_at(k, depth) <= k,
    decreases depth,
{
    if depth > 0 {
        lemma_capacity_bound(k, (depth - 1) as nat);
    }
}

/// Some level holds this value.
pub open spec fn stores(levels: Seq<Seq<u64>>, v: u64) -> bool {
    exists|l: int| 0 <= l < levels.len() && (#[trigger] levels[l]).contains(v)
}

/// Compaction moves values up and drops some, and makes up none.
proof fn lemma_compacted_values(levels: Seq<Seq<u64>>, level: int, offset: int, v: u64)
    requires
        0 <= level < levels.len(),
        0 <= offset <= 1,
        levels[level].len() > 1,
        stores(compacted(levels, level, offset), v),
    ensures
        stores(levels, v),
{
    let t = compacted(levels, level, offset);
    let l = choose|l: int| 0 <= l < t.len() && (#[trigger] t[l]).contains(v);
    lemma_sorted_words(levels[level]);
    if l == level + 1 {
        let below = if level + 1 < levels.len() { levels[level + 1] } else { Seq::empty() };
        let i = choose|i: int| 0 <= i < t[l].len() && t[l][i] == v;
        if i < below.len() {
            assert(below[i] == v);
            assert(levels[level + 1].contains(v));
        } else {
            let j = i - below.len();
            let buf = sorted_words(levels[level]);
            assert(every_other(buf, offset)[j] == v);
            assert(buf[offset + 2 * j] == v);
            assert(buf.contains(v));
            assert(levels[level].contains(v));
        }
    } else {
        assert(levels[l].contains(v));
    }
}

/// What compression leaves: levels below are as they were, the others hold at
/// most `k` items, and all values were there before.
proof fn lemma_compressed(levels: Seq<Seq<u64>>, rng: u64, k: int, level: int)
    requires
        k >= MIN_LEVEL_CAPACITY,
        0 <= level,
    ensures
        ({
            let t = compressed(levels, rng, k, level).0;
            &&& t.len() >= levels.len()
            &&& forall|l: int| 0 <= l < level && l < levels.len() ==> #[trigger] t[l] == levels[l]
            &&& forall|l: int| level <= l < t.len() ==> (#[trigger] t[l]).len() <= k
            &&& forall|v: u64| #[trigger] stores(t, v) ==> stores(levels, v)
        }),
    decreases items_from(levels, level), levels.len() - level,
{
    if level < levels.len() {
        lemma_capacity_bound(k, (levels.len() - 1 - level) as nat);
        let t = compressed(levels, rng, k, level).0;
        if !overflows(levels, k, level) {
            lemma_compressed(levels, rng, k, level + 1);
            assert(t[level] == levels[level]);
        } else {
            let o = parity(mix(rng));
            let next = compacted(levels, level, o);
            lemma_compaction_shrinks(levels, level, o);
            lemma_compressed(next, mix(rng), k, level + 1);
            assert(t[level] == next[level]);
            assert forall|l: int| 0 <= l < level implies #[trigger] t[l] == levels[l] by {
                assert(t[l] == next[l]);
            }
            assert forall|v: u64| #[trigger] stores(t, v) implies stores(levels, v) by {
                assert(stores(next, v));
                lemma_compacted_values(levels, level, o, v);
            }
        }
    }
}

/// Memory is bounded: after an insertion or a merge no level holds more than
/// `k` items.
pub proof fn law_levels_are_bounded(s: Kll, v: u64, other: Kll)
    requires
        s.shaped(),
    ensures
        forall|l: int|
            0 <= l < s.inserted(v).levels.len() ==> (#[trigger] s.inserted(v).levels[l]).len()
                <= s.k,
        forall|l: int|
            0 <= l < s.merged(other).levels.len() ==> (#[trigger] s.merged(other).levels[l]).len()
                <= s.k,
{
    lemma_compressed(s.levels.update(0, s.levels[0].push(v)), s.rng, s.k, 0);
    lemma_compressed(stacked(s.levels, other.levels), mix(s.rng ^ other.rng), s.k, 0);
}

/// A sketch holds only values that were inserted.
pub proof fn law_values_were_inserted(k: int, hash: HashSpec, values: Seq<u64>, v: u64)
    requires
        k >= MIN_LEVEL_CAPACITY,
    ensures
        Kll::empty(k, hash).fed(values).shaped(),
        Kll::empty(k, hash).fed(values).k == k,
        Kll::empty(k, hash).fed(values).n == values.len(),
        stores(Kll::empty(k, hash).fed(values).levels, v) ==> values.contains(v),
    decreases values.len(),
{
    if values.len() == 0 {
        let e = Kll::empty(k, hash).levels;
        if stores(e, v) {
            let l = choose|l: int| 0 <= l < e.len() && (#[trigger] e[l]).contains(v);
            assert(e[l] =~= Seq::<u64>::empty());
        }
    } else {
        let front = values.drop_last();
        let x = values.last();
        law_values_were_inserted(k, hash, front, v);
        let s = Kll::empty(k, hash).fed(front);
        let grown = s.levels.update(0, s.levels[0].push(x));
        lemma_compressed(grown, s.rng, s.k, 0);
        if stores(Kll::empty(k, hash).fed(values).levels, v) {
            assert(stores(grown, v));
            let l = choose|l: int| 0 <= l < grown.len() && (#[trigger] grown[l]).contains(v);
            let i = choose|i: int| 0 <= i < grown[l].len() && grown[l][i] == v;
            if l == 0 && i == s.levels[0].len() {
                assert(values[values.len() - 1] == v);
            } else {
                assert(s.levels[l][i] == v);
                assert(s.levels[l].contains(v));
                let j = choose|j: int| 0 <= j < front.len() && front[j] == v;
                assert(values[j] == v);
            }
        }
    }
}

/// How many items are up to `v`.
pub open spec fn count_upto(s: Seq<u64>, v: u64) -> nat
    decreases s.len(),
{
    if s.len() == 0 {
        0
    } else {
        count_upto(s.drop_last(), v) + if s.last() <= v { 1nat } else { 0 }
    }
}

/// In an ascending sequence the items up to `v` come first.
proof fn lemma_count_upto_prefix(s: Seq<u64>, v: u64, r: int)
    requires
        0 <= r <= s.len(),
        forall|i: int| 0 <= i < r ==> #[trigger] s[i] <= v,
        forall|i: int| r <= i < s.len() ==> #[trigger] s[i] > v,
    ensures
        count_upto(s, v) == r,
    decreases s.len(),
{
    if s.len() > 0 {
        let t = s.drop_last();
        let q = if r == s.len() { r - 1 } else { r };
        lemma_count_upto_prefix(t, v, q);
    }
}

spec fn boundary(s: Seq<u64>, v: u64) -> int
    decreases s.len(),
{
    if s.len() == 0 || s[0] > v {
        0
    } else {
        1 + boundary(s.drop_first(), v)
    }
}

proof fn lemma_boundary(s: Seq<u64>, v: u64)
    requires
        forall|i: int, j: int| 0 <= i <= j < s.len() ==> #[trigger] s[i] <= #[trigger] s[j],
    ensures
        0 <= boundary(s, v) <= s.len(),
        forall|i: int| 0 <= i < boundary(s, v) ==> #[trigger] s[i] <= v,
        forall|i: int| boundary(s, v) <= i < s.len() ==> #[trigger] s[i] > v,
    decreases s.len(),
{
    if s.len() > 0 && s[0] <= v {
        let t = s.drop_first();
        assert forall|i: int, j: int| 0 <= i <= j < t.len() implies #[trigger] t[i]
            <= #[trigger] t[j] by {
            assert(s[i + 1] <= s[j + 1]);
        }
        lemma_boundary(t, v);
        assert forall|i: int| 0 <= i < boundary(s, v) implies #[trigger] s[i] <= v by {
            if i > 0 {
                assert(t[i - 1] == s[i]);
            }
        }
        assert forall|i: int| boundary(s, v) <= i < s.len() implies #[trigger] s[i] > v by {
            assert(t[i - 1] == s[i]);
        }
    }
}

/// Promoting every other item at double weight changes the weight up to any
/// value by at most one item's weight, whichever the parity.
pub proof fn law_compaction_keeps_ranks(s: Seq<u64>, offset: int, v: u64)
    requires
        0 <= offset <= 1,
        s.len() >= 1,
    ensures
        -1 <= 2 * count_upto(every_other(sorted_words(s), offset), v) - count_upto(
            sorted_words(s),
            v,
        ) <= 1,
        -1 <= 2 * every_other(sorted_words(s), offset).len() - s.len() <= 1,
{
    lemma_sorted_words(s);
    let t = sorted_words(s);
    lemma_boundary(t, v);
    let r = boundary(t, v);
    lemma_count_upto_prefix(t, v, r);
    let e = every_other(t, offset);
    let q = if r <= offset { 0 } else { (r - offset + 1) / 2 };
    assert forall|i: int| 0 <= i < q implies #[trigger] e[i] <= v by {
        assert(e[i] == t[offset + 2 * i]);
    }
    assert forall|i: int| q <= i < e.len() implies #[trigger] e[i] > v by {
        assert(e[i] == t[offset + 2 * i]);
    }
    lemma_count_upto_prefix(e, v, q);
}

/// Reading levels that were written gives the levels.
proof fn lemma_levels_read_back(levels: Seq<Seq<u64>>, known: Seq<Seq<u64>>)
    requires
        forall|l: int| 0 <= l < levels.len() ==> (#[trigger] levels[l]).len() <= u32::MAX,
    ensures
        read_levels(
            joined(levels.map_values(|l: Seq<u64>| level_bytes(l))),
            levels.len(),
            known,
        ) == Ok::<_, SketchErrorView>(known + levels),
        joined(levels.map_values(|l: Seq<u64>| level_bytes(l))).len() >= 4 * levels.len(),
    decreases levels.len(),
{
    let parts = levels.map_values(|l: Seq<u64>| level_bytes(l));
    if levels.len() == 0 {
        assert(known + levels =~= known);
    } else {
        let first = levels[0];
        let tail = levels.drop_first();
        let tail_parts = tail.map_values(|l: Seq<u64>| level_bytes(l));
        lemma_joined_first(parts);
        assert(parts.drop_first() =~= tail_parts);
        lemma_pow256_values();
        lemma_le_value_of_le(first.len(), 4);
        let ints = first.map_values(|v: u64| v as int);
        lemma_words_len(ints);
        let bytes = joined(parts);
        let n = first.len() as int;
        assert(bytes =~= le(first.len(), 4) + words(ints) + joined(tail_parts));
        assert(bytes.take(4) =~= le(first.len(), 4));
        assert(bytes.skip(4 + 8 * n) =~= joined(tail_parts));
        let back = level_at(bytes);
        assert forall|i: int| 0 <= i < n implies #[trigger] back[i] == first[i] by {
            lemma_words_index(ints, i);
            assert(bytes.subrange(4 + 8 * i, 4 + 8 * i + 8) =~= words(ints).subrange(
                8 * i,
                8 * i + 8,
            ));
            lemma_le_value_of_le(first[i] as nat, 8);
        }
        assert(back =~= first);
        assert forall|l: int| 0 <= l < tail.len() implies (#[trigger] tail[l]).len() <= u32::MAX by {
            assert(tail[l] == levels[l + 1]);
        }
        lemma_levels_read_back(tail, known.push(first));
        assert(known.push(first) + tail =~= known + levels);
    }
}

/// Reading a snapshot back gives the sketch that was written, for every
/// sketch whose levels and payload fit the format's length fields.
pub proof fn law_kll_snapshot_round_trip(s: Kll, window_start: u64, window_end: u64)
    requires
        s.shaped(),
        s.k <= usize::MAX,
        0 <= s.n <= u64::MAX,
        0 <= s.updates <= u64::MAX,
        s.levels.len() <= MAX_LEVELS,
        s.payload().len() <= u32::MAX,
        forall|l: int| 0 <= l < s.levels.len() ==> (#[trigger] s.levels[l]).len() <= u32::MAX,
    ensures
        Kll::from_snapshot(s.snapshot(window_start, window_end)) == Ok::<Kll, SketchErrorView>(s),
{
    lemma_pow256_values();
    let params = le(s.k as nat, 8);
    let payload = s.payload();
    lemma_le_value_of_le(s.k as nat, 8);
    lemma_le_value_of_le(s.n as nat, 8);
    lemma_le_value_of_le(s.rng as nat, 8);
    lemma_le_value_of_le(s.updates as nat, 8);
    lemma_le_value_of_le(s.levels.len(), 4);
    lemma_levels_read_back(s.levels, Seq::empty());
    law_snapshot_round_trip(
        SnapshotHeader {
            version: SNAPSHOT_VERSION,
            algorithm_id: algorithm_id::KLL,
            hash: s.hash,
            window_start_nanos: window_start,
            window_end_nanos: window_end,
        },
        params,
        payload,
    );
    assert(params.subrange(0, 8) =~= params);
    assert(payload.subrange(0, 8) =~= le(s.n as nat, 8));
    assert(payload.subrange(8, 16) =~= le(s.rng as nat, 8));
    assert(payload.subrange(16, 24) =~= le(s.updates as nat, 8));
    assert(payload.subrange(24, 28) =~= le(s.levels.len(), 4));
    assert(payload.skip(28) =~= joined(s.levels.map_values(|l: Seq<u64>| level_bytes(l))));
    assert(Seq::<Seq<u64>>::empty() + s.levels =~= s.levels);
}

} // verus!
