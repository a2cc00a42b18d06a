//! Where everything stands in a snapshot and in a push, byte by byte.

use vstd::arithmetic::power::{lemma_pow0, lemma_pow_positive, pow};
use vstd::prelude::*;
use vstd::utf8::encode_utf8;

use crate::algos::count_min::CountMin;
use crate::algos::count_sketch::SignedTable;
use crate::algos::hll::{Hll, Memory};
use crate::algos::hll_map::HllGroups;
use crate::algos::kll::Kll;
use crate::algos::misra_gries::Frequent;
use crate::algos::summary::Summary;
use crate::algos::table::{lemma_words_index, lemma_words_len, words};
use crate::bytes::{le, lemma_le_len, lemma_le_value_of_le, lemma_pow256_values};
use crate::gateway::batch::{batch_body, batch_bytes, PushBatchView};
use crate::hash::hash_of;
use crate::snapshot::{field_at, snapshot_body, snapshot_bytes, SnapshotHeader};

verus! {

/// Numbers are written with their lowest byte first.
pub proof fn law_numbers_begin_with_their_lowest_byte(v: nat, n: nat, i: nat)
    requires
        i < n,
    ensures
        le(v, n).len() == n,
        le(v, n)[i as int] as int == v as int / pow(256, i) % 256,
    decreases i,
{
    lemma_le_len(v, n);
    if i == 0 {
        lemma_pow0(256);
    } else {
        let j = (i - 1) as nat;
        law_numbers_begin_with_their_lowest_byte(v / 256, (n - 1) as nat, j);
        assert(le(v, n)[i as int] == le(v / 256, (n - 1) as nat)[j as int]);
        lemma_pow_positive(256, j);
        vstd::arithmetic::power::lemma_pow1(256);
        vstd::arithmetic::power::lemma_pow_adds(256, 1, j);
        vstd::arithmetic::div_mod::lemma_div_denominator(v as int, 256, pow(256, j));
    }
}

/// `part` stands in `bytes` from `at` on.
pub open spec fn stands_at(bytes: Seq<u8>, at: int, part: Seq<u8>) -> bool {
    &&& 0 <= at
    &&& at + part.len() <= bytes.len()
    &&& bytes.subrange(at, at + part.len() as int) == part
}

/// A number of `n` bytes that stands at a place is the value there.
proof fn lemma_number(bytes: Seq<u8>, at: int, v: nat, n: nat)
    requires
        stands_at(bytes, at, le(v, n)),
        n == 2 && v <= 0xFFFF || n == 4 && v <= 0xFFFF_FFFF || n == 8 && v
            <= 0xFFFF_FFFF_FFFF_FFFF,
    ensures
        field_at(bytes, at, n as int) == v,
{
    lemma_pow256_values();
    lemma_le_len(v, n);
    lemma_le_value_of_le(v, n);
}

/// Where the parts of a snapshot stand: the four bytes `FSK1`, the version, the
/// algorithm, the hash with its seed and version, the window, and the parameters
/// and the payload behind their lengths; at the end a checksum of all before it.
pub proof fn law_snapshot_layout(h: SnapshotHeader, params: Seq<u8>, payload: Seq<u8>)
    requires
        params.len() <= 0xFFFF_FFFF,
        payload.len() <= 0xFFFF_FFFF,
    ensures
        ({
            let b = snapshot_bytes(h, params, payload);
            let p = params.len() as int;
            let q = payload.len() as int;
            &&& b.len() == 51 + p + q
            &&& b[0] == 0x46 && b[1] == 0x53 && b[2] == 0x4B && b[3] == 0x31
            &&& field_at(b, 4, 2) == h.version
            &&& field_at(b, 6, 2) == h.algorithm_id
            &&& b[8] == 0
            &&& field_at(b, 9, 8) == h.hash.seed
            &&& field_at(b, 17, 2) == h.hash.version
            &&& field_at(b, 19, 8) == h.window_start_nanos
            &&& field_at(b, 27, 8) == h.window_end_nanos
            &&& field_at(b, 35, 4) == p
            &&& stands_at(b, 39, params)
            &&& field_at(b, 39 + p, 4) == q
            &&& stands_at(b, 43 + p, payload)
            &&& field_at(b, 43 + p + q, 8) == hash_of(b.take(43 + p + q), 0)
        }),
{
    let b = snapshot_bytes(h, params, payload);
    let body = snapshot_body(h, params, payload);
    let p = params.len() as int;
    let q = payload.len() as int;
    lemma_le_len(h.version as nat, 2);
    lemma_le_len(h.algorithm_id as nat, 2);
    lemma_le_len(h.hash.seed as nat, 8);
    lemma_le_len(h.hash.version as nat, 2);
    lemma_le_len(h.window_start_nanos as nat, 8);
    lemma_le_len(h.window_end_nanos as nat, 8);
    lemma_le_len(params.len(), 4);
    lemma_le_len(payload.len(), 4);
    lemma_le_len(hash_of(body, 0) as nat, 8);
    assert(b.subrange(4, 6) =~= le(h.version as nat, 2));
    assert(b.subrange(6, 8) =~= le(h.algorithm_id as nat, 2));
    assert(b.subrange(9, 17) =~= le(h.hash.seed as nat, 8));
    assert(b.subrange(17, 19) =~= le(h.hash.version as nat, 2));
    assert(b.subrange(19, 27) =~= le(h.window_start_nanos as nat, 8));
    assert(b.subrange(27, 35) =~= le(h.window_end_nanos as nat, 8));
    assert(b.subrange(35, 39) =~= le(params.len(), 4));
    assert(b.subrange(39, 39 + p) =~= params);
    assert(b.subrange(39 + p, 43 + p) =~= le(payload.len(), 4));
    assert(b.subrange(43 + p, 43 + p + q) =~= payload);
    assert(b.subrange(43 + p + q, 51 + p + q) =~= le(hash_of(body, 0) as nat, 8));
    assert(b.take(43 + p + q) =~= body);
    lemma_number(b, 4, h.version as nat, 2);
    lemma_number(b, 6, h.algorithm_id as nat, 2);
    lemma_number(b, 9, h.hash.seed as nat, 8);
    lemma_number(b, 17, h.hash.version as nat, 2);
    lemma_number(b, 19, h.window_start_nanos as nat, 8);
    lemma_number(b, 27, h.window_end_nanos as nat, 8);
    lemma_number(b, 35, params.len(), 4);
    lemma_number(b, 39 + p, payload.len(), 4);
    lemma_number(b, 43 + p + q, hash_of(body, 0) as nat, 8);
}

/// A snapshot of this algorithm, window and hash, with its parameters and
/// payload in their places.
pub open spec fn is_laid_out(
    b: Seq<u8>,
    algorithm: nat,
    seed: u64,
    start: u64,
    end: u64,
    params: Seq<u8>,
    payload: Seq<u8>,
) -> bool {
    &&& b.len() == 51 + params.len() + payload.len()
    &&& field_at(b, 4, 2) == 2
    &&& field_at(b, 6, 2) == algorithm
    &&& field_at(b, 9, 8) == seed
    &&& field_at(b, 19, 8) == start
    &&& field_at(b, 27, 8) == end
    &&& stands_at(b, 39, params)
    &&& stands_at(b, 43 + params.len() as int, payload)
}

/// A Count-Min snapshot: width, depth and kind of update; total, updates, and
/// the table row by row.
pub proof fn law_count_min_layout(s: CountMin, start: u64, end: u64)
    requires
        s.shaped(),
        s.fits(),
        s.width <= 0xFFFF_FFFF,
        s.depth <= 0xFFFF_FFFF,
        16 + 8 * s.table.len() <= 0xFFFF_FFFF,
    ensures
        exists|params: Seq<u8>, payload: Seq<u8>|
            {
                &&& #[trigger] is_laid_out(
                    s.snapshot(start, end),
                    1,
                    s.hash.seed,
                    start,
                    end,
                    params,
                    payload,
                )
                &&& params.len() == 9
                &&& field_at(params, 0, 4) == s.width
                &&& field_at(params, 4, 4) == s.depth
                &&& params[8] == (if s.conservative {
                    1u8
                } else {
                    0u8
                })
                &&& payload.len() == 16 + 8 * s.table.len()
                &&& field_at(payload, 0, 8) == s.total
                &&& field_at(payload, 8, 8) == s.updates
                &&& forall|i: int|
                    0 <= i < s.table.len() ==> field_at(payload, 16 + 8 * i, 8)
                        == #[trigger] s.table[i]
            },
{
    let kind = if s.conservative {
        1u8
    } else {
        0u8
    };
    let w = s.width as usize as u32 as nat;
    let d = s.depth as usize as u32 as nat;
    let params = le(w, 4) + le(d, 4) + seq![kind];
    let table = words(s.table);
    let payload = le(s.total as nat, 8) + le(s.updates as nat, 8) + table;
    lemma_le_len(w, 4);
    lemma_le_len(d, 4);
    lemma_le_len(s.total as nat, 8);
    lemma_le_len(s.updates as nat, 8);
    lemma_words_len(s.table);
    assert(params.subrange(0, 4) =~= le(w, 4));
    assert(params.subrange(4, 8) =~= le(d, 4));
    lemma_number(params, 0, w, 4);
    lemma_number(params, 4, d, 4);
    assert(payload.subrange(0, 8) =~= le(s.total as nat, 8));
    assert(payload.subrange(8, 16) =~= le(s.updates as nat, 8));
    lemma_number(payload, 0, s.total as nat, 8);
    lemma_number(payload, 8, s.updates as nat, 8);
    assert forall|i: int| 0 <= i < s.table.len() implies field_at(payload, 16 + 8 * i, 8)
        == #[trigger] s.table[i] by {
        lemma_words_index(s.table, i);
        lemma_le_len(s.table[i] as u64 as nat, 8);
        assert(payload.subrange(16 + 8 * i, 24 + 8 * i) =~= table.subrange(8 * i, 8 * i + 8));
        lemma_number(payload, 16 + 8 * i, s.table[i] as u64 as nat, 8);
    }
    law_snapshot_layout(
        SnapshotHeader {
            version: 2,
            algorithm_id: 1,
            hash: s.hash,
            window_start_nanos: start,
            window_end_nanos: end,
        },
        params,
        payload,
    );
    assert(is_laid_out(s.snapshot(start, end), 1, s.hash.seed, start, end, params, payload));
}

/// A Count-Sketch snapshot: width and depth; updates, and the table row by row.
pub proof fn law_count_sketch_layout(s: SignedTable, start: u64, end: u64)
    requires
        0 <= s.width <= 0xFFFF_FFFF,
        0 <= s.depth <= 0xFFFF_FFFF,
        s.fits(),
        8 + 8 * s.table.len() <= 0xFFFF_FFFF,
    ensures
        exists|params: Seq<u8>, payload: Seq<u8>|
            {
                &&& #[trigger] is_laid_out(
                    s.snapshot(start, end),
                    2,
                    s.hash.seed,
                    start,
                    end,
                    params,
                    payload,
                )
                &&& params.len() == 8
                &&& field_at(params, 0, 4) == s.width
                &&& field_at(params, 4, 4) == s.depth
                &&& payload.len() >= 8
                &&& field_at(payload, 0, 8) == s.updates
            },
{
    lemma_words_len(s.table);
    let params = le(s.width as usize as u32 as nat, 4) + le(s.depth as usize as u32 as nat, 4);
    let payload = le(s.updates as nat, 8) + words(s.table);
    lemma_le_len(s.width as nat, 4);
    lemma_le_len(s.depth as nat, 4);
    lemma_le_len(s.updates as nat, 8);
    assert(params.subrange(0, 4) =~= le(s.width as nat, 4));
    lemma_number(params, 0, s.width as nat, 4);
    assert(params.subrange(4, 8) =~= le(s.depth as nat, 4));
    lemma_number(params, 4, s.depth as nat, 4);
    assert(payload.subrange(0, 8) =~= le(s.updates as nat, 8));
    lemma_number(payload, 0, s.updates as nat, 8);
    law_snapshot_layout(
        SnapshotHeader {
            version: 2,
            algorithm_id: 2,
            hash: s.hash,
            window_start_nanos: start,
            window_end_nanos: end,
        },
        params,
        payload,
    );
    assert(is_laid_out(s.snapshot(start, end), 2, s.hash.seed, start, end, params, payload));
}

/// A SpaceSaving snapshot: the capacity; total, updates and the number of keys.
pub proof fn law_space_saving_layout(s: Summary, start: u64, end: u64)
    requires
        0 <= s.capacity <= u64::MAX,
        s.fits(),
        s.entries.dom().len() <= 0xFFFF_FFFF,
        s.payload().len() <= 0xFFFF_FFFF,
    ensures
        exists|params: Seq<u8>, payload: Seq<u8>|
            {
                &&& #[trigger] is_laid_out(
                    s.snapshot(start, end),
                    4,
                    s.hash.seed,
                    start,
                    end,
                    params,
                    payload,
                )
                &&& params.len() == 8
                &&& field_at(params, 0, 8) == s.capacity
                &&& payload.len() >= 20
                &&& field_at(payload, 0, 8) == s.total
                &&& field_at(payload, 8, 8) == s.updates
                &&& field_at(payload, 16, 4) == s.entries.dom().len()
            },
{
    let params = le(s.capacity as nat, 8);
    let payload = s.payload();
    lemma_le_len(s.capacity as nat, 8);
    lemma_le_len(s.total as nat, 8);
    lemma_le_len(s.updates as nat, 8);
    lemma_le_len(s.entries.dom().len() as nat, 4);
    assert(params.subrange(0, 8) =~= le(s.capacity as nat, 8));
    lemma_number(params, 0, s.capacity as nat, 8);
    assert(payload.subrange(0, 8) =~= le(s.total as nat, 8));
    lemma_number(payload, 0, s.total as nat, 8);
    assert(payload.subrange(8, 16) =~= le(s.updates as nat, 8));
    lemma_number(payload, 8, s.updates as nat, 8);
    assert(payload.subrange(16, 20) =~= le(s.entries.dom().len() as nat, 4));
    lemma_number(payload, 16, s.entries.dom().len() as nat, 4);
    law_snapshot_layout(
        SnapshotHeader {
            version: 2,
            algorithm_id: 4,
            hash: s.hash,
            window_start_nanos: start,
            window_end_nanos: end,
        },
        params,
        payload,
    );
    assert(is_laid_out(s.snapshot(start, end), 4, s.hash.seed, start, end, params, payload));
}

/// A Misra-Gries snapshot: the capacity; total, updates and the number of keys.
pub proof fn law_misra_gries_layout(s: Frequent, start: u64, end: u64)
    requires
        0 <= s.capacity <= u64::MAX,
        s.fits(),
        s.counters.dom().len() <= 0xFFFF_FFFF,
        s.payload().len() <= 0xFFFF_FFFF,
    ensures
        exists|params: Seq<u8>, payload: Seq<u8>|
            {
                &&& #[trigger] is_laid_out(
                    s.snapshot(start, end),
                    5,
                    s.hash.seed,
                    start,
                    end,
                    params,
                    payload,
                )
                &&& params.len() == 8
                &&& field_at(params, 0, 8) == s.capacity
                &&& payload.len() >= 20
                &&& field_at(payload, 0, 8) == s.total
                &&& field_at(payload, 8, 8) == s.updates
                &&& field_at(payload, 16, 4) == s.counters.dom().len()
            },
{
    let params = le(s.capacity as nat, 8);
    let payload = s.payload();
    lemma_le_len(s.capacity as nat, 8);
    lemma_le_len(s.total as nat, 8);
    lemma_le_len(s.updates as nat, 8);
    lemma_le_len(s.counters.dom().len() as nat, 4);
    assert(params.subrange(0, 8) =~= le(s.capacity as nat, 8));
    lemma_number(params, 0, s.capacity as nat, 8);
    assert(payload.subrange(0, 8) =~= le(s.total as nat, 8));
    lemma_number(payload, 0, s.total as nat, 8);
    assert(payload.subrange(8, 16) =~= le(s.updates as nat, 8));
    lemma_number(payload, 8, s.updates as nat, 8);
    assert(payload.subrange(16, 20) =~= le(s.counters.dom().len() as nat, 4));
    lemma_number(payload, 16, s.counters.dom().len() as nat, 4);
    law_snapshot_layout(
        SnapshotHeader {
            version: 2,
            algorithm_id: 5,
            hash: s.hash,
            window_start_nanos: start,
            window_end_nanos: end,
        },
        params,
        payload,
    );
    assert(is_laid_out(s.snapshot(start, end), 5, s.hash.seed, start, end, params, payload));
}

/// A KLL snapshot: the size parameter; the number of values, the state of its
/// random stream, updates and the number of levels.
pub proof fn law_kll_layout(s: Kll, start: u64, end: u64)
    requires
        0 <= s.k <= u64::MAX,
        0 <= s.n <= u64::MAX,
        0 <= s.updates <= u64::MAX,
        s.levels.len() <= 0xFFFF_FFFF,
        s.payload().len() <= 0xFFFF_FFFF,
    ensures
        exists|params: Seq<u8>, payload: Seq<u8>|
            {
                &&& #[trigger] is_laid_out(
                    s.snapshot(start, end),
                    8,
                    s.hash.seed,
                    start,
                    end,
                    params,
                    payload,
                )
                &&& params.len() == 8
                &&& field_at(params, 0, 8) == s.k
                &&& payload.len() >= 28
                &&& field_at(payload, 0, 8) == s.n
                &&& field_at(payload, 8, 8) == s.rng
                &&& field_at(payload, 16, 8) == s.updates
                &&& field_at(payload, 24, 4) == s.levels.len()
            },
{
    let params = le(s.k as nat, 8);
    let payload = s.payload();
    lemma_le_len(s.k as nat, 8);
    lemma_le_len(s.n as nat, 8);
    lemma_le_len(s.rng as nat, 8);
    lemma_le_len(s.updates as nat, 8);
    lemma_le_len(s.levels.len() as nat, 4);
    assert(params.subrange(0, 8) =~= le(s.k as nat, 8));
    lemma_number(params, 0, s.k as nat, 8);
    assert(payload.subrange(0, 8) =~= le(s.n as nat, 8));
    lemma_number(payload, 0, s.n as nat, 8);
    assert(payload.subrange(8, 16) =~= le(s.rng as nat, 8));
    lemma_number(payload, 8, s.rng as nat, 8);
    assert(payload.subrange(16, 24) =~= le(s.updates as nat, 8));
    lemma_number(payload, 16, s.updates as nat, 8);
    assert(payload.subrange(24, 28) =~= le(s.levels.len() as nat, 4));
    lemma_number(payload, 24, s.levels.len() as nat, 4);
    law_snapshot_layout(
        SnapshotHeader {
            version: 2,
            algorithm_id: 8,
            hash: s.hash,
            window_start_nanos: start,
            window_end_nanos: end,
        },
        params,
        payload,
    );
    assert(is_laid_out(s.snapshot(start, end), 8, s.hash.seed, start, end, params, payload));
}

/// A snapshot of a map of sketches: the most keys and the precision; updates,
/// evictions and the number of keys.
pub proof fn law_hll_map_layout(s: HllGroups, start: u64, end: u64)
    requires
        0 <= s.max_keys <= u64::MAX,
        0 <= s.updates <= u64::MAX,
        0 <= s.evicted <= u64::MAX,
        s.groups.dom().len() <= 0xFFFF_FFFF,
        s.payload(start, end).len() <= 0xFFFF_FFFF,
    ensures
        exists|params: Seq<u8>, payload: Seq<u8>|
            {
                &&& #[trigger] is_laid_out(
                    s.snapshot(start, end),
                    6,
                    s.hash.seed,
                    start,
                    end,
                    params,
                    payload,
                )
                &&& params.len() == 9
                &&& field_at(params, 0, 8) == s.max_keys
                &&& params[8] == s.precision
                &&& payload.len() >= 20
                &&& field_at(payload, 0, 8) == s.updates
                &&& field_at(payload, 8, 8) == s.evicted
                &&& field_at(payload, 16, 4) == s.groups.dom().len()
            },
{
    let params = le(s.max_keys as nat, 8) + seq![s.precision];
    let payload = s.payload(start, end);
    lemma_le_len(s.max_keys as nat, 8);
    lemma_le_len(s.updates as nat, 8);
    lemma_le_len(s.evicted as nat, 8);
    lemma_le_len(s.groups.dom().len() as nat, 4);
    assert(params.subrange(0, 8) =~= le(s.max_keys as nat, 8));
    lemma_number(params, 0, s.max_keys as nat, 8);
    assert(payload.subrange(0, 8) =~= le(s.updates as nat, 8));
    lemma_number(payload, 0, s.updates as nat, 8);
    assert(payload.subrange(8, 16) =~= le(s.evicted as nat, 8));
    lemma_number(payload, 8, s.evicted as nat, 8);
    assert(payload.subrange(16, 20) =~= le(s.groups.dom().len() as nat, 4));
    lemma_number(payload, 16, s.groups.dom().len() as nat, 4);
    law_snapshot_layout(
        SnapshotHeader {
            version: 2,
            algorithm_id: 6,
            hash: s.hash,
            window_start_nanos: start,
            window_end_nanos: end,
        },
        params,
        payload,
    );
    assert(is_laid_out(s.snapshot(start, end), 6, s.hash.seed, start, end, params, payload));
}

/// A HyperLogLog snapshot: the precision; updates, and either hashes, behind the
/// kind zero and their number, or registers, behind the kind one.
pub proof fn law_hll_layout(s: Hll, start: u64, end: u64)
    requires
        0 <= s.updates <= u64::MAX,
        s.payload().len() <= 0xFFFF_FFFF,
        s.memory matches Memory::Hashes(h) ==> h.len() <= 0xFFFF_FFFF,
    ensures
        exists|params: Seq<u8>, payload: Seq<u8>|
            {
                &&& #[trigger] is_laid_out(
                    s.snapshot(start, end),
                    3,
                    s.hash.seed,
                    start,
                    end,
                    params,
                    payload,
                )
                &&& params == seq![s.precision]
                &&& payload.len() >= 9
                &&& field_at(payload, 0, 8) == s.updates
                &&& s.memory matches Memory::Hashes(h) ==> {
                    &&& payload[8] == 0
                    &&& payload.len() == 13 + 8 * h.len()
                    &&& field_at(payload, 9, 4) == h.len()
                    &&& forall|i: int|
                        0 <= i < h.len() ==> field_at(payload, 13 + 8 * i, 8) == #[trigger] h[i]
                }
                &&& s.memory matches Memory::Registers(r) ==> payload[8] == 1 && stands_at(
                    payload,
                    9,
                    r,
                ) && payload.len() == 9 + r.len()
            },
{
    reveal(Hll::snapshot);
    let params = seq![s.precision];
    let payload = s.payload();
    lemma_le_len(s.updates as nat, 8);
    assert(payload.subrange(0, 8) =~= le(s.updates as nat, 8));
    lemma_number(payload, 0, s.updates as nat, 8);
    match s.memory {
        Memory::Hashes(h) => {
            let numbers = h.map_values(|x: u64| x as int);
            let w = words(numbers);
            lemma_le_len(h.len(), 4);
            lemma_words_len(numbers);
            assert(payload.subrange(9, 13) =~= le(h.len(), 4));
            lemma_number(payload, 9, h.len(), 4);
            assert forall|i: int| 0 <= i < h.len() implies field_at(payload, 13 + 8 * i, 8)
                == #[trigger] h[i] by {
                lemma_words_index(numbers, i);
                lemma_le_len(h[i] as nat, 8);
                assert(payload.subrange(13 + 8 * i, 21 + 8 * i) =~= w.subrange(8 * i, 8 * i + 8));
                lemma_number(payload, 13 + 8 * i, h[i] as nat, 8);
            }
        },
        Memory::Registers(r) => {
            assert(payload.subrange(9, 9 + r.len() as int) =~= r);
        },
    }
    let header = SnapshotHeader {
        version: 2,
        algorithm_id: 3,
        hash: s.hash,
        window_start_nanos: start,
        window_end_nanos: end,
    };
    law_snapshot_layout(header, params, payload);
    assert(is_laid_out(s.snapshot(start, end), 3, s.hash.seed, start, end, params, payload));
}

/// A push: the four bytes `FSKB`, the version, the name of the node and the
/// number of entries; at the end a checksum of all before it.
pub proof fn law_push_layout(b: PushBatchView)
    requires
        encode_utf8(b.node).len() <= 0xFFFF_FFFF,
        b.entries.len() <= 0xFFFF_FFFF,
    ensures
        ({
            let bytes = batch_bytes(b);
            let name = encode_utf8(b.node);
            let n = name.len() as int;
            &&& bytes.len() >= 22 + n
            &&& bytes[0] == 0x46 && bytes[1] == 0x53 && bytes[2] == 0x4B && bytes[3] == 0x42
            &&& field_at(bytes, 4, 2) == 1
            &&& field_at(bytes, 6, 4) == n
            &&& stands_at(bytes, 10, name)
            &&& field_at(bytes, 10 + n, 4) == b.entries.len()
            &&& field_at(bytes, bytes.len() - 8, 8) == hash_of(bytes.take(bytes.len() - 8), 0)
        }),
{
    let bytes = batch_bytes(b);
    let body = batch_body(b);
    let name = encode_utf8(b.node);
    let n = name.len() as int;
    lemma_le_len(1, 2);
    lemma_le_len(name.len(), 4);
    lemma_le_len(b.entries.len(), 4);
    lemma_le_len(hash_of(body, 0) as nat, 8);
    assert(bytes.subrange(4, 6) =~= le(1, 2));
    assert(bytes.subrange(6, 10) =~= le(name.len(), 4));
    assert(bytes.subrange(10, 10 + n) =~= name);
    assert(bytes.subrange(10 + n, 14 + n) =~= le(b.entries.len(), 4));
    assert(bytes.subrange(bytes.len() - 8, bytes.len() as int) =~= le(
        hash_of(body, 0) as nat,
        8,
    ));
    assert(bytes.take(bytes.len() - 8) =~= body);
    lemma_number(bytes, 4, 1, 2);
    lemma_number(bytes, 6, name.len(), 4);
    lemma_number(bytes, 10 + n, b.entries.len(), 4);
    lemma_number(bytes, bytes.len() - 8, hash_of(body, 0) as nat, 8);
}

} // verus!
