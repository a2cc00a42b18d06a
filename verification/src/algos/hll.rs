//! HyperLogLog (Flajolet et al. 2007) cardinality sketches over 64-bit
//! hashes.
//!
//! The relative standard error of an estimate is about
//! `1.04 / sqrt(2^precision)`. Small cardinalities are kept as an exact,
//! sorted set of hashes, which converts to registers before it can take more
//! bytes than the registers do.

use vstd::layout::{layout_for_type_is_valid, layout_of_primitives, size_of};
use vstd::prelude::*;
use vstd::std_specs::bits::u64_leading_zeros;
use vstd::string::*;

use crate::algos::table::{lemma_words_index, lemma_words_len, words};
use crate::bytes::{copy_bytes, le, lemma_le_value_of_le, lemma_pow256_values};
use crate::error::{SketchError, SketchErrorView};
use crate::hash::{hash64, hash_of, law_hash_tells_bytes_apart, HashSpec};
use crate::memory::{allocated, capped, is_room, plus, times};
use crate::sketch::{Compat, Sketch, SketchCompatibility};
use crate::snapshot::{
    algorithm_id, count_error, field_at, law_snapshot_round_trip, read_snapshot, snapshot_bytes,
    snapshot_content, snapshot_err, write_snapshot, Reader, SnapshotHeader, Writer,
    SNAPSHOT_VERSION,
};
use crate::text::{dec, push_decimal};

verus! {

pub const ALGORITHM: &'static str = "hll";

pub const MIN_PRECISION: u8 = 4;

pub const MAX_PRECISION: u8 = 18;

pub const STORAGE_SPARSE: u8 = 0;

pub const STORAGE_DENSE: u8 = 1;

/// Hashes that take at most a quarter of the registers' bytes stay sparse.
const REGISTERS_PER_HASH: usize = 32;

#[derive(Debug, Clone)]
pub struct HyperLogLog {
    precision: u8,
    hash: HashSpec,
    storage: RegisterStorage,
    updates: u64,
}

#[derive(Debug, Clone)]
enum RegisterStorage {
    Empty,
    Singleton(u64),
    Sparse(Vec<u64>),
    Dense(Vec<u8>),
}

/// What a sketch remembers of the hashes it has seen.
#[verifier::ext_equal]
pub ghost enum Memory {
    /// All of them, ascending.
    Hashes(Seq<u64>),
    /// Per register the highest rank.
    Registers(Seq<u8>),
}

/// The mathematical state of a [`HyperLogLog`].
#[verifier::ext_equal]
pub ghost struct Hll {
    pub precision: u8,
    pub hash: HashSpec,
    pub memory: Memory,
    pub updates: int,
}

// ---------------------------------------------------------------------------
// Registers
// ---------------------------------------------------------------------------

pub open spec fn valid_precision(p: u8) -> bool {
    MIN_PRECISION <= p <= MAX_PRECISION
}

/// Number of registers.
pub open spec fn register_count(p: u8) -> int {
    (1u64 << (p as u64)) as int
}

/// How many hashes are kept before registers take over.
pub open spec fn sparse_limit_of(p: u8) -> int {
    if register_count(p) / 32 < 1 {
        1
    } else {
        register_count(p) / 32
    }
}

/// The register that a hash belongs to: its leading `p` bits.
pub open spec fn register_index(p: u8, h: u64) -> int {
    (h >> ((64 - p) as u64)) as int
}

/// The position of the first one bit behind the leading `p` bits.
pub open spec fn register_rank(p: u8, h: u64) -> int {
    let zeros = u64_leading_zeros(h << (p as u64)) as int;
    if zeros + 1 < 65 - p {
        zeros + 1
    } else {
        65 - p
    }
}

pub open spec fn max_rank(p: u8) -> int {
    65 - p
}

/// Registers after one more hash.
pub open spec fn raised(r: Seq<u8>, p: u8, h: u64) -> Seq<u8> {
    let i = register_index(p, h);
    if register_rank(p, h) > r[i] {
        r.update(i, register_rank(p, h) as u8)
    } else {
        r
    }
}

/// Registers before any hash.
pub open spec fn zeros(p: u8) -> Seq<u8> {
    Seq::new(register_count(p) as nat, |i: int| 0u8)
}

/// Registers after some more hashes.
pub open spec fn raised_all(r: Seq<u8>, p: u8, hashes: Seq<u64>) -> Seq<u8>
    decreases hashes.len(),
{
    if hashes.len() == 0 {
        r
    } else {
        raised(raised_all(r, p, hashes.drop_last()), p, hashes.last())
    }
}

/// Register by register the larger rank.
pub open spec fn larger(a: Seq<u8>, b: Seq<u8>) -> Seq<u8> {
    Seq::new(
        a.len(),
        |i: int|
            if i < b.len() && b[i] > a[i] {
                b[i]
            } else {
                a[i]
            },
    )
}

pub open spec fn strictly_ascending(s: Seq<u64>) -> bool {
    forall|i: int, j: int| 0 <= i < j < s.len() ==> s[i] < s[j]
}

/// Where `h` belongs in an ascending sequence: behind all smaller ones.
pub open spec fn insertion_point(s: Seq<u64>, h: u64) -> int
    decreases s.len(),
{
    if s.len() == 0 || s[0] >= h {
        0
    } else {
        1 + insertion_point(s.drop_first(), h)
    }
}

impl Hll {
    pub open spec fn empty(precision: u8, hash: HashSpec) -> Hll {
        Hll { precision, hash, memory: Memory::Hashes(Seq::empty()), updates: 0 }
    }

    /// The bytes that a sketch in this state can hold. No more than one hash
    /// is kept within the sketch itself; more of them, and registers, are in a
    /// vector, whose room is up to the allocator.
    pub open spec fn is_memory(self, bytes: usize) -> bool {
        match self.memory {
            Memory::Hashes(s) => if s.len() <= 1 {
                bytes == size_of::<HyperLogLog>()
            } else {
                exists|room: usize| #[trigger]
                    is_room(room, s.len(), 8) && bytes == 8 * room + size_of::<HyperLogLog>()
            },
            Memory::Registers(r) => exists|room: usize| #[trigger]
                is_room(room, r.len(), 1) && bytes == room + size_of::<HyperLogLog>(),
        }
    }

    /// Precision, number of hashes and ranks are in range.
    pub open spec fn shaped(self) -> bool {
        &&& valid_precision(self.precision)
        &&& 0 <= self.updates <= u64::MAX
        &&& match self.memory {
            Memory::Hashes(s) => strictly_ascending(s) && s.len() <= sparse_limit_of(
                self.precision,
            ),
            Memory::Registers(r) => r.len() == register_count(self.precision) && forall|i: int|
                0 <= i < r.len() ==> #[trigger] r[i] <= max_rank(self.precision),
        }
    }

    /// The registers, whether or not they are what is kept.
    pub open spec fn registers(self) -> Seq<u8> {
        match self.memory {
            Memory::Hashes(s) => raised_all(zeros(self.precision), self.precision, s),
            Memory::Registers(r) => r,
        }
    }

    /// One more hash.
    pub open spec fn with_hash(self, h: u64) -> Hll {
        let p = self.precision;
        match self.memory {
            Memory::Hashes(s) => if s.contains(h) {
                self
            } else if s.len() < sparse_limit_of(p) {
                Hll { memory: Memory::Hashes(s.insert(insertion_point(s, h), h)), ..self }
            } else {
                Hll { memory: Memory::Registers(raised(self.registers(), p, h)), ..self }
            },
            Memory::Registers(r) => Hll { memory: Memory::Registers(raised(r, p, h)), ..self },
        }
    }

    pub open spec fn with_hashes(self, hashes: Seq<u64>) -> Hll
        decreases hashes.len(),
    {
        if hashes.len() == 0 {
            self
        } else {
            self.with_hashes(hashes.drop_last()).with_hash(hashes.last())
        }
    }

    /// The state after `key` has been seen.
    pub open spec fn inserted(self, key: Seq<u8>) -> Hll {
        Hll { updates: self.updates + 1, ..self.with_hash(hash_of(key, self.hash.seed)) }
    }

    pub open spec fn fed(self, keys: Seq<Seq<u8>>) -> Hll
        decreases keys.len(),
    {
        if keys.len() == 0 {
            self
        } else {
            self.fed(keys.drop_last()).inserted(keys.last())
        }
    }

    pub open spec fn merged(self, other: Hll) -> Hll {
        let joint = match other.memory {
            Memory::Hashes(s) => self.with_hashes(s),
            Memory::Registers(r) => Hll {
                memory: Memory::Registers(larger(self.registers(), r)),
                ..self
            },
        };
        Hll { updates: self.updates + other.updates, ..joint }
    }

    pub open spec fn compat(self) -> Compat {
        Compat {
            algorithm: ALGORITHM@,
            version: 1,
            hash: self.hash,
            params_hash: hash_of(seq![self.precision], 0),
        }
    }

    pub open spec fn payload(self) -> Seq<u8> {
        le(self.updates as nat, 8) + match self.memory {
            Memory::Hashes(s) => seq![STORAGE_SPARSE] + le(s.len() as u32 as nat, 4) + words(
                s.map_values(|h: u64| h as int),
            ),
            Memory::Registers(r) => seq![STORAGE_DENSE] + r,
        }
    }

    #[verifier::opaque]
    pub open spec fn snapshot(self, window_start: u64, window_end: u64) -> Seq<u8> {
        snapshot_bytes(
            SnapshotHeader {
                version: SNAPSHOT_VERSION,
                algorithm_id: algorithm_id::HYPER_LOG_LOG,
                hash: self.hash,
                window_start_nanos: window_start,
                window_end_nanos: window_end,
            },
            seq![self.precision],
            self.payload(),
        )
    }

    /// What the bytes behind the update count denote.
    pub open spec fn read_memory(p: u8, rest: Seq<u8>) -> Result<Memory, SketchErrorView> {
        let count = field_at(rest, 1, 4);
        let hashes = hashes_at(rest, 5, count as int);
        let registers = rest.subrange(1, 1 + register_count(p));
        if rest.len() < 1 {
            snapshot_err("unexpected end of snapshot"@)
        } else if rest[0] == STORAGE_SPARSE {
            if rest.len() < 5 {
                snapshot_err("unexpected end of snapshot"@)
            } else if count > sparse_limit_of(p) {
                snapshot_err(
                    "hll sparse hash count "@ + dec(count) + " exceeds limit "@ + dec(
                        sparse_limit_of(p) as nat,
                    ),
                )
            } else if 8 * count > rest.len() - 5 {
                Err(count_error(count, (rest.len() - 5) as nat))
            } else if !strictly_ascending(hashes) {
                snapshot_err("hll sparse hashes must be strictly sorted and unique"@)
            } else if rest.len() > 5 + 8 * count {
                snapshot_err("trailing bytes in hll snapshot payload"@)
            } else {
                Ok(Memory::Hashes(hashes))
            }
        } else if rest[0] == STORAGE_DENSE {
            if rest.len() < 1 + register_count(p) {
                snapshot_err("unexpected end of snapshot"@)
            } else if first_above(registers, max_rank(p)) is Some {
                snapshot_err(
                    "hll snapshot register must be <= "@ + dec(max_rank(p) as nat)
                        + " for precision "@ + dec(p as nat) + ", got "@ + dec(
                        first_above(registers, max_rank(p))->0 as nat,
                    ),
                )
            } else if rest.len() > 1 + register_count(p) {
                snapshot_err("trailing bytes in hll snapshot payload"@)
            } else {
                Ok(Memory::Registers(registers))
            }
        } else {
            snapshot_err("unknown hll storage encoding "@ + dec(rest[0] as nat))
        }
    }

    /// The state that a snapshot denotes, or why it denotes none.
    #[verifier::opaque]
    pub open spec fn from_snapshot(bytes: Seq<u8>) -> Result<Hll, SketchErrorView> {
        match snapshot_content(bytes) {
            Err(e) => Err(e),
            Ok((header, params, payload)) => {
                if header.algorithm_id != algorithm_id::HYPER_LOG_LOG {
                    snapshot_err("not an hll snapshot"@)
                } else if params.len() < 1 {
                    snapshot_err("unexpected end of snapshot"@)
                } else if !valid_precision(params[0]) {
                    snapshot_err(
                        "hll snapshot precision must be in [4, 18], got "@ + dec(params[0] as nat),
                    )
                } else if payload.len() < 8 {
                    snapshot_err("unexpected end of snapshot"@)
                } else {
                    match Hll::read_memory(params[0], payload.skip(8)) {
                        Err(e) => Err(e),
                        Ok(memory) => Ok(
                            Hll {
                                precision: params[0],
                                hash: header.hash,
                                memory,
                                updates: field_at(payload, 0, 8) as int,
                            },
                        ),
                    }
                }
            },
        }
    }
}

/// The first rank above the maximum.
pub open spec fn first_above(r: Seq<u8>, max: int) -> Option<u8>
    decreases r.len(),
{
    if r.len() == 0 {
        None
    } else if r[0] > max {
        Some(r[0])
    } else {
        first_above(r.drop_first(), max)
    }
}

/// The `n` hashes of `s` from `at` on.
pub open spec fn hashes_at(s: Seq<u8>, at: int, n: int) -> Seq<u64> {
    Seq::new(n as nat, |i: int| field_at(s, at + 8 * i, 8) as u64)
}

// ---------------------------------------------------------------------------
// Facts about registers
// ---------------------------------------------------------------------------

pub proof fn lemma_register_bounds(p: u8, h: u64)
    requires
        valid_precision(p),
    ensures
        0 <= register_index(p, h) < register_count(p),
        1 <= register_rank(p, h) <= max_rank(p) <= 61,
        16 <= register_count(p) <= 262144,
        1 <= sparse_limit_of(p) <= 8192,
        8 * sparse_limit_of(p) <= register_count(p),
{
    let q = (64 - p) as u64;
    let w = p as u64;
    assert(h >> q < 1u64 << w && 16 <= 1u64 << w && 1u64 << w <= 262144) by (bit_vector)
        requires
            q == 64 - w,
            4 <= w <= 18,
    ;
}

proof fn lemma_raised_shape(r: Seq<u8>, p: u8, h: u64)
    requires
        valid_precision(p),
        r.len() == register_count(p),
    ensures
        raised(r, p, h).len() == r.len(),
        (forall|i: int| 0 <= i < r.len() ==> #[trigger] r[i] <= max_rank(p)) ==> (forall|i: int|
            0 <= i < r.len() ==> #[trigger] raised(r, p, h)[i] <= max_rank(p)),
{
    lemma_register_bounds(p, h);
}

pub proof fn lemma_raised_all_shape(r: Seq<u8>, p: u8, hashes: Seq<u64>)
    requires
        valid_precision(p),
        r.len() == register_count(p),
        forall|i: int| 0 <= i < r.len() ==> #[trigger] r[i] <= max_rank(p),
    ensures
        raised_all(r, p, hashes).len() == r.len(),
        forall|i: int|
            0 <= i < r.len() ==> #[trigger] raised_all(r, p, hashes)[i] <= max_rank(p),
    decreases hashes.len(),
{
    if hashes.len() > 0 {
        lemma_raised_all_shape(r, p, hashes.drop_last());
        lemma_raised_shape(raised_all(r, p, hashes.drop_last()), p, hashes.last());
    }
}

proof fn lemma_raise_commutes(r: Seq<u8>, p: u8, a: u64, b: u64)
    requires
        valid_precision(p),
        r.len() == register_count(p),
    ensures
        raised(raised(r, p, a), p, b) == raised(raised(r, p, b), p, a),
{
    lemma_register_bounds(p, a);
    lemma_register_bounds(p, b);
    assert(raised(raised(r, p, a), p, b) =~= raised(raised(r, p, b), p, a));
}

/// A hash may come in at any place.
proof fn lemma_raise_insert(r: Seq<u8>, p: u8, s: Seq<u64>, at: int, h: u64)
    requires
        valid_precision(p),
        r.len() == register_count(p),
        forall|i: int| 0 <= i < r.len() ==> #[trigger] r[i] <= max_rank(p),
        0 <= at <= s.len(),
    ensures
        raised_all(r, p, s.insert(at, h)) == raised(raised_all(r, p, s), p, h),
    decreases s.len(),
{
    let t = s.insert(at, h);
    if at == s.len() {
        assert(t.drop_last() =~= s);
    } else {
        assert(t.drop_last() =~= s.drop_last().insert(at, h));
        assert(t.last() == s.last());
        lemma_raise_insert(r, p, s.drop_last(), at, h);
        lemma_raised_all_shape(r, p, s.drop_last());
        lemma_raise_commutes(raised_all(r, p, s.drop_last()), p, h, s.last());
    }
}

/// A hash that has been seen changes nothing.
proof fn lemma_raise_seen(r: Seq<u8>, p: u8, s: Seq<u64>, h: u64)
    requires
        valid_precision(p),
        r.len() == register_count(p),
        forall|i: int| 0 <= i < r.len() ==> #[trigger] r[i] <= max_rank(p),
        s.contains(h),
    ensures
        raised(raised_all(r, p, s), p, h) == raised_all(r, p, s),
    decreases s.len(),
{
    lemma_raised_all_shape(r, p, s.drop_last());
    lemma_register_bounds(p, h);
    let front = raised_all(r, p, s.drop_last());
    if s.last() == h {
        assert(raised(raised(front, p, h), p, h) =~= raised(front, p, h));
    } else {
        let i = choose|i: int| 0 <= i < s.len() && s[i] == h;
        assert(s.drop_last()[i] == h);
        lemma_raise_seen(r, p, s.drop_last(), h);
        lemma_raise_commutes(front, p, s.last(), h);
    }
}

pub proof fn lemma_insertion_point(s: Seq<u64>, h: u64)
    requires
        strictly_ascending(s),
    ensures
        0 <= insertion_point(s, h) <= s.len(),
        forall|i: int| 0 <= i < insertion_point(s, h) ==> s[i] < h,
        forall|i: int| insertion_point(s, h) <= i < s.len() ==> s[i] >= h,
    decreases s.len(),
{
    if s.len() > 0 && s[0] < h {
        let t = s.drop_first();
        assert forall|i: int, j: int| 0 <= i < j < t.len() implies t[i] < t[j] by {
            assert(s[i + 1] < s[j + 1]);
        }
        lemma_insertion_point(t, h);
        assert forall|i: int| 0 <= i < insertion_point(s, h) implies s[i] < h by {
            if i > 0 {
                assert(t[i - 1] == s[i]);
            }
        }
        assert forall|i: int| insertion_point(s, h) <= i < s.len() implies s[i] >= h by {
            assert(t[i - 1] == s[i]);
        }
    }
}

/// The place behind all smaller hashes is the insertion point.
proof fn lemma_is_insertion_point(s: Seq<u64>, h: u64, at: int)
    requires
        strictly_ascending(s),
        0 <= at <= s.len(),
        forall|i: int| 0 <= i < at ==> s[i] < h,
        forall|i: int| at <= i < s.len() ==> s[i] >= h,
    ensures
        at == insertion_point(s, h),
{
    lemma_insertion_point(s, h);
    let q = insertion_point(s, h);
    if at < q {
        let x = s[at];
        assert(x < h);
        assert(x >= h);
    }
    if q < at {
        let x = s[q];
        assert(x < h);
        assert(x >= h);
    }
}

proof fn lemma_insert_ascending(s: Seq<u64>, h: u64)
    requires
        strictly_ascending(s),
        !s.contains(h),
    ensures
        strictly_ascending(s.insert(insertion_point(s, h), h)),
{
    lemma_insertion_point(s, h);
    let at = insertion_point(s, h);
    let t = s.insert(at, h);
    assert forall|i: int, j: int| 0 <= i < j < t.len() implies t[i] < t[j] by {
        let a = if i > at { i - 1 } else { i };
        let b = if j > at { j - 1 } else { j };
        if i == at {
            assert(s[b] >= h);
            assert(s.contains(s[b]));
        } else if j == at {
            assert(s[a] < h);
        } else {
            assert(s[a] < s[b]);
        }
    }
}

/// One more hash keeps the state in range and raises one register.
pub proof fn lemma_with_hash(s: Hll, h: u64)
    requires
        s.shaped(),
    ensures
        s.with_hash(h).shaped(),
        s.with_hash(h).registers() == raised(s.registers(), s.precision, h),
        s.registers().len() == register_count(s.precision),
{
    let p = s.precision;
    lemma_register_bounds(p, h);
    lemma_raised_all_shape(zeros(p), p, Seq::empty());
    match s.memory {
        Memory::Hashes(v) => {
            lemma_raised_all_shape(zeros(p), p, v);
            if v.contains(h) {
                lemma_raise_seen(zeros(p), p, v, h);
            } else {
                lemma_insertion_point(v, h);
                lemma_insert_ascending(v, h);
                lemma_raise_insert(zeros(p), p, v, insertion_point(v, h), h);
                lemma_raised_shape(raised_all(zeros(p), p, v), p, h);
            }
        },
        Memory::Registers(r) => {
            lemma_raised_shape(r, p, h);
        },
    }
}

pub proof fn lemma_with_hashes(s: Hll, hashes: Seq<u64>)
    requires
        s.shaped(),
    ensures
        s.with_hashes(hashes).shaped(),
        s.with_hashes(hashes).precision == s.precision,
        s.with_hashes(hashes).hash == s.hash,
        s.with_hashes(hashes).updates == s.updates,
        s.with_hashes(hashes).registers() == raised_all(s.registers(), s.precision, hashes),
    decreases hashes.len(),
{
    if hashes.len() > 0 {
        lemma_with_hashes(s, hashes.drop_last());
        lemma_with_hash(s.with_hashes(hashes.drop_last()), hashes.last());
    }
}

// ---------------------------------------------------------------------------
// The sketch
// ---------------------------------------------------------------------------

impl RegisterStorage {
    spec fn memory(&self) -> Memory {
        match self {
            RegisterStorage::Empty => Memory::Hashes(Seq::empty()),
            RegisterStorage::Singleton(h) => Memory::Hashes(seq![*h]),
            RegisterStorage::Sparse(v) => Memory::Hashes(v@),
            RegisterStorage::Dense(v) => Memory::Registers(v@),
        }
    }

    /// Fewer than two hashes are kept without an allocation.
    spec fn packed(&self) -> bool {
        self matches RegisterStorage::Sparse(v) ==> v@.len() >= 2
    }
}

impl View for HyperLogLog {
    type V = Hll;

    closed spec fn view(&self) -> Hll {
        Hll {
            precision: self.precision,
            hash: self.hash,
            memory: self.storage.memory(),
            updates: self.updates as int,
        }
    }
}

impl HyperLogLog {
    /// Fewer than two hashes are kept without an allocation.
    pub closed spec fn packed(&self) -> bool {
        self.storage.packed()
    }
}

fn sparse_limit(precision: u8) -> (r: usize)
    requires
        valid_precision(precision),
    ensures
        r == sparse_limit_of(precision),
{
    proof {
        lemma_register_bounds(precision, 0);
    }
    let n: usize = (1u64 << (precision as u64)) as usize / REGISTERS_PER_HASH;
    if n < 1 {
        1
    } else {
        n
    }
}

fn update_register(registers: &mut Vec<u8>, precision: u8, hash: u64)
    requires
        valid_precision(precision),
        old(registers)@.len() == register_count(precision),
    ensures
        final(registers)@ == raised(old(registers)@, precision, hash),
{
    proof {
        lemma_register_bounds(precision, hash);
    }
    let idx: usize = (hash >> ((64 - precision) as u64)) as usize;
    let remaining: u64 = hash << (precision as u64);
    let zeros: u32 = remaining.leading_zeros();
    let cap: u32 = 65 - precision as u32;
    let rho: u8 = if zeros + 1 < cap {
        (zeros + 1) as u8
    } else {
        cap as u8
    };
    if rho > registers[idx] {
        registers.set(idx, rho);
    }
}

/// Where `h` is or belongs, and whether it is there.
fn search(hashes: &Vec<u64>, h: u64) -> (r: (usize, bool))
    requires
        strictly_ascending(hashes@),
    ensures
        r.0 == insertion_point(hashes@, h),
        r.0 <= hashes.len(),
        r.1 == hashes@.contains(h),
{
    let mut lo: usize = 0;
    let mut hi: usize = hashes.len();
    while lo < hi
        invariant
            strictly_ascending(hashes@),
            lo <= hi <= hashes.len(),
            forall|i: int| 0 <= i < lo ==> hashes@[i] < h,
            forall|i: int| hi <= i < hashes@.len() ==> hashes@[i] >= h,
        decreases hi - lo,
    {
        let mid: usize = lo + (hi - lo) / 2;
        if hashes[mid] < h {
            lo = mid + 1;
        } else {
            hi = mid;
        }
    }
    proof {
        lemma_is_insertion_point(hashes@, h, lo as int);
        if hashes@.contains(h) {
            let i = choose|i: int| 0 <= i < hashes@.len() && hashes@[i] == h;
            assert(i >= lo);
            if i > lo {
                assert(hashes@[lo as int] < hashes@[i]);
            }
        }
    }
    let found: bool = lo < hashes.len() && hashes[lo] == h;
    (lo, found)
}

impl HyperLogLog {
    pub fn new(precision: u8, hash: HashSpec) -> (r: Result<Self, SketchError>)
        ensures
            r is Ok <==> valid_precision(precision),
            r matches Ok(s) ==> s.wf() && s@ == Hll::empty(precision, hash),
            r matches Err(e) ==> e@ == SketchErrorView::InvalidParam(
                "hll precision must be in [4, 18], got "@ + dec(precision as nat),
            ),
    {
        if precision < MIN_PRECISION || precision > MAX_PRECISION {
            let mut message = "hll precision must be in [4, 18], got ".to_owned();
            push_decimal(&mut message, precision as u64);
            return Err(SketchError::InvalidParam(message));
        }
        Ok(HyperLogLog::blank(precision, hash))
    }

    /// A sketch that has seen nothing.
    pub(crate) fn blank(precision: u8, hash: HashSpec) -> (r: Self)
        requires
            valid_precision(precision),
        ensures
            r.wf(),
            r@ == Hll::empty(precision, hash),
    {
        proof {
            lemma_register_bounds(precision, 0);
        }
        HyperLogLog { precision, hash, storage: RegisterStorage::Empty, updates: 0 }
    }

    /// The bytes of a sketch with room for that many hashes and registers.
    pub fn held_bytes(hashes: usize, registers: usize) -> (r: usize)
        ensures
            r == capped(8 * hashes + registers + size_of::<Self>()),
    {
        plus(plus(times(hashes, 8), registers), core::mem::size_of::<Self>())
    }

    /// A sketch in the same state.
    pub fn copy(&self) -> (r: Self)
        requires
            self.wf(),
        ensures
            r.wf(),
            r@ == self@,
    {
        let storage = match &self.storage {
            RegisterStorage::Empty => RegisterStorage::Empty,
            RegisterStorage::Singleton(h) => RegisterStorage::Singleton(*h),
            RegisterStorage::Sparse(hashes) => {
                let mut out: Vec<u64> = Vec::with_capacity(hashes.len());
                let mut i: usize = 0;
                while i < hashes.len()
                    invariant
                        i <= hashes@.len(),
                        out@ == hashes@.take(i as int),
                    decreases hashes@.len() - i,
                {
                    out.push(hashes[i]);
                    assert(out@ =~= hashes@.take(i + 1));
                    i += 1;
                }
                assert(out@ =~= hashes@);
                RegisterStorage::Sparse(out)
            },
            RegisterStorage::Dense(registers) => RegisterStorage::Dense(
                copy_bytes(registers.as_slice()),
            ),
        };
        HyperLogLog {
            precision: self.precision,
            hash: self.hash,
            storage,
            updates: self.updates,
        }
    }

    pub fn precision(&self) -> (r: u8)
        ensures
            r == self@.precision,
    {
        self.precision
    }

    /// Record that `key` was seen.
    pub fn insert(&mut self, key: &[u8])
        requires
            old(self).wf(),
            old(self)@.updates < u64::MAX,
        ensures
            final(self).wf(),
            final(self)@ == old(self)@.inserted(key@),
    {
        let h: u64 = hash64(key, self.hash.seed);
        self.insert_hash(h);
        proof {
            lemma_with_hash(old(self)@, h);
        }
        self.updates = self.updates + 1;
    }

    fn insert_hash(&mut self, hash: u64)
        requires
            old(self).wf(),
        ensures
            final(self).wf(),
            final(self)@ == old(self)@.with_hash(hash),
    {
        let ghost before = self@;
        let precision: u8 = self.precision;
        let limit: usize = sparse_limit(precision);
        proof {
            lemma_with_hash(before, hash);
            lemma_register_bounds(precision, hash);
        }
        let mut storage = RegisterStorage::Empty;
        core::mem::swap(&mut self.storage, &mut storage);
        match storage {
            RegisterStorage::Empty => {
                proof {
                    let s = Seq::<u64>::empty();
                    assert(!s.contains(hash));
                    assert(s.insert(insertion_point(s, hash), hash) =~= seq![hash]);
                }
                self.storage = RegisterStorage::Singleton(hash);
            },
            RegisterStorage::Singleton(existing) => {
                let ghost s = seq![existing];
                assert(s[0] == existing);
                assert(s.contains(hash) <==> existing == hash);
                if existing == hash {
                    self.storage = RegisterStorage::Singleton(existing);
                } else if limit > 1 {
                    let mut hashes: Vec<u64> = Vec::new();
                    if existing < hash {
                        hashes.push(existing);
                        hashes.push(hash);
                        proof {
                            lemma_is_insertion_point(s, hash, 1);
                        }
                    } else {
                        hashes.push(hash);
                        hashes.push(existing);
                        proof {
                            lemma_is_insertion_point(s, hash, 0);
                        }
                    }
                    assert(hashes@ =~= s.insert(insertion_point(s, hash), hash));
                    self.storage = RegisterStorage::Sparse(hashes);
                } else {
                    let mut one: Vec<u64> = Vec::new();
                    one.push(existing);
                    assert(one@ =~= s);
                    let mut registers = dense_of(precision, &one);
                    update_register(&mut registers, precision, hash);
                    self.storage = RegisterStorage::Dense(registers);
                }
            },
            RegisterStorage::Sparse(hashes) => {
                let mut hashes = hashes;
                let (position, found): (usize, bool) = search(&hashes, hash);
                if found {
                    self.storage = RegisterStorage::Sparse(hashes);
                } else if hashes.len() < limit {
                    hashes.insert(position, hash);
                    self.storage = RegisterStorage::Sparse(hashes);
                } else {
                    let mut registers = dense_of(precision, &hashes);
                    update_register(&mut registers, precision, hash);
                    self.storage = RegisterStorage::Dense(registers);
                }
            },
            RegisterStorage::Dense(registers) => {
                let mut registers = registers;
                update_register(&mut registers, precision, hash);
                self.storage = RegisterStorage::Dense(registers);
            },
        }
        assert(self@ =~= before.with_hash(hash));
    }

    /// The registers, one rank for each.
    pub fn dense_registers(&self) -> (r: Vec<u8>)
        requires
            self.wf(),
        ensures
            r@ == self@.registers(),
            r@.len() == register_count(self@.precision),
            forall|i: int| 0 <= i < r@.len() ==> #[trigger] r@[i] <= max_rank(self@.precision),
    {
        proof {
            lemma_raised_all_shape(zeros(self.precision), self.precision, Seq::empty());
        }
        match &self.storage {
            RegisterStorage::Empty => {
                let none: Vec<u64> = Vec::new();
                assert(none@ =~= Seq::<u64>::empty());
                dense_of(self.precision, &none)
            },
            RegisterStorage::Singleton(h) => {
                let mut one: Vec<u64> = Vec::new();
                one.push(*h);
                assert(one@ =~= seq![*h]);
                dense_of(self.precision, &one)
            },
            RegisterStorage::Sparse(hashes) => dense_of(self.precision, hashes),
            RegisterStorage::Dense(registers) => copy_bytes(registers.as_slice()),
        }
    }

    /// The number of distinct hashes, as long as all of them are kept. An
    /// estimate of the cardinality is exact then.
    pub fn exact_count(&self) -> (r: Option<usize>)
        ensures
            match self@.memory {
                Memory::Hashes(s) => r == Some(s.len() as usize) && s.len() <= usize::MAX,
                Memory::Registers(_) => r is None,
            },
    {
        match &self.storage {
            RegisterStorage::Empty => Some(0),
            RegisterStorage::Singleton(_) => Some(1),
            RegisterStorage::Sparse(hashes) => {
                assert(hashes@.len() == hashes.len());
                Some(hashes.len())
            },
            RegisterStorage::Dense(_) => None,
        }
    }

    /// How many registers hold each rank, from zero to the largest. This is
    /// all that an estimate of the cardinality depends on once hashes are no
    /// longer kept.
    pub fn rank_counts(&self) -> (r: Vec<usize>)
        requires
            self.wf(),
        ensures
            r@.len() == 66,
            forall|v: int|
                0 <= v < 66 ==> #[trigger] r@[v] == ranks_equal(self@.registers(), v as u8),
    {
        let registers = self.dense_registers();
        let ghost s = registers@;
        let mut counts: Vec<usize> = vec![0usize;66];
        let mut i: usize = 0;
        assert(s.take(0) =~= Seq::<u8>::empty());
        while i < registers.len()
            invariant
                self.wf(),
                s == registers@,
                i <= registers.len(),
                forall|j: int| 0 <= j < s.len() ==> #[trigger] s[j] <= 61,
                counts@.len() == 66,
                forall|v: int|
                    0 <= v < 66 ==> #[trigger] counts@[v] == ranks_equal(
                        s.take(i as int),
                        v as u8,
                    ),
            decreases registers.len() - i,
        {
            let rank: usize = registers[i] as usize;
            proof {
                assert(s[i as int] <= 61);
                assert(s.take(i + 1).drop_last() =~= s.take(i as int));
                lemma_ranks_bound(s.take(i as int), rank as u8);
                assert(counts@[rank as int] == ranks_equal(s.take(i as int), rank as u8));
            }
            let c: usize = counts[rank] + 1;
            counts.set(rank, c);
            i += 1;
        }
        assert(s.take(i as int) =~= s);
        counts
    }

    fn params_hash(&self) -> (r: u64)
        ensures
            r == hash_of(seq![self.precision], 0),
    {
        let mut w: Vec<u8> = Vec::new();
        w.push(self.precision);
        assert(w@ =~= seq![self.precision]);
        hash64(w.as_slice(), 0)
    }

    pub fn to_snapshot(&self, window_start_nanos: u64, window_end_nanos: u64) -> (r: Vec<u8>)
        requires
            self.wf(),
        ensures
            r@ == self@.snapshot(window_start_nanos, window_end_nanos),
    {
        let mut params = Writer::new();
        params.u8(self.precision);
        assert(params.buf@ =~= seq![self.precision]);
        let mut payload = Writer::new();
        payload.u64(self.updates);
        match &self.storage {
            RegisterStorage::Empty => {
                payload.u8(STORAGE_SPARSE);
                payload.u32(0);
            },
            RegisterStorage::Singleton(hash) => {
                payload.u8(STORAGE_SPARSE);
                payload.u32(1);
                payload.u64(*hash);
                proof {
                    let one = seq![*hash].map_values(|h: u64| h as int);
                    assert(one.drop_last() =~= Seq::<int>::empty());
                    reveal_with_fuel(words, 2);
                    assert(words(one) =~= le(*hash as nat, 8));
                }
            },
            RegisterStorage::Sparse(hashes) => {
                payload.u8(STORAGE_SPARSE);
                payload.u32(hashes.len() as u32);
                let ghost lead = payload.buf@;
                let ghost all = hashes@.map_values(|h: u64| h as int);
                let mut i: usize = 0;
                assert(lead + words(all.take(0)) =~= lead);
                while i < hashes.len()
                    invariant
                        i <= hashes.len(),
                        all == hashes@.map_values(|h: u64| h as int),
                        payload.buf@ == lead + words(all.take(i as int)),
                    decreases hashes.len() - i,
                {
                    payload.u64(hashes[i]);
                    proof {
                        assert(all.take(i + 1).drop_last() =~= all.take(i as int));
                        assert(payload.buf@ =~= lead + words(all.take(i + 1)));
                    }
                    i += 1;
                }
                assert(all.take(i as int) =~= all);
            },
            RegisterStorage::Dense(registers) => {
                payload.u8(STORAGE_DENSE);
                payload.bytes(registers.as_slice());
            },
        }
        assert(payload.buf@ =~= self@.payload());
        reveal(Hll::snapshot);
        write_snapshot(
            &SnapshotHeader {
                version: SNAPSHOT_VERSION,
                algorithm_id: algorithm_id::HYPER_LOG_LOG,
                hash: self.hash,
                window_start_nanos,
                window_end_nanos,
            },
            params.buf.as_slice(),
            payload.buf.as_slice(),
        )
    }

    pub fn from_snapshot(bytes: &[u8]) -> (r: Result<Self, SketchError>)
        ensures
            match Hll::from_snapshot(bytes@) {
                Ok(s) => r matches Ok(x) && x.wf() && x@ == s,
                Err(e) => r matches Err(x) && x@ == e,
            },
    {
        reveal(Hll::from_snapshot);
        let (header, params, payload) = read_snapshot(bytes)?;
        if header.algorithm_id != algorithm_id::HYPER_LOG_LOG {
            return Err(SketchError::Snapshot("not an hll snapshot".to_owned()));
        }
        let mut p = Reader::new(params.as_slice());
        let precision: u8 = p.u8()?;
        if precision < MIN_PRECISION || precision > MAX_PRECISION {
            let mut message = "hll snapshot precision must be in [4, 18], got ".to_owned();
            push_decimal(&mut message, precision as u64);
            return Err(SketchError::Snapshot(message));
        }
        let mut r = Reader::new(payload.as_slice());
        let updates: u64 = r.u64()?;
        assert(r.rest() =~= payload@.skip(8));
        let storage = read_storage(precision, r)?;
        Ok(HyperLogLog { precision, hash: header.hash, storage, updates })
    }
}

/// How often a rank occurs.
pub open spec fn ranks_equal(r: Seq<u8>, v: u8) -> nat
    decreases r.len(),
{
    if r.len() == 0 {
        0
    } else {
        ranks_equal(r.drop_last(), v) + if r.last() == v { 1nat } else { 0 }
    }
}

proof fn lemma_ranks_bound(r: Seq<u8>, v: u8)
    ensures
        ranks_equal(r, v) <= r.len(),
    decreases r.len(),
{
    if r.len() > 0 {
        lemma_ranks_bound(r.drop_last(), v);
    }
}

/// The registers of some hashes.
fn dense_of(precision: u8, hashes: &Vec<u64>) -> (r: Vec<u8>)
    requires
        valid_precision(precision),
    ensures
        r@ == raised_all(zeros(precision), precision, hashes@),
        r@.len() == register_count(precision),
        forall|i: int| 0 <= i < r@.len() ==> #[trigger] r@[i] <= max_rank(precision),
{
    proof {
        lemma_register_bounds(precision, 0);
    }
    let mut registers: Vec<u8> = vec![0u8;(1u64 << (precision as u64)) as usize];
    let ghost s = hashes@;
    let mut i: usize = 0;
    assert(registers@ =~= raised_all(zeros(precision), precision, s.take(0)));
    while i < hashes.len()
        invariant
            valid_precision(precision),
            s == hashes@,
            i <= hashes.len(),
            registers@ == raised_all(zeros(precision), precision, s.take(i as int)),
            registers@.len() == register_count(precision),
        decreases hashes.len() - i,
    {
        update_register(&mut registers, precision, hashes[i]);
        proof {
            assert(s.take(i + 1).drop_last() =~= s.take(i as int));
            lemma_register_bounds(precision, s[i as int]);
        }
        i += 1;
    }
    proof {
        assert(s.take(i as int) =~= s);
        lemma_raised_all_shape(zeros(precision), precision, s);
    }
    registers
}

fn read_storage<'a>(precision: u8, reader: Reader<'a>) -> (r: Result<RegisterStorage, SketchError>)
    requires
        valid_precision(precision),
        reader.wf(),
    ensures
        match Hll::read_memory(precision, reader.rest()) {
            Ok(m) => r matches Ok(s) && s.memory() == m && s.packed() && (Hll {
                precision,
                hash: HashSpec { family: crate::hash::HashFamily::Fsk1, seed: 0, version: 0 },
                memory: m,
                updates: 0,
            }).shaped(),
            Err(e) => r matches Err(x) && x@ == e,
        },
{
    let ghost rest = reader.rest();
    let mut r = reader;
    proof {
        lemma_register_bounds(precision, 0);
    }
    let encoding: u8 = r.u8()?;
    if encoding == STORAGE_SPARSE {
        assert(rest.len() >= 5 ==> r.rest().take(4) =~= rest.subrange(1, 5));
        let count: usize = r.u32()? as usize;
        let limit: usize = sparse_limit(precision);
        if count > limit {
            let mut message = "hll sparse hash count ".to_owned();
            push_decimal(&mut message, count as u64);
            message.append(" exceeds limit ");
            push_decimal(&mut message, limit as u64);
            return Err(SketchError::Snapshot(message));
        }
        assert(r.rest() =~= rest.skip(5));
        r.check_count(count, 8)?;
        let ghost target = hashes_at(rest, 5, count as int);
        let mut hashes: Vec<u64> = Vec::new();
        let mut i: usize = 0;
        while i < count
            invariant
                i <= count,
                rest == reader.rest(),
                r.wf(),
                r.rest() == rest.skip(5 + 8 * i),
                rest.len() >= 5 + 8 * count,
                target == hashes_at(rest, 5, count as int),
                hashes@ == target.take(i as int),
                strictly_ascending(hashes@),
                !strictly_ascending(target) ==> Hll::read_memory(precision, rest) == snapshot_err::<
                    Memory,
                >("hll sparse hashes must be strictly sorted and unique"@),
            decreases count - i,
        {
            assert(r.rest().take(8) =~= rest.subrange(5 + 8 * i, 5 + 8 * i + 8));
            let hash: u64 = r.u64()?;
            assert(hash == target[i as int]);
            if hashes.len() > 0 && hashes[hashes.len() - 1] >= hash {
                assert(!strictly_ascending(target)) by {
                    assert(target[i - 1] == hashes@[i - 1]);
                }
                return Err(
                    SketchError::Snapshot(
                        "hll sparse hashes must be strictly sorted and unique".to_owned(),
                    ),
                );
            }
            let ghost before = hashes@;
            hashes.push(hash);
            proof {
                assert(hashes@ =~= target.take(i + 1));
                assert forall|a: int, b: int| 0 <= a < b < hashes@.len() implies hashes@[a]
                    < hashes@[b] by {
                    if b == i && a < i - 1 {
                        assert(before[a] < before[i - 1]);
                    }
                }
                assert(r.rest() =~= rest.skip(5 + 8 * (i + 1)));
            }
            i += 1;
        }
        assert(hashes@ =~= target);
        if r.remaining() != 0 {
            return Err(
                SketchError::Snapshot("trailing bytes in hll snapshot payload".to_owned()),
            );
        }
        if hashes.len() == 0 {
            assert(target =~= Seq::<u64>::empty());
            Ok(RegisterStorage::Empty)
        } else if hashes.len() == 1 {
            let h: u64 = hashes[0];
            assert(target =~= seq![h]);
            Ok(RegisterStorage::Singleton(h))
        } else {
            Ok(RegisterStorage::Sparse(hashes))
        }
    } else if encoding == STORAGE_DENSE {
        let n: usize = (1u64 << (precision as u64)) as usize;
        let taken = r.take(n)?;
        assert(taken@ =~= rest.subrange(1, 1 + register_count(precision)));
        let registers = copy_bytes(taken);
        let max_register: u8 = 65 - precision;
        let mut i: usize = 0;
        assert(registers@.skip(0) =~= registers@);
        while i < registers.len()
            invariant
                valid_precision(precision),
                first_above(registers@, max_register as int) matches Some(x)
                    ==> Hll::read_memory(precision, reader.rest()) == snapshot_err::<Memory>(
                    "hll snapshot register must be <= "@ + dec(max_register as nat)
                        + " for precision "@ + dec(precision as nat) + ", got "@ + dec(x as nat),
                ),
                i <= registers.len(),
                max_register == max_rank(precision),
                forall|j: int| 0 <= j < i ==> #[trigger] registers@[j] <= max_register,
                first_above(registers@, max_register as int) == first_above(
                    registers@.skip(i as int),
                    max_register as int,
                ),
            ensures
                first_above(registers@, max_register as int) is None,
                forall|j: int|
                    0 <= j < registers@.len() ==> #[trigger] registers@[j] <= max_register,
            decreases registers.len() - i,
        {
            assert(registers@.skip(i as int).drop_first() =~= registers@.skip(i + 1));
            if registers[i] > max_register {
                let mut message = "hll snapshot register must be <= ".to_owned();
                push_decimal(&mut message, max_register as u64);
                message.append(" for precision ");
                push_decimal(&mut message, precision as u64);
                message.append(", got ");
                push_decimal(&mut message, registers[i] as u64);
                return Err(SketchError::Snapshot(message));
            }
            i += 1;
        }
        if r.remaining() != 0 {
            return Err(
                SketchError::Snapshot("trailing bytes in hll snapshot payload".to_owned()),
            );
        }
        Ok(RegisterStorage::Dense(registers))
    } else {
        let mut message = "unknown hll storage encoding ".to_owned();
        push_decimal(&mut message, encoding as u64);
        Err(SketchError::Snapshot(message))
    }
}

impl Sketch for HyperLogLog {
    open spec fn wf(&self) -> bool {
        self@.shaped() && self.packed()
    }

    open spec fn compat(&self) -> Compat {
        self@.compat()
    }

    open spec fn update_fits(&self, key: Seq<u8>, value: u64) -> bool {
        self@.updates < u64::MAX
    }

    /// The weight does not matter.
    open spec fn is_updated(&self, key: Seq<u8>, value: u64, after: &Self) -> bool {
        after@ == self@.inserted(key)
    }

    open spec fn merge_fits(&self, other: &Self) -> bool {
        self@.updates + other@.updates <= u64::MAX
    }

    open spec fn is_merged(&self, other: &Self, after: &Self) -> bool {
        after@ == self@.merged(other@)
    }

    open spec fn is_cleared(&self, after: &Self) -> bool {
        after@ == Hll::empty(self@.precision, self@.hash)
    }

    open spec fn updates(&self) -> u64 {
        self@.updates as u64
    }

    open spec fn memory_fits(&self) -> bool {
        true
    }

    open spec fn is_memory(&self, bytes: usize) -> bool {
        self@.is_memory(bytes)
    }

    fn update(&mut self, key: &[u8], value: u64) {
        self.insert(key);
        proof {
            lemma_with_hash(old(self)@, hash_of(key@, old(self)@.hash.seed));
        }
    }

    fn merge_from(&mut self, other: &Self) -> (r: Result<(), SketchError>) {
        self.compatibility().ensure_matches(&other.compatibility())?;
        let ghost before = self@;
        proof {
            law_equal_descriptor_equal_precision(before, other@);
            lemma_with_hashes(before, Seq::empty());
        }
        match &other.storage {
            RegisterStorage::Empty => {},
            RegisterStorage::Singleton(hash) => {
                self.insert_hash(*hash);
                proof {
                    let one = seq![*hash];
                    assert(one.drop_last() =~= Seq::<u64>::empty());
                    reveal_with_fuel(Hll::with_hashes, 2);
                    lemma_with_hashes(before, one);
                }
            },
            RegisterStorage::Sparse(hashes) => {
                let ghost s = hashes@;
                let mut i: usize = 0;
                assert(s.take(0) =~= Seq::<u64>::empty());
                while i < hashes.len()
                    invariant
                        before.shaped(),
                        self.wf(),
                        s == hashes@,
                        i <= hashes.len(),
                        self@ == before.with_hashes(s.take(i as int)),
                    decreases hashes.len() - i,
                {
                    self.insert_hash(hashes[i]);
                    assert(s.take(i + 1).drop_last() =~= s.take(i as int));
                    i += 1;
                }
                assert(s.take(i as int) =~= s);
                proof {
                    lemma_with_hashes(before, s);
                }
            },
            RegisterStorage::Dense(theirs) => {
                let mut mine = self.dense_registers();
                let ghost start = mine@;
                let ghost goal = larger(start, theirs@);
                let n: usize = mine.len();
                let mut i: usize = 0;
                while i < n
                    invariant
                        n == mine@.len(),
                        n == theirs@.len(),
                        start.len() == n,
                        goal == larger(start, theirs@),
                        i <= n,
                        forall|j: int|
                            0 <= j < n ==> #[trigger] mine@[j] == if j < i {
                                goal[j]
                            } else {
                                start[j]
                            },
                    decreases n - i,
                {
                    if theirs[i] > mine[i] {
                        mine.set(i, theirs[i]);
                    }
                    i += 1;
                }
                assert(mine@ =~= goal);
                self.storage = RegisterStorage::Dense(mine);
            },
        }
        self.updates = self.updates + other.updates;
        assert(self@ =~= before.merged(other@));
        Ok(())
    }

    fn memory_bytes(&self) -> (r: usize) {
        broadcast use layout_of_primitives;

        layout_for_type_is_valid::<Self>();
        match &self.storage {
            RegisterStorage::Empty => Self::held_bytes(0, 0),
            RegisterStorage::Singleton(_) => Self::held_bytes(0, 0),
            RegisterStorage::Sparse(hashes) => {
                let room: usize = allocated(hashes);
                assert(is_room(room, hashes@.len(), 8));
                Self::held_bytes(room, 0)
            },
            RegisterStorage::Dense(registers) => {
                let room: usize = allocated(registers);
                assert(is_room(room, registers@.len(), 1));
                Self::held_bytes(0, room)
            },
        }
    }

    fn reset(&mut self) {
        proof {
            lemma_register_bounds(self.precision, 0);
        }
        self.storage = RegisterStorage::Empty;
        self.updates = 0;
        assert(self@ =~= Hll::empty(self.precision, self.hash));
    }

    fn update_count(&self) -> (r: u64) {
        self.updates
    }

    fn compatibility(&self) -> (r: SketchCompatibility) {
        SketchCompatibility {
            algorithm: ALGORITHM.to_owned(),
            version: 1,
            hash: self.hash,
            params_hash: self.params_hash(),
        }
    }
}

// ---------------------------------------------------------------------------
// Laws
// ---------------------------------------------------------------------------

/// Sketches with equal descriptors have equal precision.
pub proof fn law_equal_descriptor_equal_precision(a: Hll, b: Hll)
    requires
        a.compat() == b.compat(),
    ensures
        a.precision == b.precision,
{
    let one = seq![a.precision];
    if a.precision != b.precision {
        law_hash_tells_bytes_apart(one, 0, b.precision, 0);
        assert(one.update(0, b.precision) =~= seq![b.precision]);
    }
}

/// Raising by hashes is taking the larger of the registers and those of the
/// hashes alone.
proof fn lemma_raised_all_larger(r: Seq<u8>, p: u8, hashes: Seq<u64>)
    requires
        valid_precision(p),
        r.len() == register_count(p),
        forall|i: int| 0 <= i < r.len() ==> #[trigger] r[i] <= max_rank(p),
    ensures
        raised_all(r, p, hashes) == larger(r, raised_all(zeros(p), p, hashes)),
    decreases hashes.len(),
{
    if hashes.len() == 0 {
        assert(larger(r, zeros(p)) =~= r);
    } else {
        let front = hashes.drop_last();
        let h = hashes.last();
        lemma_raised_all_larger(r, p, front);
        lemma_raised_all_shape(r, p, front);
        lemma_raised_all_shape(zeros(p), p, front);
        lemma_register_bounds(p, h);
        assert(raised_all(r, p, hashes) =~= larger(r, raised_all(zeros(p), p, hashes)));
    }
}

/// Merging gives the registers of the union: register by register the larger
/// rank.
pub proof fn law_merge_is_union(a: Hll, b: Hll)
    requires
        a.shaped(),
        b.shaped(),
        a.precision == b.precision,
    ensures
        a.merged(b).registers() == larger(a.registers(), b.registers()),
{
    let p = a.precision;
    lemma_with_hash(a, 0);
    lemma_registers_range(a);
    match b.memory {
        Memory::Hashes(s) => {
            lemma_with_hashes(a, s);
            lemma_raised_all_larger(a.registers(), p, s);
        },
        Memory::Registers(_) => {},
    }
}

proof fn lemma_registers_range(a: Hll)
    requires
        a.shaped(),
    ensures
        a.registers().len() == register_count(a.precision),
        forall|i: int|
            0 <= i < a.registers().len() ==> #[trigger] a.registers()[i] <= max_rank(a.precision),
{
    lemma_register_bounds(a.precision, 0);
    match a.memory {
        Memory::Hashes(s) => {
            lemma_raised_all_shape(zeros(a.precision), a.precision, s);
        },
        Memory::Registers(_) => {},
    }
}

/// The hashes of some keys.
pub open spec fn hashes_of(keys: Seq<Seq<u8>>, seed: u64) -> Seq<u64> {
    keys.map_values(|k: Seq<u8>| hash_of(k, seed))
}

/// The registers after a stream are those of its hashes.
pub proof fn law_registers_of_stream(p: u8, hash: HashSpec, keys: Seq<Seq<u8>>)
    requires
        valid_precision(p),
        keys.len() <= u64::MAX,
    ensures
        Hll::empty(p, hash).fed(keys).shaped(),
        Hll::empty(p, hash).fed(keys).precision == p,
        Hll::empty(p, hash).fed(keys).hash == hash,
        Hll::empty(p, hash).fed(keys).updates == keys.len(),
        Hll::empty(p, hash).fed(keys).registers() == raised_all(
            zeros(p),
            p,
            hashes_of(keys, hash.seed),
        ),
    decreases keys.len(),
{
    lemma_register_bounds(p, 0);
    if keys.len() == 0 {
        assert(hashes_of(keys, hash.seed) =~= Seq::<u64>::empty());
    } else {
        let front = keys.drop_last();
        law_registers_of_stream(p, hash, front);
        let s = Hll::empty(p, hash).fed(front);
        lemma_with_hash(s, hash_of(keys.last(), hash.seed));
        assert(hashes_of(keys, hash.seed).drop_last() =~= hashes_of(front, hash.seed));
    }
}

/// Kept hashes never take more bytes than the registers would.
pub proof fn law_hashes_fit_in_register_bytes(s: Hll)
    requires
        s.shaped(),
    ensures
        s.memory matches Memory::Hashes(v) ==> 8 * v.len() <= register_count(s.precision),
{
    lemma_register_bounds(s.precision, 0);
}

/// Reading a snapshot back gives the sketch that was written.
pub proof fn law_hll_snapshot_round_trip(s: Hll, window_start: u64, window_end: u64)
    requires
        s.shaped(),
    ensures
        Hll::from_snapshot(s.snapshot(window_start, window_end)) == Ok::<Hll, SketchErrorView>(s),
        s.payload().len() <= 262153,
{
    reveal(Hll::snapshot);
    reveal(Hll::from_snapshot);
    lemma_pow256_values();
    let p = s.precision;
    let payload = s.payload();
    lemma_register_bounds(p, 0);
    lemma_le_value_of_le(s.updates as nat, 8);
    let rest = payload.skip(8);
    match s.memory {
        Memory::Hashes(v) => {
            let ints = v.map_values(|h: u64| h as int);
            lemma_words_len(ints);
            lemma_le_value_of_le(v.len(), 4);
            assert(rest =~= seq![STORAGE_SPARSE] + le(v.len(), 4) + words(ints));
            assert(rest.subrange(1, 5) =~= le(v.len(), 4));
            let back = hashes_at(rest, 5, v.len() as int);
            assert forall|i: int| 0 <= i < v.len() implies #[trigger] back[i] == v[i] by {
                lemma_words_index(ints, i);
                assert(rest.subrange(5 + 8 * i, 5 + 8 * i + 8) =~= words(ints).subrange(
                    8 * i,
                    8 * i + 8,
                ));
                lemma_le_value_of_le(v[i] as nat, 8);
            }
            assert(back =~= v);
        },
        Memory::Registers(r) => {
            assert(rest =~= seq![STORAGE_DENSE] + r);
            assert(rest.subrange(1, 1 + register_count(p)) =~= r);
            lemma_none_above(r, max_rank(p));
        },
    }
    assert(payload.subrange(0, 8) =~= le(s.updates as nat, 8));
    law_snapshot_round_trip(
        SnapshotHeader {
            version: SNAPSHOT_VERSION,
            algorithm_id: algorithm_id::HYPER_LOG_LOG,
            hash: s.hash,
            window_start_nanos: window_start,
            window_end_nanos: window_end,
        },
        seq![p],
        payload,
    );
}

pub proof fn lemma_none_above(r: Seq<u8>, max: int)
    requires
        forall|i: int| 0 <= i < r.len() ==> #[trigger] r[i] <= max,
    ensures
        first_above(r, max) is None,
    decreases r.len(),
{
    if r.len() > 0 {
        assert forall|i: int| 0 <= i < r.drop_first().len() implies #[trigger] r.drop_first()[i]
            <= max by {
            assert(r[i + 1] <= max);
        }
        lemma_none_above(r.drop_first(), max);
    }
}

} // verus!
