//! Seeded hash families.
//!
//! Hashing affects accuracy, merge compatibility across nodes and behaviour
//! under adversarial input, so the family is named and versioned (`fsk1`)
//! and every use carries an explicit seed. Sketches built with equal
//! [`HashSpec`]s on different nodes are mergeable.

use vstd::prelude::*;

verus! {

/// Version of the `fsk1` hash family. Sketches with different hash versions
/// must not merge.
pub const HASH_VERSION: u16 = 1;

/// Named hash families.
#[derive(Debug, Clone, Copy, PartialEq, Eq, Structural)]
pub enum HashFamily {
    Fsk1,
}

impl HashFamily {
    pub fn name(self) -> (r: &'static str)
        ensures
            r@ == "fsk1"@,
    {
        match self {
            HashFamily::Fsk1 => "fsk1",
        }
    }
}

/// A fully specified hash configuration. Two sketches are hash-compatible
/// exactly when their specs are equal.
#[derive(Debug, Clone, Copy, PartialEq, Eq, Structural)]
pub struct HashSpec {
    pub family: HashFamily,
    pub seed: u64,
    pub version: u16,
}

impl HashSpec {
    pub fn new(seed: u64) -> (r: Self)
        ensures
            r == (HashSpec { family: HashFamily::Fsk1, seed, version: HASH_VERSION }),
    {
        HashSpec { family: HashFamily::Fsk1, seed, version: HASH_VERSION }
    }

    /// Hash arbitrary bytes to 64 bits under this spec.
    pub fn hash64(&self, bytes: &[u8]) -> (r: u64)
        ensures
            r == hash_of(bytes@, self.seed),
    {
        hash64(bytes, self.seed)
    }
}

impl Default for HashSpec {
    fn default() -> (r: Self)
        ensures
            r == (HashSpec { family: HashFamily::Fsk1, seed: 0, version: HASH_VERSION }),
    {
        HashSpec::new(0)
    }
}

/// Odd constant of the SplitMix64 stream (the golden ratio in 64 bits).
pub const GOLDEN_GAMMA: u64 = 0x9E37_79B9_7F4A_7C15;

/// The SplitMix64 output function.
pub open spec fn mix(x: u64) -> u64 {
    let a = x.wrapping_add(GOLDEN_GAMMA);
    let b = (a ^ (a >> 30)).wrapping_mul(0xBF58_476D_1CE4_E5B9);
    let c = (b ^ (b >> 27)).wrapping_mul(0x94D0_49BB_1331_11EB);
    c ^ (c >> 31)
}

/// Deterministic generator over the SplitMix64 stream. Used for reproducible
/// synthetic traffic, benchmarks and sketch-internal randomness, not for
/// anything security-sensitive.
#[derive(Debug, Clone)]
pub struct SplitMixRng(u64);

/// The `n`-th state of the stream that starts in `state`.
pub open spec fn stream_state(state: u64, n: nat) -> u64
    decreases n,
{
    if n == 0 {
        state
    } else {
        stream_state(state, (n - 1) as nat).wrapping_add(GOLDEN_GAMMA)
    }
}

/// The `n`-th value (from zero) drawn from a generator in `state`.
pub open spec fn stream_value(state: u64, n: nat) -> u64 {
    mix(stream_state(state, n + 1))
}

impl SplitMixRng {
    /// The current position in the stream.
    pub closed spec fn state(&self) -> u64 {
        self.0
    }

    pub fn new(seed: u64) -> (r: Self)
        ensures
            r.state() == seed,
    {
        SplitMixRng(seed)
    }

    /// Advance the stream by one step and return its value there.
    pub fn next_u64(&mut self) -> (r: u64)
        ensures
            final(self).state() == old(self).state().wrapping_add(GOLDEN_GAMMA),
            r == mix(final(self).state()),
            r == stream_value(old(self).state(), 0),
    {
        proof {
            reveal_with_fuel(stream_state, 2);
        }
        self.0 = self.0.wrapping_add(GOLDEN_GAMMA);
        splitmix64(self.0)
    }
}

/// SplitMix64 finalizer: deterministic, well distributed, cheap.
pub fn splitmix64(x: u64) -> (r: u64)
    ensures
        r == mix(x),
{
    let a: u64 = x.wrapping_add(GOLDEN_GAMMA);
    let b: u64 = (a ^ (a >> 30)).wrapping_mul(0xBF58_476D_1CE4_E5B9);
    let c: u64 = (b ^ (b >> 27)).wrapping_mul(0x94D0_49BB_1331_11EB);
    c ^ (c >> 31)
}

pub const FNV_OFFSET: u64 = 0xCBF2_9CE4_8422_2325;

pub const FNV_PRIME: u64 = 0x0000_0100_0000_01B3;

/// FNV-1a over `bytes` from the initial value `h`.
pub open spec fn fnv(bytes: Seq<u8>, h: u64) -> u64
    decreases bytes.len(),
{
    if bytes.len() == 0 {
        h
    } else {
        (fnv(bytes.drop_last(), h) ^ (bytes.last() as u64)).wrapping_mul(FNV_PRIME)
    }
}

/// The `fsk1` byte hash: a seeded FNV-1a core with a SplitMix64 finalizer.
#[verifier::opaque]
pub open spec fn hash_of(bytes: Seq<u8>, seed: u64) -> u64 {
    mix(fnv(bytes, FNV_OFFSET ^ mix(seed)))
}

/// The `fsk1` byte hash. Deterministic across platforms (see
/// [`HASH_VERSION`]).
pub fn hash64(bytes: &[u8], seed: u64) -> (r: u64)
    ensures
        r == hash_of(bytes@, seed),
{
    let start: u64 = FNV_OFFSET ^ splitmix64(seed);
    let mut h: u64 = start;
    let mut i: usize = 0;
    while i < bytes.len()
        invariant
            i <= bytes.len(),
            h == fnv(bytes@.take(i as int), start),
        decreases bytes.len() - i,
    {
        assert(bytes@.take(i + 1).drop_last() =~= bytes@.take(i as int));
        h = (h ^ (bytes[i] as u64)).wrapping_mul(FNV_PRIME);
        i += 1;
    }
    assert(bytes@.take(i as int) =~= bytes@);
    reveal(hash_of);
    splitmix64(h)
}

/// Seed perturbation of the second hash of a key.
pub const SECOND_HASH_SEED: u64 = 0xA5A5_A5A5_5A5A_5A5A;

/// The two base hashes of `key` from which every row hash is derived.
pub open spec fn row_base(seed: u64, key: Seq<u8>) -> (u64, u64) {
    (hash_of(key, seed), hash_of(key, seed ^ SECOND_HASH_SEED) | 1)
}

/// Column of `key` in `row` of a table with `width` columns.
pub open spec fn row_index(seed: u64, key: Seq<u8>, row: nat, width: nat) -> nat {
    let (h1, h2) = row_base(seed, key);
    (h1.wrapping_add((row as u64).wrapping_mul(h2)) as nat) % width
}

/// Sign of `key` in `row`.
pub open spec fn row_sign(seed: u64, key: Seq<u8>, row: nat) -> int {
    let (h1, h2) = row_base(seed, key);
    if mix(h1 ^ (row as u64).wrapping_mul(GOLDEN_GAMMA) ^ h2) & 1 == 1 {
        1
    } else {
        -1
    }
}

/// Per-row derived hashes for multi-row sketches (Kirsch-Mitzenmacher:
/// `h_i(x) = h1(x) + i * h2(x)`). One pass over the key yields the columns of
/// every row.
#[derive(Debug, Clone, Copy)]
pub struct RowHashes {
    h1: u64,
    h2: u64,
}

impl RowHashes {
    /// The two base hashes.
    pub closed spec fn base(&self) -> (u64, u64) {
        (self.h1, self.h2)
    }

    pub fn new(spec: &HashSpec, key: &[u8]) -> (r: Self)
        ensures
            r.base() == row_base(spec.seed, key@),
    {
        let h1: u64 = hash64(key, spec.seed);
        // The second hash is forced odd so that rows do not collapse.
        let h2: u64 = hash64(key, spec.seed ^ SECOND_HASH_SEED) | 1;
        RowHashes { h1, h2 }
    }

    /// Column index for `row` in a table of `width` columns.
    pub fn index(&self, row: usize, width: usize) -> (r: usize)
        requires
            width > 0,
        ensures
            r < width,
            r == (self.base().0.wrapping_add((row as u64).wrapping_mul(self.base().1)) as nat)
                % (width as nat),
            forall|seed: u64, key: Seq<u8>| #[trigger]
                row_base(seed, key) == self.base() ==> r == row_index(
                    seed,
                    key,
                    row as nat,
                    width as nat,
                ),
    {
        let h: u64 = self.h1.wrapping_add((row as u64).wrapping_mul(self.h2));
        (h % width as u64) as usize
    }

    /// A +1/-1 sign for `row`, independent of the index bits.
    pub fn sign(&self, row: usize) -> (r: i64)
        ensures
            r == 1 || r == -1,
            forall|seed: u64, key: Seq<u8>| #[trigger]
                row_base(seed, key) == self.base() ==> r == row_sign(seed, key, row as nat),
    {
        let s: u64 = splitmix64(self.h1 ^ (row as u64).wrapping_mul(GOLDEN_GAMMA) ^ self.h2);
        if s & 1 == 1 {
            1
        } else {
            -1
        }
    }

    /// The raw 64-bit hash (used by cardinality sketches).
    pub fn raw(&self) -> (r: u64)
        ensures
            r == self.base().0,
    {
        self.h1
    }
}

// ---------------------------------------------------------------------------
// Laws
// ---------------------------------------------------------------------------

/// Two to the power of 64.
spec fn words64() -> int {
    0x1_0000_0000_0000_0000
}

/// Multiplying by a number with an inverse loses nothing.
proof fn lemma_multiplier_injective(a: u64, b: u64, factor: u64, inverse: u64)
    requires
        (factor * inverse) % words64() == 1,
        a.wrapping_mul(factor) == b.wrapping_mul(factor),
    ensures
        a == b,
{
    lemma_unmultiply(a, factor, inverse);
    lemma_unmultiply(b, factor, inverse);
}

proof fn lemma_unmultiply(a: u64, factor: u64, inverse: u64)
    requires
        (factor * inverse) % words64() == 1,
    ensures
        (a.wrapping_mul(factor) * inverse) % words64() == a,
{
    let m = words64();
    vstd::arithmetic::div_mod::lemma_mul_mod_noop_left(a * factor, inverse as int, m);
    vstd::arithmetic::mul::lemma_mul_is_associative(a as int, factor as int, inverse as int);
    vstd::arithmetic::div_mod::lemma_mul_mod_noop_right(a as int, factor * inverse, m);
    assert((a * 1) % m == a);
}

/// The mixer maps different numbers to different numbers.
pub proof fn law_mix_injective(x: u64, y: u64)
    requires
        mix(x) == mix(y),
    ensures
        x == y,
{
    let a = x.wrapping_add(GOLDEN_GAMMA);
    let b = (a ^ (a >> 30)).wrapping_mul(0xBF58_476D_1CE4_E5B9);
    let c = (b ^ (b >> 27)).wrapping_mul(0x94D0_49BB_1331_11EB);
    let a2 = y.wrapping_add(GOLDEN_GAMMA);
    let b2 = (a2 ^ (a2 >> 30)).wrapping_mul(0xBF58_476D_1CE4_E5B9);
    let c2 = (b2 ^ (b2 >> 27)).wrapping_mul(0x94D0_49BB_1331_11EB);
    assert(c == c2) by (bit_vector)
        requires
            c ^ (c >> 31) == c2 ^ (c2 >> 31),
    ;
    lemma_multiplier_injective(
        b ^ (b >> 27),
        b2 ^ (b2 >> 27),
        0x94D0_49BB_1331_11EB,
        0x3196_42B2_D24D_8EC3,
    );
    assert(b == b2) by (bit_vector)
        requires
            b ^ (b >> 27) == b2 ^ (b2 >> 27),
    ;
    lemma_multiplier_injective(
        a ^ (a >> 30),
        a2 ^ (a2 >> 30),
        0xBF58_476D_1CE4_E5B9,
        0x96DE_1B17_3F11_9089,
    );
    assert(a == a2) by (bit_vector)
        requires
            a ^ (a >> 30) == a2 ^ (a2 >> 30),
    ;
}

/// One step of the core loses nothing: neither of the value so far nor of the
/// byte.
#[verifier::spinoff_prover]
#[verifier::rlimit(40)]
proof fn lemma_step_injective(f: u64, g: u64, x: u8, y: u8)
    requires
        (f ^ (x as u64)).wrapping_mul(FNV_PRIME) == (g ^ (y as u64)).wrapping_mul(FNV_PRIME),
    ensures
        f == g <==> x == y,
{
    lemma_multiplier_injective(f ^ (x as u64), g ^ (y as u64), FNV_PRIME, 0xCE96_5057_AFF6_957B);
    assert(f == g <==> x == y) by (bit_vector)
        requires
            f ^ (x as u64) == g ^ (y as u64),
    ;
}

proof fn lemma_fnv_tells_apart(s: Seq<u8>, i: int, y: u8, h: u64)
    requires
        0 <= i < s.len(),
        y != s[i],
    ensures
        fnv(s.update(i, y), h) != fnv(s, h),
    decreases s.len(),
{
    let t = s.update(i, y);
    if fnv(t, h) == fnv(s, h) {
        lemma_step_injective(
            fnv(t.drop_last(), h),
            fnv(s.drop_last(), h),
            t.last(),
            s.last(),
        );
        if i < s.len() - 1 {
            assert(t.drop_last() =~= s.drop_last().update(i, y));
            lemma_fnv_tells_apart(s.drop_last(), i, y, h);
        } else {
            assert(t.drop_last() =~= s.drop_last());
        }
    }
}

/// Strings of one length that differ in a single byte, wherever it stands,
/// have different hashes.
pub proof fn law_hash_tells_bytes_apart(s: Seq<u8>, i: int, y: u8, seed: u64)
    requires
        0 <= i < s.len(),
        y != s[i],
    ensures
        hash_of(s.update(i, y), seed) != hash_of(s, seed),
{
    reveal(hash_of);
    let h = FNV_OFFSET ^ mix(seed);
    lemma_fnv_tells_apart(s, i, y, h);
    if mix(fnv(s.update(i, y), h)) == mix(fnv(s, h)) {
        law_mix_injective(fnv(s.update(i, y), h), fnv(s, h));
    }
}

} // verus!
