//! Which sketch answers a query, and with which parameters.

use vstd::prelude::*;
use vstd::string::*;

use crate::text::{dec, join, joined_texts, push_decimal, texts};

verus! {

/// A sketch configuration. `Composite` combines stages (such as a key tracker
/// and a counting sketch).
#[derive(Debug, PartialEq, Eq)]
pub enum PhysicalSketch {
    CountMin { width: usize, depth: usize, conservative_update: bool },
    CountSketch { width: usize, depth: usize },
    SpaceSaving { capacity: usize },
    MisraGries { capacity: usize },
    HyperLogLog { precision: u8 },
    HllMap { max_keys: usize, precision: u8 },
    Kll { k: usize },
    Composite { stages: Vec<PhysicalSketch> },
}

/// Allowance for one entry of a hash map.
pub const HASH_ENTRY_OVERHEAD: u64 = 48;

/// `n`, or the largest 64-bit number where `n` is larger.
pub open spec fn capped(n: nat) -> u64 {
    if n > u64::MAX {
        u64::MAX
    } else {
        n as u64
    }
}

/// The number of registers of an HLL sketch.
pub open spec fn registers(precision: u8) -> nat {
    vstd::arithmetic::power2::pow2(precision as nat)
}

/// The short names of the stages.
pub open spec fn stage_names(stages: Seq<PhysicalSketch>) -> Seq<Seq<char>>
    decreases stages,
{
    if stages.len() == 0 {
        Seq::empty()
    } else {
        stage_names(stages.drop_last()).push(stages.last().text())
    }
}

/// The descriptions of the stages.
pub open spec fn stage_descriptions(stages: Seq<PhysicalSketch>) -> Seq<Seq<char>>
    decreases stages,
{
    if stages.len() == 0 {
        Seq::empty()
    } else {
        stage_descriptions(stages.drop_last()).push(stages.last().description())
    }
}

/// What the stages hold together, in bytes.
pub open spec fn stage_bytes(stages: Seq<PhysicalSketch>, avg_key_bytes: nat) -> nat
    decreases stages,
{
    if stages.len() == 0 {
        0
    } else {
        stage_bytes(stages.drop_last(), avg_key_bytes) + stages.last().bytes(avg_key_bytes)
    }
}

pub open spec fn bool_text(b: bool) -> Seq<char> {
    if b {
        "true"@
    } else {
        "false"@
    }
}

proof fn lemma_stage_is_smaller(sketch: PhysicalSketch, i: int)
    requires
        sketch is Composite,
        0 <= i < sketch->stages@.len(),
    ensures
        decreases_to!(sketch => sketch->stages@[i]),
{
    assert(decreases_to!(sketch => sketch->stages));
    assert(decreases_to!(sketch->stages => sketch->stages@));
    assert(decreases_to!(sketch->stages@ => sketch->stages@[i]));
}

/// `a * b`, capped.
fn times_capped(a: u64, b: u64) -> (r: u64)
    ensures
        r == capped(a as nat * b as nat),
{
    assert(a as nat * b as nat <= u64::MAX as nat * u64::MAX as nat) by (nonlinear_arith)
        requires
            a <= u64::MAX,
            b <= u64::MAX,
    ;
    let product: u128 = a as u128 * b as u128;
    if product > u64::MAX as u128 {
        u64::MAX
    } else {
        product as u64
    }
}

/// `a + b`, capped.
fn plus_capped(a: u64, b: u64) -> (r: u64)
    ensures
        r == capped(a as nat + b as nat),
{
    if a > u64::MAX - b {
        u64::MAX
    } else {
        a + b
    }
}

/// `a * b + c` where `b` may have been capped.
fn line_capped(a: u64, b: u64, c: u64, Ghost(exact): Ghost<nat>) -> (r: u64)
    requires
        b == capped(exact),
    ensures
        r == capped(a as nat * exact + c as nat),
{
    let product: u64 = times_capped(a, b);
    proof {
        if exact > u64::MAX && a > 0 {
            assert(a as nat * exact >= exact) by (nonlinear_arith)
                requires
                    a >= 1,
            ;
            assert(a as nat * b as nat >= b as nat) by (nonlinear_arith)
                requires
                    a >= 1,
            ;
        }
        if a == 0 {
            assert(a as nat * exact == 0) by (nonlinear_arith)
                requires
                    a == 0,
            ;
            assert(a as nat * b as nat == 0) by (nonlinear_arith)
                requires
                    a == 0,
            ;
        }
    }
    plus_capped(product, c)
}

/// The number of registers of an HLL sketch, capped.
pub fn register_count(precision: u8) -> (r: u64)
    ensures
        r == capped(registers(precision)),
{
    proof {
        vstd::arithmetic::power2::lemma2_to64();
    }
    if precision >= 64 {
        proof {
            if precision > 64 {
                vstd::arithmetic::power2::lemma_pow2_strictly_increases(64, precision as nat);
            }
        }
        u64::MAX
    } else {
        proof {
            vstd::bits::lemma_u64_pow2_no_overflow(precision as nat);
            vstd::bits::lemma_u64_shl_is_mul(1, precision as u64);
        }
        1u64 << (precision as u64)
    }
}

impl PhysicalSketch {
    /// Short algorithm name.
    pub open spec fn text(self) -> Seq<char>
        decreases self,
    {
        match self {
            PhysicalSketch::CountMin { .. } => "count-min"@,
            PhysicalSketch::CountSketch { .. } => "count-sketch"@,
            PhysicalSketch::SpaceSaving { .. } => "spacesaving"@,
            PhysicalSketch::MisraGries { .. } => "misra-gries"@,
            PhysicalSketch::HyperLogLog { .. } => "hll"@,
            PhysicalSketch::HllMap { .. } => "hllmap"@,
            PhysicalSketch::Kll { .. } => "kll"@,
            PhysicalSketch::Composite { stages } => joined_texts(stage_names(stages@), "+"@),
        }
    }

    /// The configuration as shown to people.
    pub open spec fn description(self) -> Seq<char>
        decreases self,
    {
        match self {
            PhysicalSketch::CountMin { width, depth, conservative_update } => "CountMin(width="@
                + dec(width as nat) + ", depth="@ + dec(depth as nat) + ", conservative="@
                + bool_text(conservative_update) + ")"@,
            PhysicalSketch::CountSketch { width, depth } => "CountSketch(width="@ + dec(
                width as nat,
            ) + ", depth="@ + dec(depth as nat) + ")"@,
            PhysicalSketch::SpaceSaving { capacity } => "SpaceSaving(capacity="@ + dec(
                capacity as nat,
            ) + ")"@,
            PhysicalSketch::MisraGries { capacity } => "MisraGries(capacity="@ + dec(
                capacity as nat,
            ) + ")"@,
            PhysicalSketch::HyperLogLog { precision } => "HyperLogLog(precision="@ + dec(
                precision as nat,
            ) + ")"@,
            PhysicalSketch::HllMap { max_keys, precision } => "HLLMap(max_keys="@ + dec(
                max_keys as nat,
            ) + ", precision="@ + dec(precision as nat) + ")"@,
            PhysicalSketch::Kll { k } => "KLL(k="@ + dec(k as nat) + ")"@,
            PhysicalSketch::Composite { stages } => "Composite["@ + joined_texts(
                stage_descriptions(stages@),
                " + "@,
            ) + "]"@,
        }
    }

    /// Estimated steady-state memory, in bytes, with keys of an average size.
    pub open spec fn bytes(self, avg_key_bytes: nat) -> nat
        decreases self,
    {
        match self {
            PhysicalSketch::CountMin { width, depth, .. } => (width as nat * depth as nat) * 8 + 64,
            PhysicalSketch::CountSketch { width, depth } => (width as nat * depth as nat) * 8 + 64,
            PhysicalSketch::SpaceSaving { capacity } => capacity as nat * (avg_key_bytes + 16
                + HASH_ENTRY_OVERHEAD as nat) + 64,
            PhysicalSketch::MisraGries { capacity } => capacity as nat * (avg_key_bytes + 16
                + HASH_ENTRY_OVERHEAD as nat) + 64,
            PhysicalSketch::HyperLogLog { precision } => registers(precision) + 64,
            PhysicalSketch::HllMap { max_keys, precision } => max_keys as nat * (registers(
                precision,
            ) + avg_key_bytes + HASH_ENTRY_OVERHEAD as nat) + 64,
            PhysicalSketch::Kll { k } => (k as nat * 3) * 8 + 64,
            PhysicalSketch::Composite { stages } => stage_bytes(stages@, avg_key_bytes),
        }
    }

    /// Short algorithm name for labels and explain output.
    pub fn algorithm_name(&self) -> (r: String)
        ensures
            r@ == self.text(),
        decreases self,
    {
        match self {
            PhysicalSketch::CountMin { .. } => "count-min".to_owned(),
            PhysicalSketch::CountSketch { .. } => "count-sketch".to_owned(),
            PhysicalSketch::SpaceSaving { .. } => "spacesaving".to_owned(),
            PhysicalSketch::MisraGries { .. } => "misra-gries".to_owned(),
            PhysicalSketch::HyperLogLog { .. } => "hll".to_owned(),
            PhysicalSketch::HllMap { .. } => "hllmap".to_owned(),
            PhysicalSketch::Kll { .. } => "kll".to_owned(),
            PhysicalSketch::Composite { stages } => {
                let mut names: Vec<String> = Vec::new();
                let mut i: usize = 0;
                assert(texts(names@) =~= stage_names(stages@.take(0)));
                while i < stages.len()
                    invariant
                        i <= stages@.len(),
                        *self == (PhysicalSketch::Composite { stages: *stages }),
                        texts(names@) == stage_names(stages@.take(i as int)),
                    decreases stages@.len() - i,
                {
                    proof {
                        lemma_stage_is_smaller(*self, i as int);
                    }
                    let name = stages[i].algorithm_name();
                    assert(stages@.take(i + 1).drop_last() =~= stages@.take(i as int));
                    assert(texts(names@.push(name)) =~= texts(names@).push(name@));
                    names.push(name);
                    i += 1;
                }
                assert(stages@.take(i as int) =~= stages@);
                join(&names, "+")
            },
        }
    }

    /// Estimated steady-state memory of one instance, in bytes, with keys of
    /// `avg_key_bytes` on average. An estimate beyond 64 bits is capped.
    pub fn estimated_memory_bytes(&self, avg_key_bytes: usize) -> (r: u64)
        ensures
            r == capped(self.bytes(avg_key_bytes as nat)),
        decreases self,
    {
        let key: u64 = avg_key_bytes as u64;
        match self {
            PhysicalSketch::CountMin { width, depth, .. } => {
                let cells: u64 = times_capped(*width as u64, *depth as u64);
                line_capped(8, cells, 64, Ghost(*width as nat * *depth as nat))
            },
            PhysicalSketch::CountSketch { width, depth } => {
                let cells: u64 = times_capped(*width as u64, *depth as u64);
                line_capped(8, cells, 64, Ghost(*width as nat * *depth as nat))
            },
            PhysicalSketch::SpaceSaving { capacity } => {
                let entry: u64 = plus_capped(key, 16 + HASH_ENTRY_OVERHEAD);
                line_capped(
                    *capacity as u64,
                    entry,
                    64,
                    Ghost(avg_key_bytes as nat + 16 + HASH_ENTRY_OVERHEAD as nat),
                )
            },
            PhysicalSketch::MisraGries { capacity } => {
                let entry: u64 = plus_capped(key, 16 + HASH_ENTRY_OVERHEAD);
                line_capped(
                    *capacity as u64,
                    entry,
                    64,
                    Ghost(avg_key_bytes as nat + 16 + HASH_ENTRY_OVERHEAD as nat),
                )
            },
            PhysicalSketch::HyperLogLog { precision } => {
                plus_capped(register_count(*precision), 64)
            },
            PhysicalSketch::HllMap { max_keys, precision } => {
                let sketch: u64 = plus_capped(register_count(*precision), key);
                let entry: u64 = plus_capped(sketch, HASH_ENTRY_OVERHEAD);
                line_capped(
                    *max_keys as u64,
                    entry,
                    64,
                    Ghost(
                        registers(*precision) + avg_key_bytes as nat + HASH_ENTRY_OVERHEAD as nat,
                    ),
                )
            },
            PhysicalSketch::Kll { k } => {
                let items: u64 = times_capped(*k as u64, 3);
                line_capped(8, items, 64, Ghost(*k as nat * 3))
            },
            PhysicalSketch::Composite { stages } => {
                let mut total: u64 = 0;
                let mut i: usize = 0;
                while i < stages.len()
                    invariant
                        i <= stages@.len(),
                        *self == (PhysicalSketch::Composite { stages: *stages }),
                        total == capped(stage_bytes(stages@.take(i as int), avg_key_bytes as nat)),
                    decreases stages@.len() - i,
                {
                    proof {
                        lemma_stage_is_smaller(*self, i as int);
                        assert(stages@.take(i + 1).drop_last() =~= stages@.take(i as int));
                    }
                    let stage: u64 = stages[i].estimated_memory_bytes(avg_key_bytes);
                    total = plus_capped(total, stage);
                    i += 1;
                }
                assert(stages@.take(i as int) =~= stages@);
                total
            },
        }
    }

    /// The configuration for explain output.
    pub fn describe(&self) -> (r: String)
        ensures
            r@ == self.description(),
        decreases self,
    {
        match self {
            PhysicalSketch::CountMin { width, depth, conservative_update } => {
                let mut out = "CountMin(width=".to_owned();
                push_decimal(&mut out, *width as u64);
                out.append(", depth=");
                push_decimal(&mut out, *depth as u64);
                out.append(", conservative=");
                if *conservative_update {
                    out.append("true");
                } else {
                    out.append("false");
                }
                out.append(")");
                out
            },
            PhysicalSketch::CountSketch { width, depth } => {
                let mut out = "CountSketch(width=".to_owned();
                push_decimal(&mut out, *width as u64);
                out.append(", depth=");
                push_decimal(&mut out, *depth as u64);
                out.append(")");
                out
            },
            PhysicalSketch::SpaceSaving { capacity } => {
                let mut out = "SpaceSaving(capacity=".to_owned();
                push_decimal(&mut out, *capacity as u64);
                out.append(")");
                out
            },
            PhysicalSketch::MisraGries { capacity } => {
                let mut out = "MisraGries(capacity=".to_owned();
                push_decimal(&mut out, *capacity as u64);
                out.append(")");
                out
            },
            PhysicalSketch::HyperLogLog { precision } => {
                let mut out = "HyperLogLog(precision=".to_owned();
                push_decimal(&mut out, *precision as u64);
                out.append(")");
                out
            },
            PhysicalSketch::HllMap { max_keys, precision } => {
                let mut out = "HLLMap(max_keys=".to_owned();
                push_decimal(&mut out, *max_keys as u64);
                out.append(", precision=");
                push_decimal(&mut out, *precision as u64);
                out.append(")");
                out
            },
            PhysicalSketch::Kll { k } => {
                let mut out = "KLL(k=".to_owned();
                push_decimal(&mut out, *k as u64);
                out.append(")");
                out
            },
            PhysicalSketch::Composite { stages } => {
                let mut parts: Vec<String> = Vec::new();
                let mut i: usize = 0;
                assert(texts(parts@) =~= stage_descriptions(stages@.take(0)));
                while i < stages.len()
                    invariant
                        i <= stages@.len(),
                        *self == (PhysicalSketch::Composite { stages: *stages }),
                        texts(parts@) == stage_descriptions(stages@.take(i as int)),
                    decreases stages@.len() - i,
                {
                    proof {
                        lemma_stage_is_smaller(*self, i as int);
                        assert(stages@.take(i + 1).drop_last() =~= stages@.take(i as int));
                    }
                    let part = stages[i].describe();
                    assert(texts(parts@.push(part)) =~= texts(parts@).push(part@));
                    parts.push(part);
                    i += 1;
                }
                assert(stages@.take(i as int) =~= stages@);
                let mut out = "Composite[".to_owned();
                out.append(join(&parts, " + ").as_str());
                out.append("]");
                out
            },
        }
    }
}

} // verus!
