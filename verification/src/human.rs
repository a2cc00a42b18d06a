//! Byte counts for people.

use vstd::arithmetic::power2::{lemma2_to64, lemma_pow2_unfold, pow2};
use vstd::prelude::*;
use vstd::string::*;

use crate::text::{dec, push_decimal};

verus! {

/// The quotient rounded to the nearest whole number, to the even one if two
/// are as near.
pub open spec fn rounded(n: nat, d: nat) -> nat {
    let q = n / d;
    let r = n % d;
    if 2 * r > d || 2 * r == d && q % 2 == 1 {
        q + 1
    } else {
        q
    }
}

/// How many bits of `n` a number with 53 binary digits has no room for.
pub open spec fn spare_bits(n: nat) -> nat
    decreases n,
{
    if n < 0x20_0000_0000_0000 {
        0
    } else {
        1 + spare_bits(n / 2)
    }
}

/// `n` with 53 binary digits.
pub open spec fn with_53_digits(n: nat) -> nat {
    rounded(n, pow2(spare_bits(n))) * pow2(spare_bits(n))
}

/// The size of the unit in which `n` bytes are shown, and its name.
pub open spec fn unit_of(n: nat) -> (nat, Seq<char>) {
    if n < 0x400 {
        (1, "B"@)
    } else if n < 0x10_0000 {
        (0x400, "KiB"@)
    } else if n < 0x4000_0000 {
        (0x10_0000, "MiB"@)
    } else {
        (0x4000_0000, "GiB"@)
    }
}

/// A byte count as it is shown: with one decimal, except for bytes.
pub open spec fn shown_bytes(n: nat) -> Seq<char> {
    let (size, name) = unit_of(n);
    if size == 1 {
        dec(n) + " B"@
    } else {
        let tenths = rounded(with_53_digits(n) * 10, size);
        dec(tenths / 10) + "."@ + dec(tenths % 10) + " "@ + name
    }
}

fn round_quotient(n: u128, d: u128) -> (r: u128)
    requires
        0 < d <= 0x1_0000_0000_0000_0000,
        n <= 0x10_0000_0000_0000_0000,
    ensures
        r == rounded(n as nat, d as nat),
        r <= n + 1,
{
    let q: u128 = n / d;
    let rest: u128 = n % d;
    proof {
        vstd::arithmetic::div_mod::lemma_div_is_ordered_by_denominator(n as int, 1, d as int);
    }
    if 2 * rest > d || (2 * rest == d && q % 2 == 1) {
        q + 1
    } else {
        q
    }
}

proof fn lemma_spare_bits(n: nat)
    requires
        n <= u64::MAX,
    ensures
        spare_bits(n) <= 11,
{
    reveal_with_fuel(spare_bits, 13);
}

fn spare(n: u64) -> (r: u32)
    ensures
        r == spare_bits(n as nat),
        r <= 11,
{
    proof {
        lemma_spare_bits(n as nat);
    }
    let mut k: u32 = 0;
    let mut m: u64 = n;
    while m >= 0x20_0000_0000_0000
        invariant
            k + spare_bits(m as nat) == spare_bits(n as nat),
            spare_bits(n as nat) <= 11,
        decreases m,
    {
        m = m / 2;
        k = k + 1;
    }
    k
}

/// Render a byte count for people.
pub fn format_bytes(bytes: u64) -> (r: String)
    ensures
        r@ == shown_bytes(bytes as nat),
{
    if bytes < 0x400 {
        let mut out = String::new();
        push_decimal(&mut out, bytes);
        proof {
            assert(Seq::<char>::empty() + dec(bytes as nat) =~= dec(bytes as nat));
        }
        out.append(" B");
        return out;
    }
    let (size, name): (u128, &str) = if bytes < 0x10_0000 {
        (0x400, "KiB")
    } else if bytes < 0x4000_0000 {
        (0x10_0000, "MiB")
    } else {
        (0x4000_0000, "GiB")
    };
    let k: u32 = spare(bytes);
    let mut step: u128 = 1;
    let mut i: u32 = 0;
    proof {
        lemma2_to64();
    }
    while i < k
        invariant
            i <= k <= 11,
            step == pow2(i as nat),
        decreases k - i,
    {
        proof {
            lemma2_to64();
            lemma_pow2_unfold((i + 1) as nat);
            vstd::arithmetic::power2::lemma_pow2_strictly_increases(i as nat, 12);
        }
        step = step * 2;
        i = i + 1;
    }
    proof {
        lemma2_to64();
        if k < 11 {
            vstd::arithmetic::power2::lemma_pow2_strictly_increases(k as nat, 11);
        }
        vstd::arithmetic::power2::lemma_pow2_pos(k as nat);
    }
    let q: u128 = round_quotient(bytes as u128, step);
    proof {
        lemma_rounded_product(bytes as nat, step as nat);
    }
    let value: u128 = q * step;
    let tenths: u128 = round_quotient(value * 10, size);
    proof {
        lemma_tenths_fit(value as nat, size as nat);
    }
    let tenths: u64 = tenths as u64;
    let mut out = String::new();
    push_decimal(&mut out, tenths / 10);
    proof {
        assert(Seq::<char>::empty() + dec((tenths / 10) as nat) =~= dec((tenths / 10) as nat));
    }
    out.append(".");
    push_decimal(&mut out, tenths % 10);
    out.append(" ");
    out.append(name);
    out
}

proof fn lemma_rounded_product(n: nat, d: nat)
    requires
        0 < d <= 2048,
        n <= u64::MAX,
    ensures
        rounded(n, d) * d <= n + d,
{
    vstd::arithmetic::div_mod::lemma_fundamental_div_mod(n as int, d as int);
    let q = n / d;
    assert((q + 1) * d == d * q + d) by (nonlinear_arith);
    assert(q * d == d * q) by (nonlinear_arith);
}

proof fn lemma_tenths_fit(value: nat, size: nat)
    requires
        size >= 0x400,
        value <= u64::MAX + 2048,
    ensures
        rounded(value * 10, size) <= u64::MAX,
{
    vstd::arithmetic::div_mod::lemma_div_is_ordered_by_denominator(
        (value * 10) as int,
        0x400,
        size as int,
    );
}

} // verus!
