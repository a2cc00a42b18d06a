//! Powers of two.

use vstd::arithmetic::power2::{
    lemma2_to64, lemma_pow2_strictly_increases, lemma_pow2_unfold, pow2,
};
use vstd::prelude::*;

verus! {

/// Whether `n` is a power of two from 2^low to 2^high.
pub open spec fn is_power_between(n: nat, low: nat, high: nat) -> bool {
    exists|k: nat| low <= k <= high && n == #[trigger] pow2(k)
}

/// Whether a number is a power of two from 2^low to 2^high.
pub fn power_between(n: u32, low: u32, high: u32) -> (r: bool)
    requires
        low <= high < 32,
    ensures
        r == is_power_between(n as nat, low as nat, high as nat),
{
    proof {
        lemma2_to64();
    }
    let mut k: u32 = 0;
    let mut power: u64 = 1;
    while k <= high
        invariant
            k <= high + 1,
            high < 32,
            power == pow2(k as nat),
            forall|j: nat| low <= j < k ==> n != #[trigger] pow2(j),
        decreases high + 1 - k,
    {
        if k >= low && power == n as u64 {
            return true;
        }
        proof {
            lemma2_to64();
            lemma_pow2_unfold((k + 1) as nat);
            lemma_pow2_strictly_increases(k as nat, 32);
        }
        power = power * 2;
        k = k + 1;
    }
    false
}

} // verus!
