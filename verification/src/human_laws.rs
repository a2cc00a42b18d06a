//! How good the numbers are that people see.

use vstd::arithmetic::power2::pow2;
use vstd::prelude::*;
use vstd::string::*;

use crate::human::{rounded, shown_bytes, spare_bits, unit_of, with_53_digits};
use crate::text::dec;

verus! {

/// A rounded quotient is at most half away from the exact one, and even where
/// two are as near.
pub proof fn law_quotients_are_rounded_to_the_nearest(n: nat, d: nat)
    requires
        d > 0,
    ensures
        -(d as int) <= 2 * (rounded(n, d) * d - n) <= d,
        2 * (rounded(n, d) * d - n) == d || 2 * (n - rounded(n, d) * d) == d ==> rounded(n, d) % 2
            == 0,
{
    let q = n as int / d as int;
    let r = n as int % d as int;
    vstd::arithmetic::div_mod::lemma_fundamental_div_mod(n as int, d as int);
    vstd::arithmetic::div_mod::lemma_mod_bound(n as int, d as int);
    assert(q * d == d * q) by (nonlinear_arith);
    assert((q + 1) * d == q * d + d) by (nonlinear_arith);
    assert(q >= 0);
}

/// Counts are shown in the largest unit, each 1024 of the one before, that is
/// not larger than the count; whole bytes exactly, all others with one decimal,
/// which is the nearest one as long as the count has no more than 53 bits.
pub proof fn law_sizes_are_shown_to_a_tenth(n: nat)
    ensures
        n < 1_024 ==> shown_bytes(n) == dec(n) + " B"@,
        n >= 1_024 ==> {
            let (size, name) = unit_of(n);
            &&& size == 1_024 && name == "KiB"@ || size == 1_048_576 && name == "MiB"@ || size
                == 1_073_741_824 && name == "GiB"@
            &&& size <= n
            &&& n < 1_024 * size || size == 1_073_741_824
            &&& n < 0x20_0000_0000_0000 ==> exists|tenths: nat|
                {
                    &&& shown_bytes(n) == #[trigger] dec(tenths / 10) + "."@ + dec(tenths % 10)
                        + " "@ + name
                    &&& -(size as int) <= 2 * (tenths * size - 10 * n) <= size
                }
        },
{
    if n >= 1_024 && n < 0x20_0000_0000_0000 {
        let (size, name) = unit_of(n);
        vstd::arithmetic::power2::lemma2_to64();
        assert(spare_bits(n) == 0);
        assert(pow2(0) == 1);
        assert(rounded(n, 1) == n);
        assert(with_53_digits(n) == n);
        let tenths = rounded(n * 10, size);
        law_quotients_are_rounded_to_the_nearest(n * 10, size);
        assert(shown_bytes(n) == dec(tenths / 10) + "."@ + dec(tenths % 10) + " "@ + name);
    }
}

} // verus!
