//! Numbers of 64-bit IEEE 754 format, held as their bits.
//!
//! The library compares such numbers and hands them on; it never computes
//! with them. Comparing needs no more than the bits: the numbers of one sign
//! are ordered as their bits are.

use vstd::prelude::*;

verus! {

/// A 64-bit IEEE 754 number, by its bits.
#[derive(Debug, Clone, Copy, PartialEq, Eq, Structural)]
pub struct Float64 {
    pub bits: u64,
}

/// The bits of 1.0.
pub const ONE_BITS: u64 = 0x3FF0_0000_0000_0000;

impl Float64 {
    /// The number without its sign, as an integer that grows with it.
    pub open spec fn magnitude(self) -> int {
        if self.bits >= 0x8000_0000_0000_0000 {
            self.bits - 0x8000_0000_0000_0000
        } else {
            self.bits as int
        }
    }

    /// Whether the bits stand for no number at all.
    pub open spec fn is_nan(self) -> bool {
        self.magnitude() > 0x7FF0_0000_0000_0000
    }

    /// An integer that is ordered as the numbers are.
    pub open spec fn rank(self) -> int {
        if self.bits >= 0x8000_0000_0000_0000 {
            -self.magnitude()
        } else {
            self.magnitude()
        }
    }

    /// `self < other`: false where either is not a number.
    pub open spec fn below(self, other: Float64) -> bool {
        !self.is_nan() && !other.is_nan() && self.rank() < other.rank()
    }

    /// `self <= other`: false where either is not a number.
    pub open spec fn at_most(self, other: Float64) -> bool {
        !self.is_nan() && !other.is_nan() && self.rank() <= other.rank()
    }

    /// In the open interval from 0 to 1.
    pub open spec fn in_open_unit(self) -> bool {
        (Float64 { bits: 0 }).below(self) && self.below(Float64 { bits: ONE_BITS })
    }

    /// In the closed interval from 0 to 1.
    pub open spec fn in_closed_unit(self) -> bool {
        (Float64 { bits: 0 }).at_most(self) && self.at_most(Float64 { bits: ONE_BITS })
    }

    fn ordered(self) -> (r: (bool, bool, u64))
        ensures
            r.0 == self.is_nan(),
            r.1 == (self.bits >= 0x8000_0000_0000_0000),
            r.2 == self.magnitude(),
    {
        if self.bits >= 0x8000_0000_0000_0000 {
            let m: u64 = self.bits - 0x8000_0000_0000_0000;
            (m > 0x7FF0_0000_0000_0000, true, m)
        } else {
            (self.bits > 0x7FF0_0000_0000_0000, false, self.bits)
        }
    }

    /// `self < other`
    pub fn lt(self, other: Float64) -> (r: bool)
        ensures
            r == self.below(other),
    {
        let (a_nan, a_neg, a) = self.ordered();
        let (b_nan, b_neg, b) = other.ordered();
        if a_nan || b_nan {
            false
        } else if a_neg {
            if b_neg {
                b < a
            } else {
                a > 0 || b > 0
            }
        } else {
            !b_neg && a < b
        }
    }

    /// `self <= other`
    pub fn le(self, other: Float64) -> (r: bool)
        ensures
            r == self.at_most(other),
    {
        let (a_nan, a_neg, a) = self.ordered();
        let (b_nan, b_neg, b) = other.ordered();
        if a_nan || b_nan {
            false
        } else if a_neg {
            if b_neg {
                b <= a
            } else {
                true
            }
        } else if b_neg {
            a == 0 && b == 0
        } else {
            a <= b
        }
    }

    /// Whether the number is in the open interval from 0 to 1.
    pub fn within_open_unit(self) -> (r: bool)
        ensures
            r == self.in_open_unit(),
    {
        (Float64 { bits: 0 }).lt(self) && self.lt(Float64 { bits: ONE_BITS })
    }

    /// Whether the number is in the closed interval from 0 to 1.
    pub fn within_closed_unit(self) -> (r: bool)
        ensures
            r == self.in_closed_unit(),
    {
        (Float64 { bits: 0 }).le(self) && self.le(Float64 { bits: ONE_BITS })
    }
}

/// The numbers are totally ordered: of two of them one is smaller, or they
/// have the same rank.
pub proof fn law_floats_are_ordered(a: Float64, b: Float64, c: Float64)
    requires
        !a.is_nan(),
        !b.is_nan(),
        !c.is_nan(),
    ensures
        a.below(b) || b.below(a) || (a.at_most(b) && b.at_most(a)),
        !(a.below(b) && b.at_most(a)),
        a.below(b) && b.below(c) ==> a.below(c),
{
}

/// Numbers are ordered by their sign first; two that are positive as their bits
/// are, two that are negative the other way round. The two zeros are equal, and
/// what is no number is not ordered at all.
pub proof fn law_floats_are_ordered_by_sign(a: Float64, b: Float64)
    ensures
        ({
            let top = 0x8000_0000_0000_0000u64;
            let zero = |x: Float64| x.bits == 0 || x.bits == top;
            let nan = |x: Float64|
                0x7FF0_0000_0000_0000 < x.bits < top || 0xFFF0_0000_0000_0000 < x.bits;
            &&& nan(a) || nan(b) ==> !a.below(b) && !a.at_most(b)
            &&& !nan(a) && !nan(b) && a.bits >= top && b.bits < top ==> (a.below(b) <==> !(zero(a)
                && zero(b))) && a.at_most(b)
            &&& !nan(a) && !nan(b) && a.bits < top && b.bits < top ==> (a.below(b) <==> a.bits
                < b.bits) && (a.at_most(b) <==> a.bits <= b.bits)
            &&& !nan(a) && !nan(b) && a.bits >= top && b.bits >= top ==> (a.below(b) <==> a.bits
                > b.bits) && (a.at_most(b) <==> a.bits >= b.bits)
        }),
{
}

} // verus!
