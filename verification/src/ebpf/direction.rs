//! Wire values of the direction field.

use vstd::prelude::*;

verus! {

pub const UNKNOWN: u8 = 0;

pub const INGRESS: u8 = 1;

pub const EGRESS: u8 = 2;

} // verus!
