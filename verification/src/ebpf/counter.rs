//! Indexes of the kernel program's counters.

use vstd::prelude::*;

verus! {

pub const PACKETS: u32 = 0;

pub const EMITTED: u32 = 1;

pub const RING_DROPS: u32 = 2;

pub const PARSE_ERRORS: u32 = 3;

pub const UNSUPPORTED: u32 = 4;

pub const COUNT: u32 = 5;

} // verus!
