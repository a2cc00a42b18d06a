//! Stable algorithm identifiers for the snapshot header.

use vstd::prelude::*;

verus! {

pub const COUNT_MIN: u16 = 1;

pub const COUNT_SKETCH: u16 = 2;

pub const HYPER_LOG_LOG: u16 = 3;

pub const SPACE_SAVING: u16 = 4;

pub const MISRA_GRIES: u16 = 5;

pub const HLL_MAP: u16 = 6;

pub const EXACT: u16 = 7;

pub const KLL: u16 = 8;

} // verus!
