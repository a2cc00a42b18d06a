//! Link types whose packets can be parsed.

use vstd::prelude::*;

verus! {

pub const ETHERNET: u32 = 1;

pub const RAW_IP: u32 = 101;

pub const LINUX_SLL: u32 = 113;

} // verus!
