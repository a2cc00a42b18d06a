//! Posting with retries: what to do after each attempt.

use vstd::prelude::*;
use vstd::string::*;

use crate::text::{dec, push_decimal};

verus! {

/// How often a post is tried.
pub const ATTEMPTS: u32 = 3;

/// What to do after an attempt.
#[derive(Debug)]
pub enum Step<E> {
    /// The post is done, for better or worse.
    Finished(Result<(), E>),
    /// Wait this many milliseconds and try again.
    Again(u64),
}

/// How long to wait before attempt `n` (from one on): 200 ms, then four times
/// as long each time.
pub open spec fn wait_before(n: nat) -> nat
    decreases n,
{
    if n <= 1 {
        200
    } else {
        4 * wait_before((n - 1) as nat)
    }
}

/// How long to wait before attempt `n`.
pub fn backoff_ms(n: u32) -> (r: u64)
    requires
        1 <= n <= ATTEMPTS,
    ensures
        r == wait_before(n as nat),
{
    proof {
        reveal_with_fuel(wait_before, 4);
    }
    if n == 1 {
        200
    } else if n == 2 {
        800
    } else {
        3200
    }
}

/// A message about a status.
pub open spec fn status_text(status: u16) -> Seq<char> {
    "HTTP "@ + dec(status as nat)
}

/// A message about a status.
pub fn show_status(status: u16) -> (r: String)
    ensures
        r@ == status_text(status),
{
    let mut out = "HTTP ".to_owned();
    push_decimal(&mut out, status as u64);
    out
}

/// Attempts become rarer, not more frequent.
pub proof fn law_waits_grow(n: nat)
    requires
        n >= 1,
    ensures
        wait_before(n + 1) == 4 * wait_before(n),
        wait_before(n) >= 200,
    decreases n,
{
    if n > 1 {
        law_waits_grow((n - 1) as nat);
    }
}

} // verus!
