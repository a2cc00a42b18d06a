//! The collector at a traffic-control hook: its counters, its ring and what
//! can go wrong with it.

use vstd::prelude::*;
use vstd::string::*;

use crate::ebpf::counter;
use crate::ebpf::record::{EbpfError, EBPF_ABI_VERSION, EBPF_COUNTERS_MAP};
use crate::ip::{hex, push_hex};
use crate::powers::{is_power_between, power_between};
use crate::text::{dec, push_decimal};

verus! {

/// Counters since the program was attached.
#[derive(Debug, Clone, Copy, PartialEq, Eq, Structural)]
pub struct TcCollectorCounters {
    pub packets: u64,
    pub emitted: u64,
    pub ring_drops: u64,
    pub parse_errors: u64,
    pub unsupported: u64,
}

impl Default for TcCollectorCounters {
    fn default() -> (r: Self)
        ensures
            r == (TcCollectorCounters {
                packets: 0,
                emitted: 0,
                ring_drops: 0,
                parse_errors: 0,
                unsupported: 0,
            }),
    {
        TcCollectorCounters {
            packets: 0,
            emitted: 0,
            ring_drops: 0,
            parse_errors: 0,
            unsupported: 0,
        }
    }
}

impl TcCollectorCounters {
    /// Whether every packet ended in exactly one of the four ways.
    pub fn is_consistent(self) -> (r: bool)
        ensures
            r == (self.packets == self.emitted + self.ring_drops + self.parse_errors
                + self.unsupported),
    {
        let total: u128 = self.emitted as u128 + self.ring_drops as u128 + self.parse_errors as u128
            + self.unsupported as u128;
        total == self.packets as u128
    }
}

/// What can go wrong with the collector.
#[derive(Debug)]
pub enum TcCollectorError {
    InvalidRingSize(u32),
    Load { path: String, detail: String },
    MissingProgram(String),
    MissingMap(String),
    MapFault { name: String, detail: String },
    Verifier(String),
    Attach { interface: String, detail: String },
    Poll(String),
    Counter { index: u32, detail: String },
    CounterOverflow(u32),
    Contract(EbpfError),
}

impl TcCollectorError {
    /// The message shown to people.
    pub open spec fn text(self) -> Seq<char> {
        match self {
            TcCollectorError::InvalidRingSize(n) => "invalid eBPF ring size "@ + dec(n as nat)
                + ": expected a power of two between 65536 and 1073741824 bytes"@,
            TcCollectorError::Load { path, detail } => "cannot load eBPF object "@ + path@ + ": "@
                + detail@,
            TcCollectorError::MissingProgram(name) => "eBPF object is missing required program "@
                + name@,
            TcCollectorError::MissingMap(name) => "eBPF object is missing required map "@ + name@,
            TcCollectorError::MapFault { name, detail } => "cannot use eBPF map "@ + name@ + ": "@
                + detail@,
            TcCollectorError::Verifier(m) => "cannot load tc program into the kernel verifier: "@
                + m@,
            TcCollectorError::Attach {
                interface,
                detail,
            } => "cannot attach tc ingress program to "@ + interface@ + ": "@ + detail@,
            TcCollectorError::Poll(m) => "cannot poll eBPF ring buffer: "@ + m@,
            TcCollectorError::Counter { index, detail } => "cannot read eBPF counter "@ + dec(
                index as nat,
            ) + ": "@ + detail@,
            TcCollectorError::CounterOverflow(index) => "eBPF counter sum overflow at index "@
                + dec(index as nat),
            TcCollectorError::Contract(e) => e.text(),
        }
    }

    pub fn to_string(&self) -> (r: String)
        ensures
            r@ == self.text(),
    {
        match self {
            TcCollectorError::InvalidRingSize(n) => {
                let mut out = "invalid eBPF ring size ".to_owned();
                push_decimal(&mut out, *n as u64);
                out.append(": expected a power of two between 65536 and 1073741824 bytes");
                out
            },
            TcCollectorError::Load { path, detail } => {
                let mut out = "cannot load eBPF object ".to_owned();
                out.append(path.as_str());
                out.append(": ");
                out.append(detail.as_str());
                out
            },
            TcCollectorError::MissingProgram(name) => {
                let mut out = "eBPF object is missing required program ".to_owned();
                out.append(name.as_str());
                out
            },
            TcCollectorError::MissingMap(name) => {
                let mut out = "eBPF object is missing required map ".to_owned();
                out.append(name.as_str());
                out
            },
            TcCollectorError::MapFault { name, detail } => {
                let mut out = "cannot use eBPF map ".to_owned();
                out.append(name.as_str());
                out.append(": ");
                out.append(detail.as_str());
                out
            },
            TcCollectorError::Verifier(m) => {
                let mut out = "cannot load tc program into the kernel verifier: ".to_owned();
                out.append(m.as_str());
                out
            },
            TcCollectorError::Attach { interface, detail } => {
                let mut out = "cannot attach tc ingress program to ".to_owned();
                out.append(interface.as_str());
                out.append(": ");
                out.append(detail.as_str());
                out
            },
            TcCollectorError::Poll(m) => {
                let mut out = "cannot poll eBPF ring buffer: ".to_owned();
                out.append(m.as_str());
                out
            },
            TcCollectorError::Counter { index, detail } => {
                let mut out = "cannot read eBPF counter ".to_owned();
                push_decimal(&mut out, *index as u64);
                out.append(": ");
                out.append(detail.as_str());
                out
            },
            TcCollectorError::CounterOverflow(index) => {
                let mut out = "eBPF counter sum overflow at index ".to_owned();
                push_decimal(&mut out, *index as u64);
                out
            },
            TcCollectorError::Contract(e) => e.to_string(),
        }
    }
}

/// Whether a ring of `n` bytes can be made: a power of two from 64 KiB to
/// 1 GiB.
pub open spec fn is_ring_size(n: nat) -> bool {
    is_power_between(n, 16, 30)
}

/// Check the size of a ring.
pub fn check_ring_size(ring_buffer_bytes: u32) -> (r: Result<(), TcCollectorError>)
    ensures
        is_ring_size(ring_buffer_bytes as nat) ==> r is Ok,
        !is_ring_size(ring_buffer_bytes as nat) ==> r == Err::<(), TcCollectorError>(
            TcCollectorError::InvalidRingSize(ring_buffer_bytes),
        ),
{
    if power_between(ring_buffer_bytes, 16, 30) {
        Ok(())
    } else {
        Err(TcCollectorError::InvalidRingSize(ring_buffer_bytes))
    }
}

/// The message about a counter map of the wrong length.
pub open spec fn counter_map_fault(len: nat) -> Seq<char> {
    "expected "@ + dec(counter::COUNT as nat) + " entries for ABI v"@ + dec(EBPF_ABI_VERSION as nat)
        + ", got "@ + dec(len)
}

/// Check the length of the counter map.
pub fn check_counter_map(len: u32) -> (r: Result<(), TcCollectorError>)
    ensures
        len == counter::COUNT ==> r is Ok,
        len != counter::COUNT ==> {
            &&& r matches Err(TcCollectorError::MapFault { name, detail })
            &&& name@ == EBPF_COUNTERS_MAP@
            &&& detail@ == counter_map_fault(len as nat)
        },
{
    if len == counter::COUNT {
        return Ok(());
    }
    let mut detail = "expected ".to_owned();
    push_decimal(&mut detail, counter::COUNT as u64);
    detail.append(" entries for ABI v");
    push_decimal(&mut detail, EBPF_ABI_VERSION as u64);
    detail.append(", got ");
    push_decimal(&mut detail, len as u64);
    Err(TcCollectorError::MapFault { name: EBPF_COUNTERS_MAP.to_owned(), detail })
}

/// The sum of a counter over all processors.
pub open spec fn total(values: Seq<u64>) -> nat
    decreases values.len(),
{
    if values.len() == 0 {
        0
    } else {
        total(values.drop_last()) + values.last() as nat
    }
}

/// Add up a counter over all processors.
pub fn counter_sum(index: u32, values: &[u64]) -> (r: Result<u64, TcCollectorError>)
    ensures
        total(values@) <= u64::MAX ==> r == Ok::<u64, TcCollectorError>(total(values@) as u64),
        total(values@) > u64::MAX ==> r == Err::<u64, TcCollectorError>(
            TcCollectorError::CounterOverflow(index),
        ),
{
    let mut sum: u64 = 0;
    let mut i: usize = 0;
    assert(values@.take(0) =~= Seq::<u64>::empty());
    while i < values.len()
        invariant
            i <= values@.len(),
            sum == total(values@.take(i as int)),
        decreases values@.len() - i,
    {
        assert(values@.take(i + 1).drop_last() =~= values@.take(i as int));
        if values[i] > u64::MAX - sum {
            proof {
                lemma_total_grows(values@, i + 1);
            }
            return Err(TcCollectorError::CounterOverflow(index));
        }
        sum = sum + values[i];
        i += 1;
    }
    assert(values@.take(i as int) =~= values@);
    Ok(sum)
}

proof fn lemma_total_grows(values: Seq<u64>, n: int)
    requires
        0 <= n <= values.len(),
    ensures
        total(values.take(n)) <= total(values),
    decreases values.len(),
{
    if n < values.len() {
        lemma_total_grows(values.drop_last(), n);
        assert(values.drop_last().take(n) =~= values.take(n));
    } else {
        assert(values.take(n) =~= values);
    }
}

/// How long to poll, in the milliseconds that the system call takes.
pub fn poll_timeout_ms(millis: u128) -> (r: i32)
    ensures
        r == (if millis <= i32::MAX {
            millis as int
        } else {
            i32::MAX as int
        }),
{
    if millis > i32::MAX as u128 {
        i32::MAX
    } else {
        millis as i32
    }
}

/// The bits of poll events that stand for an error, a hang-up or a closed
/// descriptor.
pub const POLL_FAULTS: u16 = 0x38;

/// What poll events say is wrong, if anything.
pub fn poll_fault(revents: u16) -> (r: Option<TcCollectorError>)
    ensures
        r is None <==> revents & POLL_FAULTS == 0,
        r is Some ==> {
            &&& r->0 matches TcCollectorError::Poll(m)
            &&& m@ == "ring map fd returned poll events 0x"@ + hex(revents as nat)
        },
{
    if revents & POLL_FAULTS == 0 {
        return None;
    }
    let mut m = "ring map fd returned poll events 0x".to_owned();
    push_hex(&mut m, revents as u64);
    Some(TcCollectorError::Poll(m))
}

/// The failure to attach by either way.
pub fn attach_failure(interface: &str, first: &str, step: &str, second: &str) -> (r:
    TcCollectorError)
    ensures
        r matches TcCollectorError::Attach { interface: i, detail } && i@ == interface@ && detail@
            == "TCX/initial attach failed ("@ + first@ + "); "@ + step@ + " ("@ + second@ + ")"@,
{
    let mut detail = "TCX/initial attach failed (".to_owned();
    detail.append(first);
    detail.append("); ");
    detail.append(step);
    detail.append(" (");
    detail.append(second);
    detail.append(")");
    TcCollectorError::Attach { interface: interface.to_owned(), detail }
}

} // verus!
