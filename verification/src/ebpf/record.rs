//! One record of the ring buffer.

use vstd::array::*;
use vstd::prelude::*;
use vstd::string::*;

use crate::bytes::{lemma_be_of_be_value, lemma_le_of_le_value, 
    be, be_value, get_be, get_be_wide, get_le, le, le_value, lemma_be_value_of_be, lemma_le_len,
    lemma_le_value_of_le, lemma_pow256_values, pow256, put_be, put_bytes, put_le,
};
use crate::ebpf::direction;
use crate::event::{blank_event, Direction, FlowEvent};
use crate::ip::IpAddr;
use crate::text::{dec, push_decimal};

verus! {

/// Version of the record. It changes whenever meaning, order, size or byte
/// order of a field changes.
pub const EBPF_ABI_VERSION: u16 = 1;

pub const EBPF_FLOW_EVENT_SIZE: usize = 56;

/// Names that the kernel program and the loader share.
pub const EBPF_ABI_SYMBOL: &'static str = "FLOWSKETCH_ABI_VERSION";

pub const EBPF_EVENTS_MAP: &'static str = "EVENTS";

pub const EBPF_COUNTERS_MAP: &'static str = "COUNTERS";

pub const EBPF_TC_PROGRAM: &'static str = "flowsketch_tc";

/// One record of the ring buffer. Ports are in host order; the timestamp is
/// of the kernel's monotonic clock.
#[derive(Debug, Clone, Copy, PartialEq, Eq)]
pub struct EbpfFlowEvent {
    pub ts_nanos: u64,
    pub src_ip: [u8; 16],
    pub dst_ip: [u8; 16],
    pub bytes: u32,
    pub interface_index: u32,
    pub src_port: u16,
    pub dst_port: u16,
    pub protocol: u8,
    pub ip_version: u8,
    pub tcp_flags: u8,
    pub direction: u8,
}

/// What is wrong with a record or a clock.
#[derive(Debug)]
pub enum EbpfError {
    InvalidRecordSize { expected: usize, actual: usize },
    UnsupportedIpVersion(u8),
    UnsupportedDirection(u8),
    ClockSample(String),
    TimestampOutOfRange(u64),
}

impl EbpfError {
    /// The message shown to people.
    pub open spec fn text(self) -> Seq<char> {
        match self {
            EbpfError::InvalidRecordSize {
                expected,
                actual,
            } => "invalid eBPF event record size: expected "@ + dec(expected as nat) + ", got "@
                + dec(actual as nat),
            EbpfError::UnsupportedIpVersion(v) => "unsupported IP version "@ + dec(v as nat),
            EbpfError::UnsupportedDirection(d) => "unsupported traffic direction "@ + dec(d as nat),
            EbpfError::ClockSample(m) => "cannot sample Linux clocks: "@ + m@,
            EbpfError::TimestampOutOfRange(t) => "eBPF monotonic timestamp "@ + dec(t as nat)
                + " cannot be represented as Unix nanoseconds"@,
        }
    }

    pub fn to_string(&self) -> (r: String)
        ensures
            r@ == self.text(),
    {
        match self {
            EbpfError::InvalidRecordSize { expected, actual } => {
                let mut out = "invalid eBPF event record size: expected ".to_owned();
                push_decimal(&mut out, *expected as u64);
                out.append(", got ");
                push_decimal(&mut out, *actual as u64);
                out
            },
            EbpfError::UnsupportedIpVersion(v) => {
                let mut out = "unsupported IP version ".to_owned();
                push_decimal(&mut out, *v as u64);
                out
            },
            EbpfError::UnsupportedDirection(d) => {
                let mut out = "unsupported traffic direction ".to_owned();
                push_decimal(&mut out, *d as u64);
                out
            },
            EbpfError::ClockSample(m) => {
                let mut out = "cannot sample Linux clocks: ".to_owned();
                out.append(m.as_str());
                out
            },
            EbpfError::TimestampOutOfRange(t) => {
                let mut out = "eBPF monotonic timestamp ".to_owned();
                push_decimal(&mut out, *t);
                out.append(" cannot be represented as Unix nanoseconds");
                out
            },
        }
    }
}

/// The bytes 1 and 0 as a number, by `u16::from_ne_bytes`: 1 where the least
/// significant byte comes first, 256 where it comes last. Which of the two
/// depends on the machine.
#[verifier::external_body]
fn native_probe() -> (r: u16)
    ensures
        r == 1 || r == 256,
{
    u16::from_ne_bytes([1, 0])
}

/// A number of `n` bytes in a byte order.
pub open spec fn ordered(v: nat, n: nat, little: bool) -> Seq<u8> {
    if little {
        le(v, n)
    } else {
        be(v, n)
    }
}

/// The value of bytes in a byte order.
pub open spec fn ordered_value(s: Seq<u8>, little: bool) -> nat {
    if little {
        le_value(s)
    } else {
        be_value(s)
    }
}

fn put_ordered(out: &mut Vec<u8>, v: u64, n: usize, little: bool)
    ensures
        final(out)@ == old(out)@ + ordered(v as nat, n as nat, little),
{
    if little {
        put_le(out, v, n);
    } else {
        put_be(out, v as u128, n);
    }
}

pub fn get_ordered(bytes: &[u8], at: usize, n: usize, little: bool) -> (r: u64)
    requires
        n <= 8,
        at + n <= bytes.len(),
    ensures
        r == ordered_value(bytes@.subrange(at as int, at + n), little),
        r < pow256(n as nat),
{
    if little {
        get_le(bytes, at, n)
    } else {
        get_be(bytes, at, n)
    }
}

/// Sixteen bytes as an array.
fn sixteen(bytes: &[u8], at: usize) -> (r: [u8; 16])
    requires
        at + 16 <= bytes.len(),
    ensures
        r@ == bytes@.subrange(at as int, at + 16),
{
    let mut out: [u8; 16] = [0; 16];
    let mut i: usize = 0;
    while i < 16
        invariant
            i <= 16,
            at + 16 <= bytes.len(),
            forall|j: int| 0 <= j < i ==> out@[j] == bytes@[at + j],
        decreases 16 - i,
    {
        out[i] = bytes[at + i];
        i += 1;
    }
    assert(out@ =~= bytes@.subrange(at as int, at + 16));
    out
}

impl EbpfFlowEvent {
    /// The record with its numbers in a byte order.
    pub open spec fn encoded(self, little: bool) -> Seq<u8> {
        ordered(self.ts_nanos as nat, 8, little) + self.src_ip@ + self.dst_ip@ + ordered(
            self.bytes as nat,
            4,
            little,
        ) + ordered(self.interface_index as nat, 4, little) + ordered(
            self.src_port as nat,
            2,
            little,
        ) + ordered(self.dst_port as nat, 2, little) + seq![
            self.protocol,
            self.ip_version,
            self.tcp_flags,
            self.direction,
        ]
    }

    /// This is what a record of the right size says.
    pub open spec fn decodes(self, b: Seq<u8>, little: bool) -> bool {
        &&& self.ts_nanos == ordered_value(b.subrange(0, 8), little)
        &&& self.src_ip@ == b.subrange(8, 24)
        &&& self.dst_ip@ == b.subrange(24, 40)
        &&& self.bytes == ordered_value(b.subrange(40, 44), little)
        &&& self.interface_index == ordered_value(b.subrange(44, 48), little)
        &&& self.src_port == ordered_value(b.subrange(48, 50), little)
        &&& self.dst_port == ordered_value(b.subrange(50, 52), little)
        &&& self.protocol == b[52]
        &&& self.ip_version == b[53]
        &&& self.tcp_flags == b[54]
        &&& self.direction == b[55]
    }

    /// Decode a record whose numbers have their least significant byte first
    /// (`little`) or last.
    pub fn decode(bytes: &[u8], little: bool) -> (r: Result<Self, EbpfError>)
        ensures
            bytes@.len() != EBPF_FLOW_EVENT_SIZE ==> r == Err::<EbpfFlowEvent, EbpfError>(
                EbpfError::InvalidRecordSize {
                    expected: EBPF_FLOW_EVENT_SIZE,
                    actual: bytes@.len() as usize,
                },
            ),
            bytes@.len() == EBPF_FLOW_EVENT_SIZE ==> r is Ok && r->Ok_0.decodes(bytes@, little),
    {
        if bytes.len() != EBPF_FLOW_EVENT_SIZE {
            return Err(
                EbpfError::InvalidRecordSize {
                    expected: EBPF_FLOW_EVENT_SIZE,
                    actual: bytes.len(),
                },
            );
        }
        proof {
            lemma_pow256_values();
        }
        Ok(
            EbpfFlowEvent {
                ts_nanos: get_ordered(bytes, 0, 8, little),
                src_ip: sixteen(bytes, 8),
                dst_ip: sixteen(bytes, 24),
                bytes: get_ordered(bytes, 40, 4, little) as u32,
                interface_index: get_ordered(bytes, 44, 4, little) as u32,
                src_port: get_ordered(bytes, 48, 2, little) as u16,
                dst_port: get_ordered(bytes, 50, 2, little) as u16,
                protocol: bytes[52],
                ip_version: bytes[53],
                tcp_flags: bytes[54],
                direction: bytes[55],
            },
        )
    }

    /// Encode the record with the least significant byte of each number first
    /// (`little`) or last.
    pub fn encode(self, little: bool) -> (r: [u8; EBPF_FLOW_EVENT_SIZE])
        ensures
            r@ == self.encoded(little),
    {
        let mut buf: Vec<u8> = Vec::new();
        put_ordered(&mut buf, self.ts_nanos, 8, little);
        assert(buf@ =~= ordered(self.ts_nanos as nat, 8, little));
        put_bytes(&mut buf, self.src_ip.as_slice());
        put_bytes(&mut buf, self.dst_ip.as_slice());
        put_ordered(&mut buf, self.bytes as u64, 4, little);
        put_ordered(&mut buf, self.interface_index as u64, 4, little);
        put_ordered(&mut buf, self.src_port as u64, 2, little);
        put_ordered(&mut buf, self.dst_port as u64, 2, little);
        put_bytes(
            &mut buf,
            &[self.protocol, self.ip_version, self.tcp_flags, self.direction],
        );
        proof {
            self.lemma_encoded_len(little);
            assert(buf@ =~= self.encoded(little));
        }
        let mut out: [u8; 56] = [0; 56];
        let mut i: usize = 0;
        while i < 56
            invariant
                i <= 56,
                buf@.len() == 56,
                forall|j: int| 0 <= j < i ==> out@[j] == buf@[j],
            decreases 56 - i,
        {
            out[i] = buf[i];
            i += 1;
        }
        assert(out@ =~= buf@);
        out
    }

    proof fn lemma_encoded_len(self, little: bool)
        ensures
            self.encoded(little).len() == 56,
            ordered(self.ts_nanos as nat, 8, little).len() == 8,
            ordered(self.bytes as nat, 4, little).len() == 4,
            ordered(self.interface_index as nat, 4, little).len() == 4,
            ordered(self.src_port as nat, 2, little).len() == 2,
            ordered(self.dst_port as nat, 2, little).len() == 2,
    {
        lemma_le_len(self.ts_nanos as nat, 8);
        lemma_be_value_of_be(self.ts_nanos as nat, 8);
        lemma_le_len(self.bytes as nat, 4);
        lemma_be_value_of_be(self.bytes as nat, 4);
        lemma_le_len(self.interface_index as nat, 4);
        lemma_be_value_of_be(self.interface_index as nat, 4);
        lemma_le_len(self.src_port as nat, 2);
        lemma_be_value_of_be(self.src_port as nat, 2);
        lemma_le_len(self.dst_port as nat, 2);
        lemma_be_value_of_be(self.dst_port as nat, 2);
    }

    /// Decode a record in the byte order of this machine.
    pub fn decode_ne(bytes: &[u8]) -> (r: Result<Self, EbpfError>)
        ensures
            bytes@.len() != EBPF_FLOW_EVENT_SIZE ==> r == Err::<EbpfFlowEvent, EbpfError>(
                EbpfError::InvalidRecordSize {
                    expected: EBPF_FLOW_EVENT_SIZE,
                    actual: bytes@.len() as usize,
                },
            ),
            bytes@.len() == EBPF_FLOW_EVENT_SIZE ==> r is Ok && (r->Ok_0.decodes(bytes@, true)
                || r->Ok_0.decodes(bytes@, false)),
    {
        Self::decode(bytes, native_probe() == 1)
    }

    /// Encode the record in the byte order of this machine.
    pub fn encode_ne(self) -> (r: [u8; EBPF_FLOW_EVENT_SIZE])
        ensures
            r@ == self.encoded(true) || r@ == self.encoded(false),
    {
        self.encode(native_probe() == 1)
    }

    /// An address field. IPv4 addresses are in its last four bytes.
    pub open spec fn address(version: u8, field: Seq<u8>) -> IpAddr {
        if version == 4 {
            IpAddr::V4(be_value(field.subrange(12, 16)) as u32)
        } else {
            IpAddr::V6(be_value(field) as u128)
        }
    }

    /// The direction of a wire value.
    pub open spec fn direction_of(wire: u8) -> Option<Direction> {
        if wire == direction::UNKNOWN {
            Some(Direction::Unknown)
        } else if wire == direction::INGRESS {
            Some(Direction::Ingress)
        } else if wire == direction::EGRESS {
            Some(Direction::Egress)
        } else {
            None
        }
    }

    /// The event of a record, at a time of the Unix clock.
    pub open spec fn event(self, unix_ts_nanos: u64) -> Result<FlowEvent, EbpfError> {
        if self.ip_version != 4 && self.ip_version != 6 {
            Err(EbpfError::UnsupportedIpVersion(self.ip_version))
        } else if Self::direction_of(self.direction) is None {
            Err(EbpfError::UnsupportedDirection(self.direction))
        } else {
            Ok(
                FlowEvent {
                    ts_nanos: unix_ts_nanos,
                    src_ip: Self::address(self.ip_version, self.src_ip@),
                    dst_ip: Self::address(self.ip_version, self.dst_ip@),
                    src_port: self.src_port,
                    dst_port: self.dst_port,
                    protocol: self.protocol,
                    bytes: self.bytes,
                    packets: 1,
                    direction: Self::direction_of(self.direction)->0,
                    tcp_flags: self.tcp_flags,
                    interface_index: self.interface_index,
                    ..blank_event()
                },
            )
        }
    }

    /// Validate the record and build an event with a timestamp of the Unix
    /// clock.
    pub fn try_into_flow_event(self, unix_ts_nanos: u64) -> (r: Result<FlowEvent, EbpfError>)
        ensures
            r == self.event(unix_ts_nanos),
    {
        if self.ip_version != 4 && self.ip_version != 6 {
            return Err(EbpfError::UnsupportedIpVersion(self.ip_version));
        }
        let seen: Direction = if self.direction == direction::UNKNOWN {
            Direction::Unknown
        } else if self.direction == direction::INGRESS {
            Direction::Ingress
        } else if self.direction == direction::EGRESS {
            Direction::Egress
        } else {
            return Err(EbpfError::UnsupportedDirection(self.direction));
        };
        let mut e = FlowEvent::default();
        e.ts_nanos = unix_ts_nanos;
        e.src_ip = read_address(self.ip_version, self.src_ip);
        e.dst_ip = read_address(self.ip_version, self.dst_ip);
        e.src_port = self.src_port;
        e.dst_port = self.dst_port;
        e.protocol = self.protocol;
        e.bytes = self.bytes;
        e.direction = seen;
        e.tcp_flags = self.tcp_flags;
        e.interface_index = self.interface_index;
        Ok(e)
    }
}

fn read_address(version: u8, field: [u8; 16]) -> (r: IpAddr)
    ensures
        r == EbpfFlowEvent::address(version, field@),
{
    let s = field.as_slice();
    proof {
        lemma_pow256_values();
    }
    if version == 4 {
        IpAddr::V4(get_be(s, 12, 4) as u32)
    } else {
        assert(s@.subrange(0, 16) =~= field@);
        IpAddr::V6(get_be_wide(s, 0))
    }
}

/// A record that was encoded decodes to itself, in either byte order, and has
/// the declared size.
pub proof fn law_record_round_trip(e: EbpfFlowEvent, little: bool)
    ensures
        e.encoded(little).len() == EBPF_FLOW_EVENT_SIZE,
        e.decodes(e.encoded(little), little),
        forall|o: EbpfFlowEvent| #[trigger]
            o.decodes(e.encoded(little), little) ==> {
                &&& o.ts_nanos == e.ts_nanos
                &&& o.src_ip@ == e.src_ip@
                &&& o.dst_ip@ == e.dst_ip@
                &&& o.bytes == e.bytes
                &&& o.interface_index == e.interface_index
                &&& o.src_port == e.src_port
                &&& o.dst_port == e.dst_port
                &&& o.protocol == e.protocol
                &&& o.ip_version == e.ip_version
                &&& o.tcp_flags == e.tcp_flags
                &&& o.direction == e.direction
            },
{
    let b = e.encoded(little);
    e.lemma_encoded_len(little);
    lemma_pow256_values();
    lemma_le_value_of_le(e.ts_nanos as nat, 8);
    lemma_be_value_of_be(e.ts_nanos as nat, 8);
    lemma_le_value_of_le(e.bytes as nat, 4);
    lemma_be_value_of_be(e.bytes as nat, 4);
    lemma_le_value_of_le(e.interface_index as nat, 4);
    lemma_be_value_of_be(e.interface_index as nat, 4);
    lemma_le_value_of_le(e.src_port as nat, 2);
    lemma_be_value_of_be(e.src_port as nat, 2);
    lemma_le_value_of_le(e.dst_port as nat, 2);
    lemma_be_value_of_be(e.dst_port as nat, 2);
    assert(b.subrange(0, 8) =~= ordered(e.ts_nanos as nat, 8, little));
    assert(b.subrange(8, 24) =~= e.src_ip@);
    assert(b.subrange(24, 40) =~= e.dst_ip@);
    assert(b.subrange(40, 44) =~= ordered(e.bytes as nat, 4, little));
    assert(b.subrange(44, 48) =~= ordered(e.interface_index as nat, 4, little));
    assert(b.subrange(48, 50) =~= ordered(e.src_port as nat, 2, little));
    assert(b.subrange(50, 52) =~= ordered(e.dst_port as nat, 2, little));
}

proof fn lemma_ordered_of_value(s: Seq<u8>, little: bool)
    ensures
        ordered(ordered_value(s, little), s.len(), little) == s,
{
    lemma_le_of_le_value(s);
    lemma_be_of_be_value(s);
}

/// A record that was decoded encodes back to its bytes, in either byte order.
pub proof fn law_decoded_record_encodes_back(e: EbpfFlowEvent, b: Seq<u8>, little: bool)
    requires
        b.len() == EBPF_FLOW_EVENT_SIZE,
        e.decodes(b, little),
    ensures
        e.encoded(little) == b,
{
    lemma_ordered_of_value(b.subrange(0, 8), little);
    lemma_ordered_of_value(b.subrange(40, 44), little);
    lemma_ordered_of_value(b.subrange(44, 48), little);
    lemma_ordered_of_value(b.subrange(48, 50), little);
    lemma_ordered_of_value(b.subrange(50, 52), little);
    assert(b =~= b.subrange(0, 8) + b.subrange(8, 24) + b.subrange(24, 40) + b.subrange(40, 44)
        + b.subrange(44, 48) + b.subrange(48, 50) + b.subrange(50, 52) + seq![
        b[52],
        b[53],
        b[54],
        b[55],
    ]);
}

} // verus!
