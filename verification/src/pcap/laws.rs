//! What a capture file says, byte by byte: the time of a record in
//! nanoseconds, and the parts of the headers that an event is made of.

use vstd::prelude::*;

use crate::bytes::{be_value, le_value};
use crate::event::{Direction, FlowEvent};
use crate::ip::IpAddr;
use crate::pcap::parse::{
    captured_event, ipv4_event, ipv6_event, is_extension, net16, transport, walk,
};
use crate::pcap::reader::{
    event_of, format_of, found_at, search, word_at, Format, Found, PcapErrorView,
};

verus! {

// ---------------------------------------------------------------------------
// Records
// ---------------------------------------------------------------------------

/// Four bytes at `i`, least significant byte first.
pub open spec fn low_first(b: Seq<u8>, i: int) -> nat {
    b[i] as nat + 0x100 * b[i + 1] as nat + 0x1_0000 * b[i + 2] as nat + 0x100_0000 * b[i
        + 3] as nat
}

/// Four bytes at `i`, most significant byte first.
pub open spec fn high_first(b: Seq<u8>, i: int) -> nat {
    0x100_0000 * b[i] as nat + 0x1_0000 * b[i + 1] as nat + 0x100 * b[i + 2] as nat + b[i
        + 3] as nat
}

proof fn lemma_low_first(b: Seq<u8>, i: int)
    requires
        0 <= i,
        i + 4 <= b.len(),
    ensures
        word_at(b, i, false) == low_first(b, i),
{
    let s = b.subrange(i, i + 4);
    let t = s.drop_first();
    let u = t.drop_first();
    let v = u.drop_first();
    assert(v.drop_first().len() == 0);
    reveal_with_fuel(le_value, 6);
}

proof fn lemma_high_first(b: Seq<u8>, i: int)
    requires
        0 <= i,
        i + 4 <= b.len(),
    ensures
        word_at(b, i, true) == high_first(b, i),
{
    let s = b.subrange(i, i + 4);
    let t = s.drop_last();
    let u = t.drop_last();
    let v = u.drop_last();
    assert(v.drop_last().len() == 0);
    reveal_with_fuel(be_value, 6);
}

/// How a file declares its byte order and its unit of time.
pub ghost enum Magic {
    LowMicros,
    LowNanos,
    HighMicros,
    HighNanos,
}

impl Magic {
    /// The first four bytes of the file.
    pub open spec fn begins(self, b: Seq<u8>) -> bool {
        match self {
            Magic::LowMicros => b[0] == 0xD4 && b[1] == 0xC3 && b[2] == 0xB2 && b[3] == 0xA1,
            Magic::LowNanos => b[0] == 0x4D && b[1] == 0x3C && b[2] == 0xB2 && b[3] == 0xA1,
            Magic::HighMicros => b[0] == 0xA1 && b[1] == 0xB2 && b[2] == 0xC3 && b[3] == 0xD4,
            Magic::HighNanos => b[0] == 0xA1 && b[1] == 0xB2 && b[2] == 0x3C && b[3] == 0x4D,
        }
    }

    /// A number of four bytes.
    pub open spec fn number(self, b: Seq<u8>, i: int) -> nat {
        if self is LowMicros || self is LowNanos {
            low_first(b, i)
        } else {
            high_first(b, i)
        }
    }

    /// Units of time in a second.
    pub open spec fn units(self) -> nat {
        if self is LowMicros || self is HighMicros {
            1_000_000
        } else {
            1_000_000_000
        }
    }
}

/// Every file that begins with one of the four numbers is taken, whatever its
/// byte order and unit of time, with the link type that it declares. No other
/// is.
pub proof fn law_four_kinds_of_files_are_taken(b: Seq<u8>, m: Magic)
    requires
        b.len() >= 24,
    ensures
        m.begins(b) ==> format_of(b) is Ok && format_of(b)->Ok_0.linktype == m.number(b, 20),
        format_of(b) is Ok ==> Magic::LowMicros.begins(b) || Magic::LowNanos.begins(b)
            || Magic::HighMicros.begins(b) || Magic::HighNanos.begins(b),
{
    lemma_low_first(b, 0);
    lemma_high_first(b, 0);
    lemma_low_first(b, 20);
    lemma_high_first(b, 20);
}

/// A record of `s` seconds and `f` units behind the point is read as
/// `s * 10^9 + f * (10^9 / units per second)` nanoseconds, in every kind of
/// file. It is read if it is whole and within the limits, with exactly the
/// bytes that were captured and the length that it had on the wire.
pub proof fn law_records_are_read_in_nanoseconds(b: Seq<u8>, m: Magic, pos: int)
    requires
        b.len() >= 24,
        m.begins(b),
        24 <= pos,
        pos + 16 <= b.len(),
    ensures
        ({
            let f = format_of(b)->Ok_0;
            let seconds = m.number(b, pos);
            let fraction = m.number(b, pos + 4);
            let captured = m.number(b, pos + 8);
            let wire = m.number(b, pos + 12);
            let whole = captured <= 262_144 && captured <= wire && fraction < m.units() && pos + 16
                + captured <= b.len();
            &&& whole ==> found_at(b, pos, f) == (Found::Packet {
                ts_nanos: seconds * 1_000_000_000 + fraction * (1_000_000_000nat / m.units()),
                wire_len: wire,
                from: pos + 16,
                to: pos + 16 + captured,
            })
            &&& !whole ==> found_at(b, pos, f) is Fault
        }),
{
    law_four_kinds_of_files_are_taken(b, m);
    lemma_low_first(b, 0);
    lemma_high_first(b, 0);
    lemma_low_first(b, pos);
    lemma_high_first(b, pos);
    lemma_low_first(b, pos + 4);
    lemma_high_first(b, pos + 4);
    lemma_low_first(b, pos + 8);
    lemma_high_first(b, pos + 8);
    lemma_low_first(b, pos + 12);
    lemma_high_first(b, pos + 12);
    let f = format_of(b)->Ok_0;
    assert(1_000_000_000nat / 1_000_000nat == 1_000);
    assert(1_000_000_000nat / 1_000nat == 1_000_000);
    assert(1_000_000_000nat / 1_000_000_000nat == 1);
    assert(1_000_000_000nat / 1nat == 1_000_000_000);
    assert(f.subsec_to_nanos == 1_000_000_000nat / m.units());
    assert(1_000_000_000nat / f.subsec_to_nanos as nat == m.units());
}

/// Two records that lie a number of seconds apart are read that many times
/// 10^9 nanoseconds apart.
pub proof fn law_time_between_records_is_kept(b: Seq<u8>, m: Magic, i: int, j: int, apart: nat)
    requires
        b.len() >= 24,
        m.begins(b),
        24 <= i,
        i + 16 <= b.len(),
        24 <= j,
        j + 16 <= b.len(),
        m.number(b, j) == m.number(b, i) + apart,
        m.number(b, j + 4) == m.number(b, i + 4),
        found_at(b, i, format_of(b)->Ok_0) is Packet,
        found_at(b, j, format_of(b)->Ok_0) is Packet,
    ensures
        found_at(b, j, format_of(b)->Ok_0)->ts_nanos == found_at(
            b,
            i,
            format_of(b)->Ok_0,
        )->ts_nanos + apart * 1_000_000_000,
{
    law_records_are_read_in_nanoseconds(b, m, i);
    law_records_are_read_in_nanoseconds(b, m, j);
}

/// The event of a packet has the packet's time and what its headers say.
pub proof fn law_events_keep_their_packet(f: Format, data: Seq<u8>, ts: nat, wire: nat)
    requires
        ts <= u64::MAX,
        wire <= u32::MAX,
    ensures
        event_of(f, data, ts, wire) is Some <==> captured_event(
            f.linktype,
            data,
            wire as int,
        ) is Some,
        event_of(f, data, ts, wire) matches Some(e) ==> {
            let h = captured_event(f.linktype, data, wire as int)->0;
            &&& e.ts_nanos == ts
            &&& e.src_ip == h.src_ip && e.dst_ip == h.dst_ip
            &&& e.src_port == h.src_port && e.dst_port == h.dst_port
            &&& e.protocol == h.protocol && e.tcp_flags == h.tcp_flags
            &&& e.packets == h.packets
            &&& h.bytes > 0 ==> e.bytes == h.bytes
            &&& h.bytes == 0 ==> e.bytes == wire
            &&& e.direction == Direction::Unknown
        },
{
}

/// The next event is that of the first packet that gives one: packets that
/// give none are passed over and counted, and the events keep their order.
pub proof fn law_no_event_is_skipped(b: Seq<u8>, pos: int, f: Format)
    ensures
        found_at(b, pos, f) is End ==> search(b, pos, f).outcome == Ok::<
            Option<FlowEvent>,
            PcapErrorView,
        >(None),
        found_at(b, pos, f) matches Found::Fault(e, next) ==> search(b, pos, f).outcome == Err::<
            Option<FlowEvent>,
            PcapErrorView,
        >(e) && search(b, pos, f).pos == next,
        found_at(b, pos, f) matches Found::Packet { ts_nanos, wire_len, from, to } ==> {
            let e = event_of(f, b.subrange(from, to), ts_nanos, wire_len);
            &&& e is Some ==> search(b, pos, f).outcome == Ok::<Option<FlowEvent>, PcapErrorView>(e)
                && search(b, pos, f).pos == to && search(b, pos, f).packets == 1
            &&& e is None && pos < to <= b.len() ==> search(b, pos, f).outcome == search(
                b,
                to,
                f,
            ).outcome && search(b, pos, f).pos == search(b, to, f).pos && search(b, pos, f).packets
                == search(b, to, f).packets + 1
        },
{
}

// ---------------------------------------------------------------------------
// Headers
// ---------------------------------------------------------------------------

/// The event has no ports and no flags.
pub open spec fn without_ports(e: FlowEvent) -> bool {
    e.src_port == 0 && e.dst_port == 0 && e.tcp_flags == 0
}

/// Ports and flags stand where the transport header has them.
pub open spec fn ports_from(e: FlowEvent, data: Seq<u8>, at: int) -> bool {
    &&& e.src_port == data[at] as nat * 256 + data[at + 1] as nat
    &&& e.dst_port == data[at + 2] as nat * 256 + data[at + 3] as nat
    &&& e.protocol == 6 ==> e.tcp_flags == data[at + 13]
    &&& e.protocol == 17 ==> e.tcp_flags == 0
}

/// What an IPv4 packet says: sender and receiver, the protocol and the length
/// stand at their places; the ports of a first fragment behind the header.
pub proof fn law_ipv4_headers_are_read(data: Seq<u8>, wire_len: int)
    requires
        wire_len <= u32::MAX,
        ipv4_event(data, wire_len) is Some,
    ensures
        ({
            let e = ipv4_event(data, wire_len)->0;
            let header = 4 * (data[0] as int % 16);
            let first = data[6] % 32 == 0 && data[7] == 0;
            &&& data.len() >= header >= 20
            &&& data[0] / 16 == 4
            &&& e.src_ip == IpAddr::V4(high_first(data, 12) as u32)
            &&& e.dst_ip == IpAddr::V4(high_first(data, 16) as u32)
            &&& e.protocol == data[9]
            &&& e.bytes == data[2] as nat * 256 + data[3] as nat
            &&& e.packets == 1
            &&& first && (e.protocol == 6 || e.protocol == 17) ==> ports_from(e, data, header)
            &&& !first || e.protocol != 6 && e.protocol != 17 ==> without_ports(e)
        }),
{
    lemma_high_first(data, 12);
    lemma_high_first(data, 16);
    let a = data[6] as nat;
    let b = data[7] as nat;
    assert((a * 256 + b) % 0x2000 == 0 <==> a % 32 == 0 && b == 0);
}

/// Which IPv4 packets are taken: whole headers, a length that the wire held,
/// and a transport header that fits.
pub proof fn law_whole_ipv4_packets_are_taken(data: Seq<u8>, wire_len: int)
    requires
        wire_len <= u32::MAX,
        data.len() >= 20,
        data[0] == 0x45,
        20 <= data[2] as nat * 256 + data[3] as nat <= wire_len,
    ensures
        data[9] != 6 && data[9] != 17 ==> ipv4_event(data, wire_len) is Some,
        data[9] == 17 && data.len() >= 28 && data[2] as nat * 256 + data[3] as nat >= 28 && 8
            <= data[24] as nat * 256 + data[25] as nat <= data[2] as nat * 256 + data[3] as nat - 20
            ==> ipv4_event(data, wire_len) is Some,
        data[9] == 6 && data.len() >= 40 && data[2] as nat * 256 + data[3] as nat >= 40 && data[32]
            == 0x50 ==> ipv4_event(data, wire_len) is Some,
{
    let total = net16(data, 2) as int;
    let end = if total <= data.len() {
        total
    } else {
        data.len() as int
    };
    let body = data.subrange(20, end);
    if end >= 28 {
        assert(body[4] == data[24] && body[5] == data[25]);
    }
    if end >= 40 {
        assert(body[12] == data[32]);
    }
}

proof fn lemma_sixteen(data: Seq<u8>, i: int)
    requires
        0 <= i,
        i + 16 <= data.len(),
    ensures
        be_value(data.subrange(i, i + 16)) == high_first(data, i) * 0x1_0000_0000_0000_0000_0000_0000
            + high_first(data, i + 4) * 0x1_0000_0000_0000_0000 + high_first(data, i + 8)
            * 0x1_0000_0000 + high_first(data, i + 12),
{
    let s = data.subrange(i, i + 16);
    lemma_be_join(s.take(12), s.skip(12));
    assert(s =~= s.take(12) + s.skip(12));
    let t = s.take(12);
    assert(t =~= t.take(8) + t.skip(8));
    lemma_be_join(t.take(8), t.skip(8));
    let u = t.take(8);
    assert(u =~= u.take(4) + u.skip(4));
    lemma_be_join(u.take(4), u.skip(4));
    assert(s.skip(12) =~= data.subrange(i + 12, i + 16));
    assert(t.skip(8) =~= data.subrange(i + 8, i + 12));
    assert(u.skip(4) =~= data.subrange(i + 4, i + 8));
    assert(u.take(4) =~= data.subrange(i, i + 4));
    lemma_high_first(data, i);
    lemma_high_first(data, i + 4);
    lemma_high_first(data, i + 8);
    lemma_high_first(data, i + 12);
}

/// Four bytes behind others.
proof fn lemma_be_join(a: Seq<u8>, b: Seq<u8>)
    requires
        b.len() == 4,
    ensures
        be_value(a + b) == be_value(a) * 0x1_0000_0000 + be_value(b),
{
    let s = a + b;
    let t = s.drop_last();
    let u = t.drop_last();
    let v = u.drop_last();
    assert(v.drop_last() =~= a);
    let p = b.drop_last();
    let q = p.drop_last();
    let r = q.drop_last();
    assert(r.drop_last().len() == 0);
    reveal_with_fuel(be_value, 6);
}

/// What an IPv6 packet says: sender and receiver stand at their places, the
/// length counts the fixed header, and without extensions protocol and ports
/// follow at once.
pub proof fn law_ipv6_headers_are_read(data: Seq<u8>, wire_len: int)
    requires
        wire_len <= u32::MAX,
        ipv6_event(data, wire_len) is Some,
    ensures
        ({
            let e = ipv6_event(data, wire_len)->0;
            &&& data.len() >= 40
            &&& data[0] / 16 == 6
            &&& e.src_ip == IpAddr::V6(
                (high_first(data, 8) * 0x1_0000_0000_0000_0000_0000_0000 + high_first(data, 12)
                    * 0x1_0000_0000_0000_0000 + high_first(data, 16) * 0x1_0000_0000 + high_first(
                    data,
                    20,
                )) as u128,
            )
            &&& e.dst_ip == IpAddr::V6(
                (high_first(data, 24) * 0x1_0000_0000_0000_0000_0000_0000 + high_first(data, 28)
                    * 0x1_0000_0000_0000_0000 + high_first(data, 32) * 0x1_0000_0000 + high_first(
                    data,
                    36,
                )) as u128,
            )
            &&& e.bytes == 40 + data[4] as nat * 256 + data[5] as nat
            &&& e.packets == 1
            &&& !is_extension(data[6]) ==> e.protocol == data[6]
            &&& data[6] == 6 || data[6] == 17 ==> ports_from(e, data, 40)
            &&& !is_extension(data[6]) && data[6] != 6 && data[6] != 17 ==> without_ports(e)
        }),
{
    lemma_sixteen(data, 8);
    lemma_sixteen(data, 24);
    reveal_with_fuel(walk, 2);
}

/// The headers of the common links: an Ethernet frame names its network layer
/// behind the two addresses, each VLAN tag moves that by four bytes; a cooked
/// capture names it at the end of its header; a raw packet begins with its
/// version.
pub proof fn law_links_lead_to_their_packet(data: Seq<u8>, wire_len: int)
    requires
        data.len() <= wire_len <= u32::MAX,
    ensures
        data.len() >= 14 && data[12] == 0x08 && data[13] == 0x00 ==> captured_event(
            1,
            data,
            wire_len,
        ) == ipv4_event(data.skip(14), wire_len - 14),
        data.len() >= 14 && data[12] == 0x86 && data[13] == 0xDD ==> captured_event(
            1,
            data,
            wire_len,
        ) == ipv6_event(data.skip(14), wire_len - 14),
        data.len() >= 18 && data[12] == 0x81 && data[13] == 0x00 && data[16] == 0x08 && data[17]
            == 0x00 ==> captured_event(1, data, wire_len) == ipv4_event(
            data.skip(18),
            wire_len - 18,
        ),
        data.len() >= 18 && data[12] == 0x81 && data[13] == 0x00 && data[16] == 0x86 && data[17]
            == 0xDD ==> captured_event(1, data, wire_len) == ipv6_event(
            data.skip(18),
            wire_len - 18,
        ),
        data.len() >= 22 && data[12] == 0x88 && data[13] == 0xA8 && data[16] == 0x81 && data[17]
            == 0x00 && data[20] == 0x08 && data[21] == 0x00 ==> captured_event(1, data, wire_len)
            == ipv4_event(data.skip(22), wire_len - 22),
        data.len() >= 14 && data[12] == 0x08 && data[13] == 0x06 ==> captured_event(
            1,
            data,
            wire_len,
        ) is None,
        data.len() >= 1 && data[0] / 16 == 4 ==> captured_event(101, data, wire_len) == ipv4_event(
            data,
            wire_len,
        ),
        data.len() >= 1 && data[0] / 16 == 6 ==> captured_event(101, data, wire_len) == ipv6_event(
            data,
            wire_len,
        ),
        data.len() >= 16 && data[14] == 0x08 && data[15] == 0x00 ==> captured_event(
            113,
            data,
            wire_len,
        ) == ipv4_event(data.skip(16), wire_len - 16),
        data.len() >= 16 && data[14] == 0x86 && data[15] == 0xDD ==> captured_event(
            113,
            data,
            wire_len,
        ) == ipv6_event(data.skip(16), wire_len - 16),
{
    reveal_with_fuel(crate::pcap::parse::tagged_event, 3);
}

} // verus!
