//! Writing capture files: Ethernet, with timestamps in nanoseconds. Used for
//! synthetic traces.

use vstd::prelude::*;

use crate::bytes::{
    be, be_value, le, lemma_be_value_of_be, lemma_le_len, lemma_le_value_of_le,
    lemma_pow256_values, pow256, put_be, put_bytes, put_le,
};
use crate::ip::IpAddr;
use crate::pcap::linktype;
use crate::pcap::parse::{
    captured_event, ipv4_event, is_extension, net16, packet_event, shorter, transport, L4Info,
};
use crate::pcap::reader::{format_of, found_at, Format, Found, MAGIC_NSEC, MAX_CAPTURE_LEN};

verus! {

/// Payload bytes that a compact file stores of each packet.
pub const COMPACT_PAYLOAD_LIMIT: usize = 64;

/// Longest packet that a length field of 16 bits can declare.
pub const MAX_DECLARED_LEN: usize = 65_535;

/// The header of every file that is written: nanoseconds, version 2.4,
/// packets of up to 65535 bytes, Ethernet.
pub open spec fn file_header() -> Seq<u8> {
    le(MAGIC_NSEC as nat, 4) + le(2, 2) + le(4, 2) + le(0, 4) + le(0, 4) + le(65_535, 4) + le(
        linktype::ETHERNET as nat,
        4,
    )
}

pub open spec fn zeros(n: int) -> Seq<u8> {
    Seq::new(n as nat, |i: int| 0u8)
}

/// A TCP header without options, sequence numbers or checksum.
pub open spec fn tcp_bytes(src_port: u16, dst_port: u16, flags: u8) -> Seq<u8> {
    be(src_port as nat, 2) + be(dst_port as nat, 2) + seq![
        0u8,
        0u8,
        0u8,
        0u8,
        0u8,
        0u8,
        0u8,
        0u8,
        0x50u8,
        flags,
        0xFFu8,
        0xFFu8,
        0u8,
        0u8,
        0u8,
        0u8,
    ]
}

/// A UDP header without checksum.
pub open spec fn udp_bytes(src_port: u16, dst_port: u16, payload_len: nat) -> Seq<u8> {
    be(src_port as nat, 2) + be(dst_port as nat, 2) + be(8 + payload_len % 65_536, 2) + seq![
        0u8,
        0u8,
    ]
}

/// Link addresses of every frame.
pub open spec fn link_addresses() -> Seq<u8> {
    seq![2u8, 0u8, 0u8, 0u8, 0u8, 1u8, 2u8, 0u8, 0u8, 0u8, 0u8, 2u8]
}

/// EtherType and network header. Addresses of two families make a header
/// without addresses.
pub open spec fn network_bytes(src: IpAddr, dst: IpAddr, protocol: u8, l4_len: int, payload_len: int) -> Seq<
    u8,
> {
    match (src, dst) {
        (IpAddr::V4(s), IpAddr::V4(d)) => seq![0x08u8, 0x00u8, 0x45u8, 0u8] + be(
            shorter(20 + l4_len + payload_len, MAX_DECLARED_LEN as int) as nat,
            2,
        ) + seq![0u8, 0u8, 0x40u8, 0u8, 64u8, protocol, 0u8, 0u8] + be(s as nat, 4) + be(
            d as nat,
            4,
        ),
        (IpAddr::V6(s), IpAddr::V6(d)) => seq![0x86u8, 0xDDu8, 0x60u8, 0u8, 0u8, 0u8] + be(
            shorter(l4_len + payload_len, MAX_DECLARED_LEN as int) as nat,
            2,
        ) + seq![protocol, 64u8] + be(s as nat, 16) + be(d as nat, 16),
        _ => seq![
            0x08u8,
            0x00u8,
            0x45u8,
            0u8,
            0u8,
            28u8,
            0u8,
            0u8,
            0u8,
            0u8,
            64u8,
            protocol,
            0u8,
            0u8,
            0u8,
            0u8,
            0u8,
            0u8,
            0u8,
            0u8,
            0u8,
            0u8,
        ],
    }
}

/// Most payload that fits behind the headers.
pub open spec fn payload_limit(src: IpAddr, dst: IpAddr, l4_len: int) -> int {
    if src is V6 && dst is V6 {
        MAX_DECLARED_LEN - l4_len
    } else {
        MAX_DECLARED_LEN - 20 - l4_len
    }
}

/// A frame: headers, then zeros for as much of the payload as is stored.
pub open spec fn frame_bytes(
    src: IpAddr,
    dst: IpAddr,
    protocol: u8,
    l4: Seq<u8>,
    payload_len: int,
    stored: int,
) -> Seq<u8> {
    link_addresses() + network_bytes(src, dst, protocol, l4.len() as int, payload_len) + l4 + zeros(
        shorter(shorter(payload_len, stored), payload_limit(src, dst, l4.len() as int)),
    )
}

/// Length of the frame on the wire.
pub open spec fn wire_len(src: IpAddr, dst: IpAddr, l4_len: int, payload_len: int) -> int {
    if src is V4 && dst is V4 {
        14 + 20 + l4_len + shorter(payload_len, payload_limit(src, dst, l4_len))
    } else if src is V6 && dst is V6 {
        14 + 40 + l4_len + shorter(payload_len, payload_limit(src, dst, l4_len))
    } else {
        14 + 20 + l4_len
    }
}

/// A record: time, stored and original length, frame.
pub open spec fn record_bytes(ts_nanos: nat, original_len: nat, frame: Seq<u8>) -> Seq<u8> {
    le(ts_nanos / 1_000_000_000, 4) + le(ts_nanos % 1_000_000_000, 4) + le(frame.len(), 4) + le(
        original_len,
        4,
    ) + frame
}

/// The record of a TCP packet.
pub open spec fn tcp_record(
    ts_nanos: u64,
    src: IpAddr,
    dst: IpAddr,
    src_port: u16,
    dst_port: u16,
    tcp_flags: u8,
    payload_len: u32,
    stored: int,
) -> Seq<u8> {
    record_bytes(
        ts_nanos as nat,
        wire_len(src, dst, 20, payload_len as int) as nat,
        frame_bytes(
            src,
            dst,
            6,
            tcp_bytes(src_port, dst_port, tcp_flags),
            payload_len as int,
            stored,
        ),
    )
}

/// The record of a UDP packet.
pub open spec fn udp_record(
    ts_nanos: u64,
    src: IpAddr,
    dst: IpAddr,
    src_port: u16,
    dst_port: u16,
    payload_len: u32,
    stored: int,
) -> Seq<u8> {
    record_bytes(
        ts_nanos as nat,
        wire_len(src, dst, 8, payload_len as int) as nat,
        frame_bytes(
            src,
            dst,
            17,
            udp_bytes(src_port, dst_port, payload_len as nat),
            payload_len as int,
            stored,
        ),
    )
}

/// A capture file in the making.
#[derive(Debug)]
pub struct PcapWriter {
    buf: Vec<u8>,
    packets_written: u64,
    max_written_payload: usize,
}

fn push_zeros(out: &mut Vec<u8>, n: usize)
    ensures
        final(out)@ == old(out)@ + zeros(n as int),
{
    let mut i: usize = 0;
    assert(out@ =~= old(out)@ + zeros(0));
    while i < n
        invariant
            i <= n,
            out@ == old(out)@ + zeros(i as int),
        decreases n - i,
    {
        out.push(0);
        i += 1;
        assert(out@ =~= old(out)@ + zeros(i as int));
    }
}

fn tcp_header(src_port: u16, dst_port: u16, flags: u8) -> (r: Vec<u8>)
    ensures
        r@ == tcp_bytes(src_port, dst_port, flags),
        r@.len() == 20,
{
    let mut h: Vec<u8> = Vec::new();
    put_be(&mut h, src_port as u128, 2);
    put_be(&mut h, dst_port as u128, 2);
    push_zeros(&mut h, 8);
    h.push(0x50);
    h.push(flags);
    h.push(0xFF);
    h.push(0xFF);
    push_zeros(&mut h, 4);
    proof {
        lemma_be_value_of_be(src_port as nat, 2);
        lemma_be_value_of_be(dst_port as nat, 2);
        assert(h@ =~= tcp_bytes(src_port, dst_port, flags));
    }
    h
}

fn udp_header(src_port: u16, dst_port: u16, payload_len: u32) -> (r: Vec<u8>)
    ensures
        r@ == udp_bytes(src_port, dst_port, payload_len as nat),
        r@.len() == 8,
{
    let mut h: Vec<u8> = Vec::new();
    put_be(&mut h, src_port as u128, 2);
    put_be(&mut h, dst_port as u128, 2);
    put_be(&mut h, 8 + (payload_len % 65_536) as u128, 2);
    push_zeros(&mut h, 2);
    proof {
        lemma_be_value_of_be(src_port as nat, 2);
        lemma_be_value_of_be(dst_port as nat, 2);
        lemma_be_value_of_be((8 + payload_len % 65_536) as nat, 2);
        assert(h@ =~= udp_bytes(src_port, dst_port, payload_len as nat));
    }
    h
}

fn smaller_len(a: usize, b: usize) -> (r: usize)
    ensures
        r == shorter(a as int, b as int),
{
    if a <= b {
        a
    } else {
        b
    }
}

fn original_frame_len(src: IpAddr, dst: IpAddr, l4_len: usize, payload_len: u32) -> (r: u32)
    requires
        l4_len <= 20,
    ensures
        r == wire_len(src, dst, l4_len as int, payload_len as int),
{
    let requested: usize = payload_len as usize;
    let len: usize = match (src, dst) {
        (IpAddr::V4(_), IpAddr::V4(_)) => 34 + l4_len + smaller_len(
            requested,
            MAX_DECLARED_LEN - 20 - l4_len,
        ),
        (IpAddr::V6(_), IpAddr::V6(_)) => 54 + l4_len + smaller_len(
            requested,
            MAX_DECLARED_LEN - l4_len,
        ),
        _ => 34 + l4_len,
    };
    len as u32
}

fn build_frame(
    src: IpAddr,
    dst: IpAddr,
    protocol: u8,
    l4: &[u8],
    payload_len: u32,
    stored: usize,
) -> (r: Vec<u8>)
    requires
        l4.len() <= 20,
    ensures
        r@ == frame_bytes(src, dst, protocol, l4@, payload_len as int, stored as int),
{
    let limit: usize = match (src, dst) {
        (IpAddr::V6(_), IpAddr::V6(_)) => MAX_DECLARED_LEN - l4.len(),
        _ => MAX_DECLARED_LEN - 20 - l4.len(),
    };
    let written: usize = smaller_len(smaller_len(payload_len as usize, stored), limit);
    let mut frame: Vec<u8> = vec![2, 0, 0, 0, 0, 1, 2, 0, 0, 0, 0, 2];
    assert(frame@ =~= link_addresses());
    let ghost head = frame@;
    match (src, dst) {
        (IpAddr::V4(s), IpAddr::V4(d)) => {
            let total: u64 = 20 + l4.len() as u64 + payload_len as u64;
            let declared: u64 = if total <= MAX_DECLARED_LEN as u64 {
                total
            } else {
                MAX_DECLARED_LEN as u64
            };
            put_bytes(&mut frame, &[0x08, 0x00, 0x45, 0]);
            put_be(&mut frame, declared as u128, 2);
            put_bytes(&mut frame, &[0, 0, 0x40, 0, 64, protocol, 0, 0]);
            put_be(&mut frame, s as u128, 4);
            put_be(&mut frame, d as u128, 4);
        },
        (IpAddr::V6(s), IpAddr::V6(d)) => {
            let total: u64 = l4.len() as u64 + payload_len as u64;
            let declared: u64 = if total <= MAX_DECLARED_LEN as u64 {
                total
            } else {
                MAX_DECLARED_LEN as u64
            };
            put_bytes(&mut frame, &[0x86, 0xDD, 0x60, 0, 0, 0]);
            put_be(&mut frame, declared as u128, 2);
            put_bytes(&mut frame, &[protocol, 64]);
            put_be(&mut frame, s, 16);
            put_be(&mut frame, d, 16);
        },
        _ => {
            put_bytes(&mut frame, &[0x08, 0x00, 0x45, 0, 0, 28, 0, 0, 0, 0, 64, protocol, 0, 0]);
            push_zeros(&mut frame, 8);
        },
    }
    assert(frame@ =~= head + network_bytes(
        src,
        dst,
        protocol,
        l4@.len() as int,
        payload_len as int,
    ));
    put_bytes(&mut frame, l4);
    push_zeros(&mut frame, written);
    frame
}

impl PcapWriter {
    /// What has been written and not yet taken.
    pub closed spec fn pending(&self) -> Seq<u8> {
        self.buf@
    }

    /// Packets written so far.
    pub closed spec fn count(&self) -> nat {
        self.packets_written as nat
    }

    /// Most payload bytes stored of a packet.
    pub closed spec fn stored(&self) -> int {
        self.max_written_payload as int
    }

    /// One packet more has been written.
    pub open spec fn wrote(&self, before: &Self, record: Seq<u8>) -> bool {
        &&& self.pending() == before.pending() + record
        &&& self.count() == before.count() + 1
        &&& self.stored() == before.stored()
    }

    /// A compact file: packets keep their length, but at most 64 bytes of
    /// payload are stored.
    pub fn new() -> (r: Self)
        ensures
            r.pending() == file_header(),
            r.count() == 0,
            r.stored() == COMPACT_PAYLOAD_LIMIT,
    {
        Self::with_payload_limit(COMPACT_PAYLOAD_LIMIT)
    }

    /// A file that stores every payload whole, for replay on a wire.
    pub fn new_full_payload() -> (r: Self)
        ensures
            r.pending() == file_header(),
            r.count() == 0,
            r.stored() == usize::MAX,
    {
        Self::with_payload_limit(usize::MAX)
    }

    fn with_payload_limit(max_written_payload: usize) -> (r: Self)
        ensures
            r.pending() == file_header(),
            r.count() == 0,
            r.stored() == max_written_payload,
    {
        let mut buf: Vec<u8> = Vec::new();
        put_le(&mut buf, MAGIC_NSEC as u64, 4);
        assert(buf@ =~= le(MAGIC_NSEC as nat, 4));
        put_le(&mut buf, 2, 2);
        put_le(&mut buf, 4, 2);
        put_le(&mut buf, 0, 4);
        put_le(&mut buf, 0, 4);
        put_le(&mut buf, 65_535, 4);
        put_le(&mut buf, linktype::ETHERNET as u64, 4);
        PcapWriter { buf, packets_written: 0, max_written_payload }
    }

    pub fn packets_written(&self) -> (r: u64)
        ensures
            r == self.count(),
    {
        self.packets_written
    }

    /// Take what has been written since the last time.
    pub fn take_bytes(&mut self) -> (r: Vec<u8>)
        ensures
            r@ == old(self).pending(),
            final(self).pending() == Seq::<u8>::empty(),
            final(self).count() == old(self).count(),
            final(self).stored() == old(self).stored(),
    {
        let mut out: Vec<u8> = Vec::new();
        core::mem::swap(&mut out, &mut self.buf);
        out
    }

    fn write_record(&mut self, ts_nanos: u64, original_len: u32, frame: &[u8])
        requires
            old(self).count() < u64::MAX,
        ensures
            final(self).wrote(
                old(self),
                record_bytes(ts_nanos as nat, original_len as nat, frame@),
            ),
    {
        let mut record: Vec<u8> = Vec::new();
        put_le(&mut record, ts_nanos / 1_000_000_000, 4);
        assert(record@ =~= le(ts_nanos as nat / 1_000_000_000, 4));
        put_le(&mut record, ts_nanos % 1_000_000_000, 4);
        put_le(&mut record, frame.len() as u64, 4);
        put_le(&mut record, original_len as u64, 4);
        put_bytes(&mut record, frame);
        put_bytes(&mut self.buf, &record);
        self.packets_written = self.packets_written + 1;
    }

    /// Write a TCP packet with `payload_len` bytes of zeros as payload.
    pub fn write_tcp_packet(
        &mut self,
        ts_nanos: u64,
        src: IpAddr,
        dst: IpAddr,
        src_port: u16,
        dst_port: u16,
        tcp_flags: u8,
        payload_len: u32,
    )
        requires
            old(self).count() < u64::MAX,
        ensures
            final(self).wrote(
                old(self),
                tcp_record(
                    ts_nanos,
                    src,
                    dst,
                    src_port,
                    dst_port,
                    tcp_flags,
                    payload_len,
                    old(self).stored(),
                ),
            ),
    {
        let l4 = tcp_header(src_port, dst_port, tcp_flags);
        let original_len: u32 = original_frame_len(src, dst, l4.len(), payload_len);
        let frame = build_frame(src, dst, 6, &l4, payload_len, self.max_written_payload);
        self.write_record(ts_nanos, original_len, &frame);
    }

    /// Write a UDP packet with `payload_len` bytes of zeros as payload. The
    /// length field of the UDP header has 16 bits, which the payload length
    /// with its lower 16 bits must leave room for.
    pub fn write_udp_packet(
        &mut self,
        ts_nanos: u64,
        src: IpAddr,
        dst: IpAddr,
        src_port: u16,
        dst_port: u16,
        payload_len: u32,
    )
        requires
            old(self).count() < u64::MAX,
            payload_len % 65_536 <= 65_527,
        ensures
            final(self).wrote(
                old(self),
                udp_record(
                    ts_nanos,
                    src,
                    dst,
                    src_port,
                    dst_port,
                    payload_len,
                    old(self).stored(),
                ),
            ),
    {
        let l4 = udp_header(src_port, dst_port, payload_len);
        let original_len: u32 = original_frame_len(src, dst, l4.len(), payload_len);
        let frame = build_frame(src, dst, 17, &l4, payload_len, self.max_written_payload);
        self.write_record(ts_nanos, original_len, &frame);
    }
}

// ---------------------------------------------------------------------------
// Laws
// ---------------------------------------------------------------------------

/// The format of the files that are written.
pub open spec fn written_format() -> Format {
    Format { swapped: false, subsec_to_nanos: 1, linktype: linktype::ETHERNET }
}

/// The header of a written file is read back.
pub proof fn law_file_header_reads_back(rest: Seq<u8>)
    ensures
        file_header().len() == 24,
        format_of(file_header() + rest) == Ok::<Format, crate::pcap::reader::PcapErrorView>(
            written_format(),
        ),
{
    let s = file_header() + rest;
    lemma_pow256_values();
    lemma_le_value_of_le(MAGIC_NSEC as nat, 4);
    lemma_le_value_of_le(linktype::ETHERNET as nat, 4);
    lemma_le_len(2, 2);
    lemma_le_len(4, 2);
    lemma_le_len(0, 4);
    lemma_le_len(65_535, 4);
    assert(s.subrange(0, 4) =~= le(MAGIC_NSEC as nat, 4));
    assert(s.subrange(20, 24) =~= le(linktype::ETHERNET as nat, 4));
}

/// A written record is read back, wherever in a file it stands: its time, its
/// length on the wire and its frame.
pub proof fn law_record_reads_back(
    before: Seq<u8>,
    ts_nanos: nat,
    original_len: nat,
    frame: Seq<u8>,
    after: Seq<u8>,
)
    requires
        ts_nanos < 0x1_0000_0000 * 1_000_000_000,
        frame.len() <= original_len < 0x1_0000_0000,
        frame.len() <= MAX_CAPTURE_LEN,
    ensures
        ({
            let s = before + record_bytes(ts_nanos, original_len, frame) + after;
            let from = before.len() + 16;
            let to = from + frame.len();
            &&& found_at(s, before.len() as int, written_format()) == (Found::Packet {
                ts_nanos,
                wire_len: original_len,
                from: from as int,
                to: to as int,
            })
            &&& s.subrange(from as int, to as int) == frame
        }),
{
    let s = before + record_bytes(ts_nanos, original_len, frame) + after;
    let at = before.len() as int;
    lemma_pow256_values();
    lemma_le_value_of_le(ts_nanos / 1_000_000_000, 4);
    lemma_le_value_of_le(ts_nanos % 1_000_000_000, 4);
    lemma_le_value_of_le(frame.len(), 4);
    lemma_le_value_of_le(original_len, 4);
    assert(s.subrange(at, at + 4) =~= le(ts_nanos / 1_000_000_000, 4));
    assert(s.subrange(at + 4, at + 8) =~= le(ts_nanos % 1_000_000_000, 4));
    assert(s.subrange(at + 8, at + 12) =~= le(frame.len(), 4));
    assert(s.subrange(at + 12, at + 16) =~= le(original_len, 4));
    assert(s.subrange(at + 16, at + 16 + frame.len()) =~= frame);
    let one = written_format().subsec_to_nanos as nat;
    let subsec = ts_nanos % 1_000_000_000;
    assert(1_000_000_000nat / one == 1_000_000_000) by (nonlinear_arith)
        requires
            one == 1,
    ;
    assert(subsec * one == subsec) by (nonlinear_arith)
        requires
            one == 1,
    ;
}

/// Two bytes in network order.
proof fn lemma_net16(s: Seq<u8>, i: int, v: nat)
    requires
        0 <= i,
        i + 2 <= s.len(),
        v < 65_536,
        s.subrange(i, i + 2) == be(v, 2),
    ensures
        net16(s, i) == v,
{
    lemma_pow256_values();
    lemma_be_value_of_be(v, 2);
    let p = s.subrange(i, i + 2);
    assert(p[0] == s[i] && p[1] == s[i + 1]);
    assert(p.drop_last().drop_last() =~= Seq::<u8>::empty());
    reveal_with_fuel(be_value, 3);
}

/// The parts of an IPv4 frame.
proof fn lemma_v4_shape(s: u32, d: u32, protocol: u8, l4: Seq<u8>, payload_len: int, stored: int)
    requires
        8 <= l4.len() <= 20,
        0 <= payload_len,
        0 <= stored,
    ensures
        ({
            let src = IpAddr::V4(s);
            let dst = IpAddr::V4(d);
            let f = frame_bytes(src, dst, protocol, l4, payload_len, stored);
            let total = shorter(20 + l4.len() + payload_len, MAX_DECLARED_LEN as int);
            let data = f.skip(14);
            &&& 34 + l4.len() <= f.len() <= 14 + total
            &&& f[12] == 0x08 && f[13] == 0x00
            &&& data[0] == 0x45
            &&& data.subrange(2, 4) == be(total as nat, 2)
            &&& data[6] == 0x40 && data[7] == 0
            &&& data[9] == protocol
            &&& data.subrange(12, 16) == be(s as nat, 4)
            &&& data.subrange(16, 20) == be(d as nat, 4)
            &&& data.subrange(20, 20 + l4.len() as int) == l4
        }),
{
    let src = IpAddr::V4(s);
    let dst = IpAddr::V4(d);
    let f = frame_bytes(src, dst, protocol, l4, payload_len, stored);
    let total = shorter(20 + l4.len() + payload_len, MAX_DECLARED_LEN as int);
    let data = f.skip(14);
    let net = network_bytes(src, dst, protocol, l4.len() as int, payload_len);
    let rest = l4 + zeros(
        shorter(shorter(payload_len, stored), payload_limit(src, dst, l4.len() as int)),
    );
    lemma_be_value_of_be(total as nat, 2);
    lemma_be_value_of_be(s as nat, 4);
    lemma_be_value_of_be(d as nat, 4);
    assert(net.len() == 22);
    assert(f =~= link_addresses() + net + rest);
    assert(data =~= net.skip(2) + rest);
    assert(net.subrange(4, 6) =~= be(total as nat, 2));
    assert(net.subrange(14, 18) =~= be(s as nat, 4));
    assert(net.subrange(18, 22) =~= be(d as nat, 4));
    assert(data.subrange(2, 4) =~= net.subrange(4, 6));
    assert(data.subrange(12, 16) =~= net.subrange(14, 18));
    assert(data.subrange(16, 20) =~= net.subrange(18, 22));
    assert(data.subrange(20, 20 + l4.len() as int) =~= l4);
}

/// A frame without tags is the packet behind its link header.
proof fn lemma_untagged(f: Seq<u8>, wire: int)
    requires
        14 <= f.len() <= wire,
        f[12] == 0x08,
        f[13] == 0x00,
    ensures
        captured_event(linktype::ETHERNET, f, wire) == ipv4_event(f.skip(14), wire - 14),
{
    assert(net16(f, 12) == 0x0800);
}

/// What an IPv4 packet without options is read as.
proof fn lemma_v4_data(data: Seq<u8>, total: int, s: u32, d: u32, protocol: u8)
    requires
        20 <= data.len() <= total < 65_536,
        data[0] == 0x45,
        data.subrange(2, 4) == be(total as nat, 2),
        data[6] == 0x40,
        data[7] == 0,
        data[9] == protocol,
        data.subrange(12, 16) == be(s as nat, 4),
        data.subrange(16, 20) == be(d as nat, 4),
    ensures
        ipv4_event(data, total) == match transport(
            protocol,
            data.subrange(20, data.len() as int),
            total - 20,
        ) {
            Some(l) => Some(
                packet_event(IpAddr::V4(s), IpAddr::V4(d), protocol, l, total as nat),
            ),
            None => None,
        },
{
    lemma_be_value_of_be(s as nat, 4);
    lemma_be_value_of_be(d as nat, 4);
    lemma_pow256_values();
    lemma_net16(data, 2, total as nat);
    assert(net16(data, 6) == 0x4000);
    assert((data[0] as int % 16) * 4 == 20);
}

/// What an IPv4 packet of the writer is read as, given what its transport
/// header is read as.
proof fn lemma_v4_frame(s: u32, d: u32, protocol: u8, l4: Seq<u8>, payload_len: int, stored: int)
    requires
        8 <= l4.len() <= 20,
        0 <= payload_len,
        0 <= stored,
    ensures
        ({
            let src = IpAddr::V4(s);
            let dst = IpAddr::V4(d);
            let f = frame_bytes(src, dst, protocol, l4, payload_len, stored);
            let wire = wire_len(src, dst, l4.len() as int, payload_len);
            let total = shorter(20 + l4.len() + payload_len, MAX_DECLARED_LEN as int);
            let held = f.skip(14).subrange(20, shorter(total, f.len() - 14));
            &&& f.len() <= wire == 14 + total
            &&& f.len() <= MAX_CAPTURE_LEN
            &&& held.len() >= l4.len()
            &&& held.take(l4.len() as int) == l4
            &&& captured_event(linktype::ETHERNET, f, wire) == match transport(
                protocol,
                held,
                total - 20,
            ) {
                Some(l) => Some(packet_event(src, dst, protocol, l, total as nat)),
                None => None,
            }
        }),
{
    let src = IpAddr::V4(s);
    let dst = IpAddr::V4(d);
    let f = frame_bytes(src, dst, protocol, l4, payload_len, stored);
    let wire = wire_len(src, dst, l4.len() as int, payload_len);
    let total = shorter(20 + l4.len() + payload_len, MAX_DECLARED_LEN as int);
    let data = f.skip(14);
    lemma_v4_shape(s, d, protocol, l4, payload_len, stored);
    lemma_untagged(f, wire);
    lemma_v4_data(data, total, s, d, protocol);
    let held = data.subrange(20, shorter(total, data.len() as int));
    assert(held.take(l4.len() as int) =~= data.subrange(20, 20 + l4.len() as int));
}

/// The same for IPv6.
#[verifier::spinoff_prover]
#[verifier::rlimit(40)]
proof fn lemma_v6_frame(s: u128, d: u128, protocol: u8, l4: Seq<u8>, payload_len: int, stored: int)
    requires
        8 <= l4.len() <= 20,
        0 <= payload_len,
        0 <= stored,
        !is_extension(protocol),
    ensures
        ({
            let src = IpAddr::V6(s);
            let dst = IpAddr::V6(d);
            let f = frame_bytes(src, dst, protocol, l4, payload_len, stored);
            let wire = wire_len(src, dst, l4.len() as int, payload_len);
            let declared = shorter(l4.len() + payload_len, MAX_DECLARED_LEN as int);
            let held = f.skip(14).subrange(40, shorter(40 + declared, f.len() - 14));
            &&& f.len() <= wire == 54 + declared
            &&& f.len() <= MAX_CAPTURE_LEN
            &&& held.len() >= l4.len()
            &&& held.take(l4.len() as int) == l4
            &&& captured_event(linktype::ETHERNET, f, wire) == match transport(
                protocol,
                held,
                declared,
            ) {
                Some(l) => Some(packet_event(src, dst, protocol, l, (40 + declared) as nat)),
                None => None,
            }
        }),
{
    let src = IpAddr::V6(s);
    let dst = IpAddr::V6(d);
    let f = frame_bytes(src, dst, protocol, l4, payload_len, stored);
    let wire = wire_len(src, dst, l4.len() as int, payload_len);
    let declared = shorter(l4.len() + payload_len, MAX_DECLARED_LEN as int);
    let data = f.skip(14);
    lemma_be_value_of_be(declared as nat, 2);
    lemma_be_value_of_be(s as nat, 16);
    lemma_be_value_of_be(d as nat, 16);
    lemma_pow256_values();
    reveal_with_fuel(pow256, 17);
    assert(f[12] == 0x86 && f[13] == 0xDD);
    assert(data[0] == 0x60);
    assert(data.subrange(4, 6) =~= be(declared as nat, 2));
    lemma_net16(data, 4, declared as nat);
    assert(data[6] == protocol);
    assert(data.subrange(8, 24) =~= be(s as nat, 16));
    assert(data.subrange(24, 40) =~= be(d as nat, 16));
    let held = data.subrange(40, shorter(40 + declared, data.len() as int));
    assert(held.take(l4.len() as int) =~= l4);
}

proof fn lemma_tcp_transport(
    src_port: u16,
    dst_port: u16,
    flags: u8,
    held: Seq<u8>,
    wire: int,
)
    requires
        held.len() >= 20,
        wire >= 20,
        held.take(20) == tcp_bytes(src_port, dst_port, flags),
    ensures
        transport(6, held, wire) == Some(L4Info { src_port, dst_port, tcp_flags: flags }),
{
    lemma_be_value_of_be(src_port as nat, 2);
    lemma_be_value_of_be(dst_port as nat, 2);
    let h = held.take(20);
    assert(held.subrange(0, 2) =~= h.subrange(0, 2));
    assert(h.subrange(0, 2) =~= be(src_port as nat, 2));
    assert(held.subrange(2, 4) =~= h.subrange(2, 4));
    assert(h.subrange(2, 4) =~= be(dst_port as nat, 2));
    lemma_net16(held, 0, src_port as nat);
    lemma_net16(held, 2, dst_port as nat);
    assert(held[12] == h[12] && held[13] == h[13]);
}

proof fn lemma_udp_transport(
    src_port: u16,
    dst_port: u16,
    payload_len: nat,
    held: Seq<u8>,
    wire: int,
)
    requires
        held.len() >= 8,
        payload_len % 65_536 <= 65_527,
        wire >= 8 + payload_len % 65_536,
        held.take(8) == udp_bytes(src_port, dst_port, payload_len),
    ensures
        transport(17, held, wire) == Some(L4Info { src_port, dst_port, tcp_flags: 0 }),
{
    let udp_len = 8 + payload_len % 65_536;
    lemma_be_value_of_be(src_port as nat, 2);
    lemma_be_value_of_be(dst_port as nat, 2);
    lemma_be_value_of_be(udp_len, 2);
    let h = held.take(8);
    assert(held.subrange(0, 2) =~= h.subrange(0, 2));
    assert(h.subrange(0, 2) =~= be(src_port as nat, 2));
    assert(held.subrange(2, 4) =~= h.subrange(2, 4));
    assert(h.subrange(2, 4) =~= be(dst_port as nat, 2));
    assert(held.subrange(4, 6) =~= h.subrange(4, 6));
    assert(h.subrange(4, 6) =~= be(udp_len, 2));
    lemma_net16(held, 0, src_port as nat);
    lemma_net16(held, 2, dst_port as nat);
    lemma_net16(held, 4, udp_len);
}

/// Both addresses are of one family.
pub open spec fn same_family(src: IpAddr, dst: IpAddr) -> bool {
    src is V4 == dst is V4
}

/// Bytes that a written packet counts: its network header, its transport
/// header and its payload, as far as a length field can declare them.
pub open spec fn counted_bytes(src: IpAddr, l4_len: int, payload_len: int) -> int {
    if src is V4 {
        shorter(20 + l4_len + payload_len, MAX_DECLARED_LEN as int)
    } else {
        40 + shorter(l4_len + payload_len, MAX_DECLARED_LEN as int)
    }
}

/// A TCP packet that was written parses to its addresses, ports, flags and
/// length, however little of its payload was stored.
#[verifier::spinoff_prover]
#[verifier::rlimit(60)]
pub proof fn law_tcp_packet_reads_back(
    src: IpAddr,
    dst: IpAddr,
    src_port: u16,
    dst_port: u16,
    flags: u8,
    payload_len: u32,
    stored: int,
)
    requires
        same_family(src, dst),
        0 <= stored,
    ensures
        ({
            let l4 = tcp_bytes(src_port, dst_port, flags);
            let f = frame_bytes(src, dst, 6, l4, payload_len as int, stored);
            let wire = wire_len(src, dst, 20, payload_len as int);
            &&& f.len() <= wire
            &&& f.len() <= MAX_CAPTURE_LEN
            &&& captured_event(linktype::ETHERNET, f, wire) == Some(
                packet_event(
                    src,
                    dst,
                    6,
                    L4Info { src_port, dst_port, tcp_flags: flags },
                    counted_bytes(src, 20, payload_len as int) as nat,
                ),
            )
        }),
{
    let l4 = tcp_bytes(src_port, dst_port, flags);
    let f = frame_bytes(src, dst, 6, l4, payload_len as int, stored);
    lemma_be_value_of_be(src_port as nat, 2);
    lemma_be_value_of_be(dst_port as nat, 2);
    assert(l4.len() == 20);
    match (src, dst) {
        (IpAddr::V4(s), IpAddr::V4(d)) => {
            lemma_v4_frame(s, d, 6, l4, payload_len as int, stored);
            let total = shorter(40 + payload_len, MAX_DECLARED_LEN as int);
            let held = f.skip(14).subrange(20, shorter(total, f.len() - 14));
            lemma_tcp_transport(src_port, dst_port, flags, held, total - 20);
        },
        (IpAddr::V6(s), IpAddr::V6(d)) => {
            lemma_v6_frame(s, d, 6, l4, payload_len as int, stored);
            let declared = shorter(20 + payload_len, MAX_DECLARED_LEN as int);
            let held = f.skip(14).subrange(40, shorter(40 + declared, f.len() - 14));
            lemma_tcp_transport(src_port, dst_port, flags, held, declared);
        },
        _ => {},
    }
}

/// A UDP packet that was written parses to its addresses, ports and length,
/// unless its payload does not fit into one packet.
#[verifier::spinoff_prover]
#[verifier::rlimit(60)]
pub proof fn law_udp_packet_reads_back(
    src: IpAddr,
    dst: IpAddr,
    src_port: u16,
    dst_port: u16,
    payload_len: u32,
    stored: int,
)
    requires
        same_family(src, dst),
        0 <= stored,
        src is V4 ==> payload_len <= 65_507,
        src is V6 ==> payload_len <= 65_527,
    ensures
        ({
            let l4 = udp_bytes(src_port, dst_port, payload_len as nat);
            let f = frame_bytes(src, dst, 17, l4, payload_len as int, stored);
            let wire = wire_len(src, dst, 8, payload_len as int);
            &&& f.len() <= wire
            &&& f.len() <= MAX_CAPTURE_LEN
            &&& captured_event(linktype::ETHERNET, f, wire) == Some(
                packet_event(
                    src,
                    dst,
                    17,
                    L4Info { src_port, dst_port, tcp_flags: 0 },
                    counted_bytes(src, 8, payload_len as int) as nat,
                ),
            )
        }),
{
    let l4 = udp_bytes(src_port, dst_port, payload_len as nat);
    let f = frame_bytes(src, dst, 17, l4, payload_len as int, stored);
    lemma_be_value_of_be(src_port as nat, 2);
    lemma_be_value_of_be(dst_port as nat, 2);
    lemma_be_value_of_be(8 + payload_len as nat % 65_536, 2);
    assert(l4.len() == 8);
    match (src, dst) {
        (IpAddr::V4(s), IpAddr::V4(d)) => {
            lemma_v4_frame(s, d, 17, l4, payload_len as int, stored);
            let total = shorter(28 + payload_len, MAX_DECLARED_LEN as int);
            let held = f.skip(14).subrange(20, shorter(total, f.len() - 14));
            lemma_udp_transport(src_port, dst_port, payload_len as nat, held, total - 20);
        },
        (IpAddr::V6(s), IpAddr::V6(d)) => {
            lemma_v6_frame(s, d, 17, l4, payload_len as int, stored);
            let declared = shorter(8 + payload_len, MAX_DECLARED_LEN as int);
            let held = f.skip(14).subrange(40, shorter(40 + declared, f.len() - 14));
            lemma_udp_transport(src_port, dst_port, payload_len as nat, held, declared);
        },
        _ => {},
    }
}

} // verus!
