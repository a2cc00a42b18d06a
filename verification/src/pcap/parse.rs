//! Headers of the link, network and transport layer: exactly as much as makes
//! a [`FlowEvent`].

use vstd::prelude::*;
use vstd::slice::slice_subrange;

use crate::bytes::{be_value, get_be, get_be_wide, lemma_pow256_values};
use crate::event::{blank_event, FlowEvent};
use crate::ip::IpAddr;
use crate::pcap::linktype;

verus! {

pub const ETHERTYPE_IPV4: u16 = 0x0800;

pub const ETHERTYPE_IPV6: u16 = 0x86DD;

pub const ETHERTYPE_VLAN: u16 = 0x8100;

pub const ETHERTYPE_QINQ: u16 = 0x88A8;

/// Most extension headers that are walked.
pub const MAX_EXTENSIONS: usize = 6;

/// Two bytes in network order.
pub open spec fn net16(s: Seq<u8>, i: int) -> nat {
    s[i] as nat * 256 + s[i + 1] as nat
}

fn read16(data: &[u8], i: usize) -> (r: u16)
    requires
        i + 2 <= data.len(),
    ensures
        r == net16(data@, i as int),
{
    (data[i] as u16) * 256 + (data[i + 1] as u16)
}

/// What is read of a transport header.
#[derive(Debug, Clone, Copy, PartialEq, Eq, Structural)]
pub struct L4Info {
    pub src_port: u16,
    pub dst_port: u16,
    pub tcp_flags: u8,
}

/// No transport header.
pub open spec fn no_l4() -> L4Info {
    L4Info { src_port: 0, dst_port: 0, tcp_flags: 0 }
}

/// The transport header at the start of `data`, of a packet that has
/// `wire_len` bytes from there on. A header that is cut off or that claims
/// more than the packet holds is refused; of a protocol other than TCP and
/// UDP nothing is read.
pub open spec fn transport(protocol: u8, data: Seq<u8>, wire_len: int) -> Option<L4Info> {
    if protocol == 6 {
        let header_len = (data[12] as int / 16) * 4;
        if data.len() < 14 || header_len < 20 || header_len > wire_len || header_len > data.len() {
            None
        } else {
            Some(
                L4Info {
                    src_port: net16(data, 0) as u16,
                    dst_port: net16(data, 2) as u16,
                    tcp_flags: data[13],
                },
            )
        }
    } else if protocol == 17 {
        if data.len() < 8 || net16(data, 4) < 8 || net16(data, 4) > wire_len {
            None
        } else {
            Some(
                L4Info {
                    src_port: net16(data, 0) as u16,
                    dst_port: net16(data, 2) as u16,
                    tcp_flags: 0,
                },
            )
        }
    } else {
        Some(no_l4())
    }
}

fn parse_l4(protocol: u8, data: &[u8], wire_len: usize) -> (r: Option<L4Info>)
    ensures
        r == transport(protocol, data@, wire_len as int),
{
    if protocol == 6 {
        if data.len() < 14 {
            return None;
        }
        let header_len: usize = (data[12] / 16) as usize * 4;
        if header_len < 20 || header_len > wire_len || header_len > data.len() {
            return None;
        }
        Some(
            L4Info {
                src_port: read16(data, 0),
                dst_port: read16(data, 2),
                tcp_flags: data[13],
            },
        )
    } else if protocol == 17 {
        if data.len() < 8 {
            return None;
        }
        let udp_len: usize = read16(data, 4) as usize;
        if udp_len < 8 || udp_len > wire_len {
            return None;
        }
        Some(L4Info { src_port: read16(data, 0), dst_port: read16(data, 2), tcp_flags: 0 })
    } else {
        Some(L4Info { src_port: 0, dst_port: 0, tcp_flags: 0 })
    }
}

pub open spec fn shorter(a: int, b: int) -> int {
    if a <= b {
        a
    } else {
        b
    }
}

/// The event of a packet.
pub open spec fn packet_event(src: IpAddr, dst: IpAddr, protocol: u8, l4: L4Info, bytes: nat) -> FlowEvent {
    FlowEvent {
        src_ip: src,
        dst_ip: dst,
        src_port: l4.src_port,
        dst_port: l4.dst_port,
        protocol,
        tcp_flags: l4.tcp_flags,
        bytes: bytes as u32,
        packets: 1,
        ..blank_event()
    }
}

/// The address in the four bytes at `i`.
pub open spec fn v4_at(data: Seq<u8>, i: int) -> IpAddr {
    IpAddr::V4(be_value(data.subrange(i, i + 4)) as u32)
}

/// The address in the sixteen bytes at `i`.
pub open spec fn v6_at(data: Seq<u8>, i: int) -> IpAddr {
    IpAddr::V6(be_value(data.subrange(i, i + 16)) as u128)
}

/// An IPv4 packet of which `wire_len` bytes were on the wire and `data` was
/// captured. A fragment other than the first has no transport header.
pub open spec fn ipv4_event(data: Seq<u8>, wire_len: int) -> Option<FlowEvent> {
    let ihl = (data[0] as int % 16) * 4;
    let total_len = net16(data, 2) as int;
    let first = net16(data, 6) % 0x2000 == 0;
    if data.len() < 20 || data[0] as int / 16 != 4 || ihl < 20 || data.len() < ihl || total_len
        < ihl || total_len > wire_len {
        None
    } else {
        let l4 = if first {
            transport(
                data[9],
                data.subrange(ihl, shorter(total_len, data.len() as int)),
                total_len - ihl,
            )
        } else {
            Some(no_l4())
        };
        match l4 {
            None => None,
            Some(l4) => Some(
                packet_event(v4_at(data, 12), v4_at(data, 16), data[9], l4, total_len as nat),
            ),
        }
    }
}

fn parse_ipv4(data: &[u8], wire_len: usize) -> (r: Option<FlowEvent>)
    ensures
        r == ipv4_event(data@, wire_len as int),
{
    if data.len() < 20 || data[0] / 16 != 4 {
        return None;
    }
    let ihl: usize = (data[0] % 16) as usize * 4;
    if ihl < 20 || data.len() < ihl {
        return None;
    }
    let total_len: usize = read16(data, 2) as usize;
    if total_len < ihl || total_len > wire_len {
        return None;
    }
    let protocol: u8 = data[9];
    proof {
        lemma_pow256_values();
    }
    let src = IpAddr::V4(get_be(data, 12, 4) as u32);
    let dst = IpAddr::V4(get_be(data, 16, 4) as u32);
    let l4 = if read16(data, 6) % 0x2000 == 0 {
        let captured_end: usize = if total_len <= data.len() {
            total_len
        } else {
            data.len()
        };
        match parse_l4(protocol, slice_subrange(data, ihl, captured_end), total_len - ihl) {
            Some(l4) => l4,
            None => {
                return None;
            },
        }
    } else {
        L4Info { src_port: 0, dst_port: 0, tcp_flags: 0 }
    };
    let mut e = FlowEvent::default();
    e.src_ip = src;
    e.dst_ip = dst;
    e.src_port = l4.src_port;
    e.dst_port = l4.dst_port;
    e.protocol = protocol;
    e.tcp_flags = l4.tcp_flags;
    e.bytes = total_len as u32;
    Some(e)
}

/// Whether a header number is one of the extension headers that are walked.
pub open spec fn is_extension(next_header: u8) -> bool {
    next_header == 0 || next_header == 43 || next_header == 44 || next_header == 51 || next_header
        == 60
}

/// The length of the extension header at `offset`.
pub open spec fn extension_len(next_header: u8, data: Seq<u8>, offset: int) -> int {
    if next_header == 51 {
        (data[offset + 1] as int + 2) * 4
    } else {
        8 + data[offset + 1] as int * 8
    }
}

/// Walk the extension headers from `offset` on, at most `steps` of them: the
/// protocol and what its header says. A fragment other than the first ends
/// the walk without a transport header. Every header must lie within the
/// packet and within what was captured.
pub open spec fn walk(
    data: Seq<u8>,
    packet_len: int,
    next_header: u8,
    offset: int,
    steps: nat,
) -> Option<(u8, L4Info)>
    decreases steps,
{
    if steps == 0 {
        if is_extension(next_header) {
            None
        } else {
            Some((next_header, no_l4()))
        }
    } else if is_extension(next_header) {
        if offset + 8 > packet_len || offset + 8 > data.len() {
            None
        } else if next_header == 44 {
            if net16(data, offset + 2) / 8 != 0 {
                Some((data[offset], no_l4()))
            } else {
                walk(data, packet_len, data[offset], offset + 8, (steps - 1) as nat)
            }
        } else {
            let len = extension_len(next_header, data, offset);
            if offset + len > packet_len || offset + len > data.len() {
                None
            } else {
                walk(data, packet_len, data[offset], offset + len, (steps - 1) as nat)
            }
        }
    } else {
        match transport(
            next_header,
            data.subrange(offset, shorter(packet_len, data.len() as int)),
            packet_len - offset,
        ) {
            None => None,
            Some(l4) => Some((next_header, l4)),
        }
    }
}

fn walk_extensions(data: &[u8], packet_len: usize, next_header: u8, offset: usize, steps: usize) -> (r:
    Option<(u8, L4Info)>)
    requires
        offset <= packet_len <= 0x1_0000_0000,
        packet_len <= usize::MAX - 4096,
        offset <= data.len(),
    ensures
        r == walk(data@, packet_len as int, next_header, offset as int, steps as nat),
    decreases steps,
{
    let extension = next_header == 0 || next_header == 43 || next_header == 44 || next_header == 51
        || next_header == 60;
    if steps == 0 {
        if extension {
            return None;
        }
        return Some((next_header, L4Info { src_port: 0, dst_port: 0, tcp_flags: 0 }));
    }
    if !extension {
        let captured_end: usize = if packet_len <= data.len() {
            packet_len
        } else {
            data.len()
        };
        return match parse_l4(
            next_header,
            slice_subrange(data, offset, captured_end),
            packet_len - offset,
        ) {
            Some(l4) => Some((next_header, l4)),
            None => None,
        };
    }
    let fixed_end: usize = offset + 8;
    if fixed_end > packet_len || fixed_end > data.len() {
        return None;
    }
    if next_header == 44 {
        if read16(data, offset + 2) / 8 != 0 {
            return Some((data[offset], L4Info { src_port: 0, dst_port: 0, tcp_flags: 0 }));
        }
        return walk_extensions(data, packet_len, data[offset], fixed_end, steps - 1);
    }
    let len: usize = if next_header == 51 {
        (data[offset + 1] as usize + 2) * 4
    } else {
        8 + data[offset + 1] as usize * 8
    };
    let next_offset: usize = offset + len;
    if next_offset > packet_len || next_offset > data.len() {
        return None;
    }
    walk_extensions(data, packet_len, data[offset], next_offset, steps - 1)
}

/// An IPv6 packet of which `wire_len` bytes were on the wire and `data` was
/// captured. A packet without a payload length (a jumbogram) is refused.
pub open spec fn ipv6_event(data: Seq<u8>, wire_len: int) -> Option<FlowEvent> {
    let payload_len = net16(data, 4) as int;
    let packet_len = 40 + payload_len;
    if data.len() < 40 || data[0] as int / 16 != 6 || payload_len == 0 || packet_len > wire_len {
        None
    } else {
        match walk(data, packet_len, data[6], 40, MAX_EXTENSIONS as nat) {
            None => None,
            Some((protocol, l4)) => Some(
                packet_event(v6_at(data, 8), v6_at(data, 24), protocol, l4, packet_len as nat),
            ),
        }
    }
}

fn parse_ipv6(data: &[u8], wire_len: usize) -> (r: Option<FlowEvent>)
    ensures
        r == ipv6_event(data@, wire_len as int),
{
    if data.len() < 40 || data[0] / 16 != 6 {
        return None;
    }
    let payload_len: usize = read16(data, 4) as usize;
    if payload_len == 0 {
        return None;
    }
    let packet_len: usize = 40 + payload_len;
    if packet_len > wire_len {
        return None;
    }
    let (protocol, l4): (u8, L4Info) = match walk_extensions(
        data,
        packet_len,
        data[6],
        40,
        MAX_EXTENSIONS,
    ) {
        Some(found) => found,
        None => {
            return None;
        },
    };
    let mut e = FlowEvent::default();
    e.src_ip = IpAddr::V6(get_be_wide(data, 8));
    e.dst_ip = IpAddr::V6(get_be_wide(data, 24));
    e.src_port = l4.src_port;
    e.dst_port = l4.dst_port;
    e.protocol = protocol;
    e.tcp_flags = l4.tcp_flags;
    e.bytes = packet_len as u32;
    Some(e)
}

/// A packet of the network layer named by an EtherType.
pub open spec fn l3_event(ethertype: nat, data: Seq<u8>, wire_len: int) -> Option<FlowEvent> {
    if ethertype == ETHERTYPE_IPV4 {
        ipv4_event(data, wire_len)
    } else if ethertype == ETHERTYPE_IPV6 {
        ipv6_event(data, wire_len)
    } else {
        None
    }
}

fn parse_l3(ethertype: u16, data: &[u8], wire_len: usize) -> (r: Option<FlowEvent>)
    ensures
        r == l3_event(ethertype as nat, data@, wire_len as int),
{
    if ethertype == ETHERTYPE_IPV4 {
        parse_ipv4(data, wire_len)
    } else if ethertype == ETHERTYPE_IPV6 {
        parse_ipv6(data, wire_len)
    } else {
        None
    }
}

pub open spec fn is_tag(ethertype: nat) -> bool {
    ethertype == ETHERTYPE_VLAN || ethertype == ETHERTYPE_QINQ
}

/// A frame of which the EtherType `ethertype` ends at `offset`, with at most
/// `tags` tags to take off.
pub open spec fn tagged_event(
    data: Seq<u8>,
    wire_len: int,
    ethertype: nat,
    offset: int,
    tags: nat,
) -> Option<FlowEvent>
    decreases tags,
{
    if tags > 0 && is_tag(ethertype) {
        if data.len() < offset + 4 {
            None
        } else {
            tagged_event(data, wire_len, net16(data, offset + 2), offset + 4, (tags - 1) as nat)
        }
    } else {
        l3_event(ethertype, data.skip(offset), wire_len - offset)
    }
}

fn parse_tagged(data: &[u8], wire_len: usize, ethertype: u16, offset: usize, tags: usize) -> (r:
    Option<FlowEvent>)
    requires
        offset <= data.len() <= wire_len,
    ensures
        r == tagged_event(data@, wire_len as int, ethertype as nat, offset as int, tags as nat),
    decreases tags,
{
    if tags > 0 && (ethertype == ETHERTYPE_VLAN || ethertype == ETHERTYPE_QINQ) {
        if data.len() - offset < 4 {
            return None;
        }
        parse_tagged(data, wire_len, read16(data, offset + 2), offset + 4, tags - 1)
    } else {
        let rest = slice_subrange(data, offset, data.len());
        assert(rest@ =~= data@.skip(offset as int));
        parse_l3(ethertype, rest, wire_len - offset)
    }
}

/// An Ethernet frame with up to two VLAN tags.
pub open spec fn ethernet_event(data: Seq<u8>, wire_len: int) -> Option<FlowEvent> {
    if data.len() < 14 {
        None
    } else {
        tagged_event(data, wire_len, net16(data, 12), 14, 2)
    }
}

/// A packet without a link header.
pub open spec fn ip_event(data: Seq<u8>, wire_len: int) -> Option<FlowEvent> {
    if data.len() == 0 {
        None
    } else if data[0] as int / 16 == 4 {
        ipv4_event(data, wire_len)
    } else if data[0] as int / 16 == 6 {
        ipv6_event(data, wire_len)
    } else {
        None
    }
}

/// The event of a captured packet, with no timestamp yet, or nothing for a
/// packet that is not IP, is malformed or came over an unknown link.
pub open spec fn captured_event(link: u32, data: Seq<u8>, wire_len: int) -> Option<FlowEvent> {
    if data.len() > wire_len {
        None
    } else if link == linktype::ETHERNET {
        ethernet_event(data, wire_len)
    } else if link == linktype::RAW_IP {
        ip_event(data, wire_len)
    } else if link == linktype::LINUX_SLL {
        if data.len() < 16 {
            None
        } else {
            l3_event(net16(data, 14), data.skip(16), wire_len - 16)
        }
    } else {
        None
    }
}

fn parse_ethernet(data: &[u8], wire_len: usize) -> (r: Option<FlowEvent>)
    requires
        data.len() <= wire_len,
    ensures
        r == ethernet_event(data@, wire_len as int),
{
    if data.len() < 14 {
        return None;
    }
    parse_tagged(data, wire_len, read16(data, 12), 14, 2)
}

fn parse_ip(data: &[u8], wire_len: usize) -> (r: Option<FlowEvent>)
    ensures
        r == ip_event(data@, wire_len as int),
{
    if data.len() == 0 {
        return None;
    }
    let version: u8 = data[0] / 16;
    if version == 4 {
        parse_ipv4(data, wire_len)
    } else if version == 6 {
        parse_ipv6(data, wire_len)
    } else {
        None
    }
}

/// Parse a packet that was captured whole.
pub fn parse_packet(link: u32, data: &[u8]) -> (r: Option<FlowEvent>)
    ensures
        data@.len() <= u32::MAX ==> r == captured_event(link, data@, data@.len() as int),
        data@.len() > u32::MAX ==> r is None,
{
    if data.len() > u32::MAX as usize {
        return None;
    }
    parse_packet_with_wire_len(link, data, data.len() as u32)
}

/// Parse a packet of which `data` was captured and that had `wire_len` bytes,
/// link header included. Length fields must fit into `wire_len`; every header
/// that is read must have been captured.
pub fn parse_packet_with_wire_len(link: u32, data: &[u8], wire_len: u32) -> (r: Option<FlowEvent>)
    ensures
        r == captured_event(link, data@, wire_len as int),
{
    let wire_len: usize = wire_len as usize;
    if data.len() > wire_len {
        return None;
    }
    if link == linktype::ETHERNET {
        parse_ethernet(data, wire_len)
    } else if link == linktype::RAW_IP {
        parse_ip(data, wire_len)
    } else if link == linktype::LINUX_SLL {
        if data.len() < 16 {
            return None;
        }
        let rest = slice_subrange(data, 16, data.len());
        assert(rest@ =~= data@.skip(16));
        parse_l3(read16(data, 14), rest, wire_len - 16)
    } else {
        None
    }
}

// ---------------------------------------------------------------------------
// Laws
// ---------------------------------------------------------------------------

/// Only a packet of which no more was captured than was on the wire is
/// parsed. It never counts more bytes than that, counts as one packet and has
/// no timestamp yet, whatever its length fields say.
pub proof fn law_length_fields_cannot_inflate(link: u32, data: Seq<u8>, wire_len: int)
    requires
        wire_len <= u32::MAX,
        captured_event(link, data, wire_len) is Some,
    ensures
        data.len() <= wire_len,
        captured_event(link, data, wire_len)->0.bytes <= wire_len,
        captured_event(link, data, wire_len)->0.packets == 1,
        captured_event(link, data, wire_len)->0.ts_nanos == 0,
{
    if link == linktype::ETHERNET {
        lemma_tagged_bytes(data, wire_len, net16(data, 12), 14, 2);
    }
}

proof fn lemma_tagged_bytes(data: Seq<u8>, wire_len: int, ethertype: nat, offset: int, tags: nat)
    requires
        0 <= offset,
        wire_len <= u32::MAX,
        tagged_event(data, wire_len, ethertype, offset, tags) is Some,
    ensures
        tagged_event(data, wire_len, ethertype, offset, tags)->0.bytes <= wire_len,
        tagged_event(data, wire_len, ethertype, offset, tags)->0.packets == 1,
        tagged_event(data, wire_len, ethertype, offset, tags)->0.ts_nanos == 0,
    decreases tags,
{
    if tags > 0 && is_tag(ethertype) {
        lemma_tagged_bytes(
            data,
            wire_len,
            net16(data, offset + 2),
            offset + 4,
            (tags - 1) as nat,
        );
    }
}

/// Two captures of the same length agree on their first `n` bytes.
pub open spec fn agree(a: Seq<u8>, b: Seq<u8>, n: int) -> bool {
    &&& a.len() == b.len()
    &&& forall|i: int| #![trigger a[i]] #![trigger b[i]] 0 <= i < n && i < a.len() ==> a[i] == b[i]
}

/// How far a transport header is read.
pub open spec fn transport_reach(protocol: u8) -> int {
    if protocol == 6 {
        14
    } else if protocol == 17 {
        8
    } else {
        0
    }
}

/// Where the headers of an IPv4 packet end.
pub open spec fn ipv4_reach(data: Seq<u8>) -> int {
    let ihl = (data[0] as int % 16) * 4;
    if data.len() < 20 || ihl < 20 {
        20
    } else {
        ihl + transport_reach(data[9])
    }
}

/// Where the headers end that a walk over extension headers reads.
pub open spec fn walk_reach(data: Seq<u8>, next_header: u8, offset: int, steps: nat) -> int
    decreases steps,
{
    if steps == 0 || is_extension(next_header) && offset + 8 > data.len() {
        offset
    } else if is_extension(next_header) {
        let len = if next_header == 44 {
            8
        } else {
            extension_len(next_header, data, offset)
        };
        walk_reach(data, data[offset], offset + len, (steps - 1) as nat)
    } else {
        offset + transport_reach(next_header)
    }
}

/// Where the headers of an IPv6 packet end.
pub open spec fn ipv6_reach(data: Seq<u8>) -> int {
    walk_reach(data, data[6], 40, MAX_EXTENSIONS as nat)
}

proof fn lemma_transport_agrees(protocol: u8, a: Seq<u8>, b: Seq<u8>, wire_len: int)
    requires
        agree(a, b, transport_reach(protocol)),
    ensures
        transport(protocol, a, wire_len) == transport(protocol, b, wire_len),
{
    if protocol == 6 && a.len() >= 14 {
        assert(a[12] == b[12] && a[13] == b[13] && a[0] == b[0] && a[1] == b[1] && a[2] == b[2]
            && a[3] == b[3]);
    } else if protocol == 17 && a.len() >= 8 {
        assert(a[4] == b[4] && a[5] == b[5] && a[0] == b[0] && a[1] == b[1] && a[2] == b[2] && a[3]
            == b[3]);
    }
}

/// Nothing behind the headers of an IPv4 packet is looked at.
pub proof fn law_ipv4_payload_is_not_inspected(a: Seq<u8>, b: Seq<u8>, wire_len: int)
    requires
        agree(a, b, ipv4_reach(a)),
    ensures
        ipv4_event(a, wire_len) == ipv4_event(b, wire_len),
{
    if a.len() >= 20 {
        assert(a[0] == b[0]);
        assert(a[2] == b[2] && a[3] == b[3] && a[6] == b[6] && a[7] == b[7] && a[9] == b[9]);
        assert(a.subrange(12, 16) =~= b.subrange(12, 16));
        assert(a.subrange(16, 20) =~= b.subrange(16, 20));
        let ihl = (a[0] as int % 16) * 4;
        let total_len = net16(a, 2) as int;
        if ihl >= 20 && a.len() >= ihl && total_len >= ihl {
            let end = shorter(total_len, a.len() as int);
            let x = a.subrange(ihl, end);
            let y = b.subrange(ihl, end);
            assert forall|i: int|
                #![trigger x[i]]
                #![trigger y[i]]
                0 <= i < transport_reach(a[9]) && i < x.len() implies x[i] == y[i] by {
                assert(a[ihl + i] == b[ihl + i]);
            }
            lemma_transport_agrees(a[9], x, y, total_len - ihl);
        }
    }
}

proof fn lemma_walk_reach_grows(data: Seq<u8>, next_header: u8, offset: int, steps: nat)
    ensures
        walk_reach(data, next_header, offset, steps) >= offset,
    decreases steps,
{
    if steps > 0 && offset + 8 <= data.len() && is_extension(next_header) {
        let len = if next_header == 44 {
            8
        } else {
            extension_len(next_header, data, offset)
        };
        lemma_walk_reach_grows(data, data[offset], offset + len, (steps - 1) as nat);
    }
}

proof fn lemma_walk_agrees(
    a: Seq<u8>,
    b: Seq<u8>,
    packet_len: int,
    next_header: u8,
    offset: int,
    steps: nat,
)
    requires
        0 <= offset <= packet_len,
        offset <= a.len(),
        agree(a, b, walk_reach(a, next_header, offset, steps)),
    ensures
        walk(a, packet_len, next_header, offset, steps) == walk(
            b,
            packet_len,
            next_header,
            offset,
            steps,
        ),
    decreases steps,
{
    if steps > 0 {
        if is_extension(next_header) {
            if offset + 8 <= packet_len && offset + 8 <= a.len() {
                let len = if next_header == 44 {
                    8
                } else {
                    extension_len(next_header, a, offset)
                };
                lemma_walk_reach_grows(a, a[offset], offset + len, (steps - 1) as nat);
                assert(a[offset] == b[offset] && a[offset + 1] == b[offset + 1] && a[offset + 2]
                    == b[offset + 2] && a[offset + 3] == b[offset + 3]);
                if offset + len <= packet_len && offset + len <= a.len() {
                    lemma_walk_agrees(
                        a,
                        b,
                        packet_len,
                        a[offset],
                        offset + len,
                        (steps - 1) as nat,
                    );
                }
            }
        } else {
            let end = shorter(packet_len, a.len() as int);
            let x = a.subrange(offset, end);
            let y = b.subrange(offset, end);
            assert forall|i: int|
                #![trigger x[i]]
                #![trigger y[i]]
                0 <= i < transport_reach(next_header) && i < x.len() implies x[i] == y[i] by {
                assert(a[offset + i] == b[offset + i]);
            }
            lemma_transport_agrees(next_header, x, y, packet_len - offset);
        }
    }
}

/// Nothing behind the headers of an IPv6 packet is looked at.
pub proof fn law_ipv6_payload_is_not_inspected(a: Seq<u8>, b: Seq<u8>, wire_len: int)
    requires
        agree(a, b, ipv6_reach(a)),
    ensures
        ipv6_event(a, wire_len) == ipv6_event(b, wire_len),
{
    lemma_walk_reach_grows(a, a[6], 40, MAX_EXTENSIONS as nat);
    if a.len() >= 40 {
        assert(a[0] == b[0] && a[4] == b[4] && a[5] == b[5] && a[6] == b[6]);
        assert(a.subrange(8, 24) =~= b.subrange(8, 24));
        assert(a.subrange(24, 40) =~= b.subrange(24, 40));
        lemma_walk_agrees(a, b, 40 + net16(a, 4) as int, a[6], 40, MAX_EXTENSIONS as nat);
    }
}

/// Where the headers of a packet of the network layer end.
pub open spec fn l3_reach(ethertype: nat, data: Seq<u8>) -> int {
    if ethertype == ETHERTYPE_IPV4 {
        ipv4_reach(data)
    } else if ethertype == ETHERTYPE_IPV6 {
        ipv6_reach(data)
    } else {
        0
    }
}

/// Where the headers end behind an EtherType that ends at `offset`.
pub open spec fn tagged_reach(data: Seq<u8>, ethertype: nat, offset: int, tags: nat) -> int
    decreases tags,
{
    if tags > 0 && is_tag(ethertype) {
        if data.len() < offset + 4 {
            offset
        } else {
            tagged_reach(data, net16(data, offset + 2), offset + 4, (tags - 1) as nat)
        }
    } else {
        offset + l3_reach(ethertype, data.skip(offset))
    }
}

/// Where the headers of a captured packet end: those of the link, its VLAN
/// tags, IP with its extensions, and what is read of the transport.
pub open spec fn headers_reach(link: u32, data: Seq<u8>) -> int {
    if link == linktype::ETHERNET {
        if data.len() < 14 {
            0
        } else {
            tagged_reach(data, net16(data, 12), 14, 2)
        }
    } else if link == linktype::RAW_IP {
        if data.len() == 0 {
            0
        } else if data[0] as int / 16 == 4 {
            ipv4_reach(data)
        } else if data[0] as int / 16 == 6 {
            ipv6_reach(data)
        } else {
            1
        }
    } else if link == linktype::LINUX_SLL {
        if data.len() < 16 {
            0
        } else {
            16 + l3_reach(net16(data, 14), data.skip(16))
        }
    } else {
        0
    }
}

proof fn lemma_l3_agrees(ethertype: nat, a: Seq<u8>, b: Seq<u8>, offset: int, wire_len: int)
    requires
        0 <= offset <= a.len(),
        agree(a, b, offset + l3_reach(ethertype, a.skip(offset))),
    ensures
        l3_event(ethertype, a.skip(offset), wire_len) == l3_event(
            ethertype,
            b.skip(offset),
            wire_len,
        ),
{
    let x = a.skip(offset);
    let y = b.skip(offset);
    let n = l3_reach(ethertype, x);
    assert forall|i: int|
        #![trigger x[i]]
        #![trigger y[i]]
        0 <= i < n && i < x.len() implies x[i] == y[i] by {
        assert(a[offset + i] == b[offset + i]);
    }
    if ethertype == ETHERTYPE_IPV4 {
        law_ipv4_payload_is_not_inspected(x, y, wire_len);
    } else if ethertype == ETHERTYPE_IPV6 {
        law_ipv6_payload_is_not_inspected(x, y, wire_len);
    }
}

proof fn lemma_l3_reach(ethertype: nat, data: Seq<u8>)
    ensures
        l3_reach(ethertype, data) >= 0,
{
    if ethertype == ETHERTYPE_IPV6 {
        lemma_walk_reach_grows(data, data[6], 40, MAX_EXTENSIONS as nat);
    }
}

proof fn lemma_tagged_reach(data: Seq<u8>, ethertype: nat, offset: int, tags: nat)
    ensures
        tagged_reach(data, ethertype, offset, tags) >= offset,
    decreases tags,
{
    if tags > 0 && is_tag(ethertype) {
        if data.len() >= offset + 4 {
            lemma_tagged_reach(data, net16(data, offset + 2), offset + 4, (tags - 1) as nat);
        }
    } else {
        lemma_l3_reach(ethertype, data.skip(offset));
    }
}

proof fn lemma_tagged_agrees(
    a: Seq<u8>,
    b: Seq<u8>,
    wire_len: int,
    ethertype: nat,
    offset: int,
    tags: nat,
)
    requires
        0 <= offset <= a.len(),
        agree(a, b, tagged_reach(a, ethertype, offset, tags)),
    ensures
        tagged_event(a, wire_len, ethertype, offset, tags) == tagged_event(
            b,
            wire_len,
            ethertype,
            offset,
            tags,
        ),
    decreases tags,
{
    if tags > 0 && is_tag(ethertype) {
        if a.len() >= offset + 4 {
            let inner = net16(a, offset + 2);
            lemma_tagged_reach(a, inner, offset + 4, (tags - 1) as nat);
            assert(a[offset + 2] == b[offset + 2] && a[offset + 3] == b[offset + 3]);
            lemma_tagged_agrees(a, b, wire_len, inner, offset + 4, (tags - 1) as nat);
        }
    } else {
        lemma_l3_agrees(ethertype, a, b, offset, wire_len - offset);
    }
}

/// Over any link, nothing behind the headers of a packet is looked at: two
/// captures of one length that agree as far as the headers reach give the
/// same event.
pub proof fn law_payload_is_not_inspected(link: u32, a: Seq<u8>, b: Seq<u8>, wire_len: int)
    requires
        agree(a, b, headers_reach(link, a)),
    ensures
        captured_event(link, a, wire_len) == captured_event(link, b, wire_len),
{
    if link == linktype::ETHERNET {
        if a.len() >= 14 {
            lemma_tagged_reach(a, net16(a, 12), 14, 2);
            assert(a[12] == b[12] && a[13] == b[13]);
            lemma_tagged_agrees(a, b, wire_len, net16(a, 12), 14, 2);
        }
    } else if link == linktype::RAW_IP {
        if a.len() > 0 {
            lemma_walk_reach_grows(a, a[6], 40, MAX_EXTENSIONS as nat);
            assert(a[0] == b[0]);
            if a[0] as int / 16 == 4 {
                law_ipv4_payload_is_not_inspected(a, b, wire_len);
            } else if a[0] as int / 16 == 6 {
                law_ipv6_payload_is_not_inspected(a, b, wire_len);
            }
        }
    } else if link == linktype::LINUX_SLL {
        if a.len() >= 16 {
            lemma_l3_reach(net16(a, 14), a.skip(16));
            assert(a[14] == b[14] && a[15] == b[15]);
            lemma_l3_agrees(net16(a, 14), a, b, 16, wire_len - 16);
        }
    }
}

} // verus!
