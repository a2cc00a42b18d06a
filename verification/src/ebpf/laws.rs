//! What an event of the kernel's ring buffer keeps of its record.

use vstd::prelude::*;

use crate::ebpf::clock::midpoint;
use crate::ebpf::record::EbpfFlowEvent;
use crate::ebpf::tc::total;
use crate::event::Direction;
use crate::ip::IpAddr;

verus! {

/// A record of a known version and direction becomes an event with its
/// addresses, ports, protocol, flags, length, interface and direction, at the
/// given time; any other is refused.
pub proof fn law_events_keep_their_record(r: EbpfFlowEvent, ts: u64)
    ensures
        r.event(ts) is Ok <==> (r.ip_version == 4 || r.ip_version == 6) && r.direction <= 2,
        r.event(ts) matches Ok(e) ==> {
            &&& e.ts_nanos == ts
            &&& e.src_port == r.src_port
            &&& e.dst_port == r.dst_port
            &&& e.protocol == r.protocol
            &&& e.tcp_flags == r.tcp_flags
            &&& e.bytes == r.bytes
            &&& e.packets == 1
            &&& e.interface_index == r.interface_index
            &&& e.direction == if r.direction == 1 {
                Direction::Ingress
            } else if r.direction == 2 {
                Direction::Egress
            } else {
                Direction::Unknown
            }
            &&& e.src_ip is V4 <==> r.ip_version == 4
            &&& e.dst_ip is V4 <==> r.ip_version == 4
        },
{
}

/// IPv4 addresses are the last four bytes of their field, most significant
/// byte first.
pub proof fn law_ipv4_addresses_end_their_field(r: EbpfFlowEvent, ts: u64)
    requires
        r.event(ts) is Ok,
        r.ip_version == 4,
    ensures
        r.event(ts)->Ok_0.src_ip == IpAddr::V4(
            (0x100_0000 * r.src_ip@[12] as nat + 0x1_0000 * r.src_ip@[13] as nat + 0x100
                * r.src_ip@[14] as nat + r.src_ip@[15] as nat) as u32,
        ),
        r.event(ts)->Ok_0.dst_ip == IpAddr::V4(
            (0x100_0000 * r.dst_ip@[12] as nat + 0x1_0000 * r.dst_ip@[13] as nat + 0x100
                * r.dst_ip@[14] as nat + r.dst_ip@[15] as nat) as u32,
        ),
{
    lemma_four(r.src_ip@);
    lemma_four(r.dst_ip@);
}

proof fn lemma_four(field: Seq<u8>)
    requires
        field.len() == 16,
    ensures
        crate::bytes::be_value(field.subrange(12, 16)) == 0x100_0000 * field[12] as nat + 0x1_0000
            * field[13] as nat + 0x100 * field[14] as nat + field[15] as nat,
{
    let s = field.subrange(12, 16);
    let t = s.drop_last();
    let u = t.drop_last();
    let v = u.drop_last();
    assert(v.drop_last().len() == 0);
    reveal_with_fuel(crate::bytes::be_value, 6);
}

/// The layout of a record, in the order that the kernel writes it.
pub proof fn law_record_layout(r: EbpfFlowEvent, b: Seq<u8>)
    requires
        b.len() == 56,
        r.decodes(b, true),
    ensures
        r.src_ip@ == b.subrange(8, 24),
        r.dst_ip@ == b.subrange(24, 40),
        r.src_port == b[48] as nat + 256 * b[49] as nat,
        r.dst_port == b[50] as nat + 256 * b[51] as nat,
        r.bytes == b[40] as nat + 0x100 * b[41] as nat + 0x1_0000 * b[42] as nat + 0x100_0000
            * b[43] as nat,
        r.protocol == b[52],
        r.ip_version == b[53],
        r.tcp_flags == b[54],
        r.direction == b[55],
{
    lemma_two(b, 48);
    lemma_two(b, 50);
    let s = b.subrange(40, 44);
    let t = s.drop_first();
    let u = t.drop_first();
    let v = u.drop_first();
    assert(v.drop_first().len() == 0);
    reveal_with_fuel(crate::bytes::le_value, 6);
}

proof fn lemma_two(b: Seq<u8>, i: int)
    requires
        0 <= i,
        i + 2 <= b.len(),
    ensures
        crate::bytes::le_value(b.subrange(i, i + 2)) == b[i] as nat + 256 * b[i + 1] as nat,
{
    let s = b.subrange(i, i + 2);
    let t = s.drop_first();
    assert(t.drop_first().len() == 0);
    reveal_with_fuel(crate::bytes::le_value, 4);
}

/// A reading between two others is taken to be halfway between them, to half a
/// nanosecond; where the clock has gone backwards, at the first of them.
pub proof fn law_clocks_are_read_halfway(before: nat, after: nat)
    ensures
        before <= after ==> before <= midpoint(before, after) <= after,
        before <= after ==> 0 <= (before + after) - 2 * midpoint(before, after) <= 1,
        after < before ==> midpoint(before, after) == before,
{
}

/// A counter is the sum of what every processor has counted.
pub proof fn law_counters_add_up(values: Seq<u64>, more: u64)
    ensures
        total(Seq::<u64>::empty()) == 0,
        total(values.push(more)) == total(values) + more,
{
    assert(values.push(more).drop_last() =~= values);
}

} // verus!
