//! What a synthetic trace is made of.

use vstd::prelude::*;

use crate::hash::stream_value;
use crate::ip::IpAddr;
use crate::synth::{
    background_body, heavy_body, packet_at, point_before, scan_body, step, v4, Body, SynthOptions,
    SynthPacket,
};

verus! {

/// An IPv4 address from `first` to `last`.
pub open spec fn in_v4(a: IpAddr, first: u32, last: u32) -> bool {
    a matches IpAddr::V4(n) && first <= n <= last
}

/// A probe of a scanner: an empty connection attempt at a well-known port, from
/// 10.66.0.0/24 to somewhere in 10.100.0.0 to 10.199.255.255.
pub open spec fn is_probe(p: SynthPacket) -> bool {
    &&& p.tcp_flags == Some(2u8)
    &&& p.payload_len == 60
    &&& 40_000 <= p.src_port < 60_000
    &&& p.dst_port == 22 || p.dst_port == 80 || p.dst_port == 443 || p.dst_port == 5432
        || p.dst_port == 6379
    &&& p.src is V4 ==> in_v4(p.src, 0x0A42_0000, 0x0A42_00FF)
    &&& p.dst is V4 ==> in_v4(p.dst, 0x0A64_0000, 0x0AC7_FFFF)
}

/// A packet of a large flow: much data between a pair of hosts.
pub open spec fn is_bulk(p: SynthPacket) -> bool {
    &&& p.tcp_flags == Some(0x18u8)
    &&& 1_200 <= p.payload_len < 1_400
    &&& p.src_port == 33_000
    &&& p.dst_port == 443
    &&& p.src is V4 ==> in_v4(p.src, 0x0A01_0100, 0x0A01_01FF)
    &&& p.dst is V4 ==> in_v4(p.dst, 0x0A02_0200, 0x0A02_02FF)
    // Both ends of a pair have the same last octet.
    &&& p.src matches IpAddr::V4(a) ==> (p.dst matches IpAddr::V4(b) ==> b - a == 0x0001_0100)
}

/// A packet of the background: a name lookup or a little web traffic.
pub open spec fn is_background(p: SynthPacket) -> bool {
    &&& p.src is V4 ==> in_v4(p.src, 0x0A09_0001, 0x0A09_1FFA)
    &&& p.dst is V4 ==> in_v4(p.dst, 0x0A08_0001, 0x0A08_07FA)
    &&& p.tcp_flags is None ==> p.dst_port == 53 && 50_000 <= p.src_port < 60_000 && p.payload_len
        == 80
    &&& p.tcp_flags is Some ==> p.tcp_flags == Some(0x18u8) && (p.dst_port == 80 || p.dst_port
        == 443) && 40_000 <= p.src_port < 60_000 && 200 <= p.payload_len < 1_000
}

proof fn lemma_v4(a: int, b: int, c: int, d: int)
    requires
        0 <= a < 0x100,
        0 <= b < 0x100,
        0 <= c < 0x100,
        0 <= d < 0x100,
    ensures
        v4(a, b, c, d) matches IpAddr::V4(n) && n == a * 0x100_0000 + b * 0x1_0000 + c * 0x100 + d,
{
}

/// A packet with these parts.
spec fn has_body(p: SynthPacket, b: Body) -> bool {
    &&& p.src == b.src
    &&& p.dst == b.dst
    &&& p.src_port == b.src_port as u16
    &&& p.dst_port == b.dst_port as u16
    &&& p.tcp_flags == b.tcp_flags
    &&& p.payload_len == b.payload_len as u32
}

proof fn lemma_probe(o: SynthOptions, s: u64, k: nat, use_v6: bool, sweep: int, p: SynthPacket)
    requires
        o.scanners > 0,
        sweep >= 0,
        has_body(p, scan_body(o, s, k, use_v6, sweep)),
    ensures
        is_probe(p),
        sweep < 6_553_600 ==> (p.dst matches IpAddr::V4(n) ==> n == 0x0A64_0000 + sweep),
{
    let b = scan_body(o, s, k, use_v6, sweep);
    let who = stream_value(s, k) as int % o.scanners as int;
    let last = (who + 1) % 0x100;
    let x = sweep / 0x1_0000 % 100;
    let y = sweep / 0x100 % 0x100;
    let z = sweep % 0x100;
    lemma_v4(10, 66, 0, last);
    lemma_v4(10, 100 + x, y, z);
    assert(40_000 <= b.src_port < 60_000);
    assert(b.dst_port == 22 || b.dst_port == 80 || b.dst_port == 443 || b.dst_port == 5432
        || b.dst_port == 6379);
    if sweep < 6_553_600 {
        assert(x == sweep / 0x1_0000);
        assert(x * 0x1_0000 + y * 0x100 + z == sweep);
    }
    if !use_v6 {
        assert(p.src == v4(10, 66, 0, last));
        assert(p.dst == v4(10, 100 + x, y, z));
    }
}

proof fn lemma_bulk(o: SynthOptions, s: u64, k: nat, use_v6: bool, p: SynthPacket)
    requires
        o.heavy_talkers > 0,
        has_body(p, heavy_body(o, s, k, use_v6)),
    ensures
        is_bulk(p),
{
    let b = heavy_body(o, s, k, use_v6);
    let pair = stream_value(s, k) as int % o.heavy_talkers as int;
    let last = (pair + 10) % 0x100;
    lemma_v4(10, 1, 1, last);
    lemma_v4(10, 2, 2, last);
    assert(1_200 <= b.payload_len < 1_400);
    if !use_v6 {
        assert(p.src == v4(10, 1, 1, last));
        assert(p.dst == v4(10, 2, 2, last));
    }
}

proof fn lemma_background(s: u64, k: nat, use_v6: bool, p: SynthPacket)
    requires
        has_body(p, background_body(s, k, use_v6)),
    ensures
        is_background(p),
{
    let b = background_body(s, k, use_v6);
    let c = stream_value(s, k) as int % 32;
    let d = stream_value(s, k + 1) as int % 250 + 1;
    let e = stream_value(s, k + 2) as int % 8;
    let f = stream_value(s, k + 3) as int % 250 + 1;
    lemma_v4(10, 9, c, d);
    lemma_v4(10, 8, e, f);
    assert(40_000 <= b.src_port < 60_000);
    assert(80 <= b.payload_len < 1_000);
    if !use_v6 {
        assert(p.src == v4(10, 9, c, d));
        assert(p.dst == v4(10, 8, e, f));
    }
}

/// Which kind a packet is of, and its number if it is a probe.
proof fn lemma_kind(o: SynthOptions, i: nat)
    ensures
        ({
            let p = packet_at(o, i);
            let at = point_before(o, i);
            let draw = stream_value(at.state, 1) % 100;
            let probe = draw < 10 && o.scanners > 0;
            let bulk = !probe && draw < 30 && o.heavy_talkers > 0;
            &&& probe ==> is_probe(p)
            &&& bulk ==> is_bulk(p)
            &&& !probe && !bulk ==> is_background(p)
            &&& probe && at.scans + 1 < 6_553_600 ==> (p.dst matches IpAddr::V4(n) ==> n
                == 0x0A64_0000 + at.scans + 1)
        }),
{
    let at = point_before(o, i);
    let s = at.state;
    let p = packet_at(o, i);
    let k: nat = if o.ipv6_percent != 0 {
        3
    } else {
        2
    };
    let use_v6 = o.ipv6_percent != 0 && stream_value(s, 2) % 100 < o.ipv6_percent as u64;
    let draw = stream_value(s, 1) % 100;
    let probe = draw < 10 && o.scanners > 0;
    let bulk = !probe && draw < 30 && o.heavy_talkers > 0;
    if probe {
        assert(has_body(p, scan_body(o, s, k, use_v6, at.scans + 1)));
        lemma_probe(o, s, k, use_v6, at.scans + 1, p);
    } else if bulk {
        assert(has_body(p, heavy_body(o, s, k, use_v6)));
        lemma_bulk(o, s, k, use_v6, p);
    } else {
        assert(has_body(p, background_body(s, k, use_v6)));
        lemma_background(s, k, use_v6, p);
    }
}

/// A tenth of the draws make probes, if there are scanners, two tenths make
/// bulk, if there are heavy talkers, and all others make background.
pub proof fn law_every_packet_is_of_its_kind(o: SynthOptions, i: nat)
    ensures
        ({
            let p = packet_at(o, i);
            let draw = stream_value(point_before(o, i).state, 1) % 100;
            let probe = draw < 10 && o.scanners > 0;
            let bulk = !probe && draw < 30 && o.heavy_talkers > 0;
            &&& probe ==> is_probe(p)
            &&& bulk ==> is_bulk(p)
            &&& !probe && !bulk ==> is_background(p)
        }),
{
    lemma_kind(o, i);
}

/// A sweep misses no address: scan number `n` goes to the `n`-th address behind
/// 10.100.0.0, until the range is through.
pub proof fn law_sweeps_go_address_by_address(o: SynthOptions, i: nat)
    ensures
        ({
            let p = packet_at(o, i);
            let before = point_before(o, i).scans;
            let probe = stream_value(point_before(o, i).state, 1) % 100 < 10 && o.scanners > 0;
            &&& point_before(o, 0).scans == 0
            &&& before < u64::MAX ==> point_before(o, i + 1).scans == before + (if probe {
                1int
            } else {
                0
            })
            &&& probe && before + 1 < 6_553_600 ==> (p.dst matches IpAddr::V4(n) ==> n
                == 0x0A64_0000 + before + 1)
        }),
{
    lemma_kind(o, i);
    assert(point_before(o, i + 1) == step(o, i, point_before(o, i)).1);
}

/// Packets go out over the duration in even steps, each up to a millisecond
/// late.
pub proof fn law_packets_are_spread_evenly(o: SynthOptions, i: nat)
    requires
        o.fits(),
        i < o.packets,
    ensures
        ({
            let late = packet_at(o, i).ts_nanos - 1_700_000_000_000_000_000;
            let even = (i * (o.duration_secs as nat * 1_000_000_000)) as int / o.packets as int;
            even <= late < even + 1_000_000
        }),
{
    let total = o.duration_secs as int * 1_000_000_000;
    let n = o.packets as int;
    assert((i as int * total) / n <= total) by (nonlinear_arith)
        requires
            0 <= i < n,
            0 <= total,
    ;
    assert(0 <= (i as int * total) / n) by (nonlinear_arith)
        requires
            0 <= i < n,
            0 <= total,
    ;
    assert(i as int * total == (i * (o.duration_secs as nat * 1_000_000_000)) as int);
}

} // verus!
