//! Reproducible synthetic traffic: background, heavy talkers and scanners, so
//! that replay, examples and benchmarks work without real captures.

use vstd::prelude::*;
use vstd::string::*;

use crate::bytes::lemma_le_len;
use crate::hash::{stream_state, stream_value, SplitMixRng};
use crate::ip::{groups_value, IpAddr};
use crate::pcap::reader::{
    format_of, found_at, packets_from, Format, Found, PcapErrorView, FILE_HEADER_LEN,
    MAX_CAPTURE_LEN,
};
use crate::pcap::writer::{
    file_header, frame_bytes, law_file_header_reads_back, law_record_reads_back,
    law_tcp_packet_reads_back, law_udp_packet_reads_back, record_bytes, same_family, tcp_bytes,
    tcp_record, udp_bytes, udp_record, wire_len, written_format, PcapWriter, COMPACT_PAYLOAD_LIMIT,
    MAX_DECLARED_LEN,
};
use crate::text::{dec, push_decimal};

verus! {

/// Time of the first packet.
pub const BASE_TS: u64 = 1_700_000_000_000_000_000;

/// Packets come up to this much after their even place in time.
pub const JITTER_NANOS: u64 = 1_000_000;

/// What traffic to make.
#[derive(Debug, Clone, Copy, PartialEq, Eq, Structural)]
pub struct SynthOptions {
    pub packets: u64,
    pub scanners: u32,
    pub heavy_talkers: u32,
    pub duration_secs: u64,
    pub seed: u64,
    pub full_payload: bool,
    pub ipv6_percent: u8,
}

impl SynthOptions {
    /// The end of the trace is a time of 64 bits.
    pub open spec fn fits(self) -> bool {
        BASE_TS + self.duration_secs * 1_000_000_000 + JITTER_NANOS <= u64::MAX
    }

    /// Whether the end of the trace is a time of 64 bits.
    pub fn time_fits(&self) -> (r: bool)
        ensures
            r == self.fits(),
    {
        self.duration_secs <= (u64::MAX - BASE_TS - JITTER_NANOS) / 1_000_000_000
    }
}

/// One packet of a trace. A packet without TCP flags is a UDP packet.
#[derive(Debug, Clone, Copy, PartialEq, Eq, Structural)]
pub struct SynthPacket {
    pub ts_nanos: u64,
    pub src: IpAddr,
    pub dst: IpAddr,
    pub src_port: u16,
    pub dst_port: u16,
    pub tcp_flags: Option<u8>,
    pub payload_len: u32,
}

/// An IPv4 address from its octets.
pub open spec fn v4(a: int, b: int, c: int, d: int) -> IpAddr {
    IpAddr::V4((a * 0x100_0000 + b * 0x1_0000 + c * 0x100 + d) as u32)
}

/// An IPv6 address of the documentation range from its other groups.
pub open spec fn v6(c: int, d: int, e: int, f: int, g: int, h: int) -> IpAddr {
    IpAddr::V6(
        groups_value(
            seq![
                0x2001u16,
                0x0db8u16,
                c as u16,
                d as u16,
                e as u16,
                f as u16,
                g as u16,
                h as u16,
            ],
        ) as u128,
    )
}

fn make_v6(c: u16, d: u16, e: u16, f: u16, g: u16, h: u16) -> (r: IpAddr)
    ensures
        r == v6(c as int, d as int, e as int, f as int, g as int, h as int),
{
    let groups: [u16; 8] = [0x2001, 0x0db8, c, d, e, f, g, h];
    assert(groups@ =~= seq![0x2001u16, 0x0db8u16, c, d, e, f, g, h]);
    IpAddr::v6(groups)
}

/// A port that scanners look for.
pub open spec fn scan_port(n: int) -> u16 {
    if n == 0 {
        22
    } else if n == 1 {
        80
    } else if n == 2 {
        443
    } else if n == 3 {
        5432
    } else {
        6379
    }
}

/// What the rest of a packet is made of: the draws from number `k` on.
pub ghost struct Body {
    pub src: IpAddr,
    pub dst: IpAddr,
    pub src_port: int,
    pub dst_port: int,
    pub tcp_flags: Option<u8>,
    pub payload_len: int,
    /// Draws used.
    pub used: nat,
}

/// One source that sweeps many destinations; `sweep` counts them.
pub open spec fn scan_body(o: SynthOptions, s: u64, k: nat, use_v6: bool, sweep: int) -> Body {
    let who = stream_value(s, k) as int % o.scanners as int;
    Body {
        src: if use_v6 {
            v6(0x0066, 0, 0, 0, 0, (who + 1) % 0x1_0000)
        } else {
            v4(10, 66, 0, (who + 1) % 0x100)
        },
        dst: if use_v6 {
            v6(
                0x0100,
                sweep / 0x1_0000_0000 % 0x1_0000,
                sweep / 0x1_0000 % 0x1_0000,
                sweep % 0x1_0000,
                0,
                1,
            )
        } else {
            v4(10, 100 + sweep / 0x1_0000 % 100, sweep / 0x100 % 0x100, sweep % 0x100)
        },
        src_port: 40_000 + stream_value(s, k + 2) as int % 20_000,
        dst_port: scan_port(stream_value(s, k + 1) as int % 5) as int,
        tcp_flags: Some(0x02),
        payload_len: 60,
        used: 3,
    }
}

/// Large flows between fixed pairs.
pub open spec fn heavy_body(o: SynthOptions, s: u64, k: nat, use_v6: bool) -> Body {
    let pair = stream_value(s, k) as int % o.heavy_talkers as int;
    Body {
        src: if use_v6 {
            v6(1, 1, 0, 0, 0, (pair + 10) % 0x1_0000)
        } else {
            v4(10, 1, 1, (pair + 10) % 0x100)
        },
        dst: if use_v6 {
            v6(2, 2, 0, 0, 0, (pair + 10) % 0x1_0000)
        } else {
            v4(10, 2, 2, (pair + 10) % 0x100)
        },
        src_port: 33_000,
        dst_port: 443,
        tcp_flags: Some(0x18),
        payload_len: 1_200 + stream_value(s, k + 1) as int % 200,
        used: 2,
    }
}

/// Modest flows between many hosts.
pub open spec fn background_body(s: u64, k: nat, use_v6: bool) -> Body {
    let m = if use_v6 {
        k + 8
    } else {
        k + 4
    };
    let udp = stream_value(s, m) % 4 == 0;
    Body {
        src: if use_v6 {
            v6(
                9,
                stream_value(s, k + 4) as int % 0x1_0000,
                stream_value(s, k + 5) as int % 0x1_0000,
                0,
                0,
                1,
            )
        } else {
            v4(10, 9, stream_value(s, k) as int % 32, stream_value(s, k + 1) as int % 250 + 1)
        },
        dst: if use_v6 {
            v6(
                8,
                stream_value(s, k + 6) as int % 0x1_0000,
                stream_value(s, k + 7) as int % 0x1_0000,
                0,
                0,
                1,
            )
        } else {
            v4(10, 8, stream_value(s, k + 2) as int % 8, stream_value(s, k + 3) as int % 250 + 1)
        },
        src_port: if udp {
            50_000 + stream_value(s, m + 1) as int % 10_000
        } else {
            40_000 + stream_value(s, m + 1) as int % 20_000
        },
        dst_port: if udp {
            53
        } else if stream_value(s, m + 2) % 2 == 0 {
            443
        } else {
            80
        },
        tcp_flags: if udp {
            None
        } else {
            Some(0x18)
        },
        payload_len: if udp {
            80
        } else {
            200 + stream_value(s, m + 3) as int % 800
        },
        used: (if use_v6 {
            8nat
        } else {
            4
        }) + (if udp {
            2nat
        } else {
            4
        }),
    }
}

/// The state of a trace: where the random stream stands and how many scans
/// have been made.
#[derive(Clone, Copy)]
pub struct TracePoint {
    pub state: u64,
    pub scans: u64,
}

/// Time of packet `i`: evenly spread over the duration, plus jitter.
pub open spec fn packet_time(o: SynthOptions, i: nat, jitter: int) -> int {
    BASE_TS + (i * (o.duration_secs as nat * 1_000_000_000)) as int / (if o.packets == 0 {
        1
    } else {
        o.packets as int
    }) + jitter
}

/// Packet `i`, made at a point of the trace, and the point after it. Of a
/// hundred packets about ten are scans and twenty are heavy flows, where there
/// are scanners and heavy talkers.
pub open spec fn step(o: SynthOptions, i: nat, p: TracePoint) -> (SynthPacket, TracePoint) {
    let s = p.state;
    let jitter = stream_value(s, 0) as int % JITTER_NANOS as int;
    let roll = stream_value(s, 1) % 100;
    let use_v6 = o.ipv6_percent != 0 && stream_value(s, 2) % 100 < o.ipv6_percent as u64;
    let k: nat = if o.ipv6_percent != 0 {
        3
    } else {
        2
    };
    let scans = roll < 10 && o.scanners > 0;
    let heavy = !scans && roll < 30 && o.heavy_talkers > 0;
    let body = if scans {
        scan_body(o, s, k, use_v6, p.scans + 1)
    } else if heavy {
        heavy_body(o, s, k, use_v6)
    } else {
        background_body(s, k, use_v6)
    };
    (
        SynthPacket {
            ts_nanos: packet_time(o, i, jitter) as u64,
            src: body.src,
            dst: body.dst,
            src_port: body.src_port as u16,
            dst_port: body.dst_port as u16,
            tcp_flags: body.tcp_flags,
            payload_len: body.payload_len as u32,
        },
        TracePoint {
            state: stream_state(s, k + body.used),
            scans: if scans {
                (p.scans + 1) as u64
            } else {
                p.scans
            },
        },
    )
}

/// The point before packet `i`.
pub open spec fn point_before(o: SynthOptions, i: nat) -> TracePoint
    decreases i,
{
    if i == 0 {
        TracePoint { state: o.seed, scans: 0 }
    } else {
        step(o, (i - 1) as nat, point_before(o, (i - 1) as nat)).1
    }
}

/// Packet `i` of the trace. The options alone decide it.
pub open spec fn packet_at(o: SynthOptions, i: nat) -> SynthPacket {
    step(o, i, point_before(o, i)).0
}

/// A trace in the making.
pub struct Synth {
    options: SynthOptions,
    rng: SplitMixRng,
    scans: u64,
    next: u64,
}

/// Draw number `k` of the stream that starts in `s`.
fn draw(rng: &mut SplitMixRng, Ghost(s): Ghost<u64>, Ghost(k): Ghost<nat>) -> (r: u64)
    requires
        old(rng).state() == stream_state(s, k),
    ensures
        r == stream_value(s, k),
        final(rng).state() == stream_state(s, k + 1),
{
    proof {
        reveal_with_fuel(stream_state, 2);
    }
    rng.next_u64()
}

fn draw_scan(o: &SynthOptions, rng: &mut SplitMixRng, use_v6: bool, sweep: u64, Ghost(s): Ghost<u64>, Ghost(k): Ghost<nat>) -> (r: SynthPacket)
    requires
        old(rng).state() == stream_state(s, k),
        o.scanners > 0,
    ensures
        ({
            let b = scan_body(*o, s, k, use_v6, sweep as int);
            &&& r == (SynthPacket {
                ts_nanos: 0,
                src: b.src,
                dst: b.dst,
                src_port: b.src_port as u16,
                dst_port: b.dst_port as u16,
                tcp_flags: b.tcp_flags,
                payload_len: b.payload_len as u32,
            })
            &&& final(rng).state() == stream_state(s, k + b.used)
        }),
{
    let who: u64 = draw(rng, Ghost(s), Ghost(k)) % (o.scanners as u64);
    let port: u64 = draw(rng, Ghost(s), Ghost(k + 1)) % 5;
    let dst_port: u16 = if port == 0 {
        22
    } else if port == 1 {
        80
    } else if port == 2 {
        443
    } else if port == 3 {
        5432
    } else {
        6379
    };
    let src_port: u16 = 40_000 + (draw(rng, Ghost(s), Ghost(k + 2)) % 20_000) as u16;
    let (src, dst): (IpAddr, IpAddr) = if use_v6 {
        (
            make_v6(0x0066, 0, 0, 0, 0, ((who + 1) % 0x1_0000) as u16),
            make_v6(
                0x0100,
                (sweep / 0x1_0000_0000 % 0x1_0000) as u16,
                (sweep / 0x1_0000 % 0x1_0000) as u16,
                (sweep % 0x1_0000) as u16,
                0,
                1,
            ),
        )
    } else {
        (
            IpAddr::v4(10, 66, 0, ((who + 1) % 0x100) as u8),
            IpAddr::v4(
                10,
                (100 + sweep / 0x1_0000 % 100) as u8,
                (sweep / 0x100 % 0x100) as u8,
                (sweep % 0x100) as u8,
            ),
        )
    };
    SynthPacket {
        ts_nanos: 0,
        src,
        dst,
        src_port,
        dst_port,
        tcp_flags: Some(0x02),
        payload_len: 60,
    }
}

fn draw_heavy(o: &SynthOptions, rng: &mut SplitMixRng, use_v6: bool, Ghost(s): Ghost<u64>, Ghost(k): Ghost<nat>) -> (r: SynthPacket)
    requires
        old(rng).state() == stream_state(s, k),
        o.heavy_talkers > 0,
    ensures
        ({
            let b = heavy_body(*o, s, k, use_v6);
            &&& r == (SynthPacket {
                ts_nanos: 0,
                src: b.src,
                dst: b.dst,
                src_port: b.src_port as u16,
                dst_port: b.dst_port as u16,
                tcp_flags: b.tcp_flags,
                payload_len: b.payload_len as u32,
            })
            &&& final(rng).state() == stream_state(s, k + b.used)
        }),
{
    let pair: u64 = draw(rng, Ghost(s), Ghost(k)) % (o.heavy_talkers as u64);
    let payload_len: u32 = 1_200 + (draw(rng, Ghost(s), Ghost(k + 1)) % 200) as u32;
    let (src, dst): (IpAddr, IpAddr) = if use_v6 {
        (
            make_v6(1, 1, 0, 0, 0, ((pair + 10) % 0x1_0000) as u16),
            make_v6(2, 2, 0, 0, 0, ((pair + 10) % 0x1_0000) as u16),
        )
    } else {
        (
            IpAddr::v4(10, 1, 1, ((pair + 10) % 0x100) as u8),
            IpAddr::v4(10, 2, 2, ((pair + 10) % 0x100) as u8),
        )
    };
    SynthPacket {
        ts_nanos: 0,
        src,
        dst,
        src_port: 33_000,
        dst_port: 443,
        tcp_flags: Some(0x18),
        payload_len,
    }
}

fn draw_background(rng: &mut SplitMixRng, use_v6: bool, Ghost(s): Ghost<u64>, Ghost(k): Ghost<nat>) -> (r: SynthPacket)
    requires
        old(rng).state() == stream_state(s, k),
    ensures
        ({
            let b = background_body(s, k, use_v6);
            &&& r == (SynthPacket {
                ts_nanos: 0,
                src: b.src,
                dst: b.dst,
                src_port: b.src_port as u16,
                dst_port: b.dst_port as u16,
                tcp_flags: b.tcp_flags,
                payload_len: b.payload_len as u32,
            })
            &&& final(rng).state() == stream_state(s, k + b.used)
        }),
{
    let a: u64 = draw(rng, Ghost(s), Ghost(k)) % 32;
    let b: u64 = draw(rng, Ghost(s), Ghost(k + 1)) % 250 + 1;
    let c: u64 = draw(rng, Ghost(s), Ghost(k + 2)) % 8;
    let d: u64 = draw(rng, Ghost(s), Ghost(k + 3)) % 250 + 1;
    let mut src = IpAddr::v4(10, 9, a as u8, b as u8);
    let mut dst = IpAddr::v4(10, 8, c as u8, d as u8);
    let ghost mut m: nat = k + 4;
    if use_v6 {
        let e: u64 = draw(rng, Ghost(s), Ghost(k + 4)) % 0x1_0000;
        let f: u64 = draw(rng, Ghost(s), Ghost(k + 5)) % 0x1_0000;
        let g: u64 = draw(rng, Ghost(s), Ghost(k + 6)) % 0x1_0000;
        let h: u64 = draw(rng, Ghost(s), Ghost(k + 7)) % 0x1_0000;
        src = make_v6(9, e as u16, f as u16, 0, 0, 1);
        dst = make_v6(8, g as u16, h as u16, 0, 0, 1);
        proof {
            m = k + 8;
        }
    }
    if draw(rng, Ghost(s), Ghost(m)) % 4 == 0 {
        let src_port: u16 = 50_000 + (draw(rng, Ghost(s), Ghost(m + 1)) % 10_000) as u16;
        SynthPacket {
            ts_nanos: 0,
            src,
            dst,
            src_port,
            dst_port: 53,
            tcp_flags: None,
            payload_len: 80,
        }
    } else {
        let src_port: u16 = 40_000 + (draw(rng, Ghost(s), Ghost(m + 1)) % 20_000) as u16;
        let dst_port: u16 = if draw(rng, Ghost(s), Ghost(m + 2)) % 2 == 0 {
            443
        } else {
            80
        };
        let payload_len: u32 = 200 + (draw(rng, Ghost(s), Ghost(m + 3)) % 800) as u32;
        SynthPacket {
            ts_nanos: 0,
            src,
            dst,
            src_port,
            dst_port,
            tcp_flags: Some(0x18),
            payload_len,
        }
    }
}

/// The even place of packet `i` in time.
fn even_time(o: &SynthOptions, i: u64) -> (r: u64)
    requires
        o.fits(),
        i < o.packets,
    ensures
        r == packet_time(*o, i as nat, 0),
        BASE_TS <= r <= BASE_TS + o.duration_secs * 1_000_000_000,
{
    let span: u64 = o.duration_secs * 1_000_000_000;
    assert(i as nat * span as nat <= u64::MAX as nat * u64::MAX as nat) by (nonlinear_arith)
        requires
            i <= u64::MAX,
            span <= u64::MAX,
    ;
    let product: u128 = i as u128 * span as u128;
    let packets: u64 = o.packets;
    assert(product as int / packets as int <= span) by (nonlinear_arith)
        requires
            product == i as int * span as int,
            0 <= i < packets,
            0 <= span,
    ;
    assert(product as int / packets as int >= 0) by (nonlinear_arith)
        requires
            product >= 0,
            packets > 0,
    ;
    BASE_TS + (product / (packets as u128)) as u64
}

impl Synth {
    /// The options of the trace.
    pub closed spec fn made_from(&self) -> SynthOptions {
        self.options
    }

    /// Packets made so far.
    pub closed spec fn made(&self) -> nat {
        self.next as nat
    }

    pub closed spec fn wf(&self) -> bool {
        &&& self.options.fits()
        &&& self.next <= self.options.packets
        &&& self.scans <= self.next
        &&& self.rng.state() == point_before(self.options, self.next as nat).state
        &&& self.scans == point_before(self.options, self.next as nat).scans
    }

    /// A trace in the making fits its timestamps and has not made too many
    /// packets.
    pub proof fn lemma_fits(&self)
        requires
            self.wf(),
        ensures
            self.made_from().fits(),
            self.made() <= self.made_from().packets,
    {
    }

    pub fn new(options: SynthOptions) -> (r: Self)
        requires
            options.fits(),
        ensures
            r.wf(),
            r.made_from() == options,
            r.made() == 0,
    {
        Synth { options, rng: SplitMixRng::new(options.seed), scans: 0, next: 0 }
    }

    /// The next packet, until all packets have been made.
    pub fn next_packet(&mut self) -> (r: Option<SynthPacket>)
        requires
            old(self).wf(),
        ensures
            final(self).wf(),
            final(self).made_from() == old(self).made_from(),
            old(self).made() < old(self).made_from().packets ==> {
                &&& r == Some(packet_at(old(self).made_from(), old(self).made()))
                &&& final(self).made() == old(self).made() + 1
            },
            old(self).made() >= old(self).made_from().packets ==> {
                &&& r is None
                &&& final(self).made() == old(self).made()
            },
    {
        if self.next >= self.options.packets {
            return None;
        }
        let o: SynthOptions = self.options;
        let ghost s = self.rng.state();
        let ghost i = self.next as nat;
        let ghost point = point_before(o, i);
        proof {
            reveal_with_fuel(stream_state, 1);
            assert(stream_state(s, 0) == s);
        }
        let jitter: u64 = draw(&mut self.rng, Ghost(s), Ghost(0)) % JITTER_NANOS;
        let roll: u64 = draw(&mut self.rng, Ghost(s), Ghost(1)) % 100;
        let ghost mut k: nat = 2;
        let mut use_v6 = false;
        if o.ipv6_percent != 0 {
            use_v6 = draw(&mut self.rng, Ghost(s), Ghost(2)) % 100 < o.ipv6_percent as u64;
            proof {
                k = 3;
            }
        }
        let even: u64 = even_time(&o, self.next);
        let mut packet: SynthPacket = if roll < 10 && o.scanners > 0 {
            self.scans = self.scans + 1;
            draw_scan(&o, &mut self.rng, use_v6, self.scans, Ghost(s), Ghost(k))
        } else if roll < 30 && o.heavy_talkers > 0 {
            draw_heavy(&o, &mut self.rng, use_v6, Ghost(s), Ghost(k))
        } else {
            draw_background(&mut self.rng, use_v6, Ghost(s), Ghost(k))
        };
        packet.ts_nanos = even + jitter;
        self.next = self.next + 1;
        proof {
            assert(point_before(o, i + 1) == step(o, i, point).1);
            assert(packet == step(o, i, point).0);
        }
        Some(packet)
    }
}

/// The record of a packet.
pub open spec fn packet_record(p: SynthPacket, stored: int) -> Seq<u8> {
    match p.tcp_flags {
        Some(flags) => tcp_record(
            p.ts_nanos,
            p.src,
            p.dst,
            p.src_port,
            p.dst_port,
            flags,
            p.payload_len,
            stored,
        ),
        None => udp_record(
            p.ts_nanos,
            p.src,
            p.dst,
            p.src_port,
            p.dst_port,
            p.payload_len,
            stored,
        ),
    }
}

impl SynthPacket {
    /// Write the packet to a capture file.
    pub fn write_to(&self, w: &mut PcapWriter)
        requires
            old(w).count() < u64::MAX,
            self.payload_len <= 65_527,
        ensures
            final(w).wrote(old(w), packet_record(*self, old(w).stored())),
    {
        match self.tcp_flags {
            Some(flags) => w.write_tcp_packet(
                self.ts_nanos,
                self.src,
                self.dst,
                self.src_port,
                self.dst_port,
                flags,
                self.payload_len,
            ),
            None => w.write_udp_packet(
                self.ts_nanos,
                self.src,
                self.dst,
                self.src_port,
                self.dst_port,
                self.payload_len,
            ),
        }
    }
}

// ---------------------------------------------------------------------------
// The file
// ---------------------------------------------------------------------------

/// How many bytes of a payload are stored.
pub open spec fn stored_of(o: SynthOptions) -> int {
    if o.full_payload {
        MAX_DECLARED_LEN as int
    } else {
        COMPACT_PAYLOAD_LIMIT as int
    }
}

/// The file up to packet `i`.
pub open spec fn trace_prefix(o: SynthOptions, i: nat) -> Seq<u8>
    decreases i,
{
    if i == 0 {
        file_header()
    } else {
        trace_prefix(o, (i - 1) as nat) + packet_record(packet_at(o, (i - 1) as nat), stored_of(o))
    }
}

/// The whole file. The options alone decide it.
pub open spec fn trace_bytes(o: SynthOptions) -> Seq<u8> {
    trace_prefix(o, o.packets as nat)
}

/// A capture file in the making.
pub struct Trace {
    packets: Synth,
    writer: PcapWriter,
    begun: bool,
}

impl Trace {
    pub closed spec fn made_from(&self) -> SynthOptions {
        self.packets.made_from()
    }

    /// Packets written so far.
    pub closed spec fn made(&self) -> nat {
        self.packets.made()
    }

    /// The part of the file that has been handed out.
    pub closed spec fn emitted(&self) -> Seq<u8> {
        if self.begun {
            trace_prefix(self.made_from(), self.made())
        } else {
            Seq::empty()
        }
    }

    pub closed spec fn wf(&self) -> bool {
        let o = self.packets.made_from();
        &&& self.packets.wf()
        &&& self.packets.made() <= o.packets
        &&& self.writer.count() == self.packets.made()
        &&& self.writer.stored() == (if o.full_payload {
            usize::MAX as int
        } else {
            COMPACT_PAYLOAD_LIMIT as int
        })
        &&& self.emitted() + self.writer.pending() == trace_prefix(o, self.packets.made())
        &&& !self.begun ==> self.packets.made() == 0
    }

    pub fn new(options: SynthOptions) -> (r: Self)
        requires
            options.fits(),
        ensures
            r.wf(),
            r.made_from() == options,
            r.made() == 0,
            r.emitted() == Seq::<u8>::empty(),
    {
        let writer = if options.full_payload {
            PcapWriter::new_full_payload()
        } else {
            PcapWriter::new()
        };
        let r = Trace { packets: Synth::new(options), writer, begun: false };
        assert(r.emitted() + r.writer.pending() =~= file_header());
        r
    }

    /// Packets written so far.
    pub fn packets_written(&self) -> (r: u64)
        requires
            self.wf(),
        ensures
            r == self.made(),
    {
        self.writer.packets_written()
    }

    /// The next part of the file, with at most `packets` more packets. Once
    /// all packets have been handed out, there is nothing more.
    #[verifier::spinoff_prover]
    #[verifier::rlimit(50)]
    pub fn next_chunk(&mut self, packets: u64) -> (r: Vec<u8>)
        requires
            old(self).wf(),
        ensures
            final(self).wf(),
            final(self).made_from() == old(self).made_from(),
            final(self).emitted() == old(self).emitted() + r@,
            final(self).emitted() == trace_prefix(final(self).made_from(), final(self).made()),
            final(self).made() == (if old(self).made() + packets < old(self).made_from().packets {
                old(self).made() + packets
            } else {
                old(self).made_from().packets as int
            }),
    {
        let ghost o = self.made_from();
        let ghost start = self.made();
        let ghost before = self.emitted();
        let mut i: u64 = 0;
        while i < packets
            invariant
                o == self.packets.made_from(),
                start == old(self).made(),
                before == old(self).emitted(),
                o == old(self).made_from(),
                self.packets.wf(),
                i <= packets,
                self.packets.made() == start + i <= o.packets,
                self.writer.count() == self.packets.made(),
                self.writer.stored() == (if o.full_payload {
                    usize::MAX as int
                } else {
                    COMPACT_PAYLOAD_LIMIT as int
                }),
                before + self.writer.pending() == trace_prefix(o, self.packets.made()),
            ensures
                o == self.packets.made_from(),
                self.packets.wf(),
                self.packets.made() == (if start + packets < o.packets {
                    start + packets
                } else {
                    o.packets as int
                }),
                self.writer.count() == self.packets.made(),
                self.writer.stored() == (if o.full_payload {
                    usize::MAX as int
                } else {
                    COMPACT_PAYLOAD_LIMIT as int
                }),
                before + self.writer.pending() == trace_prefix(o, self.packets.made()),
            decreases packets - i,
        {
            let ghost at = self.packets.made();
            let ghost pending = self.writer.pending();
            proof {
                self.packets.lemma_fits();
            }
            match self.packets.next_packet() {
                None => {
                    break;
                },
                Some(packet) => {
                    proof {
                        law_trace_stays_in_time(o, at);
                        lemma_stored(packet, o, self.writer.stored());
                    }
                    packet.write_to(&mut self.writer);
                    proof {
                        let record = packet_record(packet, stored_of(o));
                        assert(before + (pending + record) =~= before + pending + record);
                    }
                },
            }
            i += 1;
        }
        let out = self.writer.take_bytes();
        self.begun = true;
        proof {
            assert(self.emitted() + Seq::<u8>::empty() =~= self.emitted());
        }
        out
    }
}

/// A payload that is stored whole does not depend on how much more could be.
proof fn lemma_stored(p: SynthPacket, o: SynthOptions, limit: int)
    requires
        p.payload_len < 1_400,
        limit == (if o.full_payload {
            usize::MAX as int
        } else {
            COMPACT_PAYLOAD_LIMIT as int
        }),
    ensures
        packet_record(p, limit) == packet_record(p, stored_of(o)),
{
}

/// A capture file that the reader takes whole, with that many packets.
pub open spec fn reads_back(bytes: Seq<u8>, packets: nat) -> bool {
    &&& format_of(bytes) == Ok::<Format, PcapErrorView>(written_format())
    &&& packets_from(bytes, FILE_HEADER_LEN as int, written_format()) == Some(packets)
}

/// The whole file that a run writes. Equal options give equal files, and a
/// reader finds as many packets as were asked for.
pub fn run(o: SynthOptions) -> (r: Vec<u8>)
    requires
        o.fits(),
    ensures
        r@ == trace_bytes(o),
        seconds_fit(o) ==> reads_back(r@, o.packets as nat),
{
    let mut t = Trace::new(o);
    let out = t.next_chunk(o.packets);
    proof {
        assert(Seq::<u8>::empty() + out@ =~= out@);
        if seconds_fit(o) {
            law_trace_reads_back(o);
        }
    }
    out
}

/// What is reported when a trace has been written.
pub open spec fn summary_text(o: SynthOptions, written: nat, path: Seq<char>) -> Seq<char> {
    "wrote "@ + dec(written) + " packets over "@ + dec(o.duration_secs as nat) + "s to "@ + path
        + " ("@ + dec(o.scanners as nat) + " scanner(s), "@ + dec(o.heavy_talkers as nat)
        + " heavy pair(s), "@ + dec(o.ipv6_percent as nat) + "% IPv6, seed "@ + dec(o.seed as nat)
        + ")"@
}

/// Report that a trace has been written.
pub fn summary(o: &SynthOptions, written: u64, path: &str) -> (r: String)
    ensures
        r@ == summary_text(*o, written as nat, path@),
{
    let mut out = "wrote ".to_owned();
    push_decimal(&mut out, written);
    out.append(" packets over ");
    push_decimal(&mut out, o.duration_secs);
    out.append("s to ");
    out.append(path);
    out.append(" (");
    push_decimal(&mut out, o.scanners as u64);
    out.append(" scanner(s), ");
    push_decimal(&mut out, o.heavy_talkers as u64);
    out.append(" heavy pair(s), ");
    push_decimal(&mut out, o.ipv6_percent as u64);
    out.append("% IPv6, seed ");
    push_decimal(&mut out, o.seed);
    out.append(")");
    out
}

// ---------------------------------------------------------------------------
// Laws
// ---------------------------------------------------------------------------

/// Every packet of a trace lies within its duration, up to the jitter, and
/// its payload fits into a capture record.
pub proof fn law_trace_stays_in_time(o: SynthOptions, i: nat)
    requires
        o.fits(),
        i < o.packets,
    ensures
        BASE_TS <= packet_at(o, i).ts_nanos < BASE_TS + o.duration_secs * 1_000_000_000
            + JITTER_NANOS,
        packet_at(o, i).payload_len < 1_400,
{
    let span = o.duration_secs as nat * 1_000_000_000;
    let packets = o.packets as int;
    assert((i * span) as int / packets <= span) by (nonlinear_arith)
        requires
            0 <= i < packets,
            0 <= span,
    ;
    assert((i * span) as int / packets >= 0) by (nonlinear_arith)
        requires
            0 <= i,
            0 <= span,
            packets > 0,
    ;
}

/// All timestamps have seconds of 32 bits, as capture files have.
pub open spec fn seconds_fit(o: SynthOptions) -> bool {
    &&& o.fits()
    &&& forall|i: nat|
        i < o.packets ==> (#[trigger] packet_at(o, i)).ts_nanos < 0x1_0000_0000 * 1_000_000_000
}

/// The frame of a packet.
pub open spec fn packet_frame(p: SynthPacket, stored: int) -> Seq<u8> {
    match p.tcp_flags {
        Some(flags) => frame_bytes(
            p.src,
            p.dst,
            6,
            tcp_bytes(p.src_port, p.dst_port, flags),
            p.payload_len as int,
            stored,
        ),
        None => frame_bytes(
            p.src,
            p.dst,
            17,
            udp_bytes(p.src_port, p.dst_port, p.payload_len as nat),
            p.payload_len as int,
            stored,
        ),
    }
}

/// The length of a packet on the wire.
pub open spec fn packet_wire_len(p: SynthPacket) -> nat {
    wire_len(
        p.src,
        p.dst,
        if p.tcp_flags is Some {
            20
        } else {
            8
        },
        p.payload_len as int,
    ) as nat
}

proof fn lemma_prefix_of(o: SynthOptions, i: nat, n: nat)
    requires
        i <= n,
    ensures
        trace_prefix(o, i).len() <= trace_prefix(o, n).len(),
        trace_prefix(o, n).take(trace_prefix(o, i).len() as int) == trace_prefix(o, i),
    decreases n,
{
    if i < n {
        lemma_prefix_of(o, i, (n - 1) as nat);
        let shorter = trace_prefix(o, (n - 1) as nat);
        let k = trace_prefix(o, i).len() as int;
        assert(trace_prefix(o, n).take(k) =~= shorter.take(k));
    } else {
        assert(trace_prefix(o, n).take(trace_prefix(o, n).len() as int) =~= trace_prefix(o, n));
    }
}

/// What the record of a packet consists of.
proof fn lemma_packet_record(p: SynthPacket, stored: int)
    requires
        same_family(p.src, p.dst),
        p.payload_len < 1_400,
        0 <= stored,
    ensures
        packet_record(p, stored) == record_bytes(
            p.ts_nanos as nat,
            packet_wire_len(p),
            packet_frame(p, stored),
        ),
        packet_frame(p, stored).len() <= packet_wire_len(p) < 0x1_0000_0000,
        packet_frame(p, stored).len() <= MAX_CAPTURE_LEN,
{
    match p.tcp_flags {
        Some(flags) => {
            law_tcp_packet_reads_back(
                p.src,
                p.dst,
                p.src_port,
                p.dst_port,
                flags,
                p.payload_len,
                stored,
            );
        },
        None => {
            law_udp_packet_reads_back(
                p.src,
                p.dst,
                p.src_port,
                p.dst_port,
                p.payload_len,
                stored,
            );
        },
    }
}

/// Packet `i` of a trace reads back from its place in the file: its time, its
/// length on the wire and its frame.
#[verifier::spinoff_prover]
pub proof fn law_trace_packet_reads_back(o: SynthOptions, i: nat)
    requires
        seconds_fit(o),
        i < o.packets,
    ensures
        ({
            let p = packet_at(o, i);
            let at = trace_prefix(o, i).len() as int;
            let next = trace_prefix(o, i + 1).len() as int;
            &&& next <= trace_bytes(o).len()
            &&& found_at(trace_bytes(o), at, written_format()) == (Found::Packet {
                ts_nanos: p.ts_nanos as nat,
                wire_len: packet_wire_len(p),
                from: at + 16,
                to: next,
            })
            &&& trace_bytes(o).subrange(at + 16, next) == packet_frame(p, stored_of(o))
        }),
{
    let p = packet_at(o, i);
    let before = trace_prefix(o, i);
    let frame = packet_frame(p, stored_of(o));
    let wire = packet_wire_len(p);
    let record = packet_record(p, stored_of(o));
    law_trace_stays_in_time(o, i);
    law_addresses_are_of_one_family(o, i);
    lemma_packet_record(p, stored_of(o));
    assert(trace_prefix(o, i + 1) == before + record);
    lemma_prefix_of(o, i + 1, o.packets as nat);
    let whole = trace_bytes(o);
    let after = whole.skip(trace_prefix(o, i + 1).len() as int);
    assert(whole =~= before + record + after) by {
        assert(whole =~= whole.take(trace_prefix(o, i + 1).len() as int) + after);
    }
    law_record_reads_back(before, p.ts_nanos as nat, wire, frame, after);
    lemma_record_len(p.ts_nanos as nat, wire, frame);
}

proof fn lemma_record_len(ts_nanos: nat, wire: nat, frame: Seq<u8>)
    ensures
        record_bytes(ts_nanos, wire, frame).len() == 16 + frame.len(),
{
    lemma_le_len(ts_nanos / 1_000_000_000, 4);
    lemma_le_len(ts_nanos % 1_000_000_000, 4);
    lemma_le_len(frame.len(), 4);
    lemma_le_len(wire, 4);
}

proof fn lemma_packets_from(o: SynthOptions, i: nat)
    requires
        seconds_fit(o),
        i <= o.packets,
    ensures
        packets_from(trace_bytes(o), trace_prefix(o, i).len() as int, written_format()) == Some(
            (o.packets - i) as nat,
        ),
    decreases o.packets - i,
{
    if i < o.packets {
        law_trace_packet_reads_back(o, i);
        lemma_packets_from(o, i + 1);
        let p = packet_at(o, i);
        lemma_record_len(
            p.ts_nanos as nat,
            packet_wire_len(p),
            packet_frame(p, stored_of(o)),
        );
    }
}

proof fn lemma_header(bytes: Seq<u8>)
    requires
        file_header().len() <= bytes.len(),
        bytes.take(file_header().len() as int) == file_header(),
    ensures
        file_header().len() == 24,
        format_of(bytes) == Ok::<Format, PcapErrorView>(written_format()),
{
    let rest = bytes.skip(file_header().len() as int);
    law_file_header_reads_back(rest);
    assert(bytes =~= bytes.take(file_header().len() as int) + rest);
}

/// A trace reads back whole: its header is taken, and it holds exactly as
/// many packets as were asked for.
#[verifier::spinoff_prover]
pub proof fn law_trace_reads_back(o: SynthOptions)
    requires
        seconds_fit(o),
    ensures
        reads_back(trace_bytes(o), o.packets as nat),
{
    lemma_prefix_of(o, 0, o.packets as nat);
    lemma_header(trace_bytes(o));
    lemma_packets_from(o, 0);
}

/// Without an IPv6 share every address is IPv4, and no draw is spent on the
/// choice.
pub proof fn law_no_share_no_ipv6(o: SynthOptions, i: nat)
    requires
        o.ipv6_percent == 0,
    ensures
        packet_at(o, i).src is V4,
        packet_at(o, i).dst is V4,
{
}

/// Source and destination of a packet are of one family, so that a record of
/// it reads back.
pub proof fn law_addresses_are_of_one_family(o: SynthOptions, i: nat)
    ensures
        packet_at(o, i).src is V4 == packet_at(o, i).dst is V4,
{
}

} // verus!
