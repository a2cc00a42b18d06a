//! Packets on their way into the agent: the ring that the kernel fills, which
//! packets and records become events, and what is counted of them.

use vstd::prelude::*;
use vstd::string::*;

use crate::agent::config::{
    interface_fault, source_fault, AfPacketFanoutMode, RuntimeShardStrategy, SourceConfig,
    DEFAULT_BLOCK_RETIRE_TIMEOUT_MS, DEFAULT_RING_BLOCK_COUNT, DEFAULT_RING_BLOCK_SIZE_BYTES,
};
use crate::agent::error::{is_verdict, AgentError};
use crate::agent::state::{AgentCounters, LaneCounters, PublishedState};
use crate::ebpf::clock::KernelClockConverter;
use crate::ebpf::record::EbpfFlowEvent;
use crate::ebpf::tc::TcCollectorCounters;
use crate::event::FlowEvent;
use crate::metrics::{plus, raise};
use crate::pcap::linktype;
use crate::pcap::parse::{captured_event, parse_packet_with_wire_len};
use crate::sorting::reversed;
use crate::text::{debug_text, dec, push_decimal, quoted};

verus! {

// ---------------------------------------------------------------------------
// Times
// ---------------------------------------------------------------------------

/// How far the time of a packet may be from the clock. One corrupt time would
/// otherwise end every window and make all later traffic late.
pub const MAX_LIVE_TIMESTAMP_SKEW_NANOS: u64 = 300_000_000_000;

/// The times that are believed.
#[derive(Debug, Clone, Copy, PartialEq, Eq, Structural)]
pub struct LiveTimestampBounds {
    pub earliest: u64,
    pub latest: u64,
}

impl LiveTimestampBounds {
    pub open spec fn believes(self, timestamp: u64) -> bool {
        self.earliest <= timestamp <= self.latest
    }

    /// The times around a reading of the clock.
    pub fn around(now: u64) -> (r: Self)
        ensures
            forall|t: u64| #[trigger]
                r.believes(t) <==> now - MAX_LIVE_TIMESTAMP_SKEW_NANOS <= t <= now
                    + MAX_LIVE_TIMESTAMP_SKEW_NANOS,
    {
        LiveTimestampBounds {
            earliest: if now < MAX_LIVE_TIMESTAMP_SKEW_NANOS {
                0
            } else {
                now - MAX_LIVE_TIMESTAMP_SKEW_NANOS
            },
            latest: if now > u64::MAX - MAX_LIVE_TIMESTAMP_SKEW_NANOS {
                u64::MAX
            } else {
                now + MAX_LIVE_TIMESTAMP_SKEW_NANOS
            },
        }
    }

    /// Whether a time is believed.
    pub fn contains(self, timestamp_nanos: u64) -> (r: bool)
        ensures
            r == self.believes(timestamp_nanos),
    {
        self.earliest <= timestamp_nanos && timestamp_nanos <= self.latest
    }
}

// ---------------------------------------------------------------------------
// Packets and records
// ---------------------------------------------------------------------------

/// What becomes of a packet or record.
#[derive(Debug, Clone, Copy, PartialEq, Eq, Structural)]
pub enum CaptureOutcome {
    Event(FlowEvent),
    /// Its time is not believed.
    BadTimestamp,
    /// It is unsupported or malformed.
    Unparsed,
}

/// Hardware types of Linux interfaces.
pub const ARPHRD_ETHER: u16 = 1;

pub const ARPHRD_RAWIP: u16 = 519;

pub const ARPHRD_LOOPBACK: u16 = 772;

/// Tunnels such as TUN and WireGuard have no link layer.
pub const ARPHRD_NONE: u16 = 65_534;

/// How the packets of an interface are framed, if that is known.
pub open spec fn framing(hardware: u16) -> Option<u32> {
    if hardware == ARPHRD_ETHER || hardware == ARPHRD_LOOPBACK {
        Some(linktype::ETHERNET)
    } else if hardware == ARPHRD_NONE || hardware == ARPHRD_RAWIP {
        Some(linktype::RAW_IP)
    } else {
        None
    }
}

/// Pick the framing of an interface by its hardware type. A type that is not
/// known is refused, as nothing of it could be parsed.
pub fn capture_linktype(interface: &str, hardware: u16) -> (r: Result<u32, AgentError>)
    ensures
        match framing(hardware) {
            Some(link) => r == Ok::<u32, AgentError>(link),
            None => r matches Err(AgentError::Source(m)) && m@ == "interface "@ + debug_text(
                interface@,
            ) + " has unsupported hardware type "@ + dec(hardware as nat),
        },
{
    if hardware == ARPHRD_ETHER || hardware == ARPHRD_LOOPBACK {
        Ok(linktype::ETHERNET)
    } else if hardware == ARPHRD_NONE || hardware == ARPHRD_RAWIP {
        Ok(linktype::RAW_IP)
    } else {
        let mut m = "interface ".to_owned();
        m.append(quoted(interface).as_str());
        m.append(" has unsupported hardware type ");
        push_decimal(&mut m, hardware as u64);
        Err(AgentError::Source(m))
    }
}

/// What becomes of a packet.
pub open spec fn packet_outcome(
    link: u32,
    packet: Seq<u8>,
    wire_len: u32,
    timestamp: u64,
    bounds: LiveTimestampBounds,
) -> CaptureOutcome {
    match captured_event(link, packet, wire_len as int) {
        None => CaptureOutcome::Unparsed,
        Some(e) => if !bounds.believes(timestamp) {
            CaptureOutcome::BadTimestamp
        } else {
            CaptureOutcome::Event(
                FlowEvent {
                    ts_nanos: timestamp,
                    bytes: if e.bytes == 0 {
                        packet.len() as u32
                    } else {
                        e.bytes
                    },
                    ..e
                },
            )
        },
    }
}

/// What becomes of a packet that was captured at `timestamp_nanos`.
pub fn take_packet(
    link: u32,
    packet: &[u8],
    wire_len: u32,
    timestamp_nanos: u64,
    bounds: LiveTimestampBounds,
) -> (r: CaptureOutcome)
    ensures
        r == packet_outcome(link, packet@, wire_len, timestamp_nanos, bounds),
{
    match parse_packet_with_wire_len(link, packet, wire_len) {
        None => CaptureOutcome::Unparsed,
        Some(e) => {
            if !bounds.contains(timestamp_nanos) {
                return CaptureOutcome::BadTimestamp;
            }
            let mut e = e;
            e.ts_nanos = timestamp_nanos;
            if e.bytes == 0 {
                e.bytes = packet.len() as u32;
            }
            CaptureOutcome::Event(e)
        },
    }
}

/// What becomes of a record whose clock is `offset` behind the time of day.
pub open spec fn record_outcome(
    record: EbpfFlowEvent,
    offset: int,
    bounds: LiveTimestampBounds,
) -> CaptureOutcome {
    let unix = record.ts_nanos + offset;
    if 0 <= unix <= u64::MAX && bounds.believes(unix as u64) {
        match record.event(unix as u64) {
            Ok(e) => CaptureOutcome::Event(e),
            Err(_) => CaptureOutcome::Unparsed,
        }
    } else {
        CaptureOutcome::BadTimestamp
    }
}

/// What becomes of a record of the traffic-control program.
pub fn take_record(
    record: EbpfFlowEvent,
    clock: KernelClockConverter,
    bounds: LiveTimestampBounds,
) -> (r: CaptureOutcome)
    requires
        clock.wf(),
    ensures
        r == record_outcome(record, clock.offset(), bounds),
{
    match clock.to_unix_nanos(record.ts_nanos) {
        Ok(unix) => {
            if !bounds.contains(unix) {
                return CaptureOutcome::BadTimestamp;
            }
            match record.try_into_flow_event(unix) {
                Ok(e) => CaptureOutcome::Event(e),
                Err(_) => CaptureOutcome::Unparsed,
            }
        },
        Err(_) => CaptureOutcome::BadTimestamp,
    }
}

// ---------------------------------------------------------------------------
// Counting
// ---------------------------------------------------------------------------

/// What has been counted since the last report.
#[derive(Debug, Clone, Copy, PartialEq, Eq, Structural)]
pub struct CaptureTally {
    pub seen: u64,
    pub parsed: u64,
    pub unparsed: u64,
    pub bad_timestamps: u64,
}

impl CaptureTally {
    /// Every packet is either parsed or not, and none with a bad time is
    /// parsed.
    pub open spec fn wf(self) -> bool {
        &&& self.parsed + self.unparsed == self.seen
        &&& self.bad_timestamps <= self.unparsed
    }

    /// The tally after one more outcome.
    pub open spec fn with(self, outcome: CaptureOutcome) -> CaptureTally {
        match outcome {
            CaptureOutcome::Event(_) => CaptureTally {
                seen: (self.seen + 1) as u64,
                parsed: (self.parsed + 1) as u64,
                ..self
            },
            CaptureOutcome::BadTimestamp => CaptureTally {
                seen: (self.seen + 1) as u64,
                unparsed: (self.unparsed + 1) as u64,
                bad_timestamps: (self.bad_timestamps + 1) as u64,
                ..self
            },
            CaptureOutcome::Unparsed => CaptureTally {
                seen: (self.seen + 1) as u64,
                unparsed: (self.unparsed + 1) as u64,
                ..self
            },
        }
    }

    pub fn new() -> (r: Self)
        ensures
            r == (CaptureTally { seen: 0, parsed: 0, unparsed: 0, bad_timestamps: 0 }),
            r.wf(),
    {
        CaptureTally { seen: 0, parsed: 0, unparsed: 0, bad_timestamps: 0 }
    }

    /// Count an outcome.
    pub fn count(&mut self, outcome: &CaptureOutcome)
        requires
            old(self).wf(),
            old(self).seen < u64::MAX,
        ensures
            *final(self) == old(self).with(*outcome),
            final(self).wf(),
    {
        self.seen = self.seen + 1;
        match outcome {
            CaptureOutcome::Event(_) => {
                self.parsed = self.parsed + 1;
            },
            CaptureOutcome::BadTimestamp => {
                self.unparsed = self.unparsed + 1;
                self.bad_timestamps = self.bad_timestamps + 1;
            },
            CaptureOutcome::Unparsed => {
                self.unparsed = self.unparsed + 1;
            },
        }
    }
}

/// A lane after more packets.
pub open spec fn lane_with_packets(l: LaneCounters, t: CaptureTally) -> LaneCounters {
    LaneCounters {
        packets_seen: plus(l.packets_seen, t.seen as nat),
        packets_parsed: plus(l.packets_parsed, t.parsed as nat),
        packets_unparsed: plus(l.packets_unparsed, t.unparsed as nat),
        ..l
    }
}

/// A lane after more that the kernel has counted.
pub open spec fn lane_with_statistics(l: LaneCounters, s: PacketStatistics) -> LaneCounters {
    LaneCounters {
        kernel_packets: plus(l.kernel_packets, s.packets as nat),
        kernel_dropped_packets: plus(l.kernel_dropped_packets, s.drops as nat),
        kernel_queue_freezes: plus(l.kernel_queue_freezes, s.queue_freezes as nat),
        ..l
    }
}

/// What the kernel has counted since it was last asked.
#[derive(Debug, Clone, Copy, PartialEq, Eq, Structural)]
pub struct PacketStatistics {
    pub packets: u32,
    pub drops: u32,
    pub queue_freezes: u32,
}

/// The lanes with one of them changed, if it is there.
pub open spec fn with_lane(
    lanes: Seq<LaneCounters>,
    lane: Option<usize>,
    change: spec_fn(LaneCounters) -> LaneCounters,
) -> Seq<LaneCounters> {
    match lane {
        Some(i) => if i < lanes.len() {
            lanes.update(i as int, change(lanes[i as int]))
        } else {
            lanes
        },
        None => lanes,
    }
}

/// What became of an event that was offered to its queue.
#[derive(Clone, Copy, Debug, PartialEq, Eq, Structural)]
pub enum Delivery {
    Sent,
    /// The queue had no room.
    Full,
    /// Nobody takes events any more.
    Closed,
}

impl Delivery {
    /// Whether the event counts as dropped: capture never waits for room.
    pub fn is_drop(self) -> (r: bool)
        ensures
            r <==> self == Delivery::Full,
    {
        matches!(self, Delivery::Full)
    }

    /// Whether capture goes on: a full queue does not end it.
    pub fn goes_on(self) -> (r: bool)
        ensures
            r <==> self != Delivery::Closed,
    {
        !matches!(self, Delivery::Closed)
    }
}

impl PublishedState {
    /// Add what was captured, to a lane too where there is one.
    pub fn record_packets(&mut self, t: CaptureTally, lane: Option<usize>)
        ensures
            final(self).lanes@ == with_lane(
                old(self).lanes@,
                lane,
                |l: LaneCounters| lane_with_packets(l, t),
            ),
            *final(self) == (PublishedState {
                counters: AgentCounters {
                    packets_seen: plus(old(self).counters.packets_seen, t.seen as nat),
                    packets_parsed: plus(old(self).counters.packets_parsed, t.parsed as nat),
                    packets_unparsed: plus(old(self).counters.packets_unparsed, t.unparsed as nat),
                    invalid_timestamps: plus(
                        old(self).counters.invalid_timestamps,
                        t.bad_timestamps as nat,
                    ),
                    ..old(self).counters
                },
                lanes: final(self).lanes,
                ..*old(self)
            }),
    {
        self.counters.packets_seen = raise(self.counters.packets_seen, t.seen);
        self.counters.packets_parsed = raise(self.counters.packets_parsed, t.parsed);
        self.counters.packets_unparsed = raise(self.counters.packets_unparsed, t.unparsed);
        self.counters.invalid_timestamps = raise(
            self.counters.invalid_timestamps,
            t.bad_timestamps,
        );
        if let Some(i) = lane {
            if i < self.lanes.len() {
                let mut l = self.lanes[i];
                l.packets_seen = raise(l.packets_seen, t.seen);
                l.packets_parsed = raise(l.packets_parsed, t.parsed);
                l.packets_unparsed = raise(l.packets_unparsed, t.unparsed);
                self.lanes.set(i, l);
            }
        }
    }

    /// Add what the kernel has counted.
    pub fn record_statistics(&mut self, s: PacketStatistics, lane: Option<usize>)
        ensures
            final(self).lanes@ == with_lane(
                old(self).lanes@,
                lane,
                |l: LaneCounters| lane_with_statistics(l, s),
            ),
            *final(self) == (PublishedState {
                counters: AgentCounters {
                    kernel_packets: plus(old(self).counters.kernel_packets, s.packets as nat),
                    kernel_dropped_packets: plus(
                        old(self).counters.kernel_dropped_packets,
                        s.drops as nat,
                    ),
                    kernel_queue_freezes: plus(
                        old(self).counters.kernel_queue_freezes,
                        s.queue_freezes as nat,
                    ),
                    ..old(self).counters
                },
                lanes: final(self).lanes,
                ..*old(self)
            }),
    {
        self.counters.kernel_packets = raise(self.counters.kernel_packets, s.packets as u64);
        self.counters.kernel_dropped_packets = raise(
            self.counters.kernel_dropped_packets,
            s.drops as u64,
        );
        self.counters.kernel_queue_freezes = raise(
            self.counters.kernel_queue_freezes,
            s.queue_freezes as u64,
        );
        if let Some(i) = lane {
            if i < self.lanes.len() {
                let mut l = self.lanes[i];
                l.kernel_packets = raise(l.kernel_packets, s.packets as u64);
                l.kernel_dropped_packets = raise(l.kernel_dropped_packets, s.drops as u64);
                l.kernel_queue_freezes = raise(l.kernel_queue_freezes, s.queue_freezes as u64);
                self.lanes.set(i, l);
            }
        }
    }

    /// Take over the counters of the traffic-control program.
    pub fn record_collector(&mut self, c: TcCollectorCounters)
        ensures
            *final(self) == (PublishedState {
                counters: AgentCounters {
                    ebpf_packets: c.packets,
                    ebpf_events_emitted: c.emitted,
                    ebpf_ring_dropped_events: c.ring_drops,
                    ebpf_parse_errors: c.parse_errors,
                    ebpf_unsupported_packets: c.unsupported,
                    ..old(self).counters
                },
                ..*old(self)
            }),
    {
        self.counters.ebpf_packets = c.packets;
        self.counters.ebpf_events_emitted = c.emitted;
        self.counters.ebpf_ring_dropped_events = c.ring_drops;
        self.counters.ebpf_parse_errors = c.parse_errors;
        self.counters.ebpf_unsupported_packets = c.unsupported;
    }

    /// Count an event that found its queue full.
    pub fn record_drop(&mut self, lane: Option<usize>)
        ensures
            final(self).lanes@ == with_lane(
                old(self).lanes@,
                lane,
                |l: LaneCounters|
                    LaneCounters {
                        userspace_dropped_events: plus(l.userspace_dropped_events, 1),
                        ..l
                    },
            ),
            *final(self) == (PublishedState {
                counters: AgentCounters {
                    dropped_events: plus(old(self).counters.dropped_events, 1),
                    ..old(self).counters
                },
                lanes: final(self).lanes,
                ..*old(self)
            }),
    {
        self.counters.dropped_events = raise(self.counters.dropped_events, 1);
        if let Some(i) = lane {
            if i < self.lanes.len() {
                let mut l = self.lanes[i];
                l.userspace_dropped_events = raise(l.userspace_dropped_events, 1);
                self.lanes.set(i, l);
            }
        }
    }

    /// Count a batch that a worker has processed.
    pub fn record_batch(&mut self, events: u64, lane: Option<usize>)
        ensures
            final(self).lanes@ == with_lane(
                old(self).lanes@,
                lane,
                |l: LaneCounters|
                    LaneCounters { events_processed: plus(l.events_processed, events as nat), ..l },
            ),
            *final(self) == (PublishedState {
                counters: AgentCounters {
                    events_processed: plus(old(self).counters.events_processed, events as nat),
                    runtime_batches: plus(old(self).counters.runtime_batches, 1),
                    ..old(self).counters
                },
                lanes: final(self).lanes,
                ..*old(self)
            }),
    {
        self.counters.events_processed = raise(self.counters.events_processed, events);
        self.counters.runtime_batches = raise(self.counters.runtime_batches, 1);
        if let Some(i) = lane {
            if i < self.lanes.len() {
                let mut l = self.lanes[i];
                l.events_processed = raise(l.events_processed, events);
                self.lanes.set(i, l);
            }
        }
    }

    /// Note the size of the rings of all lanes.
    pub fn record_ring_shape(&mut self, ring_bytes: u64, blocks: u64, block_bytes: u64, lanes: u64)
        ensures
            *final(self) == (PublishedState {
                counters: AgentCounters {
                    capture_ring_bytes: capped_product(ring_bytes, lanes),
                    capture_ring_blocks: capped_product(blocks, lanes),
                    capture_block_size_bytes: block_bytes,
                    ..old(self).counters
                },
                ..*old(self)
            }),
    {
        self.counters.capture_ring_bytes = product(ring_bytes, lanes);
        self.counters.capture_ring_blocks = product(blocks, lanes);
        self.counters.capture_block_size_bytes = block_bytes;
    }
}

/// A product, or the largest number if it is larger.
pub open spec fn capped_product(a: u64, b: u64) -> u64 {
    if a as nat * b as nat > u64::MAX {
        u64::MAX
    } else {
        (a as nat * b as nat) as u64
    }
}

fn product(a: u64, b: u64) -> (r: u64)
    ensures
        r == capped_product(a, b),
{
    assert(a as nat * b as nat <= u64::MAX as nat * u64::MAX as nat) by (nonlinear_arith)
        requires
            a <= u64::MAX,
            b <= u64::MAX,
    ;
    let p: u128 = a as u128 * b as u128;
    if p > u64::MAX as u128 {
        u64::MAX
    } else {
        p as u64
    }
}

// ---------------------------------------------------------------------------
// Lanes
// ---------------------------------------------------------------------------

/// Check that a source that does not fan out has one queue.
pub fn check_single_sender(senders: usize) -> (r: Result<(), AgentError>)
    ensures
        is_verdict(
            r,
            if senders == 1 {
                None
            } else {
                Some(
                    "capture source received "@ + dec(senders as nat)
                        + " event senders; expected one"@,
                )
            },
        ),
{
    if senders == 1 {
        return Ok(());
    }
    let mut m = "capture source received ".to_owned();
    push_decimal(&mut m, senders as u64);
    m.append(" event senders; expected one");
    Err(AgentError::Config(m))
}

/// What is wrong with the queues of lanes: one for each, in their order.
pub open spec fn senders_fault(lanes: nat, senders: Seq<usize>) -> Option<Seq<char>> {
    if senders.len() != lanes {
        Some(
            "AF_PACKET fan-out has "@ + dec(lanes) + " lanes but "@ + dec(senders.len())
                + " queue-local senders"@,
        )
    } else {
        misplaced(senders, 0)
    }
}

/// The first queue from `i` on that belongs to another lane.
pub open spec fn misplaced(senders: Seq<usize>, i: nat) -> Option<Seq<char>>
    decreases senders.len() - i,
{
    if i >= senders.len() {
        None
    } else if senders[i as int] != i {
        Some(
            "AF_PACKET capture lane "@ + dec(i) + " received queue-local sender "@ + dec(
                senders[i as int] as nat,
            ),
        )
    } else {
        misplaced(senders, i + 1)
    }
}

/// Check that every lane has its own queue.
pub fn check_lane_senders(lanes: usize, senders: &[usize]) -> (r: Result<(), AgentError>)
    ensures
        is_verdict(r, senders_fault(lanes as nat, senders@)),
{
    if senders.len() != lanes {
        let mut m = "AF_PACKET fan-out has ".to_owned();
        push_decimal(&mut m, lanes as u64);
        m.append(" lanes but ");
        push_decimal(&mut m, senders.len() as u64);
        m.append(" queue-local senders");
        return Err(AgentError::Config(m));
    }
    let mut i: usize = 0;
    while i < senders.len()
        invariant
            i <= senders@.len(),
            senders@.len() == lanes,
            misplaced(senders@, i as nat) == misplaced(senders@, 0),
        decreases senders@.len() - i,
    {
        if senders[i] != i {
            let mut m = "AF_PACKET capture lane ".to_owned();
            push_decimal(&mut m, i as u64);
            m.append(" received queue-local sender ");
            push_decimal(&mut m, senders[i] as u64);
            return Err(AgentError::Config(m));
        }
        i += 1;
    }
    Ok(())
}

/// What all lanes together come to: the first failure that was reported, else
/// a lane that panicked.
pub open spec fn is_fanout_result(
    outcomes: Seq<Result<(), AgentError>>,
    panicked: Option<usize>,
    r: Result<(), AgentError>,
) -> bool
    decreases outcomes.len(),
{
    if outcomes.len() == 0 {
        match panicked {
            Some(lane) => r matches Err(AgentError::Source(m)) && m@ == "AF_PACKET fan-out lane "@
                + dec(lane as nat) + " panicked"@,
            None => r is Ok,
        }
    } else if outcomes[0] is Err {
        r == outcomes[0]
    } else {
        is_fanout_result(outcomes.drop_first(), panicked, r)
    }
}

/// What all lanes together come to.
pub fn fanout_result(outcomes: Vec<Result<(), AgentError>>, panicked: Option<usize>) -> (r: Result<
    (),
    AgentError,
>)
    ensures
        is_fanout_result(outcomes@, panicked, r),
{
    let ghost all = outcomes@;
    let mut rest = reversed(outcomes);
    let ghost mut k: int = 0;
    assert(all.skip(0) =~= all);
    while rest.len() > 0
        invariant
            0 <= k <= all.len(),
            all == outcomes@,
            rest@ == all.skip(k).reverse(),
            forall|r: Result<(), AgentError>| #[trigger]
                is_fanout_result(all.skip(k), panicked, r) ==> is_fanout_result(all, panicked, r),
        decreases rest@.len(),
    {
        let ghost here = all.skip(k);
        assert(rest@.last() == here[0]);
        if let Some(outcome) = rest.pop() {
            if outcome.is_err() {
                assert(is_fanout_result(here, panicked, outcome));
                return outcome;
            }
            assert(here.drop_first() =~= all.skip(k + 1));
            assert forall|r: Result<(), AgentError>| #[trigger]
                is_fanout_result(all.skip(k + 1), panicked, r) implies is_fanout_result(
                all,
                panicked,
                r,
            ) by {
                assert(is_fanout_result(here, panicked, r));
            }
        }
        proof {
            assert(rest@ =~= all.skip(k + 1).reverse());
            k = k + 1;
        }
    }
    let r: Result<(), AgentError> = match panicked {
        Some(lane) => {
            let mut m = "AF_PACKET fan-out lane ".to_owned();
            push_decimal(&mut m, lane as u64);
            m.append(" panicked");
            Err(AgentError::Source(m))
        },
        None => Ok(()),
    };
    assert(is_fanout_result(all.skip(k), panicked, r));
    r
}

/// The source that takes over where the traffic-control program has failed and
/// a fallback is asked for: one plain packet socket on the same interface.
pub fn fallback_source(interface: String) -> (r: SourceConfig)
    ensures
        r == (SourceConfig::AfPacket {
            interface,
            ring_block_size_bytes: DEFAULT_RING_BLOCK_SIZE_BYTES,
            ring_block_count: DEFAULT_RING_BLOCK_COUNT,
            block_retire_timeout_ms: DEFAULT_BLOCK_RETIRE_TIMEOUT_MS,
            fanout_mode: AfPacketFanoutMode::Single,
            fanout_group: 0,
        }),
{
    SourceConfig::AfPacket {
        interface,
        ring_block_size_bytes: DEFAULT_RING_BLOCK_SIZE_BYTES,
        ring_block_count: DEFAULT_RING_BLOCK_COUNT,
        block_retire_timeout_ms: DEFAULT_BLOCK_RETIRE_TIMEOUT_MS,
        fanout_mode: AfPacketFanoutMode::Single,
        fanout_group: 0,
    }
}

// ---------------------------------------------------------------------------
// Laws
// ---------------------------------------------------------------------------

/// No event has a time that is not believed.
pub proof fn law_events_are_contemporary(
    link: u32,
    packet: Seq<u8>,
    wire_len: u32,
    timestamp: u64,
    record: EbpfFlowEvent,
    offset: int,
    bounds: LiveTimestampBounds,
)
    ensures
        packet_outcome(link, packet, wire_len, timestamp, bounds) matches CaptureOutcome::Event(e)
            ==> bounds.believes(e.ts_nanos),
        record_outcome(record, offset, bounds) matches CaptureOutcome::Event(e) ==> bounds.believes(
            e.ts_nanos,
        ),
{
}

/// All packets that were seen were parsed or were not.
pub open spec fn is_accounted(c: AgentCounters) -> bool {
    c.packets_seen == plus(c.packets_parsed, c.packets_unparsed as nat)
}

/// Packets seen by all lanes, each number once.
pub open spec fn lanes_seen(lanes: Seq<LaneCounters>) -> nat
    decreases lanes.len(),
{
    if lanes.len() == 0 {
        0
    } else {
        lanes_seen(lanes.drop_last()) + lanes.last().packets_seen as nat
    }
}

proof fn lemma_lanes_seen_update(lanes: Seq<LaneCounters>, i: int, l: LaneCounters)
    requires
        0 <= i < lanes.len(),
    ensures
        lanes_seen(lanes.update(i, l)) + lanes[i].packets_seen == lanes_seen(lanes)
            + l.packets_seen,
    decreases lanes.len(),
{
    let after = lanes.update(i, l);
    if i == lanes.len() - 1 {
        assert(after.drop_last() =~= lanes.drop_last());
    } else {
        assert(after.drop_last() =~= lanes.drop_last().update(i, l));
        lemma_lanes_seen_update(lanes.drop_last(), i, l);
    }
}

proof fn lemma_same_remainder(a: int, b: int, k: int)
    requires
        a == b + k * 0x1_0000_0000_0000_0000,
    ensures
        a % 0x1_0000_0000_0000_0000 == b % 0x1_0000_0000_0000_0000,
{
    vstd::arithmetic::div_mod::lemma_mod_multiples_vanish(k, b, 0x1_0000_0000_0000_0000);
}

/// Capture loses sight of no packet: reporting a tally keeps every packet
/// either parsed or not, and keeps what the lanes have seen adding up to what
/// the agent has seen.
pub proof fn law_capture_is_accounted_for(
    before: PublishedState,
    t: CaptureTally,
    lane: usize,
    after: PublishedState,
)
    requires
        t.wf(),
        lane < before.lanes@.len(),
        after.lanes@ == with_lane(
            before.lanes@,
            Some(lane),
            |l: LaneCounters| lane_with_packets(l, t),
        ),
        after.counters.packets_seen == plus(before.counters.packets_seen, t.seen as nat),
        after.counters.packets_parsed == plus(before.counters.packets_parsed, t.parsed as nat),
        after.counters.packets_unparsed == plus(
            before.counters.packets_unparsed,
            t.unparsed as nat,
        ),
    ensures
        is_accounted(before.counters) ==> is_accounted(after.counters),
        before.counters.packets_seen == plus(0, lanes_seen(before.lanes@))
            ==> after.counters.packets_seen == plus(0, lanes_seen(after.lanes@)),
{
    let b = before.counters;
    let a = after.counters;
    let m = 0x1_0000_0000_0000_0000int;
    let seen = b.packets_seen + t.seen;
    let parsed = b.packets_parsed + t.parsed;
    let unparsed = b.packets_unparsed + t.unparsed;
    if is_accounted(b) {
        let both = b.packets_parsed + b.packets_unparsed;
        let k = both / m - parsed / m - unparsed / m;
        assert(both == b.packets_seen + (both / m) * m);
        assert(parsed == a.packets_parsed + (parsed / m) * m);
        assert(unparsed == a.packets_unparsed + (unparsed / m) * m);
        assert(a.packets_parsed + a.packets_unparsed == seen + k * m);
        lemma_same_remainder(a.packets_parsed + a.packets_unparsed, seen, k);
    }
    let l = before.lanes@[lane as int];
    let changed = lane_with_packets(l, t);
    lemma_lanes_seen_update(before.lanes@, lane as int, changed);
    let total = lanes_seen(before.lanes@) as int;
    if b.packets_seen == plus(0, lanes_seen(before.lanes@)) {
        let of_lane = l.packets_seen + t.seen;
        assert(of_lane == changed.packets_seen + (of_lane / m) * m);
        assert(total == b.packets_seen + (total / m) * m);
        let k = total / m - of_lane / m;
        assert(lanes_seen(after.lanes@) == seen + k * m);
        lemma_same_remainder(lanes_seen(after.lanes@) as int, seen, k);
    }
}

/// A fallback is a source that passes every check of settings for one shard.
pub proof fn law_fallback_is_valid(source: SourceConfig, interface: String)
    requires
        source == (SourceConfig::AfPacket {
            interface,
            ring_block_size_bytes: DEFAULT_RING_BLOCK_SIZE_BYTES,
            ring_block_count: DEFAULT_RING_BLOCK_COUNT,
            block_retire_timeout_ms: DEFAULT_BLOCK_RETIRE_TIMEOUT_MS,
            fanout_mode: AfPacketFanoutMode::Single,
            fanout_group: 0,
        }),
        interface_fault(interface@, "af_packet"@) is None,
    ensures
        source_fault(source, 1, RuntimeShardStrategy::Flow) is None,
{
    vstd::arithmetic::power2::lemma2_to64();
    assert(DEFAULT_RING_BLOCK_SIZE_BYTES as nat == vstd::arithmetic::power2::pow2(20));
    assert(DEFAULT_RING_BLOCK_SIZE_BYTES as nat * DEFAULT_RING_BLOCK_COUNT as nat * 1
        == 67_108_864);
}

} // verus!
