//! What the agent publishes: the newest estimates, how queries are exported,
//! and its own health.

use vstd::prelude::*;
use vstd::string::*;

use crate::agent::config::CpuAffinityConfig;
use crate::agent::latest::{keep_newest, one_window_each, with_estimates};
use crate::estimate::SketchEstimate;
use crate::field::undotted;
use crate::ir::logical::{humanize_nanos, humanized, Measure};
use crate::metrics::{
    push_header, push_labelled, push_metric, with_header, with_labelled, with_metric, MetricKind,
};
use crate::otel::encode::QueryMeta;
use crate::planner::{Plan, ShownNumbers};
use crate::prometheus::QueryExportInfo;
use crate::text::{dec, decimal, push_decimal};

verus! {

// ---------------------------------------------------------------------------
// Queries
// ---------------------------------------------------------------------------

/// What is shown of a query.
#[derive(Debug, Clone)]
pub struct QueryInfo {
    pub name: String,
    pub algorithm: String,
    pub window: String,
    pub error_kind: String,
    pub error_contract: String,
    pub estimated_memory_bytes: u64,
    pub max_series: usize,
    pub window_size_nanos: u64,
    /// What the estimates of the query count.
    pub otlp_unit: String,
}

/// What the number estimated for a measure counts.
pub open spec fn unit_text(measure: Measure) -> Seq<char> {
    match measure {
        Measure::Count => "count"@,
        Measure::Sum { value } => undotted(value.text()),
        Measure::HeavyHitters { value, .. } => undotted(value.text()),
        Measure::DistinctCount { .. } => "distinct"@,
        Measure::Entropy { .. } => "entropy"@,
        Measure::Quantile { .. } => "quantile"@,
    }
}

/// What the number estimated for a measure counts.
pub fn otlp_unit(measure: &Measure) -> (r: String)
    ensures
        r@ == unit_text(*measure),
{
    match measure {
        Measure::Count => "count".to_owned(),
        Measure::Sum { value } => value.label_name(),
        Measure::HeavyHitters { value, .. } => value.label_name(),
        Measure::DistinctCount { .. } => "distinct".to_owned(),
        Measure::Entropy { .. } => "entropy".to_owned(),
        Measure::Quantile { .. } => "quantile".to_owned(),
    }
}

impl QueryInfo {
    /// Whether this is what is shown of a plan.
    pub open spec fn describes(self, plan: Plan, shown: ShownNumbers) -> bool {
        &&& self.name@ == plan.query.name@
        &&& self.algorithm@ == plan.physical.sketch.text()
        &&& self.window@ == humanized(plan.query.window.size_nanos as nat)
        &&& self.error_kind@ == plan.physical.error_kind.text()
        &&& self.error_contract@ == plan.physical.error_contract.text(shown)
        &&& self.estimated_memory_bytes == plan.physical.estimated_memory_bytes
        &&& self.max_series == plan.query.export.max_series
        &&& self.window_size_nanos == plan.query.window.size_nanos
        &&& self.otlp_unit@ == unit_text(plan.query.measure)
    }

    /// What is shown of a plan. `shown` holds its numbers as text.
    pub fn of(plan: &Plan, shown: &ShownNumbers) -> (r: Self)
        ensures
            r.describes(*plan, *shown),
    {
        QueryInfo {
            name: plan.query.name.as_str().to_owned(),
            algorithm: plan.physical.sketch.algorithm_name(),
            window: humanize_nanos(plan.query.window.size_nanos),
            error_kind: plan.physical.error_kind.name().to_owned(),
            error_contract: plan.physical.error_contract.describe(shown),
            estimated_memory_bytes: plan.physical.estimated_memory_bytes,
            max_series: plan.query.export.max_series,
            window_size_nanos: plan.query.window.size_nanos,
            otlp_unit: otlp_unit(&plan.query.measure),
        }
    }

    /// How the query is exported as Prometheus text.
    pub fn export_info(&self) -> (r: (String, QueryExportInfo))
        ensures
            r.0@ == self.name@,
            r.1.error_kind@ == self.error_kind@,
            r.1.max_series == self.max_series,
            r.1.window_size_nanos == self.window_size_nanos,
    {
        (
            self.name.as_str().to_owned(),
            QueryExportInfo {
                error_kind: self.error_kind.as_str().to_owned(),
                max_series: self.max_series,
                window_size_nanos: self.window_size_nanos,
            },
        )
    }

    /// What the OTLP exporter knows of the query.
    pub fn otlp_meta(&self) -> (r: (String, QueryMeta))
        ensures
            r.0@ == self.name@,
            r.1.unit@ == self.otlp_unit@,
            r.1.window@ == self.window@,
            r.1.error_kind@ == self.error_kind@,
    {
        (
            self.name.as_str().to_owned(),
            QueryMeta {
                unit: self.otlp_unit.as_str().to_owned(),
                window: self.window.as_str().to_owned(),
                error_kind: self.error_kind.as_str().to_owned(),
            },
        )
    }
}

// ---------------------------------------------------------------------------
// Counters
// ---------------------------------------------------------------------------

/// What the agent counts.
#[derive(Debug, Clone, Copy, PartialEq, Eq, Structural)]
pub struct AgentCounters {
    pub events_processed: u64,
    pub packets_seen: u64,
    pub packets_parsed: u64,
    pub packets_unparsed: u64,
    pub kernel_packets: u64,
    pub kernel_dropped_packets: u64,
    pub kernel_queue_freezes: u64,
    pub ebpf_packets: u64,
    pub ebpf_events_emitted: u64,
    pub ebpf_ring_dropped_events: u64,
    pub ebpf_parse_errors: u64,
    pub ebpf_unsupported_packets: u64,
    pub ebpf_fallbacks: u64,
    pub dropped_events: u64,
    pub late_events: u64,
    pub sketch_memory_bytes: u64,
    pub otlp_exports: u64,
    pub otlp_failures: u64,
    pub gateway_pushes: u64,
    pub gateway_push_failures: u64,
    pub runtime_batches: u64,
    pub capture_ring_bytes: u64,
    pub capture_ring_blocks: u64,
    pub capture_block_size_bytes: u64,
    pub ebpf_ring_bytes: u64,
    /// Packets and records whose time was too far from the clock.
    pub invalid_timestamps: u64,
}

pub open spec fn no_counts() -> AgentCounters {
    AgentCounters {
        events_processed: 0,
        packets_seen: 0,
        packets_parsed: 0,
        packets_unparsed: 0,
        kernel_packets: 0,
        kernel_dropped_packets: 0,
        kernel_queue_freezes: 0,
        ebpf_packets: 0,
        ebpf_events_emitted: 0,
        ebpf_ring_dropped_events: 0,
        ebpf_parse_errors: 0,
        ebpf_unsupported_packets: 0,
        ebpf_fallbacks: 0,
        dropped_events: 0,
        late_events: 0,
        sketch_memory_bytes: 0,
        otlp_exports: 0,
        otlp_failures: 0,
        gateway_pushes: 0,
        gateway_push_failures: 0,
        runtime_batches: 0,
        capture_ring_bytes: 0,
        capture_ring_blocks: 0,
        capture_block_size_bytes: 0,
        ebpf_ring_bytes: 0,
        invalid_timestamps: 0,
    }
}

impl AgentCounters {
    pub fn new() -> (r: Self)
        ensures
            r == no_counts(),
    {
        AgentCounters {
            events_processed: 0,
            packets_seen: 0,
            packets_parsed: 0,
            packets_unparsed: 0,
            kernel_packets: 0,
            kernel_dropped_packets: 0,
            kernel_queue_freezes: 0,
            ebpf_packets: 0,
            ebpf_events_emitted: 0,
            ebpf_ring_dropped_events: 0,
            ebpf_parse_errors: 0,
            ebpf_unsupported_packets: 0,
            ebpf_fallbacks: 0,
            dropped_events: 0,
            late_events: 0,
            sketch_memory_bytes: 0,
            otlp_exports: 0,
            otlp_failures: 0,
            gateway_pushes: 0,
            gateway_push_failures: 0,
            runtime_batches: 0,
            capture_ring_bytes: 0,
            capture_ring_blocks: 0,
            capture_block_size_bytes: 0,
            ebpf_ring_bytes: 0,
            invalid_timestamps: 0,
        }
    }
}

/// What is counted for a lane that hands packets to its own worker.
#[derive(Debug, Clone, Copy, PartialEq, Eq, Structural)]
pub struct LaneCounters {
    /// Events that the queue of the lane holds at most.
    pub channel_capacity: u64,
    pub packets_seen: u64,
    pub packets_parsed: u64,
    pub packets_unparsed: u64,
    pub kernel_packets: u64,
    pub kernel_dropped_packets: u64,
    pub kernel_queue_freezes: u64,
    pub userspace_dropped_events: u64,
    pub events_processed: u64,
}

pub open spec fn new_lane(capacity: u64) -> LaneCounters {
    LaneCounters {
        channel_capacity: capacity,
        packets_seen: 0,
        packets_parsed: 0,
        packets_unparsed: 0,
        kernel_packets: 0,
        kernel_dropped_packets: 0,
        kernel_queue_freezes: 0,
        userspace_dropped_events: 0,
        events_processed: 0,
    }
}

impl LaneCounters {
    pub fn new(capacity: u64) -> (r: Self)
        ensures
            r == new_lane(capacity),
    {
        LaneCounters {
            channel_capacity: capacity,
            packets_seen: 0,
            packets_parsed: 0,
            packets_unparsed: 0,
            kernel_packets: 0,
            kernel_dropped_packets: 0,
            kernel_queue_freezes: 0,
            userspace_dropped_events: 0,
            events_processed: 0,
        }
    }
}

// ---------------------------------------------------------------------------
// Health
// ---------------------------------------------------------------------------

/// A text followed by the counters of capture.
pub open spec fn with_capture_counters(before: Seq<char>, c: AgentCounters) -> Seq<char> {
    let counter = MetricKind::Counter;
    let t = with_metric(
        before,
        "flowsketch_agent_events_processed_total"@,
        "Flow events processed by the sketch engine."@,
        counter,
        c.events_processed as nat,
    );
    let t = with_metric(
        t,
        "flowsketch_agent_packets_seen_total"@,
        "Packets observed by the capture source."@,
        counter,
        c.packets_seen as nat,
    );
    let t = with_metric(
        t,
        "flowsketch_agent_packets_parsed_total"@,
        "Captured packets successfully converted into flow events."@,
        counter,
        c.packets_parsed as nat,
    );
    let t = with_metric(
        t,
        "flowsketch_agent_packets_unparsed_total"@,
        "Captured packets skipped because they are unsupported or malformed."@,
        counter,
        c.packets_unparsed as nat,
    );
    let t = with_metric(
        t,
        "flowsketch_agent_kernel_packets_total"@,
        "Packets accepted by the Linux AF_PACKET socket, including packets later dropped from the receive ring."@,
        counter,
        c.kernel_packets as nat,
    );
    let t = with_metric(
        t,
        "flowsketch_agent_kernel_dropped_packets_total"@,
        "Packets dropped by the Linux AF_PACKET receive ring before userspace consumed them."@,
        counter,
        c.kernel_dropped_packets as nat,
    );
    let t = with_metric(
        t,
        "flowsketch_agent_kernel_queue_freezes_total"@,
        "Times the Linux TPACKET_V3 receive queue froze because no ring block was available."@,
        counter,
        c.kernel_queue_freezes as nat,
    );
    let t = with_metric(
        t,
        "flowsketch_agent_ebpf_packets_total"@,
        "Packets presented to the FlowSketch tc eBPF program."@,
        counter,
        c.ebpf_packets as nat,
    );
    let t = with_metric(
        t,
        "flowsketch_agent_ebpf_events_emitted_total"@,
        "Flow events successfully submitted to the eBPF ring buffer."@,
        counter,
        c.ebpf_events_emitted as nat,
    );
    let t = with_metric(
        t,
        "flowsketch_agent_ebpf_ring_dropped_events_total"@,
        "Flow events dropped because the eBPF ring buffer had no space."@,
        counter,
        c.ebpf_ring_dropped_events as nat,
    );
    with_metric(
        t,
        "flowsketch_agent_ebpf_parse_errors_total"@,
        "Malformed or truncated packets rejected by the tc eBPF parser."@,
        counter,
        c.ebpf_parse_errors as nat,
    )
}

/// A text followed by the counters of what comes after capture.
pub open spec fn with_runtime_counters(before: Seq<char>, c: AgentCounters) -> Seq<char> {
    let counter = MetricKind::Counter;
    let gauge = MetricKind::Gauge;
    let t = with_metric(
        before,
        "flowsketch_agent_ebpf_unsupported_packets_total"@,
        "Packets intentionally skipped by the tc eBPF parser."@,
        counter,
        c.ebpf_unsupported_packets as nat,
    );
    let t = with_metric(
        t,
        "flowsketch_agent_ebpf_fallbacks_total"@,
        "Explicit transitions from failed eBPF capture to AF_PACKET fallback."@,
        counter,
        c.ebpf_fallbacks as nat,
    );
    let t = with_metric(
        t,
        "flowsketch_agent_dropped_events_total"@,
        "Parsed events dropped in userspace because the engine channel was full."@,
        counter,
        c.dropped_events as nat,
    );
    let t = with_metric(
        t,
        "flowsketch_agent_late_events_total"@,
        "Events older than the earliest open window bucket."@,
        counter,
        c.late_events as nat,
    );
    let t = with_metric(
        t,
        "flowsketch_agent_sketch_memory_bytes"@,
        "Bytes held by sketches across all queries and buckets."@,
        gauge,
        c.sketch_memory_bytes as nat,
    );
    let t = with_metric(
        t,
        "flowsketch_agent_otlp_exports_total"@,
        "Successful OTLP metric exports."@,
        counter,
        c.otlp_exports as nat,
    );
    let t = with_metric(
        t,
        "flowsketch_agent_otlp_export_failures_total"@,
        "OTLP exports that failed after retries."@,
        counter,
        c.otlp_failures as nat,
    );
    let t = with_metric(
        t,
        "flowsketch_agent_gateway_pushes_total"@,
        "Successful snapshot pushes to the gateway."@,
        counter,
        c.gateway_pushes as nat,
    );
    let t = with_metric(
        t,
        "flowsketch_agent_gateway_push_failures_total"@,
        "Snapshot pushes that failed after retries."@,
        counter,
        c.gateway_push_failures as nat,
    );
    with_metric(
        t,
        "flowsketch_agent_runtime_batches_total"@,
        "Event batches dispatched to runtime shards."@,
        counter,
        c.runtime_batches as nat,
    )
}

/// A text followed by the sizes of the rings.
pub open spec fn with_rings(before: Seq<char>, c: AgentCounters) -> Seq<char> {
    let gauge = MetricKind::Gauge;
    let t = with_metric(
        before,
        "flowsketch_agent_capture_ring_bytes"@,
        "Bytes configured for the Linux TPACKET_V3 receive ring."@,
        gauge,
        c.capture_ring_bytes as nat,
    );
    let t = with_metric(
        t,
        "flowsketch_agent_capture_ring_blocks"@,
        "Blocks configured in the Linux TPACKET_V3 receive ring."@,
        gauge,
        c.capture_ring_blocks as nat,
    );
    let t = with_metric(
        t,
        "flowsketch_agent_capture_block_size_bytes"@,
        "Bytes in each Linux TPACKET_V3 receive-ring block."@,
        gauge,
        c.capture_block_size_bytes as nat,
    );
    with_metric(
        t,
        "flowsketch_agent_ebpf_ring_bytes"@,
        "Bytes configured for the tc eBPF event ring buffer."@,
        gauge,
        c.ebpf_ring_bytes as nat,
    )
}

fn push_capture_counters(out: &mut String, c: AgentCounters)
    ensures
        final(out)@ == with_capture_counters(old(out)@, c),
{
    push_metric(
        out,
        "flowsketch_agent_events_processed_total",
        "Flow events processed by the sketch engine.",
        MetricKind::Counter,
        c.events_processed,
    );
    push_metric(
        out,
        "flowsketch_agent_packets_seen_total",
        "Packets observed by the capture source.",
        MetricKind::Counter,
        c.packets_seen,
    );
    push_metric(
        out,
        "flowsketch_agent_packets_parsed_total",
        "Captured packets successfully converted into flow events.",
        MetricKind::Counter,
        c.packets_parsed,
    );
    push_metric(
        out,
        "flowsketch_agent_packets_unparsed_total",
        "Captured packets skipped because they are unsupported or malformed.",
        MetricKind::Counter,
        c.packets_unparsed,
    );
    push_metric(
        out,
        "flowsketch_agent_kernel_packets_total",
        "Packets accepted by the Linux AF_PACKET socket, including packets later dropped from the receive ring.",
        MetricKind::Counter,
        c.kernel_packets,
    );
    push_metric(
        out,
        "flowsketch_agent_kernel_dropped_packets_total",
        "Packets dropped by the Linux AF_PACKET receive ring before userspace consumed them.",
        MetricKind::Counter,
        c.kernel_dropped_packets,
    );
    push_metric(
        out,
        "flowsketch_agent_kernel_queue_freezes_total",
        "Times the Linux TPACKET_V3 receive queue froze because no ring block was available.",
        MetricKind::Counter,
        c.kernel_queue_freezes,
    );
    push_metric(
        out,
        "flowsketch_agent_ebpf_packets_total",
        "Packets presented to the FlowSketch tc eBPF program.",
        MetricKind::Counter,
        c.ebpf_packets,
    );
    push_metric(
        out,
        "flowsketch_agent_ebpf_events_emitted_total",
        "Flow events successfully submitted to the eBPF ring buffer.",
        MetricKind::Counter,
        c.ebpf_events_emitted,
    );
    push_metric(
        out,
        "flowsketch_agent_ebpf_ring_dropped_events_total",
        "Flow events dropped because the eBPF ring buffer had no space.",
        MetricKind::Counter,
        c.ebpf_ring_dropped_events,
    );
    push_metric(
        out,
        "flowsketch_agent_ebpf_parse_errors_total",
        "Malformed or truncated packets rejected by the tc eBPF parser.",
        MetricKind::Counter,
        c.ebpf_parse_errors,
    );
}

fn push_runtime_counters(out: &mut String, c: AgentCounters)
    ensures
        final(out)@ == with_runtime_counters(old(out)@, c),
{
    push_metric(
        out,
        "flowsketch_agent_ebpf_unsupported_packets_total",
        "Packets intentionally skipped by the tc eBPF parser.",
        MetricKind::Counter,
        c.ebpf_unsupported_packets,
    );
    push_metric(
        out,
        "flowsketch_agent_ebpf_fallbacks_total",
        "Explicit transitions from failed eBPF capture to AF_PACKET fallback.",
        MetricKind::Counter,
        c.ebpf_fallbacks,
    );
    push_metric(
        out,
        "flowsketch_agent_dropped_events_total",
        "Parsed events dropped in userspace because the engine channel was full.",
        MetricKind::Counter,
        c.dropped_events,
    );
    push_metric(
        out,
        "flowsketch_agent_late_events_total",
        "Events older than the earliest open window bucket.",
        MetricKind::Counter,
        c.late_events,
    );
    push_metric(
        out,
        "flowsketch_agent_sketch_memory_bytes",
        "Bytes held by sketches across all queries and buckets.",
        MetricKind::Gauge,
        c.sketch_memory_bytes,
    );
    push_metric(
        out,
        "flowsketch_agent_otlp_exports_total",
        "Successful OTLP metric exports.",
        MetricKind::Counter,
        c.otlp_exports,
    );
    push_metric(
        out,
        "flowsketch_agent_otlp_export_failures_total",
        "OTLP exports that failed after retries.",
        MetricKind::Counter,
        c.otlp_failures,
    );
    push_metric(
        out,
        "flowsketch_agent_gateway_pushes_total",
        "Successful snapshot pushes to the gateway.",
        MetricKind::Counter,
        c.gateway_pushes,
    );
    push_metric(
        out,
        "flowsketch_agent_gateway_push_failures_total",
        "Snapshot pushes that failed after retries.",
        MetricKind::Counter,
        c.gateway_push_failures,
    );
    push_metric(
        out,
        "flowsketch_agent_runtime_batches_total",
        "Event batches dispatched to runtime shards.",
        MetricKind::Counter,
        c.runtime_batches,
    );
}

fn push_rings(out: &mut String, c: AgentCounters)
    ensures
        final(out)@ == with_rings(old(out)@, c),
{
    push_metric(
        out,
        "flowsketch_agent_capture_ring_bytes",
        "Bytes configured for the Linux TPACKET_V3 receive ring.",
        MetricKind::Gauge,
        c.capture_ring_bytes,
    );
    push_metric(
        out,
        "flowsketch_agent_capture_ring_blocks",
        "Blocks configured in the Linux TPACKET_V3 receive ring.",
        MetricKind::Gauge,
        c.capture_ring_blocks,
    );
    push_metric(
        out,
        "flowsketch_agent_capture_block_size_bytes",
        "Bytes in each Linux TPACKET_V3 receive-ring block.",
        MetricKind::Gauge,
        c.capture_block_size_bytes,
    );
    push_metric(
        out,
        "flowsketch_agent_ebpf_ring_bytes",
        "Bytes configured for the tc eBPF event ring buffer.",
        MetricKind::Gauge,
        c.ebpf_ring_bytes,
    );
}

/// A text followed by one line for each capture CPU.
pub open spec fn with_capture_cpus(before: Seq<char>, cpus: Seq<usize>) -> Seq<char>
    decreases cpus.len(),
{
    if cpus.len() == 0 {
        before
    } else {
        with_labelled(
            with_capture_cpus(before, cpus.drop_last()),
            "flowsketch_agent_capture_cpu_affinity"@,
            "cpu"@,
            dec(cpus.last() as nat),
            1,
        )
    }
}

/// A text followed by one line for each worker and its CPU.
pub open spec fn with_runtime_cpus(before: Seq<char>, cpus: Seq<usize>) -> Seq<char>
    decreases cpus.len(),
{
    if cpus.len() == 0 {
        before
    } else {
        with_runtime_cpus(before, cpus.drop_last())
            + "flowsketch_agent_runtime_cpu_affinity{worker=\""@ + dec((cpus.len() - 1) as nat)
            + "\",cpu=\""@ + dec(cpus.last() as nat) + "\"} 1\n"@
    }
}

/// A text followed by what is configured of CPUs.
pub open spec fn with_affinity(
    before: Seq<char>,
    shards: nat,
    affinity: bool,
    capture: Seq<usize>,
    runtime: Seq<usize>,
) -> Seq<char> {
    let gauge = MetricKind::Gauge;
    let t = with_metric(
        before,
        "flowsketch_agent_runtime_shards"@,
        "Configured parallel runtime shards."@,
        gauge,
        shards,
    );
    let t = with_metric(
        t,
        "flowsketch_agent_cpu_affinity_enabled"@,
        "Whether explicit Linux capture/runtime CPU affinity is configured."@,
        gauge,
        if affinity {
            1
        } else {
            0
        },
    );
    let t = with_header(
        t,
        "flowsketch_agent_capture_cpu_affinity"@,
        "Configured Linux logical CPU for the capture thread."@,
        gauge,
    );
    let t = with_capture_cpus(t, capture);
    let t = with_header(
        t,
        "flowsketch_agent_runtime_cpu_affinity"@,
        "Configured Linux logical CPU for each runtime worker."@,
        gauge,
    );
    with_runtime_cpus(t, runtime)
}

fn push_affinity(
    out: &mut String,
    shards: usize,
    affinity: bool,
    capture: &Vec<usize>,
    runtime: &Vec<usize>,
)
    ensures
        final(out)@ == with_affinity(old(out)@, shards as nat, affinity, capture@, runtime@),
{
    let gauge = MetricKind::Gauge;
    push_metric(
        out,
        "flowsketch_agent_runtime_shards",
        "Configured parallel runtime shards.",
        gauge,
        shards as u64,
    );
    push_metric(
        out,
        "flowsketch_agent_cpu_affinity_enabled",
        "Whether explicit Linux capture/runtime CPU affinity is configured.",
        gauge,
        if affinity {
            1
        } else {
            0
        },
    );
    push_header(
        out,
        "flowsketch_agent_capture_cpu_affinity",
        "Configured Linux logical CPU for the capture thread.",
        gauge,
    );
    let ghost before = out@;
    let mut i: usize = 0;
    assert(capture@.take(0) =~= Seq::<usize>::empty());
    while i < capture.len()
        invariant
            i <= capture@.len(),
            out@ == with_capture_cpus(before, capture@.take(i as int)),
        decreases capture@.len() - i,
    {
        assert(capture@.take(i + 1).drop_last() =~= capture@.take(i as int));
        push_labelled(
            out,
            "flowsketch_agent_capture_cpu_affinity",
            "cpu",
            decimal(capture[i] as u64).as_str(),
            1,
        );
        i += 1;
    }
    assert(capture@.take(i as int) =~= capture@);
    push_header(
        out,
        "flowsketch_agent_runtime_cpu_affinity",
        "Configured Linux logical CPU for each runtime worker.",
        gauge,
    );
    let ghost before = out@;
    let mut i: usize = 0;
    assert(runtime@.take(0) =~= Seq::<usize>::empty());
    while i < runtime.len()
        invariant
            i <= runtime@.len(),
            out@ == with_runtime_cpus(before, runtime@.take(i as int)),
        decreases runtime@.len() - i,
    {
        assert(runtime@.take(i + 1).drop_last() =~= runtime@.take(i as int));
        out.append("flowsketch_agent_runtime_cpu_affinity{worker=\"");
        push_decimal(out, i as u64);
        out.append("\",cpu=\"");
        push_decimal(out, runtime[i] as u64);
        out.append("\"} 1\n");
        i += 1;
    }
    assert(runtime@.take(i as int) =~= runtime@);
}

/// A text followed by what the agent is doing.
pub open spec fn with_status(
    before: Seq<char>,
    queries: nat,
    ready: bool,
    source_done: bool,
    uptime: nat,
) -> Seq<char> {
    let gauge = MetricKind::Gauge;
    let t = with_metric(
        before,
        "flowsketch_agent_queries_active"@,
        "Queries this agent is executing."@,
        gauge,
        queries,
    );
    let t = with_metric(
        t,
        "flowsketch_agent_ready"@,
        "Whether the agent engine is ready to process events."@,
        gauge,
        if ready {
            1
        } else {
            0
        },
    );
    let t = with_metric(
        t,
        "flowsketch_agent_source_done"@,
        "Whether the configured capture source has completed."@,
        gauge,
        if source_done {
            1
        } else {
            0
        },
    );
    with_metric(
        t,
        "flowsketch_agent_uptime_seconds"@,
        "Seconds since agent start."@,
        gauge,
        uptime,
    )
}

fn push_status(out: &mut String, queries: usize, ready: bool, source_done: bool, uptime: u64)
    ensures
        final(out)@ == with_status(old(out)@, queries as nat, ready, source_done, uptime as nat),
{
    let gauge = MetricKind::Gauge;
    push_metric(
        out,
        "flowsketch_agent_queries_active",
        "Queries this agent is executing.",
        gauge,
        queries as u64,
    );
    push_metric(
        out,
        "flowsketch_agent_ready",
        "Whether the agent engine is ready to process events.",
        gauge,
        if ready {
            1
        } else {
            0
        },
    );
    push_metric(
        out,
        "flowsketch_agent_source_done",
        "Whether the configured capture source has completed.",
        gauge,
        if source_done {
            1
        } else {
            0
        },
    );
    push_metric(
        out,
        "flowsketch_agent_uptime_seconds",
        "Seconds since agent start.",
        gauge,
        uptime,
    );
}

/// A text followed by the queue capacity of each lane.
pub open spec fn with_capacities(before: Seq<char>, lanes: Seq<LaneCounters>) -> Seq<char>
    decreases lanes.len(),
{
    if lanes.len() == 0 {
        before
    } else {
        with_labelled(
            with_capacities(before, lanes.drop_last()),
            "flowsketch_agent_af_packet_lane_channel_capacity"@,
            "lane"@,
            dec((lanes.len() - 1) as nat),
            lanes.last().channel_capacity as nat,
        )
    }
}

/// A text followed by the events of each lane.
pub open spec fn with_lane_events(before: Seq<char>, lanes: Seq<LaneCounters>) -> Seq<char>
    decreases lanes.len(),
{
    if lanes.len() == 0 {
        before
    } else {
        with_labelled(
            with_lane_events(before, lanes.drop_last()),
            "flowsketch_agent_af_packet_lane_events_processed_total"@,
            "lane"@,
            dec((lanes.len() - 1) as nat),
            lanes.last().events_processed as nat,
        )
    }
}

/// A text followed by what is known of lanes, if there are any.
pub open spec fn with_lanes(before: Seq<char>, lanes: Seq<LaneCounters>) -> Seq<char> {
    if lanes.len() == 0 {
        before
    } else {
        let t = with_metric(
            before,
            "flowsketch_agent_af_packet_queue_local_handoff"@,
            "Whether every capture lane hands its packets to a worker of its own."@,
            MetricKind::Gauge,
            1,
        );
        let t = with_header(
            t,
            "flowsketch_agent_af_packet_lane_channel_capacity"@,
            "Events that the queue of each capture lane holds at most."@,
            MetricKind::Gauge,
        );
        let t = with_capacities(t, lanes);
        let t = with_header(
            t,
            "flowsketch_agent_af_packet_lane_events_processed_total"@,
            "Flow events processed by the worker of each capture lane."@,
            MetricKind::Counter,
        );
        with_lane_events(t, lanes)
    }
}

fn push_lanes(out: &mut String, lanes: &Vec<LaneCounters>)
    ensures
        final(out)@ == with_lanes(old(out)@, lanes@),
{
    if lanes.len() == 0 {
        return ;
    }
    push_metric(
        out,
        "flowsketch_agent_af_packet_queue_local_handoff",
        "Whether every capture lane hands its packets to a worker of its own.",
        MetricKind::Gauge,
        1,
    );
    push_header(
        out,
        "flowsketch_agent_af_packet_lane_channel_capacity",
        "Events that the queue of each capture lane holds at most.",
        MetricKind::Gauge,
    );
    let ghost before = out@;
    let mut i: usize = 0;
    assert(lanes@.take(0) =~= Seq::<LaneCounters>::empty());
    while i < lanes.len()
        invariant
            i <= lanes@.len(),
            out@ == with_capacities(before, lanes@.take(i as int)),
        decreases lanes@.len() - i,
    {
        assert(lanes@.take(i + 1).drop_last() =~= lanes@.take(i as int));
        push_labelled(
            out,
            "flowsketch_agent_af_packet_lane_channel_capacity",
            "lane",
            decimal(i as u64).as_str(),
            lanes[i].channel_capacity,
        );
        i += 1;
    }
    assert(lanes@.take(i as int) =~= lanes@);
    push_header(
        out,
        "flowsketch_agent_af_packet_lane_events_processed_total",
        "Flow events processed by the worker of each capture lane.",
        MetricKind::Counter,
    );
    let ghost before = out@;
    let mut i: usize = 0;
    assert(lanes@.take(0) =~= Seq::<LaneCounters>::empty());
    while i < lanes.len()
        invariant
            i <= lanes@.len(),
            out@ == with_lane_events(before, lanes@.take(i as int)),
        decreases lanes@.len() - i,
    {
        assert(lanes@.take(i + 1).drop_last() =~= lanes@.take(i as int));
        push_labelled(
            out,
            "flowsketch_agent_af_packet_lane_events_processed_total",
            "lane",
            decimal(i as u64).as_str(),
            lanes[i].events_processed,
        );
        i += 1;
    }
    assert(lanes@.take(i as int) =~= lanes@);
}

// ---------------------------------------------------------------------------
// The state
// ---------------------------------------------------------------------------

/// When snapshots are due for the gateway.
#[derive(Debug, Clone, Copy, PartialEq, Eq, Structural)]
pub struct SnapshotGate {
    pub interval_nanos: u64,
    /// When they were last made.
    pub last_export: Option<u64>,
}

/// Whether snapshots are due at `now`: not without a gateway, at the latest
/// when an interval is over, and always at the end.
pub open spec fn is_due(gate: Option<SnapshotGate>, now: u64, finish: bool) -> bool {
    match gate {
        None => false,
        Some(g) => finish || match g.last_export {
            None => true,
            Some(last) => now >= last + g.interval_nanos,
        },
    }
}

/// What the agent publishes.
pub struct PublishedState {
    pub queries: Vec<QueryInfo>,
    /// The newest window of every query.
    pub latest: Vec<SketchEstimate>,
    pub ready: bool,
    pub source_done: bool,
    pub source_error: Option<String>,
    pub counters: AgentCounters,
    pub lanes: Vec<LaneCounters>,
    pub runtime_shards: usize,
    pub cpu_affinity: bool,
    pub capture_cpus: Vec<usize>,
    pub runtime_cpus: Vec<usize>,
    pub snapshot_gate: Option<SnapshotGate>,
}

impl PublishedState {
    /// One window of every query.
    pub open spec fn wf(&self) -> bool {
        one_window_each(self.latest@)
    }

    /// The state before anything has happened.
    pub fn new(
        queries: Vec<QueryInfo>,
        runtime_shards: usize,
        cpu_affinity: Option<CpuAffinityConfig>,
    ) -> (r: Self)
        ensures
            r.wf(),
            r.queries == queries,
            r.latest@ == Seq::<SketchEstimate>::empty(),
            !r.ready && !r.source_done && r.source_error is None,
            r.counters == no_counts(),
            r.lanes@ == Seq::<LaneCounters>::empty(),
            r.runtime_shards == runtime_shards,
            r.cpu_affinity == (cpu_affinity is Some),
            r.capture_cpus@ == match cpu_affinity {
                Some(a) => a.capture_cpus@,
                None => Seq::empty(),
            },
            r.runtime_cpus@ == match cpu_affinity {
                Some(a) => a.runtime_cpus@,
                None => Seq::empty(),
            },
            r.snapshot_gate is None,
    {
        let (affinity, capture_cpus, runtime_cpus) = match cpu_affinity {
            Some(a) => (true, a.capture_cpus, a.runtime_cpus),
            None => (false, Vec::new(), Vec::new()),
        };
        PublishedState {
            queries,
            latest: Vec::new(),
            ready: false,
            source_done: false,
            source_error: None,
            counters: AgentCounters::new(),
            lanes: Vec::new(),
            runtime_shards,
            cpu_affinity: affinity,
            capture_cpus,
            runtime_cpus,
            snapshot_gate: None,
        }
    }

    /// Ask for snapshots at most once per interval.
    pub fn enable_snapshot_export(&mut self, interval_nanos: u64)
        ensures
            *final(self) == (PublishedState {
                snapshot_gate: Some(SnapshotGate { interval_nanos, last_export: None }),
                ..*old(self)
            }),
    {
        self.snapshot_gate = Some(SnapshotGate { interval_nanos, last_export: None });
    }

    /// Whether snapshots are to be made now.
    pub fn snapshot_export_due(&self, now: u64, finish: bool) -> (r: bool)
        ensures
            r == is_due(self.snapshot_gate, now, finish),
    {
        match &self.snapshot_gate {
            None => false,
            Some(g) => finish || match g.last_export {
                None => true,
                Some(last) => now >= last && now - last >= g.interval_nanos,
            },
        }
    }

    /// Take note that snapshots were made.
    pub fn note_snapshot_export(&mut self, now: u64)
        ensures
            *final(self) == (PublishedState {
                snapshot_gate: match old(self).snapshot_gate {
                    Some(g) => Some(SnapshotGate { last_export: Some(now), ..g }),
                    None => None,
                },
                ..*old(self)
            }),
    {
        if let Some(g) = self.snapshot_gate {
            self.snapshot_gate = Some(
                SnapshotGate { interval_nanos: g.interval_nanos, last_export: Some(now) },
            );
        }
    }

    /// One queue for each lane, with its capacity.
    pub fn configure_queue_local_channels(&mut self, capacities: &[usize])
        ensures
            final(self).lanes@.len() == capacities@.len(),
            forall|i: int|
                0 <= i < capacities@.len() ==> #[trigger] final(self).lanes@[i] == new_lane(
                    capacities@[i] as u64,
                ),
            *final(self) == (PublishedState { lanes: final(self).lanes, ..*old(self) }),
    {
        let mut lanes: Vec<LaneCounters> = Vec::new();
        let mut i: usize = 0;
        while i < capacities.len()
            invariant
                i <= capacities@.len(),
                lanes@.len() == i,
                forall|k: int|
                    0 <= k < i ==> #[trigger] lanes@[k] == new_lane(capacities@[k] as u64),
            decreases capacities@.len() - i,
        {
            lanes.push(LaneCounters::new(capacities[i] as u64));
            i += 1;
        }
        self.lanes = lanes;
    }

    /// Take over what the engine has come to: of every query only the newest
    /// window is kept.
    pub fn publish(
        &mut self,
        estimates: Vec<SketchEstimate>,
        sketch_memory_bytes: u64,
        late_events: u64,
    )
        requires
            old(self).wf(),
        ensures
            final(self).wf(),
            final(self).latest@ == with_estimates(old(self).latest@, estimates@),
            *final(self) == (PublishedState {
                latest: final(self).latest,
                counters: AgentCounters {
                    sketch_memory_bytes,
                    late_events,
                    ..old(self).counters
                },
                ..*old(self)
            }),
    {
        self.counters.sketch_memory_bytes = sketch_memory_bytes;
        self.counters.late_events = late_events;
        proof {
            lemma_one_window_each(self.latest@, estimates@);
        }
        keep_newest(&mut self.latest, estimates);
    }

    /// The newest window of every query.
    pub fn latest_estimates(&self) -> (r: &Vec<SketchEstimate>)
        ensures
            *r == self.latest,
    {
        &self.latest
    }

    /// How every query is exported as Prometheus text.
    pub fn export_info(&self) -> (r: Vec<(String, QueryExportInfo)>)
        ensures
            r@.len() == self.queries@.len(),
            forall|i: int|
                0 <= i < r@.len() ==> {
                    &&& (#[trigger] r@[i]).0@ == self.queries@[i].name@
                    &&& r@[i].1.error_kind@ == self.queries@[i].error_kind@
                    &&& r@[i].1.max_series == self.queries@[i].max_series
                    &&& r@[i].1.window_size_nanos == self.queries@[i].window_size_nanos
                },
    {
        let mut out: Vec<(String, QueryExportInfo)> = Vec::new();
        let mut i: usize = 0;
        while i < self.queries.len()
            invariant
                i <= self.queries@.len(),
                out@.len() == i,
                forall|k: int|
                    0 <= k < i ==> {
                        &&& (#[trigger] out@[k]).0@ == self.queries@[k].name@
                        &&& out@[k].1.error_kind@ == self.queries@[k].error_kind@
                        &&& out@[k].1.max_series == self.queries@[k].max_series
                        &&& out@[k].1.window_size_nanos == self.queries@[k].window_size_nanos
                    },
            decreases self.queries@.len() - i,
        {
            out.push(self.queries[i].export_info());
            i += 1;
        }
        out
    }

    /// What the page of metrics says of the agent itself.
    pub open spec fn health_text(&self, uptime: nat) -> Seq<char> {
        with_lanes(
            with_status(
                with_affinity(
                    with_rings(
                        with_runtime_counters(
                            with_capture_counters(Seq::empty(), self.counters),
                            self.counters,
                        ),
                        self.counters,
                    ),
                    self.runtime_shards as nat,
                    self.cpu_affinity,
                    self.capture_cpus@,
                    self.runtime_cpus@,
                ),
                self.queries@.len(),
                self.ready,
                self.source_done,
                uptime,
            ),
            self.lanes@,
        )
    }

    /// What the page of metrics says of the agent itself.
    pub fn render_health_metrics(&self, uptime_seconds: u64) -> (r: String)
        ensures
            r@ == self.health_text(uptime_seconds as nat),
    {
        let mut out = String::new();
        push_capture_counters(&mut out, self.counters);
        push_runtime_counters(&mut out, self.counters);
        push_rings(&mut out, self.counters);
        push_affinity(
            &mut out,
            self.runtime_shards,
            self.cpu_affinity,
            &self.capture_cpus,
            &self.runtime_cpus,
        );
        push_status(
            &mut out,
            self.queries.len(),
            self.ready,
            self.source_done,
            uptime_seconds,
        );
        push_lanes(&mut out, &self.lanes);
        out
    }
}

proof fn lemma_one_window_each(es: Seq<SketchEstimate>, more: Seq<SketchEstimate>)
    requires
        one_window_each(es),
    ensures
        one_window_each(with_estimates(es, more)),
    decreases more.len(),
{
    if more.len() > 0 {
        lemma_one_window_each(es, more.drop_last());
        crate::agent::latest::law_one_window_is_kept(
            with_estimates(es, more.drop_last()),
            more.last(),
        );
    }
}

} // verus!
