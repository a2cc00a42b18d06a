//! What the page of an agent shows of it.

use vstd::prelude::*;
use vstd::string::*;

use crate::agent::state::{
    with_affinity, with_capacities, with_capture_counters, with_capture_cpus, with_lane_events,
    with_lanes, with_rings, with_runtime_counters, with_runtime_cpus, with_status, AgentCounters,
    LaneCounters, PublishedState,
};
use crate::mentions::{lemma_mentions, mentions};
use crate::metrics::MetricKind;
use crate::metrics_laws::{
    goes_on, labelled, lemma_goes_on, lemma_goes_on_further, lemma_goes_on_self, lemma_header,
    lemma_labelled, lemma_metric, lemma_still_mentioned, sample,
};
use crate::text::dec;

verus! {

/// The page shows what capture has counted, each number under its own name.
pub proof fn law_capture_counters_are_shown(before: Seq<char>, c: AgentCounters)
    ensures
        goes_on(before, with_capture_counters(before, c)),
        mentions(
            with_capture_counters(before, c),
            sample("flowsketch_agent_events_processed_total"@, c.events_processed as nat),
        ),
        mentions(
            with_capture_counters(before, c),
            sample("flowsketch_agent_packets_seen_total"@, c.packets_seen as nat),
        ),
        mentions(
            with_capture_counters(before, c),
            sample("flowsketch_agent_packets_parsed_total"@, c.packets_parsed as nat),
        ),
        mentions(
            with_capture_counters(before, c),
            sample("flowsketch_agent_packets_unparsed_total"@, c.packets_unparsed as nat),
        ),
        mentions(
            with_capture_counters(before, c),
            sample("flowsketch_agent_kernel_packets_total"@, c.kernel_packets as nat),
        ),
        mentions(
            with_capture_counters(before, c),
            sample("flowsketch_agent_kernel_dropped_packets_total"@, c.kernel_dropped_packets as nat),
        ),
        mentions(
            with_capture_counters(before, c),
            sample("flowsketch_agent_kernel_queue_freezes_total"@, c.kernel_queue_freezes as nat),
        ),
        mentions(
            with_capture_counters(before, c),
            sample("flowsketch_agent_ebpf_packets_total"@, c.ebpf_packets as nat),
        ),
        mentions(
            with_capture_counters(before, c),
            sample("flowsketch_agent_ebpf_events_emitted_total"@, c.ebpf_events_emitted as nat),
        ),
        mentions(
            with_capture_counters(before, c),
            sample("flowsketch_agent_ebpf_ring_dropped_events_total"@, c.ebpf_ring_dropped_events as nat),
        ),
        mentions(
            with_capture_counters(before, c),
            sample("flowsketch_agent_ebpf_parse_errors_total"@, c.ebpf_parse_errors as nat),
        ),
{
    let t0 = lemma_metric(
        before,
        "flowsketch_agent_events_processed_total"@,
        "Flow events processed by the sketch engine."@,
        MetricKind::Counter,
        c.events_processed as nat,
    );
    let t1 = lemma_metric(
        t0,
        "flowsketch_agent_packets_seen_total"@,
        "Packets observed by the capture source."@,
        MetricKind::Counter,
        c.packets_seen as nat,
    );
    let t2 = lemma_metric(
        t1,
        "flowsketch_agent_packets_parsed_total"@,
        "Captured packets successfully converted into flow events."@,
        MetricKind::Counter,
        c.packets_parsed as nat,
    );
    let t3 = lemma_metric(
        t2,
        "flowsketch_agent_packets_unparsed_total"@,
        "Captured packets skipped because they are unsupported or malformed."@,
        MetricKind::Counter,
        c.packets_unparsed as nat,
    );
    let t4 = lemma_metric(
        t3,
        "flowsketch_agent_kernel_packets_total"@,
        "Packets accepted by the Linux AF_PACKET socket, including packets later dropped from the receive ring."@,
        MetricKind::Counter,
        c.kernel_packets as nat,
    );
    let t5 = lemma_metric(
        t4,
        "flowsketch_agent_kernel_dropped_packets_total"@,
        "Packets dropped by the Linux AF_PACKET receive ring before userspace consumed them."@,
        MetricKind::Counter,
        c.kernel_dropped_packets as nat,
    );
    let t6 = lemma_metric(
        t5,
        "flowsketch_agent_kernel_queue_freezes_total"@,
        "Times the Linux TPACKET_V3 receive queue froze because no ring block was available."@,
        MetricKind::Counter,
        c.kernel_queue_freezes as nat,
    );
    let t7 = lemma_metric(
        t6,
        "flowsketch_agent_ebpf_packets_total"@,
        "Packets presented to the FlowSketch tc eBPF program."@,
        MetricKind::Counter,
        c.ebpf_packets as nat,
    );
    let t8 = lemma_metric(
        t7,
        "flowsketch_agent_ebpf_events_emitted_total"@,
        "Flow events successfully submitted to the eBPF ring buffer."@,
        MetricKind::Counter,
        c.ebpf_events_emitted as nat,
    );
    let t9 = lemma_metric(
        t8,
        "flowsketch_agent_ebpf_ring_dropped_events_total"@,
        "Flow events dropped because the eBPF ring buffer had no space."@,
        MetricKind::Counter,
        c.ebpf_ring_dropped_events as nat,
    );
    let t10 = lemma_metric(
        t9,
        "flowsketch_agent_ebpf_parse_errors_total"@,
        "Malformed or truncated packets rejected by the tc eBPF parser."@,
        MetricKind::Counter,
        c.ebpf_parse_errors as nat,
    );
    let page = with_capture_counters(before, c);
    assert(page == t10);
    lemma_goes_on_self(page);
    lemma_goes_on_further(t9, t10, page);
    lemma_goes_on_further(t8, t9, page);
    lemma_goes_on_further(t7, t8, page);
    lemma_goes_on_further(t6, t7, page);
    lemma_goes_on_further(t5, t6, page);
    lemma_goes_on_further(t4, t5, page);
    lemma_goes_on_further(t3, t4, page);
    lemma_goes_on_further(t2, t3, page);
    lemma_goes_on_further(t1, t2, page);
    lemma_goes_on_further(t0, t1, page);
    lemma_goes_on_further(before, t0, page);
    lemma_still_mentioned(
        t0,
        page,
        sample("flowsketch_agent_events_processed_total"@, c.events_processed as nat),
    );
    lemma_still_mentioned(
        t1,
        page,
        sample("flowsketch_agent_packets_seen_total"@, c.packets_seen as nat),
    );
    lemma_still_mentioned(
        t2,
        page,
        sample("flowsketch_agent_packets_parsed_total"@, c.packets_parsed as nat),
    );
    lemma_still_mentioned(
        t3,
        page,
        sample("flowsketch_agent_packets_unparsed_total"@, c.packets_unparsed as nat),
    );
    lemma_still_mentioned(
        t4,
        page,
        sample("flowsketch_agent_kernel_packets_total"@, c.kernel_packets as nat),
    );
    lemma_still_mentioned(
        t5,
        page,
        sample("flowsketch_agent_kernel_dropped_packets_total"@, c.kernel_dropped_packets as nat),
    );
    lemma_still_mentioned(
        t6,
        page,
        sample("flowsketch_agent_kernel_queue_freezes_total"@, c.kernel_queue_freezes as nat),
    );
    lemma_still_mentioned(
        t7,
        page,
        sample("flowsketch_agent_ebpf_packets_total"@, c.ebpf_packets as nat),
    );
    lemma_still_mentioned(
        t8,
        page,
        sample("flowsketch_agent_ebpf_events_emitted_total"@, c.ebpf_events_emitted as nat),
    );
    lemma_still_mentioned(
        t9,
        page,
        sample("flowsketch_agent_ebpf_ring_dropped_events_total"@, c.ebpf_ring_dropped_events as nat),
    );
    lemma_still_mentioned(
        t10,
        page,
        sample("flowsketch_agent_ebpf_parse_errors_total"@, c.ebpf_parse_errors as nat),
    );
}

/// The page shows what was counted behind capture, each number under its own
/// name.
pub proof fn law_runtime_counters_are_shown(before: Seq<char>, c: AgentCounters)
    ensures
        goes_on(before, with_runtime_counters(before, c)),
        mentions(
            with_runtime_counters(before, c),
            sample("flowsketch_agent_ebpf_unsupported_packets_total"@, c.ebpf_unsupported_packets as nat),
        ),
        mentions(
            with_runtime_counters(before, c),
            sample("flowsketch_agent_ebpf_fallbacks_total"@, c.ebpf_fallbacks as nat),
        ),
        mentions(
            with_runtime_counters(before, c),
            sample("flowsketch_agent_dropped_events_total"@, c.dropped_events as nat),
        ),
        mentions(
            with_runtime_counters(before, c),
            sample("flowsketch_agent_late_events_total"@, c.late_events as nat),
        ),
        mentions(
            with_runtime_counters(before, c),
            sample("flowsketch_agent_sketch_memory_bytes"@, c.sketch_memory_bytes as nat),
        ),
        mentions(
            with_runtime_counters(before, c),
            sample("flowsketch_agent_otlp_exports_total"@, c.otlp_exports as nat),
        ),
        mentions(
            with_runtime_counters(before, c),
            sample("flowsketch_agent_otlp_export_failures_total"@, c.otlp_failures as nat),
        ),
        mentions(
            with_runtime_counters(before, c),
            sample("flowsketch_agent_gateway_pushes_total"@, c.gateway_pushes as nat),
        ),
        mentions(
            with_runtime_counters(before, c),
            sample("flowsketch_agent_gateway_push_failures_total"@, c.gateway_push_failures as nat),
        ),
        mentions(
            with_runtime_counters(before, c),
            sample("flowsketch_agent_runtime_batches_total"@, c.runtime_batches as nat),
        ),
{
    let t0 = lemma_metric(
        before,
        "flowsketch_agent_ebpf_unsupported_packets_total"@,
        "Packets intentionally skipped by the tc eBPF parser."@,
        MetricKind::Counter,
        c.ebpf_unsupported_packets as nat,
    );
    let t1 = lemma_metric(
        t0,
        "flowsketch_agent_ebpf_fallbacks_total"@,
        "Explicit transitions from failed eBPF capture to AF_PACKET fallback."@,
        MetricKind::Counter,
        c.ebpf_fallbacks as nat,
    );
    let t2 = lemma_metric(
        t1,
        "flowsketch_agent_dropped_events_total"@,
        "Parsed events dropped in userspace because the engine channel was full."@,
        MetricKind::Counter,
        c.dropped_events as nat,
    );
    let t3 = lemma_metric(
        t2,
        "flowsketch_agent_late_events_total"@,
        "Events older than the earliest open window bucket."@,
        MetricKind::Counter,
        c.late_events as nat,
    );
    let t4 = lemma_metric(
        t3,
        "flowsketch_agent_sketch_memory_bytes"@,
        "Bytes held by sketches across all queries and buckets."@,
        MetricKind::Gauge,
        c.sketch_memory_bytes as nat,
    );
    let t5 = lemma_metric(
        t4,
        "flowsketch_agent_otlp_exports_total"@,
        "Successful OTLP metric exports."@,
        MetricKind::Counter,
        c.otlp_exports as nat,
    );
    let t6 = lemma_metric(
        t5,
        "flowsketch_agent_otlp_export_failures_total"@,
        "OTLP exports that failed after retries."@,
        MetricKind::Counter,
        c.otlp_failures as nat,
    );
    let t7 = lemma_metric(
        t6,
        "flowsketch_agent_gateway_pushes_total"@,
        "Successful snapshot pushes to the gateway."@,
        MetricKind::Counter,
        c.gateway_pushes as nat,
    );
    let t8 = lemma_metric(
        t7,
        "flowsketch_agent_gateway_push_failures_total"@,
        "Snapshot pushes that failed after retries."@,
        MetricKind::Counter,
        c.gateway_push_failures as nat,
    );
    let t9 = lemma_metric(
        t8,
        "flowsketch_agent_runtime_batches_total"@,
        "Event batches dispatched to runtime shards."@,
        MetricKind::Counter,
        c.runtime_batches as nat,
    );
    let page = with_runtime_counters(before, c);
    assert(page == t9);
    lemma_goes_on_self(page);
    lemma_goes_on_further(t8, t9, page);
    lemma_goes_on_further(t7, t8, page);
    lemma_goes_on_further(t6, t7, page);
    lemma_goes_on_further(t5, t6, page);
    lemma_goes_on_further(t4, t5, page);
    lemma_goes_on_further(t3, t4, page);
    lemma_goes_on_further(t2, t3, page);
    lemma_goes_on_further(t1, t2, page);
    lemma_goes_on_further(t0, t1, page);
    lemma_goes_on_further(before, t0, page);
    lemma_still_mentioned(
        t0,
        page,
        sample("flowsketch_agent_ebpf_unsupported_packets_total"@, c.ebpf_unsupported_packets as nat),
    );
    lemma_still_mentioned(
        t1,
        page,
        sample("flowsketch_agent_ebpf_fallbacks_total"@, c.ebpf_fallbacks as nat),
    );
    lemma_still_mentioned(
        t2,
        page,
        sample("flowsketch_agent_dropped_events_total"@, c.dropped_events as nat),
    );
    lemma_still_mentioned(
        t3,
        page,
        sample("flowsketch_agent_late_events_total"@, c.late_events as nat),
    );
    lemma_still_mentioned(
        t4,
        page,
        sample("flowsketch_agent_sketch_memory_bytes"@, c.sketch_memory_bytes as nat),
    );
    lemma_still_mentioned(
        t5,
        page,
        sample("flowsketch_agent_otlp_exports_total"@, c.otlp_exports as nat),
    );
    lemma_still_mentioned(
        t6,
        page,
        sample("flowsketch_agent_otlp_export_failures_total"@, c.otlp_failures as nat),
    );
    lemma_still_mentioned(
        t7,
        page,
        sample("flowsketch_agent_gateway_pushes_total"@, c.gateway_pushes as nat),
    );
    lemma_still_mentioned(
        t8,
        page,
        sample("flowsketch_agent_gateway_push_failures_total"@, c.gateway_push_failures as nat),
    );
    lemma_still_mentioned(
        t9,
        page,
        sample("flowsketch_agent_runtime_batches_total"@, c.runtime_batches as nat),
    );
}

/// The page shows the sizes of the rings, each under its own name.
pub proof fn law_ring_sizes_are_shown(before: Seq<char>, c: AgentCounters)
    ensures
        goes_on(before, with_rings(before, c)),
        mentions(
            with_rings(before, c),
            sample("flowsketch_agent_capture_ring_bytes"@, c.capture_ring_bytes as nat),
        ),
        mentions(
            with_rings(before, c),
            sample("flowsketch_agent_capture_ring_blocks"@, c.capture_ring_blocks as nat),
        ),
        mentions(
            with_rings(before, c),
            sample("flowsketch_agent_capture_block_size_bytes"@, c.capture_block_size_bytes as nat),
        ),
        mentions(
            with_rings(before, c),
            sample("flowsketch_agent_ebpf_ring_bytes"@, c.ebpf_ring_bytes as nat),
        ),
{
    let t0 = lemma_metric(
        before,
        "flowsketch_agent_capture_ring_bytes"@,
        "Bytes configured for the Linux TPACKET_V3 receive ring."@,
        MetricKind::Gauge,
        c.capture_ring_bytes as nat,
    );
    let t1 = lemma_metric(
        t0,
        "flowsketch_agent_capture_ring_blocks"@,
        "Blocks configured in the Linux TPACKET_V3 receive ring."@,
        MetricKind::Gauge,
        c.capture_ring_blocks as nat,
    );
    let t2 = lemma_metric(
        t1,
        "flowsketch_agent_capture_block_size_bytes"@,
        "Bytes in each Linux TPACKET_V3 receive-ring block."@,
        MetricKind::Gauge,
        c.capture_block_size_bytes as nat,
    );
    let t3 = lemma_metric(
        t2,
        "flowsketch_agent_ebpf_ring_bytes"@,
        "Bytes configured for the tc eBPF event ring buffer."@,
        MetricKind::Gauge,
        c.ebpf_ring_bytes as nat,
    );
    let page = with_rings(before, c);
    assert(page == t3);
    lemma_goes_on_self(page);
    lemma_goes_on_further(t2, t3, page);
    lemma_goes_on_further(t1, t2, page);
    lemma_goes_on_further(t0, t1, page);
    lemma_goes_on_further(before, t0, page);
    lemma_still_mentioned(
        t0,
        page,
        sample("flowsketch_agent_capture_ring_bytes"@, c.capture_ring_bytes as nat),
    );
    lemma_still_mentioned(
        t1,
        page,
        sample("flowsketch_agent_capture_ring_blocks"@, c.capture_ring_blocks as nat),
    );
    lemma_still_mentioned(
        t2,
        page,
        sample("flowsketch_agent_capture_block_size_bytes"@, c.capture_block_size_bytes as nat),
    );
    lemma_still_mentioned(
        t3,
        page,
        sample("flowsketch_agent_ebpf_ring_bytes"@, c.ebpf_ring_bytes as nat),
    );
}

/// The page shows how many queries run, whether the agent is ready and its source
/// done, and how long it has been up.
pub proof fn law_status_is_shown(before: Seq<char>, queries: nat, ready: bool, source_done: bool, uptime: nat)
    ensures
        goes_on(before, with_status(before, queries, ready, source_done, uptime)),
        mentions(
            with_status(before, queries, ready, source_done, uptime),
            sample("flowsketch_agent_queries_active"@, queries),
        ),
        mentions(
            with_status(before, queries, ready, source_done, uptime),
            sample("flowsketch_agent_ready"@, if ready { 1nat } else { 0nat }),
        ),
        mentions(
            with_status(before, queries, ready, source_done, uptime),
            sample("flowsketch_agent_source_done"@, if source_done { 1nat } else { 0nat }),
        ),
        mentions(
            with_status(before, queries, ready, source_done, uptime),
            sample("flowsketch_agent_uptime_seconds"@, uptime),
        ),
{
    let t0 = lemma_metric(
        before,
        "flowsketch_agent_queries_active"@,
        "Queries this agent is executing."@,
        MetricKind::Gauge,
        queries,
    );
    let t1 = lemma_metric(
        t0,
        "flowsketch_agent_ready"@,
        "Whether the agent engine is ready to process events."@,
        MetricKind::Gauge,
        if ready { 1nat } else { 0nat },
    );
    let t2 = lemma_metric(
        t1,
        "flowsketch_agent_source_done"@,
        "Whether the configured capture source has completed."@,
        MetricKind::Gauge,
        if source_done { 1nat } else { 0nat },
    );
    let t3 = lemma_metric(
        t2,
        "flowsketch_agent_uptime_seconds"@,
        "Seconds since agent start."@,
        MetricKind::Gauge,
        uptime,
    );
    let page = with_status(before, queries, ready, source_done, uptime);
    assert(page == t3);
    lemma_goes_on_self(page);
    lemma_goes_on_further(t2, t3, page);
    lemma_goes_on_further(t1, t2, page);
    lemma_goes_on_further(t0, t1, page);
    lemma_goes_on_further(before, t0, page);
    lemma_still_mentioned(
        t0,
        page,
        sample("flowsketch_agent_queries_active"@, queries),
    );
    lemma_still_mentioned(
        t1,
        page,
        sample("flowsketch_agent_ready"@, if ready { 1nat } else { 0nat }),
    );
    lemma_still_mentioned(
        t2,
        page,
        sample("flowsketch_agent_source_done"@, if source_done { 1nat } else { 0nat }),
    );
    lemma_still_mentioned(
        t3,
        page,
        sample("flowsketch_agent_uptime_seconds"@, uptime),
    );
}

proof fn lemma_capture_cpus(before: Seq<char>, cpus: Seq<usize>)
    ensures
        goes_on(before, with_capture_cpus(before, cpus)),
        forall|i: int|
            0 <= i < cpus.len() ==> mentions(
                with_capture_cpus(before, cpus),
                labelled(
                    "flowsketch_agent_capture_cpu_affinity"@,
                    "cpu"@,
                    dec(#[trigger] cpus[i] as nat),
                    1,
                ),
            ),
    decreases cpus.len(),
{
    if cpus.len() == 0 {
        lemma_goes_on_self(before);
    } else {
        let name = "flowsketch_agent_capture_cpu_affinity"@;
        let front = with_capture_cpus(before, cpus.drop_last());
        let page = with_capture_cpus(before, cpus);
        lemma_capture_cpus(before, cpus.drop_last());
        lemma_labelled(front, name, "cpu"@, dec(cpus.last() as nat), 1);
        lemma_goes_on_further(before, front, page);
        assert forall|i: int| 0 <= i < cpus.len() implies mentions(
            page,
            labelled(name, "cpu"@, dec(#[trigger] cpus[i] as nat), 1),
        ) by {
            if i < cpus.len() - 1 {
                assert(cpus.drop_last()[i] == cpus[i]);
                lemma_still_mentioned(
                    front,
                    page,
                    labelled(name, "cpu"@, dec(cpus[i] as nat), 1),
                );
            }
        }
    }
}

/// The line that a worker runs on a CPU.
pub open spec fn worker_line(worker: nat, cpu: nat) -> Seq<char> {
    "flowsketch_agent_runtime_cpu_affinity{worker=\""@ + dec(worker) + "\",cpu=\""@ + dec(cpu)
        + "\"} 1\n"@
}

proof fn lemma_runtime_cpus(before: Seq<char>, cpus: Seq<usize>)
    ensures
        goes_on(before, with_runtime_cpus(before, cpus)),
        forall|i: int|
            0 <= i < cpus.len() ==> mentions(
                with_runtime_cpus(before, cpus),
                worker_line(i as nat, #[trigger] cpus[i] as nat),
            ),
    decreases cpus.len(),
{
    if cpus.len() == 0 {
        lemma_goes_on_self(before);
    } else {
        let n = (cpus.len() - 1) as nat;
        let front = with_runtime_cpus(before, cpus.drop_last());
        let page = with_runtime_cpus(before, cpus);
        let line = worker_line(n, cpus.last() as nat);
        let none = Seq::<char>::empty();
        lemma_runtime_cpus(before, cpus.drop_last());
        assert(page =~= front + line);
        lemma_goes_on(front, line);
        lemma_goes_on_further(before, front, page);
        assert(page =~= front + line + none);
        lemma_mentions(front, line, none);
        assert forall|i: int| 0 <= i < cpus.len() implies mentions(
            page,
            worker_line(i as nat, #[trigger] cpus[i] as nat),
        ) by {
            if i < cpus.len() - 1 {
                assert(cpus.drop_last()[i] == cpus[i]);
                lemma_still_mentioned(front, page, worker_line(i as nat, cpus[i] as nat));
            }
        }
    }
}

/// The page shows the number of shards, whether threads are placed, and on
/// which CPU every capture lane and every worker runs.
pub proof fn law_placement_is_shown(
    before: Seq<char>,
    shards: nat,
    affinity: bool,
    capture: Seq<usize>,
    runtime: Seq<usize>,
)
    ensures
        ({
            let page = with_affinity(before, shards, affinity, capture, runtime);
            &&& goes_on(before, page)
            &&& mentions(page, sample("flowsketch_agent_runtime_shards"@, shards))
            &&& mentions(
                page,
                sample("flowsketch_agent_cpu_affinity_enabled"@, if affinity { 1nat } else { 0nat }),
            )
            &&& forall|i: int|
                0 <= i < capture.len() ==> mentions(
                    page,
                    labelled(
                        "flowsketch_agent_capture_cpu_affinity"@,
                        "cpu"@,
                        dec(#[trigger] capture[i] as nat),
                        1,
                    ),
                )
            &&& forall|i: int|
                0 <= i < runtime.len() ==> mentions(
                    page,
                    worker_line(i as nat, #[trigger] runtime[i] as nat),
                )
        }),
{
    let gauge = MetricKind::Gauge;
    let enabled = if affinity { 1nat } else { 0nat };
    let name = "flowsketch_agent_capture_cpu_affinity"@;
    let t0 = lemma_metric(
        before,
        "flowsketch_agent_runtime_shards"@,
        "Configured parallel runtime shards."@,
        gauge,
        shards,
    );
    let t1 = lemma_metric(
        t0,
        "flowsketch_agent_cpu_affinity_enabled"@,
        "Whether explicit Linux capture/runtime CPU affinity is configured."@,
        gauge,
        enabled,
    );
    let t2 = lemma_header(
        t1,
        name,
        "Configured Linux logical CPU for the capture thread."@,
        gauge,
    );
    let t3 = with_capture_cpus(t2, capture);
    lemma_capture_cpus(t2, capture);
    let t4 = lemma_header(
        t3,
        "flowsketch_agent_runtime_cpu_affinity"@,
        "Configured Linux logical CPU for each runtime worker."@,
        gauge,
    );
    let page = with_runtime_cpus(t4, runtime);
    lemma_runtime_cpus(t4, runtime);
    assert(page == with_affinity(before, shards, affinity, capture, runtime));
    lemma_goes_on_further(t3, t4, page);
    lemma_goes_on_further(t2, t3, page);
    lemma_goes_on_further(t1, t2, page);
    lemma_goes_on_further(t0, t1, page);
    lemma_goes_on_further(before, t0, page);
    lemma_still_mentioned(t0, page, sample("flowsketch_agent_runtime_shards"@, shards));
    lemma_still_mentioned(t1, page, sample("flowsketch_agent_cpu_affinity_enabled"@, enabled));
    assert forall|i: int| 0 <= i < capture.len() implies mentions(
        page,
        labelled(name, "cpu"@, dec(#[trigger] capture[i] as nat), 1),
    ) by {
        lemma_still_mentioned(t3, page, labelled(name, "cpu"@, dec(capture[i] as nat), 1));
    }
}

proof fn lemma_capacities(before: Seq<char>, lanes: Seq<LaneCounters>)
    ensures
        goes_on(before, with_capacities(before, lanes)),
        forall|i: int|
            0 <= i < lanes.len() ==> mentions(
                with_capacities(before, lanes),
                labelled(
                    "flowsketch_agent_af_packet_lane_channel_capacity"@,
                    "lane"@,
                    dec(i as nat),
                    (#[trigger] lanes[i]).channel_capacity as nat,
                ),
            ),
    decreases lanes.len(),
{
    if lanes.len() == 0 {
        lemma_goes_on_self(before);
    } else {
        let name = "flowsketch_agent_af_packet_lane_channel_capacity"@;
        let n = (lanes.len() - 1) as nat;
        let front = with_capacities(before, lanes.drop_last());
        let page = with_capacities(before, lanes);
        lemma_capacities(before, lanes.drop_last());
        lemma_labelled(front, name, "lane"@, dec(n), lanes.last().channel_capacity as nat);
        lemma_goes_on_further(before, front, page);
        assert forall|i: int| 0 <= i < lanes.len() implies mentions(
            page,
            labelled(name, "lane"@, dec(i as nat), (#[trigger] lanes[i]).channel_capacity as nat),
        ) by {
            if i < n {
                assert(lanes.drop_last()[i] == lanes[i]);
                lemma_still_mentioned(
                    front,
                    page,
                    labelled(name, "lane"@, dec(i as nat), lanes[i].channel_capacity as nat),
                );
            }
        }
    }
}

proof fn lemma_lane_events(before: Seq<char>, lanes: Seq<LaneCounters>)
    ensures
        goes_on(before, with_lane_events(before, lanes)),
        forall|i: int|
            0 <= i < lanes.len() ==> mentions(
                with_lane_events(before, lanes),
                labelled(
                    "flowsketch_agent_af_packet_lane_events_processed_total"@,
                    "lane"@,
                    dec(i as nat),
                    (#[trigger] lanes[i]).events_processed as nat,
                ),
            ),
    decreases lanes.len(),
{
    if lanes.len() == 0 {
        lemma_goes_on_self(before);
    } else {
        let name = "flowsketch_agent_af_packet_lane_events_processed_total"@;
        let n = (lanes.len() - 1) as nat;
        let front = with_lane_events(before, lanes.drop_last());
        let page = with_lane_events(before, lanes);
        lemma_lane_events(before, lanes.drop_last());
        lemma_labelled(front, name, "lane"@, dec(n), lanes.last().events_processed as nat);
        lemma_goes_on_further(before, front, page);
        assert forall|i: int| 0 <= i < lanes.len() implies mentions(
            page,
            labelled(name, "lane"@, dec(i as nat), (#[trigger] lanes[i]).events_processed as nat),
        ) by {
            if i < n {
                assert(lanes.drop_last()[i] == lanes[i]);
                lemma_still_mentioned(
                    front,
                    page,
                    labelled(name, "lane"@, dec(i as nat), lanes[i].events_processed as nat),
                );
            }
        }
    }
}

/// The page shows of every lane how much its queue holds and how many events
/// its worker has processed; without lanes it says nothing of them.
pub proof fn law_lanes_are_shown(before: Seq<char>, lanes: Seq<LaneCounters>)
    ensures
        goes_on(before, with_lanes(before, lanes)),
        lanes.len() == 0 ==> with_lanes(before, lanes) == before,
        lanes.len() > 0 ==> mentions(
            with_lanes(before, lanes),
            sample("flowsketch_agent_af_packet_queue_local_handoff"@, 1),
        ),
        forall|i: int|
            0 <= i < lanes.len() ==> mentions(
                with_lanes(before, lanes),
                labelled(
                    "flowsketch_agent_af_packet_lane_channel_capacity"@,
                    "lane"@,
                    dec(i as nat),
                    (#[trigger] lanes[i]).channel_capacity as nat,
                ),
            ) && mentions(
                with_lanes(before, lanes),
                labelled(
                    "flowsketch_agent_af_packet_lane_events_processed_total"@,
                    "lane"@,
                    dec(i as nat),
                    lanes[i].events_processed as nat,
                ),
            ),
{
    lemma_goes_on_self(before);
    if lanes.len() > 0 {
        let capacity = "flowsketch_agent_af_packet_lane_channel_capacity"@;
        let events = "flowsketch_agent_af_packet_lane_events_processed_total"@;
        let t0 = lemma_metric(
            before,
            "flowsketch_agent_af_packet_queue_local_handoff"@,
            "Whether every capture lane hands its packets to a worker of its own."@,
            MetricKind::Gauge,
            1,
        );
        let t1 = lemma_header(
            t0,
            capacity,
            "Events that the queue of each capture lane holds at most."@,
            MetricKind::Gauge,
        );
        let t2 = with_capacities(t1, lanes);
        lemma_capacities(t1, lanes);
        let t3 = lemma_header(
            t2,
            events,
            "Flow events processed by the worker of each capture lane."@,
            MetricKind::Counter,
        );
        let page = with_lane_events(t3, lanes);
        lemma_lane_events(t3, lanes);
        assert(page == with_lanes(before, lanes));
        lemma_goes_on_further(t2, t3, page);
        lemma_goes_on_further(t1, t2, page);
        lemma_goes_on_further(t0, t1, page);
        lemma_goes_on_further(before, t0, page);
        lemma_still_mentioned(
            t0,
            page,
            sample("flowsketch_agent_af_packet_queue_local_handoff"@, 1),
        );
        assert forall|i: int| 0 <= i < lanes.len() implies mentions(
            page,
            labelled(
                capacity,
                "lane"@,
                dec(i as nat),
                (#[trigger] lanes[i]).channel_capacity as nat,
            ),
        ) && mentions(
            page,
            labelled(events, "lane"@, dec(i as nat), lanes[i].events_processed as nat),
        ) by {
            lemma_still_mentioned(
                t2,
                page,
                labelled(capacity, "lane"@, dec(i as nat), lanes[i].channel_capacity as nat),
            );
        }
    }
}

/// The page of an agent shows all of its counters, its rings, its placement, its
/// status and its lanes: whatever a part of the page shows, the page shows.
pub proof fn law_the_page_has_all_its_parts(s: &PublishedState, uptime: nat, part: Seq<char>)
    ensures
        ({
            let page = s.health_text(uptime);
            let none = Seq::<char>::empty();
            let a = with_capture_counters(none, s.counters);
            let b = with_runtime_counters(a, s.counters);
            let c = with_rings(b, s.counters);
            let d = with_affinity(
                c,
                s.runtime_shards as nat,
                s.cpu_affinity,
                s.capture_cpus@,
                s.runtime_cpus@,
            );
            let e = with_status(d, s.queries@.len(), s.ready, s.source_done, uptime);
            let f = with_lanes(e, s.lanes@);
            mentions(a, part) || mentions(b, part) || mentions(c, part) || mentions(d, part)
                || mentions(e, part) || mentions(f, part) ==> mentions(page, part)
        }),
{
    let page = s.health_text(uptime);
    let none = Seq::<char>::empty();
    let a = with_capture_counters(none, s.counters);
    let b = with_runtime_counters(a, s.counters);
    let c = with_rings(b, s.counters);
    let d = with_affinity(
        c,
        s.runtime_shards as nat,
        s.cpu_affinity,
        s.capture_cpus@,
        s.runtime_cpus@,
    );
    let e = with_status(d, s.queries@.len(), s.ready, s.source_done, uptime);
    law_runtime_counters_are_shown(a, s.counters);
    law_ring_sizes_are_shown(b, s.counters);
    law_placement_is_shown(
        c,
        s.runtime_shards as nat,
        s.cpu_affinity,
        s.capture_cpus@,
        s.runtime_cpus@,
    );
    law_status_is_shown(d, s.queries@.len(), s.ready, s.source_done, uptime);
    law_lanes_are_shown(e, s.lanes@);
    lemma_goes_on_further(d, e, page);
    lemma_goes_on_further(c, d, page);
    lemma_goes_on_further(b, c, page);
    lemma_goes_on_further(a, b, page);
    if mentions(a, part) {
        lemma_still_mentioned(a, page, part);
    } else if mentions(b, part) {
        lemma_still_mentioned(b, page, part);
    } else if mentions(c, part) {
        lemma_still_mentioned(c, page, part);
    } else if mentions(d, part) {
        lemma_still_mentioned(d, page, part);
    } else if mentions(e, part) {
        lemma_still_mentioned(e, page, part);
    }
}

} // verus!
