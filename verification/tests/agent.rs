use flowsketch::agent::barrier::{Barrier, BarrierAction, BarrierEvent};
use flowsketch::agent::batching::{BatchAction, BatchEvent, Batcher};
use flowsketch::agent::session::{Session, SessionAction, SessionEvent};
use flowsketch::agent::fanout::{Fanout, FanoutAction, FanoutEvent, FanoutFault, FanoutGroup};
use flowsketch::agent::capture::{
    capture_linktype, check_lane_senders, check_single_sender, fallback_source, fanout_result,
    take_packet, take_record, CaptureOutcome, CaptureTally, Delivery, LiveTimestampBounds,
    PacketStatistics,
};
use flowsketch::agent::config::{
    AfPacketFanoutMode, CpuAffinityConfig, RawAgentConfig, RawEndpoint, RawSource,
    RuntimeShardStrategy, SourceConfig, DEFAULT_MAX_SKETCH_MEMORY_BYTES,
    MAX_MAX_SKETCH_MEMORY_BYTES, MIN_MAX_SKETCH_MEMORY_BYTES,
};
use flowsketch::agent::http::{route, Route};
use flowsketch::agent::lanes::{
    channel_capacities, check_lanes, checkpoint_plan, watermark, BarrierStage,
    DirectRuntimeOptions, LaneReport, LaneWindow,
};
use flowsketch::agent::lifecycle::{
    after_server, drain_step, interval_step, work_result, DrainStep, ExportLog,
    IntervalStep, ServerEnd,
};
use flowsketch::agent::ring::{next_block, BlockCursor, BlockFault, RingSettings};
use flowsketch::agent::state::{AgentCounters, QueryInfo};
use flowsketch::agent::worker::{
    Worker, WorkerAction, WorkerCommand, WorkerEvent, WorkerFault, WorkerPhase,
};
use flowsketch::agent::{AgentConfig, AgentError, PublishedState};
use flowsketch::ebpf::{EbpfFlowEvent, KernelClockConverter};
use flowsketch::estimate::SketchEstimate;
use flowsketch::float_bits::Float64;
use flowsketch::gateway::batch::MAX_NODE_NAME_BYTES;
use flowsketch::ip::IpAddr;
use flowsketch::pcap::{linktype, PcapReader, PcapWriter};
use serde_yaml::Value;

/// The entries of a mapping, all of them named.
fn fields<'a>(v: &'a Value, names: &[&str]) -> Result<Vec<Option<&'a Value>>, String> {
    let map = v.as_mapping().ok_or("not a mapping")?;
    for (k, _) in map {
        if !names.contains(&k.as_str().ok_or("not a name")?) {
            return Err(format!("unknown field {k:?}"));
        }
    }
    Ok(names.iter().map(|n| v.get(*n)).collect())
}

fn text(v: Option<&Value>) -> Option<String> {
    v.map(|v| v.as_str().unwrap().to_string())
}

fn whole(v: Option<&Value>) -> Option<u64> {
    v.map(|v| v.as_u64().unwrap())
}

fn list(v: &Value) -> Vec<usize> {
    let items = v.as_sequence().unwrap();
    items.iter().map(|i| i.as_u64().unwrap() as usize).collect()
}

fn source(v: &Value) -> Result<RawSource, String> {
    let kind = text(v.get("kind")).ok_or("no kind")?;
    match kind.as_str() {
        "pcap" => {
            let f = fields(v, &["kind", "path"])?;
            Ok(RawSource::Pcap {
                path: text(f[1]).ok_or("no path")?,
            })
        }
        "af_packet" => {
            let f = fields(
                v,
                &[
                    "kind",
                    "interface",
                    "ringBlockSizeBytes",
                    "ringBlockCount",
                    "blockRetireTimeoutMs",
                    "fanoutMode",
                    "fanoutGroup",
                ],
            )?;
            Ok(RawSource::AfPacket {
                interface: text(f[1]).ok_or("no interface")?,
                ring_block_size_bytes: whole(f[2]).map(|n| n as u32),
                ring_block_count: whole(f[3]).map(|n| n as u32),
                block_retire_timeout_ms: whole(f[4]).map(|n| n as u32),
                fanout_mode: match text(f[5]).as_deref() {
                    None => None,
                    Some("single") => Some(AfPacketFanoutMode::Single),
                    Some("hash") => Some(AfPacketFanoutMode::Hash),
                    Some("rx_queue") => Some(AfPacketFanoutMode::RxQueue),
                    Some(other) => return Err(other.to_string()),
                },
                fanout_group: whole(f[6]).map(|n| n as u16),
            })
        }
        "ebpf" => {
            let f = fields(
                v,
                &[
                    "kind",
                    "interface",
                    "objectPath",
                    "ringBufferBytes",
                    "fallbackToAfPacket",
                ],
            )?;
            Ok(RawSource::Ebpf {
                interface: text(f[1]).ok_or("no interface")?,
                object_path: text(f[2]).ok_or("no object")?,
                ring_buffer_bytes: whole(f[3]).map(|n| n as u32),
                fallback_to_af_packet: f[4].map(|v| v.as_bool().unwrap()),
            })
        }
        other => Err(other.to_string()),
    }
}

fn endpoint(v: Option<&Value>) -> Result<Option<RawEndpoint>, String> {
    match v {
        None => Ok(None),
        Some(v) => {
            let f = fields(v, &["endpoint", "intervalMs"])?;
            Ok(Some(RawEndpoint {
                endpoint: text(f[0]).ok_or("no endpoint")?,
                interval_ms: whole(f[1]),
            }))
        }
    }
}

fn agent_yaml(yaml: &str) -> Result<AgentConfig, String> {
    let doc: Value = serde_yaml::from_str(yaml).map_err(|e| e.to_string())?;
    let top = fields(&doc, &["agent", "queries", "export"])?;
    let a = fields(
        top[0].ok_or("no agent")?,
        &[
            "nodeName",
            "listen",
            "seed",
            "flushIntervalMs",
            "runtimeShards",
            "runtimeBatchSize",
            "maxSketchMemoryBytes",
            "runtimeShardStrategy",
            "cpuAffinity",
            "source",
        ],
    )?;
    let cpu_affinity = match a[8] {
        None => None,
        Some(v) => {
            let f = fields(v, &["captureCpus", "captureCpu", "runtimeCpus"])?;
            Some(CpuAffinityConfig {
                capture_cpus: match (f[0], f[1]) {
                    (Some(v), _) => list(v),
                    (None, Some(v)) => vec![v.as_u64().unwrap() as usize],
                    (None, None) => return Err("no capture CPU".to_string()),
                },
                runtime_cpus: list(f[2].ok_or("no runtime CPUs")?),
            })
        }
    };
    let export = match top[2] {
        None => vec![None, None],
        Some(v) => fields(v, &["otlp", "gateway"])?,
    };
    let mut query_files = Vec::new();
    for q in top[1].ok_or("no queries")?.as_sequence().unwrap() {
        query_files.push(text(fields(q, &["file"])?[0]).ok_or("no file")?);
    }
    AgentConfig::from_raw(RawAgentConfig {
        node_name: text(a[0]),
        listen: text(a[1]),
        seed: whole(a[2]),
        flush_interval_ms: whole(a[3]),
        runtime_shards: whole(a[4]).map(|n| n as usize),
        runtime_batch_size: whole(a[5]).map(|n| n as usize),
        max_sketch_memory_bytes: whole(a[6]),
        runtime_shard_strategy: match text(a[7]).as_deref() {
            None => None,
            Some("flow") => Some(RuntimeShardStrategy::Flow),
            Some("round_robin") => Some(RuntimeShardStrategy::RoundRobin),
            Some(other) => return Err(other.to_string()),
        },
        cpu_affinity,
        source: source(a[9].ok_or("no source")?)?,
        query_files,
        otlp: endpoint(export[0])?,
        gateway: endpoint(export[1])?,
    })
    .map_err(|e| e.to_string())
}

#[test]
fn config_parses_full_config() {
    let cfg = agent_yaml(
        r#"
agent:
  nodeName: node-a
  listen: 127.0.0.1:0
  seed: 7
  flushIntervalMs: 250
  runtimeShards: 4
  runtimeBatchSize: 8192
  maxSketchMemoryBytes: 2147483648
  runtimeShardStrategy: round_robin
  cpuAffinity:
    captureCpus: [0]
    runtimeCpus: [1, 2, 3, 4]
  source:
    kind: pcap
    path: demo.pcap
queries:
  - file: q1.yaml
  - file: q2.yaml
"#,
    )
    .unwrap();
    assert_eq!(cfg.node_name, "node-a");
    assert_eq!(cfg.seed, 7);
    assert_eq!(cfg.flush_interval_ms, 250);
    assert_eq!(cfg.flush_interval(), 250);
    assert_eq!(cfg.runtime_shards, 4);
    assert_eq!(cfg.runtime_batch_size, 8192);
    assert_eq!(cfg.max_sketch_memory_bytes, 2_147_483_648);
    assert_eq!(cfg.runtime_shard_strategy, RuntimeShardStrategy::RoundRobin);
    assert_eq!(
        cfg.cpu_affinity,
        Some(CpuAffinityConfig {
            capture_cpus: vec![0],
            runtime_cpus: vec![1, 2, 3, 4],
        })
    );
    assert!(matches!(cfg.source, SourceConfig::Pcap { .. }));
    assert_eq!(cfg.query_files.len(), 2);
}

#[test]
fn af_packet_source_parses() {
    let cfg = agent_yaml(
        "agent:\n  source:\n    kind: af_packet\n    interface: eth0\nqueries:\n  - file: q.yaml\n",
    )
    .unwrap();
    match cfg.source {
        SourceConfig::AfPacket {
            interface,
            ring_block_size_bytes,
            ring_block_count,
            block_retire_timeout_ms,
            fanout_mode,
            fanout_group,
        } => {
            assert_eq!(interface, "eth0");
            assert_eq!(ring_block_size_bytes, 1024 * 1024);
            assert_eq!(ring_block_count, 64);
            assert_eq!(block_retire_timeout_ms, 64);
            assert_eq!(fanout_mode, AfPacketFanoutMode::Single);
            assert_eq!(fanout_group, 0);
        }
        other => panic!("wrong source {other:?}"),
    }
    // Defaults applied.
    assert_eq!(cfg.listen, "127.0.0.1:9464");
    assert_eq!(cfg.runtime_shards, 1);
    assert_eq!(cfg.runtime_batch_size, 4096);
    assert_eq!(cfg.max_sketch_memory_bytes, DEFAULT_MAX_SKETCH_MEMORY_BYTES);
    assert_eq!(cfg.runtime_shard_strategy, RuntimeShardStrategy::Flow);
    assert!(cfg.cpu_affinity.is_none());
}

#[test]
fn validates_af_packet_ring_settings() {
    let valid = agent_yaml(
        "agent:\n  source:\n    kind: af_packet\n    interface: eth0\n    ringBlockSizeBytes: 2097152\n    ringBlockCount: 32\n    blockRetireTimeoutMs: 25\nqueries:\n  - file: q.yaml\n",
    )
    .unwrap();
    assert!(matches!(
        valid.source,
        SourceConfig::AfPacket {
            ring_block_size_bytes: 2_097_152,
            ring_block_count: 32,
            block_retire_timeout_ms: 25,
            ..
        }
    ));

    for invalid_source in [
        "interface: ''",
        "interface: ../eth0",
        "interface: interface-name-too-long",
        "interface: eth0\n    ringBlockSizeBytes: 1000000",
        "interface: eth0\n    ringBlockCount: 0",
        "interface: eth0\n    ringBlockSizeBytes: 16777216\n    ringBlockCount: 65",
        "interface: eth0\n    blockRetireTimeoutMs: 0",
    ] {
        let yaml = format!(
            "agent:\n  source:\n    kind: af_packet\n    {invalid_source}\nqueries:\n  - file: q.yaml\n"
        );
        assert!(agent_yaml(&yaml).is_err(), "accepted {yaml}");
    }
}

#[test]
fn validates_af_packet_fanout_against_runtime_shape() {
    let valid = agent_yaml(
        "agent:\n  runtimeShards: 4\n  runtimeShardStrategy: flow\n  source:\n    kind: af_packet\n    interface: eth0\n    ringBlockCount: 16\n    fanoutMode: rx_queue\n    fanoutGroup: 77\nqueries:\n  - file: q.yaml\n",
    )
    .unwrap();
    assert_eq!(valid.source.capture_lane_count(valid.runtime_shards), 4);
    assert!(matches!(
        valid.source,
        SourceConfig::AfPacket {
            fanout_mode: AfPacketFanoutMode::RxQueue,
            fanout_group: 77,
            ..
        }
    ));

    for agent in [
        "runtimeShards: 1\n  source: {kind: af_packet, interface: eth0, fanoutMode: hash}",
        "runtimeShards: 2\n  runtimeShardStrategy: round_robin\n  source: {kind: af_packet, interface: eth0, fanoutMode: rx_queue}",
        "runtimeShards: 2\n  source: {kind: af_packet, interface: eth0, ringBlockSizeBytes: 16777216, ringBlockCount: 33, fanoutMode: hash}",
    ] {
        let yaml = format!("agent:\n  {agent}\nqueries:\n  - file: q.yaml\n");
        assert!(agent_yaml(&yaml).is_err(), "accepted {yaml}");
    }
}

#[test]
fn parses_and_validates_ebpf_source() {
    let cfg = agent_yaml(
        "agent:\n  source:\n    kind: ebpf\n    interface: eth0\n    objectPath: /usr/lib/flowsketch/flowsketch_tc.bpf.o\n    ringBufferBytes: 8388608\n    fallbackToAfPacket: true\nqueries:\n  - file: q.yaml\n",
    )
    .unwrap();
    assert!(matches!(
        cfg.source,
        SourceConfig::Ebpf {
            ref interface,
            ring_buffer_bytes: 8_388_608,
            fallback_to_af_packet: true,
            ..
        } if interface == "eth0"
    ));

    for invalid_source in [
        "interface: ''\n    objectPath: x.o",
        "interface: eth0\n    objectPath: ''",
        "interface: eth0\n    objectPath: x.o\n    ringBufferBytes: 1000000",
    ] {
        let yaml = format!(
            "agent:\n  source:\n    kind: ebpf\n    {invalid_source}\nqueries:\n  - file: q.yaml\n"
        );
        assert!(agent_yaml(&yaml).is_err(), "accepted {yaml}");
    }
}

#[test]
fn parses_otlp_export_block() {
    let cfg = agent_yaml(
        "agent:\n  source: {kind: pcap, path: x.pcap}\nqueries:\n  - file: q.yaml\n\
         export:\n  otlp:\n    endpoint: http://collector:4318\n    intervalMs: 2000\n",
    )
    .unwrap();
    let otlp = cfg.otlp.expect("otlp configured");
    assert_eq!(otlp.endpoint, "http://collector:4318");
    assert_eq!(otlp.interval_ms, 2000);
    assert_eq!(otlp.metrics_url(), "http://collector:4318/v1/metrics");

    // https is rejected with direction (no TLS in v0).
    assert!(agent_yaml(
        "agent:\n  source: {kind: pcap, path: x.pcap}\nqueries:\n  - file: q.yaml\n\
         export:\n  otlp:\n    endpoint: https://collector:4318\n",
    )
    .is_err());
}

#[test]
fn parses_gateway_export_block() {
    let cfg = agent_yaml(
        "agent:\n  nodeName: node-a\n  source: {kind: pcap, path: x.pcap}\n\
         queries:\n  - file: q.yaml\n\
         export:\n  gateway:\n    endpoint: http://gw:9465\n    intervalMs: 1000\n",
    )
    .unwrap();
    let gw = cfg.gateway.expect("gateway configured");
    assert_eq!(gw.endpoint, "http://gw:9465");
    assert_eq!(gw.interval_ms, 1000);
    assert_eq!(gw.snapshots_url(), "http://gw:9465/v1/snapshots");

    // https is rejected with direction (no TLS in v0).
    assert!(agent_yaml(
        "agent:\n  nodeName: node-a\n  source: {kind: pcap, path: x.pcap}\n\
         queries:\n  - file: q.yaml\n\
         export:\n  gateway:\n    endpoint: https://gw:9465\n",
    )
    .is_err());
}

#[test]
fn gateway_push_requires_node_name() {
    // The gateway keys snapshots by node name, so gateway mode without
    // an explicit nodeName is rejected rather than defaulting to a
    // shared "unknown" id that would make agents overwrite each other.
    let without_name =
        "agent:\n  source: {kind: pcap, path: x.pcap}\nqueries:\n  - file: q.yaml\n\
         export:\n  gateway:\n    endpoint: http://gw:9465\n";
    assert!(agent_yaml(without_name).is_err());

    // A blank/whitespace nodeName is also rejected.
    assert!(agent_yaml(
        "agent:\n  nodeName: '  '\n  source: {kind: pcap, path: x.pcap}\n\
         queries:\n  - file: q.yaml\n\
         export:\n  gateway:\n    endpoint: http://gw:9465\n",
    )
    .is_err());

    // Without gateway push the default nodeName is still fine.
    assert!(agent_yaml(
        "agent:\n  source: {kind: pcap, path: x.pcap}\nqueries:\n  - file: q.yaml\n"
    )
    .is_ok());

    let oversized = "n".repeat(MAX_NODE_NAME_BYTES + 1);
    let yaml = format!(
        "agent:\n  nodeName: {oversized}\n  source: {{kind: pcap, path: x.pcap}}\n\
         queries:\n  - file: q.yaml\n"
    );
    assert!(agent_yaml(&yaml).is_err());
}

#[test]
fn validates_cpu_affinity_shape_and_bounds() {
    let valid = agent_yaml(
        "agent:\n  runtimeShards: 2\n  cpuAffinity:\n    captureCpus: [0]\n    runtimeCpus: [1, 2]\n  source: {kind: pcap, path: x.pcap}\nqueries:\n  - file: q.yaml\n",
    )
    .unwrap();
    assert_eq!(valid.cpu_affinity.unwrap().runtime_cpus, vec![1, 2]);

    let legacy = agent_yaml(
        "agent:\n  runtimeShards: 2\n  cpuAffinity:\n    captureCpu: 0\n    runtimeCpus: [1, 2]\n  source: {kind: pcap, path: x.pcap}\nqueries:\n  - file: q.yaml\n",
    )
    .unwrap();
    assert_eq!(legacy.cpu_affinity.unwrap().capture_cpus, vec![0]);

    for affinity in [
        "captureCpus: []\n    runtimeCpus: [1, 2]",
        "captureCpus: [0]\n    runtimeCpus: [1]",
        "captureCpus: [0]\n    runtimeCpus: [1, 1]",
        "captureCpus: [1024]\n    runtimeCpus: [1, 2]",
        "captureCpus: [0]\n    runtimeCpus: [1, 1024]",
    ] {
        let yaml = format!(
            "agent:\n  runtimeShards: 2\n  cpuAffinity:\n    {affinity}\n  source: {{kind: pcap, path: x.pcap}}\nqueries:\n  - file: q.yaml\n"
        );
        assert!(agent_yaml(&yaml).is_err(), "accepted {yaml}");
    }
}

#[test]
fn config_rejects_empty_queries_and_unknown_keys() {
    assert!(agent_yaml("agent:\n  source: {kind: pcap, path: x.pcap}\nqueries: []\n").is_err());
    assert!(agent_yaml(
        "agent:\n  source: {kind: pcap, path: x.pcap}\n  bogus: 1\nqueries:\n  - file: q.yaml\n"
    )
    .is_err());
    assert!(agent_yaml(
        "agent:\n  runtimeShards: 0\n  source: {kind: pcap, path: x.pcap}\nqueries:\n  - file: q.yaml\n"
    )
    .is_err());
    assert!(agent_yaml(
        "agent:\n  runtimeBatchSize: 65537\n  source: {kind: pcap, path: x.pcap}\nqueries:\n  - file: q.yaml\n"
    )
    .is_err());
    for bytes in [
        MIN_MAX_SKETCH_MEMORY_BYTES - 1,
        MAX_MAX_SKETCH_MEMORY_BYTES + 1,
    ] {
        let yaml = format!(
            "agent:\n  maxSketchMemoryBytes: {bytes}\n  source: {{kind: pcap, path: x.pcap}}\nqueries:\n  - file: q.yaml\n"
        );
        assert!(agent_yaml(&yaml).is_err(), "accepted {bytes}");
    }
}

#[test]
fn live_timestamp_bounds_quarantine_both_clock_directions() {
    let bounds = LiveTimestampBounds {
        earliest: 100,
        latest: 200,
    };
    assert!(bounds.contains(100));
    assert!(bounds.contains(150));
    assert!(bounds.contains(200));
    assert!(!bounds.contains(99));
    assert!(!bounds.contains(201));
}

fn status(method: &str, path: &str, state: &PublishedState) -> u16 {
    match route(method, path, state) {
        Route::Answer(reply) => reply.status,
        _ => 200,
    }
}

#[test]
fn readiness_fails_after_capture_source_error() {
    let mut state = PublishedState::new(vec![], 1, None);
    assert_eq!(status("GET", "/readyz", &state), 503);
    assert_eq!(status("GET", "/healthz", &state), 200);
    state.ready = true;
    assert_eq!(status("GET", "/readyz", &state), 200);
    state.source_error = Some("attach failed".into());
    assert_eq!(status("GET", "/readyz", &state), 503);
    assert_eq!(status("GET", "/healthz", &state), 503);
    assert_eq!(status("GET", "/nowhere", &state), 404);
    assert_eq!(status("POST", "/metrics", &state), 405);
    assert!(matches!(route("GET", "/metrics", &state), Route::Metrics));
}

#[test]
fn connection_drain_reports_a_stuck_worker() {
    assert!(matches!(drain_step(1, 0, 0), DrainStep::TimedOut(_)));
    assert!(matches!(drain_step(0, 0, 0), DrainStep::Done));
    assert!(matches!(drain_step(1, 10, 20), DrainStep::Sleep));
}

#[test]
fn renders_capture_accounting_and_ring_metrics() {
    let affinity = CpuAffinityConfig {
        capture_cpus: vec![0],
        runtime_cpus: vec![1, 2, 3, 4],
    };
    let mut state = PublishedState::new(vec![], 4, Some(affinity));
    state.counters = AgentCounters {
        packets_seen: 11,
        packets_parsed: 9,
        packets_unparsed: 2,
        kernel_packets: 12,
        kernel_dropped_packets: 1,
        kernel_queue_freezes: 3,
        capture_ring_bytes: 67_108_864,
        capture_ring_blocks: 64,
        capture_block_size_bytes: 1_048_576,
        ebpf_packets: 20,
        ebpf_events_emitted: 17,
        ebpf_ring_dropped_events: 1,
        ebpf_parse_errors: 1,
        ebpf_unsupported_packets: 1,
        ebpf_fallbacks: 2,
        ebpf_ring_bytes: 16_777_216,
        ..AgentCounters::new()
    };

    let metrics = state.render_health_metrics(1);
    for expected in [
        "flowsketch_agent_packets_seen_total 11\n",
        "flowsketch_agent_packets_parsed_total 9\n",
        "flowsketch_agent_packets_unparsed_total 2\n",
        "flowsketch_agent_kernel_packets_total 12\n",
        "flowsketch_agent_kernel_dropped_packets_total 1\n",
        "flowsketch_agent_kernel_queue_freezes_total 3\n",
        "flowsketch_agent_capture_ring_bytes 67108864\n",
        "flowsketch_agent_capture_ring_blocks 64\n",
        "flowsketch_agent_capture_block_size_bytes 1048576\n",
        "flowsketch_agent_ebpf_packets_total 20\n",
        "flowsketch_agent_ebpf_events_emitted_total 17\n",
        "flowsketch_agent_ebpf_ring_dropped_events_total 1\n",
        "flowsketch_agent_ebpf_parse_errors_total 1\n",
        "flowsketch_agent_ebpf_unsupported_packets_total 1\n",
        "flowsketch_agent_ebpf_fallbacks_total 2\n",
        "flowsketch_agent_ebpf_ring_bytes 16777216\n",
        "flowsketch_agent_runtime_shards 4\n",
        "flowsketch_agent_cpu_affinity_enabled 1\n",
        "flowsketch_agent_capture_cpu_affinity{cpu=\"0\"} 1\n",
        "flowsketch_agent_runtime_cpu_affinity{worker=\"3\",cpu=\"4\"} 1\n",
    ] {
        assert!(metrics.contains(expected), "missing {expected:?}");
    }
}

#[test]
fn lanes_are_counted_apart() {
    let mut state = PublishedState::new(vec![], 2, None);
    state.configure_queue_local_channels(&channel_capacities(7, 2));
    state.record_batch(2, Some(0));
    state.record_batch(1, Some(1));
    state.record_batch(1, Some(1));
    state.record_drop(Some(1));
    state.record_statistics(
        PacketStatistics {
            packets: 5,
            drops: 1,
            queue_freezes: 0,
        },
        Some(0),
    );
    state.record_ring_shape(100, 4, 25, 2);
    let metrics = state.render_health_metrics(1);
    for expected in [
        "flowsketch_agent_af_packet_queue_local_handoff 1\n",
        "flowsketch_agent_af_packet_lane_channel_capacity{lane=\"0\"} 4\n",
        "flowsketch_agent_af_packet_lane_channel_capacity{lane=\"1\"} 3\n",
        "flowsketch_agent_af_packet_lane_events_processed_total{lane=\"0\"} 2\n",
        "flowsketch_agent_af_packet_lane_events_processed_total{lane=\"1\"} 2\n",
        "flowsketch_agent_kernel_packets_total 5\n",
        "flowsketch_agent_capture_ring_bytes 200\n",
    ] {
        assert!(metrics.contains(expected), "missing {expected:?}\n{metrics}");
    }
    assert_eq!(state.counters.events_processed, 4);
    assert_eq!(state.counters.runtime_batches, 3);
    assert_eq!(state.counters.dropped_events, 1);
}

fn direct_options(lane_count: usize, batch_size: usize, total: usize) -> DirectRuntimeOptions {
    DirectRuntimeOptions {
        lane_count,
        batch_size,
        worker_cpus: None,
        total_channel_capacity: total,
    }
}

#[test]
fn rejects_zero_batch_size_before_starting_workers() {
    let error = direct_options(2, 0, 8)
        .check()
        .err()
        .expect("zero batch size must be rejected");
    assert!(error
        .to_string()
        .contains("batch size must be greater than zero"));
}

#[test]
fn lane_options_are_checked() {
    assert!(direct_options(2, 16, 7).check().is_ok());
    assert!(direct_options(0, 16, 7).check().is_err());
    assert!(direct_options(8, 16, 7).check().is_err());
    let pinned = DirectRuntimeOptions {
        worker_cpus: Some(1),
        ..direct_options(2, 16, 7)
    };
    assert!(pinned.check().is_err());
}

/// Runs a worker over a queue of timestamps that is already closed, and gives
/// the batches it counted and the commands it took.
fn run_worker(batch_size: u64, queue: Vec<u64>, commands: Vec<WorkerCommand>) -> (Vec<u64>, bool) {
    let mut queue = queue.into_iter();
    let mut commands = commands.into_iter();
    let mut worker = Worker::new(batch_size);
    let mut batches = Vec::new();
    let mut event = None;
    let mut action = WorkerAction::TryCommand;
    loop {
        if let Some(e) = event.take() {
            assert!(worker.accepts(e));
            let (next, wanted) = worker.step(e);
            worker = next;
            action = wanted;
        }
        event = Some(match action {
            WorkerAction::TryCommand => WorkerEvent::NoCommand,
            WorkerAction::WaitCommand => match commands.next() {
                Some(c) => WorkerEvent::Command(c),
                None => WorkerEvent::CommandsClosed,
            },
            WorkerAction::WaitEvent => match queue.next() {
                Some(t) => WorkerEvent::Event(t),
                None => WorkerEvent::EventsClosed,
            },
            WorkerAction::TryEvent => match queue.next() {
                Some(t) => WorkerEvent::Event(t),
                None => WorkerEvent::EventsClosed,
            },
            WorkerAction::CountBatch(n) => {
                batches.push(n);
                WorkerEvent::Done
            }
            WorkerAction::Stop => return (batches, true),
            WorkerAction::Fail(_) => return (batches, false),
            _ => WorkerEvent::Done,
        });
    }
}

#[test]
fn full_batches_do_not_dequeue_an_extra_event() {
    let (batches, stopped) = run_worker(
        4,
        (1..=25).collect(),
        vec![
            WorkerCommand::Pause,
            WorkerCommand::Checkpoint { finish: true },
        ],
    );
    assert!(stopped);
    assert_eq!(batches.iter().sum::<u64>(), 25);
    assert!(batches.iter().all(|n| *n <= 4), "{batches:?}");
}

#[test]
fn a_checkpoint_without_a_pause_is_a_fault() {
    let worker = Worker::new(2);
    let (_, action) = worker.step(WorkerEvent::Command(WorkerCommand::Checkpoint {
        finish: false,
    }));
    assert!(matches!(
        action,
        WorkerAction::Fail(WorkerFault::CheckpointBeforePause)
    ));
    assert!(WorkerFault::CheckpointBeforePause.describe(3, "").contains('3'));
    let (paused, action) = Worker::new(2).step(WorkerEvent::Command(WorkerCommand::Pause));
    assert!(matches!(action, WorkerAction::Acknowledge(None)));
    let (paused, _) = paused.step(WorkerEvent::Done);
    assert!(matches!(paused.phase, WorkerPhase::Paused));
}

fn window(start: u64, token: u64) -> LaneWindow {
    LaneWindow {
        query: "q".into(),
        start,
        end: start + 10,
        token,
    }
}

fn report(completed: Vec<LaneWindow>, current: Vec<LaneWindow>) -> LaneReport {
    LaneReport {
        completed,
        current,
        sketch_memory_bytes: 100,
        late_events: 1,
    }
}

#[test]
fn checkpoints_merge_equal_windows_of_all_lanes() {
    let reports = vec![
        report(vec![window(0, 1), window(10, 2)], vec![window(20, 3)]),
        report(vec![window(0, 4)], vec![window(20, 5)]),
    ];
    let planned = ["q".to_string()];
    let plan = checkpoint_plan(reports, true, &planned).unwrap();
    let groups: Vec<(u64, Vec<u64>)> = plan
        .completed
        .iter()
        .map(|g| (g.start, g.tokens.clone()))
        .collect();
    assert_eq!(groups, vec![(0, vec![1, 4]), (10, vec![2])]);
    assert_eq!(plan.current.len(), 1);
    assert_eq!(plan.current[0].tokens, vec![3, 5]);
    assert_eq!(plan.sketch_memory_bytes, 200);
    assert_eq!(plan.late_events, 2);

    let unaligned = vec![
        report(vec![], vec![window(20, 3)]),
        report(vec![], vec![window(30, 5)]),
    ];
    assert!(checkpoint_plan(unaligned, true, &planned).is_err());
}

#[test]
fn barriers_hear_every_lane_once() {
    assert!(check_lanes(&vec![2, 0, 1], BarrierStage::Publication).is_ok());
    assert!(check_lanes(&vec![0, 0, 1], BarrierStage::Publication).is_err());
    assert!(check_lanes(&vec![0, 2], BarrierStage::Checkpoint).is_err());
    assert_eq!(watermark(&[Some(3), None, Some(9)]), Some(9));
    assert_eq!(watermark(&[None]), None);
    assert_eq!(channel_capacities(7, 3), vec![3, 2, 2]);
}

#[test]
fn packets_become_events_within_the_clock_bounds() {
    let mut w = PcapWriter::new();
    w.write_tcp_packet(
        5,
        IpAddr::v4(10, 0, 0, 1),
        IpAddr::v4(10, 0, 0, 2),
        1,
        443,
        2,
        10,
    );
    let (_, wire_len, frame) = PcapReader::new(w.take_bytes())
        .unwrap()
        .next_packet()
        .unwrap()
        .unwrap();
    let bounds = LiveTimestampBounds::around(1_000_000_000_000);
    let mut tally = CaptureTally::new();
    let taken = take_packet(linktype::ETHERNET, &frame, wire_len, 1_000_000_000_000, bounds);
    match &taken {
        CaptureOutcome::Event(e) => assert_eq!((e.dst_port, e.ts_nanos), (443, 1_000_000_000_000)),
        _ => panic!("the packet is sound"),
    }
    tally.count(&taken);
    tally.count(&take_packet(linktype::ETHERNET, &frame, wire_len, 5, bounds));
    tally.count(&take_packet(linktype::ETHERNET, &frame[..10], wire_len, 1_000_000_000_000, bounds));
    assert_eq!(tally.seen, 3);
    assert_eq!(tally.parsed, 1);
    assert_eq!(tally.bad_timestamps, 1);
    let mut state = PublishedState::new(vec![], 1, None);
    state.record_packets(tally, None);
    assert_eq!(state.counters.packets_seen, 3);
    assert_eq!(state.counters.invalid_timestamps, 1);
}

#[test]
fn framing_follows_the_hardware_type() {
    for hardware in [1, 772] {
        assert_eq!(capture_linktype("eth0", hardware).unwrap(), linktype::ETHERNET);
    }
    for hardware in [519, 65_534] {
        assert_eq!(capture_linktype("wg0", hardware).unwrap(), linktype::RAW_IP);
    }
    assert_eq!(
        capture_linktype("wlan0", 803).unwrap_err().to_string(),
        "source error: interface \"wlan0\" has unsupported hardware type 803"
    );
}

/// The actions of a fan-out whose outside work comes out as told.
fn fanout(lanes: usize, group: u16, outcomes: &[FanoutEvent]) -> Vec<FanoutAction> {
    let (mut fanout, first) = Fanout::new(lanes, group);
    let mut actions = vec![first];
    for outcome in outcomes {
        assert!(fanout.accepts(*outcome), "{outcome:?} in {fanout:?}");
        let (next, action) = fanout.step(*outcome);
        fanout = next;
        actions.push(action);
    }
    actions
}

#[test]
fn the_barrier_takes_all_lanes_to_the_latest_time() {
    let (barrier, action) = Barrier::new(false);
    assert!(matches!(action, BarrierAction::Pause));
    assert!(!barrier.accepts(&BarrierEvent::Done));
    let paused = BarrierEvent::Paused(vec![1, 0], vec![Some(5), Some(9)]);
    let (barrier, action) = barrier.step(paused);
    assert!(matches!(action, BarrierAction::AskExport));
    let (barrier, action) = barrier.step(BarrierEvent::Due(true));
    assert!(matches!(
        action,
        BarrierAction::Checkpoint {
            watermark: Some(9),
            include_current: true,
            finish: false
        }
    ));
    let (barrier, action) = barrier.step(BarrierEvent::Heard(vec![0, 1]));
    assert!(matches!(
        action,
        BarrierAction::Publish {
            include_current: true
        }
    ));
    assert!(matches!(
        barrier.step(BarrierEvent::Done).1,
        BarrierAction::Pass
    ));
}

#[test]
fn the_barrier_misses_no_lane() {
    let (barrier, action) = Barrier::new(true);
    assert!(matches!(action, BarrierAction::GatherDrained));
    match barrier.step(BarrierEvent::Heard(vec![0, 0])).1 {
        BarrierAction::Fail(e) => assert_eq!(
            e.to_string(),
            "source error: queue-local final drain received duplicate or missing lane 0; \
             expected lane 1"
        ),
        other => panic!("{other:?}"),
    }
    let (barrier, _) = barrier.step(BarrierEvent::Heard(vec![0]));
    let (barrier, _) = barrier.step(BarrierEvent::Paused(vec![0], vec![None]));
    let (barrier, _) = barrier.step(BarrierEvent::Due(false));
    let (barrier, _) = barrier.step(BarrierEvent::Heard(vec![0]));
    let (barrier, action) = barrier.step(BarrierEvent::Done);
    assert!(matches!(action, BarrierAction::JoinWorkers));
    assert!(matches!(
        barrier.step(BarrierEvent::Panicked).1,
        BarrierAction::Fail(_)
    ));
}

#[test]
fn fan_out_joins_every_socket_before_any_reader() {
    let done = FanoutEvent::Done;
    let actions = fanout(
        2,
        0,
        &[
            done,
            FanoutEvent::Group(9),
            done,
            done,
            done,
            done,
            done,
            done,
            done,
            FanoutEvent::Panicked,
        ],
    );
    assert_eq!(
        actions,
        vec![
            FanoutAction::Open {
                lane: 0,
                group: FanoutGroup::AllocateUnique
            },
            FanoutAction::AskGroup,
            FanoutAction::Open {
                lane: 1,
                group: FanoutGroup::Join(9)
            },
            FanoutAction::Announce { group: 9 },
            FanoutAction::Start { lane: 0 },
            FanoutAction::Start { lane: 1 },
            FanoutAction::WaitReport,
            FanoutAction::Stop,
            FanoutAction::Join { lane: 0 },
            FanoutAction::Join { lane: 1 },
            FanoutAction::Conclude { panicked: Some(1) },
        ]
    );
}

#[test]
fn fan_out_fails_closed() {
    let done = FanoutEvent::Done;
    let failed = FanoutEvent::Failed;
    // A socket that does not open: no reader was started.
    let actions = fanout(2, 7, &[done, failed]);
    assert_eq!(
        actions.last(),
        Some(&FanoutAction::Fail(FanoutFault::Open {
            lane: 1,
            group: Some(7)
        }))
    );
    // A reader that does not start: those before it are stopped and joined.
    let actions = fanout(3, 7, &[done, done, done, done, done, failed, done, done]);
    assert_eq!(
        actions[6..],
        [
            FanoutAction::Stop,
            FanoutAction::Join { lane: 0 },
            FanoutAction::Fail(FanoutFault::Spawn { lane: 1 }),
        ]
    );
    let actions = fanout(1, 7, &[done, done, done, failed]);
    assert_eq!(actions.last(), Some(&FanoutAction::Fail(FanoutFault::Silent)));
    assert_eq!(
        FanoutFault::Open {
            lane: 1,
            group: Some(7)
        }
        .describe(2, "x"),
        "cannot create AF_PACKET fan-out lane 1/2 in group 7: x"
    );
    assert_eq!(
        FanoutFault::Open {
            lane: 0,
            group: None
        }
        .describe(2, "x"),
        "cannot create AF_PACKET fan-out lane 0/2: x"
    );
    assert_eq!(
        FanoutFault::Spawn { lane: 1 }.describe(2, "x"),
        "cannot spawn AF_PACKET fan-out lane 1: x"
    );
}

#[test]
fn the_engine_loop_processes_every_event_and_publishes_last() {
    let mut queue = 0..10;
    let mut batcher = Batcher::new(4);
    let mut action = BatchAction::WaitEvent;
    let mut batches = Vec::new();
    let mut log = Vec::new();
    loop {
        let outcome = match action {
            BatchAction::WaitEvent | BatchAction::TryEvent => match queue.next() {
                Some(_) => BatchEvent::Event,
                None => BatchEvent::Closed,
            },
            BatchAction::Process(n) => {
                batches.push(n);
                BatchEvent::Done
            }
            BatchAction::Publish { last } => {
                log.push(last);
                BatchEvent::Done
            }
            BatchAction::Count(_) | BatchAction::Finish => BatchEvent::Done,
            BatchAction::End => break,
        };
        assert!(batcher.accepts(outcome));
        (batcher, action) = batcher.step(outcome);
    }
    assert_eq!(batches, vec![4, 4, 2]);
    assert_eq!(log, vec![false, false, false, true]);
    // An idle queue publishes without a batch.
    let (idle, action) = Batcher::new(4).step(BatchEvent::NoEvent);
    assert_eq!(action, BatchAction::Publish { last: false });
    assert!(!idle.accepts(BatchEvent::Event));
}

#[test]
fn kernel_records_are_dated_by_the_clock() {
    let record = EbpfFlowEvent {
        ts_nanos: 50,
        src_ip: [0; 16],
        dst_ip: [0; 16],
        bytes: 60,
        interface_index: 1,
        src_port: 1,
        dst_port: 2,
        protocol: 17,
        ip_version: 4,
        tcp_flags: 0,
        direction: 1,
    };
    let clock = KernelClockConverter::from_samples(0, 1_000);
    let bounds = LiveTimestampBounds {
        earliest: 1_000,
        latest: 2_000,
    };
    match take_record(record, clock, bounds) {
        CaptureOutcome::Event(e) => assert_eq!(e.ts_nanos, 1_050),
        _ => panic!("the record is sound"),
    }
    let late = KernelClockConverter::from_samples(0, 5_000);
    assert!(matches!(
        take_record(record, late, bounds),
        CaptureOutcome::BadTimestamp
    ));
}

#[test]
fn senders_match_the_capture() {
    assert!(check_single_sender(1).is_ok());
    assert!(check_single_sender(2).is_err());
    assert!(check_lane_senders(2, &[0, 1]).is_ok());
    assert!(check_lane_senders(2, &[0]).is_err());
    assert!(check_lane_senders(2, &[1, 0]).is_err());
    assert!(fanout_result(vec![Ok(()), Ok(())], None).is_ok());
    assert!(fanout_result(vec![Ok(()), Err(AgentError::Source("x".into()))], None).is_err());
    assert!(fanout_result(vec![Ok(())], Some(1)).is_err());
    assert!(matches!(
        fallback_source("eth0".into()),
        SourceConfig::AfPacket { interface, .. } if interface == "eth0"
    ));
}

#[test]
fn ring_blocks_are_walked_within_their_bounds() {
    let shape = RingSettings {
        block_size_bytes: 1 << 20,
        block_count: 4,
        retire_timeout_ms: 10,
    }
    .shape(4_096)
    .unwrap();
    assert_eq!(shape.ring_bytes, 4 << 20);
    assert_eq!(shape.frame_count, (4 << 20) / 2_048);
    assert_eq!((next_block(0, 2), next_block(1, 2)), (1, 0));

    let mut block = vec![0u8; 256];
    let put = |b: &mut Vec<u8>, at: usize, v: u32| b[at..at + 4].copy_from_slice(&v.to_le_bytes());
    put(&mut block, 0, 2); // version
    put(&mut block, 12, 1); // packets
    put(&mut block, 16, 48); // first packet
    put(&mut block, 20, 256); // bytes in use
    let cursor = BlockCursor::open(&block, true).unwrap();
    put(&mut block, 48 + 4, 7); // seconds
    put(&mut block, 48 + 8, 9); // nanoseconds
    put(&mut block, 48 + 12, 20); // captured
    put(&mut block, 48 + 16, 60); // on the wire
    block[48 + 24..48 + 26].copy_from_slice(&64u16.to_le_bytes());
    let (place, rest) = cursor.next_packet(&block, true).unwrap().unwrap();
    assert_eq!((place.start, place.end), (112, 132));
    assert_eq!(place.wire_len, 60);
    assert_eq!(place.timestamp_nanos, 7_000_000_009);
    assert!(rest.next_packet(&block, true).unwrap().is_none());

    put(&mut block, 0, 9);
    assert!(matches!(
        BlockCursor::open(&block, true),
        Err(BlockFault::Version(9))
    ));
}

fn estimate(query: &str, end: u64) -> SketchEstimate {
    SketchEstimate {
        query_name: query.into(),
        window_start_nanos: 0,
        window_end_nanos: end,
        group: vec![],
        estimate: Float64 {
            bits: 3.0f64.to_bits(),
        },
        lower_bound: None,
        upper_bound: None,
        confidence: None,
        algorithm: "exact".into(),
        sketch_bytes: 1,
        update_count: 1,
    }
}

#[test]
fn only_the_latest_window_of_a_query_is_published() {
    let info = QueryInfo {
        name: "a".into(),
        algorithm: "exact".into(),
        window: "60s".into(),
        error_kind: "relative".into(),
        error_contract: "".into(),
        estimated_memory_bytes: 1,
        max_series: 5,
        window_size_nanos: 60_000_000_000,
        otlp_unit: "bytes".into(),
    };
    let mut state = PublishedState::new(vec![info], 1, None);
    state.publish(vec![estimate("a", 10), estimate("b", 5)], 7, 1);
    state.publish(vec![estimate("a", 20)], 8, 2);
    let kept: Vec<(String, u64)> = state
        .latest_estimates()
        .iter()
        .map(|e| (e.query_name.clone(), e.window_end_nanos))
        .collect();
    assert!(kept.contains(&("a".to_string(), 20)));
    assert!(kept.contains(&("b".to_string(), 5)));
    assert_eq!(kept.len(), 2);
    let shown: Vec<String> = kept.iter().map(|_| "3".to_string()).collect();
    let reply = state.metrics_reply(&shown, &state.export_info(), 1);
    assert_eq!(reply.status, 200);
    assert!(reply.body.contains("flowsketch_estimate{query=\"a\""));
    assert!(state.snapshot_export_due(0, true) == state.snapshot_export_due(0, false));
    state.enable_snapshot_export(100);
    assert!(state.snapshot_export_due(0, false));
    state.note_snapshot_export(1_000);
    assert!(!state.snapshot_export_due(1_050, false));
    assert!(state.snapshot_export_due(1_050, true));
    assert!(state.snapshot_export_due(1_100, false));
}

/// The actions of a run whose outside work comes out as told.
fn session(exports: bool, pushes: bool, outcomes: &[SessionEvent]) -> Vec<SessionAction> {
    let mut session = Session::new(exports, pushes);
    let mut actions = vec![SessionAction::OpenRuntime];
    for outcome in outcomes {
        assert!(session.accepts(*outcome), "{outcome:?} in {session:?}");
        let (next, action) = session.step(*outcome);
        session = next;
        actions.push(action);
    }
    actions
}

#[test]
fn capture_stops_first_and_services_are_joined_last() {
    let done = SessionEvent::Done;
    let actions = session(
        true,
        true,
        &[
            done,
            done,
            done,
            done,
            done,
            done,
            done,
            done,
            SessionEvent::Captured {
                ok: true,
                shutdown: false,
            },
            done,
            done,
            done,
            done,
            done,
            done,
        ],
    );
    assert_eq!(
        actions,
        vec![
            SessionAction::OpenRuntime,
            SessionAction::Bind,
            SessionAction::StartServer,
            SessionAction::StartExporter,
            SessionAction::StartPusher,
            SessionAction::Announce,
            SessionAction::StartCapture,
            SessionAction::RunEngine,
            SessionAction::JoinCapture,
            SessionAction::Serve,
            SessionAction::Withdraw,
            SessionAction::StopServices,
            SessionAction::JoinServer,
            SessionAction::JoinExporter,
            SessionAction::JoinPusher,
            SessionAction::Return,
        ]
    );
}

#[test]
fn a_run_that_cannot_start_joins_what_it_has_started() {
    let done = SessionEvent::Done;
    let failed = SessionEvent::Failed;
    assert_eq!(session(true, true, &[failed])[1], SessionAction::Return);
    let actions = session(true, true, &[done, done, done, done, failed, done, done, done]);
    assert_eq!(
        actions[5..],
        [
            SessionAction::StopServices,
            SessionAction::JoinServer,
            SessionAction::JoinExporter,
            SessionAction::Return,
        ]
    );
    let shutdown = SessionEvent::Captured {
        ok: true,
        shutdown: true,
    };
    let actions = session(false, false, &[done, done, done, done, done, done, shutdown]);
    assert_eq!(actions.last(), Some(&SessionAction::Withdraw));
}

#[test]
fn the_agent_ends_as_its_parts_do() {
    assert!(work_result(Ok(()), Ok(())).is_ok());
    assert!(work_result(Ok(()), Err(AgentError::Source("x".into()))).is_err());
    assert!(after_server(Ok(()), ServerEnd::Clean).is_ok());
    assert!(after_server(Ok(()), ServerEnd::Panicked).is_err());
    assert!(after_server(Ok(()), ServerEnd::Failed("x".into())).is_err());
    assert!(matches!(interval_step(0, 250, false), IntervalStep::Sleep(100)));
    assert!(matches!(interval_step(200, 250, false), IntervalStep::Sleep(50)));
    assert!(matches!(interval_step(250, 250, false), IntervalStep::Due));
    assert!(matches!(interval_step(0, 250, true), IntervalStep::Stop));
    let mut log = ExportLog::new();
    assert!(log.is_new(&estimate("a", 10)));
    log.note(&estimate("a", 10));
    assert!(!log.is_new(&estimate("a", 10)));
    assert!(log.is_new(&estimate("a", 20)));
    assert!(log.is_new(&estimate("b", 10)));
    assert_eq!(
        AgentError::Source("x".into()).to_string(),
        "source error: x"
    );
}

#[test]
fn a_full_queue_drops_and_a_closed_one_ends_capture() {
    assert!(!Delivery::Sent.is_drop() && Delivery::Sent.goes_on());
    assert!(Delivery::Full.is_drop() && Delivery::Full.goes_on());
    assert!(!Delivery::Closed.is_drop() && !Delivery::Closed.goes_on());
}
