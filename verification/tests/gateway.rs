use flowsketch::estimate::SketchEstimate;
use flowsketch::float_bits::Float64;
use flowsketch::gateway::batch::{MAX_COMPONENT_NAME_BYTES, MAX_NODE_NAME_BYTES};
use flowsketch::gateway::client::after_push;
use flowsketch::gateway::config::{RawGatewayConfig, DEFAULT_MAX_NODES};
use flowsketch::gateway::http::{
    group_entries, invalid_batch, push_status, route, truncated_body, Route, MAX_BODY_BYTES,
};
use flowsketch::gateway::state::{ApplyResult, GatewayState, PushOutcome, QueryPush};
use flowsketch::gateway::windows::{merge_shard, MERGE_CACHE_SHARDS};
use flowsketch::gateway::{
    GatewayConfig, GatewayError, PushBatch, PushClientError, PushConfig, PushEntry,
};
use flowsketch::hash::hash64;
use flowsketch::ir::logical::MAX_QUERY_NAME_BYTES;
use flowsketch::net::retry::Step;
use serde_yaml::Value;

const SECOND: u64 = 1_000_000_000;

fn sample() -> PushBatch {
    PushBatch {
        node: "node-a".into(),
        entries: vec![
            PushEntry {
                query_name: "top_talkers".into(),
                component: "spacesaving".into(),
                snapshot: vec![1, 2, 3, 4],
            },
            PushEntry {
                query_name: "scanners".into(),
                component: "hllmap".into(),
                snapshot: vec![9; 300],
            },
        ],
    }
}

#[test]
fn batch_round_trips() {
    let batch = sample();
    let decoded = PushBatch::decode(&batch.encode()).unwrap();
    assert_eq!(decoded, batch);
}

#[test]
fn empty_batch_round_trips() {
    let batch = PushBatch {
        node: "n".into(),
        entries: vec![],
    };
    assert_eq!(PushBatch::decode(&batch.encode()).unwrap(), batch);
}

#[test]
fn corruption_is_rejected() {
    let mut bytes = sample().encode();
    let mid = bytes.len() / 2;
    bytes[mid] ^= 0xFF;
    assert!(PushBatch::decode(&bytes).is_err());
}

#[test]
fn truncation_is_rejected() {
    let bytes = sample().encode();
    assert!(PushBatch::decode(&bytes[..bytes.len() - 3]).is_err());
    assert!(PushBatch::decode(&[]).is_err());
}

#[test]
fn wrong_magic_is_rejected() {
    let mut bytes = sample().encode();
    bytes[0] = b'X';
    // Checksum fails first; rewriting it exposes the magic check.
    let n = bytes.len();
    let sum = hash64(&bytes[..n - 8], 0);
    bytes[n - 8..].copy_from_slice(&sum.to_le_bytes());
    let err = PushBatch::decode(&bytes).unwrap_err();
    assert!(err.to_string().contains("FSKB"), "{err:?}");
}

#[test]
fn oversized_or_blank_wire_identifiers_are_rejected() {
    let mut batch = sample();
    batch.node = "n".repeat(MAX_NODE_NAME_BYTES + 1);
    let error = PushBatch::decode(&batch.encode()).unwrap_err();
    assert!(error.to_string().contains("node"), "{error:?}");

    batch = sample();
    batch.node = "   ".into();
    assert!(PushBatch::decode(&batch.encode()).is_err());

    batch = sample();
    batch.entries[0].query_name = "q".repeat(MAX_QUERY_NAME_BYTES + 1);
    assert!(PushBatch::decode(&batch.encode()).is_err());

    batch = sample();
    batch.entries[0].component = "c".repeat(MAX_COMPONENT_NAME_BYTES + 1);
    assert!(PushBatch::decode(&batch.encode()).is_err());
}

#[test]
fn identifiers_that_are_no_text_are_refused() {
    let mut bytes = sample().encode();
    let n = bytes.len();
    let place = bytes.windows(6).position(|w| w == b"node-a").unwrap();
    bytes[place] = 0xFF;
    let sum = hash64(&bytes[..n - 8], 0);
    bytes[n - 8..].copy_from_slice(&sum.to_le_bytes());
    assert!(PushBatch::decode(&bytes).is_err());
}

#[test]
fn snapshots_url_appends_path_once() {
    let cfg = PushConfig {
        endpoint: "http://gw:9465".into(),
        interval_ms: 1000,
    };
    assert_eq!(cfg.snapshots_url(), "http://gw:9465/v1/snapshots");
    let cfg = PushConfig {
        endpoint: "http://gw:9465/v1/snapshots".into(),
        interval_ms: 1000,
    };
    assert_eq!(cfg.snapshots_url(), "http://gw:9465/v1/snapshots");
}

#[test]
fn unreachable_gateway_exhausts_retries() {
    let fail = || Err(PushClientError::Connect("127.0.0.1:1".into(), "refused".into()));
    assert!(matches!(after_push(0, fail()), Step::Again(200)));
    assert!(matches!(after_push(1, fail()), Step::Again(800)));
    assert!(matches!(
        after_push(2, fail()),
        Step::Finished(Err(PushClientError::RetriesExhausted { attempts: 3, .. }))
    ));
}

#[test]
fn pushes_end_on_a_verdict() {
    assert!(matches!(after_push(0, Ok(200)), Step::Finished(Ok(()))));
    assert!(matches!(
        after_push(0, Ok(422)),
        Step::Finished(Err(PushClientError::Status(422)))
    ));
    assert!(matches!(
        after_push(1, Err(PushClientError::BadEndpoint("x".into()))),
        Step::Finished(Err(PushClientError::BadEndpoint(_)))
    ));
    assert!(matches!(after_push(0, Ok(503)), Step::Again(_)));
}

/// The entries of a mapping, all of them named.
fn fields<'a>(v: &'a Value, names: &[&str]) -> Result<Vec<Option<&'a Value>>, String> {
    let map = v.as_mapping().ok_or("not a mapping")?;
    for (k, _) in map {
        if !names.contains(&k.as_str().ok_or("not a name")?) {
            return Err(format!("unknown field {k:?}"));
        }
    }
    Ok(names.iter().map(|n| v.get(*n)).collect())
}

fn gateway_yaml(yaml: &str) -> Result<GatewayConfig, String> {
    let doc: Value = serde_yaml::from_str(yaml).map_err(|e| e.to_string())?;
    let top = fields(&doc, &["gateway", "queries"])?;
    let gw = fields(
        top[0].ok_or("no gateway")?,
        &["listen", "seed", "staleAfterMs", "maxNodes"],
    )?;
    let files = top[1].ok_or("no queries")?.as_sequence().ok_or("no list")?;
    let mut query_files = Vec::new();
    for q in files {
        let f = fields(q, &["file"])?[0].ok_or("no file")?;
        query_files.push(f.as_str().ok_or("no text")?.to_string());
    }
    GatewayConfig::from_raw(RawGatewayConfig {
        listen: gw[0].map(|v| v.as_str().unwrap().to_string()),
        seed: gw[1].map(|v| v.as_u64().unwrap()),
        stale_after_ms: gw[2].map(|v| v.as_u64().unwrap()),
        max_nodes: gw[3].map(|v| v.as_u64().unwrap() as usize),
        query_files,
    })
    .map_err(|e: GatewayError| e.to_string())
}

#[test]
fn gateway_config_parses_full_config() {
    let cfg = gateway_yaml(
        "gateway:\n  listen: 127.0.0.1:0\n  seed: 7\n  staleAfterMs: 60000\n  maxNodes: 42\n\
         queries:\n  - file: q1.yaml\n  - file: q2.yaml\n",
    )
    .unwrap();
    assert_eq!(cfg.listen, "127.0.0.1:0");
    assert_eq!(cfg.seed, 7);
    assert_eq!(cfg.stale_after_ms, 60_000);
    assert_eq!(cfg.max_nodes, 42);
    assert_eq!(cfg.query_files.len(), 2);
    assert_eq!(cfg.stale_after(), 60 * SECOND);
}

#[test]
fn defaults_applied() {
    let cfg = gateway_yaml("gateway: {}\nqueries:\n  - file: q.yaml\n").unwrap();
    assert_eq!(cfg.listen, "127.0.0.1:9465");
    assert_eq!(cfg.seed, 0);
    assert_eq!(cfg.stale_after_ms, 300_000);
    assert_eq!(cfg.max_nodes, DEFAULT_MAX_NODES);
}

#[test]
fn gateway_config_rejects_empty_queries_and_unknown_keys() {
    assert!(gateway_yaml("gateway: {}\nqueries: []\n").is_err());
    assert!(gateway_yaml("gateway:\n  bogus: 1\nqueries:\n  - file: q.yaml\n").is_err());
    assert!(gateway_yaml("gateway:\n  maxNodes: 0\nqueries:\n  - file: q.yaml\n").is_err());
}

fn gateway(max_nodes: usize) -> GatewayState {
    GatewayState::new(vec!["scanners".into()], 300 * SECOND, max_nodes)
}

/// A batch with the window of one node, and the merges it asks for.
fn push(state: &mut GatewayState, node: &str, start_s: u64, end_s: u64) -> ApplyResult {
    let (result, rebuilds) = state.apply_batch(
        node,
        vec![QueryPush {
            query: "scanners".into(),
            outcome: PushOutcome::Valid {
                start: start_s * SECOND,
                end: end_s * SECOND,
                token: hash64(node.as_bytes(), 0),
            },
        }],
        1_000 * SECOND,
    );
    for r in rebuilds {
        assert_eq!(r.shards.len(), MERGE_CACHE_SHARDS);
        for shard in 0..MERGE_CACHE_SHARDS {
            if r.shards[shard] {
                let merged = state.shard_tokens(&r.query, shard).len();
                state.record_shard(&r.query, shard, merged);
            }
        }
    }
    result
}

fn scrape(state: &GatewayState) -> String {
    let estimate = SketchEstimate {
        query_name: "scanners".into(),
        window_start_nanos: 0,
        window_end_nanos: 60 * SECOND,
        group: vec![("src.ip".into(), "10.0.1.50".into())],
        estimate: Float64 {
            bits: 6.0f64.to_bits(),
        },
        lower_bound: None,
        upper_bound: None,
        confidence: None,
        algorithm: "hllmap".into(),
        sketch_bytes: 100,
        update_count: 12,
    };
    state.render_metrics(vec![estimate], vec!["6".into()], &[], 1)
}

#[test]
fn merge_prefers_window_shared_by_most_nodes() {
    let mut state = gateway(128);
    // node-a and node-c hold the established full window [0s,60s);
    // node-b just (re)started and only has the partial [50s,60s), which
    // shares the same end time.
    push(&mut state, "node-a", 0, 60);
    push(&mut state, "node-c", 0, 60);
    push(&mut state, "node-b", 50, 60);

    let merged = state.merged();
    assert_eq!(merged.len(), 1);
    let m = &merged[0];
    assert_eq!(m.window_end_nanos, 60_000_000_000);
    assert_eq!(m.nodes_known, 3);
    // The two full-window nodes merge; the lone partial window is
    // excluded rather than evicting the majority.
    assert_eq!(
        m.nodes_merged, 2,
        "partial-window straggler must not displace the established full-window nodes"
    );

    let metrics = scrape(&state);
    assert!(metrics.contains("flowsketch_gateway_merge_complete{query=\"scanners\"} 0"));
    assert!(
        !metrics.contains("flowsketch_estimate{query=\"scanners\""),
        "partial cluster estimate was exported: {metrics}"
    );
}

#[test]
fn merge_uses_freshest_end_time() {
    let mut state = gateway(128);
    // node-a is a window behind (ends 60s); node-b advanced to the next
    // window (ends 70s). The gateway reports the freshest window only.
    push(&mut state, "node-a", 0, 60);
    push(&mut state, "node-b", 10, 70);

    let merged = state.merged();
    assert_eq!(merged.len(), 1);
    assert_eq!(merged[0].window_end_nanos, 70_000_000_000);
    assert_eq!(merged[0].nodes_merged, 1);
    let metrics = scrape(&state);
    assert!(metrics.contains("flowsketch_gateway_merge_complete{query=\"scanners\"} 0"));
    assert!(!metrics.contains("flowsketch_estimate{query=\"scanners\""));
}

#[test]
fn complete_merge_exports_cluster_estimates() {
    let mut state = gateway(128);
    push(&mut state, "node-a", 0, 60);
    push(&mut state, "node-b", 0, 60);

    let metrics = scrape(&state);
    assert!(metrics.contains("flowsketch_gateway_merge_complete{query=\"scanners\"} 1"));
    assert!(metrics.contains("flowsketch_estimate{query=\"scanners\""));

    let rebuilt_before = state.counter_values().merge_cache_shard_rebuilds;
    let _ = scrape(&state);
    let _ = scrape(&state);
    assert!(state.evict_stale(1_000 * SECOND).is_empty());
    assert_eq!(
        state.counter_values().merge_cache_shard_rebuilds,
        rebuilt_before,
        "unchanged Prometheus scrapes rebuilt node-level sketch state"
    );
}

#[test]
fn same_window_node_refresh_rebuilds_one_shard_and_scrapes_reuse_cache() {
    let mut state = gateway(128);
    for index in 0..32 {
        push(&mut state, &format!("node-{index}"), 0, 60);
    }
    let _ = scrape(&state);
    assert_eq!(state.merged()[0].nodes_merged, 32);

    let before_refresh = state.counter_values().merge_cache_shard_rebuilds;
    push(&mut state, "node-7", 0, 60);
    assert_eq!(
        state.counter_values().merge_cache_shard_rebuilds - before_refresh,
        1,
        "one node refresh should rebuild only its deterministic cache shard"
    );

    let after_refresh = state.counter_values().merge_cache_shard_rebuilds;
    let _ = scrape(&state);
    let _ = scrape(&state);
    assert_eq!(
        state.counter_values().merge_cache_shard_rebuilds,
        after_refresh,
        "unchanged scrapes rebuilt node-level sketch state"
    );
}

#[test]
fn new_node_admission_is_bounded_but_existing_nodes_can_refresh() {
    let mut state = gateway(2);
    assert_eq!(push(&mut state, "node-a", 0, 60).accepted, 1);
    assert_eq!(push(&mut state, "node-b", 0, 60).accepted, 1);

    let rejected = push(&mut state, "node-c", 0, 60);
    assert_eq!(rejected.accepted, 0);
    assert_eq!(rejected.rejected.len(), 1);
    assert!(rejected.rejected[0].contains("capacity 2 is full"));

    let refresh = push(&mut state, "node-a", 10, 70);
    assert_eq!(refresh.accepted, 1);
    let metrics = scrape(&state);
    assert!(metrics.contains("flowsketch_gateway_nodes_tracked 2"));
    assert!(metrics.contains("flowsketch_gateway_nodes_capacity 2"));
    assert!(metrics.contains("flowsketch_gateway_node_admission_rejections_total 1"));
}

#[test]
fn stale_nodes_are_forgotten_and_free_their_place() {
    let mut state = gateway(1);
    assert_eq!(push(&mut state, "node-a", 0, 60).accepted, 1);
    assert_eq!(push(&mut state, "node-b", 0, 60).accepted, 0);
    assert_eq!(state.nodes_tracked(), 1);
    let _ = state.evict_stale(2_000 * SECOND);
    assert_eq!(state.nodes_tracked(), 0);
    assert!(state.merged().is_empty() || state.merged()[0].nodes_known == 0);
    assert_eq!(push(&mut state, "node-b", 0, 60).accepted, 1);
}

#[test]
fn known_nodes_are_listed_with_their_age() {
    let mut state = gateway(4);
    push(&mut state, "node-b", 0, 60);
    push(&mut state, "node-a", 10, 70);
    let list = state.nodes(1_007 * SECOND + 5);
    assert_eq!(list.len(), 1);
    assert_eq!(list[0].query, "scanners");
    let shown: Vec<(&str, u64, u64)> = list[0]
        .nodes
        .iter()
        .map(|n| (n.node.as_str(), n.window_end_nanos, n.age_seconds))
        .collect();
    assert_eq!(
        shown,
        vec![("node-a", 70 * SECOND, 7), ("node-b", 60 * SECOND, 7)]
    );
    assert!(state.is_configured("scanners") && !state.is_configured("other"));
    state.count_body_refusal();
    assert_eq!(state.counter_values().body_budget_rejections, 1);
}

#[test]
fn unknown_queries_and_bad_snapshots_are_refused_by_name() {
    let mut state = gateway(4);
    let (result, rebuilds) = state.apply_batch(
        "node-a",
        vec![
            QueryPush {
                query: "nonsense".into(),
                outcome: PushOutcome::Unknown,
            },
            QueryPush {
                query: "scanners".into(),
                outcome: PushOutcome::Invalid("hash differs".into()),
            },
        ],
        SECOND,
    );
    assert_eq!(result.accepted, 0);
    assert_eq!(result.rejected.len(), 2);
    assert!(result.rejected[0].contains("nonsense"));
    assert!(result.rejected[1].contains("hash differs"));
    assert!(rebuilds.is_empty());
    assert_eq!(state.counter_values().snapshots_rejected, 2);
    assert_eq!(push_status(&result), 400);
}

#[test]
fn nodes_spread_over_the_cache_shards() {
    for node in ["a", "b", "node-7"] {
        assert_eq!(
            merge_shard(node),
            (hash64(node.as_bytes(), 0) % MERGE_CACHE_SHARDS as u64) as usize
        );
    }
}

#[test]
fn requests_find_their_route() {
    assert!(matches!(
        route("POST", "/v1/snapshots", 10),
        Route::ReceiveSnapshots(10)
    ));
    assert!(matches!(route("GET", "/metrics", 0), Route::Metrics));
    assert!(matches!(route("GET", "/v1/queries", 0), Route::Queries));
    assert!(matches!(route("GET", "/v1/nodes", 0), Route::Nodes));
    let status = |r: Route| match r {
        Route::Answer(reply) => reply.status,
        _ => panic!("no answer"),
    };
    assert_eq!(status(route("GET", "/healthz", 0)), 200);
    assert_eq!(status(route("GET", "/readyz", 0)), 200);
    assert_eq!(status(route("GET", "/nowhere", 0)), 404);
    assert_eq!(status(route("PUT", "/metrics", 0)), 405);
    assert_eq!(status(route("POST", "/v1/snapshots", 0)), 400);
    assert_eq!(status(route("POST", "/v1/snapshots", MAX_BODY_BYTES + 1)), 413);
    assert_eq!(truncated_body().status, 400);
    assert_eq!(invalid_batch("bad").status, 400);
    assert!(invalid_batch("bad").body.contains("bad"));
}

#[test]
fn entries_are_gathered_by_query() {
    let entry = |query: &str| PushEntry {
        query_name: query.into(),
        component: "c".into(),
        snapshot: vec![],
    };
    let groups = group_entries(&[entry("b"), entry("a"), entry("b")]);
    let shown: Vec<(String, Vec<usize>)> =
        groups.into_iter().map(|g| (g.query, g.places)).collect();
    assert_eq!(
        shown,
        vec![("a".to_string(), vec![1]), ("b".to_string(), vec![0, 2])]
    );
}

#[test]
fn every_changed_batch_byte_is_refused() {
    let bytes = sample().encode();
    for i in 0..bytes.len() {
        let mut changed = bytes.clone();
        changed[i] ^= 0x10;
        assert!(PushBatch::decode(&changed).is_err(), "byte {i}");
    }
}

#[test]
fn a_taken_batch_encodes_to_the_same_bytes() {
    let bytes = sample().encode();
    assert_eq!(PushBatch::decode(&bytes).unwrap().encode(), bytes);
}

#[test]
fn windows_of_unconfigured_queries_are_never_taken() {
    let mut state = gateway(10);
    let valid = |query: &str, token| QueryPush {
        query: query.into(),
        outcome: PushOutcome::Valid {
            start: 0,
            end: 60 * SECOND,
            token,
        },
    };
    let (result, rebuilds) = state.apply_batch(
        "node-a",
        vec![valid("other", 1), valid("scanners", 2), valid("scanners2", 3)],
        1_000 * SECOND,
    );
    assert_eq!(result.accepted, 1);
    assert_eq!(
        result.rejected,
        vec![
            "query \"other\" is not configured on this gateway".to_string(),
            "query \"scanners2\" is not configured on this gateway".to_string(),
        ]
    );
    assert_eq!(rebuilds.len(), 1);
    assert_eq!(rebuilds[0].query, "scanners");
    // Alone it admits no node.
    let mut empty = GatewayState::new(vec![], 300 * SECOND, 1);
    let (result, rebuilds) = empty.apply_batch("node-a", vec![valid("scanners", 1)], 0);
    assert_eq!((result.accepted, result.rejected.len()), (0, 1));
    assert!(rebuilds.is_empty());
}
