use flowsketch::agent::config::{admit_plan, RawAgentConfig, RawSource};
use flowsketch::agent::AgentConfig;
use flowsketch::event::{protocol, FlowEvent};
use flowsketch::field::Field;
use flowsketch::float_bits::Float64;
use flowsketch::hash::HashSpec;
use flowsketch::ir::logical::{humanize_nanos, AlertSpec, LogicalQuery, Measure, WindowSpec};
use flowsketch::ir::physical::PhysicalSketch;
use flowsketch::ir::query::{
    parse_duration, parse_memory, Ports, RawAlert, RawError, RawExport, RawMatch, RawMeasure,
    RawProtocol, RawQuery, RawResources, RawWindow,
};
use flowsketch::planner::{explain, plan, ErrorKind, Plan, PlanError, ShownNumbers, Sizing};
use serde_yaml::Value;

fn float(x: f64) -> Float64 {
    Float64 { bits: x.to_bits() }
}

fn value(x: Float64) -> f64 {
    f64::from_bits(x.bits)
}

/// The entries of a mapping, all of them named.
fn fields<'a>(v: &'a Value, names: &[&str]) -> Result<Vec<Option<&'a Value>>, String> {
    let map = v.as_mapping().ok_or("not a mapping")?;
    for (k, _) in map {
        if !names.contains(&k.as_str().ok_or("not a name")?) {
            return Err(format!("unknown field {k:?}"));
        }
    }
    Ok(names.iter().map(|n| v.get(*n)).collect())
}

fn text(v: Option<&Value>) -> Option<String> {
    v.map(|v| v.as_str().unwrap().to_string())
}

fn number(v: Option<&Value>) -> Option<Float64> {
    v.map(|v| float(v.as_f64().unwrap()))
}

fn count(v: Option<&Value>) -> Option<usize> {
    v.map(|v| v.as_u64().unwrap() as usize)
}

fn ports(v: Option<&Value>) -> Option<Ports> {
    v.map(|v| match v.as_sequence() {
        Some(many) => Ports::Many(many.iter().map(|p| p.as_u64().unwrap() as u16).collect()),
        None => Ports::One(v.as_u64().unwrap() as u16),
    })
}

fn raw_query(yaml: &str) -> Result<RawQuery, String> {
    let doc: Value = serde_yaml::from_str(yaml).map_err(|e| e.to_string())?;
    let top = fields(
        &doc,
        &[
            "name", "window", "match", "groupBy", "measure", "alertIf", "export", "resources",
        ],
    )?;
    let window = fields(top[1].ok_or("no window")?, &["size", "slide"])?;
    let filter = match top[2] {
        None => None,
        Some(v) => {
            let m = fields(v, &["protocol", "dst.port", "src.port", "interfaces"])?;
            Some(RawMatch {
                protocol: m[0].map(|p| match p {
                    Value::String(s) => RawProtocol::Name(s.clone()),
                    Value::Number(n) => RawProtocol::Number(n.as_u64()),
                    other => RawProtocol::Other(format!("{other:?}")),
                }),
                dst_port: ports(m[1]),
                src_port: ports(m[2]),
                interfaces: m[3].map(|v| {
                    let list = v.as_sequence().unwrap();
                    list.iter().map(|i| i.as_u64().unwrap() as u32).collect()
                }),
            })
        }
    };
    let m = fields(
        top[4].ok_or("no measure")?,
        &["type", "value", "field", "limit", "q", "error"],
    )?;
    let error = match m[5] {
        None => None,
        Some(v) => {
            let e = fields(v, &["epsilon", "delta"])?;
            Some(RawError {
                epsilon: number(e[0]),
                delta: number(e[1]),
            })
        }
    };
    let alert_if = match top[5] {
        None => None,
        Some(v) => {
            let a = fields(v, &["gt", "lt"])?;
            Some(RawAlert {
                gt: number(a[0]),
                lt: number(a[1]),
            })
        }
    };
    let export = match top[6] {
        None => None,
        Some(v) => {
            let e = fields(v, &["prometheus", "maxSeries"])?;
            Some(RawExport {
                prometheus: e[0].map(|b| b.as_bool().unwrap()),
                max_series: count(e[1]),
            })
        }
    };
    let resources = match top[7] {
        None => None,
        Some(v) => Some(RawResources {
            max_memory: text(fields(v, &["maxMemory"])?[0]),
        }),
    };
    Ok(RawQuery {
        name: text(top[0]).ok_or("no name")?,
        window: RawWindow {
            size: text(window[0]).ok_or("no size")?,
            slide: text(window[1]),
        },
        filter,
        group_by: match top[3] {
            None => vec![],
            Some(v) => {
                let list = v.as_sequence().unwrap();
                list.iter().map(|f| f.as_str().unwrap().to_string()).collect()
            }
        },
        measure: RawMeasure {
            kind: text(m[0]).ok_or("no type")?,
            value: text(m[1]),
            field: text(m[2]),
            limit: count(m[3]),
            q: number(m[4]),
            error,
        },
        alert_if,
        export,
        resources,
    })
}

fn parse_query_yaml(yaml: &str) -> Result<LogicalQuery, String> {
    raw_query(yaml)?.into_logical().map_err(|e| e.to_string())
}

fn sizing(epsilon: f64, delta: f64) -> Sizing {
    let floor = 1.0 / 18_446_744_073_709_551_616.0f64;
    let precision = ((1.04 / epsilon).powi(2).log2().ceil() as i64).clamp(4, 18) as u8;
    let k = ((2.3 / epsilon).ceil() as usize).clamp(8, 1 << 16);
    Sizing {
        width: (std::f64::consts::E / epsilon).ceil() as usize,
        depth: (1.0 / (delta - floor)).ln().ceil().max(1.0) as usize,
        inverse_epsilon: (1.0 / epsilon).ceil() as usize,
        precision,
        precision_is_short: 1.04 / ((1u64 << precision) as f64).sqrt() > epsilon,
        k,
        k_is_short: 2.3 / k as f64 > epsilon,
    }
}

fn plan_yaml(yaml: &str) -> Result<Plan, PlanError> {
    let q = parse_query_yaml(yaml).unwrap();
    let s = sizing(value(q.error.epsilon), value(q.error.delta));
    plan(q, &HashSpec::new(0), &s)
}

fn shown() -> ShownNumbers {
    ShownNumbers {
        epsilon: "0.001".into(),
        delta: "0.01".into(),
        tracked_share: "0.001".into(),
        relative_percent: "0.81".into(),
        relative_percent_fine: "0.203".into(),
        rank_error: "0.0100".into(),
        rank_error_fine: "0.01000".into(),
        q: "0.99".into(),
        alert_gt: "5000".into(),
        alert_lt: "5".into(),
    }
}

#[test]
fn parses_top_talkers() {
    let q = parse_query_yaml(
        r#"
name: top_talkers
window:
  size: 60s
  slide: 10s
groupBy:
  - src.ip
  - dst.ip
measure:
  type: heavy_hitters
  value: bytes
  limit: 100
"#,
    )
    .unwrap();
    assert_eq!(q.name, "top_talkers");
    assert_eq!(q.window.size_nanos, 60_000_000_000);
    assert_eq!(q.window.slide_nanos, 10_000_000_000);
    assert_eq!(q.window.bucket_count(), 6);
    assert_eq!(q.group_by, vec![Field::SrcIp, Field::DstIp]);
    assert_eq!(
        q.measure,
        Measure::HeavyHitters {
            value: Field::Bytes,
            limit: 100
        }
    );
}

#[test]
fn parses_scanner_query_with_filter_and_alert() {
    let q = parse_query_yaml(
        r#"
name: suspected_scanners
window:
  size: 60s
  slide: 10s
match:
  protocol: tcp
  dst.port: [22, 80, 443, 5432, 6379]
groupBy:
  - src.ip
measure:
  type: distinct_count
  field: dst.ip
  error:
    epsilon: 0.02
alertIf:
  gt: 5000
export:
  maxSeries: 500
resources:
  maxMemory: 64MiB
"#,
    )
    .unwrap();
    assert_eq!(q.filter.protocol, Some(protocol::TCP));
    assert_eq!(q.filter.dst_ports, vec![22, 80, 443, 5432, 6379]);
    assert_eq!(
        q.measure,
        Measure::DistinctCount {
            field: Field::DstIp
        }
    );
    assert_eq!(q.alert.gt, Some(float(5000.0)));
    assert_eq!(q.export.max_series, 500);
    assert_eq!(q.max_memory_bytes, 64 * 1024 * 1024);
    assert_eq!(value(q.error.epsilon), 0.02);
}

#[test]
fn distinct_count_gets_cardinality_default_epsilon() {
    let q = parse_query_yaml(
        "name: d\nwindow: {size: 60s}\ngroupBy: [src.ip]\n\
         measure: {type: distinct_count, field: dst.ip}\n",
    )
    .unwrap();
    assert_eq!(value(q.error.epsilon), 0.0163);

    // Explicit epsilon survives as written, even when very tight.
    let q = parse_query_yaml(
        "name: d\nwindow: {size: 60s}\ngroupBy: [src.ip]\n\
         measure: {type: distinct_count, field: dst.ip, error: {epsilon: 0.0005}}\n",
    )
    .unwrap();
    assert_eq!(value(q.error.epsilon), 0.0005);
}

#[test]
fn tumbling_window_when_slide_omitted() {
    let q = parse_query_yaml(
        "name: t\nwindow:\n  size: 30s\ngroupBy: [protocol]\nmeasure:\n  type: count\n",
    )
    .unwrap();
    assert_eq!(q.window.slide_nanos, q.window.size_nanos);
    assert_eq!(q.window.bucket_count(), 1);
}

#[test]
fn rejects_bad_queries() {
    // Unknown field
    assert!(parse_query_yaml(
        "name: q\nwindow: {size: 10s}\ngroupBy: [nonsense]\nmeasure: {type: count}\n"
    )
    .is_err());
    // Slide > size
    assert!(parse_query_yaml(
        "name: q\nwindow: {size: 10s, slide: 20s}\ngroupBy: [src.ip]\nmeasure: {type: count}\n"
    )
    .is_err());
    // Non-divisible slide
    assert!(parse_query_yaml(
        "name: q\nwindow: {size: 60s, slide: 25s}\ngroupBy: [src.ip]\nmeasure: {type: count}\n"
    )
    .is_err());
    // heavy_hitters without groupBy
    assert!(parse_query_yaml(
        "name: q\nwindow: {size: 10s}\nmeasure: {type: heavy_hitters, value: bytes}\n"
    )
    .is_err());
    // distinct_count field also in groupBy
    assert!(parse_query_yaml(
        "name: q\nwindow: {size: 10s}\ngroupBy: [dst.ip]\nmeasure: {type: distinct_count, field: dst.ip}\n"
    )
    .is_err());
    // Unknown measure
    assert!(parse_query_yaml(
        "name: q\nwindow: {size: 10s}\ngroupBy: [src.ip]\nmeasure: {type: median}\n"
    )
    .is_err());
    // Non-numeric quantile field (would silently produce zero quantiles)
    assert!(parse_query_yaml(
        "name: q\nwindow: {size: 10s}\nmeasure: {type: quantile, field: src.ip, q: 0.9}\n"
    )
    .is_err());
    // Unknown top-level key
    assert!(parse_query_yaml(
        "name: q\nwindow: {size: 10s}\ngroupBy: [src.ip]\nmeasure: {type: count}\nbogus: 1\n"
    )
    .is_err());
}

#[test]
fn refusals_quote_what_was_written() {
    let name = "a \"b\"\n\u{7f}é";
    let yaml = serde_yaml::to_string(&Value::String(name.to_string())).unwrap();
    let refused = parse_query_yaml(&format!(
        "name: {}\nwindow: {{size: 10s}}\nmeasure: {{type: count}}\n",
        yaml.trim_end()
    ))
    .unwrap_err();
    assert_eq!(
        refused,
        format!("invalid query: query name {name:?} must be alphanumeric with '_' or '-'")
    );
    let refused = parse_query_yaml(
        "name: q\nwindow: {size: 10s}\nmatch: {protocol: 256}\nmeasure: {type: count}\n",
    )
    .unwrap_err();
    assert_eq!(refused, "invalid query: protocol number must be 0-255");
    let refused = parse_query_yaml(
        "name: q\nwindow: {size: 10s}\nmatch: {protocol: nope}\nmeasure: {type: count}\n",
    )
    .unwrap_err();
    assert_eq!(refused, "invalid query: unknown protocol \"nope\"");
}

#[test]
fn duration_and_memory_parsing() {
    assert_eq!(parse_duration("10s").unwrap(), 10_000_000_000);
    assert_eq!(parse_duration("5m").unwrap(), 300_000_000_000);
    assert_eq!(parse_duration("500ms").unwrap(), 500_000_000);
    assert!(parse_duration("10").is_err());
    assert!(parse_duration("10parsecs").is_err());
    assert_eq!(parse_memory("64MiB").unwrap(), 64 * 1024 * 1024);
    assert_eq!(parse_memory("1GiB").unwrap(), 1 << 30);
    assert!(parse_memory("64MB").is_err());
}

#[test]
fn shown_durations_read_back() {
    for nanos in [1_000_000u64, 250_000_000, 10_000_000_000, 300_000_000_000] {
        assert_eq!(parse_duration(&humanize_nanos(nanos)).unwrap(), nanos);
    }
    let sliding = WindowSpec {
        size_nanos: 60_000_000_000,
        slide_nanos: 10_000_000_000,
    };
    assert_eq!(sliding.describe(), "60s");
    assert_eq!(WindowSpec::tumbling(30_000_000_000).bucket_count(), 1);
}

#[test]
fn filters_are_conjunctive() {
    let q = parse_query_yaml(
        "name: q\nwindow: {size: 10s}\nmatch: {protocol: 17, dst.port: 53, interfaces: [2]}\n\
         measure: {type: count}\n",
    )
    .unwrap();
    let e = FlowEvent {
        protocol: 17,
        dst_port: 53,
        interface_index: 2,
        ..FlowEvent::default()
    };
    assert!(q.filter.matches(&e));
    assert!(!q.filter.matches(&FlowEvent { protocol: 6, ..e.clone() }));
    assert!(!q.filter.matches(&FlowEvent { dst_port: 54, ..e.clone() }));
    assert!(!q.filter.matches(&FlowEvent { interface_index: 3, ..e }));
}

#[test]
fn alerts_fire_beyond_their_bounds() {
    let alert = AlertSpec {
        gt: Some(float(10.0)),
        lt: Some(float(2.0)),
    };
    for (v, fires) in [(1.0, true), (2.0, false), (10.0, false), (10.5, true)] {
        assert_eq!(alert.fires(float(v)), fires, "{v}");
    }
    assert!(!alert.fires(float(f64::NAN)));
}

#[test]
fn heavy_hitters_plans_spacesaving() {
    let p = plan_yaml(
        "name: tt\nwindow: {size: 60s, slide: 10s}\ngroupBy: [src.ip, dst.ip]\n\
         measure: {type: heavy_hitters, value: bytes, limit: 100}\n",
    )
    .unwrap();
    assert!(matches!(
        p.physical.sketch,
        PhysicalSketch::SpaceSaving { .. }
    ));
    assert_eq!(p.physical.window_buckets, 6);
    assert_eq!(p.physical.export_series_upper_bound, 100);
}

#[test]
fn grouped_distinct_count_plans_hllmap() {
    let p = plan_yaml(
        "name: sc\nwindow: {size: 60s, slide: 10s}\ngroupBy: [src.ip]\n\
         measure: {type: distinct_count, field: dst.ip, error: {epsilon: 0.02}}\n",
    )
    .unwrap();
    assert!(matches!(p.physical.sketch, PhysicalSketch::HllMap { .. }));
    assert_eq!(p.physical.error_kind, ErrorKind::Relative);
}

#[test]
fn ungrouped_distinct_count_plans_single_hll() {
    let p = plan_yaml(
        "name: d\nwindow: {size: 60s}\nmeasure: {type: distinct_count, field: dst.ip, error: {epsilon: 0.02}}\n",
    )
    .unwrap();
    assert!(matches!(
        p.physical.sketch,
        PhysicalSketch::HyperLogLog { .. }
    ));
    assert_eq!(p.physical.export_series_upper_bound, 1);
}

#[test]
fn explicit_tight_distinct_epsilon_is_honored() {
    // Regression: an explicit epsilon used to be silently replaced with
    // the default when it was <= 0.001.
    let p = plan_yaml(
        "name: d\nwindow: {size: 60s}\ngroupBy: [src.ip]\n\
         measure: {type: distinct_count, field: dst.ip, error: {epsilon: 0.004}}\n\
         resources: {maxMemory: 2GiB}\n",
    )
    .unwrap();
    match p.physical.sketch {
        PhysicalSketch::HllMap { precision, .. } => {
            // 1.04/sqrt(2^17) ~ 0.29% <= 0.4% < 1.04/sqrt(2^16)
            assert_eq!(precision, 17, "explicit epsilon not honored");
        }
        other => panic!("expected hllmap, got {other:?}"),
    }
    assert!(p
        .physical
        .warnings
        .iter()
        .all(|w| !w.describe(&shown()).contains("tighter")));
}

#[test]
fn unachievable_distinct_epsilon_plans_max_precision_with_warning() {
    let p = plan_yaml(
        "name: d\nwindow: {size: 60s}\n\
         measure: {type: distinct_count, field: dst.ip, error: {epsilon: 0.0005}}\n\
         resources: {maxMemory: 2GiB}\n",
    )
    .unwrap();
    match p.physical.sketch {
        PhysicalSketch::HyperLogLog { precision } => assert_eq!(precision, 18),
        other => panic!("expected hll, got {other:?}"),
    }
    assert!(
        p.physical
            .warnings
            .iter()
            .any(|w| w.describe(&shown()).contains("tighter")),
        "missing achievability warning: {:?}",
        p.physical.warnings
    );
}

#[test]
fn sum_plans_composite_countmin() {
    let p = plan_yaml(
        "name: s\nwindow: {size: 60s}\ngroupBy: [protocol]\nmeasure: {type: sum, value: bytes}\n",
    )
    .unwrap();
    match &p.physical.sketch {
        PhysicalSketch::Composite { stages } => {
            assert!(matches!(stages[0], PhysicalSketch::SpaceSaving { .. }));
            assert!(matches!(stages[1], PhysicalSketch::CountMin { .. }));
        }
        other => panic!("expected composite, got {other:?}"),
    }
}

#[test]
fn over_budget_plan_is_rejected() {
    let err = plan_yaml(
        "name: b\nwindow: {size: 60s, slide: 10s}\ngroupBy: [src.ip]\n\
         measure: {type: distinct_count, field: dst.ip, error: {epsilon: 0.005}}\n\
         resources: {maxMemory: 1MiB}\n",
    )
    .unwrap_err();
    let msg = err.to_string(&shown());
    assert!(msg.contains("maxMemory") || msg.contains("budget"), "{msg}");
}

#[test]
fn grouped_entropy_and_quantile_are_rejected_with_direction() {
    let err = plan_yaml(
        "name: e\nwindow: {size: 30s}\ngroupBy: [dst.ip]\nmeasure: {type: entropy, field: src.ip}\n",
    )
    .unwrap_err();
    assert!(err.to_string(&shown()).contains("grouped entropy"));

    let err = plan_yaml(
        "name: q\nwindow: {size: 30s}\ngroupBy: [dst.ip]\nmeasure: {type: quantile, field: bytes, q: 0.99}\n",
    )
    .unwrap_err();
    assert!(err.to_string(&shown()).contains("grouped quantile"));
}

#[test]
fn grouped_low_threshold_alert_is_rejected_as_unenumerable() {
    let err = plan_yaml(
        "name: low\nwindow: {size: 30s}\ngroupBy: [src.ip]\n\
         measure: {type: count}\nalertIf: {lt: 5}\n",
    )
    .unwrap_err();
    assert!(err.to_string(&shown()).contains("alertIf.lt"), "{err:?}");

    plan_yaml(
        "name: global_low\nwindow: {size: 30s}\nmeasure: {type: count}\n\
         alertIf: {lt: 5}\n",
    )
    .unwrap();
}

#[test]
fn ungrouped_quantile_plans_kll() {
    let p = plan_yaml(
        "name: q\nwindow: {size: 30s}\nmeasure: {type: quantile, field: bytes, q: 0.99, error: {epsilon: 0.01}}\n",
    )
    .unwrap();
    match p.physical.sketch {
        PhysicalSketch::Kll { k } => assert_eq!(k, 230),
        other => panic!("expected kll, got {other:?}"),
    }
    assert_eq!(p.physical.error_kind, ErrorKind::RankError);
    assert_eq!(p.physical.export_series_upper_bound, 1);
}

#[test]
fn ungrouped_entropy_plans_head_tail_composite() {
    let p = plan_yaml("name: e\nwindow: {size: 30s}\nmeasure: {type: entropy, field: src.ip}\n")
        .unwrap();
    match &p.physical.sketch {
        PhysicalSketch::Composite { stages } => {
            assert!(matches!(stages[0], PhysicalSketch::SpaceSaving { .. }));
            assert!(matches!(stages[1], PhysicalSketch::HyperLogLog { .. }));
        }
        other => panic!("expected composite, got {other:?}"),
    }
    assert_eq!(p.physical.error_kind, ErrorKind::Heuristic);
}

#[test]
fn explain_mentions_algorithm_memory_and_error() {
    let p = plan_yaml(
        "name: tt\nwindow: {size: 60s, slide: 10s}\ngroupBy: [src.ip, dst.ip]\n\
         measure: {type: heavy_hitters, value: bytes, limit: 50}\n",
    )
    .unwrap();
    let text = explain(&p, &shown());
    assert!(text.contains("SpaceSaving"));
    assert!(text.contains("estimated memory"));
    assert!(text.contains("error model"));
    assert!(text.contains("60s slide 10s"));
}

#[test]
fn errors_beyond_the_hash_are_refused() {
    let q = parse_query_yaml(
        "name: s\nwindow: {size: 60s}\ngroupBy: [protocol]\n\
         measure: {type: sum, value: bytes, error: {delta: 0.00000000000000000001}}\n",
    )
    .unwrap();
    let err = plan(q, &HashSpec::new(0), &sizing(0.001, 0.01)).unwrap_err();
    assert!(err.to_string(&shown()).contains("hash confidence floor"));
}

fn agent_settings(runtime_shards: usize, memory: Option<u64>) -> AgentConfig {
    AgentConfig::from_raw(RawAgentConfig {
        node_name: None,
        listen: None,
        seed: None,
        flush_interval_ms: None,
        runtime_shards: Some(runtime_shards),
        runtime_batch_size: None,
        max_sketch_memory_bytes: memory,
        runtime_shard_strategy: None,
        cpu_affinity: None,
        source: RawSource::Pcap {
            path: "x.pcap".into(),
        },
        query_files: vec!["query.yaml".into()],
        otlp: None,
        gateway: None,
    })
    .unwrap()
}

#[test]
fn load_plans_rejects_duplicate_names_and_aggregate_memory_over_budget() {
    let query = "name: bounded\nwindow: {size: 60s, slide: 10s}\ngroupBy: [src.ip]\n\
         measure: {type: heavy_hitters, value: bytes, limit: 100}\n\
         resources: {maxMemory: 64MiB}\n";
    let mut plans = Vec::new();
    admit_plan(&mut plans, plan_yaml(query).unwrap()).unwrap();
    let error = admit_plan(&mut plans, plan_yaml(query).unwrap())
        .unwrap_err()
        .to_string();
    assert!(error.contains("duplicate query name"), "{error}");
    assert_eq!(plans.len(), 1);

    let over_budget = agent_settings(2, Some(1_048_576));
    let error = over_budget.check_memory(&plans).unwrap_err().to_string();
    assert!(error.contains("aggregate planned sketch memory"), "{error}");
    assert!(agent_settings(2, None).check_memory(&plans).is_ok());
}
