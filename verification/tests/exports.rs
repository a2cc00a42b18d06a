use flowsketch::estimate::SketchEstimate;
use flowsketch::float_bits::Float64;
use flowsketch::net::line::{read_line_bounded, LineBuffer, LineRead};
use flowsketch::net::message::{
    may_admit_connection, parse_request_line, parse_status, post_request, write_response,
    HeaderState, HeaderStep,
};
use flowsketch::net::retry::Step;
use flowsketch::net::url::parse_url;
use flowsketch::otel::client::after_post;
use flowsketch::otel::encode::{otel_attribute_name, BoundTexts, QueryMeta};
use flowsketch::otel::{encode_estimates, EncodeOptions, OtlpClientError, OtlpConfig};
use flowsketch::prometheus::{escape_label_value, render, sanitize_label_name, QueryExportInfo};

fn estimate(query: &str, group: Vec<(&str, &str)>, value: f64) -> SketchEstimate {
    SketchEstimate {
        query_name: query.to_string(),
        window_start_nanos: 1_000,
        window_end_nanos: 61_000,
        group: group
            .into_iter()
            .map(|(k, v)| (k.to_string(), v.to_string()))
            .collect(),
        estimate: Float64 {
            bits: value.to_bits(),
        },
        lower_bound: Some(Float64 {
            bits: (value - 1.0).to_bits(),
        }),
        upper_bound: Some(Float64 {
            bits: (value + 1.0).to_bits(),
        }),
        confidence: Some(Float64 {
            bits: 0.95f64.to_bits(),
        }),
        algorithm: "spacesaving".to_string(),
        sketch_bytes: 100,
        update_count: 10,
    }
}

fn shown(es: &[SketchEstimate]) -> Vec<String> {
    es.iter()
        .map(|e| format!("{}", f64::from_bits(e.estimate.bits)))
        .collect()
}

fn bounds(es: &[SketchEstimate]) -> Vec<BoundTexts> {
    let text = |b: &Option<Float64>| match b {
        Some(x) => format!("{}", f64::from_bits(x.bits)),
        None => String::new(),
    };
    es.iter()
        .map(|e| BoundTexts {
            lower: text(&e.lower_bound),
            upper: text(&e.upper_bound),
        })
        .collect()
}

fn info(max_series: usize) -> Vec<(String, QueryExportInfo)> {
    vec![(
        "q".to_string(),
        QueryExportInfo {
            error_kind: "candidate-upper-bound".to_string(),
            max_series,
            window_size_nanos: 60_000_000_000,
        },
    )]
}

fn options() -> EncodeOptions {
    EncodeOptions {
        service_name: "flowsketch-agent".to_string(),
        host_name: "node-a".to_string(),
        queries: vec![(
            "top_talkers".to_string(),
            QueryMeta {
                unit: "bytes".to_string(),
                window: "60s".to_string(),
                error_kind: "candidate-upper-bound".to_string(),
            },
        )],
    }
}

#[test]
fn renders_labeled_gauges() {
    let es = [estimate("q", vec![("src.ip", "10.0.0.1")], 12345.0)];
    let (text, dropped) = render(&es, &shown(&es), &info(10));
    assert!(text.contains("# TYPE flowsketch_estimate gauge"));
    assert!(text.contains(
        "flowsketch_estimate{query=\"q\",algorithm=\"spacesaving\",\
         error_kind=\"candidate-upper-bound\",window=\"60s\",src_ip=\"10.0.0.1\"} 12345"
    ));
    assert!(dropped.is_empty());
}

#[test]
fn series_cap_keeps_largest_estimates() {
    let es: Vec<SketchEstimate> = (0..100)
        .map(|i| {
            let ip = format!("10.0.0.{i}");
            estimate("q", vec![("src.ip", ip.as_str())], i as f64)
        })
        .collect();
    let (text, dropped) = render(&es, &shown(&es), &info(5));
    assert_eq!(dropped, vec![("q".to_string(), 95)]);
    // Largest survive, smallest do not.
    assert!(text.contains("src_ip=\"10.0.0.99\""));
    assert!(!text.contains("src_ip=\"10.0.0.1\","));
    assert!(text.contains("flowsketch_export_series_dropped_total{query=\"q\"} 95"));
}

#[test]
fn label_hygiene() {
    assert_eq!(sanitize_label_name("src.ip"), "src_ip");
    assert_eq!(sanitize_label_name("k8s.pod.name"), "k8s_pod_name");
    assert_eq!(sanitize_label_name("0weird"), "_0weird");
    assert_eq!(escape_label_value("a\"b\\c\nd"), "a\\\"b\\\\c\\nd");
}

#[test]
fn queries_without_settings_have_an_unknown_error() {
    let es = [estimate("other", vec![], 1.5)];
    let (text, _) = render(&es, &shown(&es), &info(5));
    assert!(text.contains(
        "flowsketch_estimate{query=\"other\",algorithm=\"spacesaving\",error_kind=\"unknown\"} 1.5\n"
    ));
}

#[test]
fn encodes_gauge_with_conventions() {
    let es = vec![estimate(
        "top_talkers",
        vec![
            ("src.ip", "10.0.0.1"),
            ("dst.port", "443"),
            ("protocol", "tcp"),
        ],
        1234.0,
    )];
    let doc = encode_estimates(&es, &bounds(&es), &options()).unwrap();

    let metric = &doc.metrics[0];
    assert_eq!(metric.name, "network.flowsketch.bytes.estimated");
    let point = &metric.data_points[0];
    assert_eq!(f64::from_bits(point.as_double.bits), 1234.0);
    assert_eq!(point.time_unix_nano, "61000");
    assert_eq!(point.start_time_unix_nano, "1000");

    let attr = |key: &str| {
        point
            .attributes
            .iter()
            .find(|a| a.key == key)
            .map(|a| a.value.clone())
            .unwrap()
    };
    assert_eq!(attr("flowsketch.query.name"), "top_talkers");
    assert_eq!(attr("flowsketch.algorithm"), "spacesaving");
    assert_eq!(attr("flowsketch.window"), "60s");
    assert_eq!(attr("flowsketch.error.kind"), "candidate-upper-bound");
    assert_eq!(attr("source.address"), "10.0.0.1");
    assert_eq!(attr("destination.port"), "443");
    assert_eq!(attr("network.protocol.name"), "tcp");
    assert_eq!(attr("flowsketch.bound.lower"), "1233");
    assert_eq!(attr("flowsketch.bound.upper"), "1235");

    assert!(doc
        .resource
        .iter()
        .any(|a| a.key == "service.name" && a.value == "flowsketch-agent"));
}

#[test]
fn groups_multiple_units_into_separate_metrics() {
    let mut opts = options();
    opts.queries.push((
        "scanners".to_string(),
        QueryMeta {
            unit: "distinct".to_string(),
            window: "60s".to_string(),
            error_kind: "relative".to_string(),
        },
    ));
    let es = vec![
        estimate("top_talkers", vec![("src.ip", "10.0.0.1")], 100.0),
        estimate("scanners", vec![("src.ip", "10.0.0.2")], 5000.0),
    ];
    let doc = encode_estimates(&es, &bounds(&es), &opts).unwrap();
    let names: Vec<&str> = doc.metrics.iter().map(|m| m.name.as_str()).collect();
    assert!(names.contains(&"network.flowsketch.bytes.estimated"));
    assert!(names.contains(&"network.flowsketch.distinct.estimated"));
}

#[test]
fn empty_input_encodes_nothing() {
    assert!(encode_estimates(&[], &[], &options()).is_none());
}

#[test]
fn other_fields_and_queries_have_names_too() {
    assert_eq!(otel_attribute_name("tcp.flags"), "flowsketch.group.tcp_flags");
    let mut e = estimate("unlisted", vec![("node.id", "7")], 2.0);
    e.upper_bound = None;
    let doc = encode_estimates(&[e], &[BoundTexts { lower: "1".into(), upper: String::new() }], &options())
        .unwrap();
    assert_eq!(doc.metrics[0].name, "network.flowsketch.value.estimated");
    let keys: Vec<&str> = doc.metrics[0].data_points[0]
        .attributes
        .iter()
        .map(|a| a.key.as_str())
        .collect();
    assert_eq!(
        keys,
        vec![
            "flowsketch.query.name",
            "flowsketch.algorithm",
            "flowsketch.group.node_id"
        ]
    );
}

#[test]
fn client_rejects_non_http_endpoints() {
    assert!(parse_url("https://gw:9465/v1/snapshots").is_none());
    assert!(parse_url("http:///path").is_none());
    assert_eq!(
        parse_url("http://gw:9465/v1/snapshots"),
        Some(("gw:9465".to_string(), "/v1/snapshots".to_string()))
    );
    assert_eq!(
        parse_url("http://gw"),
        Some(("gw".to_string(), "/".to_string()))
    );
    let step = after_post(0, Err(OtlpClientError::BadEndpoint("ftp://x".into())));
    assert!(matches!(
        step,
        Step::Finished(Err(OtlpClientError::BadEndpoint(_)))
    ));
    assert_eq!(
        OtlpClientError::BadEndpoint("ftp://x".into()).to_string(),
        "invalid endpoint \"ftp://x\" (expected http://host:port[/v1/metrics])"
    );
}

#[test]
fn posts_json_and_succeeds_on_2xx() {
    let head = post_request("/v1/metrics", "host:4318", "application/json", 5);
    assert_eq!(
        head,
        "POST /v1/metrics HTTP/1.1\r\nHost: host:4318\r\nContent-Type: application/json\r\n\
         Content-Length: 5\r\nConnection: close\r\n\r\n"
    );
    assert_eq!(parse_status(b"HTTP/1.1 200 X\r\nContent-Length: 0\r\n\r\n"), Some(200));
    assert_eq!(parse_status(b"garbage"), None);
    assert!(matches!(after_post(0, Ok(200)), Step::Finished(Ok(()))));
}

#[test]
fn client_error_is_not_retried() {
    assert!(matches!(
        after_post(0, Ok(400)),
        Step::Finished(Err(OtlpClientError::Status(400)))
    ));
}

#[test]
fn unreachable_collector_exhausts_retries() {
    let fail = || Err(OtlpClientError::Connect("h:1".into(), "refused".into()));
    assert!(matches!(after_post(0, fail()), Step::Again(200)));
    assert!(matches!(after_post(1, fail()), Step::Again(800)));
    match after_post(2, fail()) {
        Step::Finished(Err(OtlpClientError::RetriesExhausted { attempts, last })) => {
            assert_eq!(attempts, 3);
            assert_eq!(last, "connect to h:1 failed: refused");
        }
        other => panic!("{other:?}"),
    }
    assert!(matches!(after_post(1, Ok(503)), Step::Again(_)));
}

#[test]
fn metrics_url_appends_path_once() {
    for endpoint in ["http://c:4318", "http://c:4318/", "http://c:4318/v1/metrics"] {
        let cfg = OtlpConfig {
            endpoint: endpoint.to_string(),
            interval_ms: 1,
        };
        assert_eq!(cfg.metrics_url(), "http://c:4318/v1/metrics");
    }
}

#[test]
fn bounded_line_reader_rejects_oversized_lines() {
    let (line, _) = read_line_bounded(b"GET / HTTP/1.1\r\n", 4);
    assert!(matches!(line, LineRead::TooLong));
}

#[test]
fn bounded_line_reader_accepts_normal_lines() {
    let (line, taken) = read_line_bounded(b"GET / HTTP/1.1\r\n", 1024);
    match line {
        LineRead::Line(text) => assert_eq!(text, "GET / HTTP/1.1\r\n"),
        other => panic!("{other:?}"),
    }
    assert_eq!(taken, 16);
}

#[test]
fn lines_come_together_from_pieces() {
    let mut buffer = LineBuffer::new();
    let (taken, done) = buffer.feed(b"GET /met", 64);
    assert_eq!(taken, 8);
    assert!(done.is_none());
    let (taken, done) = buffer.feed(b"rics\r\nHost", 64);
    assert_eq!(taken, 6);
    match done {
        Some(LineRead::Line(text)) => assert_eq!(text, "GET /metrics\r\n"),
        other => panic!("{other:?}"),
    }
    // Bytes that are no text are shown as the standard library shows them.
    let (line, _) = read_line_bounded(b"a\xffb\n", 64);
    match line {
        LineRead::Line(text) => assert_eq!(text, "a\u{fffd}b\n"),
        other => panic!("{other:?}"),
    }
}

#[test]
fn requests_are_taken_apart() {
    assert_eq!(
        parse_request_line("GET /metrics HTTP/1.1\r\n"),
        ("GET".to_string(), "/metrics".to_string())
    );
    let state = HeaderState::new();
    let state = match state.step("Content-Length: 42\r\n") {
        HeaderStep::More(s) => s,
        _ => panic!("one header is enough"),
    };
    assert_eq!(state.content_length, 42);
    assert!(matches!(state.step("\r\n"), HeaderStep::Complete));
    let long = format!("X: {}\r\n", "y".repeat(33_000));
    assert!(matches!(HeaderState::new().step(&long), HeaderStep::TooLarge));
    assert!(may_admit_connection(127) && !may_admit_connection(128));
    assert_eq!(
        write_response(404, "text/plain", "not found\n"),
        "HTTP/1.1 404 Not Found\r\nContent-Type: text/plain\r\nContent-Length: 10\r\n\
         Connection: close\r\n\r\nnot found\n"
    );
}
