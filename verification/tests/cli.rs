use flowsketch::algos::hll::HyperLogLog;
use flowsketch::algos::{ExactCounter, HllMap};
use flowsketch::cli::bench::{
    check_budget, check_line_rate, check_sharded, check_synthetic, effective_shards, extremes,
    median, readiness, retained_keys, Algo, LineRateProjection, Profile, TraceTally,
};
use flowsketch::cli::merge::{
    check_mergeable, merge_all, merge_kind, merge_maps, MapMerge, MergeKind, SnapshotInfo,
};
use flowsketch::cli::replay::{final_rows, shown_rows};
use flowsketch::cli::synthetic::{distinct, key_bytes, key_table, uniform_ids, Subject};
use flowsketch::cli::trace::{
    failed_at, partition, stuck, turns, Feed, FeedAction, FeedEvent, FeedPhase,
};
use flowsketch::estimate::SketchEstimate;
use flowsketch::event::FlowEvent;
use flowsketch::float_bits::Float64;
use flowsketch::hash::{HashSpec, SplitMixRng};
use flowsketch::snapshot::{algorithm_id, write_snapshot, SnapshotHeader, Writer, SNAPSHOT_VERSION};

fn float(x: f64) -> Float64 {
    Float64 { bits: x.to_bits() }
}

#[test]
fn all_profile_expands_to_supported_line_rates() {
    let names: Vec<_> = Profile::All
        .selected()
        .iter()
        .map(|profile| profile.name())
        .collect();
    assert_eq!(
        names,
        ["1 Gb/s", "10 Gb/s", "25 Gb/s", "40 Gb/s", "100 Gb/s"]
    );
}

#[test]
fn core_budget_gate_accepts_and_rejects_projections() {
    let projections = [LineRateProjection {
        profile: Profile::TenG,
        estimated_cores: float(3.9),
    }];
    let passed = check_budget(&projections, float(4.0)).unwrap();
    readiness(&passed).unwrap();
    let passed = check_budget(&projections, float(2.0)).unwrap();
    readiness(&passed).unwrap_err();
    check_budget(&[], float(4.0)).unwrap_err();
}

#[test]
fn line_rate_profile_math_is_explicit() {
    let pps = |p: Profile, avg: f64| p.gbps() as f64 * 1e9 / (avg.max(1.0) * 8.0);
    assert!((pps(Profile::TenG, 1_250.0) - 1_000_000.0).abs() < 1.0);
    assert!((pps(Profile::HundredG, 1_250.0) - 10_000_000.0).abs() < 1.0);
}

#[test]
fn bench_settings_are_checked() {
    assert!(check_synthetic(0).is_err() && check_synthetic(1).is_ok());
    assert!(check_sharded(0, 1).is_err());
    assert!(check_sharded(1, 0).is_err());
    assert!(check_sharded(1, 1).is_ok());
    assert!(check_line_rate(float(10.0)).is_ok());
    for bad in [0.0, -1.0, f64::NAN, f64::INFINITY] {
        assert!(check_line_rate(float(bad)).is_err(), "{bad}");
    }
}

#[test]
fn bench_arithmetic() {
    assert_eq!(effective_shards(4, 2), 2);
    assert_eq!(effective_shards(4, 0), 1);
    assert_eq!(effective_shards(4, 100), 4);
    assert_eq!(extremes(&[3, 1, 2]), (1, 3));
    assert_eq!(median(&vec![5, 1, 9]), 5);
    assert_eq!(retained_keys(0), 1);
    let mut tally = TraceTally::new();
    for (ts, bytes) in [(10u64, 100u32), (5, 20), (40, 3)] {
        tally.count(&FlowEvent {
            ts_nanos: ts,
            bytes,
            ..FlowEvent::default()
        });
    }
    assert_eq!((tally.events, tally.total_l3_bytes), (3, 123));
    assert_eq!(tally.duration_nanos(), 30);
}

fn at(ts_nanos: u64) -> FlowEvent {
    FlowEvent {
        ts_nanos,
        ..FlowEvent::default()
    }
}

#[test]
fn events_are_distributed_in_order() {
    let events: Vec<FlowEvent> = (0..7).map(at).collect();
    let places = turns(7, 3);
    assert_eq!(places, vec![0, 1, 2, 0, 1, 2, 0]);
    let shards = partition(&events, &places, 3);
    let times: Vec<Vec<u64>> = shards
        .iter()
        .map(|s| s.iter().map(|e| e.ts_nanos).collect())
        .collect();
    assert_eq!(times, vec![vec![0, 3, 6], vec![1, 4], vec![2, 5]]);
    assert_eq!(partition(&[], &[], 2).len(), 2);
}

/// The engine calls that a feed makes when the engine answers as told.
fn feed(engine: bool, answers: &[FeedEvent]) -> (Feed, Vec<FeedAction>) {
    let mut feed = Feed::new(engine);
    let mut actions = vec![FeedAction::Read];
    for answer in answers {
        assert!(feed.accepts(*answer), "{answer:?} in {feed:?}");
        let (next, action) = feed.step(*answer);
        feed = next;
        actions.push(action);
    }
    (feed, actions)
}

#[test]
fn a_full_engine_is_drained_and_asked_again() {
    let (feed, actions) = feed(
        true,
        &[
            FeedEvent::Event,
            FeedEvent::Backpressure,
            FeedEvent::Drained(3),
            FeedEvent::Done,
            FeedEvent::Full(true),
            FeedEvent::Drained(2),
            FeedEvent::EndOfTrace,
            FeedEvent::Backpressure,
            FeedEvent::Drained(1),
            FeedEvent::Done,
        ],
    );
    assert_eq!(
        actions,
        vec![
            FeedAction::Read,
            FeedAction::Process,
            FeedAction::Drain,
            FeedAction::Process,
            FeedAction::CheckFull,
            FeedAction::Drain,
            FeedAction::Read,
            FeedAction::Finish,
            FeedAction::Drain,
            FeedAction::Finish,
            FeedAction::Report,
        ]
    );
    assert_eq!((feed.estimates, feed.phase), (6, FeedPhase::Finished));
}

#[test]
fn a_feed_gives_up_when_stuck_or_failed() {
    let full = [FeedEvent::Event, FeedEvent::Backpressure, FeedEvent::Drained(0)];
    assert_eq!(
        feed(true, &full).1.last(),
        Some(&FeedAction::Stuck { at_end: false })
    );
    assert_eq!(
        feed(true, &[FeedEvent::EndOfTrace, FeedEvent::Failed]).1.last(),
        Some(&FeedAction::Fail { at_end: true })
    );
    assert!(!Feed::new(true).accepts(FeedEvent::Done));
    assert_eq!(
        feed(false, &[FeedEvent::Event, FeedEvent::EndOfTrace]).1,
        vec![FeedAction::Read, FeedAction::Read, FeedAction::Report]
    );
    assert_eq!(
        stuck(true),
        "runtime reported final-output backpressure without a drainable window"
    );
    assert_eq!(failed_at(false), "sketch update failed");
}

#[test]
fn synthetic_streams_are_reproducible() {
    let mut rng = SplitMixRng::new(12345);
    let ids = uniform_ids(&mut rng, 1000, 10);
    let mut again = SplitMixRng::new(12345);
    for id in &ids {
        assert_eq!(*id, again.next_u64() % 10);
    }
    assert_eq!(distinct(&ids), 10);
    assert_eq!(distinct(&[7, 7, 1]), 2);
    assert_eq!(key_bytes(258), vec![2, 1, 0, 0, 0, 0, 0, 0]);
}

#[test]
fn every_subject_counts_the_stream() {
    let keys = key_table(50);
    let ids = uniform_ids(&mut SplitMixRng::new(1), 2000, 50);
    let mut exact = ExactCounter::new();
    for id in &ids {
        exact.add(&keys[*id as usize], 1);
    }
    let truth = exact.top_k(100);
    assert_eq!(truth.len(), 50);
    for (algo, hits) in [
        (Algo::CountMin, 0),
        (Algo::CountSketch, 0),
        (Algo::Hll, 0),
        (Algo::SpaceSaving, 50),
        (Algo::MisraGries, 50),
    ] {
        let mut subject = Subject::new(algo, 64, 3, HashSpec::new(1)).unwrap();
        subject.fill(&keys, &ids);
        assert_eq!(subject.hits(&truth), hits, "{}", algo.name());
        if let Subject::CountMin(s) = &subject {
            assert!(s.estimate_u64(&truth[0].0) >= truth[0].1);
        }
    }
    assert!(Subject::new(Algo::CountMin, 0, 3, HashSpec::new(1)).is_err());
}

fn snapshot(file: &str, algorithm: u16, start: u64) -> SnapshotInfo {
    SnapshotInfo {
        file: file.into(),
        algorithm,
        window_start_nanos: start,
        window_end_nanos: 60,
    }
}

#[test]
fn only_like_snapshots_merge() {
    let a = || snapshot("a", algorithm_id::HYPER_LOG_LOG, 0);
    assert!(check_mergeable(&[]).is_err());
    assert!(check_mergeable(&[a(), snapshot("b", algorithm_id::HYPER_LOG_LOG, 0)]).is_ok());
    assert!(check_mergeable(&[a(), snapshot("b", algorithm_id::KLL, 0)]).is_err());
    assert!(check_mergeable(&[a(), snapshot("b", algorithm_id::HYPER_LOG_LOG, 10)]).is_err());
    assert!(matches!(
        merge_kind(algorithm_id::HYPER_LOG_LOG),
        Ok(MergeKind::HyperLogLog)
    ));
    assert!(merge_kind(99).is_err());
}

#[test]
fn merging_many_sketches_is_merging_one_by_one() {
    let sketch = |from: u64, to: u64, seed: u64| {
        let mut h = HyperLogLog::new(10, HashSpec::new(seed)).unwrap();
        for i in from..to {
            h.insert(&i.to_le_bytes());
        }
        h
    };
    let merged = merge_all(
        sketch(0, 100, 1),
        vec![sketch(50, 200, 1), sketch(150, 300, 1)],
    )
    .unwrap();
    let whole = sketch(0, 300, 1);
    assert_eq!(merged.dense_registers(), whole.dense_registers());
    assert!(merge_all(sketch(0, 10, 1), vec![sketch(0, 10, 2)]).is_err());
}

#[test]
fn replay_shows_the_last_window_largest_first() {
    let estimate = |query: &str, end: u64, v: f64| SketchEstimate {
        query_name: query.into(),
        window_start_nanos: 0,
        window_end_nanos: end,
        group: vec![],
        estimate: float(v),
        lower_bound: None,
        upper_bound: None,
        confidence: None,
        algorithm: "exact".into(),
        sketch_bytes: 0,
        update_count: 0,
    };
    let es = [
        estimate("a", 20, 1.0),
        estimate("a", 10, 9.0),
        estimate("b", 30, 5.0),
        estimate("a", 20, 7.0),
    ];
    assert_eq!(final_rows(&es, "a"), Some(vec![3, 0]));
    assert_eq!(final_rows(&es, "c"), None);
    assert_eq!(shown_rows(60), (50, 10));
    assert_eq!(shown_rows(3), (3, 0));
}

fn by_count(h: &HyperLogLog) -> u64 {
    h.exact_count().unwrap_or(usize::MAX) as u64
}

fn map_of(max_keys: usize, keys: &[(&str, u32)]) -> HllMap {
    let mut m = HllMap::new(max_keys, 10, HashSpec::new(1)).unwrap();
    for (key, items) in keys {
        for i in 0..*items {
            m.insert(key.as_bytes(), &i.to_le_bytes(), &by_count);
        }
    }
    m
}

#[test]
fn maps_are_merged_one_after_the_other() {
    let parts = [
        map_of(2, &[("a", 5), ("b", 1)]),
        map_of(2, &[("b", 3), ("c", 4)]),
        map_of(2, &[("d", 1), ("a", 9)]),
    ];
    let mut expected = map_of(2, &[("a", 5), ("b", 1)]);
    expected.merge_from(&parts[1], &by_count).unwrap();
    expected.merge_from(&parts[2], &by_count).unwrap();
    let [first, second, third] = parts;
    match merge_maps(first, vec![second, third], &by_count) {
        MapMerge::Merged(m) => {
            assert_eq!(m.to_snapshot(0, 1), expected.to_snapshot(0, 1));
            assert_eq!(by_count(m.get(b"a").unwrap()), 9);
            assert_eq!((m.len(), m.evicted_keys(), m.update_count()), (2, 2, 23));
        }
        _ => panic!("not merged"),
    }
}

#[test]
fn maps_that_do_not_fit_are_refused() {
    let refused = merge_maps(map_of(2, &[("a", 1)]), vec![map_of(3, &[("a", 1)])], &by_count);
    match refused {
        MapMerge::Refused(text) => assert!(text.starts_with("merge rejected: "), "{text}"),
        _ => panic!("not refused"),
    }
}

#[test]
fn counters_that_overflow_are_reported() {
    // A map that has counted as many updates as there can be.
    let mut params = Writer::new();
    params.u64(2);
    params.u8(10);
    let mut payload = Writer::new();
    payload.u64(u64::MAX);
    payload.u64(0);
    payload.u32(0);
    let bytes = write_snapshot(
        &SnapshotHeader {
            version: SNAPSHOT_VERSION,
            algorithm_id: algorithm_id::HLL_MAP,
            hash: HashSpec::new(1),
            window_start_nanos: 0,
            window_end_nanos: 1,
        },
        &params.buf,
        &payload.buf,
    );
    let full = HllMap::from_snapshot(&bytes).unwrap();
    let one = map_of(2, &[("a", 1)]);
    assert_eq!(full.update_count(), u64::MAX);
    assert!(!one.can_merge(&full));
    assert!(matches!(merge_maps(one, vec![full], &by_count), MapMerge::Overflow));
    let empty = map_of(2, &[]);
    assert!(empty.can_merge(&map_of(2, &[("a", 1)])));
}
