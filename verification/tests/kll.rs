use flowsketch::algos::kll::MAX_LEVELS;
use flowsketch::algos::KllSketch;
use flowsketch::hash::{splitmix64, HashSpec};
use flowsketch::sketch::Sketch;
use flowsketch::snapshot::{algorithm_id, write_snapshot, SnapshotHeader, Writer, SNAPSHOT_VERSION};

fn shuffled(n: u64, seed: u64) -> Vec<u64> {
    // Deterministic shuffle of 0..n via sort-by-hash.
    let mut v: Vec<u64> = (0..n).collect();
    v.sort_by_key(|&x| splitmix64(x ^ seed));
    v
}

fn quantile(s: &KllSketch, q: f64) -> Option<u64> {
    let target = (q.clamp(0.0, 1.0) * s.total_weight() as f64).ceil().max(1.0) as u64;
    s.value_at(target)
}

fn rank(s: &KllSketch, value: u64) -> f64 {
    let (at_most, total) = s.rank_weights(value);
    if total == 0 {
        0.0
    } else {
        at_most as f64 / total as f64
    }
}

fn rank_error(s: &KllSketch) -> f64 {
    2.3 / s.k() as f64
}

#[test]
fn quantiles_within_rank_error_on_uniform_stream() {
    let mut s = KllSketch::new(256, HashSpec::new(1)).unwrap();
    let n = 100_000u64;
    for v in shuffled(n, 7) {
        s.insert(v);
    }
    assert_eq!(s.n(), n);
    // With values 0..n the true rank of value v is (v+1)/n.
    let eps = rank_error(&s);
    for q in [0.01, 0.25, 0.5, 0.75, 0.99] {
        let v = quantile(&s, q).unwrap() as f64;
        let true_rank = (v + 1.0) / n as f64;
        assert!(
            (true_rank - q).abs() <= eps,
            "q={q}: got value {v} (rank {true_rank}), eps {eps}"
        );
    }
}

#[test]
fn bounded_memory_on_large_streams() {
    let mut s = KllSketch::new(200, HashSpec::new(2)).unwrap();
    for v in shuffled(500_000, 3) {
        s.insert(v);
    }
    let stored: usize = (0..s.level_count()).map(|l| s.level_len(l)).sum();
    // Geometric capacities sum to ~3k.
    assert!(stored < 6 * 200, "stored {stored} items");
}

#[test]
fn merge_matches_single_stream_error_contract() {
    let mut a = KllSketch::new(256, HashSpec::new(5)).unwrap();
    let mut b = KllSketch::new(256, HashSpec::new(5)).unwrap();
    let n = 60_000u64;
    for (i, v) in shuffled(n, 11).into_iter().enumerate() {
        if i % 2 == 0 {
            a.insert(v);
        } else {
            b.insert(v);
        }
    }
    a.merge_from(&b).unwrap();
    assert_eq!(a.n(), n);
    let eps = rank_error(&a);
    for q in [0.1, 0.5, 0.9] {
        let v = quantile(&a, q).unwrap() as f64;
        let true_rank = (v + 1.0) / n as f64;
        assert!(
            (true_rank - q).abs() <= eps,
            "merged q={q}: value {v} rank {true_rank}"
        );
    }
}

#[test]
fn kll_incompatible_merge_rejected() {
    let mut a = KllSketch::new(128, HashSpec::new(1)).unwrap();
    let b = KllSketch::new(256, HashSpec::new(1)).unwrap();
    assert!(a.merge_from(&b).is_err());
    let c = KllSketch::new(128, HashSpec::new(9)).unwrap();
    assert!(a.merge_from(&c).is_err());
}

#[test]
fn snapshot_round_trips_exactly() {
    let mut s = KllSketch::new(64, HashSpec::new(4)).unwrap();
    for v in shuffled(10_000, 13) {
        s.insert(v);
    }
    let s2 = KllSketch::from_snapshot(&s.to_snapshot(5, 6)).unwrap();
    for q in [0.0, 0.25, 0.5, 0.75, 1.0] {
        assert_eq!(quantile(&s, q), quantile(&s2, q));
    }
    assert_eq!(s.n(), s2.n());
}

#[test]
fn hostile_snapshot_counts_are_rejected() {
    let craft = |k: u64, num_levels: u32, level_len: u32| {
        let mut params = Writer::new();
        params.u64(k);
        let mut payload = Writer::new();
        payload.u64(0); // n
        payload.u64(0); // rng_state
        payload.u64(0); // updates
        payload.u32(num_levels);
        payload.u32(level_len);
        write_snapshot(
            &SnapshotHeader {
                version: SNAPSHOT_VERSION,
                algorithm_id: algorithm_id::KLL,
                hash: HashSpec::new(1),
                window_start_nanos: 0,
                window_end_nanos: 0,
            },
            &params.buf,
            &payload.buf,
        )
    };
    // k below the constructor's floor, a level count and an item count
    // the payload cannot back: all rejected before allocation.
    assert!(KllSketch::from_snapshot(&craft(1, 1, 0)).is_err());
    let err = KllSketch::from_snapshot(&craft(64, (MAX_LEVELS + 1) as u32, 0)).unwrap_err();
    assert!(err.to_string().contains("levels"), "{err:?}");
    assert!(KllSketch::from_snapshot(&craft(64, u32::MAX, 0)).is_err());
    assert!(KllSketch::from_snapshot(&craft(64, 1, u32::MAX)).is_err());
}

#[test]
fn deterministic_with_fixed_seed() {
    let build = || {
        let mut s = KllSketch::new(64, HashSpec::new(42)).unwrap();
        for v in shuffled(20_000, 21) {
            s.insert(v);
        }
        s.to_snapshot(0, 0)
    };
    assert_eq!(build(), build());
}

#[test]
fn rank_and_quantile_are_consistent() {
    let mut s = KllSketch::new(256, HashSpec::new(6)).unwrap();
    for v in shuffled(50_000, 17) {
        s.insert(v);
    }
    let median = quantile(&s, 0.5).unwrap();
    let r = rank(&s, median);
    assert!((r - 0.5).abs() < rank_error(&s), "rank of median {r}");
}

#[test]
fn small_streams_are_exact() {
    let mut s = KllSketch::new(64, HashSpec::new(6)).unwrap();
    assert_eq!(s.value_at(1), None);
    for v in [30u64, 10, 20] {
        s.insert(v);
    }
    assert_eq!(s.value_at(1), Some(10));
    assert_eq!(s.value_at(2), Some(20));
    assert_eq!(s.value_at(3), Some(30));
    assert_eq!(s.rank_weights(20), (2, 3));
}

#[test]
fn a_reset_sketch_is_a_fresh_one() {
    let mut used = KllSketch::new(64, HashSpec::new(9)).unwrap();
    let mut fresh = KllSketch::new(64, HashSpec::new(9)).unwrap();
    for v in shuffled(5_000, 3) {
        used.insert(v);
    }
    assert!(used.level_count() > 1);
    used.reset();
    assert_eq!(used.n(), 0);
    assert_eq!(used.to_snapshot(1, 2), fresh.to_snapshot(1, 2));
    // Later compactions keep the same values too.
    for v in shuffled(5_000, 4) {
        used.insert(v);
        fresh.insert(v);
    }
    assert_eq!(used.to_snapshot(1, 2), fresh.to_snapshot(1, 2));
}

#[test]
fn levels_grow_slowly_and_built_sketches_read_back() {
    let mut s = KllSketch::new(8, HashSpec::new(2)).unwrap();
    for v in shuffled(60_000, 11) {
        s.insert(v);
    }
    assert!(s.level_count() <= 62);
    let bytes = s.to_snapshot(3, 4);
    let back = KllSketch::from_snapshot(&bytes).unwrap();
    assert_eq!(back.to_snapshot(3, 4), bytes);
}

#[test]
fn memory_is_counted_by_the_room_of_the_levels() {
    let fixed = std::mem::size_of::<KllSketch>();
    assert_eq!(KllSketch::held_bytes(&vec![]), fixed);
    assert_eq!(KllSketch::held_bytes(&vec![10, 0, 4]), 14 * 8 + 3 * 24 + fixed);
    assert_eq!(KllSketch::held_bytes(&vec![usize::MAX]), usize::MAX);

    let mut s = KllSketch::new(64, HashSpec::new(1)).unwrap();
    assert_eq!(s.memory_bytes(), 24 + fixed);
    for v in shuffled(1_000, 5) {
        s.insert(v);
    }
    let held: usize = (0..s.level_count()).map(|l| s.level_len(l)).sum();
    assert!(s.memory_bytes() >= held * 8 + s.level_count() * 24 + fixed);
    assert_eq!((s.memory_bytes() - s.level_count() * 24 - fixed) % 8, 0);
}
