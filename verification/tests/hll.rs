use flowsketch::algos::hll::{MAX_PRECISION, MIN_PRECISION, STORAGE_DENSE};
use flowsketch::algos::{HllMap, HyperLogLog};
use flowsketch::hash::HashSpec;
use flowsketch::sketch::Sketch;
use flowsketch::snapshot::{algorithm_id, write_snapshot, SnapshotHeader, Writer, SNAPSHOT_VERSION};

fn sigma(mut x: f64) -> f64 {
    if x == 1.0 {
        return f64::INFINITY;
    }
    let mut z = x;
    let mut scale = 1.0;
    loop {
        x *= x;
        let previous = z;
        z += x * scale;
        scale += scale;
        if z == previous {
            return z;
        }
    }
}

fn tau(mut x: f64) -> f64 {
    if x == 0.0 || x == 1.0 {
        return 0.0;
    }
    let mut z = 1.0 - x;
    let mut scale = 1.0;
    loop {
        x = x.sqrt();
        let previous = z;
        scale *= 0.5;
        z -= (1.0 - x).powi(2) * scale;
        if z == previous {
            return z / 3.0;
        }
    }
}

fn cardinality(h: &HyperLogLog) -> f64 {
    if let Some(n) = h.exact_count() {
        return n as f64;
    }
    let counts = h.rank_counts();
    let m = (1u64 << h.precision()) as f64;
    let q = 64 - h.precision() as usize;
    let mut denominator = m * tau(1.0 - counts[q + 1] as f64 / m);
    for rank in (1..=q).rev() {
        denominator = 0.5 * (denominator + counts[rank] as f64);
    }
    denominator += m * sigma(counts[0] as f64 / m);
    0.721_347_520_444_481_7 * m * m / denominator
}

fn relative_error(h: &HyperLogLog) -> f64 {
    1.04 / ((1u64 << h.precision()) as f64).sqrt()
}

/// The order of cardinalities as numbers: floats above zero are ordered as
/// their bits.
fn size(h: &HyperLogLog) -> u64 {
    cardinality(h).to_bits()
}

#[test]
fn small_cardinalities_are_near_exact() {
    let mut h = HyperLogLog::new(12, HashSpec::new(5)).unwrap();
    for i in 0..100u32 {
        h.insert(format!("item-{i}").as_bytes());
        h.insert(format!("item-{i}").as_bytes()); // duplicates ignored
    }
    let est = cardinality(&h);
    let relative = (est - 100.0).abs() / 100.0;
    assert!(
        relative <= 2.0 * relative_error(&h),
        "estimate {est}, relative error {relative}"
    );
}

#[test]
fn large_cardinalities_within_relative_error() {
    let mut h = HyperLogLog::new(12, HashSpec::new(5)).unwrap();
    let n = 1_000_000u64;
    for i in 0..n {
        h.insert(&i.to_le_bytes());
    }
    let est = cardinality(&h);
    let rel = (est - n as f64).abs() / n as f64;
    assert!(rel <= 2.0 * relative_error(&h), "relative error {rel}");
}

#[test]
fn merge_equals_union() {
    let mut a = HyperLogLog::new(12, HashSpec::new(6)).unwrap();
    let mut b = HyperLogLog::new(12, HashSpec::new(6)).unwrap();
    let mut union = HyperLogLog::new(12, HashSpec::new(6)).unwrap();
    for i in 0..50_000u64 {
        if i % 2 == 0 {
            a.insert(&i.to_le_bytes());
            union.insert(&i.to_le_bytes());
        }
        if i % 3 == 0 {
            b.insert(&i.to_le_bytes());
            union.insert(&i.to_le_bytes());
        }
    }
    a.merge_from(&b).unwrap();
    assert_eq!(a.dense_registers(), union.dense_registers());
}

#[test]
fn different_seeds_do_not_merge() {
    let mut a = HyperLogLog::new(12, HashSpec::new(1)).unwrap();
    let b = HyperLogLog::new(12, HashSpec::new(2)).unwrap();
    assert!(a.merge_from(&b).is_err());
}

#[test]
fn hll_snapshot_round_trips() {
    let mut h = HyperLogLog::new(10, HashSpec::new(7)).unwrap();
    for i in 0..10_000u64 {
        h.insert(&i.to_le_bytes());
    }
    let h2 = HyperLogLog::from_snapshot(&h.to_snapshot(0, 1)).unwrap();
    assert_eq!(cardinality(&h), cardinality(&h2));
    assert_eq!(h.update_count(), h2.update_count());
}

#[test]
fn sparse_snapshot_round_trips_exact_cardinality() {
    let mut h = HyperLogLog::new(14, HashSpec::new(17)).unwrap();
    for i in 0..500u64 {
        h.insert(&i.to_le_bytes());
    }
    assert_eq!(h.exact_count(), Some(500));
    assert_eq!(cardinality(&h), 500.0);
    assert!(h.memory_bytes() <= (1 << h.precision()) + std::mem::size_of::<HyperLogLog>());

    let restored = HyperLogLog::from_snapshot(&h.to_snapshot(0, 1)).unwrap();
    assert_eq!(restored.exact_count(), Some(500));
    assert_eq!(cardinality(&restored), 500.0);
}

#[test]
fn out_of_range_snapshot_precision_is_rejected() {
    let mut params = Writer::new();
    params.u8(200);
    let mut payload = Writer::new();
    payload.u64(0);
    let bytes = write_snapshot(
        &SnapshotHeader {
            version: SNAPSHOT_VERSION,
            algorithm_id: algorithm_id::HYPER_LOG_LOG,
            hash: HashSpec::new(1),
            window_start_nanos: 0,
            window_end_nanos: 0,
        },
        &params.buf,
        &payload.buf,
    );
    let err = HyperLogLog::from_snapshot(&bytes).unwrap_err();
    assert!(err.to_string().contains("precision"), "{err:?}");
}

#[test]
fn out_of_range_snapshot_register_is_rejected() {
    let mut params = Writer::new();
    params.u8(MIN_PRECISION);
    let mut payload = Writer::new();
    payload.u64(0);
    payload.u8(STORAGE_DENSE);
    payload.bytes(&[u8::MAX; 1 << MIN_PRECISION]);
    let bytes = write_snapshot(
        &SnapshotHeader {
            version: SNAPSHOT_VERSION,
            algorithm_id: algorithm_id::HYPER_LOG_LOG,
            hash: HashSpec::new(1),
            window_start_nanos: 0,
            window_end_nanos: 0,
        },
        &params.buf,
        &payload.buf,
    );
    let err = HyperLogLog::from_snapshot(&bytes).unwrap_err();
    assert!(err.to_string().contains("register"), "{err:?}");
}

#[test]
fn precision_is_limited() {
    assert!(HyperLogLog::new(MIN_PRECISION - 1, HashSpec::new(1)).is_err());
    assert!(HyperLogLog::new(MAX_PRECISION + 1, HashSpec::new(1)).is_err());
    assert!(HyperLogLog::new(MAX_PRECISION, HashSpec::new(1)).is_ok());
}

#[test]
fn inserts_are_idempotent_and_commute() {
    let mut a = HyperLogLog::new(4, HashSpec::new(1)).unwrap();
    let mut b = HyperLogLog::new(4, HashSpec::new(1)).unwrap();
    for i in 0..300u32 {
        a.insert(&i.to_le_bytes());
        a.insert(&i.to_le_bytes());
    }
    for i in (0..300u32).rev() {
        b.insert(&i.to_le_bytes());
    }
    assert_eq!(a.dense_registers(), b.dense_registers());
    assert_eq!(a.dense_registers().len(), 16);
}

#[test]
fn per_key_cardinalities_are_accurate() {
    let mut m = HllMap::new(100, 12, HashSpec::new(1)).unwrap();
    for src in 0..10u32 {
        let fanout = (src + 1) * 100;
        for dst in 0..fanout {
            m.insert(
                format!("10.0.0.{src}").as_bytes(),
                format!("d{dst}").as_bytes(),
                &size,
            );
        }
    }
    for src in 0..10u32 {
        let truth = ((src + 1) * 100) as f64;
        let est = cardinality(m.get(format!("10.0.0.{src}").as_bytes()).unwrap());
        let rel = (est - truth).abs() / truth;
        assert!(rel < 0.1, "src {src}: est {est}, truth {truth}");
    }
}

#[test]
fn high_fanout_keys_survive_eviction() {
    let mut m = HllMap::new(10, 10, HashSpec::new(2)).unwrap();
    // One scanner with high fan-out among many low-fan-out keys.
    for dst in 0..5_000u32 {
        m.insert(b"scanner", format!("d{dst}").as_bytes(), &size);
    }
    for src in 0..200u32 {
        m.insert(format!("normal-{src}").as_bytes(), b"single-dst", &size);
    }
    assert!(m.len() <= 10);
    assert!(m.evicted_keys() > 0);
    let card = cardinality(m.get(b"scanner").expect("scanner retained"));
    assert!(card > 4_000.0, "scanner cardinality {card}");
}

#[test]
fn merge_unions_per_key() {
    let mut a = HllMap::new(50, 12, HashSpec::new(3)).unwrap();
    let mut b = HllMap::new(50, 12, HashSpec::new(3)).unwrap();
    for dst in 0..1_000u32 {
        if dst % 2 == 0 {
            a.insert(b"k", format!("d{dst}").as_bytes(), &size);
        } else {
            b.insert(b"k", format!("d{dst}").as_bytes(), &size);
        }
        b.insert(b"only-b", format!("x{dst}").as_bytes(), &size);
    }
    a.merge_from(&b, &size).unwrap();
    let k = cardinality(a.get(b"k").unwrap());
    assert!((k - 1_000.0).abs() / 1_000.0 < 0.1, "union cardinality {k}");
    assert!(a.get(b"only-b").is_some());
}

#[test]
fn hll_map_snapshot_round_trips() {
    let mut m = HllMap::new(20, 10, HashSpec::new(4)).unwrap();
    for src in 0..15u32 {
        for dst in 0..(src + 1) * 10 {
            m.insert(
                format!("s{src}").as_bytes(),
                format!("d{dst}").as_bytes(),
                &size,
            );
        }
    }
    let m2 = HllMap::from_snapshot(&m.to_snapshot(0, 1)).unwrap();
    assert_eq!(m.entries(&size), m2.entries(&size));
    assert_eq!(m.evicted_keys(), m2.evicted_keys());
}

#[test]
fn hll_map_entries_come_largest_first() {
    let mut m = HllMap::new(5, 10, HashSpec::new(4)).unwrap();
    for dst in 0..30u32 {
        m.insert(b"b", &dst.to_le_bytes(), &size);
    }
    m.insert(b"a", b"one", &size);
    m.insert(b"c", b"one", &size);
    let entries = m.entries(&size);
    let keys: Vec<&[u8]> = entries.iter().map(|e| e.0.as_slice()).collect();
    assert_eq!(keys, vec![b"b".as_slice(), b"a".as_slice(), b"c".as_slice()]);
    assert_eq!(f64::from_bits(entries[0].1), 30.0);
}

#[test]
fn a_reset_hll_is_a_fresh_one() {
    let mut used = HyperLogLog::new(8, HashSpec::new(5)).unwrap();
    let mut fresh = HyperLogLog::new(8, HashSpec::new(5)).unwrap();
    for i in 0..10_000u64 {
        used.insert(&i.to_le_bytes());
    }
    assert_eq!(used.exact_count(), None);
    used.reset();
    assert_eq!(used.update_count(), 0);
    assert_eq!(used.to_snapshot(1, 2), fresh.to_snapshot(1, 2));
    // A few keys are counted exactly again.
    for i in 0..3u64 {
        used.insert(&i.to_le_bytes());
        fresh.insert(&i.to_le_bytes());
    }
    assert_eq!(used.exact_count(), Some(3));
    assert_eq!(used.to_snapshot(1, 2), fresh.to_snapshot(1, 2));
}

#[test]
fn the_order_of_keys_leaves_no_trace() {
    for n in [12u64, 5_000] {
        let mut up = HyperLogLog::new(10, HashSpec::new(5)).unwrap();
        let mut down = HyperLogLog::new(10, HashSpec::new(5)).unwrap();
        for i in 0..n {
            up.insert(&i.to_le_bytes());
            down.insert(&(n - 1 - i).to_le_bytes());
        }
        assert_eq!(up.exact_count().is_some(), n == 12);
        assert_eq!(up.to_snapshot(0, 1), down.to_snapshot(0, 1));
    }
}

#[test]
fn a_merge_is_the_snapshot_of_the_whole_stream() {
    for (left, right) in [(10u64, 10u64), (20, 20), (10, 4_000), (4_000, 10), (3_000, 3_000)] {
        let mut a = HyperLogLog::new(10, HashSpec::new(6)).unwrap();
        let mut b = HyperLogLog::new(10, HashSpec::new(6)).unwrap();
        let mut whole = HyperLogLog::new(10, HashSpec::new(6)).unwrap();
        for i in 0..left {
            a.insert(&i.to_le_bytes());
            whole.insert(&i.to_le_bytes());
        }
        for i in 0..right {
            let key = (1_000_000 + i).to_le_bytes();
            b.insert(&key);
            whole.insert(&key);
        }
        a.merge_from(&b).unwrap();
        assert_eq!(a.to_snapshot(0, 1), whole.to_snapshot(0, 1));
    }
}

#[test]
fn a_seen_key_only_counts_as_an_update() {
    for n in [10u64, 2_000] {
        let mut h = HyperLogLog::new(10, HashSpec::new(6)).unwrap();
        for i in 0..n {
            h.insert(&i.to_le_bytes());
        }
        let registers = h.dense_registers();
        let exact = h.exact_count();
        h.insert(&7u64.to_le_bytes());
        assert_eq!(h.update_count(), n + 1);
        assert_eq!(h.dense_registers(), registers);
        assert_eq!(h.exact_count(), exact);
    }
}

#[test]
fn taken_hll_snapshots_are_written_back() {
    for n in [0u64, 10, 2_000] {
        let mut h = HyperLogLog::new(10, HashSpec::new(6)).unwrap();
        for i in 0..n {
            h.insert(&i.to_le_bytes());
        }
        let bytes = h.to_snapshot(11, 12);
        let back = HyperLogLog::from_snapshot(&bytes).unwrap();
        assert_eq!(back.to_snapshot(11, 12), bytes);
    }
}

#[test]
fn a_full_map_displaces_its_smallest_key() {
    let mut m = HllMap::new(2, 8, HashSpec::new(3)).unwrap();
    for item in 0..5u32 {
        m.insert(b"many", &item.to_le_bytes(), &size);
    }
    m.insert(b"few", b"one", &size);
    assert_eq!((m.len(), m.evicted_keys()), (2, 0));
    m.insert(b"new", b"one", &size);
    assert_eq!((m.len(), m.evicted_keys()), (2, 1));
    assert!(m.get(b"few").is_none());
    assert!(m.get(b"many").is_some() && m.get(b"new").is_some());
    assert_eq!(m.update_count(), 7);
    let bytes = m.to_snapshot(0, 1);
    let back = HllMap::from_snapshot(&bytes).unwrap();
    assert_eq!(back.to_snapshot(0, 1), bytes);
}

#[test]
fn memory_is_counted_by_the_room() {
    let fixed = std::mem::size_of::<HyperLogLog>();
    assert_eq!(HyperLogLog::held_bytes(0, 0), fixed);
    assert_eq!(HyperLogLog::held_bytes(5, 0), 40 + fixed);
    assert_eq!(HyperLogLog::held_bytes(0, 1_024), 1_024 + fixed);
    assert_eq!(HyperLogLog::held_bytes(usize::MAX, 1), usize::MAX);

    let mut h = HyperLogLog::new(10, HashSpec::new(1)).unwrap();
    assert_eq!(h.memory_bytes(), fixed);
    h.insert(b"a");
    assert_eq!(h.memory_bytes(), fixed);
    h.insert(b"b");
    assert!(h.memory_bytes() >= 16 + fixed);
    assert!((h.memory_bytes() - fixed) % 8 == 0);
    for i in 0..1_000u32 {
        h.insert(&i.to_le_bytes());
    }
    assert!(h.memory_bytes() >= 1_024 + fixed && h.memory_bytes() < 10_000);
    h.reset();
    assert_eq!(h.memory_bytes(), fixed);
}

#[test]
fn map_memory_is_that_of_its_keys_and_sketches() {
    let fixed = std::mem::size_of::<HllMap>();
    let each = std::mem::size_of::<HyperLogLog>();
    assert_eq!(HllMap::held_bytes(&vec![]), fixed);
    assert_eq!(HllMap::held_bytes(&vec![(3, 100), (4, 200)]), 371 + fixed);
    assert_eq!(HllMap::held_bytes(&vec![(usize::MAX, 1)]), usize::MAX);

    let mut m = HllMap::new(4, 10, HashSpec::new(1)).unwrap();
    assert_eq!(m.memory_bytes(), fixed);
    m.insert(b"abc", b"x", &size);
    m.insert(b"defgh", b"x", &size);
    assert_eq!(m.memory_bytes(), fixed + 3 + 5 + 2 * (each + 32));
}

#[test]
fn maps_with_unlike_sketches_of_a_key_do_not_merge() {
    // A map that holds a sketch of another precision under `k`.
    let mut other_sketch = HyperLogLog::new(12, HashSpec::new(1)).unwrap();
    other_sketch.insert(b"x");
    let mut params = Writer::new();
    params.u64(4);
    params.u8(10);
    let mut payload = Writer::new();
    payload.u64(1);
    payload.u64(0);
    payload.u32(1);
    payload.lp_bytes(b"k");
    payload.lp_bytes(&other_sketch.to_snapshot(0, 1));
    let bytes = write_snapshot(
        &SnapshotHeader {
            version: SNAPSHOT_VERSION,
            algorithm_id: algorithm_id::HLL_MAP,
            hash: HashSpec::new(1),
            window_start_nanos: 0,
            window_end_nanos: 1,
        },
        &params.buf,
        &payload.buf,
    );
    let odd = HllMap::from_snapshot(&bytes).unwrap();
    let mut m = HllMap::new(4, 10, HashSpec::new(1)).unwrap();
    assert!(m.merge_from(&odd, &size).is_ok());
    let mut m = HllMap::new(4, 10, HashSpec::new(1)).unwrap();
    m.insert(b"k", b"y", &size);
    let before = m.to_snapshot(0, 1);
    let refusal = m.merge_from(&odd, &size).unwrap_err().to_string();
    let direct = m.get(b"k").unwrap().copy().merge_from(odd.get(b"k").unwrap());
    assert_eq!(refusal, direct.unwrap_err().to_string());
    assert_eq!(m.to_snapshot(0, 1), before);
}
