use std::collections::HashMap;

use flowsketch::algos::{CountMinSketch, CountSketch, ExactCounter};
use flowsketch::hash::HashSpec;
use flowsketch::sketch::Sketch;

fn cm(conservative: bool) -> CountMinSketch {
    CountMinSketch::new(2048, 4, conservative, HashSpec::new(1)).unwrap()
}

#[test]
fn never_underestimates() {
    let mut s = cm(false);
    for i in 0..1000u32 {
        let key = format!("key-{}", i % 50);
        s.update(key.as_bytes(), (i % 7 + 1) as u64);
    }
    let mut exact = HashMap::new();
    for i in 0..1000u32 {
        let key = format!("key-{}", i % 50);
        *exact.entry(key).or_insert(0u64) += (i % 7 + 1) as u64;
    }
    for (k, v) in exact {
        assert!(s.estimate_u64(k.as_bytes()) >= v);
    }
}

#[test]
fn conservative_update_is_at_most_plain() {
    let mut plain = cm(false);
    let mut cons = cm(true);
    for i in 0..20_000u32 {
        let key = format!("k{}", i % 3000);
        plain.update(key.as_bytes(), 1);
        cons.update(key.as_bytes(), 1);
    }
    for i in 0..3000u32 {
        let key = format!("k{i}");
        assert!(cons.estimate_u64(key.as_bytes()) <= plain.estimate_u64(key.as_bytes()));
    }
}

#[test]
fn count_min_merge_equals_single_stream() {
    let mut a = cm(false);
    let mut b = cm(false);
    let mut whole = cm(false);
    for i in 0..5000u32 {
        let key = format!("k{}", i % 700);
        whole.update(key.as_bytes(), 3);
        if i % 2 == 0 {
            a.update(key.as_bytes(), 3);
        } else {
            b.update(key.as_bytes(), 3);
        }
    }
    a.merge_from(&b).unwrap();
    for i in 0..700u32 {
        let key = format!("k{i}");
        assert_eq!(a.estimate_u64(key.as_bytes()), whole.estimate_u64(key.as_bytes()));
    }
}

#[test]
fn count_min_incompatible_merge_rejected() {
    let mut a = CountMinSketch::new(1024, 4, false, HashSpec::new(1)).unwrap();
    let b = CountMinSketch::new(2048, 4, false, HashSpec::new(1)).unwrap();
    assert!(a.merge_from(&b).is_err());
    let c = CountMinSketch::new(1024, 4, false, HashSpec::new(2)).unwrap();
    assert!(a.merge_from(&c).is_err());
}

#[test]
fn count_min_snapshot_round_trips() {
    let mut s = cm(true);
    for i in 0..1000u32 {
        s.update(format!("k{}", i % 100).as_bytes(), 2);
    }
    let bytes = s.to_snapshot(10, 20);
    let s2 = CountMinSketch::from_snapshot(&bytes).unwrap();
    for i in 0..100u32 {
        let key = format!("k{i}");
        assert_eq!(s.estimate_u64(key.as_bytes()), s2.estimate_u64(key.as_bytes()));
    }
    assert_eq!(s.update_count(), s2.update_count());
}

#[test]
fn error_bound_holds_on_uniform_stream() {
    let epsilon = 0.001f64;
    let delta = 0.01f64;
    let width = (std::f64::consts::E / epsilon).ceil() as usize;
    let depth = (1.0 / delta).ln().ceil().max(1.0) as usize;
    let mut s = CountMinSketch::new(width, depth, false, HashSpec::new(7)).unwrap();
    let n_keys = 10_000u32;
    for i in 0..n_keys {
        s.update(format!("key-{i}").as_bytes(), 1);
    }
    let achieved = std::f64::consts::E / s.width() as f64;
    let eps_n = (achieved * s.total_weight() as f64).ceil() as u64;
    let mut violations = 0;
    for i in 0..n_keys {
        let est = s.estimate_u64(format!("key-{i}").as_bytes());
        if est > 1 + eps_n {
            violations += 1;
        }
    }
    assert!(violations as f64 <= n_keys as f64 * 0.05);
}

#[test]
fn conservative_updates_never_underestimate_in_deep_tables() {
    // More rows than a machine word has bits.
    let mut s = CountMinSketch::new(7, 70, true, HashSpec::new(3)).unwrap();
    let mut exact: HashMap<Vec<u8>, u64> = HashMap::new();
    for i in 0..500u32 {
        let key = (i % 23).to_le_bytes().to_vec();
        s.update(&key, (i % 4 + 1) as u64);
        *exact.entry(key).or_insert(0) += (i % 4 + 1) as u64;
    }
    for (k, v) in exact {
        assert!(s.estimate_u64(&k) >= v);
    }
}

#[test]
fn count_min_rejects_empty_tables() {
    assert!(CountMinSketch::new(0, 4, false, HashSpec::new(1)).is_err());
    assert!(CountMinSketch::new(4, 0, false, HashSpec::new(1)).is_err());
}

#[test]
fn count_min_counts_exactly_without_collisions() {
    let mut s = cm(false);
    s.update(b"a", 5);
    s.update(b"a", 7);
    assert_eq!(s.estimate_u64(b"a"), 12);
    assert_eq!(s.estimate_u64(b"absent"), 0);
    assert_eq!(s.total_weight(), 12);
    s.reset();
    assert_eq!(s.estimate_u64(b"a"), 0);
    assert_eq!(s.update_count(), 0);
    assert_eq!(s.width(), 2048);
}

#[test]
fn merge_refusal_shows_both_descriptors() {
    let mut a = CountMinSketch::new(1024, 4, false, HashSpec::new(1)).unwrap();
    let c = CountMinSketch::new(1024, 4, false, HashSpec::new(2)).unwrap();
    let text = a.merge_from(&c).unwrap_err().to_string();
    assert!(text.starts_with(
        "incompatible merge: sketches are not merge-compatible: SketchCompatibility { algorithm: \"count-min\""
    ));
    assert!(text.contains("seed: 1") && text.contains("seed: 2"));
}

#[test]
fn heavy_keys_are_recovered_accurately() {
    let mut s = CountSketch::new(4096, 5, HashSpec::new(3)).unwrap();
    // Background noise
    for i in 0..20_000u32 {
        s.update_signed(format!("noise-{i}").as_bytes(), 1);
    }
    // Heavy keys
    for _ in 0..5_000 {
        s.update_signed(b"elephant-a", 1);
        s.update_signed(b"elephant-b", 2);
    }
    let ea = s.estimate_signed(b"elephant-a");
    let eb = s.estimate_signed(b"elephant-b");
    assert!((ea - 5_000).abs() < 500, "elephant-a estimate {ea}");
    assert!((eb - 10_000).abs() < 500, "elephant-b estimate {eb}");
}

#[test]
fn signed_updates_cancel() {
    let mut s = CountSketch::new(1024, 5, HashSpec::new(3)).unwrap();
    s.update_signed(b"k", 100);
    s.update_signed(b"k", -100);
    assert_eq!(s.estimate_signed(b"k"), 0);
}

#[test]
fn count_sketch_merge_equals_single_stream() {
    let mut a = CountSketch::new(2048, 5, HashSpec::new(9)).unwrap();
    let mut b = CountSketch::new(2048, 5, HashSpec::new(9)).unwrap();
    let mut whole = CountSketch::new(2048, 5, HashSpec::new(9)).unwrap();
    for i in 0..10_000u32 {
        let key = format!("k{}", i % 500);
        whole.update_signed(key.as_bytes(), 1);
        if i % 2 == 0 {
            a.update_signed(key.as_bytes(), 1);
        } else {
            b.update_signed(key.as_bytes(), 1);
        }
    }
    a.merge_from(&b).unwrap();
    for i in 0..500u32 {
        let key = format!("k{i}");
        assert_eq!(
            a.estimate_signed(key.as_bytes()),
            whole.estimate_signed(key.as_bytes())
        );
    }
}

#[test]
fn count_sketch_snapshot_round_trips() {
    let mut s = CountSketch::new(512, 3, HashSpec::new(4)).unwrap();
    for i in 0..500u32 {
        s.update_signed(format!("k{}", i % 40).as_bytes(), 5);
    }
    let s2 = CountSketch::from_snapshot(&s.to_snapshot(0, 1)).unwrap();
    for i in 0..40u32 {
        let key = format!("k{i}");
        assert_eq!(
            s.estimate_signed(key.as_bytes()),
            s2.estimate_signed(key.as_bytes())
        );
    }
}

#[test]
fn exact_counter_counts_weights_and_distinct_items() {
    let mut c = ExactCounter::new();
    c.add(b"a", 3);
    c.add(b"b", 5);
    c.add(b"a", 4);
    c.insert_distinct(b"a", b"x");
    c.insert_distinct(b"a", b"x");
    c.insert_distinct(b"a", b"y");
    assert_eq!(c.get(b"a"), 7);
    assert_eq!(c.get(b"absent"), 0);
    assert_eq!(c.distinct_count(b"a"), 2);
    assert_eq!(c.total_weight(), 12);
    assert_eq!(c.top_k(1), vec![(b"a".to_vec(), 7)]);
    assert_eq!(c.keys(), vec![b"a".to_vec(), b"b".to_vec()]);
}

#[test]
fn merges_that_overflow_are_foreseen() {
    let mut a = CountMinSketch::new(8, 1, false, HashSpec::new(1)).unwrap();
    let mut b = CountMinSketch::new(8, 1, false, HashSpec::new(1)).unwrap();
    a.update(b"k", u64::MAX - 1);
    b.update(b"k", 1);
    assert!(a.can_merge(&b));
    b.update(b"k", 1);
    assert!(!a.can_merge(&b));
}

#[test]
fn a_key_alone_in_the_table_is_exact() {
    for depth in [1usize, 2, 3, 4, 5] {
        let mut s = CountSketch::new(16, depth, HashSpec::new(8)).unwrap();
        s.update_signed(b"k", 70);
        s.update_signed(b"k", -100);
        s.update_signed(b"k", 7);
        assert_eq!(s.estimate_signed(b"k"), -23);
    }
}
