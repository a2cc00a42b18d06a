use std::collections::HashMap;

use flowsketch::algos::space_saving::SummaryRooms;
use flowsketch::algos::{MisraGries, SpaceSaving};
use flowsketch::hash::HashSpec;
use flowsketch::sketch::Sketch;
use flowsketch::snapshot::{algorithm_id, write_snapshot, SnapshotHeader, Writer, SNAPSHOT_VERSION};

fn crafted(algorithm: u16, capacity: u64, n: u32) -> Vec<u8> {
    let mut params = Writer::new();
    params.u64(capacity);
    let mut payload = Writer::new();
    payload.u64(0); // total_weight
    payload.u64(0); // updates
    payload.u32(n);
    write_snapshot(
        &SnapshotHeader {
            version: SNAPSHOT_VERSION,
            algorithm_id: algorithm,
            hash: HashSpec::new(1),
            window_start_nanos: 0,
            window_end_nanos: 0,
        },
        &params.buf,
        &payload.buf,
    )
}

#[test]
fn counts_underestimate_by_bounded_amount() {
    let mut s = MisraGries::new(10, HashSpec::new(1)).unwrap();
    let mut exact: HashMap<String, u64> = HashMap::new();
    for i in 1..=100u64 {
        let reps = 1_000 / i;
        for _ in 0..reps {
            let key = format!("k{i}");
            s.add(key.as_bytes(), 1);
            *exact.entry(key).or_insert(0) += 1;
        }
    }
    let epsilon = 1.0 / (s.capacity() as f64 + 1.0);
    let bound = (s.total_weight() as f64 * epsilon).ceil() as u64;
    for (key, c) in s.candidates() {
        let k = String::from_utf8(key).unwrap();
        let truth = exact[&k];
        assert!(c <= truth, "{k}: count {c} > truth {truth}");
        assert!(truth - c <= bound, "{k}: undercount exceeds bound");
    }
    // Guaranteed detection: keys with truth > N/(k+1) must be present.
    for (k, &truth) in &exact {
        if truth > bound {
            assert!(s.get(k.as_bytes()).is_some(), "{k} missing");
        }
    }
}

#[test]
fn merge_keeps_capacity_and_underestimate() {
    let mut a = MisraGries::new(8, HashSpec::new(1)).unwrap();
    let mut b = MisraGries::new(8, HashSpec::new(1)).unwrap();
    let mut exact: HashMap<String, u64> = HashMap::new();
    for i in 1..=50u64 {
        let reps = 600 / i;
        for r in 0..reps {
            let key = format!("k{i}");
            *exact.entry(key.clone()).or_insert(0) += 1;
            if r % 2 == 0 {
                a.add(key.as_bytes(), 1);
            } else {
                b.add(key.as_bytes(), 1);
            }
        }
    }
    a.merge_from(&b).unwrap();
    assert!(a.len() <= 8);
    for (key, c) in a.candidates() {
        let k = String::from_utf8(key).unwrap();
        assert!(c <= exact[&k], "{k}: merged count exceeds truth");
    }
}

#[test]
fn merge_trim_does_not_discard_an_extra_counter() {
    let hash = HashSpec::new(1);
    let mut a = MisraGries::new(4, hash).unwrap();
    for (key, count) in [(b"a", 1), (b"b", 2), (b"c", 3), (b"d", 4)] {
        a.add(key, count);
    }
    let mut b = MisraGries::new(4, hash).unwrap();
    b.add(b"e", 100);

    a.merge_from(&b).unwrap();

    assert_eq!(a.len(), 4);
    assert_eq!(a.get(b"a"), None);
    assert_eq!(a.get(b"b"), Some(1));
    assert_eq!(a.get(b"c"), Some(2));
    assert_eq!(a.get(b"d"), Some(3));
    assert_eq!(a.get(b"e"), Some(99));
}

#[test]
fn misra_gries_hostile_snapshot_params_are_rejected() {
    let craft = |capacity: u64, n: u32| crafted(algorithm_id::MISRA_GRIES, capacity, n);
    assert!(MisraGries::from_snapshot(&craft(0, 0)).is_err());
    let err = MisraGries::from_snapshot(&craft(1, 2)).unwrap_err();
    assert!(err.to_string().contains("exceeds capacity"), "{err:?}");
    assert!(MisraGries::from_snapshot(&craft(10, u32::MAX)).is_err());
}

#[test]
fn misra_gries_snapshot_round_trips() {
    let mut s = MisraGries::new(5, HashSpec::new(3)).unwrap();
    for i in 0..200u32 {
        s.add(format!("k{}", i % 9).as_bytes(), 1);
    }
    let s2 = MisraGries::from_snapshot(&s.to_snapshot(0, 1)).unwrap();
    assert_eq!(s.candidates(), s2.candidates());
}

#[test]
fn tracks_heavy_hitters_exactly_when_under_capacity() {
    let mut s = SpaceSaving::new(100, HashSpec::new(1)).unwrap();
    for i in 0..50u32 {
        for _ in 0..=i {
            s.add(format!("k{i}").as_bytes(), 1);
        }
    }
    let top = s.top_k(3);
    assert_eq!(top[0].0, b"k49".to_vec());
    assert_eq!(top[0].1.count, 50);
    assert_eq!(top[0].1.error, 0);
}

#[test]
fn count_is_upper_bound_and_guarantee_holds() {
    let mut s = SpaceSaving::new(50, HashSpec::new(1)).unwrap();
    let mut exact: HashMap<String, u64> = HashMap::new();
    // Zipf-ish: key i gets ~ 10000/i updates.
    for i in 1..=500u64 {
        let reps = 10_000 / i;
        for _ in 0..reps {
            s.add(format!("k{i}").as_bytes(), 1);
            *exact.entry(format!("k{i}")).or_insert(0) += 1;
        }
    }
    for (key, e) in s.top_k(50) {
        let k = String::from_utf8(key).unwrap();
        let truth = exact.get(&k).copied().unwrap_or(0);
        assert!(e.count >= truth, "{k}: count {} < truth {truth}", e.count);
        assert!(e.guaranteed() <= truth, "{k}: guaranteed too high");
    }
    // The heaviest keys must be present.
    for i in 1..=5u64 {
        assert!(s.get(format!("k{i}").as_bytes()).is_some());
    }
}

#[test]
fn add_key_buf_matches_borrowed_add_and_reuses_scratch() {
    let mut borrowed = SpaceSaving::new(5, HashSpec::new(1)).unwrap();
    let mut owned = SpaceSaving::new(5, HashSpec::new(1)).unwrap();
    let mut scratch = Vec::with_capacity(64);

    for i in 0..100u32 {
        let key = format!("k{}", i % 13);
        let weight = (i % 7 + 1) as u64;
        borrowed.add(key.as_bytes(), weight);

        scratch.extend_from_slice(key.as_bytes());
        owned.add_key_buf(&mut scratch, weight);
        assert!(scratch.is_empty());
        assert!(scratch.capacity() >= key.len());
    }

    assert_eq!(borrowed.top_k(5), owned.top_k(5));
    assert_eq!(borrowed.total_weight(), owned.total_weight());
}

/// The heap is not reachable from here: what it gives is. The entries are in
/// order, each is found under its key, none occurs twice, and all counts add
/// up to the weight that was seen.
fn assert_summary_consistent(summary: &SpaceSaving) {
    let all = summary.top_k(summary.capacity());
    assert_eq!(all.len(), summary.len());
    let mut weight = 0u64;
    for (i, (key, entry)) in all.iter().enumerate() {
        assert_eq!(summary.get(key), Some(entry));
        weight += entry.count;
        if i > 0 {
            assert!(all[i - 1].1.count >= entry.count);
            assert_ne!(&all[i - 1].0, key);
        }
    }
    assert_eq!(weight, summary.total_weight());
}

#[test]
fn indexed_heap_stays_consistent_under_hot_updates_and_evictions() {
    let mut summary = SpaceSaving::new(256, HashSpec::new(9)).unwrap();
    for index in 0..100_000u64 {
        // Mix a hot head with sustained churn beyond capacity.
        let key = if index % 3 == 0 {
            format!("hot-{}", index % 17)
        } else {
            format!("churn-{}", index % 4_096)
        };
        summary.add(key.as_bytes(), index % 5 + 1);
        if index % 997 == 0 {
            assert_summary_consistent(&summary);
        }
    }
    assert_summary_consistent(&summary);
    assert_eq!(summary.len(), summary.capacity());
}

#[test]
fn merge_preserves_upper_bound_property() {
    let mut a = SpaceSaving::new(20, HashSpec::new(1)).unwrap();
    let mut b = SpaceSaving::new(20, HashSpec::new(1)).unwrap();
    let mut exact: HashMap<String, u64> = HashMap::new();
    for i in 1..=100u64 {
        let reps = 2_000 / i;
        for r in 0..reps {
            let key = format!("k{i}");
            *exact.entry(key.clone()).or_insert(0) += 1;
            if r % 2 == 0 {
                a.add(key.as_bytes(), 1);
            } else {
                b.add(key.as_bytes(), 1);
            }
        }
    }
    a.merge_from(&b).unwrap();
    assert!(a.len() <= 20);
    for (key, e) in a.top_k(20) {
        let k = String::from_utf8(key).unwrap();
        let truth = exact.get(&k).copied().unwrap_or(0);
        assert!(
            e.count >= truth,
            "{k}: merged count {} < truth {truth}",
            e.count
        );
    }
    assert_eq!(a.total_weight(), exact.values().sum::<u64>());
}

#[test]
fn space_saving_hostile_snapshot_params_are_rejected() {
    let craft = |capacity: u64, n: u32| crafted(algorithm_id::SPACE_SAVING, capacity, n);
    // Zero capacity breaks the eviction invariant; an entry count the
    // payload cannot back must fail before the map is preallocated.
    assert!(SpaceSaving::from_snapshot(&craft(0, 0)).is_err());
    let err = SpaceSaving::from_snapshot(&craft(1, 2)).unwrap_err();
    assert!(err.to_string().contains("exceeds capacity"), "{err:?}");
    assert!(SpaceSaving::from_snapshot(&craft(10, u32::MAX)).is_err());
}

#[test]
fn snapshot_entry_error_cannot_exceed_count() {
    let mut params = Writer::new();
    params.u64(1);
    let mut payload = Writer::new();
    payload.u64(1); // total_weight
    payload.u64(1); // updates
    payload.u32(1);
    payload.lp_bytes(b"key");
    payload.u64(1); // count
    payload.u64(2); // error
    let bytes = write_snapshot(
        &SnapshotHeader {
            version: SNAPSHOT_VERSION,
            algorithm_id: algorithm_id::SPACE_SAVING,
            hash: HashSpec::new(1),
            window_start_nanos: 0,
            window_end_nanos: 0,
        },
        &params.buf,
        &payload.buf,
    );
    let err = SpaceSaving::from_snapshot(&bytes).unwrap_err();
    assert!(err.to_string().contains("exceeds count"), "{err:?}");
}

#[test]
fn space_saving_snapshot_round_trips() {
    let mut s = SpaceSaving::new(10, HashSpec::new(2)).unwrap();
    for i in 0..100u32 {
        s.add(format!("k{}", i % 15).as_bytes(), (i % 3 + 1) as u64);
    }
    let s2 = SpaceSaving::from_snapshot(&s.to_snapshot(0, 1)).unwrap();
    assert_eq!(s.top_k(10), s2.top_k(10));
    assert_eq!(s.total_weight(), s2.total_weight());
}

#[test]
fn keys_heavier_than_the_average_are_tracked() {
    let mut s = SpaceSaving::new(4, HashSpec::new(1)).unwrap();
    for i in 0..40u32 {
        s.add(format!("small-{i}").as_bytes(), 1);
        s.add(b"heavy", 1);
    }
    // 40 of 80 is more than a quarter.
    let e = s.get(b"heavy").unwrap();
    assert!(e.count >= 40 && e.guaranteed() <= 40);
}

#[test]
fn empty_capacity_is_refused() {
    assert!(SpaceSaving::new(0, HashSpec::new(1)).is_err());
    assert!(MisraGries::new(0, HashSpec::new(1)).is_err());
}

#[test]
fn counts_add_up_to_the_total() {
    let mut s = SpaceSaving::new(7, HashSpec::new(1)).unwrap();
    for i in 0..500u64 {
        s.add(format!("k{}", i * i % 31).as_bytes(), i % 5 + 1);
        let sum: u64 = s.top_k(7).iter().map(|(_, e)| e.count).sum();
        assert_eq!(sum, s.total_weight());
    }
    assert_eq!(s.len(), 7);
}

#[test]
fn few_keys_are_counted_in_any_order() {
    let mut forward = SpaceSaving::new(8, HashSpec::new(1)).unwrap();
    let mut backward = SpaceSaving::new(8, HashSpec::new(1)).unwrap();
    for i in 0..40u64 {
        forward.add(format!("k{}", i % 8).as_bytes(), i + 1);
        let j = 39 - i;
        backward.add(format!("k{}", j % 8).as_bytes(), j + 1);
    }
    assert_eq!(forward.to_snapshot(0, 1), backward.to_snapshot(0, 1));
    let entry = forward.get(b"k3").unwrap();
    assert_eq!((entry.count, entry.error), (4 + 12 + 20 + 28 + 36, 0));
}

#[test]
fn memory_is_counted_by_the_rooms_of_a_summary() {
    let fixed = std::mem::size_of::<SpaceSaving>();
    let word = std::mem::size_of::<usize>();
    let rooms = |slots, index, heap| SummaryRooms {
        slots,
        keys: vec![],
        index,
        shared: vec![],
        heap,
    };
    assert_eq!(SpaceSaving::held_bytes(&rooms(0, 0, 0)), fixed);
    assert_eq!(SpaceSaving::held_bytes(&rooms(0, 0, 3)), 3 * word + fixed);
    let slot = SpaceSaving::held_bytes(&rooms(1, 0, 0)) - fixed;
    let bucket = SpaceSaving::held_bytes(&rooms(0, 1, 0)) - fixed;
    // A slot holds a vector, a digest, two counts and a place in the heap.
    assert!(slot >= 3 * word + 8 + 16 + word);
    assert!(bucket > 8 + 3 * word);
    let all = SummaryRooms {
        slots: 2,
        keys: vec![5, 7],
        index: 3,
        shared: vec![4],
        heap: 2,
    };
    assert_eq!(
        SpaceSaving::held_bytes(&all),
        2 * slot + 12 + 3 * bucket + 4 * word + 2 * word + fixed
    );
    assert_eq!(SpaceSaving::held_bytes(&rooms(usize::MAX, 1, 0)), usize::MAX);

    let mut s = SpaceSaving::new(8, HashSpec::new(1)).unwrap();
    for i in 0..100u32 {
        s.add(format!("key-{}", i % 8).as_bytes(), 1);
    }
    assert!(s.memory_bytes() >= 8 * (slot + 5 + bucket + word) + fixed);
    assert!(s.memory_bytes() < 100_000);
}
