//! Round-trip and compression behavior of the history store.

use hindsight::history::{EntityHistory, History, CONVERSION_THRESHOLD, MAXIMUM_RECORD_LENGTH};

#[test]
fn round_trip_increasing_frames() {
    let mut h = History::<u64>::default();
    let pairs: Vec<(usize, u64)> = vec![(0, 5), (1, 5), (2, 7), (5, 9), (6, 9), (7, 1)];
    for &(f, v) in &pairs {
        assert!(h.try_insert(f, v).is_some());
    }
    for &(f, v) in &pairs {
        assert_eq!(h.get(f), Some(v));
    }
    assert_eq!(h.get(3), None);
    assert_eq!(h.get(4), None);
    assert_eq!(h.get(100), None);
}

#[test]
fn insert_taken_frame_fails_without_change() {
    let mut h = History::<u64>::default();
    assert!(h.try_insert(4, 10).is_some());
    assert!(h.try_insert(4, 11).is_none());
    assert_eq!(h.get(4), Some(10));
}

#[test]
fn insert_into_gap_succeeds() {
    let mut h = History::<u64>::default();
    assert!(h.try_insert(10, 1).is_some());
    // A frame before every existing record is still free.
    assert!(h.try_insert(2, 2).is_some());
    assert_eq!(h.get(2), Some(2));
    assert_eq!(h.get(10), Some(1));
    assert_eq!(h.get(5), None);
}

#[test]
fn constant_run_reads_back() {
    let mut h = History::<u64>::default();
    let n = 40;
    for f in 0..n {
        assert!(h.try_insert(f, 42).is_some());
    }
    for f in 0..n {
        assert_eq!(h.get(f), Some(42));
    }
    // One constant record suffices for a uniform run.
    assert_eq!(h.records(), 1);
}

#[test]
fn short_run_below_threshold_reads_back() {
    let mut h = History::<u64>::default();
    // Alternate to force variable storage, below the threshold runs.
    let vals = [1u64, 2, 2, 3, 1, 1, 2];
    for (f, &v) in vals.iter().enumerate() {
        assert!(h.try_insert(f, v).is_some());
    }
    for (f, &v) in vals.iter().enumerate() {
        assert_eq!(h.get(f), Some(v));
    }
}

#[test]
fn promotion_through_all_encodings() {
    // Drive one record chain through constant -> variable -> constant
    // and verify every frame at every step.
    let mut h = History::<u64>::default();
    let mut expected: Vec<u64> = Vec::new();
    // Length-1 constant, then a differing value converts it to
    // variable.
    expected.push(3);
    expected.push(4);
    // Spool a few more distinct values.
    expected.push(5);
    expected.push(6);
    // A trailing run of the same value at least CONVERSION_THRESHOLD
    // long converts the tail back to a constant record.
    for _ in 0..(CONVERSION_THRESHOLD + 2) {
        expected.push(9);
    }
    for (f, &v) in expected.iter().enumerate() {
        assert!(h.try_insert(f, v).is_some());
        for (g, &w) in expected.iter().enumerate() {
            if g <= f {
                assert_eq!(h.get(g), Some(w), "frame {} after inserting {}", g, f);
            }
        }
    }
    for (f, &v) in expected.iter().enumerate() {
        assert_eq!(h.get(f), Some(v));
    }
    assert_eq!(h.get(expected.len()), None);
}

#[test]
fn long_variable_record_is_split() {
    let mut h = History::<u64>::default();
    // Strictly alternating values never compress; passing the cap
    // must still read back exactly.
    let n = MAXIMUM_RECORD_LENGTH + 20;
    for f in 0..n {
        let v = (f % 2) as u64;
        assert!(h.try_insert(f, v).is_some());
    }
    for f in 0..n {
        assert_eq!(h.get(f), Some((f % 2) as u64));
    }
    assert!(h.records() >= 2);
}

#[test]
fn size_is_constant_for_a_uniform_run() {
    let mut h = History::<u64>::default();
    for f in 0..1000 {
        assert!(h.try_insert(f, 1).is_some());
    }
    // A constant run costs one slot however long it is.
    assert_eq!(h.records(), 1);
    assert_eq!(h.size(), 1);
    // A variable run pays one slot per stored value.
    let mut v = History::<u64>::default();
    for f in 0..4 {
        assert!(v.try_insert(f, f as u64).is_some());
    }
    assert_eq!(v.records(), 1);
    assert_eq!(v.size(), 5);
}

#[test]
fn entity_history_round_trip() {
    let mut h = EntityHistory::<u64>::default();
    assert!(h.try_insert(3, 8).is_some());
    assert!(h.try_insert(4, 8).is_some());
    assert!(h.try_insert(3, 9).is_none());
    assert_eq!(h.get(3), Some(8));
    assert_eq!(h.get(4), Some(8));
    assert_eq!(h.get(5), None);
}

#[test]
fn promotion_ends_in_two_records() {
    let mut h = History::<u64>::default();
    assert!(h.try_insert(0, 1).is_some());
    for i in 1..=5usize {
        assert!(h.try_insert(i, 2).is_some());
    }
    // The trailing run of five identical values was promoted to a
    // constant record following the truncated variable record.
    assert_eq!(h.records(), 2);
    assert_eq!(h.get(0), Some(1));
    for i in 1..=5usize {
        assert_eq!(h.get(i), Some(2));
    }
}
