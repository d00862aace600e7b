use sayit::performance::{percentile, record, MAX_SAMPLES};

#[test]
fn percentile_is_stable_for_small_samples() {
    assert_eq!(percentile(&[10, 20, 30, 40], 50), 20);
    assert_eq!(percentile(&[10, 20, 30, 40], 95), 30);
}

#[test]
fn percentile_of_no_samples_is_zero_and_window_drops_oldest() {
    assert_eq!(percentile(&[], 95), 0);
    let mut values = Vec::new();
    for value in 0..(MAX_SAMPLES as u64 + 3) {
        record(&mut values, value);
    }
    assert_eq!(values.len(), MAX_SAMPLES);
    assert_eq!(values[0], 3);
    assert_eq!(*values.last().unwrap(), MAX_SAMPLES as u64 + 2);
}

#[test]
fn metric_summary_sorts_the_samples() {
    let m = sayit::performance::summarize("inject".to_string(), &vec![40, 10, 30, 20]);
    assert_eq!(m.name, "inject");
    assert_eq!(m.samples, 4);
    assert_eq!(m.p50_ms, 20);
    assert_eq!(m.p95_ms, 30);
    assert_eq!(m.max_ms, 40);
    let empty = sayit::performance::summarize("idle".to_string(), &vec![]);
    assert_eq!((empty.samples, empty.p50_ms, empty.p95_ms, empty.max_ms), (0, 0, 0, 0));
}

#[test]
fn metrics_are_listed_by_name() {
    let all = sayit::performance::summarize_all(vec![
        ("b".to_string(), vec![5]),
        ("a".to_string(), vec![7, 3]),
        ("B".to_string(), vec![]),
    ]);
    let names: Vec<&str> = all.iter().map(|m| m.name.as_str()).collect();
    assert_eq!(names, vec!["B", "a", "b"]);
    assert_eq!(all[1].max_ms, 7);
    assert_eq!(all[1].p50_ms, 3);
}

#[test]
fn the_window_keeps_the_latest_samples_in_order() {
    let mut values: Vec<u64> = Vec::new();
    for x in 0..300u64 {
        sayit::performance::record(&mut values, x);
    }
    assert_eq!(values, (44..300u64).collect::<Vec<_>>());
}
