use blob_sync::quality::Quality;
use std::time::Duration;

/// The quality with a measured rate cut down to whole bytes per second.
fn quality(errors: u64, rate: Option<f64>, latency: Duration) -> Quality {
    Quality::new(errors, rate.map(|x| x as u64), latency.as_nanos())
}

#[test]
fn test_quality_ordering() {
    let mut qualities = vec![
        // Worst: high errors, no rate, high latency
        quality(2, None, Duration::from_millis(100)),
        // Bad: high errors with rate
        quality(2, Some(1000.5), Duration::from_millis(20)),
        // Medium: some errors, no rate, low latency
        quality(1, None, Duration::from_millis(10)),
        // Good: no errors, no rate
        quality(0, None, Duration::from_millis(50)),
        // Better: no errors, low rate
        quality(0, Some(500.8), Duration::from_millis(30)),
        // Same rate after truncation, higher latency (worse)
        quality(0, Some(2000.9), Duration::from_millis(40)),
        // Same rate after truncation, lower latency (better)
        quality(0, Some(2000.1), Duration::from_millis(10)),
        // Best: no errors, highest rate, lowest latency
        quality(0, Some(3000.0), Duration::from_millis(5)),
    ];

    qualities.sort_by(|a, b| a.partial_cmp(b).unwrap());

    // Verify the sorted order (best to worst)
    let expected = vec![
        quality(0, Some(3000.0), Duration::from_millis(5)), // Best
        quality(0, Some(2000.1), Duration::from_millis(10)), // Same rate after truncation, lower latency wins
        quality(0, Some(2000.9), Duration::from_millis(40)), // Same rate after truncation, higher latency
        quality(0, Some(500.8), Duration::from_millis(30)),
        quality(0, None, Duration::from_millis(50)), // No rate, uses latency
        quality(1, None, Duration::from_millis(10)),
        quality(2, Some(1000.5), Duration::from_millis(20)),
        quality(2, None, Duration::from_millis(100)), // Worst
    ];

    assert_eq!(qualities, expected);
}

#[test]
fn errors_count_before_rates() {
    assert!(Quality::new(0, None, 900) < Quality::new(1, Some(1_000_000), 1));
}

#[test]
fn a_rate_counts_before_latency() {
    assert!(Quality::new(1, Some(0), 900) < Quality::new(1, None, 1));
    assert!(Quality::new(1, Some(8), 900) < Quality::new(1, Some(7), 1));
}

#[test]
fn latency_counts_last() {
    assert!(Quality::new(1, None, 1) < Quality::new(1, None, 2));
    assert!(Quality::new(1, Some(3), 1) < Quality::new(1, Some(3), 2));
    assert!(!(Quality::new(1, Some(3), 2) < Quality::new(1, Some(3), 2)));
}

#[test]
fn the_rate_is_kept() {
    assert_eq!(Quality::new(1, Some(3), 2).rate(), Some(3));
    assert_eq!(Quality::new(1, None, 2).rate(), None);
}

#[test]
fn the_order_is_total_and_transitive() {
    let mut all = Vec::new();
    for errors in 0..2 {
        for rate in [None, Some(0), Some(5)] {
            for latency in 0..2 {
                all.push(Quality::new(errors, rate, latency));
            }
        }
    }
    for a in &all {
        for b in &all {
            assert_eq!(a != b, (a < b) != (b < a));
            for c in &all {
                assert!(!(a < b && b < c) || a < c);
            }
        }
    }
}
