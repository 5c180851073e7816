use blob_sync::chunks::{ChunkRange, ChunkRanges};
use blob_sync::quality::Quality;
use blob_sync::stats::PerNodeStats;

fn stats(ranges: Vec<ChunkRange>, time: u128) -> PerNodeStats {
    PerNodeStats {
        ranges: ChunkRanges::from_ranges(&ranges),
        errors: 2,
        time,
        start: None,
        latency: 30,
    }
}

fn closed(start: u64, end: u64) -> ChunkRange {
    ChunkRange::Range { start, end }
}

#[test]
fn totals_of_closed_ranges() {
    let stat = stats(vec![closed(0, 3), closed(5, 6)], 0);
    assert_eq!(stat.total_chunks(), Some(4));
    assert_eq!(stat.total_bytes(), Some(4096));
}

#[test]
fn no_totals_of_open_ranges() {
    let stat = stats(vec![closed(0, 3), ChunkRange::RangeFrom { start: 7 }], 5);
    assert_eq!(stat.total_chunks(), None);
    assert_eq!(stat.total_bytes(), None);
    assert_eq!(stat.rate(), None);
    assert_eq!(stat.quality(Some(9)), Quality::new(2, None, 30));
}

#[test]
fn bytes_stop_at_what_can_be_counted() {
    let stat = stats(vec![closed(0, u64::MAX)], 0);
    assert_eq!(stat.total_bytes(), Some(u64::MAX as usize));
    let stat = stats(vec![closed(0, 1 << 53)], 0);
    assert_eq!(stat.total_bytes(), Some((1u64 << 63) as usize));
}

#[test]
fn rate_needs_time() {
    assert_eq!(stats(vec![closed(0, 4)], 0).rate(), None);
    assert_eq!(stats(vec![closed(0, 4)], 2_000_000_000).rate(), Some((4096, 2_000_000_000)));
    assert_eq!(stats(vec![], 1).rate(), Some((0, 1)));
}

#[test]
fn rate_in_bytes_per_second() {
    let (total, time) = stats(vec![closed(0, 4)], 2_000_000_000).rate().unwrap();
    assert_eq!(total as f64 / (time as f64 / 1e9), 2048.0);
}

#[test]
fn quality_has_the_rate_once_measured() {
    assert_eq!(stats(vec![closed(0, 4)], 1).quality(Some(7)), Quality::new(2, Some(7), 30));
    assert_eq!(stats(vec![closed(0, 4)], 0).quality(Some(7)), Quality::new(2, None, 30));
}

#[test]
fn unused_nodes_have_nothing_but_a_latency() {
    let stat = PerNodeStats::with_latency(17);
    assert_eq!(stat.total_chunks(), Some(0));
    assert_eq!((stat.errors, stat.time, stat.start, stat.latency), (0, 0, None, 17));
    let stat = PerNodeStats::default();
    assert_eq!((stat.errors, stat.time, stat.start, stat.latency), (0, 0, None, 0));
    assert!(stat.ranges.to_ranges().is_empty());
}
