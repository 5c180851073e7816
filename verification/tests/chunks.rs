use blob_sync::chunks::{claim, total_chunks, ChunkRange, ChunkRanges};

fn closed(start: u64, end: u64) -> ChunkRange {
    ChunkRange::Range { start, end }
}

fn open(start: u64) -> ChunkRange {
    ChunkRange::RangeFrom { start }
}

fn set(ranges: Vec<ChunkRange>) -> ChunkRanges {
    ChunkRanges::from_ranges(&ranges)
}

#[test]
fn ranges_come_back_sorted_and_merged() {
    let ranges = set(vec![closed(10, 12), closed(0, 2), closed(2, 5), closed(7, 7), closed(9, 8)]);
    assert_eq!(ranges.to_ranges(), vec![closed(0, 5), closed(10, 12)]);
}

#[test]
fn overlapping_ranges_are_united() {
    let ranges = set(vec![closed(3, 8), closed(5, 10), open(9)]);
    assert_eq!(ranges.to_ranges(), vec![open(3)]);
}

#[test]
fn no_ranges_make_an_empty_set() {
    assert!(set(vec![]).to_ranges().is_empty());
    assert!(set(vec![closed(4, 4)]).to_ranges().is_empty());
}

#[test]
fn chunks_are_counted() {
    assert_eq!(total_chunks(&set(vec![])), Some(0));
    assert_eq!(total_chunks(&set(vec![closed(0, 5), closed(10, 12)])), Some(7));
    assert_eq!(total_chunks(&set(vec![closed(0, u64::MAX)])), Some(u64::MAX));
}

#[test]
fn open_ranges_cannot_be_counted() {
    assert_eq!(total_chunks(&set(vec![closed(0, 5), open(10)])), None);
    assert_eq!(total_chunks(&set(vec![open(u64::MAX)])), None);
}

#[test]
fn claim_takes_the_lowest_chunks() {
    let unclaimed = set(vec![closed(2, 5), closed(10, 20)]);
    assert_eq!(claim(&unclaimed, 2).to_ranges(), vec![closed(2, 4)]);
    assert_eq!(claim(&unclaimed, 3).to_ranges(), vec![closed(2, 5)]);
    assert_eq!(claim(&unclaimed, 7).to_ranges(), vec![closed(2, 5), closed(10, 14)]);
    // the unclaimed chunks are what they were
    assert_eq!(unclaimed.to_ranges(), vec![closed(2, 5), closed(10, 20)]);
}

#[test]
fn claim_takes_all_where_there_are_few() {
    let unclaimed = set(vec![closed(2, 5), closed(10, 20)]);
    assert_eq!(claim(&unclaimed, 13).to_ranges(), vec![closed(2, 5), closed(10, 20)]);
    assert_eq!(claim(&unclaimed, 100).to_ranges(), vec![closed(2, 5), closed(10, 20)]);
    assert_eq!(claim(&unclaimed, u64::MAX).to_ranges(), vec![closed(2, 5), closed(10, 20)]);
}

#[test]
fn claim_cuts_an_open_range() {
    let unclaimed = set(vec![closed(0, 1), open(5)]);
    assert_eq!(claim(&unclaimed, 4).to_ranges(), vec![closed(0, 1), closed(5, 8)]);
    assert_eq!(claim(&set(vec![open(5)]), u64::MAX).to_ranges(), vec![open(5)]);
}

#[test]
fn claim_is_empty_only_without_chunks_or_allowance() {
    assert!(claim(&set(vec![]), 4).to_ranges().is_empty());
    assert!(claim(&set(vec![closed(0, 9)]), 0).to_ranges().is_empty());
    assert!(claim(&set(vec![open(0)]), 0).to_ranges().is_empty());
    assert!(!claim(&set(vec![closed(8, 9)]), 1).to_ranges().is_empty());
}

#[test]
fn claim_is_settled_by_its_arguments() {
    let a = set(vec![closed(0, 4), closed(6, 9)]);
    let b = set(vec![closed(6, 7), closed(7, 9), closed(0, 4)]);
    assert_eq!(claim(&a, 5).to_ranges(), claim(&b, 5).to_ranges());
}
