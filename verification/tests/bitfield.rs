use blob_sync::bitfield::print_bitfield;
use blob_sync::chunks::{ChunkRange, ChunkRanges};

fn line(ranges: Vec<(u64, u64)>, size: usize) -> String {
    let ranges = ranges
        .into_iter()
        .map(|(start, end)| ChunkRange::Range { start, end })
        .collect::<Vec<_>>();
    print_bitfield(&ChunkRanges::from_ranges(&ranges), size)
}

#[test]
fn one_character_for_each_chunk() {
    let expected = format!("██{}█", " ".repeat(97));
    assert_eq!(line(vec![(0, 2), (99, 100)], 100 * 1024), expected);
}

#[test]
fn shades_by_quarters() {
    // four chunks to a bucket
    let expected = format!(" ░▒▓█{}", " ".repeat(95));
    assert_eq!(line(vec![(4, 5), (8, 10), (12, 15), (16, 20)], 400 * 1024), expected);
}

#[test]
fn a_range_over_many_buckets() {
    let expected = format!("{}▒{}", "█".repeat(2), " ".repeat(97));
    assert_eq!(line(vec![(0, 10)], 400 * 1024), expected);
}

#[test]
fn ranges_add_up_in_a_bucket() {
    // the first and the last chunk of the first bucket
    let expected = format!("▒{}", " ".repeat(99));
    assert_eq!(line(vec![(0, 1), (3, 4)], 400 * 1024), expected);
}

#[test]
fn nothing_is_blank() {
    assert_eq!(line(vec![], 100 * 1024), " ".repeat(100));
}

#[test]
fn small_blobs_have_fewer_buckets() {
    assert_eq!(line(vec![(0, 1)], 1), "█");
    assert_eq!(line(vec![(0, 1)], 150), "█".repeat(75));
    assert_eq!(line(vec![], 100).chars().count(), 100);
    assert_eq!(line(vec![], 101).chars().count(), 51);
}

#[test]
fn the_last_bucket_counts_by_the_full_size() {
    // buckets of 11 bytes, one byte left for the last
    let expected = format!("{}░", "█".repeat(93));
    assert_eq!(line(vec![(0, 1)], 1024), expected);
}

#[test]
fn chunks_beyond_the_blob_do_not_show() {
    assert_eq!(line(vec![(5, 6)], 1024), " ".repeat(94));
    assert_eq!(line(vec![(0, u64::MAX)], 100 * 1024), "█".repeat(100));
}

#[test]
fn open_range_has_no_line() {
    let open = ChunkRanges::from_ranges(&vec![ChunkRange::RangeFrom { start: 3 }]);
    assert_eq!(print_bitfield(&open, 1024), "Open range");
}
