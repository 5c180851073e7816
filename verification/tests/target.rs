use blob_sync::chunks::ChunkRange;
use blob_sync::target::Target;

fn closed(start: u64, end: u64) -> ChunkRange {
    ChunkRange::Range { start, end }
}

#[test]
fn a_new_target_misses_all() {
    let target = Target::new(2049);
    assert_eq!(target.data, vec![0; 2049]);
    assert_eq!(target.missing.to_ranges(), vec![closed(0, 3)]);
    let target = Target::new(2048);
    assert_eq!(target.missing.to_ranges(), vec![closed(0, 2)]);
}

#[test]
fn an_empty_target_misses_nothing() {
    assert!(Target::new(0).missing.to_ranges().is_empty());
    let target = Target::default();
    assert!(target.data.is_empty());
    assert!(target.missing.to_ranges().is_empty());
}

#[test]
fn a_leaf_is_put_in_its_place() {
    let mut target = Target::new(3000);
    assert_eq!(target.write_leaf(1024, &vec![7; 1024]), Ok(()));
    assert_eq!(target.missing.to_ranges(), vec![closed(0, 1), closed(2, 3)]);
    assert!(target.data[..1024].iter().all(|b| *b == 0));
    assert!(target.data[1024..2048].iter().all(|b| *b == 7));
    assert!(target.data[2048..].iter().all(|b| *b == 0));
}

#[test]
fn a_leaf_of_several_chunks() {
    let mut target = Target::new(4096);
    assert_eq!(target.write_leaf(0, &vec![1; 3072]), Ok(()));
    assert_eq!(target.missing.to_ranges(), vec![closed(3, 4)]);
}

#[test]
fn an_empty_leaf_changes_nothing() {
    let mut target = Target::new(2048);
    assert_eq!(target.write_leaf(1024, &vec![]), Ok(()));
    assert_eq!(target.data, vec![0; 2048]);
    assert_eq!(target.missing.to_ranges(), vec![closed(0, 2)]);
}

#[test]
fn all_leaves_make_the_blob() {
    let blob = (0..5000).map(|i| (i % 251) as u8).collect::<Vec<_>>();
    let mut target = Target::new(blob.len());
    for i in [3, 0, 4, 1, 2] {
        let end = (i * 1024 + 1024).min(blob.len());
        target.write_leaf(i as u64 * 1024, &blob[i * 1024..end].to_vec()).unwrap();
    }
    assert!(target.missing.to_ranges().is_empty());
    assert_eq!(target.data, blob);
}
