use blob_sync::downloader::prepare;
use blob_sync::survey::{addressable, agree_on_size, choose_hashes, latencies, Config, SyncError};
use std::collections::HashMap;

#[test]
fn the_last_hash_wins() {
    let hashes = choose_hashes(&vec![(1, [1; 32]), (2, [2; 32]), (1, [3; 32])]);
    assert_eq!(hashes.len(), 2);
    assert_eq!(hashes[&1], [3; 32]);
    assert_eq!(hashes[&2], [2; 32]);
}

#[test]
fn no_blobs_no_hashes() {
    assert!(choose_hashes(&vec![]).is_empty());
}

#[test]
fn all_agree_on_the_size() {
    let replies = vec![(0, Some((5, 100))), (1, None), (2, Some((6, 100)))];
    assert!(matches!(agree_on_size(&replies), Ok(100)));
}

#[test]
fn no_node_no_size() {
    assert!(matches!(agree_on_size(&vec![]), Err(SyncError::NoValidNodes)));
    assert!(matches!(agree_on_size(&vec![(3, None), (4, None)]), Err(SyncError::NoValidNodes)));
}

#[test]
fn sizes_that_differ_are_listed() {
    let replies = vec![(0, Some((5, 100))), (1, None), (2, Some((6, 100))), (3, Some((7, 99)))];
    match agree_on_size(&replies) {
        Err(SyncError::SizeMismatch { sizes }) => assert_eq!(sizes, vec![100, 100, 99]),
        _ => panic!("expected a mismatch"),
    }
}

#[test]
fn unreachable_nodes_have_no_latency() {
    let latency = latencies(&vec![(0, Some((5, 100))), (1, None), (2, Some((6, 100)))]);
    assert_eq!(latency, HashMap::from([(0, 5), (2, 6)]));
}

#[test]
fn sizes_in_memory() {
    assert!(matches!(addressable(0), Ok(0)));
    assert!(matches!(addressable(4096), Ok(4096)));
    if usize::MAX as u64 == u64::MAX {
        assert!(matches!(addressable(u64::MAX), Ok(usize::MAX)));
    } else {
        assert!(matches!(addressable(u64::MAX), Err(SyncError::SizeTooLarge { size: u64::MAX })));
    }
}

#[test]
fn prepared_from_the_replies() {
    let hashes = HashMap::from([(0, [0; 32]), (1, [1; 32]), (2, [2; 32])]);
    let config = Config { block_size: 4, parallelism: 3 };
    let replies = vec![(0, Some((50, 3000))), (1, None), (2, Some((20, 3000)))];
    let (downloader, target) = prepare(hashes.clone(), &replies, &config).unwrap();
    assert_eq!(target.data.len(), 3000);
    assert_eq!(downloader.unclaimed.to_ranges(), target.missing.to_ranges());
    assert_eq!(downloader.block_size, 4);
    assert_eq!(downloader.parallelism, 3);
    assert_eq!(downloader.hashes, hashes);
    assert_eq!(downloader.stats.len(), 2);
    assert_eq!(downloader.stats[&0].latency, 50);
    assert_eq!(downloader.stats[&2].latency, 20);
    assert!(downloader.tasks.is_empty());
    assert!(downloader.current.is_empty());
}

#[test]
fn nothing_prepared_without_nodes_or_agreement() {
    let config = Config { block_size: 4, parallelism: 3 };
    let replies = vec![(0, None)];
    assert!(matches!(prepare(HashMap::new(), &replies, &config), Err(SyncError::NoValidNodes)));
    let replies = vec![(0, Some((1, 10))), (1, Some((1, 11)))];
    assert!(matches!(
        prepare(HashMap::new(), &replies, &config),
        Err(SyncError::SizeMismatch { .. })
    ));
}
