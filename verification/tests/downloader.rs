use blob_sync::chunks::{ChunkRange, ChunkRanges};
use blob_sync::downloader::{Action, Download, Downloader, NoFreeNodes, TaskResult};
use blob_sync::quality::{NodeId, Quality};
use blob_sync::target::Target;
use std::collections::HashMap;

fn closed(start: u64, end: u64) -> ChunkRange {
    ChunkRange::Range { start, end }
}

fn set(start: u64, end: u64) -> ChunkRanges {
    ChunkRanges::from_ranges(&vec![closed(start, end)])
}

fn none() -> HashMap<NodeId, u64> {
    HashMap::new()
}

/// Nodes 0, 1, .. with the given latencies, each with its own hash.
fn fresh(latency: Vec<u128>, chunks: usize, block_size: u64, parallelism: usize) -> (Downloader, Target) {
    let latency = latency
        .into_iter()
        .enumerate()
        .map(|(i, l)| (i as NodeId, l))
        .collect::<HashMap<_, _>>();
    let hashes = latency.keys().map(|id| (*id, [*id as u8; 32])).collect();
    Downloader::new(hashes, chunks * 1024, &latency, block_size, parallelism)
}

fn ids(list: Vec<(Quality, NodeId)>) -> Vec<NodeId> {
    list.into_iter().map(|(_, id)| id).collect()
}

/// Writes the chunks of the ranges to the target.
fn serve(target: &mut Target, blob: &Vec<u8>, ranges: &ChunkRanges) {
    for range in ranges.to_ranges() {
        if let ChunkRange::Range { start, end } = range {
            for chunk in start..end {
                let from = chunk as usize * 1024;
                let to = (from + 1024).min(blob.len());
                target.write_leaf(from as u64, &blob[from..to].to_vec()).unwrap();
            }
        }
    }
}

fn spawned(res: Result<Action, NoFreeNodes>) -> Download {
    match res {
        Ok(Action::Spawn(download)) => download,
        _ => panic!("expected a download"),
    }
}

#[test]
fn new_downloader_has_all_to_claim() {
    let (downloader, target) = fresh(vec![7, 8], 10, 4, 2);
    assert_eq!(downloader.unclaimed.to_ranges(), vec![closed(0, 10)]);
    assert_eq!(target.missing.to_ranges(), vec![closed(0, 10)]);
    assert_eq!(downloader.stats[&0].latency, 7);
    assert_eq!(downloader.stats[&1].latency, 8);
    assert_eq!(downloader.stats[&1].total_chunks(), Some(0));
}

#[test]
fn start_uses_the_best_nodes() {
    let (mut downloader, _) = fresh(vec![30, 10, 20], 10, 4, 2);
    let downloads = downloader.start(&none(), 100);
    assert_eq!(downloads.len(), 2);
    assert_eq!((downloads[0].id, downloads[0].hash), (1, [1; 32]));
    assert_eq!(downloads[0].ranges.to_ranges(), vec![closed(0, 4)]);
    assert_eq!((downloads[1].id, downloads[1].hash), (2, [2; 32]));
    assert_eq!(downloads[1].ranges.to_ranges(), vec![closed(4, 8)]);
    assert_eq!(downloader.unclaimed.to_ranges(), vec![closed(8, 10)]);
    assert_eq!(downloader.stats[&1].start, Some(100));
    assert_eq!(downloader.stats[&0].start, None);
    assert!(downloader.current.contains(&1) && downloader.current.contains(&2));
    assert!(!downloader.current.contains(&0));
    assert_eq!(downloader.tasks.len(), 2);
}

#[test]
fn start_stops_when_all_is_claimed() {
    let (mut downloader, _) = fresh(vec![30, 10, 20], 5, 4, 3);
    let downloads = downloader.start(&none(), 0);
    assert_eq!(downloads.len(), 2);
    assert_eq!(downloads[1].ranges.to_ranges(), vec![closed(4, 5)]);
    assert!(downloader.unclaimed.to_ranges().is_empty());
}

#[test]
fn start_without_allowance_begins_nothing() {
    let (mut downloader, _) = fresh(vec![30, 10], 5, 4, 0);
    assert!(downloader.start(&none(), 0).is_empty());
    let (mut downloader, _) = fresh(vec![30, 10], 5, 0, 2);
    assert!(downloader.start(&none(), 0).is_empty());
    assert!(downloader.current.is_empty());
}

#[test]
fn start_asks_no_node_for_nothing() {
    let (mut downloader, _) = fresh(vec![30, 10, 20], 0, 4, 3);
    assert!(downloader.start(&none(), 0).is_empty());
    assert!(downloader.current.is_empty());
    assert!(downloader.tasks.is_empty());
    assert!(downloader.stats.values().all(|stat| stat.start.is_none()));
}

#[test]
fn no_more_downloads_than_nodes() {
    let (mut downloader, _) = fresh(vec![30, 10], 100, 4, 9);
    let downloads = downloader.start(&none(), 0);
    assert_eq!(downloads.len(), 2);
    assert!(downloads.iter().all(|download| matches!(
        download.ranges.to_ranges()[..],
        [ChunkRange::Range { start, end }] if end - start == 4
    )));
}

#[test]
fn nodes_by_quality() {
    let (mut downloader, _) = fresh(vec![30, 10, 20, 10], 100, 4, 2);
    assert_eq!(ids(downloader.all_by_quality(&none(), 10)), vec![1, 3, 2, 0]);
    assert_eq!(ids(downloader.all_by_quality(&none(), 2)), vec![1, 3]);
    downloader.start(&none(), 0);
    assert_eq!(ids(downloader.free_by_quality(&none(), 10)), vec![2, 0]);
    assert_eq!(ids(downloader.free_by_quality(&none(), 1)), vec![2]);
    // the worst first; of equals the higher id
    assert_eq!(ids(downloader.busy_by_quality_rev(&none(), 10)), vec![3, 1]);
    assert_eq!(ids(downloader.all_by_quality(&none(), 0)), Vec::<NodeId>::new());
}

#[test]
fn all_nodes_are_the_free_and_the_busy_ones() {
    let (mut downloader, _) = fresh(vec![30, 10, 20, 10, 5], 100, 4, 2);
    downloader.start(&none(), 0);
    let all = ids(downloader.all_by_quality(&none(), usize::MAX));
    let free = ids(downloader.free_by_quality(&none(), usize::MAX));
    let busy = ids(downloader.busy_by_quality_rev(&none(), usize::MAX));
    assert_eq!(all, vec![4, 1, 3, 2, 0]);
    assert_eq!(free, vec![3, 2, 0]);
    assert_eq!(busy, vec![1, 4]);
    let mut both = free.iter().chain(&busy).copied().collect::<Vec<_>>();
    both.sort();
    assert_eq!(both, vec![0, 1, 2, 3, 4]);
    for n in 0..8 {
        assert_eq!(ids(downloader.all_by_quality(&none(), n)), all[..n.min(5)]);
    }
}

#[test]
fn rates_and_errors_decide() {
    let (mut downloader, target) = fresh(vec![10, 20, 30], 100, 4, 3);
    for download in downloader.start(&none(), 0) {
        let result = if download.id == 0 { TaskResult::Failed } else { TaskResult::Done };
        downloader.handle_task_result(download.id, download.ranges, result, &target, 1000);
    }
    let rates = HashMap::from([(0, 900), (1, 100), (2, 200)]);
    assert_eq!(
        downloader.all_by_quality(&rates, 3),
        vec![
            (Quality::new(0, Some(200), 30), 2),
            (Quality::new(0, Some(100), 20), 1),
            (Quality::new(1, Some(900), 10), 0),
        ]
    );
}

#[test]
fn spawn_claims_and_is_noted() {
    let (mut downloader, _) = fresh(vec![10], 10, 4, 1);
    let download = downloader.spawn_download(0, set(2, 5), 77);
    assert_eq!((download.id, download.hash), (0, [0; 32]));
    assert_eq!(download.ranges.to_ranges(), vec![closed(2, 5)]);
    assert_eq!(downloader.unclaimed.to_ranges(), vec![closed(0, 2), closed(5, 10)]);
    assert_eq!(downloader.tasks[0].id, 0);
    assert_eq!(downloader.tasks[0].ranges.to_ranges(), vec![closed(2, 5)]);
    assert_eq!(downloader.stats[&0].start, Some(77));
}

#[test]
fn done_keeps_the_chunks_claimed() {
    let (mut downloader, target) = fresh(vec![10], 10, 4, 1);
    downloader.spawn_download(0, set(0, 4), 100);
    downloader.handle_task_result(0, set(0, 4), TaskResult::Done, &target, 350);
    let stat = &downloader.stats[&0];
    assert_eq!(stat.ranges.to_ranges(), vec![closed(0, 4)]);
    assert_eq!((stat.errors, stat.time, stat.start), (0, 250, Some(100)));
    assert_eq!(downloader.unclaimed.to_ranges(), vec![closed(4, 10)]);
    assert!(downloader.tasks.is_empty());
    assert!(downloader.current.is_empty());
}

#[test]
fn failed_gives_back_what_is_missing() {
    let (mut downloader, mut target) = fresh(vec![10], 10, 4, 1);
    downloader.spawn_download(0, set(0, 4), 100);
    // one chunk has arrived
    target.write_leaf(1024, &vec![1; 1024]).unwrap();
    downloader.handle_task_result(0, set(0, 4), TaskResult::Failed, &target, 90);
    assert_eq!(downloader.unclaimed.to_ranges(), vec![closed(0, 1), closed(2, 10)]);
    let stat = &downloader.stats[&0];
    // no time has passed
    assert_eq!((stat.errors, stat.time), (1, 0));
    // only the chunk that arrived was downloaded from the node
    assert_eq!(stat.ranges.to_ranges(), vec![closed(1, 2)]);
    assert_eq!(stat.total_chunks(), Some(1));
}

#[test]
fn what_never_arrived_is_not_counted() {
    for result in [TaskResult::Failed, TaskResult::Killed] {
        let (mut downloader, target) = fresh(vec![10], 10, 4, 1);
        downloader.spawn_download(0, set(0, 4), 100);
        downloader.handle_task_result(0, set(0, 4), result, &target, 200);
        let stat = &downloader.stats[&0];
        assert_eq!(stat.total_chunks(), Some(0));
        assert_eq!(stat.total_bytes(), Some(0));
        assert_eq!(stat.rate(), Some((0, 100)));
    }
}

#[test]
fn a_failure_keeps_what_was_counted_before() {
    let (mut downloader, mut target) = fresh(vec![10], 10, 4, 1);
    downloader.spawn_download(0, set(0, 4), 0);
    for chunk in 0..4 {
        target.write_leaf(chunk * 1024, &vec![1; 1024]).unwrap();
    }
    downloader.handle_task_result(0, set(0, 4), TaskResult::Done, &target, 1);
    downloader.spawn_download(0, set(4, 8), 2);
    downloader.handle_task_result(0, set(4, 8), TaskResult::Killed, &target, 3);
    assert_eq!(downloader.stats[&0].ranges.to_ranges(), vec![closed(0, 4)]);
}

#[test]
fn killed_is_no_error() {
    let (mut downloader, target) = fresh(vec![10], 10, 4, 1);
    downloader.spawn_download(0, set(0, 4), 100);
    downloader.handle_task_result(0, set(0, 4), TaskResult::Killed, &target, 101);
    assert_eq!(downloader.unclaimed.to_ranges(), vec![closed(0, 10)]);
    assert_eq!(downloader.stats[&0].errors, 0);
}

#[test]
fn only_the_ended_download_leaves_the_list() {
    let (mut downloader, target) = fresh(vec![10, 20], 10, 4, 2);
    downloader.spawn_download(0, set(0, 4), 0);
    downloader.spawn_download(1, set(4, 8), 0);
    downloader.spawn_download(0, set(8, 10), 0);
    downloader.handle_task_result(0, set(8, 10), TaskResult::Done, &target, 1);
    assert_eq!(downloader.tasks.len(), 2);
    assert_eq!(downloader.tasks[0].ranges.to_ranges(), vec![closed(0, 4)]);
    assert_eq!(downloader.tasks[1].ranges.to_ranges(), vec![closed(4, 8)]);
}

#[test]
fn next_download_from_the_best_free_node() {
    let (mut downloader, _) = fresh(vec![10, 20, 30], 10, 4, 1);
    downloader.start(&none(), 0);
    let download = spawned(downloader.claim_and_spawn(&none(), 5));
    assert_eq!(download.id, 1);
    assert_eq!(download.ranges.to_ranges(), vec![closed(4, 8)]);
    let download = spawned(downloader.claim_and_spawn(&none(), 6));
    assert_eq!(download.id, 2);
    assert_eq!(download.ranges.to_ranges(), vec![closed(8, 10)]);
    assert_eq!(downloader.stats[&2].start, Some(6));
}

#[test]
fn no_free_node_to_claim_for() {
    let (mut downloader, _) = fresh(vec![10], 10, 4, 1);
    downloader.start(&none(), 0);
    assert!(matches!(downloader.claim_and_spawn(&none(), 5), Err(NoFreeNodes)));
    assert_eq!(downloader.unclaimed.to_ranges(), vec![closed(4, 10)]);
}

#[test]
fn no_free_node_to_change_to() {
    let (mut downloader, _) = fresh(vec![10], 4, 4, 1);
    downloader.start(&none(), 0);
    assert!(matches!(downloader.claim_and_spawn(&none(), 5), Err(NoFreeNodes)));
}

/// Two nodes: 0 is free, 1 is busy, nothing is left to claim. Both were measured where asked.
fn finish_mode(free_measured: bool, busy_measured: bool) -> Downloader {
    let (mut downloader, target) = fresh(vec![10, 10], 12, 4, 1);
    for (id, measured) in [(0, free_measured), (1, busy_measured)] {
        let ranges = || set(id * 4, id * 4 + 4);
        downloader.spawn_download(id, ranges(), 0);
        let now = if measured { 1000 } else { 0 };
        downloader.handle_task_result(id, ranges(), TaskResult::Done, &target, now);
    }
    downloader.spawn_download(1, set(8, 12), 2000);
    downloader
}

#[test]
fn a_much_slower_download_is_killed() {
    let mut downloader = finish_mode(true, true);
    let rates = HashMap::from([(0, 401), (1, 100)]);
    assert!(matches!(downloader.claim_and_spawn(&rates, 2001), Ok(Action::Kill(1))));
    assert!(downloader.current.is_empty());
    // it stays in the list until it ends
    assert_eq!(downloader.tasks.len(), 1);
    // there is nothing more to kill
    assert!(matches!(downloader.claim_and_spawn(&rates, 2002), Ok(Action::Wait)));
}

#[test]
fn a_somewhat_slower_download_goes_on() {
    let mut downloader = finish_mode(true, true);
    let rates = HashMap::from([(0, 400), (1, 100)]);
    assert!(matches!(downloader.claim_and_spawn(&rates, 2001), Ok(Action::Wait)));
    assert!(downloader.current.contains(&1));
}

#[test]
fn very_high_rates_are_compared() {
    let mut downloader = finish_mode(true, true);
    let rates = HashMap::from([(0, u64::MAX), (1, u64::MAX / 2)]);
    assert!(matches!(downloader.claim_and_spawn(&rates, 2001), Ok(Action::Wait)));
}

#[test]
fn a_better_download_goes_on() {
    let mut downloader = finish_mode(true, true);
    let rates = HashMap::from([(0, 100), (1, 1000)]);
    assert!(matches!(downloader.claim_and_spawn(&rates, 2001), Ok(Action::Wait)));
}

#[test]
fn a_download_without_rate_is_killed_for_one_with() {
    let mut downloader = finish_mode(true, false);
    let rates = HashMap::from([(0, 1)]);
    assert!(matches!(downloader.claim_and_spawn(&rates, 2001), Ok(Action::Kill(1))));
}

#[test]
fn a_download_with_rate_goes_on_where_the_other_has_none() {
    let mut downloader = finish_mode(false, true);
    let rates = HashMap::from([(1, 1)]);
    assert!(matches!(downloader.claim_and_spawn(&rates, 2001), Ok(Action::Wait)));
}

#[test]
fn without_any_rate_the_download_goes_on() {
    let mut downloader = finish_mode(false, false);
    assert!(matches!(downloader.claim_and_spawn(&none(), 2001), Ok(Action::Wait)));
}

#[test]
fn without_anything_to_do_nothing_is_done() {
    let (mut downloader, _) = fresh(vec![10], 0, 4, 1);
    assert!(downloader.start(&none(), 0).is_empty());
    assert!(matches!(downloader.claim_and_spawn(&none(), 1), Ok(Action::Wait)));
}

#[test]
fn an_empty_blob_is_complete() {
    let (mut downloader, target) = fresh(vec![10], 0, 4, 1);
    downloader.start(&none(), 0);
    let (data, stats) = downloader.finish(target);
    assert!(data.is_empty());
    assert_eq!(stats.len(), 1);
}

#[test]
fn an_empty_blob_needs_no_allowance() {
    for (block_size, parallelism) in [(0, 2), (4, 0), (0, 0)] {
        let (mut downloader, target) = fresh(vec![10, 20], 0, block_size, parallelism);
        assert!(downloader.start(&none(), 0).is_empty());
        assert!(downloader.tasks.is_empty());
        let (data, stats) = downloader.finish(target);
        assert!(data.is_empty());
        assert_eq!((stats[&0].latency, stats[&1].latency), (10, 20));
    }
}

#[test]
fn statistics_over_a_run() {
    let blob = blob(5 * 1024);
    let (mut downloader, mut target) = fresh(vec![10, 20, 30], 5, 1, 1);
    let mut running = downloader.start(&none(), 0);
    let mut now = 0;
    while let Some(download) = running.pop() {
        now += 1;
        // the first node always fails, the second one never
        let result = if download.id == 0 { TaskResult::Failed } else { TaskResult::Done };
        if result == TaskResult::Done {
            serve(&mut target, &blob, &download.ranges);
        }
        downloader.handle_task_result(download.id, download.ranges, result, &target, now);
        if let Ok(Action::Spawn(download)) = downloader.claim_and_spawn(&none(), now) {
            running.push(download);
        }
    }
    let (data, stats) = downloader.finish(target);
    assert_eq!(data, blob);
    assert_eq!([0, 1, 2].map(|id| stats[&id].latency), [10, 20, 30]);
    assert_eq!([0, 1, 2].map(|id| stats[&id].errors), [1, 0, 0]);
    assert_eq!([0, 1, 2].map(|id| stats[&id].total_chunks()), [Some(0), Some(5), Some(0)]);
    // the third node was never asked
    assert_eq!((stats[&2].start, stats[&2].time), (None, 0));
}

/// Runs until no download is running. Each download ends as told by its number; one that is
/// not done has brought its first chunk only.
fn run(
    nodes: Vec<u128>,
    blob: &Vec<u8>,
    block_size: u64,
    parallelism: usize,
    outcome: fn(usize) -> TaskResult,
) -> (Vec<u8>, u64) {
    let latency = nodes
        .into_iter()
        .enumerate()
        .map(|(i, l)| (i as NodeId, l))
        .collect::<HashMap<_, _>>();
    let hashes = latency.keys().map(|id| (*id, [9; 32])).collect();
    let (mut downloader, mut target) = Downloader::new(hashes, blob.len(), &latency, block_size, parallelism);
    let mut running = downloader.start(&none(), 0);
    let mut number = 0;
    while !running.is_empty() {
        assert!(running.len() <= parallelism);
        assert_eq!(running.len(), downloader.tasks.len());
        let download = running.remove(number % running.len());
        let result = outcome(number);
        number += 1;
        let now = number as u128 * 10;
        match result {
            TaskResult::Done => serve(&mut target, blob, &download.ranges),
            _ => {
                if let Some(ChunkRange::Range { start, .. }) = download.ranges.to_ranges().first().copied() {
                    serve(&mut target, blob, &set(start, start + 1));
                }
            }
        }
        downloader.handle_task_result(download.id, download.ranges, result, &target, now);
        match downloader.claim_and_spawn(&none(), now) {
            Ok(Action::Spawn(download)) => running.push(download),
            Ok(Action::Kill(_)) => panic!("no rates, no kill"),
            Ok(Action::Wait) => {}
            Err(NoFreeNodes) => panic!("the node that ended is free"),
        }
    }
    assert!(downloader.unclaimed.to_ranges().is_empty());
    assert!(target.missing.to_ranges().is_empty());
    let (data, stats) = downloader.finish(target);
    // each chunk was downloaded from one node
    let chunks = stats.values().map(|stat| stat.total_chunks().unwrap()).sum::<u64>();
    assert_eq!(chunks, (blob.len() as u64 + 1023) / 1024);
    (data, stats.values().map(|stat| stat.errors).sum())
}

fn blob(size: usize) -> Vec<u8> {
    (0..size).map(|i| (i * 7 % 253) as u8).collect()
}

#[test]
fn a_run_brings_the_blob() {
    let blob = blob(50_001);
    let (data, errors) = run(vec![30, 10, 20], &blob, 4, 2, |_| TaskResult::Done);
    assert_eq!(data, blob);
    assert_eq!(errors, 0);
}

#[test]
fn a_run_with_failures_brings_the_blob() {
    let blob = blob(50_001);
    let (data, errors) = run(vec![30, 10, 20, 40], &blob, 4, 3, |n| {
        if n < 9 && n % 3 == 0 {
            TaskResult::Failed
        } else if n % 5 == 0 {
            TaskResult::Killed
        } else {
            TaskResult::Done
        }
    });
    assert_eq!(data, blob);
    assert_eq!(errors, 3);
}

#[test]
fn a_run_with_one_node_brings_the_blob() {
    let blob = blob(3 * 1024);
    let (data, errors) = run(vec![30], &blob, 1, 5, |n| {
        if n == 0 { TaskResult::Failed } else { TaskResult::Done }
    });
    assert_eq!(data, blob);
    assert_eq!(errors, 1);
}

#[test]
fn a_failed_node_is_left_for_another() {
    let (mut downloader, target) = fresh(vec![10, 20], 8, 4, 1);
    let download = downloader.start(&none(), 0).remove(0);
    assert_eq!(download.id, 0);
    downloader.handle_task_result(0, download.ranges, TaskResult::Failed, &target, 1);
    let download = spawned(downloader.claim_and_spawn(&none(), 2));
    assert_eq!(download.id, 1);
    assert_eq!(download.ranges.to_ranges(), vec![closed(0, 4)]);
}
