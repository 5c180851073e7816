//! Which node downloads which chunks, and what happens when a download ends.
use std::collections::{HashMap, HashSet};

use vstd::prelude::*;

use crate::chunks::{chunks_of_bytes, claim, is_claim, law_claim_empty, lemma_chunks_finite, ChunkRanges};
use crate::quality::{first_of, is_first, is_lead, law_lead_all, law_lead_first, law_lead_unique, lead_of, leading, NodeId, Quality, Ranked};
use crate::stats::PerNodeStats;
use crate::steps::{
    law_all_by_preference, law_busy_by_preference, law_free_by_preference, law_next_kind, law_next_spawn, preferred,
};
use crate::survey::{
    addressable, agree_on_size, latencies, latencies_given, law_some_node, law_unreachable_left_out, size_settled,
    sizes_given, BlobHash, Config, Reply, SyncError,
};
use crate::target::{agrees, law_complete, Target};

verus! {

broadcast use vstd::std_specs::hash::group_hash_axioms;

/// A download that is running: which node it is from, and which chunks it is to bring.
pub struct Task {
    pub id: NodeId,
    pub ranges: ChunkRanges,
}

/// A download to begin: which chunks of which blob to ask which node for.
pub struct Download {
    pub id: NodeId,
    pub hash: BlobHash,
    pub ranges: ChunkRanges,
}

/// The state of the downloads from all nodes.
pub struct Downloader {
    /// Currently active downloads
    pub tasks: Vec<Task>,
    /// Unclaimed chunks that are not yet assigned to any download
    pub unclaimed: ChunkRanges,
    /// Mapping from node id to hash, to know what to download
    pub hashes: HashMap<NodeId, BlobHash>,
    /// Per node statistics. Note that this will also be filled for nodes we never
    /// talked to, using the initial latency.
    pub stats: HashMap<NodeId, PerNodeStats>,
    /// Nodes whose current download can be killed. A node that is taken out while a download
    /// from it is running gives that download up.
    pub current: HashSet<NodeId>,
    /// Block size for downloads
    pub block_size: u64,
    /// Maximum number of concurrent downloads
    pub parallelism: usize,
}

/// The rate measured for a node, in whole bytes per second.
pub open spec fn rate_of(rates: Map<NodeId, u64>, id: NodeId) -> Option<u64> {
    if rates.contains_key(id) {
        Some(rates[id])
    } else {
        None
    }
}

/// What is to be done next.
pub enum Action {
    /// Begin this download.
    Spawn(Download),
    /// Kill the current download from this node.
    Kill(NodeId),
    /// Nothing: the downloads that are running go on.
    Wait,
}

/// There is no free node to download from.
#[derive(Debug, Clone, Copy, PartialEq, Eq, Structural)]
pub struct NoFreeNodes;

/// Whether the rate of the worst busy node is so much worse than that of the best free node
/// that its download is given up: less than a quarter, or unknown while the other is known.
pub open spec fn much_worse(worst: Option<u64>, best: Option<u64>) -> bool {
    match (worst, best) {
        (Some(w), Some(b)) => w * 4 < b,
        (Some(_), None) => false,
        (None, Some(_)) => true,
        (None, None) => false,
    }
}

/// How a download ended.
#[derive(Debug, Clone, Copy, PartialEq, Eq, Structural)]
pub enum TaskResult {
    /// All that was asked for has been received.
    Done,
    /// There was an error.
    Failed,
    /// The download has been killed. This does not count towards errors.
    Killed,
}

/// The longest time that is measured: as many whole seconds as 64 bits can count, and what
/// is short of one more.
pub const MAX_NANOS: u128 = 18_446_744_073_709_551_615_999_999_999;

/// The downloads as plain values.
pub open spec fn task_list(tasks: Seq<Task>) -> Seq<(NodeId, Set<u64>)> {
    tasks.map_values(|task: Task| (task.id, task.ranges@))
}

/// Time from one point to another; none where the other is not later.
pub open spec fn elapsed(start: u128, now: u128) -> int {
    if start <= now {
        now - start
    } else {
        0
    }
}

/// The statistics after a download has begun; where there were none, those of a node
/// never used.
pub open spec fn begun(before: Option<PerNodeStats>, after: PerNodeStats, now: u128) -> bool {
    &&& after.start == Some(now)
    &&& match before {
        Some(stat) => after == (PerNodeStats { start: Some(now), ..stat }),
        None => {
            &&& after.ranges@ == Set::<u64>::empty()
            &&& after.errors == 0
            &&& after.time == 0
            &&& after.latency == 0
        },
    }
}

/// What a download of the chunks has brought: all of them where it is done, else those that
/// are no longer missing.
pub open spec fn brought(chunks: Set<u64>, result: TaskResult, missing: Set<u64>) -> Set<u64> {
    if result == TaskResult::Done {
        chunks
    } else {
        chunks.difference(missing)
    }
}

/// The statistics after a download of the chunks has ended: only what it has brought counts
/// as downloaded.
pub open spec fn ended(
    before: PerNodeStats,
    after: PerNodeStats,
    chunks: Set<u64>,
    result: TaskResult,
    missing: Set<u64>,
    now: u128,
) -> bool {
    &&& after.ranges@ == before.ranges@.union(brought(chunks, result, missing))
    &&& after.errors == before.errors + if result == TaskResult::Failed {
        1int
    } else {
        0
    }
    &&& after.time == before.time + elapsed(before.start->0, now)
    &&& after.start == before.start
    &&& after.latency == before.latency
}

/// What is left to claim after the first `n` of the downloads.
pub open spec fn left(unclaimed: Set<u64>, downloads: Seq<Download>, n: int) -> Set<u64>
    decreases n,
{
    if n <= 0 {
        unclaimed
    } else {
        left(unclaimed, downloads, n - 1).difference(downloads[n - 1].ranges@)
    }
}

/// One of the downloads is from the node.
pub open spec fn downloads_from(downloads: Seq<Download>, id: NodeId) -> bool {
    exists|i: int| 0 <= i < downloads.len() && (#[trigger] downloads[i]).id == id
}

impl Downloader {
    /// The node has begun a download at some time.
    pub open spec fn has_begun(self, id: NodeId) -> bool {
        self.stats@.contains_key(id) && self.stats@[id].start is Some
    }

    /// This download is running.
    pub open spec fn is_running(self, id: NodeId, chunks: Set<u64>) -> bool {
        task_list(self.tasks@).contains((id, chunks))
    }

    /// There is a hash for each node.
    pub open spec fn knows_hashes(self) -> bool {
        forall|id: NodeId| #[trigger] self.stats@.contains_key(id) ==> self.hashes@.contains_key(id)
    }

    /// There is a hash for each node; each download was begun by its node; and no chunk is
    /// assigned twice.
    pub open spec fn wf(self) -> bool {
        &&& self.knows_hashes()
        &&& forall|i: int| 0 <= i < self.tasks@.len() ==> self.has_begun((#[trigger] self.tasks@[i]).id)
        &&& self.exclusive()
    }

    /// No chunk is assigned to two downloads, and none that is assigned is unclaimed.
    pub open spec fn exclusive(self) -> bool {
        &&& forall|i: int| 0 <= i < self.tasks@.len() ==> self.unclaimed@.disjoint((#[trigger] self.tasks@[i]).ranges@)
        &&& forall|i: int, j: int|
            0 <= i < j < self.tasks@.len() ==> (#[trigger] self.tasks@[i]).ranges@.disjoint(
                (#[trigger] self.tasks@[j]).ranges@,
            )
    }

    /// Every missing chunk is unclaimed or assigned to a download.
    pub open spec fn covers(self, missing: Set<u64>) -> bool {
        forall|c: u64| #[trigger]
            missing.contains(c) ==> self.unclaimed@.contains(c) || exists|i: int|
                0 <= i < self.tasks@.len() && (#[trigger] self.tasks@[i]).ranges@.contains(c)
    }

    /// Only missing chunks are left to claim.
    pub open spec fn claims_missing(self, missing: Set<u64>) -> bool {
        self.unclaimed@.subset_of(missing)
    }

    /// Each download is to bring one chunk at least, and no more than a block.
    pub open spec fn sized(self) -> bool {
        forall|i: int|
            0 <= i < self.tasks@.len() ==> 1 <= (#[trigger] self.tasks@[i]).ranges@.len() <= self.block_size
    }

    /// Nothing that is missing counts as downloaded from any node.
    pub open spec fn counts_received(self, missing: Set<u64>) -> bool {
        forall|id: NodeId| #[trigger] self.stats@.contains_key(id) ==> self.stats@[id].ranges@.disjoint(missing)
    }

    /// The chunk counts as downloaded from some node.
    pub open spec fn counted(self, chunk: u64) -> bool {
        exists|id: NodeId| #[trigger] self.stats@.contains_key(id) && self.stats@[id].ranges@.contains(chunk)
    }

    /// The chunk is assigned to a download.
    pub open spec fn assigned(self, chunk: u64) -> bool {
        exists|i: int| 0 <= i < self.tasks@.len() && (#[trigger] self.tasks@[i]).ranges@.contains(chunk)
    }

    /// Of all the chunks, each that is not missing counts as downloaded or is assigned to a
    /// download; none counts for two nodes, and none that counts is assigned.
    pub open spec fn tallies(self, missing: Set<u64>, all: Set<u64>) -> bool {
        &&& forall|id: NodeId, other: NodeId|
            #![trigger self.stats@.contains_key(id), self.stats@.contains_key(other)]
            self.stats@.contains_key(id) && self.stats@.contains_key(other) && id != other
                ==> self.stats@[id].ranges@.disjoint(self.stats@[other].ranges@)
        &&& forall|id: NodeId, i: int|
            #![trigger self.stats@.contains_key(id), self.tasks@[i]]
            self.stats@.contains_key(id) && 0 <= i < self.tasks@.len() ==> self.stats@[id].ranges@.disjoint(
                self.tasks@[i].ranges@,
            )
        &&& forall|id: NodeId| #[trigger] self.stats@.contains_key(id) ==> self.stats@[id].ranges@.subset_of(all)
        &&& forall|i: int| 0 <= i < self.tasks@.len() ==> (#[trigger] self.tasks@[i]).ranges@.subset_of(all)
        &&& forall|c: u64| #[trigger] all.contains(c) && !missing.contains(c) ==> self.counted(c) || self.assigned(c)
    }

    /// Nothing is lost and nothing is done twice; and there is a download running as long
    /// as there is something to claim.
    pub open spec fn on_track(self, missing: Set<u64>) -> bool {
        &&& self.wf()
        &&& self.covers(missing)
        &&& self.claims_missing(missing)
        &&& self.tasks@.len() == 0 ==> self.unclaimed@ == Set::<u64>::empty()
    }

    /// The state before the first download, with the target to fill: all of the blob is
    /// missing and unclaimed, no download is running, and of each node only the latency is
    /// known.
    pub open spec fn fresh(
        self,
        target: Target,
        hashes: Map<NodeId, BlobHash>,
        size: int,
        latency: Map<NodeId, u128>,
        block_size: u64,
        parallelism: usize,
    ) -> bool {
        &&& target.data@ == Seq::new(size as nat, |i: int| 0u8)
        &&& target.missing@ == chunks_of_bytes(0, size as u64)
        &&& self.unclaimed@ == chunks_of_bytes(0, size as u64)
        &&& self.tasks@.len() == 0
        &&& self.current@ == Set::<NodeId>::empty()
        &&& self.hashes@ == hashes
        &&& self.stats@.dom() == latency.dom()
        &&& forall|id: NodeId| #[trigger] latency.contains_key(id) ==> self.stats@[id].unused(latency[id])
        &&& self.block_size == block_size
        &&& self.parallelism == parallelism
    }

    /// The state before the first download, and the target to fill.
    pub fn new(
        hashes: HashMap<NodeId, BlobHash>,
        size: usize,
        latency: &HashMap<NodeId, u128>,
        block_size: u64,
        parallelism: usize,
    ) -> (res: (Downloader, Target))
        ensures
            res.0.fresh(res.1, hashes@, size as int, latency@, block_size, parallelism),
            latency@.dom().subset_of(hashes@.dom()) ==> res.0.wf(),
            res.0.covers(res.1.missing@),
            res.0.claims_missing(res.1.missing@),
    {
        let target = Target::new(size);
        let unclaimed = target.missing.duplicate();
        let ids = ids_of(latency);
        let mut stats: HashMap<NodeId, PerNodeStats> = HashMap::new();
        for i in 0..ids.len()
            invariant
                ids@.to_set() == latency@.dom(),
                stats@.dom() == ids@.take(i as int).to_set(),
                forall|id: NodeId| #[trigger] stats@.contains_key(id) ==> stats@[id].unused(latency@[id]),
        {
            let id: NodeId = ids[i];
            assert(ids@.to_set().contains(id));
            assert(ids@.take(i + 1) =~= ids@.take(i as int).push(id));
            assert(ids@.take(i + 1).to_set() =~= ids@.take(i as int).to_set().insert(id)) by {
                assert forall|other: NodeId| ids@.take(i + 1).to_set().contains(other) == ids@.take(
                    i as int,
                ).to_set().insert(id).contains(other) by {
                    if ids@.take(i as int).contains(other) {
                        assert(ids@.take(i + 1)[ids@.take(i as int).index_of(other)] == other);
                    }
                    assert(ids@.take(i + 1)[i as int] == id);
                }
            }
            if let Some(l) = latency.get(&id) {
                stats.insert(id, PerNodeStats::with_latency(*l));
            }
        }
        assert(ids@.take(ids@.len() as int) =~= ids@);
        let res = Downloader {
            tasks: Vec::new(),
            unclaimed,
            hashes,
            stats,
            current: HashSet::new(),
            block_size,
            parallelism,
        };
        proof {
            assert forall|id: NodeId| #[trigger] latency@.contains_key(id) implies res.stats@.contains_key(id) by {
                assert(latency@.dom().contains(id));
            }
        }
        (res, target)
    }

    /// The node is one of those with statistics, and this is its quality.
    pub open spec fn ranks(self, rates: Map<NodeId, u64>, node: Ranked) -> bool {
        &&& self.stats@.contains_key(node.1)
        &&& node.0 == self.stats@[node.1].quality_at(rate_of(rates, node.1))
    }

    /// All nodes with their qualities.
    pub open spec fn nodes(self, rates: Map<NodeId, u64>) -> Set<Ranked> {
        Set::new(|node: Ranked| self.ranks(rates, node))
    }

    /// The nodes without a current download.
    pub open spec fn free_nodes(self, rates: Map<NodeId, u64>) -> Set<Ranked> {
        Set::new(|node: Ranked| self.ranks(rates, node) && !self.current@.contains(node.1))
    }

    /// The nodes with a current download.
    pub open spec fn busy_nodes(self, rates: Map<NodeId, u64>) -> Set<Ranked> {
        Set::new(|node: Ranked| self.ranks(rates, node) && self.current@.contains(node.1))
    }

    /// What never changes.
    pub open spec fn same_plan(self, other: Downloader) -> bool {
        &&& self.hashes@ == other.hashes@
        &&& self.block_size == other.block_size
        &&& self.parallelism == other.parallelism
    }

    /// The download has begun: its chunks are claimed, its node is busy, and it is in the
    /// list.
    pub open spec fn spawned(self, after: Downloader, download: Download, now: u128) -> bool {
        let id = download.id;
        &&& download.hash == self.hashes@[id]
        &&& after.unclaimed@ == self.unclaimed@.difference(download.ranges@)
        &&& after.current@ == self.current@.insert(id)
        &&& after.stats@ == self.stats@.insert(id, after.stats@[id])
        &&& begun(
            if self.stats@.contains_key(id) {
                Some(self.stats@[id])
            } else {
                None
            },
            after.stats@[id],
            now,
        )
        &&& task_list(after.tasks@) == task_list(self.tasks@).push((id, download.ranges@))
        &&& after.same_plan(self)
    }

    /// The download has ended: it is out of the list, its node is free, and unless it
    /// brought all its chunks, those still missing can be claimed again.
    pub open spec fn settled(
        self,
        after: Downloader,
        id: NodeId,
        chunks: Set<u64>,
        result: TaskResult,
        missing: Set<u64>,
        now: u128,
    ) -> bool {
        &&& after.unclaimed@ == if result == TaskResult::Done {
            self.unclaimed@
        } else {
            self.unclaimed@.union(chunks.intersect(missing))
        }
        &&& after.current@ == self.current@.remove(id)
        &&& after.stats@ == self.stats@.insert(id, after.stats@[id])
        &&& ended(self.stats@[id], after.stats@[id], chunks, result, missing, now)
        &&& task_list(after.tasks@) == task_list(self.tasks@).remove_value((id, chunks))
        &&& after.same_plan(self)
    }

    /// Begins a download of the chunks from the node.
    pub fn spawn_download(&mut self, id: NodeId, claim: ChunkRanges, now: u128) -> (res: Download)
        requires
            old(self).hashes@.contains_key(id),
        ensures
            res.id == id,
            res.ranges@ == claim@,
            old(self).spawned(*final(self), res, now),
    {
        let hash: BlobHash = *self.hashes.get(&id).unwrap();
        self.unclaimed.difference_with(claim.duplicate());
        self.current.insert(id);
        let stat = self.stats.entry(id).or_insert(PerNodeStats::default());
        stat.start = Some(now);
        self.tasks.push(Task { id, ranges: claim.duplicate() });
        assert(task_list(self.tasks@) =~= task_list(old(self).tasks@).push((id, claim@)));
        Download { id, hash, ranges: claim }
    }

    /// Update state based on task result
    pub fn handle_task_result(
        &mut self,
        id: NodeId,
        ranges: ChunkRanges,
        result: TaskResult,
        target: &Target,
        now: u128,
    )
        requires
            old(self).has_begun(id),
            old(self).stats@[id].time + elapsed(old(self).stats@[id].start->0, now) <= MAX_NANOS,
            result == TaskResult::Failed ==> old(self).stats@[id].errors < u64::MAX,
        ensures
            old(self).settled(*final(self), id, ranges@, result, target.missing@, now),
            forall|other: NodeId| #[trigger]
                final(self).current@.contains(other) <==> old(self).current@.contains(other) && other != id,
            final(self).stats@[id].time - old(self).stats@[id].time == if now > old(self).stats@[id].start->0 {
                now - old(self).stats@[id].start->0
            } else {
                0
            },
            final(self).stats@[id].errors - old(self).stats@[id].errors == if result is Failed {
                1int
            } else {
                0
            },
            final(self).stats@[id].latency == old(self).stats@[id].latency,
            final(self).stats@[id].start == old(self).stats@[id].start,
            forall|c: u64| #[trigger]
                final(self).stats@[id].ranges@.contains(c) <==> old(self).stats@[id].ranges@.contains(c) || (
                ranges@.contains(c) && (result is Done || !target.missing@.contains(c))),
            forall|c: u64| #[trigger]
                final(self).unclaimed@.contains(c) <==> old(self).unclaimed@.contains(c) || (result !is Done
                    && ranges@.contains(c) && target.missing@.contains(c)),
            forall|other: NodeId| #[trigger]
                old(self).stats@.contains_key(other) && other != id ==> final(self).stats@[other] == old(
                    self,
                ).stats@[other],
    {
        remove_task(&mut self.tasks, id, &ranges);
        self.current.remove(&id);
        let stat = self.stats.entry(id).or_insert(PerNodeStats::default());
        let mut received = ranges.duplicate();
        if result != TaskResult::Done {
            // only what has arrived was downloaded from this node
            received.difference_with(target.missing.duplicate());
        }
        stat.ranges.union_with(received);
        if let Some(start) = stat.start {
            if now > start {
                stat.time = stat.time + (now - start);
            }
        }
        match result {
            TaskResult::Done => {},
            TaskResult::Failed => {
                // only increase error count if there was an actual error.
                // when we kill the task that is not the fault of the remote node.
                stat.errors = stat.errors + 1;
                // add back unclaimed ranges since the download failed
                self.unclaimed.union_with(ranges.intersection(target.missing.duplicate()));
            },
            TaskResult::Killed => {
                self.unclaimed.union_with(ranges.intersection(target.missing.duplicate()));
            },
        }
    }

    /// Whether there are chunks to claim.
    pub open spec fn can_claim(self) -> bool {
        self.block_size > 0 && self.unclaimed@ != Set::<u64>::empty()
    }

    /// Whether the worst busy node is to be given up for the best free one.
    pub open spec fn gives_up(self, rates: Map<NodeId, u64>) -> bool {
        let worst = first_of(self.busy_nodes(rates), true).0;
        let best = first_of(self.free_nodes(rates), false).0;
        !worst.better(best) && much_worse(worst.rate, best.rate)
    }

    /// What is done next, and the state after it: while there are chunks to claim, the best
    /// free node downloads the first of them; after that, the worst busy node is killed
    /// where it is to be given up.
    pub open spec fn next(
        self,
        after: Downloader,
        rates: Map<NodeId, u64>,
        now: u128,
        res: Result<Action, NoFreeNodes>,
    ) -> bool {
        let free = self.free_nodes(rates);
        let busy = self.busy_nodes(rates);
        if self.can_claim() {
            if free == Set::<Ranked>::empty() {
                res is Err && after == self
            } else {
                &&& res matches Ok(Action::Spawn(download))
                &&& is_first(first_of(free, false), free, false)
                &&& download.id == first_of(free, false).1
                &&& is_claim(download.ranges@, self.unclaimed@, self.block_size)
                &&& download.ranges@ != Set::<u64>::empty()
                &&& self.spawned(after, download, now)
            }
        } else if busy == Set::<Ranked>::empty() {
            res matches Ok(Action::Wait) && after == self
        } else if free == Set::<Ranked>::empty() {
            res is Err && after == self
        } else {
            &&& is_first(first_of(busy, true), busy, true)
            &&& is_first(first_of(free, false), free, false)
            &&& if self.gives_up(rates) {
                &&& res matches Ok(Action::Kill(id))
                &&& id == first_of(busy, true).1
                &&& after.current@ == self.current@.remove(id)
                &&& after == (Downloader { current: after.current, ..self })
            } else {
                res matches Ok(Action::Wait) && after == self
            }
        }
    }

    /// Claim a chunk and spawn a task.
    ///
    /// If there are no chunks to be claimed, this will see if there is a busy
    /// task that is not performing well and kill it.
    ///
    /// The latter will only happen as the download nears the end, so it is called
    /// finish mode.
    pub fn claim_and_spawn(&mut self, rates: &HashMap<NodeId, u64>, now: u128) -> (res: Result<Action, NoFreeNodes>)
        requires
            old(self).knows_hashes(),
        ensures
            old(self).next(*final(self), rates@, now, res),
            res matches Ok(Action::Spawn(download)) ==> {
                &&& old(self).stats@.contains_key(download.id)
                &&& !old(self).current@.contains(download.id)
                &&& forall|id: NodeId| #[trigger]
                    old(self).stats@.contains_key(id) && !old(self).current@.contains(id) && id != download.id
                        ==> preferred(*old(self), rates@, download.id, id)
                &&& download.ranges@.len() == if old(self).block_size < old(self).unclaimed@.len() {
                    old(self).block_size as nat
                } else {
                    old(self).unclaimed@.len()
                }
            },
            ({
                let chunk = old(self).block_size > 0 && exists|c: u64| old(self).unclaimed@.contains(c);
                let free = exists|id: NodeId| #[trigger]
                    old(self).stats@.contains_key(id) && !old(self).current@.contains(id);
                let busy = exists|id: NodeId| #[trigger]
                    old(self).stats@.contains_key(id) && old(self).current@.contains(id);
                &&& res is Err <==> !free && (chunk || busy)
                &&& (res is Ok && res->Ok_0 is Spawn) <==> chunk && free
            }),
    {
        let claim = claim(&self.unclaimed, self.block_size);
        proof {
            law_claim_empty(claim@, self.unclaimed@, self.block_size);
        }
        if !claim.is_empty() {
            // choose the best node to download from. In many cases this will be the same node
            // that we just used, but not always. E.g. if the op produced an error.
            let free = self.free_by_quality(rates, 1);
            proof {
                law_lead_first(free@, self.free_nodes(rates@), 1, false);
            }
            if free.len() == 0 {
                // this should never happen unless we started with 0 nodes.
                // even nodes with errors will be considered here!
                proof {
                    law_next_kind(*old(self), *self, rates@, now, Err(NoFreeNodes));
                }
                return Err(NoFreeNodes);
            }
            let id: NodeId = free[0].1;
            let download = self.spawn_download(id, claim, now);
            proof {
                law_next_spawn(*old(self), *self, rates@, now, download);
                law_next_kind(*old(self), *self, rates@, now, Ok(Action::Spawn(download)));
            }
            Ok(Action::Spawn(download))
        } else {
            // find the worst busy node
            let busy = self.busy_by_quality_rev(rates, 1);
            proof {
                law_lead_first(busy@, self.busy_nodes(rates@), 1, true);
            }
            if busy.len() == 0 {
                proof {
                    law_next_kind(*old(self), *self, rates@, now, Ok(Action::Wait));
                }
                return Ok(Action::Wait);
            }
            let free = self.free_by_quality(rates, 1);
            proof {
                law_lead_first(free@, self.free_nodes(rates@), 1, false);
            }
            if free.len() == 0 {
                proof {
                    law_next_kind(*old(self), *self, rates@, now, Err(NoFreeNodes));
                }
                return Err(NoFreeNodes);
            }
            let (worst_current, current_id) = busy[0];
            let best_free: Quality = free[0].0;
            if worst_current < best_free {
                // worst_current is better than best_free, so we can keep it running
                proof {
                    law_next_kind(*old(self), *self, rates@, now, Ok(Action::Wait));
                }
                return Ok(Action::Wait);
            }
            let kill: bool = match (worst_current.rate(), best_free.rate()) {
                // both have rates, kill if worst rate is much worse than best free rate
                (Some(w), Some(b)) => (w as u128) * 4 < b as u128,
                // worst current has a rate, but best free does not, so we can keep it running
                (Some(_), None) => false,
                // worst current has no rate, but best free does. kill it.
                (None, Some(_)) => true,
                // we don't know rate for any, might as well let it run
                (None, None) => false,
            };
            if kill {
                // just cancelling the current worst download is enough.
                // this will make room in claimed and respawn a new download,
                // unless the download has finished by now.
                self.current.remove(&current_id);
                proof {
                    law_next_kind(*old(self), *self, rates@, now, Ok(Action::Kill(current_id)));
                }
                return Ok(Action::Kill(current_id));
            }
            proof {
                law_next_kind(*old(self), *self, rates@, now, Ok(Action::Wait));
            }
            Ok(Action::Wait)
        }
    }

    /// All the downloads have begun, each claiming the first chunks that the ones before it
    /// left.
    pub open spec fn spawned_all(self, after: Downloader, downloads: Seq<Download>, now: u128) -> bool {
        let n = downloads.len() as int;
        &&& forall|i: int|
            0 <= i < n ==> {
                &&& (#[trigger] downloads[i]).hash == self.hashes@[downloads[i].id]
                &&& is_claim(downloads[i].ranges@, left(self.unclaimed@, downloads, i), self.block_size)
            }
        &&& after.unclaimed@ == left(self.unclaimed@, downloads, n)
        &&& forall|id: NodeId| #[trigger]
            after.current@.contains(id) <==> self.current@.contains(id) || downloads_from(downloads, id)
        &&& after.stats@.dom() == self.stats@.dom()
        &&& forall|id: NodeId| #[trigger]
            self.stats@.contains_key(id) ==> after.stats@[id] == if downloads_from(downloads, id) {
                PerNodeStats { start: Some(now), ..self.stats@[id] }
            } else {
                self.stats@[id]
            }
        &&& task_list(after.tasks@) == task_list(self.tasks@) + downloads.map_values(
            |download: Download| (download.id, download.ranges@),
        )
        &&& after.same_plan(self)
    }

    /// The first downloads have begun: one from each of the best free nodes, up to the
    /// maximum number, as long as there are chunks to claim.
    pub open spec fn started(
        self,
        after: Downloader,
        rates: Map<NodeId, u64>,
        now: u128,
        downloads: Seq<Download>,
    ) -> bool {
        let free = self.free_nodes(rates);
        let nodes = lead_of(free, self.parallelism as nat, false);
        &&& is_lead(nodes, free, self.parallelism as nat, false)
        &&& downloads.len() <= nodes.len()
        &&& forall|i: int| 0 <= i < downloads.len() ==> (#[trigger] downloads[i]).id == nodes[i].1
        &&& forall|i: int| 0 <= i < downloads.len() ==> (#[trigger] downloads[i]).ranges@ != Set::<u64>::empty()
        &&& downloads.len() < nodes.len() ==> !after.can_claim()
        &&& self.spawned_all(after, downloads, now)
    }

    /// Begins the first downloads.
    pub fn start(&mut self, rates: &HashMap<NodeId, u64>, now: u128) -> (res: Vec<Download>)
        requires
            old(self).knows_hashes(),
        ensures
            old(self).started(*final(self), rates@, now, res@),
    {
        let initial = self.free_by_quality(rates, self.parallelism);
        let ghost before = *self;
        proof {
            let nodes = lead_of(before.free_nodes(rates@), before.parallelism as nat, false);
            law_lead_unique(initial@, nodes, before.free_nodes(rates@), before.parallelism as nat, false);
        }
        let mut res: Vec<Download> = Vec::new();
        for i in 0..initial.len()
            invariant
                before == *old(self),
                initial@ == lead_of(before.free_nodes(rates@), before.parallelism as nat, false),
                is_lead(initial@, before.free_nodes(rates@), before.parallelism as nat, false),
                before.knows_hashes(),
                res@.len() == i,
                forall|k: int| 0 <= k < i ==> (#[trigger] res@[k]).id == initial@[k].1,
                forall|k: int| 0 <= k < i ==> (#[trigger] res@[k]).ranges@ != Set::<u64>::empty(),
                before.spawned_all(*self, res@, now),
        {
            let claim = claim(&self.unclaimed, self.block_size);
            proof {
                law_claim_empty(claim@, self.unclaimed@, self.block_size);
            }
            if claim.is_empty() {
                return res;
            }
            let id: NodeId = initial[i].1;
            let ghost mid = *self;
            let ghost begun_before = res@;
            proof {
                assert(before.free_nodes(rates@).contains(initial@[i as int]));
                assert(before.stats@.contains_key(id));
            }
            let download = self.spawn_download(id, claim, now);
            proof {
                lemma_spawned_more(before, mid, *self, begun_before, download, now);
            }
            res.push(download);
        }
        res
    }

    /// Ends the work: the bytes that were received, and the statistics of the nodes.
    pub fn finish(self, target: Target) -> (res: (Vec<u8>, HashMap<NodeId, PerNodeStats>))
        requires
            self.unclaimed@ == Set::<u64>::empty(),
            target.missing@ == Set::<u64>::empty(),
        ensures
            res.0@ == target.data@,
            res.1@ == self.stats@,
    {
        (target.data, self.stats)
    }

    /// Best n nodes, free or busy (for quality, lower is better)
    pub fn all_by_quality(&self, rates: &HashMap<NodeId, u64>, n: usize) -> (res: Vec<Ranked>)
        ensures
            is_lead(res@, self.nodes(rates@), n as nat, false),
            forall|i: int, j: int|
                0 <= i < j < res@.len() ==> preferred(*self, rates@, (#[trigger] res@[i]).1, (#[trigger] res@[j]).1),
            forall|i: int| 0 <= i < res@.len() ==> self.stats@.contains_key((#[trigger] res@[i]).1),
            res@.len() == if n < self.stats@.dom().len() {
                n as nat
            } else {
                self.stats@.dom().len()
            },
    {
        let nodes = self.ranked(rates, true, true);
        assert(nodes@.to_set() =~= self.nodes(rates@));
        let res = leading(&nodes, n, false);
        proof {
            law_all_by_preference(*self, rates@, res@, n as nat);
        }
        res
    }

    /// Give the first n free nodes by quality (for quality, lower is better)
    pub fn free_by_quality(&self, rates: &HashMap<NodeId, u64>, n: usize) -> (res: Vec<Ranked>)
        ensures
            is_lead(res@, self.free_nodes(rates@), n as nat, false),
            forall|i: int, j: int|
                0 <= i < j < res@.len() ==> preferred(*self, rates@, (#[trigger] res@[i]).1, (#[trigger] res@[j]).1),
            forall|i: int|
                0 <= i < res@.len() ==> self.stats@.contains_key((#[trigger] res@[i]).1) && !self.current@.contains(
                    res@[i].1,
                ),
    {
        let nodes = self.ranked(rates, true, false);
        assert(nodes@.to_set() =~= self.free_nodes(rates@));
        let res = leading(&nodes, n, false);
        proof {
            law_free_by_preference(*self, rates@, res@, n as nat);
        }
        res
    }

    /// Give the first n busy nodes by reverse quality (higher, so worse, qualities first)
    ///
    /// The worst node should come first.
    pub fn busy_by_quality_rev(&self, rates: &HashMap<NodeId, u64>, n: usize) -> (res: Vec<Ranked>)
        ensures
            is_lead(res@, self.busy_nodes(rates@), n as nat, true),
            forall|i: int, j: int|
                0 <= i < j < res@.len() ==> preferred(*self, rates@, (#[trigger] res@[j]).1, (#[trigger] res@[i]).1),
            forall|i: int|
                0 <= i < res@.len() ==> self.stats@.contains_key((#[trigger] res@[i]).1) && self.current@.contains(
                    res@[i].1,
                ),
    {
        let nodes = self.ranked(rates, false, true);
        assert(nodes@.to_set() =~= self.busy_nodes(rates@));
        let res = leading(&nodes, n, true);
        proof {
            law_busy_by_preference(*self, rates@, res@, n as nat);
        }
        res
    }

    fn ranked(&self, rates: &HashMap<NodeId, u64>, free: bool, busy: bool) -> (res: Vec<Ranked>)
        ensures
            res@.no_duplicates(),
            res@.to_set() == Set::new(
                |node: Ranked|
                    self.ranks(rates@, node) && if self.current@.contains(node.1) {
                        busy
                    } else {
                        free
                    },
            ),
    {
        let ids = ids_of(&self.stats);
        let mut res: Vec<Ranked> = Vec::new();
        for i in 0..ids.len()
            invariant
                ids@.no_duplicates(),
                ids@.to_set() == self.stats@.dom(),
                res@.no_duplicates(),
                forall|node: Ranked| #[trigger]
                    res@.contains(node) <==> ids@.take(i as int).contains(node.1) && self.ranks(rates@, node)
                        && if self.current@.contains(node.1) {
                        busy
                    } else {
                        free
                    },
        {
            let id: NodeId = ids[i];
            let ghost before = res@;
            assert(ids@.to_set().contains(id));
            assert(ids@.take(i + 1) =~= ids@.take(i as int).push(id));
            assert(!ids@.take(i as int).contains(id));
            let rate: Option<u64> = match rates.get(&id) {
                Some(rate) => Some(*rate),
                None => None,
            };
            let is_busy: bool = self.current.contains(&id);
            if (is_busy && busy) || (!is_busy && free) {
                if let Some(stat) = self.stats.get(&id) {
                    let node: Ranked = (stat.quality(rate), id);
                    assert(!before.contains(node));
                    res.push(node);
                    assert forall|other: Ranked| #[trigger] res@.contains(other) <==> before.contains(other) || other
                        == node by {
                        if before.contains(other) {
                            assert(res@[before.index_of(other)] == other);
                        }
                        assert(res@[before.len() as int] == node);
                    }
                }
            }
            assert forall|other: NodeId| #[trigger] ids@.take(i + 1).contains(other) <==> ids@.take(i as int).contains(
                other,
            ) || other == id by {
                if ids@.take(i as int).contains(other) {
                    assert(ids@.take(i + 1)[ids@.take(i as int).index_of(other)] == other);
                }
                assert(ids@.take(i + 1)[i as int] == id);
            }
        }
        assert(ids@.take(ids@.len() as int) =~= ids@);
        proof {
            let wanted = Set::new(
                |node: Ranked|
                    self.ranks(rates@, node) && if self.current@.contains(node.1) {
                        busy
                    } else {
                        free
                    },
            );
            assert forall|node: Ranked| res@.to_set().contains(node) == wanted.contains(node) by {
                assert(res@.contains(node) <==> ids@.to_set().contains(node.1) && wanted.contains(node));
            }
            assert(res@.to_set() =~= wanted);
        }
        res
    }
}

/// What the answers of the nodes settle: the state before the first download, with the target
/// to fill, or why there is nothing to download.
pub open spec fn prepared(
    hashes: Map<NodeId, BlobHash>,
    replies: Seq<Reply>,
    config: Config,
    res: Result<(Downloader, Target), SyncError>,
) -> bool {
    match res {
        Ok((downloader, target)) => {
            let size = sizes_given(replies)[0];
            &&& size_settled(sizes_given(replies), Ok(size))
            &&& size <= usize::MAX
            &&& exists|i: int| 0 <= i < replies.len() && (#[trigger] replies[i]).1 is Some
            &&& forall|i: int|
                0 <= i < replies.len() && (#[trigger] replies[i]).1 is Some ==> target.data@.len() == (
                replies[i].1->0).1
            &&& downloader.fresh(
                target,
                hashes,
                size as int,
                latencies_given(replies),
                config.block_size,
                config.parallelism,
            )
            &&& (forall|i: int| 0 <= i < replies.len() ==> hashes.contains_key((#[trigger] replies[i]).0))
                ==> downloader.wf()
            &&& downloader.covers(target.missing@)
            &&& downloader.claims_missing(target.missing@)
            &&& downloader.stats@.dom() != Set::<NodeId>::empty()
        },
        Err(SyncError::SizeTooLarge { size }) => {
            &&& size_settled(sizes_given(replies), Ok(size))
            &&& size > usize::MAX
        },
        Err(e) => size_settled(sizes_given(replies), Err(e)),
    }
}

/// Settles, from what the nodes answered, what to download and from which nodes.
pub fn prepare(hashes: HashMap<NodeId, BlobHash>, replies: &Vec<Reply>, config: &Config) -> (res: Result<
    (Downloader, Target),
    SyncError,
>)
    ensures
        prepared(hashes@, replies@, *config, res),
        res matches Ok((downloader, target)) ==> {
            &&& forall|i: int|
                0 <= i < replies@.len() && (#[trigger] replies@[i]).1 is Some ==> target.data@.len() == (
                replies@[i].1->0).1
            &&& downloader.hashes@ == hashes@
            &&& downloader.block_size == config.block_size
            &&& downloader.parallelism == config.parallelism
        },
{
    let size: u64 = match agree_on_size(replies) {
        Ok(size) => size,
        Err(e) => {
            return Err(e);
        },
    };
    let latency = latencies(replies);
    let bytes: usize = match addressable(size) {
        Ok(bytes) => bytes,
        Err(e) => {
            return Err(e);
        },
    };
    proof {
        assert(sizes_given(replies@)[0] == size);
        assert forall|id: NodeId| latency@.contains_key(id) implies exists|i: int|
            0 <= i < replies@.len() && (#[trigger] replies@[i]).0 == id by {
            law_unreachable_left_out(replies@, id);
        }
        law_some_node(replies@);
    }
    Ok(Downloader::new(hashes, bytes, &latency, config.block_size, config.parallelism))
}

/// Takes the download out of the list, if it is in it.
fn remove_task(tasks: &mut Vec<Task>, id: NodeId, ranges: &ChunkRanges)
    ensures
        task_list(final(tasks)@) == task_list(old(tasks)@).remove_value((id, ranges@)),
{
    let ghost list = task_list(tasks@);
    proof {
        list.index_of_first_ensures((id, ranges@));
    }
    let n: usize = tasks.len();
    for i in 0..n
        invariant
            n == tasks@.len(),
            *tasks == *old(tasks),
            list == task_list(tasks@),
            forall|k: int| 0 <= k < i ==> #[trigger] list[k] != (id, ranges@),
    {
        assert(list[i as int] == (tasks@[i as int].id, tasks@[i as int].ranges@));
        if tasks[i].id == id && tasks[i].ranges.same(ranges) {
            proof {
                list.index_of_first_ensures((id, ranges@));
                assert(list.contains(list[i as int]));
            }
            tasks.remove(i);
            assert(task_list(tasks@) =~= list.remove(i as int));
            return;
        }
    }
}

/// The nodes that a map knows.
fn ids_of<V>(map: &HashMap<NodeId, V>) -> (res: Vec<NodeId>)
    ensures
        res@.no_duplicates(),
        res@.to_set() == map@.dom(),
{
    let mut res: Vec<NodeId> = Vec::new();
    for id in it: map.keys()
        invariant
            it.seq().no_duplicates(),
            it.seq().unref().to_set() == map@.dom(),
            res@ == it.seq().unref().take(it.index()),
            it.index() == it.seq().len() ==> res@ == it.seq().unref(),
    {
        res.push(*id);
        assert(res@ =~= it.seq().unref().take(it.index() + 1));
        assert(it.seq().unref().take(it.seq().len() as int) =~= it.seq().unref());
    }
    res
}

proof fn lemma_left_push(unclaimed: Set<u64>, downloads: Seq<Download>, download: Download, n: int)
    requires
        n <= downloads.len(),
    ensures
        left(unclaimed, downloads.push(download), n) == left(unclaimed, downloads, n),
    decreases n,
{
    if n > 0 {
        lemma_left_push(unclaimed, downloads, download, n - 1);
        assert(downloads.push(download)[n - 1] == downloads[n - 1]);
    }
}

/// One download more after several.
proof fn lemma_spawned_more(
    before: Downloader,
    mid: Downloader,
    after: Downloader,
    downloads: Seq<Download>,
    download: Download,
    now: u128,
)
    requires
        before.spawned_all(mid, downloads, now),
        mid.spawned(after, download, now),
        is_claim(download.ranges@, mid.unclaimed@, mid.block_size),
        before.stats@.contains_key(download.id),
    ensures
        before.spawned_all(after, downloads.push(download), now),
{
    let all = downloads.push(download);
    let n = downloads.len() as int;
    let id = download.id;
    assert forall|i: int| 0 <= i < all.len() implies {
        &&& (#[trigger] all[i]).hash == before.hashes@[all[i].id]
        &&& is_claim(all[i].ranges@, left(before.unclaimed@, all, i), before.block_size)
    } by {
        lemma_left_push(before.unclaimed@, downloads, download, i);
        if i < n {
            assert(all[i] == downloads[i]);
        }
    }
    lemma_left_push(before.unclaimed@, downloads, download, n);
    assert(all[n] == download);
    assert(after.unclaimed@ =~= left(before.unclaimed@, all, n + 1));
    assert forall|other: NodeId| downloads_from(all, other) <==> downloads_from(downloads, other) || other == id by {
        if downloads_from(downloads, other) {
            let i = choose|i: int| 0 <= i < downloads.len() && (#[trigger] downloads[i]).id == other;
            assert(all[i].id == other);
        }
        if downloads_from(all, other) {
            let i = choose|i: int| 0 <= i < all.len() && (#[trigger] all[i]).id == other;
            if i < n {
                assert(downloads[i].id == other);
            }
        }
    }
    assert(mid.stats@.dom().contains(id));
    assert(after.stats@.dom() =~= before.stats@.dom());
    assert(task_list(after.tasks@) =~= task_list(before.tasks@) + all.map_values(
        |d: Download| (d.id, d.ranges@),
    ));
}

/// The list after a download has begun: those before it, and then this one.
pub proof fn lemma_spawned_tasks(before: Downloader, after: Downloader, download: Download, now: u128)
    requires
        before.spawned(after, download, now),
    ensures
        after.tasks@.len() == before.tasks@.len() + 1,
        forall|i: int|
            0 <= i < before.tasks@.len() ==> (#[trigger] after.tasks@[i]).id == before.tasks@[i].id
                && after.tasks@[i].ranges@ == before.tasks@[i].ranges@,
        after.tasks@[before.tasks@.len() as int].id == download.id,
        after.tasks@[before.tasks@.len() as int].ranges@ == download.ranges@,
{
    let old_list = task_list(before.tasks@);
    let list = task_list(after.tasks@);
    assert(list.len() == old_list.len() + 1);
    let n = before.tasks@.len() as int;
    assert(list[n] == (after.tasks@[n].id, after.tasks@[n].ranges@));
    assert forall|i: int| 0 <= i < n implies (#[trigger] after.tasks@[i]).id == before.tasks@[i].id
        && after.tasks@[i].ranges@ == before.tasks@[i].ranges@ by {
        assert(list[i] == (after.tasks@[i].id, after.tasks@[i].ranges@));
        assert(old_list[i] == (before.tasks@[i].id, before.tasks@[i].ranges@));
    }
}

/// Beginning a download of unclaimed chunks keeps the state well-formed, leaves no missing
/// chunk out, and leaves only missing chunks to claim.
pub proof fn law_spawn_keeps(
    before: Downloader,
    after: Downloader,
    download: Download,
    now: u128,
    missing: Set<u64>,
)
    requires
        before.wf(),
        before.hashes@.contains_key(download.id),
        before.spawned(after, download, now),
        download.ranges@.subset_of(before.unclaimed@),
    ensures
        after.wf(),
        after.tasks@.len() == before.tasks@.len() + 1,
        before.sized() && 1 <= download.ranges@.len() <= before.block_size ==> after.sized(),
        before.covers(missing) ==> after.covers(missing),
        before.claims_missing(missing) ==> after.claims_missing(missing),
{
    lemma_spawned_tasks(before, after, download, now);
    let n = before.tasks@.len() as int;
    if before.covers(missing) {
        assert forall|c: u64| #[trigger] missing.contains(c) implies after.unclaimed@.contains(c) || exists|i: int|
            0 <= i < after.tasks@.len() && (#[trigger] after.tasks@[i]).ranges@.contains(c) by {
            if before.unclaimed@.contains(c) {
                if download.ranges@.contains(c) {
                    assert(after.tasks@[n].ranges@.contains(c));
                }
            } else {
                let i = choose|i: int| 0 <= i < n && (#[trigger] before.tasks@[i]).ranges@.contains(c);
                assert(after.tasks@[i].ranges@.contains(c));
            }
        }
    }
}

/// After several downloads no more is left to claim than after the first few of them, and
/// all that is no longer left is in one of the downloads.
pub proof fn lemma_left(unclaimed: Set<u64>, downloads: Seq<Download>, i: int, n: int)
    requires
        0 <= i <= n <= downloads.len(),
    ensures
        left(unclaimed, downloads, n).subset_of(left(unclaimed, downloads, i)),
        forall|c: u64| #[trigger]
            left(unclaimed, downloads, i).contains(c) ==> left(unclaimed, downloads, n).contains(c) || exists|k: int|
                i <= k < n && (#[trigger] downloads[k]).ranges@.contains(c),
    decreases n - i,
{
    if i < n {
        lemma_left(unclaimed, downloads, i, n - 1);
        assert forall|c: u64| #[trigger] left(unclaimed, downloads, i).contains(c) implies left(
            unclaimed,
            downloads,
            n,
        ).contains(c) || exists|k: int| i <= k < n && (#[trigger] downloads[k]).ranges@.contains(c) by {
            if left(unclaimed, downloads, n - 1).contains(c) {
                assert(downloads[n - 1].ranges@.contains(c) || left(unclaimed, downloads, n).contains(c));
            }
        }
    }
}

/// The list after several downloads have begun: those before them, and then these.
pub proof fn lemma_started_tasks(before: Downloader, after: Downloader, downloads: Seq<Download>, now: u128)
    requires
        before.spawned_all(after, downloads, now),
    ensures
        after.tasks@.len() == before.tasks@.len() + downloads.len(),
        forall|i: int|
            0 <= i < before.tasks@.len() ==> (#[trigger] after.tasks@[i]).id == before.tasks@[i].id
                && after.tasks@[i].ranges@ == before.tasks@[i].ranges@,
        forall|i: int|
            before.tasks@.len() <= i < after.tasks@.len() ==> (#[trigger] after.tasks@[i]).id == downloads[i
                - before.tasks@.len()].id && after.tasks@[i].ranges@ == downloads[i - before.tasks@.len()].ranges@,
        forall|k: int|
            0 <= k < downloads.len() ==> (#[trigger] downloads[k]).ranges@.subset_of(before.unclaimed@),
{
    let n = before.tasks@.len() as int;
    let more = downloads.len() as int;
    let old_list = task_list(before.tasks@);
    let list = task_list(after.tasks@);
    assert(list.len() == n + more);
    assert forall|i: int| 0 <= i < n implies (#[trigger] after.tasks@[i]).id == before.tasks@[i].id
        && after.tasks@[i].ranges@ == before.tasks@[i].ranges@ by {
        assert(list[i] == (after.tasks@[i].id, after.tasks@[i].ranges@));
        assert(old_list[i] == (before.tasks@[i].id, before.tasks@[i].ranges@));
    }
    assert forall|i: int| n <= i < n + more implies (#[trigger] after.tasks@[i]).id == downloads[i - n].id
        && after.tasks@[i].ranges@ == downloads[i - n].ranges@ by {
        assert(list[i] == (after.tasks@[i].id, after.tasks@[i].ranges@));
        assert(list[i] == (downloads[i - n].id, downloads[i - n].ranges@));
    }
    assert forall|k: int| 0 <= k < more implies (#[trigger] downloads[k]).ranges@.subset_of(before.unclaimed@) by {
        lemma_left(before.unclaimed@, downloads, 0, k);
    }
}

/// Beginning the first downloads keeps the state well-formed, leaves no missing chunk out,
/// leaves only missing chunks to claim, counts nothing as downloaded, and begins no more
/// downloads than allowed, at most one from each node, each of a block at most. With a free
/// node to begin with, all is on track.
pub proof fn law_start_keeps(
    before: Downloader,
    after: Downloader,
    rates: Map<NodeId, u64>,
    now: u128,
    downloads: Seq<Download>,
    missing: Set<u64>,
)
    requires
        before.wf(),
        before.started(after, rates, now, downloads),
    ensures
        after.wf(),
        after.stats@.dom() == before.stats@.dom(),
        after.tasks@.len() <= before.tasks@.len() + before.parallelism,
        after.tasks@.len() <= before.tasks@.len() + before.stats@.dom().len(),
        before.sized() ==> after.sized(),
        before.covers(missing) ==> after.covers(missing),
        before.claims_missing(missing) ==> after.claims_missing(missing),
        before.counts_received(missing) ==> after.counts_received(missing),
        before.block_size > 0 && before.parallelism > 0 && before.free_nodes(rates) != Set::<Ranked>::empty()
            && before.covers(missing) && before.claims_missing(missing) ==> after.on_track(missing),
{
    let free = before.free_nodes(rates);
    let nodes = lead_of(free, before.parallelism as nat, false);
    let n = before.tasks@.len() as int;
    let more = downloads.len() as int;
    lemma_started_tasks(before, after, downloads, now);
    assert forall|k: int| 0 <= k < more implies {
        &&& (#[trigger] downloads[k]).ranges@.subset_of(before.unclaimed@)
        &&& downloads[k].ranges@.subset_of(left(before.unclaimed@, downloads, k))
        &&& after.has_begun(downloads[k].id)
    } by {
        lemma_left(before.unclaimed@, downloads, 0, k);
        assert(free.contains(nodes[k]));
        assert(before.stats@.contains_key(downloads[k].id));
        assert(after.stats@.dom().contains(downloads[k].id));
        assert(downloads_from(downloads, downloads[k].id));
    }
    assert forall|id: NodeId| #[trigger] after.stats@.contains_key(id) implies after.hashes@.contains_key(id) by {
        assert(before.stats@.dom().contains(id));
    }
    assert forall|i: int| 0 <= i < after.tasks@.len() implies after.has_begun((#[trigger] after.tasks@[i]).id) by {
        if i < n {
            assert(before.has_begun(before.tasks@[i].id));
            assert(after.stats@.dom().contains(before.tasks@[i].id));
        } else {
            assert(after.has_begun(downloads[i - n].id));
        }
    }
    lemma_left(before.unclaimed@, downloads, 0, more);
    assert forall|i: int| 0 <= i < after.tasks@.len() implies after.unclaimed@.disjoint(
        (#[trigger] after.tasks@[i]).ranges@,
    ) by {
        if i < n {
            assert(before.unclaimed@.disjoint(before.tasks@[i].ranges@));
        } else {
            lemma_left(before.unclaimed@, downloads, i - n + 1, more);
        }
    }
    assert forall|i: int, j: int| 0 <= i < j < after.tasks@.len() implies (#[trigger] after.tasks@[i]).ranges@.disjoint(
        (#[trigger] after.tasks@[j]).ranges@,
    ) by {
        if j < n {
            assert(before.tasks@[i].ranges@.disjoint(before.tasks@[j].ranges@));
        } else if i < n {
            assert(before.unclaimed@.disjoint(before.tasks@[i].ranges@));
            assert(downloads[j - n].ranges@.subset_of(before.unclaimed@));
        } else {
            lemma_left(before.unclaimed@, downloads, i - n + 1, j - n);
            assert(downloads[j - n].ranges@.subset_of(left(before.unclaimed@, downloads, j - n)));
        }
    }
    if before.covers(missing) {
        assert forall|c: u64| #[trigger] missing.contains(c) implies after.unclaimed@.contains(c) || exists|i: int|
            0 <= i < after.tasks@.len() && (#[trigger] after.tasks@[i]).ranges@.contains(c) by {
            if before.unclaimed@.contains(c) {
                assert(left(before.unclaimed@, downloads, 0).contains(c));
                if !after.unclaimed@.contains(c) {
                    let k = choose|k: int| 0 <= k < more && (#[trigger] downloads[k]).ranges@.contains(c);
                    assert(after.tasks@[n + k].ranges@.contains(c));
                }
            } else {
                let i = choose|i: int| 0 <= i < n && (#[trigger] before.tasks@[i]).ranges@.contains(c);
                assert(after.tasks@[i].ranges@.contains(c));
            }
        }
    }
    if before.parallelism > 0 && free != Set::<Ranked>::empty() {
        law_lead_first(nodes, free, before.parallelism as nat, false);
    }
    lemma_node_count(before, rates);
    vstd::set_lib::lemma_len_subset(free, before.nodes(rates));
    if before.sized() {
        assert forall|i: int| 0 <= i < after.tasks@.len() implies 1 <= (#[trigger] after.tasks@[i]).ranges@.len()
            <= after.block_size by {
            if i < n {
                assert(1 <= before.tasks@[i].ranges@.len() <= before.block_size);
            } else {
                lemma_chunks_finite(downloads[i - n].ranges@);
                if downloads[i - n].ranges@.len() == 0 {
                    downloads[i - n].ranges@.lemma_len0_is_empty();
                }
            }
        }
    }
    if before.counts_received(missing) {
        assert forall|id: NodeId| #[trigger] after.stats@.contains_key(id) implies after.stats@[id].ranges@.disjoint(
            missing,
        ) by {
            assert(before.stats@.dom().contains(id));
            assert(before.stats@.contains_key(id));
        }
    }
}

/// Each node is ranked once.
proof fn lemma_node_count(state: Downloader, rates: Map<NodeId, u64>)
    ensures
        state.nodes(rates).finite(),
        state.nodes(rates).len() == state.stats@.dom().len(),
{
    let dom = state.stats@.dom();
    let nodes = state.nodes(rates);
    let rank = |id: NodeId| -> Ranked { (state.stats@[id].quality_at(rate_of(rates, id)), id) };
    lemma_chunks_finite(dom);
    assert forall|node: Ranked| nodes.contains(node) == dom.map(rank).contains(node) by {
        if nodes.contains(node) {
            assert(dom.contains(node.1) && rank(node.1) == node);
        }
    }
    assert(nodes =~= dom.map(rank));
    assert(vstd::relations::injective_on(rank, dom));
    vstd::set_lib::lemma_map_size(dom, nodes, rank);
}

/// While there is nothing to claim, no first download begins, so no node is asked for no
/// chunk at all.
pub proof fn law_start_nothing(
    before: Downloader,
    after: Downloader,
    rates: Map<NodeId, u64>,
    now: u128,
    downloads: Seq<Download>,
)
    requires
        before.started(after, rates, now, downloads),
        !before.can_claim(),
    ensures
        downloads.len() == 0,
        after.current@ == before.current@,
        after.stats@ == before.stats@,
        task_list(after.tasks@) == task_list(before.tasks@),
{
    if downloads.len() > 0 {
        assert(left(before.unclaimed@, downloads, 0) == before.unclaimed@);
        law_claim_empty(downloads[0].ranges@, before.unclaimed@, before.block_size);
    }
    assert(after.current@ =~= before.current@);
    assert forall|id: NodeId| #[trigger] before.stats@.contains_key(id) implies after.stats@[id] == before.stats@[id] by {
        assert(!downloads_from(downloads, id));
    }
    assert(after.stats@ =~= before.stats@);
    assert(task_list(after.tasks@) =~= task_list(before.tasks@));
}

/// Which download has left the list, and where the others have gone.
pub proof fn lemma_settled_tasks(
    before: Downloader,
    after: Downloader,
    id: NodeId,
    chunks: Set<u64>,
    result: TaskResult,
    missing: Set<u64>,
    now: u128,
) -> (at: int)
    requires
        before.is_running(id, chunks),
        before.settled(after, id, chunks, result, missing, now),
    ensures
        0 <= at < before.tasks@.len(),
        before.tasks@[at].id == id,
        before.tasks@[at].ranges@ == chunks,
        after.tasks@.len() == before.tasks@.len() - 1,
        forall|i: int|
            0 <= i < after.tasks@.len() ==> {
                let k = if i < at {
                    i
                } else {
                    i + 1
                };
                (#[trigger] after.tasks@[i]).id == before.tasks@[k].id && after.tasks@[i].ranges@
                    == before.tasks@[k].ranges@
            },
{
    let old_list = task_list(before.tasks@);
    let list = task_list(after.tasks@);
    old_list.index_of_first_ensures((id, chunks));
    let at = old_list.index_of_first((id, chunks))->0;
    assert(list == old_list.remove(at));
    let n = after.tasks@.len() as int;
    assert(list.len() == n);
    assert(before.tasks@[at].id == id && before.tasks@[at].ranges@ == chunks) by {
        assert(old_list[at] == (before.tasks@[at].id, before.tasks@[at].ranges@));
    }
    assert forall|i: int| 0 <= i < n implies {
        let k = if i < at {
            i
        } else {
            i + 1
        };
        (#[trigger] after.tasks@[i]).id == before.tasks@[k].id && after.tasks@[i].ranges@ == before.tasks@[k].ranges@
    } by {
        let k = if i < at {
            i
        } else {
            i + 1
        };
        assert(list[i] == (after.tasks@[i].id, after.tasks@[i].ranges@));
        assert(old_list[k] == (before.tasks@[k].id, before.tasks@[k].ranges@));
    }
    at
}

/// The end of a running download keeps the state well-formed and leaves only missing chunks
/// to claim. It leaves no missing chunk out, and counts no missing chunk as downloaded, as
/// long as a download that is done brought all its chunks.
pub proof fn law_result_keeps(
    before: Downloader,
    after: Downloader,
    id: NodeId,
    chunks: Set<u64>,
    result: TaskResult,
    missing: Set<u64>,
    now: u128,
)
    requires
        before.wf(),
        before.is_running(id, chunks),
        before.settled(after, id, chunks, result, missing, now),
    ensures
        after.wf(),
        after.stats@.dom() == before.stats@.dom(),
        after.tasks@.len() == before.tasks@.len() - 1,
        before.sized() ==> after.sized(),
        before.claims_missing(missing) ==> after.claims_missing(missing),
        before.counts_received(missing) && (result == TaskResult::Done ==> chunks.disjoint(missing))
            ==> after.counts_received(missing),
        before.covers(missing) && (result == TaskResult::Done ==> chunks.disjoint(missing)) ==> after.covers(missing),
{
    let at = lemma_settled_tasks(before, after, id, chunks, result, missing, now);
    let n = after.tasks@.len() as int;
    assert(before.has_begun(before.tasks@[at].id));
    assert(after.stats@.dom() =~= before.stats@.dom());
    if before.sized() {
        assert forall|i: int| 0 <= i < n implies 1 <= (#[trigger] after.tasks@[i]).ranges@.len()
            <= after.block_size by {
            let k = if i < at {
                i
            } else {
                i + 1
            };
            assert(1 <= before.tasks@[k].ranges@.len() <= before.block_size);
        }
    }
    if before.counts_received(missing) && (result == TaskResult::Done ==> chunks.disjoint(missing)) {
        assert forall|other: NodeId| #[trigger]
            after.stats@.contains_key(other) implies after.stats@[other].ranges@.disjoint(missing) by {
            assert(before.stats@.contains_key(other));
        }
    }
    assert forall|i: int| 0 <= i < n implies after.unclaimed@.disjoint((#[trigger] after.tasks@[i]).ranges@) by {
        let k = if i < at {
            i
        } else {
            i + 1
        };
        assert(before.unclaimed@.disjoint(before.tasks@[k].ranges@));
        assert(k < at ==> before.tasks@[k].ranges@.disjoint(before.tasks@[at].ranges@));
        assert(at < k ==> before.tasks@[at].ranges@.disjoint(before.tasks@[k].ranges@));
    }
    if before.covers(missing) && (result == TaskResult::Done ==> chunks.disjoint(missing)) {
        assert forall|c: u64| #[trigger] missing.contains(c) implies after.unclaimed@.contains(c) || exists|i: int|
            0 <= i < after.tasks@.len() && (#[trigger] after.tasks@[i]).ranges@.contains(c) by {
            if !before.unclaimed@.contains(c) {
                let k = choose|k: int|
                    0 <= k < before.tasks@.len() && (#[trigger] before.tasks@[k]).ranges@.contains(c);
                if k < at {
                    assert(after.tasks@[k].ranges@.contains(c));
                } else if k > at {
                    assert(after.tasks@[k - 1].ranges@.contains(c));
                }
            }
        }
    }
}

/// A download that is not done and has brought nothing changes nothing of what counts as
/// downloaded from its node.
pub proof fn law_nothing_brought(
    before: Downloader,
    after: Downloader,
    id: NodeId,
    chunks: Set<u64>,
    result: TaskResult,
    missing: Set<u64>,
    now: u128,
)
    requires
        before.settled(after, id, chunks, result, missing, now),
        result != TaskResult::Done,
        chunks.subset_of(missing),
    ensures
        after.stats@[id].ranges@ == before.stats@[id].ranges@,
        after.stats@[id].chunk_count() == before.stats@[id].chunk_count(),
{
    assert(after.stats@[id].ranges@ =~= before.stats@[id].ranges@);
}

/// What is done next keeps the state well-formed, leaves no missing chunk out, leaves only
/// missing chunks to claim, counts nothing as downloaded, and begins one download at most, of
/// a block at most.
pub proof fn law_next_keeps(
    before: Downloader,
    after: Downloader,
    rates: Map<NodeId, u64>,
    now: u128,
    res: Result<Action, NoFreeNodes>,
    missing: Set<u64>,
)
    requires
        before.wf(),
        before.next(after, rates, now, res),
    ensures
        after.wf(),
        after.stats@.dom() == before.stats@.dom(),
        after.tasks@.len() <= before.tasks@.len() + 1,
        before.sized() ==> after.sized(),
        before.covers(missing) ==> after.covers(missing),
        before.claims_missing(missing) ==> after.claims_missing(missing),
        before.counts_received(missing) ==> after.counts_received(missing),
{
    if let Ok(Action::Spawn(download)) = res {
        let best = first_of(before.free_nodes(rates), false);
        assert(before.free_nodes(rates).contains(best));
        assert(before.stats@.contains_key(download.id));
        law_spawn_keeps(before, after, download, now, missing);
        assert(after.stats@.dom() =~= before.stats@.dom());
        if before.counts_received(missing) {
            assert forall|id: NodeId| #[trigger] after.stats@.contains_key(id) implies after.stats@[id].ranges@.disjoint(
                missing,
            ) by {
                assert(before.stats@.contains_key(id));
            }
        }
        lemma_chunks_finite(download.ranges@);
        if download.ranges@.len() == 0 {
            download.ranges@.lemma_len0_is_empty();
        }
    }
}

/// When a download has ended, its node is free, so what is done next never lacks a free node.
pub proof fn law_step_succeeds(
    before: Downloader,
    mid: Downloader,
    after: Downloader,
    id: NodeId,
    chunks: Set<u64>,
    result: TaskResult,
    missing: Set<u64>,
    ended_at: u128,
    rates: Map<NodeId, u64>,
    now: u128,
    res: Result<Action, NoFreeNodes>,
)
    requires
        before.settled(mid, id, chunks, result, missing, ended_at),
        mid.next(after, rates, now, res),
    ensures
        res is Ok,
{
    assert(mid.stats@.contains_key(id));
    assert(mid.free_nodes(rates).contains((mid.stats@[id].quality_at(rate_of(rates, id)), id)));
}

/// When a download has ended, and what is done next is done, all is still on track: its
/// node is free, so there is a node to download from; there are no more downloads than
/// before, and each is of a block at most; only what has arrived counts as downloaded; the
/// nodes are the same; and while there is something to claim, some download is running.
pub proof fn law_step_on_track(
    before: Downloader,
    mid: Downloader,
    after: Downloader,
    id: NodeId,
    chunks: Set<u64>,
    result: TaskResult,
    missing: Set<u64>,
    ended_at: u128,
    rates: Map<NodeId, u64>,
    now: u128,
    res: Result<Action, NoFreeNodes>,
)
    requires
        before.on_track(missing),
        before.block_size > 0,
        before.is_running(id, chunks),
        result == TaskResult::Done ==> chunks.disjoint(missing),
        before.settled(mid, id, chunks, result, missing, ended_at),
        mid.next(after, rates, now, res),
    ensures
        res is Ok,
        after.on_track(missing),
        after.tasks@.len() <= before.tasks@.len(),
        before.sized() ==> after.sized(),
        before.counts_received(missing) ==> after.counts_received(missing),
        after.stats@.dom() == before.stats@.dom(),
{
    law_result_keeps(before, mid, id, chunks, result, missing, ended_at);
    law_next_keeps(mid, after, rates, now, res, missing);
    law_step_succeeds(before, mid, after, id, chunks, result, missing, ended_at, rates, now, res);
    if let Ok(Action::Spawn(download)) = res {
        assert(task_list(after.tasks@).len() == task_list(mid.tasks@).len() + 1);
    }
}

/// Beginning the first downloads leaves every chunk counted once at most.
pub proof fn law_start_tallies(
    before: Downloader,
    after: Downloader,
    rates: Map<NodeId, u64>,
    now: u128,
    downloads: Seq<Download>,
    missing: Set<u64>,
    all: Set<u64>,
)
    requires
        before.started(after, rates, now, downloads),
        before.claims_missing(missing),
        before.counts_received(missing),
        missing.subset_of(all),
        before.tallies(missing, all),
    ensures
        after.tallies(missing, all),
{
    lemma_started_tasks(before, after, downloads, now);
    let n = before.tasks@.len() as int;
    assert forall|id: NodeId| #[trigger] after.stats@.contains_key(id) implies before.stats@.contains_key(id)
        && after.stats@[id].ranges@ == before.stats@[id].ranges@ by {
        assert(before.stats@.dom().contains(id));
        assert(before.stats@.contains_key(id));
    }
    assert forall|i: int| 0 <= i < after.tasks@.len() implies (#[trigger] after.tasks@[i]).ranges@.subset_of(all) by {
        if i < n {
            assert(before.tasks@[i].ranges@.subset_of(all));
        } else {
            assert(downloads[i - n].ranges@.subset_of(before.unclaimed@));
        }
    }
    assert forall|id: NodeId, i: int|
        #![trigger after.stats@.contains_key(id), after.tasks@[i]]
        after.stats@.contains_key(id) && 0 <= i < after.tasks@.len() implies after.stats@[id].ranges@.disjoint(
        after.tasks@[i].ranges@,
    ) by {
        assert(before.stats@.contains_key(id));
        if i < n {
            assert(before.stats@[id].ranges@.disjoint(before.tasks@[i].ranges@));
        } else {
            assert(downloads[i - n].ranges@.subset_of(before.unclaimed@));
        }
    }
    assert forall|c: u64| #[trigger] all.contains(c) && !missing.contains(c) implies after.counted(c) || after.assigned(
        c,
    ) by {
        if before.counted(c) {
            let id = choose|id: NodeId| #[trigger]
                before.stats@.contains_key(id) && before.stats@[id].ranges@.contains(c);
            assert(after.stats@.dom().contains(id));
            assert(after.stats@.contains_key(id));
        } else {
            let i = choose|i: int| 0 <= i < n && (#[trigger] before.tasks@[i]).ranges@.contains(c);
            assert(after.tasks@[i].ranges@.contains(c));
        }
    }
}

/// The end of a running download leaves every chunk counted once at most: what it has brought
/// counts for its node.
pub proof fn law_result_tallies(
    before: Downloader,
    after: Downloader,
    id: NodeId,
    chunks: Set<u64>,
    result: TaskResult,
    missing: Set<u64>,
    now: u128,
    all: Set<u64>,
)
    requires
        before.wf(),
        before.is_running(id, chunks),
        before.settled(after, id, chunks, result, missing, now),
        before.tallies(missing, all),
    ensures
        after.tallies(missing, all),
{
    let at = lemma_settled_tasks(before, after, id, chunks, result, missing, now);
    let n = after.tasks@.len() as int;
    assert(before.has_begun(before.tasks@[at].id));
    assert forall|other: NodeId| #[trigger] after.stats@.contains_key(other) implies before.stats@.contains_key(other)
        && (other != id ==> after.stats@[other] == before.stats@[other]) by {}
    assert(before.tasks@[at].ranges@.subset_of(all));
    assert forall|a: NodeId, b: NodeId|
        #![trigger after.stats@.contains_key(a), after.stats@.contains_key(b)]
        after.stats@.contains_key(a) && after.stats@.contains_key(b) && a != b implies after.stats@[a].ranges@.disjoint(
        after.stats@[b].ranges@,
    ) by {
        assert(before.stats@.contains_key(a) && before.stats@.contains_key(b));
        assert(before.stats@[a].ranges@.disjoint(before.stats@[b].ranges@));
        assert(before.stats@[a].ranges@.disjoint(before.tasks@[at].ranges@));
        assert(before.stats@[b].ranges@.disjoint(before.tasks@[at].ranges@));
    }
    assert forall|other: NodeId, i: int|
        #![trigger after.stats@.contains_key(other), after.tasks@[i]]
        after.stats@.contains_key(other) && 0 <= i < n implies after.stats@[other].ranges@.disjoint(
        after.tasks@[i].ranges@,
    ) by {
        let k = if i < at {
            i
        } else {
            i + 1
        };
        assert(before.stats@.contains_key(other));
        assert(before.stats@[other].ranges@.disjoint(before.tasks@[k].ranges@));
        assert(k < at ==> before.tasks@[k].ranges@.disjoint(before.tasks@[at].ranges@));
        assert(at < k ==> before.tasks@[at].ranges@.disjoint(before.tasks@[k].ranges@));
    }
    assert forall|i: int| 0 <= i < n implies (#[trigger] after.tasks@[i]).ranges@.subset_of(all) by {
        let k = if i < at {
            i
        } else {
            i + 1
        };
        assert(before.tasks@[k].ranges@.subset_of(all));
    }
    assert forall|c: u64| #[trigger] all.contains(c) && !missing.contains(c) implies after.counted(c) || after.assigned(
        c,
    ) by {
        if before.counted(c) {
            let other = choose|other: NodeId| #[trigger]
                before.stats@.contains_key(other) && before.stats@[other].ranges@.contains(c);
            assert(after.stats@.contains_key(other));
        } else {
            let k = choose|k: int| 0 <= k < before.tasks@.len() && (#[trigger] before.tasks@[k]).ranges@.contains(c);
            if k < at {
                assert(after.tasks@[k].ranges@.contains(c));
            } else if k > at {
                assert(after.tasks@[k - 1].ranges@.contains(c));
            } else {
                assert(after.stats@.contains_key(id));
                assert(brought(chunks, result, missing).contains(c));
            }
        }
    }
}

/// What is done next leaves every chunk counted once at most.
pub proof fn law_next_tallies(
    before: Downloader,
    after: Downloader,
    rates: Map<NodeId, u64>,
    now: u128,
    res: Result<Action, NoFreeNodes>,
    missing: Set<u64>,
    all: Set<u64>,
)
    requires
        before.wf(),
        before.next(after, rates, now, res),
        before.claims_missing(missing),
        before.counts_received(missing),
        missing.subset_of(all),
        before.tallies(missing, all),
    ensures
        after.tallies(missing, all),
{
    if let Ok(Action::Spawn(download)) = res {
        let best = first_of(before.free_nodes(rates), false);
        assert(before.free_nodes(rates).contains(best));
        assert(before.stats@.contains_key(download.id));
        lemma_spawned_tasks(before, after, download, now);
        let n = before.tasks@.len() as int;
        assert forall|id: NodeId| #[trigger] after.stats@.contains_key(id) implies before.stats@.contains_key(id)
            && after.stats@[id].ranges@ == before.stats@[id].ranges@ by {}
        assert forall|id: NodeId, i: int|
            #![trigger after.stats@.contains_key(id), after.tasks@[i]]
            after.stats@.contains_key(id) && 0 <= i < after.tasks@.len() implies after.stats@[id].ranges@.disjoint(
            after.tasks@[i].ranges@,
        ) by {
            assert(before.stats@.contains_key(id));
            if i < n {
                assert(before.stats@[id].ranges@.disjoint(before.tasks@[i].ranges@));
            }
        }
        assert forall|i: int| 0 <= i < after.tasks@.len() implies (#[trigger] after.tasks@[i]).ranges@.subset_of(
            all,
        ) by {
            if i < n {
                assert(before.tasks@[i].ranges@.subset_of(all));
            }
        }
        assert forall|c: u64| #[trigger] all.contains(c) && !missing.contains(c) implies after.counted(c)
            || after.assigned(c) by {
            if before.counted(c) {
                let id = choose|id: NodeId| #[trigger]
                    before.stats@.contains_key(id) && before.stats@[id].ranges@.contains(c);
                assert(after.stats@.contains_key(id));
            } else {
                let i = choose|i: int| 0 <= i < n && (#[trigger] before.tasks@[i]).ranges@.contains(c);
                assert(after.tasks@[i].ranges@.contains(c));
            }
        }
    } else {
        assert(after.stats@ == before.stats@ && after.tasks@ == before.tasks@);
        assert forall|c: u64| #[trigger] all.contains(c) && !missing.contains(c) implies after.counted(c)
            || after.assigned(c) by {
            assert(before.counted(c) || before.assigned(c));
        }
    }
}

/// A leaf that a running download brings leaves every chunk counted once at most: it counts
/// when the download ends.
pub proof fn law_leaf_tallies(state: Downloader, missing: Set<u64>, task: int, leaf: Set<u64>, all: Set<u64>)
    requires
        state.tallies(missing, all),
        0 <= task < state.tasks@.len(),
        leaf.subset_of(state.tasks@[task].ranges@),
    ensures
        state.tallies(missing.difference(leaf), all),
{
    assert forall|c: u64| #[trigger] all.contains(c) && !missing.difference(leaf).contains(c) implies state.counted(c)
        || state.assigned(c) by {
        if missing.contains(c) {
            assert(state.tasks@[task].ranges@.contains(c));
        }
    }
}

/// With a node known and none busy, there is a free node.
pub proof fn law_free_node(state: Downloader, rates: Map<NodeId, u64>)
    requires
        state.stats@.dom() != Set::<NodeId>::empty(),
        state.current@ == Set::<NodeId>::empty(),
    ensures
        state.free_nodes(rates) != Set::<Ranked>::empty(),
{
    if forall|id: NodeId| !state.stats@.dom().contains(id) {
        assert(state.stats@.dom() =~= Set::<NodeId>::empty());
    }
    let id = choose|id: NodeId| state.stats@.dom().contains(id);
    assert(state.free_nodes(rates).contains((state.stats@[id].quality_at(rate_of(rates, id)), id)));
}

/// All nodes by quality are the free ones and the busy ones, each once, in another order; and
/// no node is both free and busy. This is of whole lists: as many nodes are asked for as there
/// are, or more.
pub proof fn law_free_or_busy(
    state: Downloader,
    rates: Map<NodeId, u64>,
    all: Seq<Ranked>,
    free: Seq<Ranked>,
    busy: Seq<Ranked>,
    n: nat,
)
    requires
        is_lead(all, state.nodes(rates), n, false),
        is_lead(free, state.free_nodes(rates), n, false),
        is_lead(busy, state.busy_nodes(rates), n, true),
        state.stats@.dom().len() <= n,
    ensures
        all.to_multiset() == (free + busy).to_multiset(),
        all.len() == free.len() + busy.len(),
        all.len() == state.stats@.dom().len(),
        forall|i: int, j: int|
            0 <= i < free.len() && 0 <= j < busy.len() ==> (#[trigger] free[i]).1 != (#[trigger] busy[j]).1,
{
    let nodes = state.nodes(rates);
    let both = free + busy;
    lemma_node_count(state, rates);
    vstd::set_lib::lemma_len_subset(state.free_nodes(rates), nodes);
    vstd::set_lib::lemma_len_subset(state.busy_nodes(rates), nodes);
    law_lead_all(all, nodes, n, false);
    law_lead_all(free, state.free_nodes(rates), n, false);
    law_lead_all(busy, state.busy_nodes(rates), n, true);
    assert forall|i: int, j: int| 0 <= i < free.len() && 0 <= j < busy.len() implies (#[trigger] free[i]).1 != (
    #[trigger] busy[j]).1 by {
        assert(state.free_nodes(rates).contains(free[i]));
        assert(state.busy_nodes(rates).contains(busy[j]));
    }
    assert(both.no_duplicates());
    assert forall|node: Ranked| all.contains(node) <==> both.contains(node) by {
        assert(all.contains(node) <==> nodes.contains(node)) by {
            assert(all.to_set().contains(node) == nodes.contains(node));
        }
        assert(free.to_set().contains(node) == state.free_nodes(rates).contains(node));
        assert(busy.to_set().contains(node) == state.busy_nodes(rates).contains(node));
        if free.contains(node) {
            assert(both[free.index_of(node)] == node);
        }
        if busy.contains(node) {
            assert(both[free.len() + busy.index_of(node)] == node);
        }
        if both.contains(node) {
            let k = both.index_of(node);
            if k < free.len() {
                assert(free[k] == node);
            } else {
                assert(busy[k - free.len()] == node);
            }
        }
    }
    all.to_multiset_ensures();
    both.to_multiset_ensures();
    all.lemma_multiset_has_no_duplicates();
    both.lemma_multiset_has_no_duplicates();
    assert forall|node: Ranked| all.to_multiset().count(node) == both.to_multiset().count(node) by {
        assert(all.contains(node) <==> all.to_multiset().count(node) > 0);
        assert(both.contains(node) <==> both.to_multiset().count(node) > 0);
    }
    assert(all.to_multiset() =~= both.to_multiset());
}

/// A leaf that a running download brings leaves no missing chunk out, and leaves only
/// missing chunks to claim: what has arrived is not downloaded again.
pub proof fn law_leaf_keeps(state: Downloader, missing: Set<u64>, task: int, leaf: Set<u64>)
    requires
        state.wf(),
        0 <= task < state.tasks@.len(),
        leaf.subset_of(state.tasks@[task].ranges@),
    ensures
        state.covers(missing) ==> state.covers(missing.difference(leaf)),
        state.claims_missing(missing) ==> state.claims_missing(missing.difference(leaf)),
        state.counts_received(missing) ==> state.counts_received(missing.difference(leaf)),
        state.on_track(missing) ==> state.on_track(missing.difference(leaf)),
{
    assert(state.unclaimed@.disjoint(state.tasks@[task].ranges@));
}

/// Once no download is running, nothing is left to claim and nothing is missing.
pub proof fn law_nothing_missing(state: Downloader, missing: Set<u64>)
    requires
        state.on_track(missing),
        state.tasks@.len() == 0,
    ensures
        state.unclaimed@ == Set::<u64>::empty(),
        missing == Set::<u64>::empty(),
{
    assert(missing =~= Set::<u64>::empty());
}

/// Once no download is running, a target that agrees with the blob holds the blob.
pub proof fn law_blob_complete(state: Downloader, target: Target, blob: Seq<u8>)
    requires
        state.on_track(target.missing@),
        state.tasks@.len() == 0,
        agrees(target.data@, target.missing@, blob),
    ensures
        target.data@ == blob,
{
    law_nothing_missing(state, target.missing@);
    law_complete(target.data@, blob);
}

} // verus!
