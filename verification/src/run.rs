//! What holds of a whole run, from the answers of the nodes to the last download.
use vstd::prelude::*;

use crate::chunks::chunks_of_bytes;
use crate::downloader::{
    law_blob_complete, law_free_node, law_leaf_keeps, law_leaf_tallies, law_next_keeps, law_next_tallies,
    law_nothing_missing, law_result_keeps, law_result_tallies, law_start_keeps, law_start_nothing, law_start_tallies,
    law_step_on_track, law_step_succeeds, lemma_settled_tasks, task_list, Action, Download, Downloader, NoFreeNodes, Task,
    TaskResult,
};
use crate::quality::{first_of, NodeId};
use crate::steps::{law_end_effect, law_fresh, law_next_spawn, law_spawn_effect, law_start_effect, law_start_nodes};
use crate::survey::BlobHash;
use crate::target::{agrees, is_leaf_of, law_leaf_agrees, law_new_agrees, written, Target};

verus! {

/// A moment of a run: the state of the downloads, and the blob as far as it is put together.
pub struct Moment {
    pub downloader: Downloader,
    pub target: Target,
}

/// What happens between two moments of a run.
pub enum Event {
    /// A running download brings a leaf.
    Received { task: int, offset: u64, leaf: Seq<u8> },
    /// A running download ends; that is dealt with, which gives the state `mid`, and then
    /// what is to be done next is done.
    Ended {
        id: NodeId,
        chunks: Set<u64>,
        result: TaskResult,
        ended_at: u128,
        mid: Downloader,
        rates: Map<NodeId, u64>,
        now: u128,
        next: Result<Action, NoFreeNodes>,
    },
}

/// The second moment comes from the first by the event, when the nodes serve the blob: a leaf
/// is a part of the blob that the download asked for, and a download that is done has
/// brought all its chunks. Downloads may fail or be killed at any time.
pub open spec fn happens(before: Moment, event: Event, after: Moment, blob: Seq<u8>) -> bool {
    match event {
        Event::Received { task, offset, leaf } => {
            let chunks = chunks_of_bytes(offset, (offset + leaf.len()) as u64);
            &&& 0 <= task < before.downloader.tasks@.len()
            &&& is_leaf_of(blob, offset as int, leaf)
            &&& chunks.subset_of(before.downloader.tasks@[task].ranges@)
            &&& after.target.data@ == written(before.target.data@, offset as int, leaf)
            &&& after.target.missing@ == before.target.missing@.difference(chunks)
            &&& after.downloader == before.downloader
        },
        Event::Ended { id, chunks, result, ended_at, mid, rates, now, next } => {
            let missing = before.target.missing@;
            &&& before.downloader.is_running(id, chunks)
            &&& result == TaskResult::Done ==> chunks.disjoint(missing)
            &&& before.downloader.settled(mid, id, chunks, result, missing, ended_at)
            &&& mid.next(after.downloader, rates, now, next)
            &&& after.target == before.target
        },
    }
}

/// A run: the state before the first download, the first downloads, and all that happens
/// from then on.
pub struct Run {
    pub prepared: Moment,
    pub rates: Map<NodeId, u64>,
    pub begun_at: u128,
    pub downloads: Seq<Download>,
    pub moments: Seq<Moment>,
    pub events: Seq<Event>,
}

impl Run {
    /// The run starts with nothing of the blob, and goes on as nodes that serve the blob make
    /// it go on.
    pub open spec fn proceeds(
        self,
        blob: Seq<u8>,
        hashes: Map<NodeId, BlobHash>,
        latency: Map<NodeId, u128>,
        block_size: u64,
        parallelism: usize,
    ) -> bool {
        let start = self.prepared.downloader;
        &&& blob.len() <= usize::MAX
        &&& start.fresh(self.prepared.target, hashes, blob.len() as int, latency, block_size, parallelism)
        &&& self.moments.len() == self.events.len() + 1
        &&& start.started(self.moments[0].downloader, self.rates, self.begun_at, self.downloads)
        &&& self.moments[0].target == self.prepared.target
        &&& forall|i: int|
            0 <= i < self.events.len() ==> happens(
                self.moments[i],
                #[trigger] self.events[i],
                self.moments[i + 1],
                blob,
            )
    }

    /// The run proceeds, each node has a hash, and, unless the blob is empty, it can begin:
    /// there is a node at least, and a download may begin and may have a chunk.
    pub open spec fn downloads_blob(
        self,
        blob: Seq<u8>,
        hashes: Map<NodeId, BlobHash>,
        latency: Map<NodeId, u128>,
        block_size: u64,
        parallelism: usize,
    ) -> bool {
        &&& self.proceeds(blob, hashes, latency, block_size, parallelism)
        &&& latency.dom().subset_of(hashes.dom())
        &&& blob.len() > 0 ==> {
            &&& latency.dom() != Set::<NodeId>::empty()
            &&& block_size > 0
            &&& parallelism > 0
        }
    }
}

/// A download from the node ends with an error.
pub open spec fn is_failure(event: Event, id: NodeId) -> bool {
    event matches Event::Ended { id: from, result, .. } && from == id && result == TaskResult::Failed
}

/// How many of the first `n` events are failures of the node.
pub open spec fn failures(events: Seq<Event>, id: NodeId, n: int) -> nat
    decreases n,
{
    if n <= 0 {
        0
    } else {
        failures(events, id, n - 1) + if is_failure(events[n - 1], id) {
            1nat
        } else {
            0
        }
    }
}

/// At every moment of a run the state is well-formed: no chunk is in two downloads at a time.
/// No missing chunk is left out, only missing chunks are left to claim, and what has been
/// received is that of the blob. There are no more downloads than allowed, and no more than
/// nodes; each is of one chunk at least and of a block at most. The nodes stay the same, and
/// no missing chunk counts as downloaded.
pub proof fn law_run_keeps(
    run: Run,
    blob: Seq<u8>,
    hashes: Map<NodeId, BlobHash>,
    latency: Map<NodeId, u128>,
    block_size: u64,
    parallelism: usize,
    i: int,
)
    requires
        run.proceeds(blob, hashes, latency, block_size, parallelism),
        latency.dom().subset_of(hashes.dom()),
        0 <= i < run.moments.len(),
    ensures
        ({
            let moment = run.moments[i];
            let missing = moment.target.missing@;
            &&& moment.downloader.wf()
            &&& moment.downloader.covers(missing)
            &&& moment.downloader.claims_missing(missing)
            &&& agrees(moment.target.data@, missing, blob)
            &&& moment.downloader.tasks@.len() <= parallelism
            &&& moment.downloader.tasks@.len() <= latency.dom().len()
            &&& moment.downloader.block_size == block_size
            &&& forall|k: int|
                0 <= k < moment.downloader.tasks@.len() ==> 1 <= (
                #[trigger] moment.downloader.tasks@[k]).ranges@.len() <= block_size
            &&& moment.downloader.stats@.dom() == latency.dom()
            &&& moment.downloader.counts_received(missing)
        }),
    decreases i,
{
    let moment = run.moments[i];
    if i == 0 {
        let start = run.prepared.downloader;
        let missing = moment.target.missing@;
        assert(start.wf()) by {
            assert forall|id: NodeId| #[trigger] start.stats@.contains_key(id) implies start.hashes@.contains_key(
                id,
            ) by {
                assert(latency.dom().contains(id));
            }
        }
        assert(start.counts_received(missing)) by {
            assert forall|id: NodeId| #[trigger] start.stats@.contains_key(id) implies start.stats@[id].ranges@.disjoint(
                missing,
            ) by {
                assert(latency.dom().contains(id));
                assert(latency.contains_key(id));
            }
        }
        law_start_keeps(start, moment.downloader, run.rates, run.begun_at, run.downloads, missing);
        law_new_agrees(blob, blob.len() as u64);
        assert(moment.downloader.sized());
    } else {
        law_run_keeps(run, blob, hashes, latency, block_size, parallelism, i - 1);
        let before = run.moments[i - 1];
        let missing = before.target.missing@;
        assert(before.downloader.sized());
        assert(happens(before, run.events[i - 1], run.moments[i - 1 + 1], blob));
        match run.events[i - 1] {
            Event::Received { task, offset, leaf } => {
                let chunks = chunks_of_bytes(offset, (offset + leaf.len()) as u64);
                law_leaf_keeps(before.downloader, missing, task, chunks);
                law_leaf_agrees(before.target.data@, missing, blob, offset, leaf);
            },
            Event::Ended { id, chunks, result, ended_at, mid, rates, now, next } => {
                law_result_keeps(before.downloader, mid, id, chunks, result, missing, ended_at);
                law_next_keeps(mid, moment.downloader, rates, now, next, missing);
                assert(moment.downloader.sized());
            },
        }
    }
}

/// At every moment of a run that can begin all is on track: besides all that every run keeps,
/// some download is running as long as there is something to claim.
pub proof fn law_run_on_track(
    run: Run,
    blob: Seq<u8>,
    hashes: Map<NodeId, BlobHash>,
    latency: Map<NodeId, u128>,
    block_size: u64,
    parallelism: usize,
    i: int,
)
    requires
        run.downloads_blob(blob, hashes, latency, block_size, parallelism),
        0 <= i < run.moments.len(),
    ensures
        run.moments[i].downloader.on_track(run.moments[i].target.missing@),
    decreases i,
{
    law_run_keeps(run, blob, hashes, latency, block_size, parallelism, i);
    let moment = run.moments[i];
    if i == 0 {
        let start = run.prepared.downloader;
        if blob.len() == 0 {
            assert(moment.downloader.unclaimed@ =~= Set::<u64>::empty());
        } else {
            assert(start.wf()) by {
                assert forall|id: NodeId| #[trigger] start.stats@.contains_key(id) implies start.hashes@.contains_key(
                    id,
                ) by {
                    assert(latency.dom().contains(id));
                }
            }
            law_free_node(start, run.rates);
            law_start_keeps(
                start,
                moment.downloader,
                run.rates,
                run.begun_at,
                run.downloads,
                moment.target.missing@,
            );
        }
    } else {
        law_run_keeps(run, blob, hashes, latency, block_size, parallelism, i - 1);
        law_run_on_track(run, blob, hashes, latency, block_size, parallelism, i - 1);
        let before = run.moments[i - 1];
        let missing = before.target.missing@;
        assert(happens(before, run.events[i - 1], run.moments[i - 1 + 1], blob));
        match run.events[i - 1] {
            Event::Received { task, offset, leaf } => {
                let chunks = chunks_of_bytes(offset, (offset + leaf.len()) as u64);
                law_leaf_keeps(before.downloader, missing, task, chunks);
            },
            Event::Ended { id, chunks, result, ended_at, mid, rates, now, next } => {
                let list = task_list(before.downloader.tasks@);
                let at = list.index_of((id, chunks));
                assert(1 <= before.downloader.tasks@[at].ranges@.len() <= block_size);
                law_step_on_track(
                    before.downloader,
                    mid,
                    moment.downloader,
                    id,
                    chunks,
                    result,
                    missing,
                    ended_at,
                    rates,
                    now,
                    next,
                );
            },
        }
    }
}

/// At every moment of a run there are statistics for each node: its initial latency, and as
/// many errors as downloads from it have failed, so none while none has. Those of a node that
/// was never asked for anything hold the latency and nothing else.
#[verifier::spinoff_prover]
#[verifier::rlimit(40)]
pub proof fn law_run_stats(
    run: Run,
    blob: Seq<u8>,
    hashes: Map<NodeId, BlobHash>,
    latency: Map<NodeId, u128>,
    block_size: u64,
    parallelism: usize,
    i: int,
    id: NodeId,
)
    requires
        run.proceeds(blob, hashes, latency, block_size, parallelism),
        latency.dom().subset_of(hashes.dom()),
        0 <= i < run.moments.len(),
        latency.contains_key(id),
    ensures
        ({
            let stats = run.moments[i].downloader.stats@;
            &&& stats.contains_key(id)
            &&& stats[id].latency == latency[id]
            &&& stats[id].errors == failures(run.events, id, i)
            &&& (forall|k: int| 0 <= k < i ==> !is_failure(#[trigger] run.events[k], id)) ==> stats[id].errors == 0
            &&& stats[id].start is None ==> stats[id].unused(latency[id])
        }),
    decreases i,
{
    let moment = run.moments[i];
    law_run_keeps(run, blob, hashes, latency, block_size, parallelism, i);
    assert(moment.downloader.stats@.dom().contains(id));
    if i == 0 {
        assert(run.prepared.downloader.stats@.dom().contains(id));
        assert(run.prepared.downloader.stats@.contains_key(id));
    } else {
        law_run_stats(run, blob, hashes, latency, block_size, parallelism, i - 1, id);
        law_run_keeps(run, blob, hashes, latency, block_size, parallelism, i - 1);
        let before = run.moments[i - 1];
        assert(happens(before, run.events[i - 1], run.moments[i - 1 + 1], blob));
        if let Event::Ended { id: from, chunks, result, ended_at, mid, rates, now, next } = run.events[i - 1] {
            let list = task_list(before.downloader.tasks@);
            let at = list.index_of((from, chunks));
            assert(list[at] == (before.downloader.tasks@[at].id, before.downloader.tasks@[at].ranges@));
            assert(before.downloader.has_begun(before.downloader.tasks@[at].id));
            assert(mid.stats@.contains_key(id));
            assert(mid.stats@[id].errors == failures(run.events, id, i));
        }
    }
}

/// A run never lacks a free node.
pub proof fn law_run_never_fails(
    run: Run,
    blob: Seq<u8>,
    hashes: Map<NodeId, BlobHash>,
    latency: Map<NodeId, u128>,
    block_size: u64,
    parallelism: usize,
    i: int,
)
    requires
        run.proceeds(blob, hashes, latency, block_size, parallelism),
        0 <= i < run.events.len(),
    ensures
        run.events[i] matches Event::Ended { next, .. } ==> next is Ok,
{
    let before = run.moments[i];
    assert(happens(before, run.events[i], run.moments[i + 1], blob));
    if let Event::Ended { id, chunks, result, ended_at, mid, rates, now, next } = run.events[i] {
        law_step_succeeds(
            before.downloader,
            mid,
            run.moments[i + 1].downloader,
            id,
            chunks,
            result,
            before.target.missing@,
            ended_at,
            rates,
            now,
            next,
        );
    }
}

/// Once no download is running, the run has brought the blob, whatever failed or was killed
/// on the way: nothing is left to claim, nothing is missing, and the bytes are those of the
/// blob.
pub proof fn law_run_brings_blob(
    run: Run,
    blob: Seq<u8>,
    hashes: Map<NodeId, BlobHash>,
    latency: Map<NodeId, u128>,
    block_size: u64,
    parallelism: usize,
)
    requires
        run.downloads_blob(blob, hashes, latency, block_size, parallelism),
        run.moments.last().downloader.tasks@.len() == 0,
    ensures
        run.moments.last().downloader.unclaimed@ == Set::<u64>::empty(),
        run.moments.last().target.missing@ == Set::<u64>::empty(),
        run.moments.last().target.data@ == blob,
{
    let last = run.moments.last();
    law_run_keeps(run, blob, hashes, latency, block_size, parallelism, run.moments.len() - 1);
    law_run_on_track(run, blob, hashes, latency, block_size, parallelism, run.moments.len() - 1);
    law_nothing_missing(last.downloader, last.target.missing@);
    law_blob_complete(last.downloader, last.target, blob);
}

/// At every moment of a run each chunk of the blob that is not missing counts as downloaded or
/// is assigned to a running download, and none counts for two nodes.
pub proof fn law_run_tallies(
    run: Run,
    blob: Seq<u8>,
    hashes: Map<NodeId, BlobHash>,
    latency: Map<NodeId, u128>,
    block_size: u64,
    parallelism: usize,
    i: int,
)
    requires
        run.proceeds(blob, hashes, latency, block_size, parallelism),
        latency.dom().subset_of(hashes.dom()),
        0 <= i < run.moments.len(),
    ensures
        ({
            let moment = run.moments[i];
            let all = chunks_of_bytes(0, blob.len() as u64);
            &&& moment.target.missing@.subset_of(all)
            &&& moment.downloader.tallies(moment.target.missing@, all)
        }),
    decreases i,
{
    let moment = run.moments[i];
    let all = chunks_of_bytes(0, blob.len() as u64);
    if i == 0 {
        let start = run.prepared.downloader;
        assert forall|id: NodeId| #[trigger] start.stats@.contains_key(id) implies start.stats@[id].ranges@ == Set::<
            u64,
        >::empty() by {
            assert(latency.dom().contains(id));
            assert(latency.contains_key(id));
        }
        assert(start.tallies(all, all));
        law_start_tallies(start, moment.downloader, run.rates, run.begun_at, run.downloads, all, all);
    } else {
        law_run_tallies(run, blob, hashes, latency, block_size, parallelism, i - 1);
        law_run_keeps(run, blob, hashes, latency, block_size, parallelism, i - 1);
        let before = run.moments[i - 1];
        let missing = before.target.missing@;
        assert(happens(before, run.events[i - 1], run.moments[i - 1 + 1], blob));
        match run.events[i - 1] {
            Event::Received { task, offset, leaf } => {
                let chunks = chunks_of_bytes(offset, (offset + leaf.len()) as u64);
                law_leaf_tallies(before.downloader, missing, task, chunks, all);
            },
            Event::Ended { id, chunks, result, ended_at, mid, rates, now, next } => {
                law_result_keeps(before.downloader, mid, id, chunks, result, missing, ended_at);
                law_result_tallies(before.downloader, mid, id, chunks, result, missing, ended_at, all);
                law_next_tallies(mid, moment.downloader, rates, now, next, missing, all);
            },
        }
    }
}

/// Once no download is running, each chunk of the blob counts as downloaded from exactly one
/// node, and nothing else counts.
pub proof fn law_run_counts_once(
    run: Run,
    blob: Seq<u8>,
    hashes: Map<NodeId, BlobHash>,
    latency: Map<NodeId, u128>,
    block_size: u64,
    parallelism: usize,
)
    requires
        run.downloads_blob(blob, hashes, latency, block_size, parallelism),
        run.moments.last().downloader.tasks@.len() == 0,
    ensures
        ({
            let stats = run.moments.last().downloader.stats@;
            let all = chunks_of_bytes(0, blob.len() as u64);
            &&& forall|c: u64| #[trigger]
                all.contains(c) <==> exists|id: NodeId| #[trigger]
                    stats.contains_key(id) && stats[id].ranges@.contains(c)
            &&& forall|id: NodeId, other: NodeId|
                #![trigger stats.contains_key(id), stats.contains_key(other)]
                stats.contains_key(id) && stats.contains_key(other) && id != other ==> stats[id].ranges@.disjoint(
                    stats[other].ranges@,
                )
        }),
{
    let last = run.moments.last();
    let stats = last.downloader.stats@;
    let all = chunks_of_bytes(0, blob.len() as u64);
    law_run_tallies(run, blob, hashes, latency, block_size, parallelism, run.moments.len() - 1);
    law_run_brings_blob(run, blob, hashes, latency, block_size, parallelism);
    assert forall|c: u64| #[trigger] all.contains(c) <==> exists|id: NodeId| #[trigger]
        stats.contains_key(id) && stats[id].ranges@.contains(c) by {
        if all.contains(c) {
            assert(last.downloader.counted(c));
        }
    }
}

/// How many of the running downloads are from the node.
pub open spec fn running_from(tasks: Seq<Task>, id: NodeId) -> nat {
    tasks.map_values(|task: Task| task.id).to_multiset().count(id)
}

/// After this event the current download of the node is killed.
pub open spec fn is_kill(event: Event, id: NodeId) -> bool {
    event matches Event::Ended { next: Ok(Action::Kill(killed)), .. } && killed == id
}

impl Run {
    /// How often, by moment `i`, a download from the node was killed.
    pub open spec fn kills(self, id: NodeId, i: int) -> nat
        decreases i,
    {
        if i <= 0 {
            0
        } else {
            self.kills(id, i - 1) + if is_kill(self.events[i - 1], id) {
                1nat
            } else {
                0
            }
        }
    }

    /// How many downloads from the node, by moment `i`, ended while the node was not busy.
    pub open spec fn late_ends(self, id: NodeId, i: int) -> nat
        decreases i,
    {
        if i <= 0 {
            0
        } else {
            self.late_ends(id, i - 1) + if (self.events[i - 1] matches Event::Ended { id: from, .. } && from == id)
                && !self.moments[i - 1].downloader.current@.contains(id) {
                1nat
            } else {
                0
            }
        }
    }

    /// When, by moment `i`, the latest download from the node began.
    pub open spec fn last_begin(self, id: NodeId, i: int) -> Option<u128>
        decreases i,
    {
        if i <= 0 {
            if exists|k: int| 0 <= k < self.downloads.len() && (#[trigger] self.downloads[k]).id == id {
                Some(self.begun_at)
            } else {
                None
            }
        } else {
            match self.events[i - 1] {
                Event::Ended { next: Ok(Action::Spawn(download)), now, .. } => if download.id == id {
                    Some(now)
                } else {
                    self.last_begin(id, i - 1)
                },
                _ => self.last_begin(id, i - 1),
            }
        }
    }

    /// The time that the downloads from the node that ended by moment `i` have taken: each
    /// from the latest begin of one from the node to its end.
    pub open spec fn time_spent(self, id: NodeId, i: int) -> int
        decreases i,
    {
        if i <= 0 {
            0
        } else {
            self.time_spent(id, i - 1) + match self.events[i - 1] {
                Event::Ended { id: from, ended_at, .. } => match self.last_begin(id, i - 1) {
                    Some(begin) => if from == id && begin < ended_at {
                        ended_at - begin
                    } else {
                        0
                    },
                    None => 0,
                },
                _ => 0,
            }
        }
    }
}

/// How the running downloads of each node change, when one begins, and when one ends.
proof fn lemma_running(before: Seq<Task>, after: Seq<Task>, at: int, id: NodeId)
    ensures
        after.len() == before.len() + 1 && (forall|i: int|
            0 <= i < before.len() ==> (#[trigger] after[i]).id == before[i].id) ==> running_from(after, id)
            == running_from(before, id) + if after[before.len() as int].id == id {
            1nat
        } else {
            0
        },
        0 <= at < before.len() && after.len() == before.len() - 1 && (forall|i: int|
            0 <= i < after.len() ==> (#[trigger] after[i]).id == before[if i < at {
                i
            } else {
                i + 1
            }].id) ==> running_from(after, id) == running_from(before, id) - if before[at].id == id {
            1int
        } else {
            0
        },
{
    broadcast use vstd::multiset::group_multiset_axioms;

    let old_ids = before.map_values(|task: Task| task.id);
    let ids = after.map_values(|task: Task| task.id);
    old_ids.to_multiset_ensures();
    if after.len() == before.len() + 1 && (forall|i: int| 0 <= i < before.len() ==> (#[trigger] after[i]).id
        == before[i].id) {
        let last = after[before.len() as int].id;
        assert(ids =~= old_ids.push(last)) by {
            assert forall|i: int| 0 <= i < ids.len() implies ids[i] == old_ids.push(last)[i] by {
                if i < before.len() {
                    assert(after[i].id == before[i].id);
                }
            }
        }
    }
    if 0 <= at < before.len() && after.len() == before.len() - 1 && (forall|i: int|
        0 <= i < after.len() ==> (#[trigger] after[i]).id == before[if i < at {
            i
        } else {
            i + 1
        }].id) {
        assert(ids =~= old_ids.remove(at)) by {
            assert forall|i: int| 0 <= i < ids.len() implies ids[i] == old_ids.remove(at)[i] by {
                assert(after[i].id == before[if i < at {
                    i
                } else {
                    i + 1
                }].id);
            }
        }
        assert(old_ids[at] == before[at].id);
        assert(old_ids.contains(before[at].id));
        assert(old_ids.to_multiset().count(before[at].id) > 0);
    }
}

/// A node has as many running downloads as there are in the list, so one at least where there
/// is one in it, and two where there are two.
proof fn lemma_running_count(tasks: Seq<Task>, a: int, b: int)
    requires
        0 <= a < tasks.len(),
        0 <= b < tasks.len(),
    ensures
        running_from(tasks, tasks[a].id) >= 1,
        a != b && tasks[a].id == tasks[b].id ==> running_from(tasks, tasks[a].id) >= 2,
{
    broadcast use vstd::multiset::group_multiset_axioms;

    let ids = tasks.map_values(|task: Task| task.id);
    let id = tasks[a].id;
    ids.to_multiset_ensures();
    assert(ids[a] == id);
    assert(ids.contains(id));
    if a != b && tasks[b].id == id {
        let rest = ids.remove(a);
        rest.to_multiset_ensures();
        assert(rest[if b < a {
            b
        } else {
            b - 1
        }] == id);
        assert(rest.contains(id));
        assert(rest.to_multiset().count(id) >= 1);
    }
}

/// At every moment of a run, the running downloads of a node are those that were killed and
/// have not ended, and one more where the node is busy; a busy node has one at least. So
/// without a kill each node with a running download is busy, and has no second one.
pub proof fn law_run_busy(
    run: Run,
    blob: Seq<u8>,
    hashes: Map<NodeId, BlobHash>,
    latency: Map<NodeId, u128>,
    block_size: u64,
    parallelism: usize,
    i: int,
    id: NodeId,
)
    requires
        run.proceeds(blob, hashes, latency, block_size, parallelism),
        0 <= i < run.moments.len(),
    ensures
        ({
            let state = run.moments[i].downloader;
            let busy = state.current@.contains(id);
            &&& running_from(state.tasks@, id) + run.late_ends(id, i) == run.kills(id, i) + if busy {
                1nat
            } else {
                0
            }
            &&& busy ==> exists|k: int| 0 <= k < state.tasks@.len() && (#[trigger] state.tasks@[k]).id == id
            &&& run.kills(id, i) == 0 ==> {
                &&& forall|k: int| 0 <= k < state.tasks@.len() && (#[trigger] state.tasks@[k]).id == id ==> busy
                &&& forall|k: int, l: int|
                    0 <= k < l < state.tasks@.len() ==> !((#[trigger] state.tasks@[k]).id == id && (
                    #[trigger] state.tasks@[l]).id == id)
            }
        }),
{
    lemma_run_busy(run, blob, hashes, latency, block_size, parallelism, i, id);
    let tasks = run.moments[i].downloader.tasks@;
    if run.kills(id, i) == 0 {
        assert forall|k: int| 0 <= k < tasks.len() && (#[trigger] tasks[k]).id == id implies run.moments[i].downloader.current@.contains(
            id,
        ) by {
            lemma_running_count(tasks, k, k);
        }
        assert forall|k: int, l: int| 0 <= k < l < tasks.len() implies !((#[trigger] tasks[k]).id == id && (
        #[trigger] tasks[l]).id == id) by {
            lemma_running_count(tasks, k, l);
        }
    }
    if run.moments[i].downloader.current@.contains(id) {
        let ids = tasks.map_values(|task: Task| task.id);
        ids.to_multiset_ensures();
        assert(ids.contains(id));
        assert(tasks[ids.index_of(id)].id == id);
    }
}

#[verifier::spinoff_prover]
#[verifier::rlimit(40)]
proof fn lemma_run_busy(
    run: Run,
    blob: Seq<u8>,
    hashes: Map<NodeId, BlobHash>,
    latency: Map<NodeId, u128>,
    block_size: u64,
    parallelism: usize,
    i: int,
    id: NodeId,
)
    requires
        run.proceeds(blob, hashes, latency, block_size, parallelism),
        0 <= i < run.moments.len(),
    ensures
        ({
            let state = run.moments[i].downloader;
            let busy: nat = if state.current@.contains(id) {
                1
            } else {
                0
            };
            &&& running_from(state.tasks@, id) + run.late_ends(id, i) == run.kills(id, i) + busy
            &&& running_from(state.tasks@, id) >= busy
        }),
    decreases i,
{
    let state = run.moments[i].downloader;
    if i == 0 {
        let start = run.prepared.downloader;
        law_start_nodes(start, state, run.rates, run.begun_at, run.downloads);
        law_start_effect(start, state, run.rates, run.begun_at, run.downloads);
        let ids = state.tasks@.map_values(|task: Task| task.id);
        assert forall|k: int| 0 <= k < ids.len() implies #[trigger] ids[k] == run.downloads[k].id by {
            assert(state.tasks@[k].id == run.downloads[k].id);
        }
        assert forall|k: int, l: int| 0 <= k < l < ids.len() implies ids[k] != ids[l] by {
            assert(run.downloads[k].id != run.downloads[l].id);
        }
        assert(ids.no_duplicates());
        ids.to_multiset_ensures();
        ids.lemma_multiset_has_no_duplicates();
        if state.current@.contains(id) {
            let k = choose|k: int| 0 <= k < run.downloads.len() && (#[trigger] run.downloads[k]).id == id;
            assert(ids[k] == id);
            assert(ids.contains(id));
            assert(ids.to_multiset().contains(id));
        } else if ids.contains(id) {
            assert(run.downloads[ids.index_of(id)].id == id);
        }
    } else {
        lemma_run_busy(run, blob, hashes, latency, block_size, parallelism, i - 1, id);
        let before = run.moments[i - 1];
        assert(happens(before, run.events[i - 1], run.moments[i - 1 + 1], blob));
        if let Event::Ended { id: from, chunks, result, ended_at, mid, rates, now, next } = run.events[i - 1] {
            let at = lemma_settled_tasks(
                before.downloader,
                mid,
                from,
                chunks,
                result,
                before.target.missing@,
                ended_at,
            );
            lemma_running(before.downloader.tasks@, mid.tasks@, at, id);
            lemma_running_count(before.downloader.tasks@, at, at);
            if let Ok(Action::Spawn(download)) = next {
                law_next_spawn(mid, state, rates, now, download);
                law_spawn_effect(mid, state, download, now);
                lemma_running(mid.tasks@, state.tasks@, 0, id);
            } else if let Ok(Action::Kill(killed)) = next {
                let worst = first_of(mid.busy_nodes(rates), true);
                assert(mid.busy_nodes(rates).contains(worst));
                assert(mid.current@.contains(killed));
                assert(state.tasks@ == mid.tasks@);
            }
        }
    }
}

/// At every moment of a run the time of a node is the sum of what each of its downloads that
/// have ended, done, failed or killed, took from the latest begin to its end; and its start is
/// the latest begin. The time never goes down.
#[verifier::spinoff_prover]
#[verifier::rlimit(40)]
pub proof fn law_run_time(
    run: Run,
    blob: Seq<u8>,
    hashes: Map<NodeId, BlobHash>,
    latency: Map<NodeId, u128>,
    block_size: u64,
    parallelism: usize,
    i: int,
    id: NodeId,
)
    requires
        run.proceeds(blob, hashes, latency, block_size, parallelism),
        latency.dom().subset_of(hashes.dom()),
        0 <= i < run.moments.len(),
        latency.contains_key(id),
    ensures
        ({
            let stats = run.moments[i].downloader.stats@;
            &&& stats.contains_key(id)
            &&& stats[id].time == run.time_spent(id, i)
            &&& stats[id].start == run.last_begin(id, i)
            &&& i > 0 ==> stats[id].time >= run.moments[i - 1].downloader.stats@[id].time
        }),
    decreases i,
{
    let state = run.moments[i].downloader;
    law_run_keeps(run, blob, hashes, latency, block_size, parallelism, i);
    assert(state.stats@.dom().contains(id));
    if i == 0 {
        let start = run.prepared.downloader;
        assert(start.stats@.dom().contains(id));
        law_fresh(start, run.prepared.target, hashes, blob.len() as int, latency, block_size, parallelism);
        law_start_effect(start, state, run.rates, run.begun_at, run.downloads);
        assert(start.stats@.contains_key(id));
    } else {
        law_run_time(run, blob, hashes, latency, block_size, parallelism, i - 1, id);
        law_run_keeps(run, blob, hashes, latency, block_size, parallelism, i - 1);
        let before = run.moments[i - 1];
        assert(happens(before, run.events[i - 1], run.moments[i - 1 + 1], blob));
        if let Event::Ended { id: from, chunks, result, ended_at, mid, rates, now, next } = run.events[i - 1] {
            let missing = before.target.missing@;
            let at = lemma_settled_tasks(before.downloader, mid, from, chunks, result, missing, ended_at);
            assert(before.downloader.has_begun(before.downloader.tasks@[at].id));
            law_end_effect(before.downloader, mid, from, chunks, result, missing, ended_at);
            assert(before.downloader.stats@.contains_key(id));
            assert(mid.stats@.contains_key(id));
            assert(mid.stats@[id].time == run.time_spent(id, i));
            if let Ok(Action::Spawn(download)) = next {
                law_next_spawn(mid, state, rates, now, download);
                law_spawn_effect(mid, state, download, now);
            } else {
                assert(state.stats@ == mid.stats@);
            }
        }
    }
}

/// The event is the end of a download from the node that brought the chunk.
pub open spec fn brings(before: Moment, event: Event, id: NodeId, chunk: u64) -> bool {
    event matches Event::Ended { id: from, chunks, result, .. } && from == id && chunks.contains(chunk) && (
    result is Done || !before.target.missing@.contains(chunk))
}

/// What an event adds to the chunks that count as downloaded from a node.
proof fn lemma_event_brings(before: Moment, event: Event, after: Moment, blob: Seq<u8>, id: NodeId, chunk: u64)
    requires
        before.downloader.wf(),
        before.downloader.stats@.contains_key(id),
        happens(before, event, after, blob),
    ensures
        after.downloader.stats@[id].ranges@.contains(chunk) <==> before.downloader.stats@[id].ranges@.contains(chunk)
            || brings(before, event, id, chunk),
{
    if let Event::Ended { id: from, chunks, result, ended_at, mid, rates, now, next } = event {
        let missing = before.target.missing@;
        let at = lemma_settled_tasks(before.downloader, mid, from, chunks, result, missing, ended_at);
        assert(before.downloader.has_begun(before.downloader.tasks@[at].id));
        law_end_effect(before.downloader, mid, from, chunks, result, missing, ended_at);
        assert(mid.stats@.contains_key(id));
        if let Ok(Action::Spawn(download)) = next {
            law_next_spawn(mid, after.downloader, rates, now, download);
            law_spawn_effect(mid, after.downloader, download, now);
        } else {
            assert(after.downloader.stats@ == mid.stats@);
        }
    }
}

/// At every moment of a run the chunks that count as downloaded from a node are those that
/// its downloads that have ended brought: all chunks of one that is done, and of any other
/// those that were no longer missing when it ended.
#[verifier::spinoff_prover]
#[verifier::rlimit(40)]
pub proof fn law_run_downloaded(
    run: Run,
    blob: Seq<u8>,
    hashes: Map<NodeId, BlobHash>,
    latency: Map<NodeId, u128>,
    block_size: u64,
    parallelism: usize,
    i: int,
    id: NodeId,
    chunk: u64,
)
    requires
        run.proceeds(blob, hashes, latency, block_size, parallelism),
        latency.dom().subset_of(hashes.dom()),
        0 <= i < run.moments.len(),
        latency.contains_key(id),
    ensures
        run.moments[i].downloader.stats@[id].ranges@.contains(chunk) <==> exists|k: int|
            0 <= k < i && brings(run.moments[k], #[trigger] run.events[k], id, chunk),
    decreases i,
{
    let state = run.moments[i].downloader;
    if i == 0 {
        let start = run.prepared.downloader;
        law_fresh(start, run.prepared.target, hashes, blob.len() as int, latency, block_size, parallelism);
        law_start_effect(start, state, run.rates, run.begun_at, run.downloads);
        assert(start.stats@.contains_key(id));
    } else {
        law_run_downloaded(run, blob, hashes, latency, block_size, parallelism, i - 1, id, chunk);
        law_run_keeps(run, blob, hashes, latency, block_size, parallelism, i - 1);
        let before = run.moments[i - 1];
        assert(before.downloader.stats@.dom().contains(id));
        assert(happens(before, run.events[i - 1], run.moments[i - 1 + 1], blob));
        lemma_event_brings(before, run.events[i - 1], run.moments[i], blob, id, chunk);
        if exists|k: int| 0 <= k < i && brings(run.moments[k], #[trigger] run.events[k], id, chunk) {
            let k = choose|k: int| 0 <= k < i && brings(run.moments[k], #[trigger] run.events[k], id, chunk);
            if k < i - 1 {
                assert(brings(run.moments[k], run.events[k], id, chunk));
            }
        }
    }
}

/// For an empty blob no download ever begins, whatever the block size and the number of
/// downloads allowed: the run is over at once, with nothing left to claim and nothing missing.
pub proof fn law_run_of_empty_blob(
    run: Run,
    blob: Seq<u8>,
    hashes: Map<NodeId, BlobHash>,
    latency: Map<NodeId, u128>,
    block_size: u64,
    parallelism: usize,
)
    requires
        run.proceeds(blob, hashes, latency, block_size, parallelism),
        blob.len() == 0,
    ensures
        run.downloads.len() == 0,
        run.events.len() == 0,
        run.moments[0].downloader.tasks@.len() == 0,
        run.moments[0].downloader.unclaimed@ == Set::<u64>::empty(),
        run.moments[0].downloader.stats@ == run.prepared.downloader.stats@,
        run.moments[0].target.missing@ == Set::<u64>::empty(),
        run.moments[0].target.data@ == Seq::<u8>::empty(),
{
    let start = run.prepared.downloader;
    let first = run.moments[0].downloader;
    assert(start.unclaimed@ =~= Set::<u64>::empty());
    law_start_nothing(start, first, run.rates, run.begun_at, run.downloads);
    assert(task_list(first.tasks@).len() == task_list(start.tasks@).len());
    if run.events.len() > 0 {
        assert(happens(run.moments[0], run.events[0], run.moments[1], blob));
    }
    assert(run.moments[0].target.missing@ =~= Set::<u64>::empty());
}

} // verus!
