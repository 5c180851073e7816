//! What each step of the downloads does, in plain terms: which node is chosen, which chunks it
//! gets, and what becomes of every field of the state.
use vstd::prelude::*;

use crate::chunks::{chunks_of_bytes, law_claim_empty, lemma_chunks_finite};
use crate::downloader::{
    downloads_from, left, lemma_left, lemma_settled_tasks, lemma_spawned_tasks, lemma_started_tasks, prepared, rate_of,
    task_list, Action, Download, Downloader, NoFreeNodes, TaskResult,
};
use crate::plain::{law_chunks_of_bytes, law_claim_lowest, law_lead_in_order};
use crate::quality::{first_of, is_first, is_lead, law_first_unique, lead_of, ranks_before, NodeId, Ranked};
use crate::survey::{
    is_ok_with, latencies_given, law_latency_given, law_size_agreed, law_unreachable_left_out, sizes_given, BlobHash, Config,
    Reply, SyncError,
};
use crate::target::Target;

verus! {

/// A rate was measured for the node: it has spent time, its chunks can be counted, and the
/// rate is at hand.
pub open spec fn measured(state: Downloader, rates: Map<NodeId, u64>, id: NodeId) -> bool {
    &&& state.stats@[id].time > 0
    &&& !state.stats@[id].ranges@.contains(u64::MAX)
    &&& rates.contains_key(id)
}

/// One node is to be preferred to another: it has fewer errors; or as many, and a rate where
/// the other has none, or a higher one; or, with no difference in these, a lower latency; or,
/// with no difference at all, a lower number.
pub open spec fn preferred(state: Downloader, rates: Map<NodeId, u64>, id: NodeId, other: NodeId) -> bool {
    let a = state.stats@[id];
    let b = state.stats@[other];
    let a_measured = measured(state, rates, id);
    let b_measured = measured(state, rates, other);
    ||| a.errors < b.errors
    ||| a.errors == b.errors && a_measured && !b_measured
    ||| a.errors == b.errors && a_measured && b_measured && rates[id] > rates[other]
    ||| {
        &&& a.errors == b.errors
        &&& a_measured == b_measured
        &&& a_measured ==> rates[id] == rates[other]
        &&& a.latency < b.latency || (a.latency == b.latency && id < other)
    }
}

/// Nodes are ranked by what their statistics and the measured rates say: all that have
/// statistics, the free ones without a current download, the busy ones with one.
pub proof fn law_nodes(state: Downloader, rates: Map<NodeId, u64>, node: Ranked)
    ensures
        state.nodes(rates).contains(node) <==> {
            &&& state.stats@.contains_key(node.1)
            &&& node.0.errors == state.stats@[node.1].errors
            &&& node.0.latency == state.stats@[node.1].latency
            &&& node.0.rate == if measured(state, rates, node.1) {
                Some(rates[node.1])
            } else {
                None
            }
        },
        state.free_nodes(rates).contains(node) <==> state.nodes(rates).contains(node) && !state.current@.contains(
            node.1,
        ),
        state.busy_nodes(rates).contains(node) <==> state.nodes(rates).contains(node) && state.current@.contains(node.1),
{
}

/// Of two nodes the one that is to be preferred ranks before the other.
pub proof fn law_ranked_by_preference(state: Downloader, rates: Map<NodeId, u64>, a: Ranked, b: Ranked)
    requires
        state.nodes(rates).contains(a),
        state.nodes(rates).contains(b),
    ensures
        ranks_before(a, b) <==> preferred(state, rates, a.1, b.1),
{
    law_nodes(state, rates, a);
    law_nodes(state, rates, b);
}

/// As a node is ranked.
proof fn lemma_ranked(state: Downloader, rates: Map<NodeId, u64>, id: NodeId) -> (node: Ranked)
    requires
        state.stats@.contains_key(id),
    ensures
        node.1 == id,
        state.nodes(rates).contains(node),
        forall|other: Ranked| #[trigger] state.nodes(rates).contains(other) && other.1 == id ==> other == node,
{
    (state.stats@[id].quality_at(rate_of(rates, id)), id)
}

/// There are as many ranked nodes of some ids as ids.
proof fn lemma_ranked_count(state: Downloader, rates: Map<NodeId, u64>, ids: Set<NodeId>, nodes: Set<Ranked>)
    requires
        forall|node: Ranked| #[trigger]
            nodes.contains(node) <==> state.nodes(rates).contains(node) && ids.contains(node.1),
        ids.subset_of(state.stats@.dom()),
    ensures
        nodes.finite(),
        nodes.len() == ids.len(),
{
    let rank = |id: NodeId| -> Ranked { (state.stats@[id].quality_at(rate_of(rates, id)), id) };
    lemma_chunks_finite(ids);
    assert forall|node: Ranked| nodes.contains(node) == ids.map(rank).contains(node) by {
        if nodes.contains(node) {
            assert(ids.contains(node.1) && rank(node.1) == node);
        }
        if ids.map(rank).contains(node) {
            let id = choose|id: NodeId| ids.contains(id) && rank(id) == node;
            assert(state.stats@.dom().contains(id));
            assert(state.nodes(rates).contains(node));
        }
    }
    assert(nodes =~= ids.map(rank));
    assert(vstd::relations::injective_on(rank, ids));
    vstd::set_lib::lemma_map_size(ids, nodes, rank);
}

/// A list of the best of some nodes has as many as asked for, or all; each is to be preferred
/// to those after it, and to those not in the list.
proof fn lemma_best_list(
    state: Downloader,
    rates: Map<NodeId, u64>,
    ids: Set<NodeId>,
    nodes: Set<Ranked>,
    list: Seq<Ranked>,
    n: nat,
    worst_first: bool,
)
    requires
        forall|node: Ranked| #[trigger]
            nodes.contains(node) <==> state.nodes(rates).contains(node) && ids.contains(node.1),
        ids.subset_of(state.stats@.dom()),
        is_lead(list, nodes, n, worst_first),
    ensures
        list.len() == if n < ids.len() {
            n
        } else {
            ids.len()
        },
        forall|i: int| 0 <= i < list.len() ==> ids.contains((#[trigger] list[i]).1),
        forall|i: int, j: int|
            0 <= i < j < list.len() ==> if worst_first {
                preferred(state, rates, (#[trigger] list[j]).1, (#[trigger] list[i]).1)
            } else {
                preferred(state, rates, list[i].1, list[j].1)
            },
        forall|i: int, id: NodeId|
            #![trigger list[i], ids.contains(id)]
            0 <= i < list.len() && ids.contains(id) && (forall|k: int| 0 <= k < list.len() ==> (#[trigger] list[k]).1
                != id) ==> if worst_first {
                preferred(state, rates, id, list[i].1)
            } else {
                preferred(state, rates, list[i].1, id)
            },
{
    lemma_ranked_count(state, rates, ids, nodes);
    law_lead_in_order(list, nodes, n, worst_first);
    assert forall|i: int, j: int| 0 <= i < j < list.len() implies if worst_first {
        preferred(state, rates, (#[trigger] list[j]).1, (#[trigger] list[i]).1)
    } else {
        preferred(state, rates, list[i].1, list[j].1)
    } by {
        assert(nodes.contains(list[i]) && nodes.contains(list[j]));
        law_ranked_by_preference(state, rates, list[i], list[j]);
        law_ranked_by_preference(state, rates, list[j], list[i]);
    }
    assert forall|i: int, id: NodeId|
        #![trigger list[i], ids.contains(id)]
        0 <= i < list.len() && ids.contains(id) && (forall|k: int| 0 <= k < list.len() ==> (#[trigger] list[k]).1
            != id) implies if worst_first {
        preferred(state, rates, id, list[i].1)
    } else {
        preferred(state, rates, list[i].1, id)
    } by {
        assert(state.stats@.dom().contains(id));
        let node = lemma_ranked(state, rates, id);
        assert(nodes.contains(node) && nodes.contains(list[i]));
        assert(!list.contains(node));
        law_ranked_by_preference(state, rates, list[i], node);
        law_ranked_by_preference(state, rates, node, list[i]);
    }
}

/// All nodes by quality: as many as asked for, or all that have statistics, each to be
/// preferred to those after it and to those not in the list.
pub proof fn law_all_by_preference(state: Downloader, rates: Map<NodeId, u64>, list: Seq<Ranked>, n: nat)
    requires
        is_lead(list, state.nodes(rates), n, false),
    ensures
        list.len() == if n < state.stats@.dom().len() {
            n
        } else {
            state.stats@.dom().len()
        },
        forall|i: int| 0 <= i < list.len() ==> state.stats@.contains_key((#[trigger] list[i]).1),
        forall|i: int, j: int|
            0 <= i < j < list.len() ==> preferred(state, rates, (#[trigger] list[i]).1, (#[trigger] list[j]).1),
        forall|i: int, id: NodeId|
            #![trigger list[i], state.stats@.contains_key(id)]
            0 <= i < list.len() && state.stats@.contains_key(id) && (forall|k: int|
                0 <= k < list.len() ==> (#[trigger] list[k]).1 != id) ==> preferred(state, rates, list[i].1, id),
{
    let ids = state.stats@.dom();
    lemma_best_list(state, rates, ids, state.nodes(rates), list, n, false);
    assert forall|i: int, id: NodeId|
        #![trigger list[i], state.stats@.contains_key(id)]
        0 <= i < list.len() && state.stats@.contains_key(id) && (forall|k: int|
            0 <= k < list.len() ==> (#[trigger] list[k]).1 != id) implies preferred(state, rates, list[i].1, id) by {
        assert(ids.contains(id));
    }
    assert forall|i: int| 0 <= i < list.len() implies state.stats@.contains_key((#[trigger] list[i]).1) by {
        assert(ids.contains(list[i].1));
    }
}

/// The nodes with statistics that have no current download.
pub open spec fn idle(state: Downloader) -> Set<NodeId> {
    state.stats@.dom().difference(state.current@)
}

/// The nodes with statistics that have a current download.
pub open spec fn at_work(state: Downloader) -> Set<NodeId> {
    state.stats@.dom().intersect(state.current@)
}

/// The free nodes by quality: as many as asked for, or all that have no current download, each
/// to be preferred to those after it and to the free ones not in the list.
pub proof fn law_free_by_preference(state: Downloader, rates: Map<NodeId, u64>, list: Seq<Ranked>, n: nat)
    requires
        is_lead(list, state.free_nodes(rates), n, false),
    ensures
        list.len() == if n < idle(state).len() {
            n
        } else {
            idle(state).len()
        },
        forall|i: int|
            0 <= i < list.len() ==> state.stats@.contains_key((#[trigger] list[i]).1) && !state.current@.contains(
                list[i].1,
            ),
        forall|i: int, j: int|
            0 <= i < j < list.len() ==> preferred(state, rates, (#[trigger] list[i]).1, (#[trigger] list[j]).1),
        forall|i: int, id: NodeId|
            #![trigger list[i], state.stats@.contains_key(id)]
            0 <= i < list.len() && state.stats@.contains_key(id) && !state.current@.contains(id) && (forall|k: int|
                0 <= k < list.len() ==> (#[trigger] list[k]).1 != id) ==> preferred(state, rates, list[i].1, id),
{
    let ids = idle(state);
    lemma_best_list(state, rates, ids, state.free_nodes(rates), list, n, false);
    assert forall|i: int, id: NodeId|
        #![trigger list[i], state.stats@.contains_key(id)]
        0 <= i < list.len() && state.stats@.contains_key(id) && !state.current@.contains(id) && (forall|k: int|
            0 <= k < list.len() ==> (#[trigger] list[k]).1 != id) implies preferred(state, rates, list[i].1, id) by {
        assert(ids.contains(id));
    }
    assert forall|i: int| 0 <= i < list.len() implies state.stats@.contains_key((#[trigger] list[i]).1)
        && !state.current@.contains(list[i].1) by {
        assert(ids.contains(list[i].1));
    }
}

/// The busy nodes, the worst first: as many as asked for, or all that have a current download;
/// those after a node, and the busy ones not in the list, are to be preferred to it.
pub proof fn law_busy_by_preference(state: Downloader, rates: Map<NodeId, u64>, list: Seq<Ranked>, n: nat)
    requires
        is_lead(list, state.busy_nodes(rates), n, true),
    ensures
        list.len() == if n < at_work(state).len() {
            n
        } else {
            at_work(state).len()
        },
        forall|i: int|
            0 <= i < list.len() ==> state.stats@.contains_key((#[trigger] list[i]).1) && state.current@.contains(
                list[i].1,
            ),
        forall|i: int, j: int|
            0 <= i < j < list.len() ==> preferred(state, rates, (#[trigger] list[j]).1, (#[trigger] list[i]).1),
        forall|i: int, id: NodeId|
            #![trigger list[i], state.stats@.contains_key(id)]
            0 <= i < list.len() && state.stats@.contains_key(id) && state.current@.contains(id) && (forall|k: int|
                0 <= k < list.len() ==> (#[trigger] list[k]).1 != id) ==> preferred(state, rates, id, list[i].1),
{
    let ids = at_work(state);
    lemma_best_list(state, rates, ids, state.busy_nodes(rates), list, n, true);
    assert forall|i: int, id: NodeId|
        #![trigger list[i], state.stats@.contains_key(id)]
        0 <= i < list.len() && state.stats@.contains_key(id) && state.current@.contains(id) && (forall|k: int|
            0 <= k < list.len() ==> (#[trigger] list[k]).1 != id) implies preferred(state, rates, id, list[i].1) by {
        assert(ids.contains(id));
    }
    assert forall|i: int| 0 <= i < list.len() implies state.stats@.contains_key((#[trigger] list[i]).1)
        && state.current@.contains(list[i].1) by {
        assert(ids.contains(list[i].1));
    }
}

/// Before the first download every byte is zero, a chunk is missing and unclaimed where it
/// begins inside the blob, no node is busy, and of each node there is the latency it gave and
/// nothing else.
pub proof fn law_fresh(
    state: Downloader,
    target: Target,
    hashes: Map<NodeId, BlobHash>,
    size: int,
    latency: Map<NodeId, u128>,
    block_size: u64,
    parallelism: usize,
)
    requires
        0 <= size <= u64::MAX,
        state.fresh(target, hashes, size, latency, block_size, parallelism),
    ensures
        target.data@.len() == size,
        forall|i: int| 0 <= i < size ==> #[trigger] target.data@[i] == 0,
        forall|c: u64| #[trigger] target.missing@.contains(c) <==> 1024 * c < size,
        forall|c: u64| #[trigger] state.unclaimed@.contains(c) <==> 1024 * c < size,
        state.tasks@.len() == 0,
        forall|id: NodeId| !state.current@.contains(id),
        state.hashes@ == hashes,
        forall|id: NodeId| #[trigger] state.stats@.contains_key(id) <==> latency.contains_key(id),
        forall|id: NodeId| #[trigger]
            latency.contains_key(id) ==> {
                let stat = state.stats@[id];
                &&& stat.latency == latency[id]
                &&& stat.errors == 0
                &&& stat.time == 0
                &&& stat.start is None
                &&& forall|c: u64| !stat.ranges@.contains(c)
            },
        state.block_size == block_size,
        state.parallelism == parallelism,
{
    assert forall|c: u64| #[trigger] chunks_of_bytes(0, size as u64).contains(c) <==> 1024 * c < size by {
        law_chunks_of_bytes(0, size as u64, c);
    }
    assert forall|id: NodeId| #[trigger] state.stats@.contains_key(id) <==> latency.contains_key(id) by {
        assert(state.stats@.dom().contains(id) == latency.dom().contains(id));
    }
}

/// What the answers of the nodes settle: there is something to download if and only if some
/// node could be reached, all that could be gave the same size, and that fits into memory. The
/// target then has that size, there are statistics for exactly the nodes that could be
/// reached, with their latencies, and the hashes and the configuration are as given.
pub proof fn law_prepared(
    hashes: Map<NodeId, BlobHash>,
    replies: Seq<Reply>,
    config: Config,
    res: Result<(Downloader, Target), SyncError>,
)
    requires
        prepared(hashes, replies, config, res),
    ensures
        res is Ok <==> {
            &&& exists|i: int| 0 <= i < replies.len() && (#[trigger] replies[i]).1 is Some
            &&& forall|i: int, j: int|
                0 <= i < replies.len() && 0 <= j < replies.len() && (#[trigger] replies[i]).1 is Some && (
                #[trigger] replies[j]).1 is Some ==> (replies[i].1->0).1 == (replies[j].1->0).1
            &&& forall|i: int|
                0 <= i < replies.len() && (#[trigger] replies[i]).1 is Some ==> (replies[i].1->0).1 <= usize::MAX
        },
        res is Err && res->Err_0 is NoValidNodes <==> forall|i: int|
            0 <= i < replies.len() ==> (#[trigger] replies[i]).1 is None,
        res is Err && res->Err_0 is SizeMismatch <==> exists|i: int, j: int|
            0 <= i < replies.len() && 0 <= j < replies.len() && (#[trigger] replies[i]).1 is Some && (
            #[trigger] replies[j]).1 is Some && (replies[i].1->0).1 != (replies[j].1->0).1,
        res matches Ok((downloader, target)) ==> {
            &&& forall|i: int|
                0 <= i < replies.len() && (#[trigger] replies[i]).1 is Some ==> target.data@.len() == (
                replies[i].1->0).1
            &&& forall|c: u64| #[trigger] target.missing@.contains(c) <==> 1024 * c < target.data@.len()
            &&& forall|c: u64| #[trigger] downloader.unclaimed@.contains(c) <==> 1024 * c < target.data@.len()
            &&& forall|id: NodeId| #[trigger]
                downloader.stats@.contains_key(id) <==> exists|i: int|
                    0 <= i < replies.len() && (#[trigger] replies[i]).0 == id && replies[i].1 is Some
            &&& forall|i: int|
                0 <= i < replies.len() && (#[trigger] replies[i]).1 is Some && (forall|k: int|
                    i < k < replies.len() && (#[trigger] replies[k]).1 is Some ==> replies[k].0 != replies[i].0)
                    ==> downloader.stats@[replies[i].0].latency == (replies[i].1->0).0
            &&& downloader.hashes@ == hashes
            &&& downloader.block_size == config.block_size
            &&& downloader.parallelism == config.parallelism
        },
{
    match res {
        Ok((downloader, target)) => {
            let size = sizes_given(replies)[0];
            law_size_agreed(replies, Ok(size));
            assert(is_ok_with(Ok(size), size));
            law_fresh(
                downloader,
                target,
                hashes,
                size as int,
                latencies_given(replies),
                config.block_size,
                config.parallelism,
            );
            assert forall|id: NodeId| #[trigger] downloader.stats@.contains_key(id) <==> exists|i: int|
                0 <= i < replies.len() && (#[trigger] replies[i]).0 == id && replies[i].1 is Some by {
                law_unreachable_left_out(replies, id);
            }
            assert forall|i: int|
                0 <= i < replies.len() && (#[trigger] replies[i]).1 is Some && (forall|k: int|
                    i < k < replies.len() && (#[trigger] replies[k]).1 is Some ==> replies[k].0 != replies[i].0)
                implies downloader.stats@[replies[i].0].latency == (replies[i].1->0).0 by {
                law_latency_given(replies, i);
            }
        },
        Err(SyncError::SizeTooLarge { size }) => {
            law_size_agreed(replies, Ok(size));
            assert(is_ok_with(Ok(size), size));
        },
        Err(e) => {
            law_size_agreed(replies, Err(e));
        },
    }
}

/// A download that begins takes its chunks out of the unclaimed ones, makes its node busy and
/// no other, notes its begin with the node and changes nothing else of any node, and is the
/// last in the list, after all that were in it.
pub proof fn law_spawn_effect(before: Downloader, after: Downloader, download: Download, now: u128)
    requires
        before.spawned(after, download, now),
    ensures
        download.hash == before.hashes@[download.id],
        forall|c: u64| #[trigger]
            after.unclaimed@.contains(c) <==> before.unclaimed@.contains(c) && !download.ranges@.contains(c),
        forall|id: NodeId| #[trigger]
            after.current@.contains(id) <==> before.current@.contains(id) || id == download.id,
        forall|id: NodeId| #[trigger]
            after.stats@.contains_key(id) <==> before.stats@.contains_key(id) || id == download.id,
        forall|id: NodeId| #[trigger]
            before.stats@.contains_key(id) && id != download.id ==> after.stats@[id] == before.stats@[id],
        after.stats@[download.id].start == Some(now),
        before.stats@.contains_key(download.id) ==> {
            let a = before.stats@[download.id];
            let b = after.stats@[download.id];
            a.errors == b.errors && a.time == b.time && a.latency == b.latency && a.ranges@ == b.ranges@
        },
        !before.stats@.contains_key(download.id) ==> {
            let b = after.stats@[download.id];
            b.errors == 0 && b.time == 0 && b.latency == 0 && forall|c: u64| !b.ranges@.contains(c)
        },
        after.tasks@.len() == before.tasks@.len() + 1,
        forall|i: int|
            0 <= i < before.tasks@.len() ==> (#[trigger] after.tasks@[i]).id == before.tasks@[i].id
                && after.tasks@[i].ranges@ == before.tasks@[i].ranges@,
        after.tasks@[before.tasks@.len() as int].id == download.id,
        after.tasks@[before.tasks@.len() as int].ranges@ == download.ranges@,
        after.hashes@ == before.hashes@,
        after.block_size == before.block_size,
        after.parallelism == before.parallelism,
{
    lemma_spawned_tasks(before, after, download, now);
}

/// A download that ends frees its node, and no other node becomes busy or free by it. Chunks
/// that it was to bring and that are still missing can be claimed again, unless it is done;
/// those that it brought count for its node. Its errors go up by one where it failed, and its
/// time by what has passed since the begin; nothing else changes of any node.
pub proof fn law_end_effect(
    before: Downloader,
    after: Downloader,
    id: NodeId,
    chunks: Set<u64>,
    result: TaskResult,
    missing: Set<u64>,
    now: u128,
)
    requires
        before.settled(after, id, chunks, result, missing, now),
        before.has_begun(id),
    ensures
        forall|c: u64| #[trigger]
            after.unclaimed@.contains(c) <==> before.unclaimed@.contains(c) || (result !is Done && chunks.contains(c)
                && missing.contains(c)),
        !after.current@.contains(id),
        forall|other: NodeId| other != id ==> (#[trigger] after.current@.contains(other) <==> before.current@.contains(
            other,
        )),
        forall|other: NodeId| #[trigger] after.stats@.contains_key(other) <==> before.stats@.contains_key(other),
        forall|other: NodeId| #[trigger]
            before.stats@.contains_key(other) && other != id ==> after.stats@[other] == before.stats@[other],
        forall|c: u64| #[trigger]
            after.stats@[id].ranges@.contains(c) <==> before.stats@[id].ranges@.contains(c) || (chunks.contains(c) && (
            result is Done || !missing.contains(c))),
        result is Failed ==> after.stats@[id].errors == before.stats@[id].errors + 1,
        result !is Failed ==> after.stats@[id].errors == before.stats@[id].errors,
        ({
            let start = before.stats@[id].start->0;
            let passed = after.stats@[id].time - before.stats@[id].time;
            &&& start <= now ==> passed == now - start
            &&& now < start ==> passed == 0
            &&& after.stats@[id].time >= before.stats@[id].time
        }),
        after.stats@[id].start == before.stats@[id].start,
        after.stats@[id].latency == before.stats@[id].latency,
        after.hashes@ == before.hashes@,
        after.block_size == before.block_size,
        after.parallelism == before.parallelism,
{
}

/// A download that ends leaves the list, where it was in it, and the others stay in it as they
/// were. One that was not in the list changes nothing of it.
pub proof fn law_end_list(
    before: Downloader,
    after: Downloader,
    id: NodeId,
    chunks: Set<u64>,
    result: TaskResult,
    missing: Set<u64>,
    now: u128,
)
    requires
        before.settled(after, id, chunks, result, missing, now),
    ensures
        (exists|i: int| 0 <= i < before.tasks@.len() && (#[trigger] before.tasks@[i]).id == id && before.tasks@[i].ranges@
            == chunks) ==> exists|at: int|
            {
                &&& 0 <= at < before.tasks@.len()
                &&& (#[trigger] before.tasks@[at]).id == id
                &&& before.tasks@[at].ranges@ == chunks
                &&& after.tasks@.len() == before.tasks@.len() - 1
                &&& forall|i: int|
                    0 <= i < after.tasks@.len() ==> {
                        let k = if i < at {
                            i
                        } else {
                            i + 1
                        };
                        (#[trigger] after.tasks@[i]).id == before.tasks@[k].id && after.tasks@[i].ranges@
                            == before.tasks@[k].ranges@
                    }
            },
        !(exists|i: int| 0 <= i < before.tasks@.len() && (#[trigger] before.tasks@[i]).id == id
            && before.tasks@[i].ranges@ == chunks) ==> {
            &&& after.tasks@.len() == before.tasks@.len()
            &&& forall|i: int|
                0 <= i < after.tasks@.len() ==> (#[trigger] after.tasks@[i]).id == before.tasks@[i].id
                    && after.tasks@[i].ranges@ == before.tasks@[i].ranges@
        },
{
    let list = task_list(before.tasks@);
    assert forall|i: int| 0 <= i < before.tasks@.len() implies list[i] == (
        (#[trigger] before.tasks@[i]).id,
        before.tasks@[i].ranges@,
    ) by {}
    if exists|i: int| 0 <= i < before.tasks@.len() && (#[trigger] before.tasks@[i]).id == id && before.tasks@[i].ranges@
        == chunks {
        let i = choose|i: int|
            0 <= i < before.tasks@.len() && (#[trigger] before.tasks@[i]).id == id && before.tasks@[i].ranges@ == chunks;
        assert(list[i] == (id, chunks));
        assert(list.contains((id, chunks)));
        let at = lemma_settled_tasks(before, after, id, chunks, result, missing, now);
        assert(before.tasks@[at].id == id);
    } else {
        if list.contains((id, chunks)) {
            let i = list.index_of((id, chunks));
            assert(before.tasks@[i].id == id && before.tasks@[i].ranges@ == chunks);
        }
        list.index_of_first_ensures((id, chunks));
        let now_list = task_list(after.tasks@);
        assert(now_list == list);
        assert(now_list.len() == after.tasks@.len());
        assert forall|i: int| 0 <= i < after.tasks@.len() implies (#[trigger] after.tasks@[i]).id == before.tasks@[i].id
            && after.tasks@[i].ranges@ == before.tasks@[i].ranges@ by {
            assert(now_list[i] == (after.tasks@[i].id, after.tasks@[i].ranges@));
            assert(list[i] == (before.tasks@[i].id, before.tasks@[i].ranges@));
        }
    }
}

/// What is done next: while there is a chunk to claim, a download begins if there is a free
/// node; else, with a busy node, there must be a free one to compare it with. Without a free
/// node where one is needed there is an error, and nothing changes.
pub proof fn law_next_kind(
    before: Downloader,
    after: Downloader,
    rates: Map<NodeId, u64>,
    now: u128,
    res: Result<Action, NoFreeNodes>,
)
    requires
        before.next(after, rates, now, res),
    ensures
        ({
            let chunk = before.block_size > 0 && exists|c: u64| before.unclaimed@.contains(c);
            let free = exists|id: NodeId| #[trigger] before.stats@.contains_key(id) && !before.current@.contains(id);
            let busy = exists|id: NodeId| #[trigger] before.stats@.contains_key(id) && before.current@.contains(id);
            &&& res is Err <==> !free && (chunk || busy)
            &&& (res is Ok && res->Ok_0 is Spawn) <==> chunk && free
            &&& (res is Ok && res->Ok_0 is Kill) ==> !chunk && busy && free
            &&& !chunk && !busy ==> res is Ok && res->Ok_0 is Wait
            &&& (res is Err || res->Ok_0 is Wait) ==> after == before
        }),
{
    let free = before.free_nodes(rates);
    let busy = before.busy_nodes(rates);
    assert(before.unclaimed@ == Set::<u64>::empty() <==> forall|c: u64| !before.unclaimed@.contains(c)) by {
        if forall|c: u64| !before.unclaimed@.contains(c) {
            assert(before.unclaimed@ =~= Set::<u64>::empty());
        }
    }
    if forall|id: NodeId| #[trigger] before.stats@.contains_key(id) ==> before.current@.contains(id) {
        assert(free =~= Set::<Ranked>::empty());
    } else {
        let id = choose|id: NodeId| #[trigger] before.stats@.contains_key(id) && !before.current@.contains(id);
        let node = lemma_ranked(before, rates, id);
        assert(free.contains(node));
    }
    if forall|id: NodeId| #[trigger] before.stats@.contains_key(id) ==> !before.current@.contains(id) {
        assert(busy =~= Set::<Ranked>::empty());
    } else {
        let id = choose|id: NodeId| #[trigger] before.stats@.contains_key(id) && before.current@.contains(id);
        let node = lemma_ranked(before, rates, id);
        assert(busy.contains(node));
    }
}

/// A download that is begun next is from a free node that is to be preferred to all other free
/// ones; it has a whole block of chunks, or all that are left, and the lowest of them; and it
/// begins now.
pub proof fn law_next_spawn(
    before: Downloader,
    after: Downloader,
    rates: Map<NodeId, u64>,
    now: u128,
    download: Download,
)
    requires
        before.next(after, rates, now, Ok(Action::Spawn(download))),
    ensures
        before.stats@.contains_key(download.id),
        !before.current@.contains(download.id),
        forall|id: NodeId| #[trigger]
            before.stats@.contains_key(id) && !before.current@.contains(id) && id != download.id ==> preferred(
                before,
                rates,
                download.id,
                id,
            ),
        download.ranges@.len() == if before.block_size < before.unclaimed@.len() {
            before.block_size as nat
        } else {
            before.unclaimed@.len()
        },
        forall|c: u64| #[trigger] download.ranges@.contains(c) ==> before.unclaimed@.contains(c),
        forall|c: u64, d: u64|
            #![trigger download.ranges@.contains(c), after.unclaimed@.contains(d)]
            download.ranges@.contains(c) && after.unclaimed@.contains(d) ==> c < d,
        download.hash == before.hashes@[download.id],
        after.stats@[download.id].start == Some(now),
        before.spawned(after, download, now),
{
    let free = before.free_nodes(rates);
    let best = first_of(free, false);
    assert(free.contains(best));
    law_claim_lowest(download.ranges@, before.unclaimed@, before.block_size);
    assert forall|id: NodeId| #[trigger]
        before.stats@.contains_key(id) && !before.current@.contains(id) && id != download.id implies preferred(
        before,
        rates,
        download.id,
        id,
    ) by {
        let node = lemma_ranked(before, rates, id);
        assert(free.contains(node));
        law_ranked_by_preference(before, rates, best, node);
    }
    assert forall|c: u64| #[trigger] download.ranges@.contains(c) implies before.unclaimed@.contains(c) by {}
    assert forall|c: u64, d: u64|
        #![trigger download.ranges@.contains(c), after.unclaimed@.contains(d)]
        download.ranges@.contains(c) && after.unclaimed@.contains(d) implies c < d by {
        assert(before.unclaimed@.contains(d));
    }
}

/// With nothing to claim, the worst busy node is killed for the best free one if and only if
/// it has at least as many errors, the free one has a rate, and four times its own rate, if it
/// has one, is still less. A kill takes the node out of the busy ones and changes nothing else;
/// otherwise nothing changes.
pub proof fn law_next_kill(
    before: Downloader,
    after: Downloader,
    rates: Map<NodeId, u64>,
    now: u128,
    res: Result<Action, NoFreeNodes>,
    worst: NodeId,
    best: NodeId,
)
    requires
        before.next(after, rates, now, res),
        before.block_size == 0 || forall|c: u64| !before.unclaimed@.contains(c),
        before.stats@.contains_key(worst) && before.current@.contains(worst),
        forall|id: NodeId| #[trigger]
            before.stats@.contains_key(id) && before.current@.contains(id) && id != worst ==> preferred(
                before,
                rates,
                id,
                worst,
            ),
        before.stats@.contains_key(best) && !before.current@.contains(best),
        forall|id: NodeId| #[trigger]
            before.stats@.contains_key(id) && !before.current@.contains(id) && id != best ==> preferred(
                before,
                rates,
                best,
                id,
            ),
    ensures
        ({
            let kill = {
                &&& before.stats@[worst].errors >= before.stats@[best].errors
                &&& measured(before, rates, best)
                &&& measured(before, rates, worst) ==> 4 * rates[worst] < rates[best]
            };
            &&& kill ==> res == Ok::<Action, NoFreeNodes>(Action::Kill(worst))
            &&& !kill ==> res == Ok::<Action, NoFreeNodes>(Action::Wait)
            &&& forall|id: NodeId| #[trigger]
                after.current@.contains(id) <==> before.current@.contains(id) && !(kill && id == worst)
            &&& after.unclaimed == before.unclaimed
            &&& after.tasks == before.tasks
            &&& after.stats == before.stats
            &&& after.hashes == before.hashes
            &&& after.block_size == before.block_size
            &&& after.parallelism == before.parallelism
        }),
{
    let free = before.free_nodes(rates);
    let busy = before.busy_nodes(rates);
    let w = lemma_ranked(before, rates, worst);
    let b = lemma_ranked(before, rates, best);
    law_nodes(before, rates, w);
    law_nodes(before, rates, b);
    assert(busy.contains(w));
    assert(free.contains(b));
    assert(before.unclaimed@ == Set::<u64>::empty() || before.block_size == 0) by {
        if before.block_size > 0 {
            assert(before.unclaimed@ =~= Set::<u64>::empty());
        }
    }
    assert(is_first(w, busy, true)) by {
        assert forall|other: Ranked| #[trigger] busy.contains(other) && other != w implies ranks_before(other, w) by {
            assert(before.nodes(rates).contains(other));
            assert(before.stats@.contains_key(other.1));
            law_ranked_by_preference(before, rates, other, w);
        }
    }
    assert(is_first(b, free, false)) by {
        assert forall|other: Ranked| #[trigger] free.contains(other) && other != b implies ranks_before(b, other) by {
            assert(before.nodes(rates).contains(other));
            assert(before.stats@.contains_key(other.1));
            law_ranked_by_preference(before, rates, b, other);
        }
    }
    law_first_unique(w, first_of(busy, true), busy, true);
    law_first_unique(b, first_of(free, false), free, false);
}

/// The first downloads are from free nodes, each to be preferred to the next and to the free
/// ones without a download; there are as many as allowed, or as free nodes, unless nothing is
/// left to claim before.
pub proof fn law_start_nodes(
    before: Downloader,
    after: Downloader,
    rates: Map<NodeId, u64>,
    now: u128,
    downloads: Seq<Download>,
)
    requires
        before.started(after, rates, now, downloads),
    ensures
        downloads.len() <= before.parallelism,
        downloads.len() <= idle(before).len(),
        downloads.len() < before.parallelism && downloads.len() < idle(before).len() ==> before.block_size == 0 || forall|
            c: u64,
        | !after.unclaimed@.contains(c),
        forall|i: int|
            0 <= i < downloads.len() ==> before.stats@.contains_key((#[trigger] downloads[i]).id)
                && !before.current@.contains(downloads[i].id),
        forall|i: int, j: int|
            0 <= i < j < downloads.len() ==> preferred(
                before,
                rates,
                (#[trigger] downloads[i]).id,
                (#[trigger] downloads[j]).id,
            ) && downloads[i].id != downloads[j].id,
        forall|i: int, id: NodeId|
            #![trigger downloads[i], before.stats@.contains_key(id)]
            0 <= i < downloads.len() && before.stats@.contains_key(id) && !before.current@.contains(id) && (forall|
                k: int,
            |
                0 <= k < downloads.len() ==> (#[trigger] downloads[k]).id != id) ==> preferred(
                before,
                rates,
                downloads[i].id,
                id,
            ),
{
    let free = before.free_nodes(rates);
    let nodes = lead_of(free, before.parallelism as nat, false);
    law_free_by_preference(before, rates, nodes, before.parallelism as nat);
    assert forall|i: int| 0 <= i < downloads.len() implies before.stats@.contains_key((#[trigger] downloads[i]).id)
        && !before.current@.contains(downloads[i].id) by {
        assert(before.stats@.contains_key(nodes[i].1));
    }
    assert forall|i: int, j: int| 0 <= i < j < downloads.len() implies preferred(
        before,
        rates,
        (#[trigger] downloads[i]).id,
        (#[trigger] downloads[j]).id,
    ) && downloads[i].id != downloads[j].id by {
        assert(preferred(before, rates, nodes[i].1, nodes[j].1));
    }
    assert forall|i: int, id: NodeId|
        #![trigger downloads[i], before.stats@.contains_key(id)]
        0 <= i < downloads.len() && before.stats@.contains_key(id) && !before.current@.contains(id) && (forall|k: int|
            0 <= k < downloads.len() ==> (#[trigger] downloads[k]).id != id) implies preferred(
        before,
        rates,
        downloads[i].id,
        id,
    ) by {
        if exists|k: int| 0 <= k < nodes.len() && (#[trigger] nodes[k]).1 == id {
            let k = choose|k: int| 0 <= k < nodes.len() && (#[trigger] nodes[k]).1 == id;
            if k < downloads.len() {
                assert(downloads[k].id == id);
            }
            assert(preferred(before, rates, nodes[i].1, nodes[k].1));
        } else {
            assert(nodes[i].1 == downloads[i].id);
        }
    }
}

/// The first downloads have unclaimed chunks: each a whole block, but for the last, which has
/// what is left where that is less; the lower chunks go to the earlier downloads, and what is
/// in none of them stays unclaimed.
pub proof fn law_start_chunks(
    before: Downloader,
    after: Downloader,
    rates: Map<NodeId, u64>,
    now: u128,
    downloads: Seq<Download>,
)
    requires
        before.started(after, rates, now, downloads),
    ensures
        forall|i: int|
            0 <= i < downloads.len() ==> {
                &&& 1 <= (#[trigger] downloads[i]).ranges@.len() <= before.block_size
                &&& i + 1 < downloads.len() ==> downloads[i].ranges@.len() == before.block_size
                &&& (exists|c: u64| after.unclaimed@.contains(c)) ==> downloads[i].ranges@.len() == before.block_size
                &&& downloads[i].hash == before.hashes@[downloads[i].id]
            },
        forall|i: int, c: u64|
            #![trigger downloads[i].ranges@.contains(c)]
            0 <= i < downloads.len() && downloads[i].ranges@.contains(c) ==> before.unclaimed@.contains(c)
                && !after.unclaimed@.contains(c),
        forall|c: u64| #[trigger]
            before.unclaimed@.contains(c) ==> after.unclaimed@.contains(c) || exists|i: int|
                0 <= i < downloads.len() && (#[trigger] downloads[i]).ranges@.contains(c),
        forall|c: u64| #[trigger] after.unclaimed@.contains(c) ==> before.unclaimed@.contains(c),
        forall|i: int, j: int, c: u64, d: u64|
            #![trigger downloads[i].ranges@.contains(c), downloads[j].ranges@.contains(d)]
            0 <= i < j < downloads.len() && downloads[i].ranges@.contains(c) && downloads[j].ranges@.contains(d) ==> c
                < d,
        forall|i: int, c: u64, d: u64|
            #![trigger downloads[i].ranges@.contains(c), after.unclaimed@.contains(d)]
            0 <= i < downloads.len() && downloads[i].ranges@.contains(c) && after.unclaimed@.contains(d) ==> c < d,
{
    let n = downloads.len() as int;
    let all = before.unclaimed@;
    lemma_left(all, downloads, 0, n);
    assert forall|c: u64| #[trigger] all.contains(c) implies after.unclaimed@.contains(c) || exists|i: int|
        0 <= i < n && (#[trigger] downloads[i]).ranges@.contains(c) by {
        assert(left(all, downloads, 0).contains(c));
    }
    assert forall|i: int, j: int, c: u64, d: u64|
        #![trigger downloads[i].ranges@.contains(c), left(all, downloads, j).contains(d)]
        0 <= i < j <= n && downloads[i].ranges@.contains(c) && left(all, downloads, j).contains(d) implies c < d
        && all.contains(c) && !left(all, downloads, j).contains(c) by {
        lemma_left(all, downloads, 0, i);
        lemma_left(all, downloads, i + 1, j);
        law_claim_lowest(downloads[i].ranges@, left(all, downloads, i), before.block_size);
        assert(left(all, downloads, i + 1).contains(d));
        assert(left(all, downloads, i).contains(d));
    }
    assert forall|i: int, c: u64|
        #![trigger downloads[i].ranges@.contains(c)]
        0 <= i < n && downloads[i].ranges@.contains(c) implies all.contains(c) && !after.unclaimed@.contains(c) by {
        lemma_left(all, downloads, 0, i);
        lemma_left(all, downloads, i + 1, n);
        law_claim_lowest(downloads[i].ranges@, left(all, downloads, i), before.block_size);
        assert(left(all, downloads, i).contains(c));
        assert(!left(all, downloads, i + 1).contains(c));
    }
    assert forall|i: int| 0 <= i < n implies {
        &&& 1 <= (#[trigger] downloads[i]).ranges@.len() <= before.block_size
        &&& i + 1 < n ==> downloads[i].ranges@.len() == before.block_size
        &&& (exists|c: u64| after.unclaimed@.contains(c)) ==> downloads[i].ranges@.len() == before.block_size
    } by {
        let part = downloads[i].ranges@;
        let there = left(all, downloads, i);
        lemma_chunks_finite(part);
        if part.len() == 0 {
            part.lemma_len0_is_empty();
        }
        if part.len() != before.block_size {
            assert(part == there);
            assert(left(all, downloads, i + 1) =~= Set::<u64>::empty());
            lemma_left(all, downloads, i + 1, n);
            if i + 1 < n {
                law_claim_empty(downloads[i + 1].ranges@, left(all, downloads, i + 1), before.block_size);
            }
        }
    }
    assert forall|i: int, j: int, c: u64, d: u64|
        #![trigger downloads[i].ranges@.contains(c), downloads[j].ranges@.contains(d)]
        0 <= i < j < n && downloads[i].ranges@.contains(c) && downloads[j].ranges@.contains(d) implies c < d by {
        assert(left(all, downloads, j).contains(d));
    }
    assert forall|i: int, c: u64, d: u64|
        #![trigger downloads[i].ranges@.contains(c), after.unclaimed@.contains(d)]
        0 <= i < n && downloads[i].ranges@.contains(c) && after.unclaimed@.contains(d) implies c < d by {
        assert(left(all, downloads, n).contains(d));
    }
}

/// The first downloads make their nodes busy and no other, and note their begin with them;
/// nothing else changes of any node. They are in the list after all that were in it.
pub proof fn law_start_effect(
    before: Downloader,
    after: Downloader,
    rates: Map<NodeId, u64>,
    now: u128,
    downloads: Seq<Download>,
)
    requires
        before.started(after, rates, now, downloads),
    ensures
        forall|id: NodeId| #[trigger]
            after.current@.contains(id) <==> before.current@.contains(id) || exists|i: int|
                0 <= i < downloads.len() && (#[trigger] downloads[i]).id == id,
        forall|id: NodeId| #[trigger] after.stats@.contains_key(id) <==> before.stats@.contains_key(id),
        forall|id: NodeId| #[trigger]
            before.stats@.contains_key(id) ==> {
                let a = before.stats@[id];
                let b = after.stats@[id];
                &&& a.errors == b.errors && a.time == b.time && a.latency == b.latency && a.ranges@ == b.ranges@
                &&& (exists|i: int| 0 <= i < downloads.len() && (#[trigger] downloads[i]).id == id) ==> b.start == Some(
                    now,
                )
                &&& !(exists|i: int| 0 <= i < downloads.len() && (#[trigger] downloads[i]).id == id) ==> b.start
                    == a.start
            },
        after.tasks@.len() == before.tasks@.len() + downloads.len(),
        forall|i: int|
            0 <= i < before.tasks@.len() ==> (#[trigger] after.tasks@[i]).id == before.tasks@[i].id
                && after.tasks@[i].ranges@ == before.tasks@[i].ranges@,
        forall|i: int|
            before.tasks@.len() <= i < after.tasks@.len() ==> (#[trigger] after.tasks@[i]).id == downloads[i
                - before.tasks@.len()].id && after.tasks@[i].ranges@ == downloads[i - before.tasks@.len()].ranges@,
        after.hashes@ == before.hashes@,
        after.block_size == before.block_size,
        after.parallelism == before.parallelism,
{
    lemma_started_tasks(before, after, downloads, now);
    assert forall|id: NodeId| #[trigger] after.stats@.contains_key(id) <==> before.stats@.contains_key(id) by {
        assert(after.stats@.dom().contains(id) == before.stats@.dom().contains(id));
    }
    assert forall|id: NodeId| #[trigger] downloads_from(downloads, id) <==> exists|i: int|
        0 <= i < downloads.len() && (#[trigger] downloads[i]).id == id by {}
}

} // verus!
