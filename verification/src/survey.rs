//! What is settled before the first download: which hash to ask each node for, and what
//! size the blob has.
use std::collections::HashMap;

use vstd::prelude::*;

use crate::quality::NodeId;

verus! {

broadcast use vstd::std_specs::hash::group_hash_axioms;

pub struct Config {
    /// Block size in BLAKE3 chunks
    pub block_size: u64,
    /// Parallelism level for the sync algorithm
    pub parallelism: usize,
}

/// A BLAKE3 hash.
pub type BlobHash = [u8; 32];

/// What a node answered: its latency in nanoseconds and the size of its blob, or nothing
/// where it could not be reached.
pub type Reply = (NodeId, Option<(u128, u64)>);

/// Why there is nothing to download.
#[derive(Debug)]
pub enum SyncError {
    /// No node could be reached.
    NoValidNodes,
    /// The nodes do not agree on the size; these are the sizes that they gave.
    SizeMismatch { sizes: Vec<u64> },
    /// The blob does not fit into the address space.
    SizeTooLarge { size: u64 },
}

/// For each node the last hash that the list gives for it.
pub open spec fn last_hashes(blobs: Seq<(NodeId, BlobHash)>) -> Map<NodeId, BlobHash>
    decreases blobs.len(),
{
    if blobs.len() == 0 {
        Map::empty()
    } else {
        last_hashes(blobs.drop_last()).insert(blobs.last().0, blobs.last().1)
    }
}

/// The sizes given by the nodes that could be reached, in the order of the list.
pub open spec fn sizes_given(replies: Seq<Reply>) -> Seq<u64>
    decreases replies.len(),
{
    if replies.len() == 0 {
        Seq::empty()
    } else {
        match replies.last().1 {
            Some((_, size)) => sizes_given(replies.drop_last()).push(size),
            None => sizes_given(replies.drop_last()),
        }
    }
}

/// The latencies of the nodes that could be reached.
pub open spec fn latencies_given(replies: Seq<Reply>) -> Map<NodeId, u128>
    decreases replies.len(),
{
    if replies.len() == 0 {
        Map::empty()
    } else {
        match replies.last().1 {
            Some((latency, _)) => latencies_given(replies.drop_last()).insert(replies.last().0, latency),
            None => latencies_given(replies.drop_last()),
        }
    }
}

/// What comes of the sizes: the one that all agree on; without any size, and where two are
/// different, an error.
pub open spec fn size_settled(sizes: Seq<u64>, res: Result<u64, SyncError>) -> bool {
    match res {
        Ok(size) => {
            &&& sizes.len() > 0
            &&& forall|i: int| 0 <= i < sizes.len() ==> #[trigger] sizes[i] == size
        },
        Err(SyncError::NoValidNodes) => sizes.len() == 0,
        Err(SyncError::SizeMismatch { sizes: given }) => {
            &&& given@ == sizes
            &&& exists|i: int| 0 <= i < sizes.len() && #[trigger] sizes[i] != sizes[0]
        },
        Err(SyncError::SizeTooLarge { .. }) => false,
    }
}

/// Which hash to ask each node for.
///
/// If there are multiple hashes for one node, the last one is taken.
pub fn choose_hashes(blobs: &Vec<(NodeId, BlobHash)>) -> (res: HashMap<NodeId, BlobHash>)
    ensures
        res@ == last_hashes(blobs@),
        forall|i: int|
            0 <= i < blobs@.len() && (forall|k: int| i < k < blobs@.len() ==> (#[trigger] blobs@[k]).0 != blobs@[i].0)
                ==> res@.contains_key((#[trigger] blobs@[i]).0) && res@[blobs@[i].0] == blobs@[i].1,
{
    let mut res: HashMap<NodeId, BlobHash> = HashMap::new();
    for i in 0..blobs.len()
        invariant
            res@ == last_hashes(blobs@.take(i as int)),
    {
        let blob = blobs[i];
        res.insert(blob.0, blob.1);
        assert(blobs@.take(i + 1).drop_last() =~= blobs@.take(i as int));
    }
    assert(blobs@.take(blobs@.len() as int) =~= blobs@);
    assert forall|i: int|
        0 <= i < blobs@.len() && (forall|k: int| i < k < blobs@.len() ==> (#[trigger] blobs@[k]).0 != blobs@[i].0)
        implies res@.contains_key((#[trigger] blobs@[i]).0) && res@[blobs@[i].0] == blobs@[i].1 by {
        law_last_hash_wins(blobs@, i);
    }
    res
}

/// The size of the blob: the one that all the nodes give that could be reached.
pub fn agree_on_size(replies: &Vec<Reply>) -> (res: Result<u64, SyncError>)
    ensures
        size_settled(sizes_given(replies@), res),
        res matches Ok(size) ==> {
            &&& exists|i: int| 0 <= i < replies@.len() && (#[trigger] replies@[i]).1 is Some
            &&& forall|i: int|
                0 <= i < replies@.len() && (#[trigger] replies@[i]).1 is Some ==> (replies@[i].1->0).1 == size
        },
        res matches Err(SyncError::SizeMismatch { .. }) ==> exists|i: int, j: int|
            0 <= i < replies@.len() && 0 <= j < replies@.len() && (#[trigger] replies@[i]).1 is Some && (
            #[trigger] replies@[j]).1 is Some && (replies@[i].1->0).1 != (replies@[j].1->0).1,
        res is Err && res->Err_0 is NoValidNodes <==> forall|i: int|
            0 <= i < replies@.len() ==> (#[trigger] replies@[i]).1 is None,
{
    let mut sizes: Vec<u64> = Vec::new();
    for i in 0..replies.len()
        invariant
            sizes@ == sizes_given(replies@.take(i as int)),
    {
        assert(replies@.take(i + 1).drop_last() =~= replies@.take(i as int));
        match replies[i].1 {
            Some((_, size)) => sizes.push(size),
            None => {},
        }
    }
    assert(replies@.take(replies@.len() as int) =~= replies@);
    proof {
        law_sizes_listed(replies@);
    }
    if sizes.len() == 0 {
        return Err(SyncError::NoValidNodes);
    }
    let size: u64 = sizes[0];
    for i in 0..sizes.len()
        invariant
            sizes@ == sizes_given(replies@),
            sizes@.len() > 0,
            size == sizes@[0],
            forall|k: int| 0 <= k < i ==> #[trigger] sizes@[k] == size,
            forall|s: u64| #[trigger]
                sizes_given(replies@).contains(s) <==> exists|k: int|
                    0 <= k < replies@.len() && (#[trigger] replies@[k]).1 is Some && (replies@[k].1->0).1 == s,
    {
        if sizes[i] != size {
            assert(sizes_given(replies@)[i as int] != sizes_given(replies@)[0]);
            assert(sizes_given(replies@).contains(sizes@[i as int]) && sizes_given(replies@).contains(sizes@[0]));
            return Err(SyncError::SizeMismatch { sizes });
        }
    }
    assert(sizes_given(replies@).contains(sizes@[0]));
    assert forall|i: int| 0 <= i < replies@.len() && (#[trigger] replies@[i]).1 is Some implies (replies@[i].1->0).1
        == size by {
        assert(sizes_given(replies@).contains((replies@[i].1->0).1));
    }
    Ok(size)
}

/// The latencies of the nodes that could be reached: a hint at first which nodes are good.
pub fn latencies(replies: &Vec<Reply>) -> (res: HashMap<NodeId, u128>)
    ensures
        res@ == latencies_given(replies@),
        forall|i: int|
            0 <= i < replies@.len() && (#[trigger] replies@[i]).1 is Some && (forall|k: int|
                i < k < replies@.len() && (#[trigger] replies@[k]).1 is Some ==> replies@[k].0 != replies@[i].0)
                ==> res@.contains_key(replies@[i].0) && res@[replies@[i].0] == (replies@[i].1->0).0,
{
    let mut res: HashMap<NodeId, u128> = HashMap::new();
    for i in 0..replies.len()
        invariant
            res@ == latencies_given(replies@.take(i as int)),
    {
        assert(replies@.take(i + 1).drop_last() =~= replies@.take(i as int));
        let reply = replies[i];
        match reply.1 {
            Some((latency, _)) => {
                res.insert(reply.0, latency);
            },
            None => {},
        }
    }
    assert(replies@.take(replies@.len() as int) =~= replies@);
    assert forall|i: int|
        0 <= i < replies@.len() && (#[trigger] replies@[i]).1 is Some && (forall|k: int|
            i < k < replies@.len() && (#[trigger] replies@[k]).1 is Some ==> replies@[k].0 != replies@[i].0)
        implies res@.contains_key(replies@[i].0) && res@[replies@[i].0] == (replies@[i].1->0).0 by {
        law_latency_given(replies@, i);
    }
    res
}

/// The size as a number of bytes in memory.
pub fn addressable(size: u64) -> (res: Result<usize, SyncError>)
    ensures
        match res {
            Ok(bytes) => bytes == size,
            Err(e) => size > usize::MAX && e == (SyncError::SizeTooLarge { size }),
        },
{
    if size > usize::MAX as u64 {
        Err(SyncError::SizeTooLarge { size })
    } else {
        Ok(size as usize)
    }
}

/// The sizes given are those of the nodes that could be reached, no other and all of them.
pub proof fn law_sizes_listed(replies: Seq<Reply>)
    ensures
        forall|s: u64| #[trigger]
            sizes_given(replies).contains(s) <==> exists|k: int|
                0 <= k < replies.len() && (#[trigger] replies[k]).1 is Some && (replies[k].1->0).1 == s,
        sizes_given(replies).len() == 0 <==> forall|k: int|
            0 <= k < replies.len() ==> (#[trigger] replies[k]).1 is None,
    decreases replies.len(),
{
    if replies.len() > 0 {
        let rest = replies.drop_last();
        let last = replies.len() - 1;
        law_sizes_listed(rest);
        assert(replies.last() == replies[last]);
        assert forall|k: int| 0 <= k < rest.len() implies rest[k] == #[trigger] replies[k] by {}
        assert forall|s: u64| #[trigger] sizes_given(replies).contains(s) <==> exists|k: int|
            0 <= k < replies.len() && (#[trigger] replies[k]).1 is Some && (replies[k].1->0).1 == s by {
            if sizes_given(replies).contains(s) {
                let at = sizes_given(replies).index_of(s);
                if at < sizes_given(rest).len() {
                    assert(sizes_given(rest)[at] == s);
                    assert(sizes_given(rest).contains(s));
                    let k = choose|k: int| 0 <= k < rest.len() && (#[trigger] rest[k]).1 is Some && (rest[k].1->0).1 == s;
                    assert(replies[k].1 is Some && (replies[k].1->0).1 == s);
                } else {
                    assert(replies[last].1 is Some && (replies[last].1->0).1 == s);
                }
            }
            if exists|k: int| 0 <= k < replies.len() && (#[trigger] replies[k]).1 is Some && (replies[k].1->0).1 == s {
                let k = choose|k: int|
                    0 <= k < replies.len() && (#[trigger] replies[k]).1 is Some && (replies[k].1->0).1 == s;
                if k < last {
                    assert(rest[k].1 is Some && (rest[k].1->0).1 == s);
                    assert(sizes_given(rest).contains(s));
                    let at = sizes_given(rest).index_of(s);
                    assert(sizes_given(replies)[at] == s);
                } else {
                    assert(sizes_given(replies)[sizes_given(rest).len() as int] == s);
                }
            }
        }
        if sizes_given(replies).len() == 0 {
            assert forall|k: int| 0 <= k < replies.len() implies (#[trigger] replies[k]).1 is None by {
                if k < last {
                    assert(rest[k].1 is None);
                }
            }
        }
        if forall|k: int| 0 <= k < replies.len() ==> (#[trigger] replies[k]).1 is None {
            assert forall|k: int| 0 <= k < rest.len() implies (#[trigger] rest[k]).1 is None by {
                assert(replies[k].1 is None);
            }
        }
    }
}

/// The sizes of two lists of answers, one after the other, are those of the first and then
/// those of the second; one answer gives its size, or nothing where there is none.
pub proof fn law_sizes_append(a: Seq<Reply>, b: Seq<Reply>, reply: Reply)
    ensures
        sizes_given(a + b) == sizes_given(a) + sizes_given(b),
        sizes_given(seq![reply]) == match reply.1 {
            Some((_, size)) => seq![size],
            None => Seq::<u64>::empty(),
        },
    decreases b.len(),
{
    reveal_with_fuel(sizes_given, 2);
    assert(seq![reply].drop_last() =~= Seq::<Reply>::empty());
    if b.len() == 0 {
        assert(a + b =~= a);
        assert(sizes_given(a) + sizes_given(b) =~= sizes_given(a));
    } else {
        law_sizes_append(a, b.drop_last(), reply);
        assert((a + b).drop_last() =~= a + b.drop_last());
        assert((a + b).last() == b.last());
        assert(sizes_given(a + b) =~= sizes_given(a) + sizes_given(b));
    }
}

/// What comes of the answers: a size if and only if some node could be reached and all that
/// could be gave that size; no valid nodes if and only if none could be reached; and a
/// mismatch if and only if two gave different sizes, which are then both in the list.
pub proof fn law_size_agreed(replies: Seq<Reply>, res: Result<u64, SyncError>)
    requires
        size_settled(sizes_given(replies), res),
    ensures
        forall|size: u64| #[trigger]
            is_ok_with(res, size) <==> {
                &&& exists|i: int| 0 <= i < replies.len() && (#[trigger] replies[i]).1 is Some
                &&& forall|i: int|
                    0 <= i < replies.len() && (#[trigger] replies[i]).1 is Some ==> (replies[i].1->0).1 == size
            },
        res is Err && res->Err_0 is NoValidNodes <==> forall|i: int|
            0 <= i < replies.len() ==> (#[trigger] replies[i]).1 is None,
        res is Err && res->Err_0 is SizeMismatch <==> exists|i: int, j: int|
            0 <= i < replies.len() && 0 <= j < replies.len() && (#[trigger] replies[i]).1 is Some && (
            #[trigger] replies[j]).1 is Some && (replies[i].1->0).1 != (replies[j].1->0).1,
        res matches Err(SyncError::SizeMismatch { sizes }) ==> forall|s: u64| #[trigger]
            sizes@.contains(s) <==> exists|k: int|
                0 <= k < replies.len() && (#[trigger] replies[k]).1 is Some && (replies[k].1->0).1 == s,
{
    let given = sizes_given(replies);
    law_sizes_listed(replies);
    assert forall|i: int| 0 <= i < replies.len() && (#[trigger] replies[i]).1 is Some implies given.contains(
        (replies[i].1->0).1,
    ) by {}
    match res {
        Ok(size) => {
            assert(given.contains(given[0]));
        },
        Err(SyncError::SizeMismatch { .. }) => {
            let i = choose|i: int| 0 <= i < given.len() && #[trigger] given[i] != given[0];
            assert(given.contains(given[i]) && given.contains(given[0]));
            let a = choose|k: int|
                0 <= k < replies.len() && (#[trigger] replies[k]).1 is Some && (replies[k].1->0).1 == given[i];
            let b = choose|k: int|
                0 <= k < replies.len() && (#[trigger] replies[k]).1 is Some && (replies[k].1->0).1 == given[0];
            assert((replies[a].1->0).1 != (replies[b].1->0).1);
        },
        _ => {},
    }
}

/// The result is this size.
pub open spec fn is_ok_with(res: Result<u64, SyncError>, size: u64) -> bool {
    res matches Ok(s) && s == size
}

/// The latency of a node is the one that it gave with its last answer.
pub proof fn law_latency_given(replies: Seq<Reply>, i: int)
    requires
        0 <= i < replies.len(),
        replies[i].1 is Some,
        forall|k: int| i < k < replies.len() && (#[trigger] replies[k]).1 is Some ==> replies[k].0 != replies[i].0,
    ensures
        latencies_given(replies).contains_key(replies[i].0),
        latencies_given(replies)[replies[i].0] == (replies[i].1->0).0,
    decreases replies.len(),
{
    if i + 1 < replies.len() {
        let rest = replies.drop_last();
        assert(replies.last() == replies[replies.len() - 1]);
        assert forall|k: int| i < k < rest.len() && (#[trigger] rest[k]).1 is Some implies rest[k].0 != rest[i].0 by {
            assert(replies[k] == rest[k]);
        }
        law_latency_given(rest, i);
    }
}

/// Of several hashes for one node the last one counts.
pub proof fn law_last_hash_wins(blobs: Seq<(NodeId, BlobHash)>, i: int)
    requires
        0 <= i < blobs.len(),
        forall|k: int| i < k < blobs.len() ==> (#[trigger] blobs[k]).0 != blobs[i].0,
    ensures
        last_hashes(blobs).contains_key(blobs[i].0),
        last_hashes(blobs)[blobs[i].0] == blobs[i].1,
    decreases blobs.len(),
{
    if i + 1 < blobs.len() {
        assert(blobs.last() == blobs[blobs.len() - 1]);
        law_last_hash_wins(blobs.drop_last(), i);
    }
}

/// Only nodes of the list are asked, and all of them.
pub proof fn law_hashes_listed(blobs: Seq<(NodeId, BlobHash)>, id: NodeId)
    ensures
        last_hashes(blobs).contains_key(id) <==> exists|i: int| 0 <= i < blobs.len() && (#[trigger] blobs[i]).0 == id,
    decreases blobs.len(),
{
    if blobs.len() > 0 {
        law_hashes_listed(blobs.drop_last(), id);
        assert(blobs.last() == blobs[blobs.len() - 1]);
        if exists|i: int| 0 <= i < blobs.len() && (#[trigger] blobs[i]).0 == id {
            let i = choose|i: int| 0 <= i < blobs.len() && (#[trigger] blobs[i]).0 == id;
            if i < blobs.len() - 1 {
                assert(blobs.drop_last()[i].0 == id);
            }
        }
        if exists|i: int| 0 <= i < blobs.drop_last().len() && (#[trigger] blobs.drop_last()[i]).0 == id {
            let i = choose|i: int| 0 <= i < blobs.drop_last().len() && (#[trigger] blobs.drop_last()[i]).0 == id;
            assert(blobs[i].0 == id);
        }
    }
}

/// A node that could not be reached has no latency, so it is never downloaded from; one
/// that could be reached has.
pub proof fn law_unreachable_left_out(replies: Seq<Reply>, id: NodeId)
    ensures
        latencies_given(replies).contains_key(id) <==> exists|i: int|
            0 <= i < replies.len() && (#[trigger] replies[i]).0 == id && replies[i].1 is Some,
    decreases replies.len(),
{
    if replies.len() > 0 {
        let rest = replies.drop_last();
        law_unreachable_left_out(rest, id);
        assert(replies.last() == replies[replies.len() - 1]);
        if exists|i: int| 0 <= i < replies.len() && (#[trigger] replies[i]).0 == id && replies[i].1 is Some {
            let i = choose|i: int| 0 <= i < replies.len() && (#[trigger] replies[i]).0 == id && replies[i].1 is Some;
            if i < replies.len() - 1 {
                assert(rest[i] == replies[i]);
            }
        }
        if exists|i: int| 0 <= i < rest.len() && (#[trigger] rest[i]).0 == id && rest[i].1 is Some {
            let i = choose|i: int| 0 <= i < rest.len() && (#[trigger] rest[i]).0 == id && rest[i].1 is Some;
            assert(replies[i] == rest[i]);
        }
    }
}

/// Where a size is given there is a node with a latency.
pub proof fn law_some_node(replies: Seq<Reply>)
    ensures
        sizes_given(replies).len() > 0 <==> latencies_given(replies).dom() != Set::<NodeId>::empty(),
    decreases replies.len(),
{
    if replies.len() > 0 {
        law_some_node(replies.drop_last());
        if replies.last().1 is Some {
            assert(latencies_given(replies).dom().contains(replies.last().0));
        }
    }
}

} // verus!
