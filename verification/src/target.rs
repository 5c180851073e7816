//! The blob that is being put together.
use vstd::prelude::*;

use crate::chunks::{chunks_of_bytes, ChunkRanges, CHUNK_BYTES};

verus! {

/// The bytes received so far, and the chunks still missing.
#[derive(Debug)]
pub struct Target {
    pub data: Vec<u8>,
    pub missing: ChunkRanges,
}

/// A leaf begins too far into the blob to be addressed.
#[derive(Debug, Clone, Copy, PartialEq, Eq, Structural)]
pub struct OffsetTooLarge {
    pub offset: u64,
}

/// The bytes with those from `offset` on replaced by the leaf.
pub open spec fn written(data: Seq<u8>, offset: int, leaf: Seq<u8>) -> Seq<u8> {
    Seq::new(
        data.len(),
        |i: int|
            if offset <= i < offset + leaf.len() {
                leaf[i - offset]
            } else {
                data[i]
            },
    )
}

/// Every byte whose chunk is not missing is that of the blob.
pub open spec fn agrees(data: Seq<u8>, missing: Set<u64>, blob: Seq<u8>) -> bool {
    &&& data.len() == blob.len()
    &&& forall|i: int|
        0 <= i < data.len() && !missing.contains((i / CHUNK_BYTES as int) as u64) ==> #[trigger] data[i] == blob[i]
}

/// The leaf is a part of the blob that begins with a chunk, and ends with one or with the
/// blob.
pub open spec fn is_leaf_of(blob: Seq<u8>, offset: int, leaf: Seq<u8>) -> bool {
    &&& 0 <= offset
    &&& offset + leaf.len() <= blob.len()
    &&& leaf == blob.subrange(offset, offset + leaf.len())
    &&& offset % (CHUNK_BYTES as int) == 0
    &&& (offset + leaf.len()) % (CHUNK_BYTES as int) == 0 || offset + leaf.len() == blob.len()
}

impl Target {
    pub fn new(size: usize) -> (res: Target)
        ensures
            res.data@ == Seq::new(size as nat, |i: int| 0u8),
            res.missing@ == chunks_of_bytes(0, size as u64),
            res.data@.len() == size,
            forall|i: int| 0 <= i < size ==> #[trigger] res.data@[i] == 0,
            forall|c: u64| #[trigger] res.missing@.contains(c) <==> 1024 * c < size,
    {
        Target { data: vec![0u8; size], missing: ChunkRanges::bytes(0, size as u64) }
    }

    /// Puts a leaf that was received in its place; none of its chunks is missing then.
    pub fn write_leaf(&mut self, offset: u64, leaf: &Vec<u8>) -> (res: Result<(), OffsetTooLarge>)
        requires
            offset <= usize::MAX ==> offset + leaf@.len() <= old(self).data@.len(),
        ensures
            match res {
                Ok(()) => {
                    &&& offset <= usize::MAX
                    &&& final(self).data@ == written(old(self).data@, offset as int, leaf@)
                    &&& final(self).missing@ == old(self).missing@.difference(
                        chunks_of_bytes(offset, (offset + leaf@.len()) as u64),
                    )
                    &&& final(self).data@.len() == old(self).data@.len()
                    &&& forall|i: int| 0 <= i < leaf@.len() ==> final(self).data@[offset + i] == #[trigger] leaf@[i]
                    &&& forall|i: int|
                        0 <= i < old(self).data@.len() && !(offset <= i < offset + leaf@.len())
                            ==> final(self).data@[i] == #[trigger] old(self).data@[i]
                    &&& forall|c: u64| #[trigger]
                        final(self).missing@.contains(c) <==> old(self).missing@.contains(c) && !(leaf@.len() > 0
                            && offset as int / 1024 <= c && c <= (offset + leaf@.len() - 1) / 1024)
                },
                Err(e) => {
                    &&& offset > usize::MAX
                    &&& e == (OffsetTooLarge { offset })
                    &&& *final(self) == *old(self)
                },
            },
    {
        if offset > usize::MAX as u64 {
            return Err(OffsetTooLarge { offset });
        }
        let at: usize = offset as usize;
        let len: usize = leaf.len();
        let size: usize = self.data.len();
        let ghost before = self.data@;
        for i in 0..len
            invariant
                len == leaf@.len(),
                size == self.data@.len(),
                at + len <= size,
                self.data@ == written(before, at as int, leaf@.take(i as int)),
                self.missing == old(self).missing,
        {
            self.data.set(at + i, leaf[i]);
            assert(self.data@ =~= written(before, at as int, leaf@.take(i + 1)));
        }
        assert(leaf@.take(len as int) =~= leaf@);
        self.missing.difference_with(ChunkRanges::bytes(offset, offset + len as u64));
        Ok(())
    }
}

impl Default for Target {
    fn default() -> (res: Target)
        ensures
            res.data@ == Seq::<u8>::empty(),
            res.missing@ == Set::<u64>::empty(),
    {
        Target { data: Vec::new(), missing: ChunkRanges::empty() }
    }
}

/// A new target, of which all is missing, agrees with every blob of its size.
pub proof fn law_new_agrees(blob: Seq<u8>, size: u64)
    requires
        blob.len() == size,
    ensures
        agrees(Seq::new(size as nat, |i: int| 0u8), chunks_of_bytes(0, size), blob),
{
}

/// Leaves of the blob keep a target in agreement with it.
pub proof fn law_leaf_agrees(data: Seq<u8>, missing: Set<u64>, blob: Seq<u8>, offset: u64, leaf: Seq<u8>)
    requires
        agrees(data, missing, blob),
        blob.len() <= u64::MAX,
        is_leaf_of(blob, offset as int, leaf),
    ensures
        agrees(
            written(data, offset as int, leaf),
            missing.difference(chunks_of_bytes(offset, (offset + leaf.len()) as u64)),
            blob,
        ),
{
}

/// A target that agrees with the blob and misses nothing holds the blob.
pub proof fn law_complete(data: Seq<u8>, blob: Seq<u8>)
    requires
        agrees(data, Set::<u64>::empty(), blob),
    ensures
        data == blob,
{
    assert(data =~= blob);
}

} // verus!
