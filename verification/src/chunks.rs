//! Sets of chunks, and the two computations on them that the downloader needs:
//! counting the chunks of a set, and claiming the first few of them.
use iroh_blobs::protocol::ChunkRangesExt;
use range_collections::range_set::RangeSetRange;
use vstd::prelude::*;

use crate::plain::law_claim_lowest;

verus! {

/// Bytes in one chunk.
pub const CHUNK_BYTES: u64 = 1024;

/// A set of chunk numbers, held by a `bao_tree::ChunkRanges`.
///
/// Its view is the set of the chunk numbers in it.
#[verifier::external_body]
#[derive(Debug)]
pub struct ChunkRanges {
    inner: bao_tree::ChunkRanges,
}

/// The chunk numbers that a set of ranges holds. A range without an end holds every
/// chunk number from its start on.
pub uninterp spec fn chunk_set(ranges: ChunkRanges) -> Set<u64>;

impl View for ChunkRanges {
    type V = Set<u64>;

    open spec fn view(&self) -> Set<u64> {
        chunk_set(*self)
    }
}

/// One of the ranges that make up a set of chunks.
#[derive(Debug, Clone, Copy, PartialEq, Eq, Structural)]
pub enum ChunkRange {
    /// From `start` on, up to and without `end`.
    Range { start: u64, end: u64 },
    /// From `start` on, without an end.
    RangeFrom { start: u64 },
}

/// The chunk numbers from `start` on, up to and without `end`.
pub open spec fn span(start: u64, end: u64) -> Set<u64> {
    Set::new(|c: u64| start <= c < end)
}

impl ChunkRange {
    /// First chunk number of the range.
    pub open spec fn first(self) -> u64 {
        match self {
            ChunkRange::Range { start, .. } => start,
            ChunkRange::RangeFrom { start } => start,
        }
    }

    /// The range is not empty.
    pub open spec fn holds_some(self) -> bool {
        self matches ChunkRange::Range { start, end } ==> start < end
    }

    /// The range ends below the start of the other, with a gap between them.
    pub open spec fn precedes(self, other: ChunkRange) -> bool {
        self matches ChunkRange::Range { end, .. } && end < other.first()
    }

    /// The chunk numbers in the range.
    pub open spec fn chunks(self) -> Set<u64> {
        match self {
            ChunkRange::Range { start, end } => span(start, end),
            ChunkRange::RangeFrom { start } => Set::new(|c: u64| start <= c),
        }
    }
}

/// The chunk numbers that lie in some range of the sequence.
pub open spec fn covered(ranges: Seq<ChunkRange>) -> Set<u64> {
    Set::new(|c: u64| exists|i: int| 0 <= i < ranges.len() && (#[trigger] ranges[i]).chunks().contains(c))
}

/// Ascending ranges, none empty, with a gap between any two; only the last may be
/// without an end.
pub open spec fn ascending(ranges: Seq<ChunkRange>) -> bool {
    &&& forall|i: int| 0 <= i < ranges.len() ==> (#[trigger] ranges[i]).holds_some()
    &&& forall|i: int, j: int| 0 <= i < j < ranges.len() ==> (#[trigger] ranges[i]).precedes(#[trigger] ranges[j])
}

/// The chunks that hold at least one of the bytes from `start` on, up to and without `end`.
pub open spec fn chunks_of_bytes(start: u64, end: u64) -> Set<u64> {
    Set::new(|c: u64| start < end && c * CHUNK_BYTES < end && start < (c + 1) * CHUNK_BYTES)
}

impl ChunkRanges {
    /// Calls `RangeSet::empty`: the set without any chunk.
    #[verifier::external_body]
    pub(crate) fn empty() -> (res: ChunkRanges)
        ensures
            chunk_set(res) == Set::<u64>::empty(),
    {
        ChunkRanges { inner: bao_tree::ChunkRanges::empty() }
    }

    /// Calls `RangeSet::from` on a `Range`: the chunks from `start` on, up to and without
    /// `end`; none where `end` is not above `start`.
    #[verifier::external_body]
    pub(crate) fn from_range(start: u64, end: u64) -> (res: ChunkRanges)
        ensures
            chunk_set(res) == span(start, end),
    {
        ChunkRanges { inner: bao_tree::ChunkRanges::from(bao_tree::ChunkNum(start)..bao_tree::ChunkNum(end)) }
    }

    /// Calls `RangeSet::from` on a `RangeFrom`: the chunks from `start` on, without an end.
    #[verifier::external_body]
    pub(crate) fn from_start(start: u64) -> (res: ChunkRanges)
        ensures
            chunk_set(res) == (ChunkRange::RangeFrom { start }).chunks(),
    {
        ChunkRanges { inner: bao_tree::ChunkRanges::from(bao_tree::ChunkNum(start)..) }
    }

    /// Calls `ChunkRangesExt::bytes`: the chunks that hold the bytes from `start` on, up to
    /// and without `end`. A chunk of which only a part is meant is in the set too.
    #[verifier::external_body]
    pub(crate) fn bytes(start: u64, end: u64) -> (res: ChunkRanges)
        ensures
            chunk_set(res) == chunks_of_bytes(start, end),
    {
        ChunkRanges { inner: bao_tree::ChunkRanges::bytes(start..end) }
    }

    /// Calls `RangeSetRef::is_empty`: whether there is no chunk in the set.
    #[verifier::external_body]
    pub(crate) fn is_empty(&self) -> (res: bool)
        ensures
            res == (chunk_set(*self) == Set::<u64>::empty()),
    {
        self.inner.is_empty()
    }

    /// Calls `RangeSet::iter`: the ranges of the set, in ascending order, adjacent ones
    /// merged.
    #[verifier::external_body]
    pub(crate) fn iter(&self) -> (res: Vec<ChunkRange>)
        ensures
            ascending(res@),
            covered(res@) == chunk_set(*self),
    {
        self.inner.iter().map(|range| match range {
            RangeSetRange::Range(r) => ChunkRange::Range { start: r.start.0, end: r.end.0 },
            RangeSetRange::RangeFrom(r) => ChunkRange::RangeFrom { start: r.start.0 },
        }).collect()
    }

    /// Calls `BitOrAssign::bitor_assign` of `RangeSet`: adds the chunks of another set.
    #[verifier::external_body]
    pub(crate) fn union_with(&mut self, other: ChunkRanges)
        ensures
            chunk_set(*final(self)) == chunk_set(*old(self)).union(chunk_set(other)),
    {
        self.inner |= other.inner;
    }

    /// Calls `SubAssign::sub_assign` of `RangeSet`: takes the chunks of another set out.
    #[verifier::external_body]
    pub(crate) fn difference_with(&mut self, other: ChunkRanges)
        ensures
            chunk_set(*final(self)) == chunk_set(*old(self)).difference(chunk_set(other)),
    {
        self.inner -= other.inner;
    }

    /// Calls `BitAnd::bitand` of `RangeSet`: the chunks that are in both sets.
    #[verifier::external_body]
    pub(crate) fn intersection(self, other: ChunkRanges) -> (res: ChunkRanges)
        ensures
            chunk_set(res) == chunk_set(self).intersect(chunk_set(other)),
    {
        ChunkRanges { inner: self.inner & other.inner }
    }

    /// Calls `PartialEq::eq` of `RangeSet`: whether both hold the same chunks.
    #[verifier::external_body]
    pub(crate) fn same(&self, other: &ChunkRanges) -> (res: bool)
        ensures
            res == (chunk_set(*self) == chunk_set(*other)),
    {
        self.inner == other.inner
    }

    /// Calls `Clone::clone` of `RangeSet`: a set of the same chunks.
    #[verifier::external_body]
    pub(crate) fn duplicate(&self) -> (res: ChunkRanges)
        ensures
            chunk_set(res) == chunk_set(*self),
    {
        ChunkRanges { inner: self.inner.clone() }
    }
}

impl ChunkRanges {
    /// The set of the chunks that lie in some range of the list.
    pub fn from_ranges(ranges: &Vec<ChunkRange>) -> (res: ChunkRanges)
        ensures
            res@ == covered(ranges@),
    {
        let mut res = ChunkRanges::empty();
        assert(covered(ranges@.take(0)) =~= Set::<u64>::empty());
        for i in 0..ranges.len()
            invariant
                res@ == covered(ranges@.take(i as int)),
        {
            let range = match ranges[i] {
                ChunkRange::Range { start, end } => ChunkRanges::from_range(start, end),
                ChunkRange::RangeFrom { start } => ChunkRanges::from_start(start),
            };
            res.union_with(range);
            proof {
                lemma_covered_push(ranges@, i as int);
            }
        }
        assert(ranges@.take(ranges@.len() as int) =~= ranges@);
        res
    }

    /// The ranges of the set, in ascending order, adjacent ones merged.
    pub fn to_ranges(&self) -> (res: Vec<ChunkRange>)
        ensures
            ascending(res@),
            covered(res@) == self@,
    {
        self.iter()
    }
}

/// One range more adds the chunks of that range.
pub proof fn lemma_covered_push(ranges: Seq<ChunkRange>, i: int)
    requires
        0 <= i < ranges.len(),
    ensures
        covered(ranges.take(i + 1)) == covered(ranges.take(i)).union(ranges[i].chunks()),
{
    let before = ranges.take(i);
    let after = ranges.take(i + 1);
    assert forall|c: u64| covered(after).contains(c) == covered(before).union(ranges[i].chunks()).contains(c) by {
        if covered(before).contains(c) {
            let k = choose|k: int| 0 <= k < before.len() && (#[trigger] before[k]).chunks().contains(c);
            assert(after[k] == before[k]);
        }
        if ranges[i].chunks().contains(c) {
            assert(after[i] == ranges[i]);
        }
        if covered(after).contains(c) {
            let k = choose|k: int| 0 <= k < after.len() && (#[trigger] after[k]).chunks().contains(c);
            if k < i {
                assert(before[k] == after[k]);
            } else {
                assert(after[k] == ranges[i]);
            }
        }
    }
    assert(covered(after) =~= covered(before).union(ranges[i].chunks()));
}

/// Every set of chunk numbers is finite: there are only so many of them.
pub proof fn lemma_chunks_finite(chunks: Set<u64>)
    ensures
        chunks.finite(),
{
    broadcast use vstd::set_lib::full_set_properties;

    assert(Set::<u64>::full().finite());
    vstd::set_lib::lemma_len_subset(chunks, Set::<u64>::full());
}

/// A span has as many chunks as its ends are apart.
proof fn lemma_span_len(start: u64, end: u64)
    requires
        start <= end,
    ensures
        span(start, end).finite(),
        span(start, end).len() == end - start,
    decreases end - start,
{
    if start == end {
        assert(span(start, end) =~= Set::<u64>::empty());
    } else {
        let last = (end - 1) as u64;
        lemma_span_len(start, last);
        assert(span(start, end) =~= span(start, last).insert(last));
    }
}

/// The chunks of the first `i` ranges all lie below the range that follows, and in no
/// greater number than they lie below it.
pub proof fn lemma_covered_below(ranges: Seq<ChunkRange>, i: int)
    requires
        ascending(ranges),
        0 <= i < ranges.len(),
    ensures
        forall|c: u64| covered(ranges.take(i)).contains(c) ==> c < ranges[i].first(),
        covered(ranges.take(i)).len() <= ranges[i].first(),
        covered(ranges.take(i)).disjoint(ranges[i].chunks()),
{
    let below = covered(ranges.take(i));
    assert forall|c: u64| below.contains(c) implies c < ranges[i].first() by {
        let k = choose|k: int|
            0 <= k < ranges.take(i).len() && (#[trigger] ranges.take(i)[k]).chunks().contains(c);
        assert(ranges.take(i)[k] == ranges[k]);
        assert(ranges[k].precedes(ranges[i]));
    }
    lemma_span_len(0, ranges[i].first());
    assert(below.subset_of(span(0, ranges[i].first())));
    vstd::set_lib::lemma_len_subset(below, span(0, ranges[i].first()));
}

/// How many chunks there are in the set: none can be told where a range has no end, that
/// is where the greatest chunk number is in the set.
pub fn total_chunks(ranges: &ChunkRanges) -> (res: Option<u64>)
    ensures
        match res {
            Some(n) => !ranges@.contains(u64::MAX) && n == ranges@.len(),
            None => ranges@.contains(u64::MAX),
        },
{
    let list = ranges.iter();
    let mut res: u64 = 0;
    assert(covered(list@.take(0)) =~= Set::<u64>::empty());
    for i in 0..list.len()
        invariant
            ascending(list@),
            covered(list@) == ranges@,
            res == covered(list@.take(i as int)).len(),
            forall|k: int| 0 <= k < i ==> (#[trigger] list@[k]) is Range,
    {
        match list[i] {
            ChunkRange::Range { start, end } => {
                proof {
                    lemma_covered_below(list@, i as int);
                    lemma_covered_push(list@, i as int);
                    lemma_span_len(start, end);
                    lemma_chunks_finite(covered(list@.take(i as int)));
                    vstd::set_lib::lemma_set_disjoint_lens(
                        covered(list@.take(i as int)),
                        span(start, end),
                    );
                }
                res = res + (end - start);
            },
            ChunkRange::RangeFrom { start } => {
                assert(list@[i as int].chunks().contains(u64::MAX));
                return None;
            },
        }
    }
    assert(list@.take(list@.len() as int) =~= list@);
    Some(res)
}

/// What claiming up to `max` chunks out of the unclaimed ones gives: the lowest `max` of
/// them, or all where there are no more than `max`.
pub open spec fn is_claim(claim: Set<u64>, unclaimed: Set<u64>, max: u64) -> bool {
    &&& claim.subset_of(unclaimed)
    &&& forall|c: u64, d: u64|
        #![trigger claim.contains(c), unclaimed.contains(d)]
        claim.contains(c) && unclaimed.contains(d) && d <= c ==> claim.contains(d)
    &&& claim.len() <= max
    &&& claim.len() == max || claim == unclaimed
}

/// Claim up to `max` chunks from the unclaimed chunks.
///
/// The unclaimed ranges are not modified.
pub fn claim(unclaimed: &ChunkRanges, max: u64) -> (res: ChunkRanges)
    ensures
        is_claim(res@, unclaimed@, max),
        res@.len() == if max < unclaimed@.len() {
            max as nat
        } else {
            unclaimed@.len()
        },
        forall|c: u64| res@.contains(c) ==> #[trigger] unclaimed@.contains(c),
        forall|c: u64, d: u64|
            #![trigger res@.contains(c), unclaimed@.contains(d)]
            res@.contains(c) && unclaimed@.contains(d) && !res@.contains(d) ==> c < d,
{
    let list = unclaimed.iter();
    let mut res = ChunkRanges::empty();
    let mut remaining: u64 = max;
    assert(covered(list@.take(0)) =~= Set::<u64>::empty());
    for i in 0..list.len()
        invariant
            ascending(list@),
            covered(list@) == unclaimed@,
            res@ == covered(list@.take(i as int)),
            res@.len() + remaining == max,
    {
        match list[i] {
            ChunkRange::Range { start, end } => {
                if remaining <= end - start {
                    res.union_with(ChunkRanges::from_range(start, start + remaining));
                    proof {
                        lemma_part_claimed(list@, i as int, (start + remaining) as u64);
                        law_claim_lowest(res@, unclaimed@, max);
                    }
                    return res;
                }
                proof {
                    lemma_part_claimed(list@, i as int, end);
                    lemma_covered_push(list@, i as int);
                }
                res.union_with(ChunkRanges::from_range(start, end));
                remaining = remaining - (end - start);
            },
            ChunkRange::RangeFrom { start } => {
                if remaining <= u64::MAX - start {
                    res.union_with(ChunkRanges::from_range(start, start + remaining));
                    proof {
                        lemma_part_claimed(list@, i as int, (start + remaining) as u64);
                        law_claim_lowest(res@, unclaimed@, max);
                    }
                    return res;
                }
                res.union_with(ChunkRanges::from_start(start));
                proof {
                    lemma_rest_claimed(list@, i as int);
                    law_claim_lowest(res@, unclaimed@, max);
                }
                return res;
            },
        }
    }
    assert(list@.take(list@.len() as int) =~= list@);
    proof {
        law_claim_lowest(res@, unclaimed@, max);
    }
    res
}

/// The chunks of the first `i` ranges, with those of the next range below `end`, hold with
/// each chunk every lower one of all the ranges.
proof fn lemma_part_claimed(ranges: Seq<ChunkRange>, i: int, end: u64)
    requires
        ascending(ranges),
        0 <= i < ranges.len(),
        ranges[i].first() <= end,
        ranges[i] matches ChunkRange::Range { end: e, .. } ==> end <= e,
    ensures
        ({
            let part = covered(ranges.take(i)).union(span(ranges[i].first(), end));
            &&& part.len() == covered(ranges.take(i)).len() + (end - ranges[i].first())
            &&& part.subset_of(covered(ranges))
            &&& forall|c: u64, d: u64|
                #![trigger part.contains(c), covered(ranges).contains(d)]
                part.contains(c) && covered(ranges).contains(d) && d <= c ==> part.contains(d)
        }),
{
    let part = covered(ranges.take(i)).union(span(ranges[i].first(), end));
    lemma_covered_below(ranges, i);
    lemma_span_len(ranges[i].first(), end);
    lemma_chunks_finite(covered(ranges.take(i)));
    assert(span(ranges[i].first(), end).subset_of(ranges[i].chunks()));
    vstd::set_lib::lemma_set_disjoint_lens(covered(ranges.take(i)), span(ranges[i].first(), end));
    assert forall|c: u64| part.contains(c) implies covered(ranges).contains(c) by {
        if covered(ranges.take(i)).contains(c) {
            let k = choose|k: int|
                0 <= k < ranges.take(i).len() && (#[trigger] ranges.take(i)[k]).chunks().contains(c);
            assert(ranges[k].chunks().contains(c));
        } else {
            assert(ranges[i].chunks().contains(c));
        }
    }
    assert forall|c: u64, d: u64|
        #![trigger part.contains(c), covered(ranges).contains(d)]
        part.contains(c) && covered(ranges).contains(d) && d <= c implies part.contains(d) by {
        let k = choose|k: int| 0 <= k < ranges.len() && (#[trigger] ranges[k]).chunks().contains(d);
        if k < i {
            assert(ranges.take(i)[k] == ranges[k]);
        } else if k > i {
            assert(ranges[i].precedes(ranges[k]));
        }
    }
}

/// A range without an end is the last one, and adds all the chunk numbers from its start on.
proof fn lemma_rest_claimed(ranges: Seq<ChunkRange>, i: int)
    requires
        ascending(ranges),
        0 <= i < ranges.len(),
        ranges[i] is RangeFrom,
    ensures
        covered(ranges) == covered(ranges.take(i)).union(ranges[i].chunks()),
        covered(ranges).len() == covered(ranges.take(i)).len() + (u64::MAX - ranges[i].first()) + 1,
{
    let rest = ranges[i].chunks();
    if i + 1 < ranges.len() {
        assert(ranges[i].precedes(ranges[i + 1]));
    }
    assert(ranges.take(i + 1) =~= ranges);
    lemma_covered_push(ranges, i);
    lemma_covered_below(ranges, i);
    lemma_span_len(ranges[i].first(), u64::MAX);
    assert(rest =~= span(ranges[i].first(), u64::MAX).insert(u64::MAX));
    lemma_chunks_finite(covered(ranges.take(i)));
    vstd::set_lib::lemma_set_disjoint_lens(covered(ranges.take(i)), rest);
}

/// A claim is settled by the unclaimed chunks and by how many may be claimed.
pub proof fn law_claim_unique(a: Set<u64>, b: Set<u64>, unclaimed: Set<u64>, max: u64)
    requires
        is_claim(a, unclaimed, max),
        is_claim(b, unclaimed, max),
    ensures
        a == b,
{
    lemma_claim_within(a, b, unclaimed, max);
    lemma_claim_within(b, a, unclaimed, max);
    assert(a =~= b);
}

proof fn lemma_claim_within(a: Set<u64>, b: Set<u64>, unclaimed: Set<u64>, max: u64)
    requires
        is_claim(a, unclaimed, max),
        is_claim(b, unclaimed, max),
    ensures
        a.subset_of(b),
{
    lemma_chunks_finite(a);
    lemma_chunks_finite(b);
    assert forall|c: u64| a.contains(c) implies b.contains(c) by {
        if !b.contains(c) {
            assert forall|d: u64| b.contains(d) implies a.remove(c).contains(d) by {
                assert(unclaimed.contains(c) && unclaimed.contains(d));
            }
            vstd::set_lib::lemma_len_subset(b, a.remove(c));
        }
    }
}

/// A claim is empty only where there is nothing to claim, or nothing may be claimed.
pub proof fn law_claim_empty(claim: Set<u64>, unclaimed: Set<u64>, max: u64)
    requires
        is_claim(claim, unclaimed, max),
    ensures
        claim == Set::<u64>::empty() <==> max == 0 || unclaimed == Set::<u64>::empty(),
{
    lemma_chunks_finite(claim);
    if max == 0 {
        claim.lemma_len0_is_empty();
    }
    if unclaimed == Set::<u64>::empty() {
        assert(claim =~= Set::<u64>::empty());
    }
}

} // verus!
