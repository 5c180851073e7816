//! What the values that contracts speak of come to in plain terms: numbers, fields, and which
//! chunk, byte or node is in what.
use vstd::prelude::*;
use vstd::std_specs::cmp::PartialOrdSpec;

use crate::bitfield::{bitfield_line, bucket_bytes, bucket_count, bucket_end, bucket_start, bytes_held, law_line_length};
use crate::chunks::{ascending, chunks_of_bytes, covered, is_claim, lemma_chunks_finite, ChunkRange};
use crate::quality::{ahead, is_first, is_lead, ranks_before, Quality, Ranked};
use crate::stats::{chunks_to_bytes, PerNodeStats};
use crate::target::written;

verus! {

/// A list of ranges covers a chunk where one of the ranges starts at or below it and does not
/// end at or below it.
pub proof fn law_ranges_cover(ranges: Seq<ChunkRange>, c: u64)
    ensures
        covered(ranges).contains(c) <==> exists|i: int|
            0 <= i < ranges.len() && match #[trigger] ranges[i] {
                ChunkRange::Range { start, end } => start <= c && c < end,
                ChunkRange::RangeFrom { start } => start <= c,
            },
{
    if covered(ranges).contains(c) {
        let i = choose|i: int| 0 <= i < ranges.len() && (#[trigger] ranges[i]).chunks().contains(c);
        assert(match ranges[i] {
            ChunkRange::Range { start, end } => start <= c && c < end,
            ChunkRange::RangeFrom { start } => start <= c,
        });
    }
    if exists|i: int|
        0 <= i < ranges.len() && match #[trigger] ranges[i] {
            ChunkRange::Range { start, end } => start <= c && c < end,
            ChunkRange::RangeFrom { start } => start <= c,
        } {
        let i = choose|i: int|
            0 <= i < ranges.len() && match #[trigger] ranges[i] {
                ChunkRange::Range { start, end } => start <= c && c < end,
                ChunkRange::RangeFrom { start } => start <= c,
            };
        assert(ranges[i].chunks().contains(c));
    }
}

/// Of ascending ranges every one but the last has an end, above its start and below the start
/// of all that follow.
pub proof fn law_ranges_ascend(ranges: Seq<ChunkRange>, i: int, j: int)
    requires
        ascending(ranges),
        0 <= i < j < ranges.len(),
    ensures
        match (ranges[i], ranges[j]) {
            (ChunkRange::Range { start, end }, ChunkRange::Range { start: next, end: last }) => start < end && end < next
                && next < last,
            (ChunkRange::Range { start, end }, ChunkRange::RangeFrom { start: next }) => start < end && end < next,
            (ChunkRange::RangeFrom { .. }, _) => false,
        },
{
    assert(ranges[i].precedes(ranges[j]));
    assert(ranges[i].holds_some() && ranges[j].holds_some());
}

/// The chunks of some bytes are those from the chunk of the first byte to that of the last.
pub proof fn law_chunks_of_bytes(start: u64, end: u64, c: u64)
    ensures
        chunks_of_bytes(start, end).contains(c) <==> start < end && start as int / 1024 <= c && c <= (end - 1) / 1024,
{
}

/// A claim has as many chunks as may be claimed, or all there are; they are unclaimed ones, and
/// lower than all that are not claimed.
pub proof fn law_claim_lowest(claim: Set<u64>, unclaimed: Set<u64>, max: u64)
    requires
        is_claim(claim, unclaimed, max),
    ensures
        claim.len() == if max < unclaimed.len() {
            max as nat
        } else {
            unclaimed.len()
        },
        forall|c: u64| claim.contains(c) ==> #[trigger] unclaimed.contains(c),
        forall|c: u64, d: u64|
            #![trigger claim.contains(c), unclaimed.contains(d)]
            claim.contains(c) && unclaimed.contains(d) && !claim.contains(d) ==> c < d,
{
    lemma_chunks_finite(unclaimed);
    vstd::set_lib::lemma_len_subset(claim, unclaimed);
    if claim.len() == unclaimed.len() {
        lemma_chunks_finite(claim);
        vstd::set_lib::lemma_subset_equality(claim, unclaimed);
    }
}

/// One quality compares as less than another, so is better, with fewer errors; with as many
/// errors and a rate where the other has none, or a higher one; and with as many errors and
/// the same rate, or none, and a lower latency.
pub proof fn law_quality_compares(a: Quality, b: Quality)
    ensures
        a.partial_cmp_spec(&b) == Some(std::cmp::Ordering::Less) <==> {
            ||| a.errors < b.errors
            ||| a.errors == b.errors && a.rate is Some && b.rate is None
            ||| a.errors == b.errors && a.rate is Some && b.rate is Some && a.rate->0 > b.rate->0
            ||| a.errors == b.errors && a.rate == b.rate && a.latency < b.latency
        },
        a.partial_cmp_spec(&b) == Some(std::cmp::Ordering::Equal) <==> a.errors == b.errors && a.rate == b.rate
            && a.latency == b.latency,
        a.partial_cmp_spec(&b) == Some(std::cmp::Ordering::Greater) <==> b.partial_cmp_spec(&a) == Some(
            std::cmp::Ordering::Less,
        ),
{
}

/// One node ranks before another by its quality as it compares; with equal qualities by its
/// number.
pub proof fn law_rank_order(a: Ranked, b: Ranked)
    ensures
        ranks_before(a, b) <==> {
            ||| a.0.errors < b.0.errors
            ||| a.0.errors == b.0.errors && a.0.rate is Some && b.0.rate is None
            ||| a.0.errors == b.0.errors && a.0.rate is Some && b.0.rate is Some && a.0.rate->0 > b.0.rate->0
            ||| a.0.errors == b.0.errors && a.0.rate == b.0.rate && a.0.latency < b.0.latency
            ||| a.0.errors == b.0.errors && a.0.rate == b.0.rate && a.0.latency == b.0.latency && a.1 < b.1
        },
        ahead(a, b, false) <==> ranks_before(a, b),
        ahead(a, b, true) <==> ranks_before(b, a),
{
}

/// A list of the leading nodes has as many as asked for, or all there are; all are of the
/// nodes; and each ranks before what follows it in the list and before what is not in the
/// list, or after it where the worst come first.
pub proof fn law_lead_in_order(list: Seq<Ranked>, nodes: Set<Ranked>, n: nat, worst_first: bool)
    requires
        is_lead(list, nodes, n, worst_first),
    ensures
        list.len() == if n < nodes.len() {
            n
        } else {
            nodes.len()
        },
        forall|i: int| 0 <= i < list.len() ==> nodes.contains(#[trigger] list[i]),
        forall|i: int, j: int|
            0 <= i < j < list.len() ==> if worst_first {
                ranks_before(#[trigger] list[j], #[trigger] list[i])
            } else {
                ranks_before(list[i], list[j])
            },
        forall|i: int, node: Ranked|
            #![trigger list[i], nodes.contains(node)]
            0 <= i < list.len() && nodes.contains(node) && !list.contains(node) ==> if worst_first {
                ranks_before(node, list[i])
            } else {
                ranks_before(list[i], node)
            },
{
    assert forall|i: int, j: int| 0 <= i < j < list.len() implies if worst_first {
        ranks_before(#[trigger] list[j], #[trigger] list[i])
    } else {
        ranks_before(list[i], list[j])
    } by {
        assert(ahead(list[i], list[j], worst_first));
    }
}

/// The first node is one of the nodes, and ranks before all the others, or after them where
/// the worst comes first.
pub proof fn law_first_ranks(first: Ranked, nodes: Set<Ranked>, worst_first: bool, node: Ranked)
    requires
        is_first(first, nodes, worst_first),
        nodes.contains(node),
        node != first,
    ensures
        nodes.contains(first),
        worst_first ==> ranks_before(node, first),
        !worst_first ==> ranks_before(first, node),
{
}

/// Bytes are 1024 times the chunks, and stop at what 64 bits can hold.
pub proof fn law_bytes_of_chunks(chunks: int)
    requires
        0 <= chunks,
    ensures
        1024 * chunks <= u64::MAX ==> chunks_to_bytes(chunks) == 1024 * chunks,
        1024 * chunks > u64::MAX ==> chunks_to_bytes(chunks) == u64::MAX,
{
}

/// The number of chunks of a node is that of its set, unless an open range is in it; with that
/// number, and time measured, there is a rate.
pub proof fn law_chunk_count(stat: PerNodeStats)
    ensures
        stat.ranges@.contains(u64::MAX) ==> stat.chunk_count() is None,
        !stat.ranges@.contains(u64::MAX) ==> stat.chunk_count() == Some(stat.ranges@.len()),
        stat.has_rate() <==> !stat.ranges@.contains(u64::MAX) && stat.time > 0,
{
}

/// The quality of a node has the errors and the latency of its statistics, and the rate that
/// is handed in where time was measured.
pub proof fn law_quality_of_stats(stat: PerNodeStats, rate: Option<u64>)
    ensures
        stat.quality_at(rate).errors == stat.errors,
        stat.quality_at(rate).latency == stat.latency,
        stat.time > 0 && !stat.ranges@.contains(u64::MAX) ==> stat.quality_at(rate).rate == rate,
        stat.time == 0 || stat.ranges@.contains(u64::MAX) ==> stat.quality_at(rate).rate is None,
{
}

/// Of two nodes with as many errors, of which no time was measured, the one with the lower
/// latency is better; and fewer errors are better, whatever else was measured.
pub proof fn law_latency_decides(a: PerNodeStats, b: PerNodeStats, rate_a: Option<u64>, rate_b: Option<u64>)
    ensures
        a.errors == b.errors && a.time == 0 && b.time == 0 && a.latency < b.latency ==> a.quality_at(rate_a).better(
            b.quality_at(rate_b),
        ),
        a.errors < b.errors ==> a.quality_at(rate_a).better(b.quality_at(rate_b)),
{
}

/// Statistics of a node never used hold no chunk, no error, no time and no start.
pub proof fn law_unused(stat: PerNodeStats, latency: u128)
    requires
        stat.unused(latency),
    ensures
        forall|c: u64| !stat.ranges@.contains(c),
        stat.errors == 0,
        stat.time == 0,
        stat.start is None,
        stat.latency == latency,
{
}

/// A leaf that was written is found where it was put, and every other byte is what it was.
pub proof fn law_written(data: Seq<u8>, offset: int, leaf: Seq<u8>, i: int)
    requires
        0 <= offset,
        offset + leaf.len() <= data.len(),
    ensures
        written(data, offset, leaf).len() == data.len(),
        0 <= i < leaf.len() ==> written(data, offset, leaf)[offset + i] == leaf[i],
        0 <= i < offset ==> written(data, offset, leaf)[i] == data[i],
        offset + leaf.len() <= i < data.len() ==> written(data, offset, leaf)[i] == data[i],
{
}

/// The line of a blob stands for buckets of `b` bytes, where `b` is the least number such that
/// a hundred buckets hold the blob. Of the bytes of bucket `k` that are in the blob, `n` are in
/// one of the chunks: the character is blank for none, and else tells by `n` out of `b` up to
/// which quarter the bucket is filled.
pub proof fn law_line_shades(chunks: Set<u64>, size: int, b: int, k: int)
    requires
        size > 0,
        100 * b >= size,
        100 * (b - 1) < size,
        0 <= k < bitfield_line(chunks, size).len(),
    ensures
        ({
            let line = bitfield_line(chunks, size);
            let n = Set::new(
                |p: int| k * b <= p < (k + 1) * b && p < size && chunks.contains((p / 1024) as u64),
            ).len();
            &&& line.len() * b >= size
            &&& (line.len() - 1) * b < size
            &&& line[k] == ' ' <==> n == 0
            &&& line[k] == '░' <==> 0 < 4 * n <= b
            &&& line[k] == '▒' <==> b < 4 * n <= 2 * b
            &&& line[k] == '▓' <==> 2 * b < 4 * n <= 3 * b
            &&& line[k] == '█' <==> 3 * b < 4 * n
        }),
{
    let line = bitfield_line(chunks, size);
    law_line_length(chunks, size);
    assert(bucket_bytes(size) == b);
    let held = bytes_held(chunks, bucket_start(size, k), bucket_end(size, k));
    let plain = Set::new(|p: int| k * b <= p < (k + 1) * b && p < size && chunks.contains((p / 1024) as u64));
    assert(held =~= plain);
    crate::bitfield::lemma_buckets(size);
    assert(bucket_start(size, bucket_count(size)) == line.len() * b);
    assert(bucket_start(size, bucket_count(size) - 1) == (line.len() - 1) * b);
}

} // verus!
