//! A line of characters that shows which part of a blob a set of chunks covers.
use vstd::prelude::*;

use crate::chunks::{ascending, covered, lemma_covered_below, lemma_covered_push, span, ChunkRange, ChunkRanges};
use crate::chunks::CHUNK_BYTES;
use crate::plain::law_line_shades;

verus! {

/// `String::push` of std appends the character.
pub assume_specification[ String::push ](s: &mut String, c: char)
    ensures
        final(s)@ == old(s)@.push(c),
;

/// Size of a bucket: a hundredth of the blob, rounded up to whole bytes.
pub open spec fn bucket_bytes(size: int) -> int {
    (size + 99) / 100
}

/// How many buckets it takes to hold the blob.
pub open spec fn bucket_count(size: int) -> int {
    (size + bucket_bytes(size) - 1) / bucket_bytes(size)
}

/// First byte of a bucket.
pub open spec fn bucket_start(size: int, bucket: int) -> int {
    bucket * bucket_bytes(size)
}

/// End of a bucket; the last one ends with the blob.
pub open spec fn bucket_end(size: int, bucket: int) -> int {
    if bucket_start(size, bucket + 1) < size {
        bucket_start(size, bucket + 1)
    } else {
        size
    }
}

/// The bytes from `from` on, up to and without `to`, that lie in one of the chunks.
pub open spec fn bytes_held(chunks: Set<u64>, from: int, to: int) -> Set<int> {
    Set::new(|b: int| from <= b < to && chunks.contains((b / CHUNK_BYTES as int) as u64))
}

/// How many bytes of a bucket lie in one of the chunks.
pub open spec fn bucket_held(chunks: Set<u64>, size: int, bucket: int) -> nat {
    bytes_held(chunks, bucket_start(size, bucket), bucket_end(size, bucket)).len()
}

/// Character for a bucket of which `count` bytes are held: blank for none, then darker
/// with each quarter of the bucket.
pub open spec fn shade(count: int, bucket_size: int) -> char {
    if count == 0 {
        ' '
    } else if 4 * count <= bucket_size {
        '░'
    } else if 4 * count <= 2 * bucket_size {
        '▒'
    } else if 4 * count <= 3 * bucket_size {
        '▓'
    } else {
        '█'
    }
}

/// The line for a set of chunks of a blob.
pub open spec fn bitfield_line(chunks: Set<u64>, size: int) -> Seq<char> {
    Seq::new(
        bucket_count(size) as nat,
        |bucket: int| shade(bucket_held(chunks, size, bucket) as int, bucket_bytes(size)),
    )
}

fn bucket_to_char(count: usize, bucket_size_bytes: usize) -> (res: char)
    ensures
        res == shade(count as int, bucket_size_bytes as int),
{
    let quarters: u128 = 4 * (count as u128);
    let whole: u128 = bucket_size_bytes as u128;
    if count == 0 {
        ' '
    } else if quarters <= whole {
        '░'
    } else if quarters <= 2 * whole {
        '▒'
    } else if quarters <= 3 * whole {
        '▓'
    } else {
        '█'
    }
}

pub proof fn lemma_buckets(size: int)
    requires
        size > 0,
    ensures
        bucket_bytes(size) == (size - 1) / 100 + 1,
        bucket_count(size) == (size - 1) / bucket_bytes(size) + 1,
        0 < bucket_bytes(size) <= size,
        0 < bucket_count(size) <= 100,
        bucket_start(size, bucket_count(size) - 1) < size <= bucket_start(size, bucket_count(size)),
{
    let b = bucket_bytes(size);
    let n = bucket_count(size);
    vstd::arithmetic::div_mod::lemma_fundamental_div_mod(size - 1, b);
    vstd::arithmetic::div_mod::lemma_mod_bound(size - 1, b);
    let q = (size - 1) / b;
    let r = (size - 1) % b;
    assert(size + b - 1 == b * (q + 1) + r) by (nonlinear_arith)
        requires
            size - 1 == b * q + r,
    ;
    vstd::arithmetic::div_mod::lemma_fundamental_div_mod_converse(size + b - 1, b, q + 1, r);
    assert(n == q + 1);
    assert((n - 1) * b == b * q) by (nonlinear_arith)
        requires
            n == q + 1,
    ;
    assert(n * b == b * q + b) by (nonlinear_arith)
        requires
            n == q + 1,
    ;
    assert(q >= 0) by (nonlinear_arith)
        requires
            size - 1 == b * q + r,
            r < b,
            size > 0,
            b > 0,
    ;
    assert(q < 100) by (nonlinear_arith)
        requires
            size - 1 == b * q + r,
            r >= 0,
            b * 100 >= size,
            b > 0,
    ;
}

/// Of a span of chunks, the bytes in a window are those between the later start and the
/// earlier end.
proof fn lemma_span_held(start: u64, end: u64, from: int, to: int)
    requires
        0 <= from,
        to <= u64::MAX,
    ensures
        ({
            let lo = if from < start * CHUNK_BYTES { start * CHUNK_BYTES } else { from };
            let hi = if to < end * CHUNK_BYTES { to } else { end * CHUNK_BYTES };
            let held = bytes_held(span(start, end), from, to);
            &&& held.finite()
            &&& held.len() == if lo < hi { hi - lo } else { 0 }
        }),
{
    let lo = if from < start * CHUNK_BYTES { start * CHUNK_BYTES } else { from };
    let hi = if to < end * CHUNK_BYTES { to } else { end * CHUNK_BYTES };
    let held = bytes_held(span(start, end), from, to);
    if lo < hi {
        assert(held =~= vstd::set_lib::set_int_range(lo, hi));
        vstd::set_lib::lemma_int_range(lo, hi);
    } else {
        assert(held =~= Set::<int>::empty());
    }
}

/// Bytes held by either of two sets of chunks without a common chunk add up.
proof fn lemma_held_union(a: Set<u64>, b: Set<u64>, from: int, to: int)
    requires
        0 <= from,
        to <= u64::MAX,
        a.disjoint(b),
    ensures
        bytes_held(a.union(b), from, to).len() == bytes_held(a, from, to).len() + bytes_held(b, from, to).len(),
{
    lemma_held_bound(a, from, to);
    lemma_held_bound(b, from, to);
    assert(bytes_held(a.union(b), from, to) =~= bytes_held(a, from, to).union(bytes_held(b, from, to)));
    vstd::set_lib::lemma_set_disjoint_lens(bytes_held(a, from, to), bytes_held(b, from, to));
}

/// No more bytes are held than there are.
proof fn lemma_held_bound(chunks: Set<u64>, from: int, to: int)
    ensures
        bytes_held(chunks, from, to).finite(),
        bytes_held(chunks, from, to).len() <= if from < to { to - from } else { 0 },
{
    let held = bytes_held(chunks, from, to);
    if from < to {
        vstd::set_lib::lemma_int_range(from, to);
        assert(held.subset_of(vstd::set_lib::set_int_range(from, to)));
        vstd::set_lib::lemma_len_subset(held, vstd::set_lib::set_int_range(from, to));
    } else {
        assert(held =~= Set::<int>::empty());
    }
}

/// Buckets before the one with byte `first`, or after the one with byte `last`, have no byte
/// from `first` to `last`.
proof fn lemma_other_buckets(size: int, first: int, last: int, bucket: int)
    requires
        size > 0,
        0 <= first <= last,
    ensures
        bucket < first / bucket_bytes(size) ==> bucket_start(size, bucket + 1) <= first,
        bucket > last / bucket_bytes(size) ==> last < bucket_start(size, bucket),
        bucket_start(size, first / bucket_bytes(size)) <= first,
        first < bucket_start(size, first / bucket_bytes(size) + 1),
        bucket_start(size, last / bucket_bytes(size)) <= last,
        last < bucket_start(size, last / bucket_bytes(size) + 1),
{
    let b = bucket_bytes(size);
    vstd::arithmetic::div_mod::lemma_fundamental_div_mod(first, b);
    vstd::arithmetic::div_mod::lemma_mod_bound(first, b);
    vstd::arithmetic::div_mod::lemma_fundamental_div_mod(last, b);
    vstd::arithmetic::div_mod::lemma_mod_bound(last, b);
    let f = first / b;
    let l = last / b;
    assert(f * b <= first < (f + 1) * b) by (nonlinear_arith)
        requires
            first == b * f + first % b,
            0 <= first % b < b,
    ;
    assert(l * b <= last < (l + 1) * b) by (nonlinear_arith)
        requires
            last == b * l + last % b,
            0 <= last % b < b,
    ;
    if bucket < f {
        assert((bucket + 1) * b <= f * b) by (nonlinear_arith)
            requires
                bucket + 1 <= f,
                b > 0,
        ;
    }
    if bucket > l {
        assert((l + 1) * b <= bucket * b) by (nonlinear_arith)
            requires
                l + 1 <= bucket,
                b > 0,
        ;
    }
}

/// Adds, for each bucket, how many of its bytes lie in the chunks from `start` on, up to and
/// without `end`.
fn add_range(count: &mut Vec<usize>, start: u64, end: u64, size: usize)
    requires
        size > 0,
        start < end,
        old(count)@.len() == bucket_count(size as int),
        forall|k: int|
            0 <= k < old(count)@.len() ==> #[trigger] old(count)@[k] + bucket_held(span(start, end), size as int, k)
                <= usize::MAX,
    ensures
        final(count)@.len() == old(count)@.len(),
        forall|k: int|
            0 <= k < final(count)@.len() ==> #[trigger] final(count)@[k] == old(count)@[k] + bucket_held(
                span(start, end),
                size as int,
                k,
            ),
{
    let ghost bytes = size as int;
    let ghost before = count@;
    let bucket_size_bytes: usize = (size - 1) / 100 + 1;
    proof {
        lemma_buckets(bytes);
    }
    let last_chunk: u64 = (size - 1) as u64 / CHUNK_BYTES;
    if start > last_chunk {
        assert forall|k: int| 0 <= k < before.len() implies bucket_held(span(start, end), bytes, k) == 0 by {
            lemma_bucket_window(bytes, k);
            lemma_span_held(start, end, bucket_start(bytes, k), bucket_end(bytes, k));
        }
        return;
    }
    let range_start_bytes: usize = start as usize * 1024;
    let range_end_bytes: usize = if end > last_chunk { size } else { end as usize * 1024 };
    let start_bucket: usize = range_start_bytes / bucket_size_bytes;
    let end_bucket: usize = (range_end_bytes - 1) / bucket_size_bytes;
    proof {
        lemma_other_buckets(bytes, range_start_bytes as int, range_end_bytes - 1, bucket_count(bytes));
        if end_bucket >= bucket_count(bytes) {
            lemma_other_buckets(bytes, range_start_bytes as int, range_end_bytes - 1, end_bucket as int);
            assert(bucket_start(bytes, bucket_count(bytes)) <= bucket_start(bytes, end_bucket as int))
                by (nonlinear_arith)
                requires
                    bucket_count(bytes) <= end_bucket,
                    bucket_bytes(bytes) > 0,
            ;
        }
        if start_bucket > end_bucket {
            lemma_other_buckets(bytes, range_start_bytes as int, range_end_bytes - 1, start_bucket as int);
        }
    }
    let mut bucket_idx: usize = start_bucket;
    while bucket_idx <= end_bucket
        invariant
            bytes == size,
            size > 0,
            start < end,
            bucket_size_bytes == bucket_bytes(bytes),
            bucket_size_bytes > 0,
            last_chunk == (size - 1) / 1024,
            start <= last_chunk,
            range_start_bytes == start * 1024,
            range_end_bytes == if end > last_chunk { size as int } else { end * 1024 },
            range_end_bytes <= size,
            range_start_bytes < range_end_bytes,
            start_bucket == range_start_bytes as int / bucket_bytes(bytes),
            end_bucket == (range_end_bytes - 1) / bucket_bytes(bytes),
            start_bucket <= bucket_idx <= end_bucket + 1,
            end_bucket < bucket_count(bytes) <= 100,
            before.len() == bucket_count(bytes),
            count@.len() == before.len(),
            forall|k: int|
                0 <= k < before.len() ==> #[trigger] before[k] + bucket_held(span(start, end), bytes, k) <= usize::MAX,
            forall|k: int|
                0 <= k < count@.len() ==> #[trigger] count@[k] == before[k] + if start_bucket <= k < bucket_idx {
                    bucket_held(span(start, end), bytes, k)
                } else {
                    0
                },
        decreases end_bucket + 1 - bucket_idx,
    {
        proof {
            lemma_bucket_window(bytes, bucket_idx as int);
            lemma_other_buckets(bytes, range_start_bytes as int, range_end_bytes - 1, bucket_idx as int);
            lemma_span_held(
                start,
                end,
                bucket_start(bytes, bucket_idx as int),
                bucket_end(bytes, bucket_idx as int),
            );
            lemma_bucket_steps(bytes, start_bucket as int, bucket_idx as int, end_bucket as int);
            assert(before[bucket_idx as int] == count@[bucket_idx as int]);
        }
        let this_start: usize = bucket_idx * bucket_size_bytes;
        let this_end: usize = if bucket_size_bytes < size - this_start {
            this_start + bucket_size_bytes
        } else {
            size
        };
        assert(bucket_start(bytes, bucket_idx + 1) == this_start + bucket_size_bytes) by (nonlinear_arith)
            requires
                this_start == bucket_idx * bucket_size_bytes,
                bucket_size_bytes == bucket_bytes(bytes),
        ;
        let overlap_start: usize = if range_start_bytes > this_start { range_start_bytes } else { this_start };
        let overlap_end: usize = if range_end_bytes < this_end { range_end_bytes } else { this_end };
        let sum: usize = count[bucket_idx] + (overlap_end - overlap_start);
        count.set(bucket_idx, sum);
        bucket_idx = bucket_idx + 1;
    }
    assert forall|k: int| 0 <= k < before.len() && !(start_bucket <= k <= end_bucket) implies bucket_held(
        span(start, end),
        bytes,
        k,
    ) == 0 by {
        lemma_bucket_window(bytes, k);
        lemma_other_buckets(bytes, range_start_bytes as int, range_end_bytes - 1, k);
        lemma_span_held(start, end, bucket_start(bytes, k), bucket_end(bytes, k));
    }
}

/// A bucket lies inside the blob.
proof fn lemma_bucket_window(size: int, bucket: int)
    requires
        size > 0,
        0 <= bucket < bucket_count(size),
    ensures
        0 <= bucket_start(size, bucket) < bucket_end(size, bucket) <= size,
        bucket_end(size, bucket) - bucket_start(size, bucket) <= bucket_bytes(size),
{
    lemma_buckets(size);
    let b = bucket_bytes(size);
    assert(0 <= bucket * b <= (bucket_count(size) - 1) * b) by (nonlinear_arith)
        requires
            0 <= bucket <= bucket_count(size) - 1,
            b > 0,
    ;
    assert((bucket + 1) * b == bucket * b + b) by (nonlinear_arith);
}

/// Buckets between two others lie between them.
proof fn lemma_bucket_steps(size: int, first: int, bucket: int, last: int)
    requires
        size > 0,
        first <= bucket <= last,
    ensures
        bucket_start(size, first) <= bucket_start(size, bucket) <= bucket_start(size, last),
        first < bucket ==> bucket_start(size, first + 1) <= bucket_start(size, bucket),
        bucket < last ==> bucket_start(size, bucket + 1) <= bucket_start(size, last),
{
    let b = bucket_bytes(size);
    assert(first * b <= bucket * b <= last * b) by (nonlinear_arith)
        requires
            first <= bucket <= last,
            b > 0,
    ;
    if first < bucket {
        assert((first + 1) * b <= bucket * b) by (nonlinear_arith)
            requires
                first + 1 <= bucket,
                b > 0,
        ;
    }
    if bucket < last {
        assert((bucket + 1) * b <= last * b) by (nonlinear_arith)
            requires
                bucket + 1 <= last,
                b > 0,
        ;
    }
}

/// One character for each bucket of the blob, by how much of it the chunks cover, or the
/// words `Open range` where a range of the chunks has no end.
pub fn print_bitfield(bitfield: &ChunkRanges, size: usize) -> (res: String)
    requires
        size > 0,
    ensures
        bitfield@.contains(u64::MAX) ==> res@ == "Open range"@,
        !bitfield@.contains(u64::MAX) ==> res@ == bitfield_line(bitfield@, size as int),
        !bitfield@.contains(u64::MAX) ==> {
            let b = (size + 99) / 100;
            &&& res@.len() * b >= size
            &&& (res@.len() - 1) * b < size
            &&& forall|k: int|
                0 <= k < res@.len() ==> {
                    let n = Set::new(
                        |p: int| k * b <= p < (k + 1) * b && p < size && bitfield@.contains((p / 1024) as u64),
                    ).len();
                    &&& #[trigger] res@[k] == ' ' <==> n == 0
                    &&& res@[k] == '░' <==> 0 < 4 * n <= b
                    &&& res@[k] == '▒' <==> b < 4 * n <= 2 * b
                    &&& res@[k] == '▓' <==> 2 * b < 4 * n <= 3 * b
                    &&& res@[k] == '█' <==> 3 * b < 4 * n
                }
        },
{
    let ghost bytes = size as int;
    let bucket_size_bytes: usize = (size - 1) / 100 + 1;
    let buckets: usize = (size - 1) / bucket_size_bytes + 1;
    proof {
        lemma_buckets(bytes);
    }
    let mut count: Vec<usize> = vec![0usize; buckets];
    let list = bitfield.to_ranges();
    assert(covered(list@.take(0)) =~= Set::<u64>::empty());
    assert forall|k: int| 0 <= k < buckets implies bucket_held(covered(list@.take(0)), bytes, k) == 0 by {
        assert(bytes_held(covered(list@.take(0)), bucket_start(bytes, k), bucket_end(bytes, k)) =~= Set::<int>::empty());
    }
    for i in 0..list.len()
        invariant
            bytes == size,
            size > 0,
            ascending(list@),
            covered(list@) == bitfield@,
            count@.len() == bucket_count(bytes),
            forall|k: int|
                0 <= k < count@.len() ==> #[trigger] count@[k] == bucket_held(covered(list@.take(i as int)), bytes, k),
            forall|k: int| 0 <= k < i ==> (#[trigger] list@[k]) is Range,
    {
        match list[i] {
            ChunkRange::Range { start, end } => {
                let ghost before = covered(list@.take(i as int));
                let ghost old_count = count@;
                proof {
                    assert(list@[i as int].holds_some());
                    lemma_covered_below(list@, i as int);
                    lemma_covered_push(list@, i as int);
                    assert forall|k: int| 0 <= k < count@.len() implies bucket_held(
                        before.union(span(start, end)),
                        bytes,
                        k,
                    ) == #[trigger] count@[k] + bucket_held(span(start, end), bytes, k) && bucket_held(
                        before.union(span(start, end)),
                        bytes,
                        k,
                    ) <= usize::MAX by {
                        lemma_bucket_window(bytes, k);
                        lemma_held_union(before, span(start, end), bucket_start(bytes, k), bucket_end(bytes, k));
                        lemma_held_bound(
                            before.union(span(start, end)),
                            bucket_start(bytes, k),
                            bucket_end(bytes, k),
                        );
                    }
                }
                add_range(&mut count, start, end, size);
            },
            ChunkRange::RangeFrom { start } => {
                assert(list@[i as int].chunks().contains(u64::MAX));
                return "Open range".to_owned();
            },
        }
    }
    assert(list@.take(list@.len() as int) =~= list@);
    let mut res = String::new();
    for k in 0..count.len()
        invariant
            bucket_size_bytes == bucket_bytes(bytes),
            count@.len() == bucket_count(bytes),
            forall|k: int| 0 <= k < count@.len() ==> #[trigger] count@[k] == bucket_held(bitfield@, bytes, k),
            res@ == bitfield_line(bitfield@, bytes).take(k as int),
    {
        let c = bucket_to_char(count[k], bucket_size_bytes);
        res.push(c);
        assert(res@ =~= bitfield_line(bitfield@, bytes).take(k + 1));
    }
    assert(res@ =~= bitfield_line(bitfield@, bytes));
    proof {
        let b = (size + 99) / 100;
        law_line_length(bitfield@, bytes);
        law_line_shades(bitfield@, bytes, b, 0);
        assert forall|k: int| 0 <= k < res@.len() implies {
            let n = Set::new(
                |p: int| k * b <= p < (k + 1) * b && p < size && bitfield@.contains((p / 1024) as u64),
            ).len();
            &&& #[trigger] res@[k] == ' ' <==> n == 0
            &&& res@[k] == '░' <==> 0 < 4 * n <= b
            &&& res@[k] == '▒' <==> b < 4 * n <= 2 * b
            &&& res@[k] == '▓' <==> 2 * b < 4 * n <= 3 * b
            &&& res@[k] == '█' <==> 3 * b < 4 * n
        } by {
            law_line_shades(bitfield@, bytes, b, k);
            assert(Set::new(
                |p: int| k * b <= p < (k + 1) * b && p < bytes && bitfield@.contains((p / 1024) as u64),
            ) =~= Set::new(
                |p: int| k * b <= p < (k + 1) * b && p < size && bitfield@.contains((p / 1024) as u64),
            ));
        }
    }
    res
}

/// The line of a blob has one character for each bucket, and never more than a hundred.
pub proof fn law_line_length(chunks: Set<u64>, size: int)
    requires
        size > 0,
    ensures
        bitfield_line(chunks, size).len() == bucket_count(size),
        0 < bitfield_line(chunks, size).len() <= 100,
{
    lemma_buckets(size);
}

/// The character of a bucket is blank exactly where nothing of the bucket is held; it is
/// the darkest where a bucket of full size is held whole.
pub proof fn law_line_ends(chunks: Set<u64>, size: int, bucket: int)
    requires
        0 < size,
        0 <= bucket < bucket_count(size),
    ensures
        ({
            let from = bucket_start(size, bucket);
            let to = bucket_end(size, bucket);
            let held = bytes_held(chunks, from, to);
            let c = bitfield_line(chunks, size)[bucket];
            &&& c == ' ' <==> held == Set::<int>::empty()
            &&& to == bucket_start(size, bucket + 1) && held == vstd::set_lib::set_int_range(from, to) ==> c == '█'
        }),
{
    let from = bucket_start(size, bucket);
    let to = bucket_end(size, bucket);
    let held = bytes_held(chunks, from, to);
    lemma_bucket_window(size, bucket);
    lemma_buckets(size);
    lemma_held_bound(chunks, from, to);
    vstd::set_lib::lemma_int_range(from, to);
    if held.len() == 0 {
        held.lemma_len0_is_empty();
    }
    assert((bucket + 1) * bucket_bytes(size) == bucket * bucket_bytes(size) + bucket_bytes(size)) by (nonlinear_arith);
}

} // verus!
