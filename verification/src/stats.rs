//! What is known of a node from the downloads so far.
use vstd::prelude::*;

use crate::chunks::{total_chunks, ChunkRanges, CHUNK_BYTES};
use crate::quality::Quality;

verus! {

/// Statistics of one node. Times are in nanoseconds; points in time count from one fixed
/// point.
#[derive(Debug)]
pub struct PerNodeStats {
    /// total downloaded chunks from this node
    pub ranges: ChunkRanges,
    /// error count
    pub errors: u64,
    /// total time this node was downloading
    pub time: u128,
    /// start of the current download
    pub start: Option<u128>,
    /// initial latency
    pub latency: u128,
}

/// How many bytes a number of chunks has, as far as 64 bits can tell.
pub open spec fn chunks_to_bytes(chunks: int) -> u64 {
    if chunks * CHUNK_BYTES <= u64::MAX {
        (chunks * CHUNK_BYTES) as u64
    } else {
        u64::MAX
    }
}

impl PerNodeStats {
    /// Statistics of a node that was never used.
    pub open spec fn unused(self, latency: u128) -> bool {
        &&& self.ranges@ == Set::<u64>::empty()
        &&& self.errors == 0
        &&& self.time == 0
        &&& self.start is None
        &&& self.latency == latency
    }

    /// Number of chunks downloaded, known where no range is without an end.
    pub open spec fn chunk_count(self) -> Option<nat> {
        if self.ranges@.contains(u64::MAX) {
            None
        } else {
            Some(self.ranges@.len())
        }
    }

    /// A rate is known once something has been measured.
    pub open spec fn has_rate(self) -> bool {
        self.chunk_count() is Some && self.time != 0
    }

    /// The quality of the node, where `rate` was measured.
    pub open spec fn quality_at(self, rate: Option<u64>) -> Quality {
        Quality {
            errors: self.errors,
            rate: if self.has_rate() {
                rate
            } else {
                None
            },
            latency: self.latency,
        }
    }

    /// Statistics of a node of which only the latency is known.
    pub fn with_latency(latency: u128) -> (res: PerNodeStats)
        ensures
            res.unused(latency),
            res.latency == latency && res.errors == 0 && res.time == 0 && res.start is None,
            forall|c: u64| !res.ranges@.contains(c),
    {
        PerNodeStats { ranges: ChunkRanges::empty(), errors: 0, time: 0, start: None, latency }
    }

    /// Total number of chunks downloaded from this node
    pub fn total_chunks(&self) -> (res: Option<u64>)
        ensures
            match (res, self.chunk_count()) {
                (Some(n), Some(count)) => n == count,
                (None, None) => true,
                _ => false,
            },
            res is None <==> self.ranges@.contains(u64::MAX),
            res is Some ==> res->0 == self.ranges@.len(),
    {
        total_chunks(&self.ranges)
    }

    /// Total number of bytes downloaded from this node
    pub fn total_bytes(&self) -> (res: Option<usize>)
        ensures
            match (res, self.chunk_count()) {
                (Some(n), Some(count)) => n == chunks_to_bytes(count as int) as usize,
                (None, None) => true,
                _ => false,
            },
            res is None <==> self.ranges@.contains(u64::MAX),
            res is Some && 1024 * self.ranges@.len() <= usize::MAX ==> res->0 == 1024 * self.ranges@.len(),
    {
        match self.total_chunks() {
            Some(chunks) => {
                let bytes: u64 = if chunks <= u64::MAX / CHUNK_BYTES {
                    chunks * CHUNK_BYTES
                } else {
                    u64::MAX
                };
                Some(#[verifier::truncate] (bytes as usize))
            },
            None => None,
        }
    }

    /// Bytes and nanoseconds whose quotient is the download rate from this node, if
    /// available
    pub fn rate(&self) -> (res: Option<(usize, u128)>)
        ensures
            res is Some <==> self.has_rate(),
            res matches Some((total, time)) ==> {
                &&& total == chunks_to_bytes(self.chunk_count()->0 as int) as usize
                &&& time == self.time
            },
            res is Some <==> self.time > 0 && !self.ranges@.contains(u64::MAX),
            res is Some && 1024 * self.ranges@.len() <= usize::MAX ==> res == Some(
                ((1024 * self.ranges@.len()) as usize, self.time),
            ),
    {
        match self.total_bytes() {
            Some(total) => {
                if self.time == 0 {
                    // we have not yet downloaded anything!
                    return None;
                }
                Some((total, self.time))
            },
            None => None,
        }
    }

    /// Quality metric for this node, lower is better
    ///
    /// The measured rate, in whole bytes per second, counts where one is available.
    pub fn quality(&self, rate: Option<u64>) -> (res: Quality)
        ensures
            res == self.quality_at(rate),
            res.errors == self.errors,
            res.latency == self.latency,
            self.time > 0 && !self.ranges@.contains(u64::MAX) ==> res.rate == rate,
            self.time == 0 || self.ranges@.contains(u64::MAX) ==> res.rate is None,
    {
        match self.rate() {
            Some(_) => Quality::new(self.errors, rate, self.latency),
            None => Quality::new(self.errors, None, self.latency),
        }
    }
}

impl Default for PerNodeStats {
    fn default() -> (res: PerNodeStats)
        ensures
            res.unused(0),
    {
        PerNodeStats::with_latency(0)
    }
}

} // verus!
