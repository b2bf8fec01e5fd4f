//! Splitting a batch of telemetry events over parallel QUIC streams.
use vstd::prelude::*;

verus! {

/// Sends event batches over several unidirectional streams at once.
#[derive(Debug, Clone, Copy, PartialEq, Eq, Structural)]
pub struct BatchSender {
    pub max_parallel_streams: usize,
    pub chunk_size: usize,
}

impl Default for BatchSender {
    /// Eight streams at a time, 64 events per stream.
    fn default() -> (r: Self)
        ensures
            r.max_parallel_streams == 8,
            r.chunk_size == 64,
    {
        BatchSender { max_parallel_streams: 8, chunk_size: 64 }
    }
}

/// Events per stream: the configured chunk size, at least one.
pub open spec fn spec_per_stream(chunk_size: usize) -> nat {
    if chunk_size == 0 { 1 } else { chunk_size as nat }
}

/// The `k`-th stream carries events `k * c .. min((k + 1) * c, total)`.
pub open spec fn spec_stream_range(total: nat, c: nat, k: int) -> (int, int) {
    let start = k * c;
    let end = if (k + 1) * c < total { (k + 1) * c } else { total as int };
    (start, end)
}

impl BatchSender {
    /// Streams opened at once: the configured number, at least one.
    pub fn parallel_streams(&self) -> (r: usize)
        ensures
            r == if self.max_parallel_streams == 0 { 1 } else { self.max_parallel_streams },
    {
        if self.max_parallel_streams == 0 { 1 } else { self.max_parallel_streams }
    }

    /// The event ranges `[start, end)` of a batch of `total` events, one per
    /// stream, in order: consecutive runs of `chunk_size` events (at least
    /// one), the last one shorter when they do not divide evenly.
    pub fn stream_ranges(&self, total: usize) -> (r: Vec<(usize, usize)>)
        ensures
            r@.len() == (total + spec_per_stream(self.chunk_size) - 1) / (spec_per_stream(self.chunk_size) as int),
            forall|k: int| 0 <= k < r@.len() ==> (#[trigger] r@[k]).0 == spec_stream_range(total as nat, spec_per_stream(self.chunk_size), k).0
                && r@[k].1 == spec_stream_range(total as nat, spec_per_stream(self.chunk_size), k).1,
    {
        let c: usize = if self.chunk_size == 0 { 1 } else { self.chunk_size };
        let ghost cn = c as nat;
        let mut out: Vec<(usize, usize)> = Vec::new();
        let mut start: usize = 0;
        proof {
            assert(out@.len() == 0);
            assert(0 * cn == 0) by (nonlinear_arith);
            if total == 0 {
                assert((total + cn - 1) / (cn as int) == 0) by (nonlinear_arith)
                    requires
                        total == 0,
                        cn > 0;
            }
        }
        while start < total
            invariant
                c > 0,
                cn == c,
                cn == spec_per_stream(self.chunk_size),
                start <= total,
                start < total ==> start == out@.len() * cn,
                start == total ==> (total + cn - 1) / (cn as int) == out@.len(),
                forall|k: int| 0 <= k < out@.len() ==> (#[trigger] out@[k]).0 == spec_stream_range(total as nat, cn, k).0
                    && out@[k].1 == spec_stream_range(total as nat, cn, k).1,
            decreases total - start,
        {
            let end = if total - start > c { start + c } else { total };
            let ghost k = out@.len() as int;
            proof {
                assert(k * cn + cn == (k + 1) * cn) by (nonlinear_arith);
            }
            out.push((start, end));
            proof {
                assert forall|j: int| 0 <= j < out@.len() implies (#[trigger] out@[j]).0 == spec_stream_range(total as nat, cn, j).0
                    && out@[j].1 == spec_stream_range(total as nat, cn, j).1 by {
                }
            }
            start = end;
            proof {
                if start == total {
                    assert((total + cn - 1) / (cn as int) == k + 1) by (nonlinear_arith)
                        requires
                            k * cn < total,
                            total <= (k + 1) * cn,
                            cn > 0;
                }
            }
        }
        out
    }
}

} // verus!
