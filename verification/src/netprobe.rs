//! Link classification from measured round-trip times, and the transport
//! settings suggested for each class.
use vstd::prelude::*;

verus! {

/// Why a probe could not run.
#[derive(Debug, Clone)]
pub enum ProbeError {
    Unavailable(String),
}

/// Distance class of a link, by its smallest round-trip time.
#[derive(Debug, Clone, Copy, PartialEq, Eq, Structural)]
pub enum LinkClass {
    Datacenter,
    Regional,
    Continental,
    Intercontinental,
}

/// Transport settings suited to a link class.
#[derive(Debug, Clone, Copy, PartialEq, Eq, Structural)]
pub struct SuggestedTransportConfig {
    pub initial_cwnd_bytes: u64,
    pub max_parallel_streams: usize,
    pub use_datagrams_for_progress: bool,
    pub chunk_size_for_batch: usize,
}

/// Echo endpoint that probes measure against.
#[derive(Debug, Clone, Copy)]
pub struct ProbeServer;

/// Class of a link whose smallest round-trip time is `min_rtt_ns`
/// nanoseconds: below 5 ms a datacenter, below 30 ms regional, below 100 ms
/// continental, otherwise intercontinental.
pub open spec fn spec_classify(min_rtt_ns: u128) -> LinkClass {
    if min_rtt_ns < 5_000_000 {
        LinkClass::Datacenter
    } else if min_rtt_ns < 30_000_000 {
        LinkClass::Regional
    } else if min_rtt_ns < 100_000_000 {
        LinkClass::Continental
    } else {
        LinkClass::Intercontinental
    }
}

/// Classifies a link by its smallest round-trip time in nanoseconds.
pub fn classify(min_rtt_ns: u128) -> (r: LinkClass)
    ensures
        r == spec_classify(min_rtt_ns),
{
    if min_rtt_ns < 5_000_000 {
        LinkClass::Datacenter
    } else if min_rtt_ns < 30_000_000 {
        LinkClass::Regional
    } else if min_rtt_ns < 100_000_000 {
        LinkClass::Continental
    } else {
        LinkClass::Intercontinental
    }
}

/// Settings for each class: a larger initial window the longer the link,
/// datagrams for progress only on short links, smaller batches on long ones.
pub open spec fn spec_suggest(link: LinkClass) -> SuggestedTransportConfig {
    match link {
        LinkClass::Datacenter => SuggestedTransportConfig {
            initial_cwnd_bytes: 65536,
            max_parallel_streams: 16,
            use_datagrams_for_progress: true,
            chunk_size_for_batch: 128,
        },
        LinkClass::Regional => SuggestedTransportConfig {
            initial_cwnd_bytes: 262144,
            max_parallel_streams: 8,
            use_datagrams_for_progress: true,
            chunk_size_for_batch: 64,
        },
        LinkClass::Continental => SuggestedTransportConfig {
            initial_cwnd_bytes: 1048576,
            max_parallel_streams: 8,
            use_datagrams_for_progress: false,
            chunk_size_for_batch: 32,
        },
        LinkClass::Intercontinental => SuggestedTransportConfig {
            initial_cwnd_bytes: 4194304,
            max_parallel_streams: 16,
            use_datagrams_for_progress: false,
            chunk_size_for_batch: 16,
        },
    }
}

/// Suggests transport settings for a link class.
pub fn suggest(link: &LinkClass) -> (r: SuggestedTransportConfig)
    ensures
        r == spec_suggest(*link),
{
    match link {
        LinkClass::Datacenter => SuggestedTransportConfig {
            initial_cwnd_bytes: 64 * 1024,
            max_parallel_streams: 16,
            use_datagrams_for_progress: true,
            chunk_size_for_batch: 128,
        },
        LinkClass::Regional => SuggestedTransportConfig {
            initial_cwnd_bytes: 256 * 1024,
            max_parallel_streams: 8,
            use_datagrams_for_progress: true,
            chunk_size_for_batch: 64,
        },
        LinkClass::Continental => SuggestedTransportConfig {
            initial_cwnd_bytes: 1024 * 1024,
            max_parallel_streams: 8,
            use_datagrams_for_progress: false,
            chunk_size_for_batch: 32,
        },
        LinkClass::Intercontinental => SuggestedTransportConfig {
            initial_cwnd_bytes: 4 * 1024 * 1024,
            max_parallel_streams: 16,
            use_datagrams_for_progress: false,
            chunk_size_for_batch: 16,
        },
    }
}

/// Law: the longer a link's smallest round-trip time, the larger the initial
/// window suggested for it, and links of 30 ms or more report progress over
/// streams.
pub proof fn law_suggestion_scales_with_rtt(a_ns: u128, b_ns: u128)
    requires
        a_ns <= b_ns,
    ensures
        spec_suggest(spec_classify(a_ns)).initial_cwnd_bytes <= spec_suggest(spec_classify(b_ns)).initial_cwnd_bytes,
        b_ns >= 30_000_000 ==> !spec_suggest(spec_classify(b_ns)).use_datagrams_for_progress,
{
}

/// Distance class of a link by its average round-trip time.
#[derive(Debug, Clone, Copy, PartialEq, Eq, Structural)]
pub enum LinkType {
    Datacenter,
    Continental,
    Intercontinental,
}

/// Probe of a peer that derives a link type from connection round trips.
#[derive(Debug, Clone, Copy)]
pub struct CongestionOracle;

/// Link type by average round-trip time in nanoseconds: below 10 ms a
/// datacenter, below 80 ms continental, otherwise intercontinental.
pub open spec fn spec_link_type(avg_rtt_ns: u128) -> LinkType {
    if avg_rtt_ns < 10_000_000 {
        LinkType::Datacenter
    } else if avg_rtt_ns < 80_000_000 {
        LinkType::Continental
    } else {
        LinkType::Intercontinental
    }
}

impl CongestionOracle {
    /// Classifies a link by its average round-trip time in nanoseconds.
    pub fn link_type_for(avg_rtt_ns: u128) -> (r: LinkType)
        ensures
            r == spec_link_type(avg_rtt_ns),
    {
        if avg_rtt_ns < 10_000_000 {
            LinkType::Datacenter
        } else if avg_rtt_ns < 80_000_000 {
            LinkType::Continental
        } else {
            LinkType::Intercontinental
        }
    }

    /// Smallest round-trip sample in nanoseconds, 200 ms when there is none.
    pub fn min_rtt_ns(samples: &[u128]) -> (r: u128)
        ensures
            samples@.len() == 0 ==> r == 200_000_000,
            samples@.len() > 0 ==> samples@.contains(r) && forall|i: int| 0 <= i < samples@.len() ==> r <= #[trigger] samples@[i],
    {
        if samples.len() == 0 {
            return 200_000_000;
        }
        let mut m = samples[0];
        let mut i: usize = 1;
        proof {
            assert(samples@.subrange(0, 1)[0] == m);
        }
        while i < samples.len()
            invariant
                1 <= i <= samples@.len(),
                samples@.subrange(0, i as int).contains(m),
                forall|j: int| 0 <= j < i ==> m <= #[trigger] samples@[j],
            decreases samples@.len() - i,
        {
            if samples[i] < m {
                m = samples[i];
                proof {
                    assert(samples@.subrange(0, i + 1)[i as int] == m);
                }
            } else {
                proof {
                    let k = choose|k: int| 0 <= k < i && samples@.subrange(0, i as int)[k] == m;
                    assert(samples@.subrange(0, i + 1)[k] == m);
                }
            }
            i = i + 1;
        }
        proof {
            assert(samples@.subrange(0, samples@.len() as int) =~= samples@);
        }
        m
    }
}

/// Server name a client presents to `ip`: `localhost` for loopback
/// addresses, the address itself otherwise.
pub fn server_name_for(is_loopback: bool, ip_text: &str) -> (r: String)
    ensures
        is_loopback ==> r@ == "localhost"@,
        !is_loopback ==> r@ == ip_text@,
{
    if is_loopback {
        "localhost".to_string()
    } else {
        ip_text.to_string()
    }
}


/// Law: a link is classed by its smallest round trip against fixed bounds:
/// under 5 ms a datacenter, from 5 ms to under 30 ms regional, from 30 ms to
/// under 100 ms continental, and intercontinental exactly from 100 ms on.
pub proof fn law_classify_bounds(min_rtt_ns: u128)
    ensures
        min_rtt_ns < 5_000_000 ==> spec_classify(min_rtt_ns) == LinkClass::Datacenter,
        5_000_000 <= min_rtt_ns < 30_000_000 ==> spec_classify(min_rtt_ns) == LinkClass::Regional,
        30_000_000 <= min_rtt_ns < 100_000_000 ==> spec_classify(min_rtt_ns) == LinkClass::Continental,
        (spec_classify(min_rtt_ns) == LinkClass::Intercontinental) <==> min_rtt_ns >= 100_000_000,
{
}

} // verus!
