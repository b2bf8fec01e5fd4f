use vstd::prelude::*;

verus! {

/// Stable identity of a packet on the wire.
#[derive(Debug, Clone, Copy, PartialEq, Eq, Hash, Structural)]
pub struct PacketId(pub u64);

/// Scheduling metadata of a packet. `deadline` is an absolute wall-clock
/// instant in Unix milliseconds.
#[derive(Debug, Clone, Copy, PartialEq, Eq, Structural)]
pub struct PacketMeta {
    pub id: u64,
    pub priority: u8,
    pub deadline: Option<u64>,
    pub size: usize,
}

/// One data or parity shard travelling through the adaptive pipeline.
#[derive(Debug)]
pub struct Packet {
    pub id: PacketId,
    pub seq: u64,
    pub payload: Vec<u8>,
    pub is_parity: bool,
    pub meta: PacketMeta,
    pub fec_group: u64,
    pub reconstructable: bool,
    /// Index within the RS parity block (0 .. parity_shards-1).
    pub parity_index: usize,
}

/// Mathematical value of a [`Packet`]: the payload as a byte sequence.
pub struct PacketView {
    pub id: u64,
    pub seq: u64,
    pub payload: Seq<u8>,
    pub is_parity: bool,
    pub meta: PacketMeta,
    pub fec_group: u64,
    pub reconstructable: bool,
    pub parity_index: usize,
}

impl View for Packet {
    type V = PacketView;

    open spec fn view(&self) -> PacketView {
        PacketView {
            id: self.id.0,
            seq: self.seq,
            payload: self.payload@,
            is_parity: self.is_parity,
            meta: self.meta,
            fec_group: self.fec_group,
            reconstructable: self.reconstructable,
            parity_index: self.parity_index,
        }
    }
}

impl Clone for Packet {
    fn clone(&self) -> (r: Self)
        ensures
            r@ == self@,
    {
        Packet {
            id: self.id,
            seq: self.seq,
            payload: copy_bytes(&self.payload),
            is_parity: self.is_parity,
            meta: self.meta,
            fec_group: self.fec_group,
            reconstructable: self.reconstructable,
            parity_index: self.parity_index,
        }
    }
}

/// Reads the wall clock through `SystemTime::now`: milliseconds since the
/// Unix epoch, 0 when the clock is set before it. Trusted, with nothing
/// promised about the value.
#[verifier::external_body]
pub(crate) fn unix_time_ms() -> u64 {
    match std::time::SystemTime::now().duration_since(std::time::UNIX_EPOCH) {
        Ok(d) => d.as_millis() as u64,
        Err(_) => 0,
    }
}

/// A fresh vector holding the same bytes.
pub fn copy_bytes(v: &[u8]) -> (r: Vec<u8>)
    ensures
        r@ == v@,
{
    let mut r: Vec<u8> = Vec::with_capacity(v.len());
    let mut i: usize = 0;
    while i < v.len()
        invariant
            i <= v.len(),
            r@ == v@.subrange(0, i as int),
        decreases v.len() - i,
    {
        r.push(v[i]);
        i = i + 1;
    }
    r
}

/// The views of a sequence of packets.
pub open spec fn packets_view(s: Seq<Packet>) -> Seq<PacketView> {
    s.map_values(|p: Packet| p@)
}

/// A fresh vector holding copies of the given packets, in order.
pub fn copy_packets(v: &[Packet]) -> (r: Vec<Packet>)
    ensures
        packets_view(r@) == packets_view(v@),
{
    let mut r: Vec<Packet> = Vec::with_capacity(v.len());
    let mut i: usize = 0;
    while i < v.len()
        invariant
            i <= v.len(),
            packets_view(r@) == packets_view(v@.subrange(0, i as int)),
        decreases v.len() - i,
    {
        r.push(v[i].clone());
        proof {
            assert(packets_view(v@.subrange(0, i + 1)) =~= packets_view(v@.subrange(0, i as int)).push(v@[i as int]@));
        }
        i = i + 1;
    }
    proof {
        assert(v@.subrange(0, v@.len() as int) =~= v@);
    }
    r
}

/// A packet is critical when its priority is at least 200 or it carries a deadline.
pub open spec fn spec_is_critical(meta: PacketMeta) -> bool {
    meta.priority >= 200 || meta.deadline is Some
}

/// Slack before a deadline under which a packet counts as nearly due, in milliseconds.
pub const DEADLINE_SLACK_MS: u64 = 15;

/// A deadline is near when it falls no later than `now_ms + 15 ms`.
pub open spec fn spec_nearing_deadline(meta: PacketMeta, now_ms: u64) -> bool {
    match meta.deadline {
        Some(d) => d <= now_ms + DEADLINE_SLACK_MS,
        None => false,
    }
}

impl Packet {
    pub fn is_critical(&self) -> (r: bool)
        ensures
            r == spec_is_critical(self.meta),
    {
        self.meta.priority >= 200 || self.meta.deadline.is_some()
    }

    /// Whether the deadline falls within 15 ms of now, by the wall clock:
    /// the answer of [`Packet::nearing_deadline_at`] at the instant the clock
    /// is read. Without a deadline the answer is always no.
    pub fn nearing_deadline(&self) -> (r: bool)
        ensures
            self.meta.deadline is None ==> !r,
            exists|now_ms: u64| r == spec_nearing_deadline(self.meta, now_ms),
    {
        let now_ms = unix_time_ms();
        let r = self.nearing_deadline_at(now_ms);
        proof {
            assert(r == spec_nearing_deadline(self.meta, now_ms));
        }
        r
    }

    /// Whether the deadline falls within 15 ms of the instant `now_ms`.
    pub fn nearing_deadline_at(&self, now_ms: u64) -> (r: bool)
        ensures
            r == spec_nearing_deadline(self.meta, now_ms),
    {
        match self.meta.deadline {
            Some(d) => (d as u128) <= (now_ms as u128) + (DEADLINE_SLACK_MS as u128),
            None => false,
        }
    }
}

/// Per-FEC-block progress as seen by the scheduler.
#[derive(Debug, Clone, Copy, PartialEq, Eq, Structural)]
pub struct Block {
    pub id: u64,
    pub total_shards: usize,
    pub required_shards: usize,
    pub sent_shards: usize,
    pub received_acks: usize,
    pub in_flight: usize,
}

/// Data shards still needed before the block decodes: the shortfall of
/// `required_shards` against the larger of the acknowledged shards and the
/// shards already handed to the pipeline (capped at `required_shards`).
pub open spec fn spec_remaining_data_shards(b: Block) -> nat {
    let pipeline = if b.sent_shards < b.required_shards { b.sent_shards } else { b.required_shards };
    let progress = if b.received_acks > pipeline { b.received_acks } else { pipeline };
    if b.required_shards > progress { (b.required_shards - progress) as nat } else { 0 }
}

/// Remaining data shards still needed for decode (conservative).
pub fn remaining_data_shards(block: &Block) -> (r: usize)
    ensures
        r == spec_remaining_data_shards(*block),
{
    let pipeline = if block.sent_shards < block.required_shards {
        block.sent_shards
    } else {
        block.required_shards
    };
    let progress = if block.received_acks > pipeline { block.received_acks } else { pipeline };
    block.required_shards.saturating_sub(progress)
}

impl Block {
    pub open spec fn spec_is_complete(self) -> bool {
        self.received_acks >= self.required_shards
    }

    pub open spec fn spec_is_almost_complete(self) -> bool {
        self.required_shards <= self.received_acks + 1
    }

    pub fn is_complete(&self) -> (r: bool)
        ensures
            r == self.spec_is_complete(),
    {
        self.received_acks >= self.required_shards
    }

    /// At most one acknowledgement is still missing.
    pub fn is_almost_complete(&self) -> (r: bool)
        ensures
            r == self.spec_is_almost_complete(),
    {
        self.required_shards.saturating_sub(self.received_acks) <= 1
    }

    /// Remaining data shards before the block can be decoded (pipeline-aware).
    pub fn remaining_data_shards(&self) -> (r: usize)
        ensures
            r == spec_remaining_data_shards(*self),
    {
        remaining_data_shards(self)
    }
}

/// How many more shards to schedule for a block, and whether to duplicate them.
#[derive(Debug, Clone, Copy, PartialEq, Eq, Structural)]
pub struct SchedulingDecision {
    pub additional_shards: usize,
    pub duplicate: bool,
    pub panic_mode: bool,
}

/// Kind of transport path a packet travels on.
#[derive(Debug, Clone, Copy, PartialEq, Eq, Structural)]
pub enum PathKind {
    Stream,
    Datagram,
}

/// Overall aggressiveness of the adaptive sender.
#[derive(Debug, Clone, Copy, PartialEq, Eq, Structural)]
pub enum TransferMode {
    Conservative,
    Balanced,
    Aggressive,
}

} // verus!
