//! Integer decisions of the adaptive sender: how many more shards a block
//! gets, how much parity a FEC group gets, and which control timescale is due.
use vstd::prelude::*;
use std::collections::HashSet;
use crate::packet::{Block, SchedulingDecision, TransferMode, Packet, PacketView, packets_view, spec_remaining_data_shards, remaining_data_shards};
use crate::fec::FecEncoder;
use crate::sat::{sat_mul_u64, sat_u64};

verus! {

broadcast use vstd::std_specs::hash::group_hash_axioms;

/// What a block is given next: nothing once complete; three duplicated shards
/// in panic mode for a straggler when completion comes first; two duplicated
/// shards when at most two data shards are still needed; otherwise the
/// shortfall against what is sent or in flight (plus one when completion comes
/// first), between one and three shards.
pub open spec fn spec_schedule_block(b: Block, is_straggler: bool, completion_first: bool) -> SchedulingDecision {
    if b.spec_is_complete() {
        SchedulingDecision { additional_shards: 0, duplicate: false, panic_mode: false }
    } else if completion_first && is_straggler {
        SchedulingDecision { additional_shards: 3, duplicate: true, panic_mode: true }
    } else if spec_remaining_data_shards(b) <= 2 {
        SchedulingDecision { additional_shards: 2, duplicate: true, panic_mode: false }
    } else {
        let covered = b.sent_shards + b.in_flight;
        let missing = if b.required_shards > covered { b.required_shards - covered } else { 0 };
        let want = missing + if completion_first { 1int } else { 0int };
        let n = if want < 1 { 1 } else if want > 3 { 3 } else { want };
        SchedulingDecision { additional_shards: n as usize, duplicate: false, panic_mode: false }
    }
}

/// Decides how many more shards a block is given, and whether they are
/// duplicated.
pub fn schedule_block(block: &Block, is_straggler: bool, completion_first: bool) -> (r: SchedulingDecision)
    requires
        !block.spec_is_complete() && !(completion_first && is_straggler)
            && spec_remaining_data_shards(*block) > 2 ==> block.sent_shards + block.in_flight <= usize::MAX,
    ensures
        r == spec_schedule_block(*block, is_straggler, completion_first),
{
    if block.is_complete() {
        return SchedulingDecision { additional_shards: 0, duplicate: false, panic_mode: false };
    }
    if completion_first && is_straggler {
        return SchedulingDecision { additional_shards: 3, duplicate: true, panic_mode: true };
    }
    if remaining_data_shards(block) <= 2 {
        return SchedulingDecision { additional_shards: 2, duplicate: true, panic_mode: false };
    }
    let missing = block.required_shards.saturating_sub(block.sent_shards + block.in_flight);
    let extra: usize = if completion_first { 1 } else { 0 };
    let want = missing.saturating_add(extra);
    let n = if want < 1 { 1 } else if want > 3 { 3 } else { want };
    SchedulingDecision { additional_shards: n, duplicate: false, panic_mode: false }
}

/// Law: a complete block is given nothing more; any other block is given
/// between one and three shards.
pub proof fn law_schedule_bounds(b: Block, is_straggler: bool, completion_first: bool)
    ensures
        b.spec_is_complete() ==> spec_schedule_block(b, is_straggler, completion_first).additional_shards == 0,
        !b.spec_is_complete() ==> 1 <= spec_schedule_block(b, is_straggler, completion_first).additional_shards <= 3,
        spec_schedule_block(b, is_straggler, completion_first).panic_mode ==> is_straggler && completion_first,
{
}

/// The scheduler's view of FEC group `g` before one of its packets goes out:
/// `data_sent_before` data shards sent so far, whether the receiver reported
/// the group complete or reconstructable.
pub open spec fn spec_block_context(g: u64, data_shards: usize, parity_shards: usize, data_sent_before: usize, completed: bool, reconstructable: bool) -> Block {
    let required: usize = if data_shards == 0 { 1 } else { data_shards };
    let acks: usize = if completed { required } else if reconstructable { (required - 1) as usize } else { 0 };
    let sent: usize = if data_sent_before < required { data_sent_before } else { required };
    let flight0: usize = if data_sent_before > acks { (data_sent_before - acks) as usize } else { 0 };
    let flight: usize = if flight0 == 0 && !completed { 1 } else { flight0 };
    let total: usize = if required + parity_shards > usize::MAX { usize::MAX } else { (required + parity_shards) as usize };
    Block { id: g, total_shards: total, required_shards: required, sent_shards: sent, received_acks: acks, in_flight: flight }
}

/// Builds the block snapshot the utility scheduler ranks a packet's group by.
pub fn block_context_for_schedule(
    fec_group: u64,
    data_shards: usize,
    parity_shards: usize,
    data_sent_before: usize,
    completed: bool,
    reconstructable: bool,
) -> (r: Block)
    ensures
        r == spec_block_context(fec_group, data_shards, parity_shards, data_sent_before, completed, reconstructable),
{
    let required = if data_shards == 0 { 1 } else { data_shards };
    let received_acks = if completed {
        required
    } else if reconstructable {
        required - 1
    } else {
        0
    };
    let sent_shards = if data_sent_before < required { data_sent_before } else { required };
    let mut in_flight = data_sent_before.saturating_sub(received_acks);
    if in_flight == 0 && !completed {
        in_flight = 1;
    }
    Block {
        id: fec_group,
        total_shards: required.saturating_add(parity_shards),
        required_shards: required,
        sent_shards,
        received_acks,
        in_flight,
    }
}

/// Parity a straggler group gets on top of `parity`: one more shard, but no
/// more than half the data shards, and never less than `parity`.
pub open spec fn spec_straggler_parity(data_shards: usize, parity: usize) -> usize {
    let up: int = parity + 1;
    let half: int = (data_shards / 2) as int;
    let capped = if up < half { up } else { half };
    (if capped > parity { capped } else { parity as int }) as usize
}

/// One more parity shard for a straggler group, capped at half the data
/// shards and never below the base parity.
pub fn straggler_parity(data_shards: usize, parity: usize) -> (r: usize)
    ensures
        r == spec_straggler_parity(data_shards, parity),
{
    let up = parity.saturating_add(1);
    let half = data_shards / 2;
    let capped = if up < half { up } else { half };
    if capped > parity { capped } else { parity }
}

/// Law: a straggler group never gets less parity than the base; it gets
/// strictly more whenever one more shard stays within half the data shards,
/// and it never exceeds half the data shards unless the base already does.
pub proof fn law_straggler_parity(data_shards: usize, parity: usize)
    ensures
        spec_straggler_parity(data_shards, parity) >= parity,
        parity + 1 <= data_shards / 2 ==> spec_straggler_parity(data_shards, parity) == parity + 1,
        parity <= data_shards / 2 ==> spec_straggler_parity(data_shards, parity) <= data_shards / 2,
{
}

/// The encoder for FEC group `g` in the pipeline: no parity when the cap is
/// zero; straggler parity (within the cap) for stragglers; otherwise the base
/// parity within the cap.
pub open spec fn spec_fec_for_group(base: FecEncoder, fec_cap: usize, is_straggler: bool) -> FecEncoder {
    if fec_cap == 0 {
        FecEncoder { data_shards: base.data_shards, parity_shards: 0 }
    } else if is_straggler {
        let s = spec_straggler_parity(base.data_shards, base.parity_shards);
        FecEncoder { data_shards: base.data_shards, parity_shards: if s < fec_cap { s } else { fec_cap } }
    } else {
        FecEncoder {
            data_shards: base.data_shards,
            parity_shards: if base.parity_shards < fec_cap { base.parity_shards } else { fec_cap },
        }
    }
}

/// Chooses the encoder of a FEC group in the encode stage.
pub fn fec_for_group(base: &FecEncoder, fec_cap: usize, is_straggler: bool) -> (r: FecEncoder)
    ensures
        r == spec_fec_for_group(*base, fec_cap, is_straggler),
{
    if fec_cap == 0 {
        FecEncoder { data_shards: base.data_shards, parity_shards: 0 }
    } else if is_straggler {
        let s = straggler_parity(base.data_shards, base.parity_shards);
        FecEncoder { data_shards: base.data_shards, parity_shards: if s < fec_cap { s } else { fec_cap } }
    } else {
        FecEncoder {
            data_shards: base.data_shards,
            parity_shards: if base.parity_shards < fec_cap { base.parity_shards } else { fec_cap },
        }
    }
}

/// Parity of the transfer plan: none without data shards, otherwise the
/// straggler rule applied to the base parity and at least one shard.
pub open spec fn spec_plan_parity(data_shards: usize, base_parity: usize) -> usize {
    if data_shards == 0 {
        0
    } else {
        let s = spec_straggler_parity(data_shards, base_parity);
        if s < 1 { 1 } else { s }
    }
}

/// Parity shards of the transfer plan for `data_shards` and the base parity
/// of the loss estimate.
pub fn plan_parity(data_shards: usize, base_parity: usize) -> (r: usize)
    ensures
        r == spec_plan_parity(data_shards, base_parity),
{
    if data_shards == 0 {
        0
    } else {
        let s = straggler_parity(data_shards, base_parity);
        if s < 1 { 1 } else { s }
    }
}

/// Parity after receiver feedback: one more when aggressive, the estimate when
/// balanced, one less (at least one) when conservative; then none when the
/// manifest or the cap allows none, else within both and at least one.
pub open spec fn spec_feedback_parity(mode: TransferMode, parity: usize, manifest_parity: usize, parity_cap: usize) -> usize {
    let p: int = match mode {
        TransferMode::Aggressive => if parity == usize::MAX { parity as int } else { parity + 1 },
        TransferMode::Balanced => parity as int,
        TransferMode::Conservative => if parity >= 2 { parity - 1 } else { 1 },
    };
    if manifest_parity == 0 || parity_cap == 0 {
        0
    } else {
        let a = if p < manifest_parity { p } else { manifest_parity as int };
        let b = if a < parity_cap { a } else { parity_cap as int };
        (if b < 1 { 1 } else { b }) as usize
    }
}

/// Parity shards the sender uses after a feedback frame.
pub fn feedback_parity(mode: TransferMode, parity: usize, manifest_parity: usize, parity_cap: usize) -> (r: usize)
    ensures
        r == spec_feedback_parity(mode, parity, manifest_parity, parity_cap),
        manifest_parity > 0 && parity_cap > 0 ==> 1 <= r <= manifest_parity && r <= parity_cap,
{
    let p = match mode {
        TransferMode::Aggressive => parity.saturating_add(1),
        TransferMode::Balanced => parity,
        TransferMode::Conservative => {
            let q = parity.saturating_sub(1);
            if q < 1 { 1 } else { q }
        },
    };
    if manifest_parity == 0 || parity_cap == 0 {
        0
    } else {
        let a = if p < manifest_parity { p } else { manifest_parity };
        let b = if a < parity_cap { a } else { parity_cap };
        if b < 1 { 1 } else { b }
    }
}

/// Control timescale that is due.
#[derive(Debug, Clone, Copy, PartialEq, Eq, Structural)]
pub enum TimescaleTier {
    Fast,
    Medium,
    Slow,
}

/// Fast / medium / slow control cadence over a monotonic clock read in
/// nanoseconds.
#[derive(Debug, Clone, Copy, PartialEq, Eq, Structural)]
pub struct MultiTimescaleClock {
    pub fast_min_ns: u64,
    pub medium_min_ns: u64,
    pub slow_min_ns: u64,
    pub last_fast_ns: u64,
    pub last_medium_ns: u64,
    pub last_slow_ns: u64,
}

/// Time from `earlier` to `now`, zero when `now` is not later.
pub open spec fn elapsed_ns(now: u64, earlier: u64) -> u64 {
    if now >= earlier { (now - earlier) as u64 } else { 0 }
}

/// One tick at `now`: the slowest tier whose period has elapsed fires and
/// restarts at `now`; when none has, the fast tier is reported and only a
/// fast period that has elapsed restarts.
pub open spec fn spec_tick(c: MultiTimescaleClock, now: u64) -> (MultiTimescaleClock, TimescaleTier) {
    if elapsed_ns(now, c.last_slow_ns) >= c.slow_min_ns {
        (MultiTimescaleClock { last_slow_ns: now, ..c }, TimescaleTier::Slow)
    } else if elapsed_ns(now, c.last_medium_ns) >= c.medium_min_ns {
        (MultiTimescaleClock { last_medium_ns: now, ..c }, TimescaleTier::Medium)
    } else if elapsed_ns(now, c.last_fast_ns) >= c.fast_min_ns {
        (MultiTimescaleClock { last_fast_ns: now, ..c }, TimescaleTier::Fast)
    } else {
        (c, TimescaleTier::Fast)
    }
}

/// The clock after ticks at `times`, in order.
pub open spec fn ticks_after(c: MultiTimescaleClock, times: Seq<u64>) -> MultiTimescaleClock
    decreases times.len(),
{
    if times.len() == 0 {
        c
    } else {
        spec_tick(ticks_after(c, times.drop_last()), times.last()).0
    }
}

/// The tier reported by the tick at `times[k]`, after the ticks before it.
pub open spec fn tier_at(c: MultiTimescaleClock, times: Seq<u64>, k: int) -> TimescaleTier {
    spec_tick(ticks_after(c, times.take(k)), times[k]).1
}

/// The period of a tier.
pub open spec fn tier_period(c: MultiTimescaleClock, tier: TimescaleTier) -> u64 {
    match tier {
        TimescaleTier::Slow => c.slow_min_ns,
        TimescaleTier::Medium => c.medium_min_ns,
        TimescaleTier::Fast => c.fast_min_ns,
    }
}

/// When a tier last fired (or the clock started).
pub open spec fn tier_last(c: MultiTimescaleClock, tier: TimescaleTier) -> u64 {
    match tier {
        TimescaleTier::Slow => c.last_slow_ns,
        TimescaleTier::Medium => c.last_medium_ns,
        TimescaleTier::Fast => c.last_fast_ns,
    }
}

/// Along the ticks at `times`, the periods stay; the last firing time of the
/// slow or medium tier never falls below its start, lies at or after each
/// time the tier fired, and a firing comes a full period after the last one.
proof fn lemma_tier_chain(c: MultiTimescaleClock, times: Seq<u64>, tier: TimescaleTier, k: int)
    requires
        tier != TimescaleTier::Fast,
        tier_period(c, tier) > 0,
        0 <= k <= times.len(),
    ensures
        tier_period(ticks_after(c, times.take(k)), tier) == tier_period(c, tier),
        tier_last(ticks_after(c, times.take(k)), tier) >= tier_last(c, tier),
        forall|i: int| 0 <= i < k && #[trigger] tier_at(c, times, i) == tier
            ==> tier_last(ticks_after(c, times.take(k)), tier) >= times[i],
    decreases k,
{
    if k > 0 {
        lemma_tier_chain(c, times, tier, k - 1);
        let prev = ticks_after(c, times.take(k - 1));
        assert(times.take(k).drop_last() =~= times.take(k - 1));
        assert(times.take(k).last() == times[k - 1]);
        let now = times[k - 1];
        let cur = ticks_after(c, times.take(k));
        assert(cur == spec_tick(prev, now).0);
        if tier_at(c, times, k - 1) == tier {
            assert(elapsed_ns(now, tier_last(prev, tier)) >= tier_period(prev, tier));
            assert(tier_last(cur, tier) == now);
        } else {
            assert(tier_last(cur, tier) == tier_last(prev, tier));
        }
    }
}

/// Law: the slow and the medium loop each fire at most once per period.
/// Between any two ticks that report the tier, however many ticks came
/// between, at least its period has passed.
pub proof fn law_tier_spacing(c: MultiTimescaleClock, times: Seq<u64>, tier: TimescaleTier, i: int, j: int)
    requires
        tier != TimescaleTier::Fast,
        0 <= i < j < times.len(),
        tier_at(c, times, i) == tier,
        tier_at(c, times, j) == tier,
    ensures
        elapsed_ns(times[j], times[i]) >= tier_period(c, tier),
{
    if tier_period(c, tier) > 0 {
        lemma_tier_chain(c, times, tier, j);
        let prev = ticks_after(c, times.take(j));
        assert(elapsed_ns(times[j], tier_last(prev, tier)) >= tier_period(prev, tier));
    }
}

/// Law: the slow and the medium loop fire no earlier than a full period
/// after the tier last fired when the ticks began; a clock made by
/// `starting_at(t)` fires them no earlier than `t` plus their period.
pub proof fn law_tier_after_start(c: MultiTimescaleClock, times: Seq<u64>, tier: TimescaleTier, j: int)
    requires
        tier != TimescaleTier::Fast,
        0 <= j < times.len(),
        tier_at(c, times, j) == tier,
    ensures
        elapsed_ns(times[j], tier_last(c, tier)) >= tier_period(c, tier),
{
    if tier_period(c, tier) > 0 {
        lemma_tier_chain(c, times, tier, j);
        let prev = ticks_after(c, times.take(j));
        assert(elapsed_ns(times[j], tier_last(prev, tier)) >= tier_period(prev, tier));
    }
}

impl MultiTimescaleClock {
    /// Minimum periods of 12 ms, 120 ms and 1.5 s, all last fired at `now_ns`.
    pub fn starting_at(now_ns: u64) -> (r: Self)
        ensures
            r.fast_min_ns == 12_000_000,
            r.medium_min_ns == 120_000_000,
            r.slow_min_ns == 1_500_000_000,
            r.last_fast_ns == now_ns,
            r.last_medium_ns == now_ns,
            r.last_slow_ns == now_ns,
    {
        MultiTimescaleClock {
            fast_min_ns: 12_000_000,
            medium_min_ns: 120_000_000,
            slow_min_ns: 1_500_000_000,
            last_fast_ns: now_ns,
            last_medium_ns: now_ns,
            last_slow_ns: now_ns,
        }
    }

    /// The slowest tier whose period has elapsed fires and is restarted at
    /// `now_ns`; when none has elapsed the fast tier is reported and nothing
    /// restarts.
    pub fn tick(&mut self, now_ns: u64) -> (r: TimescaleTier)
        ensures
            (*final(self), r) == spec_tick(*old(self), now_ns),
            elapsed_ns(now_ns, old(self).last_slow_ns) >= old(self).slow_min_ns ==> r == TimescaleTier::Slow
                && *final(self) == (MultiTimescaleClock { last_slow_ns: now_ns, ..*old(self) }),
            elapsed_ns(now_ns, old(self).last_slow_ns) < old(self).slow_min_ns
                && elapsed_ns(now_ns, old(self).last_medium_ns) >= old(self).medium_min_ns
                ==> r == TimescaleTier::Medium && *final(self) == (MultiTimescaleClock { last_medium_ns: now_ns, ..*old(self) }),
            elapsed_ns(now_ns, old(self).last_slow_ns) < old(self).slow_min_ns
                && elapsed_ns(now_ns, old(self).last_medium_ns) < old(self).medium_min_ns
                ==> r == TimescaleTier::Fast && *final(self) == (if elapsed_ns(now_ns, old(self).last_fast_ns) >= old(self).fast_min_ns {
                    MultiTimescaleClock { last_fast_ns: now_ns, ..*old(self) }
                } else {
                    *old(self)
                }),
    {
        let since_slow = now_ns.saturating_sub(self.last_slow_ns);
        if since_slow >= self.slow_min_ns {
            self.last_slow_ns = now_ns;
            return TimescaleTier::Slow;
        }
        let since_medium = now_ns.saturating_sub(self.last_medium_ns);
        if since_medium >= self.medium_min_ns {
            self.last_medium_ns = now_ns;
            return TimescaleTier::Medium;
        }
        let since_fast = now_ns.saturating_sub(self.last_fast_ns);
        if since_fast >= self.fast_min_ns {
            self.last_fast_ns = now_ns;
            return TimescaleTier::Fast;
        }
        TimescaleTier::Fast
    }
}


/// FEC groups of `s` in the order their first packet appears.
pub open spec fn groups_in_order(s: Seq<PacketView>) -> Seq<u64>
    decreases s.len(),
{
    if s.len() == 0 {
        Seq::empty()
    } else {
        let rest = groups_in_order(s.drop_last());
        if rest.contains(s.last().fec_group) { rest } else { rest.push(s.last().fec_group) }
    }
}

/// Number of packets of group `g` in `s`.
pub open spec fn group_count(s: Seq<PacketView>, g: u64) -> nat
    decreases s.len(),
{
    if s.len() == 0 {
        0
    } else {
        group_count(s.drop_last(), g) + if s.last().fec_group == g { 1nat } else { 0nat }
    }
}

/// The block estimate for group `g` holding `n` packets: all of them count
/// as shards, the data shards are those beyond the parity (at least one),
/// at most `data_shards` count as sent, and a group the receiver completed
/// counts as fully acknowledged.
pub open spec fn spec_group_block(g: u64, n: nat, data_shards: usize, parity_shards: usize, completed: bool) -> Block {
    let req: int = if n > parity_shards { n - parity_shards } else { 0 };
    Block {
        id: g,
        total_shards: n as usize,
        required_shards: (if req < 1 { 1 } else { req }) as usize,
        sent_shards: (if n < data_shards { n as int } else { data_shards as int }) as usize,
        received_acks: if completed { (usize::MAX / 2) as usize } else { 0 },
        in_flight: 0,
    }
}

fn count_in_group(packets: &[Packet], g: u64) -> (r: usize)
    ensures
        r == group_count(packets_view(packets@), g),
{
    let ghost pv = packets_view(packets@);
    let mut c: usize = 0;
    let mut i: usize = 0;
    while i < packets.len()
        invariant
            i <= packets@.len(),
            pv == packets_view(packets@),
            c == group_count(pv.take(i as int), g),
            c <= i,
        decreases packets@.len() - i,
    {
        proof {
            assert(pv.take(i + 1).drop_last() =~= pv.take(i as int));
        }
        if packets[i].fec_group == g {
            c = c + 1;
        }
        i = i + 1;
    }
    proof {
        assert(pv.take(packets@.len() as int) =~= pv);
    }
    c
}

/// Block estimates for the FEC groups of a batch of packets, in the order
/// the groups first appear.
pub fn blocks_from_packets(packets: &[Packet], data_shards: usize, parity_shards: usize, completed: &HashSet<u64>) -> (r: Vec<Block>)
    ensures
        r@.len() == groups_in_order(packets_view(packets@)).len(),
        forall|k: int| 0 <= k < r@.len() ==> #[trigger] r@[k] == spec_group_block(
            groups_in_order(packets_view(packets@))[k],
            group_count(packets_view(packets@), groups_in_order(packets_view(packets@))[k]),
            data_shards, parity_shards,
            completed@.contains(groups_in_order(packets_view(packets@))[k])),
{
    let ghost pv = packets_view(packets@);
    let mut seen: Vec<u64> = Vec::new();
    let mut out: Vec<Block> = Vec::new();
    let mut i: usize = 0;
    while i < packets.len()
        invariant
            i <= packets@.len(),
            pv == packets_view(packets@),
            seen@ == groups_in_order(pv.take(i as int)),
            out@.len() == seen@.len(),
            forall|k: int| 0 <= k < out@.len() ==> #[trigger] out@[k] == spec_group_block(seen@[k],
                group_count(pv, seen@[k]), data_shards, parity_shards, completed@.contains(seen@[k])),
        decreases packets@.len() - i,
    {
        let g = packets[i].fec_group;
        proof {
            assert(pv.take(i + 1).drop_last() =~= pv.take(i as int));
            assert(pv.take(i + 1).last().fec_group == g);
        }
        let mut j: usize = 0;
        let mut known = false;
        while j < seen.len()
            invariant
                j <= seen@.len(),
                known == (exists|t: int| 0 <= t < j && seen@[t] == g),
            decreases seen@.len() - j,
        {
            if seen[j] == g {
                known = true;
            }
            j = j + 1;
        }
        if !known {
            let n = count_in_group(packets, g);
            let req = if n > parity_shards { n - parity_shards } else { 0 };
            let b = Block {
                id: g,
                total_shards: n,
                required_shards: if req < 1 { 1 } else { req },
                sent_shards: if n < data_shards { n } else { data_shards },
                received_acks: if completed.contains(&g) { usize::MAX / 2 } else { 0 },
                in_flight: 0,
            };
            let ghost s0 = seen@;
            let ghost o0 = out@;
            seen.push(g);
            out.push(b);
            proof {
                assert(!s0.contains(g));
                assert forall|k: int| 0 <= k < out@.len() implies #[trigger] out@[k] == spec_group_block(seen@[k],
                    group_count(pv, seen@[k]), data_shards, parity_shards, completed@.contains(seen@[k])) by {
                    if k < o0.len() {
                        assert(out@[k] == o0[k]);
                        assert(seen@[k] == s0[k]);
                    }
                }
            }
        } else {
            proof {
                let t = choose|t: int| 0 <= t < j && seen@[t] == g;
                assert(seen@.contains(g));
            }
        }
        i = i + 1;
    }
    proof {
        assert(pv.take(packets@.len() as int) =~= pv);
    }
    out
}

/// Completion estimate, in microseconds, for a block when no path has
/// reported yet: 800 µs once no data shard is missing; otherwise a 10 ms
/// round trip plus, for each missing shard, 2 ms and 1 ms per shard in
/// flight (the product saturating at `u64::MAX` milliseconds).
pub open spec fn spec_idle_completion_us(b: Block) -> int {
    let missing = spec_remaining_data_shards(b);
    if missing == 0 {
        800
    } else {
        let per = missing * (2 + b.in_flight);
        let ms = if per > u64::MAX { u64::MAX as int } else { per };
        (10 + ms) * 1000
    }
}

/// Estimates when a block completes while no path statistics exist.
pub fn idle_completion_estimate_us(block: &Block) -> (r: u128)
    requires
        block.in_flight + 2 <= u64::MAX,
    ensures
        r == spec_idle_completion_us(*block),
{
    let missing = remaining_data_shards(block) as u64;
    if missing == 0 {
        return 800;
    }
    let per = sat_mul_u64(missing, 2 + block.in_flight as u64);
    proof {
        assert(missing * (2 + block.in_flight) >= 0) by (nonlinear_arith)
            requires missing >= 0, block.in_flight >= 0;
    }
    (10 + per as u128) * 1000
}

/// The packets of a batch whose FEC group the receiver has not reported
/// complete, in their order.
pub open spec fn open_group_packets(pv: Seq<PacketView>, completed: Set<u64>) -> Seq<PacketView> {
    pv.filter(|p: PacketView| !completed.contains(p.fec_group))
}

/// Copies of the packets whose group is not completed, in order, and how
/// many packets were dropped as already decodable.
pub fn keep_open_groups(packets: &[Packet], completed: &HashSet<u64>) -> (r: (Vec<Packet>, usize))
    ensures
        packets_view(r.0@) == open_group_packets(packets_view(packets@), completed@),
        r.1 + r.0@.len() == packets@.len(),
{
    let ghost pv = packets_view(packets@);
    let mut kept: Vec<Packet> = Vec::new();
    let mut dropped: usize = 0;
    let mut i: usize = 0;
    while i < packets.len()
        invariant
            i <= packets@.len(),
            pv == packets_view(packets@),
            packets_view(kept@) == open_group_packets(pv.take(i as int), completed@),
            dropped + kept@.len() == i,
        decreases packets@.len() - i,
    {
        proof {
            assert(pv.take(i + 1).drop_last() =~= pv.take(i as int));
            pv.take(i as int).lemma_filter_push(pv[i as int], |p: PacketView| !completed@.contains(p.fec_group));
            assert(pv.take(i as int).push(pv[i as int]) =~= pv.take(i + 1));
        }
        if completed.contains(&packets[i].fec_group) {
            dropped = dropped + 1;
        } else {
            let ghost k0 = kept@;
            kept.push(packets[i].clone());
            proof {
                assert(packets_view(kept@) =~= packets_view(k0).push(packets@[i as int]@));
            }
        }
        i = i + 1;
    }
    proof {
        assert(pv.take(packets@.len() as int) =~= pv);
    }
    (kept, dropped)
}

/// A packet's deadline, or `no_deadline` when it has none.
pub open spec fn deadline_or(p: PacketView, no_deadline: u64) -> u64 {
    match p.meta.deadline {
        Some(d) => d,
        None => no_deadline,
    }
}

/// `a` goes out before `b`: a higher priority, or the same priority and an
/// earlier deadline.
pub open spec fn sends_before(a: PacketView, b: PacketView, no_deadline: u64) -> bool {
    a.meta.priority > b.meta.priority
        || (a.meta.priority == b.meta.priority && deadline_or(a, no_deadline) < deadline_or(b, no_deadline))
}

/// Where `x` enters the ordered `sorted`: after every packet it does not go
/// out before.
pub open spec fn send_insert_pos(sorted: Seq<PacketView>, x: PacketView, no_deadline: u64) -> nat
    decreases sorted.len(),
{
    if sorted.len() == 0 {
        0
    } else if !sends_before(x, sorted.last(), no_deadline) {
        sorted.len()
    } else {
        send_insert_pos(sorted.drop_last(), x, no_deadline)
    }
}

/// The send order of a batch: a stable sort by priority, highest first, then
/// by deadline, earliest first; packets equal in both keep their order.
pub open spec fn send_order(s: Seq<PacketView>, no_deadline: u64) -> Seq<PacketView>
    decreases s.len(),
{
    if s.len() == 0 {
        Seq::empty()
    } else {
        let rest = send_order(s.drop_last(), no_deadline);
        rest.insert(send_insert_pos(rest, s.last(), no_deadline) as int, s.last())
    }
}

proof fn lemma_send_insert_pos_bound(sorted: Seq<PacketView>, x: PacketView, nd: u64)
    ensures
        send_insert_pos(sorted, x, nd) <= sorted.len(),
    decreases sorted.len(),
{
    if sorted.len() > 0 {
        lemma_send_insert_pos_bound(sorted.drop_last(), x, nd);
    }
}

proof fn lemma_send_insert_pos_prefix(sorted: Seq<PacketView>, x: PacketView, nd: u64, j: int)
    requires
        0 <= j <= sorted.len(),
        forall|k: int| j <= k < sorted.len() ==> sends_before(x, #[trigger] sorted[k], nd),
    ensures
        send_insert_pos(sorted, x, nd) == send_insert_pos(sorted.subrange(0, j), x, nd),
    decreases sorted.len() - j,
{
    if j < sorted.len() {
        assert(sorted.drop_last() =~= sorted.subrange(0, sorted.len() - 1));
        lemma_send_insert_pos_prefix(sorted.drop_last(), x, nd, j);
        assert(sorted.drop_last().subrange(0, j) =~= sorted.subrange(0, j));
    } else {
        assert(sorted.subrange(0, j) =~= sorted);
    }
}

fn sends_before_exec(a: &Packet, b: &Packet, no_deadline: u64) -> (r: bool)
    ensures
        r == sends_before(a@, b@, no_deadline),
{
    let da = match a.meta.deadline { Some(d) => d, None => no_deadline };
    let db = match b.meta.deadline { Some(d) => d, None => no_deadline };
    a.meta.priority > b.meta.priority || (a.meta.priority == b.meta.priority && da < db)
}

/// Puts a batch in send order: higher priority first, then earlier deadline,
/// a packet without a deadline counting as due at `no_deadline`; packets
/// equal in both keep their order.
pub fn order_for_sending(v: Vec<Packet>, no_deadline: u64) -> (r: Vec<Packet>)
    ensures
        packets_view(r@) == send_order(packets_view(v@), no_deadline),
{
    let mut r: Vec<Packet> = Vec::new();
    let mut v = v;
    let ghost orig = packets_view(v@);
    let mut rest: Vec<Packet> = Vec::new();
    // move the input into `rest` in reverse so that `pop` yields it in order
    while v.len() > 0
        invariant
            packets_view(v@) + packets_view(rest@).reverse() == orig,
        decreases v@.len(),
    {
        let p = v.pop().unwrap();
        let ghost vr = packets_view(rest@);
        rest.push(p);
        proof {
            assert(packets_view(rest@) =~= vr.push(p@));
            assert(packets_view(v@) + packets_view(rest@).reverse() =~= orig);
        }
    }
    let mut i: usize = 0;
    let n = rest.len();
    proof {
        assert(packets_view(rest@).reverse() =~= orig);
        assert(orig.subrange(0, 0) =~= Seq::<PacketView>::empty());
    }
    while rest.len() > 0
        invariant
            i + rest@.len() == n,
            n == orig.len(),
            packets_view(rest@).reverse() == orig.subrange(i as int, n as int),
            packets_view(r@) == send_order(orig.subrange(0, i as int), no_deadline),
        decreases rest@.len(),
    {
        let ghost rv = packets_view(rest@);
        let p = rest.pop().unwrap();
        proof {
            assert(rv.reverse()[0] == rv.last());
            assert(p@ == orig[i as int]);
            assert(packets_view(rest@) =~= rv.drop_last());
            assert(rv.drop_last().reverse() =~= rv.reverse().subrange(1, rv.len() as int));
            assert(orig.subrange(i + 1, n as int) =~= orig.subrange(i as int, n as int).subrange(1, (n - i) as int));
            assert(packets_view(rest@).reverse() =~= orig.subrange(i + 1, n as int));
        }
        let mut j: usize = r.len();
        while j > 0 && sends_before_exec(&p, &r[j - 1], no_deadline)
            invariant
                j <= r@.len(),
                forall|k: int| j <= k < r@.len() ==> sends_before(p@, #[trigger] packets_view(r@)[k], no_deadline),
            decreases j,
        {
            j = j - 1;
        }
        proof {
            lemma_send_insert_pos_prefix(packets_view(r@), p@, no_deadline, j as int);
            if j > 0 {
                assert(packets_view(r@).subrange(0, j as int).last() == packets_view(r@)[j - 1]);
            } else {
                assert(packets_view(r@).subrange(0, 0) =~= Seq::<PacketView>::empty());
            }
            assert(send_insert_pos(packets_view(r@).subrange(0, j as int), p@, no_deadline) == j);
            let s = orig.subrange(0, i + 1);
            assert(s.drop_last() =~= orig.subrange(0, i as int));
            assert(s.last() == p@);
        }
        let ghost before = packets_view(r@);
        r.insert(j, p);
        proof {
            assert(packets_view(r@) =~= before.insert(j as int, p@));
        }
        i = i + 1;
    }
    proof {
        assert(orig.subrange(0, n as int) =~= orig);
    }
    r
}


/// Law: outside the complete, straggler-panic and near-done cases, a block
/// is given its shortfall `m` (required shards not yet sent or in flight),
/// plus one when completion comes first, kept between one and three, and
/// nothing is duplicated.
pub proof fn law_schedule_shortfall(b: Block, is_straggler: bool, completion_first: bool)
    requires
        !b.spec_is_complete(),
        !(completion_first && is_straggler),
        spec_remaining_data_shards(b) > 2,
    ensures
        ({
            let m: int = if b.required_shards > b.sent_shards + b.in_flight {
                b.required_shards - (b.sent_shards + b.in_flight)
            } else {
                0
            };
            let w: int = if completion_first { m + 1 } else { m };
            spec_schedule_block(b, is_straggler, completion_first).additional_shards
                == (if w < 1 { 1 } else if w > 3 { 3 } else { w })
        }),
        !spec_schedule_block(b, is_straggler, completion_first).duplicate,
        !spec_schedule_block(b, is_straggler, completion_first).panic_mode,
{
}

/// Law: putting completion first never gives a block fewer shards, and
/// gives one more whenever the shortfall is one or two.
pub proof fn law_completion_first_adds_a_shard(b: Block)
    ensures
        spec_schedule_block(b, false, true).additional_shards >= spec_schedule_block(b, false, false).additional_shards,
        !b.spec_is_complete() && spec_remaining_data_shards(b) > 2
            && b.sent_shards + b.in_flight + 1 <= b.required_shards
            && b.required_shards <= b.sent_shards + b.in_flight + 2
            ==> spec_schedule_block(b, false, true).additional_shards == spec_schedule_block(b, false, false).additional_shards + 1,
{
}

/// Law: after feedback, balanced mode keeps the parity estimate, clamped to
/// at least one and at most the manifest's parity and the cap; aggressive
/// mode adds one shard and conservative mode removes one (both clamped the
/// same way). So the modes never invert: conservative gives at most what
/// balanced gives, and balanced at most what aggressive gives.
pub proof fn law_feedback_parity_modes(parity: usize, manifest_parity: usize, parity_cap: usize)
    requires
        manifest_parity > 0,
        parity_cap > 0,
    ensures
        ({
            let hi: int = if manifest_parity < parity_cap { manifest_parity as int } else { parity_cap as int };
            let clamp = |x: int| if x < 1 { 1 } else if x > hi { hi } else { x };
            &&& spec_feedback_parity(TransferMode::Balanced, parity, manifest_parity, parity_cap) == clamp(parity as int)
            &&& spec_feedback_parity(TransferMode::Aggressive, parity, manifest_parity, parity_cap)
                == clamp(if parity == usize::MAX { parity as int } else { parity + 1 })
            &&& spec_feedback_parity(TransferMode::Conservative, parity, manifest_parity, parity_cap)
                == clamp(if parity >= 2 { parity - 1 } else { 1 })
            &&& 1 <= parity <= hi ==> spec_feedback_parity(TransferMode::Balanced, parity, manifest_parity, parity_cap) == parity
        }),
        spec_feedback_parity(TransferMode::Conservative, parity, manifest_parity, parity_cap)
            <= spec_feedback_parity(TransferMode::Balanced, parity, manifest_parity, parity_cap),
        spec_feedback_parity(TransferMode::Balanced, parity, manifest_parity, parity_cap)
            <= spec_feedback_parity(TransferMode::Aggressive, parity, manifest_parity, parity_cap),
{
}

} // verus!
