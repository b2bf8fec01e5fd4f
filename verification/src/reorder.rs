//! Receiver-side reordering: packets arrive in any order, duplicates are
//! dropped by id, and runs of consecutive sequence numbers are released.
use vstd::prelude::*;
use std::collections::{HashMap, HashSet};
use crate::packet::{Packet, PacketView};

verus! {

broadcast use vstd::std_specs::hash::group_hash_axioms;

/// Number of packet ids remembered for duplicate detection before the memory
/// is cleared.
pub const REORDER_MAX_SEEN: usize = 65536;

/// Packets waiting for release, keyed by id, and the next sequence number to
/// release.
pub struct ReorderBuffer {
    received: HashMap<u64, Packet>,
    next_seq: u64,
    seen: HashSet<u64>,
    max_seen: usize,
}

/// Some waiting packet carries sequence number `q`.
pub open spec fn has_seq(m: Map<u64, PacketView>, q: u64) -> bool {
    exists|id: u64| #[trigger] m.contains_key(id) && m[id].seq == q
}

/// Every sequence number from `from` up to `u64::MAX` is waiting: releasing
/// them all would step the counter past its largest value.
pub open spec fn run_reaches_max(m: Map<u64, PacketView>, from: u64) -> bool {
    forall|q: u64| from <= q ==> #[trigger] has_seq(m, q)
}

/// The ids of a sequence of packets.
pub open spec fn ids_of(s: Seq<PacketView>) -> Set<u64> {
    s.map_values(|p: PacketView| p.id).to_set()
}

/// `out` is a run of waiting packets of `before` numbered from `start`.
pub open spec fn released_from(before: Map<u64, PacketView>, start: u64, out: Seq<PacketView>) -> bool {
    forall|k: int| 0 <= k < out.len() ==> before.contains_key((#[trigger] out[k]).id) && before[out[k].id] == out[k]
        && out[k].seq == start + k
}

/// The remembered ids after an ingest of `id`: unchanged when `id` is
/// remembered; otherwise `id` is added, to an empty memory when the memory
/// already held `limit` ids.
pub open spec fn next_seen(seen: Set<u64>, limit: nat, id: u64) -> Set<u64> {
    if seen.contains(id) {
        seen
    } else {
        (if seen.len() >= limit { Set::<u64>::empty() } else { seen }).insert(id)
    }
}

/// The remembered ids after ingests of packets with ids `ids`, in order.
/// Releasing packets leaves the memory as it is.
pub open spec fn seen_after(seen: Set<u64>, limit: nat, ids: Seq<u64>) -> Set<u64>
    decreases ids.len(),
{
    if ids.len() == 0 {
        seen
    } else {
        next_seen(seen_after(seen, limit, ids.drop_last()), limit, ids.last())
    }
}

proof fn lemma_seen_after_grows(seen: Set<u64>, limit: nat, ids: Seq<u64>)
    requires
        seen.finite(),
        seen.union(ids.to_set()).len() < limit,
    ensures
        seen.subset_of(seen_after(seen, limit, ids)),
        seen_after(seen, limit, ids).subset_of(seen.union(ids.to_set())),
    decreases ids.len(),
{
    broadcast use vstd::seq_lib::seq_to_set_is_finite;
    broadcast use vstd::set_lib::lemma_set_union_finite_iff;
    if ids.len() > 0 {
        let d = ids.drop_last();
        let x = ids.last();
        let u = seen.union(ids.to_set());
        let ud = seen.union(d.to_set());
        assert(ud.subset_of(u)) by {
            assert forall|y: u64| ud.contains(y) implies u.contains(y) by {
                if d.to_set().contains(y) {
                    let i = choose|i: int| 0 <= i < d.len() && d[i] == y;
                    assert(ids[i] == y);
                }
            }
        }
        vstd::set_lib::lemma_len_subset(ud, u);
        lemma_seen_after_grows(seen, limit, d);
        let s0 = seen_after(seen, limit, d);
        vstd::set_lib::lemma_len_subset(s0, ud);
        assert(ids[ids.len() - 1] == x);
        assert(u.contains(x));
        assert(seen_after(seen, limit, ids) == next_seen(s0, limit, x));
    }
}

/// Law: duplicates stay dropped while the id memory is not full. An id
/// that is remembered is still remembered after any further ingests,
/// provided fewer than `limit` distinct ids were met in all; so a later
/// packet with that id leaves the waiting packets as they are (see
/// [`ReorderBuffer::ingest`]).
pub proof fn law_remembered_id_persists(seen: Set<u64>, limit: nat, ids: Seq<u64>, id: u64)
    requires
        seen.finite(),
        seen.contains(id),
        seen.union(ids.to_set()).len() < limit,
    ensures
        seen_after(seen, limit, ids).contains(id),
{
    lemma_seen_after_grows(seen, limit, ids);
}

/// Successive releases continue one another: the first of `outs` starts at
/// `start`, and each next one starts where the previous one stopped.
pub open spec fn releases_chain(outs: Seq<Seq<PacketView>>, start: int) -> bool
    decreases outs.len(),
{
    outs.len() == 0 || {
        &&& forall|k: int| 0 <= k < outs[0].len() ==> #[trigger] outs[0][k].seq == start + k
        &&& releases_chain(outs.drop_first(), start + outs[0].len())
    }
}

/// Law: released packets carry consecutive sequence numbers across calls.
/// Each release numbers its packets from the counter and advances it past
/// them, and ingests leave the counter alone, so the releases of a buffer
/// form one run: from a fresh buffer, the `k`-th packet ever released has
/// sequence number `k`.
pub proof fn law_releases_form_one_run(outs: Seq<Seq<PacketView>>, start: int)
    requires
        releases_chain(outs, start),
    ensures
        forall|k: int| 0 <= k < outs.flatten().len() ==> #[trigger] outs.flatten()[k].seq == start + k,
    decreases outs.len(),
{
    if outs.len() > 0 {
        let rest = outs.drop_first();
        let n0 = outs[0].len();
        law_releases_form_one_run(rest, start + n0);
        assert(outs.flatten() == outs.first() + rest.flatten());
        assert forall|k: int| 0 <= k < outs.flatten().len() implies #[trigger] outs.flatten()[k].seq == start + k by {
            if k < n0 {
                assert(outs.flatten()[k] == outs[0][k]);
            } else {
                assert(outs.flatten()[k] == rest.flatten()[k - n0]);
            }
        }
    }
}

/// Law: a release right after a release gives nothing and keeps the waiting
/// packets. After a release no waiting packet carries the next expected
/// sequence number, so the next release (with no ingest between) finds no
/// run to release.
pub proof fn law_second_release_is_empty(pending: Map<u64, PacketView>, next: u64, out: Seq<PacketView>, after: Map<u64, PacketView>)
    requires
        !has_seq(pending, next),
        released_from(pending, next, out),
        after == pending.remove_keys(ids_of(out)),
    ensures
        out.len() == 0,
        after == pending,
{
    if out.len() > 0 {
        assert(pending.contains_key(out[0].id) && pending[out[0].id].seq == next);
        assert(has_seq(pending, next));
    }
    assert(out.map_values(|p: PacketView| p.id) =~= Seq::<u64>::empty());
    assert(ids_of(out) =~= Set::<u64>::empty());
    assert(after =~= pending);
}

/// The id of a packet of `m` with sequence number `seq`, if any.
fn id_with_seq(m: &HashMap<u64, Packet>, seq: u64) -> (r: Option<u64>)
    ensures
        r matches Some(id) ==> m@.contains_key(id) && m@[id].seq == seq,
        r is None ==> forall|id: u64| #[trigger] m@.contains_key(id) ==> m@[id].seq != seq,
{
    for kv in it: m.iter()
        invariant
            forall|id: u64| #[trigger] m@.contains_key(id) ==> it.seq().contains((&id, &m@[id])),
            forall|j: int| 0 <= j < it.index() ==> (#[trigger] it.seq()[j]).1.seq != seq,
            it.index() == it.seq().len() ==> forall|id: u64| #[trigger] m@.contains_key(id) ==> m@[id].seq != seq,
    {
        let (k, v) = kv;
        if v.seq == seq {
            return Some(*k);
        }
    }
    None
}

impl ReorderBuffer {
    /// Packets waiting for release, by id.
    pub closed spec fn pending(self) -> Map<u64, PacketView> {
        self.received@.map_values(|p: Packet| p@)
    }

    /// Next sequence number to release.
    pub closed spec fn next(self) -> u64 {
        self.next_seq
    }

    /// Ids remembered for duplicate detection.
    pub closed spec fn seen_ids(self) -> Set<u64> {
        self.seen@
    }

    /// How many ids are remembered before the memory is cleared.
    pub closed spec fn seen_limit(self) -> nat {
        self.max_seen as nat
    }

    /// Each waiting packet is held under its own id.
    pub closed spec fn wf(self) -> bool {
        &&& forall|id: u64| #[trigger] self.received@.contains_key(id) ==> self.received@[id].id.0 == id
        &&& self.seen@.finite()
    }

    /// An empty buffer expecting sequence number 0.
    pub fn new() -> (r: Self)
        ensures
            r.wf(),
            r.pending() == Map::<u64, PacketView>::empty(),
            r.next() == 0,
            r.seen_ids() == Set::<u64>::empty(),
            r.seen_limit() == REORDER_MAX_SEEN,
    {
        let r = ReorderBuffer { received: HashMap::new(), next_seq: 0, seen: HashSet::new(), max_seen: REORDER_MAX_SEEN };
        proof {
            assert(r.pending() =~= Map::<u64, PacketView>::empty());
        }
        r
    }

    /// Accepts a packet unless its id was seen before. When the memory of
    /// seen ids is full it is cleared first. A packet whose id is waiting
    /// already replaces that packet.
    pub fn ingest(&mut self, packet: Packet)
        requires
            old(self).wf(),
        ensures
            final(self).wf(),
            final(self).next() == old(self).next(),
            final(self).seen_limit() == old(self).seen_limit(),
            final(self).seen_ids() == next_seen(old(self).seen_ids(), old(self).seen_limit(), packet@.id),
            old(self).seen_ids().contains(packet@.id) ==> final(self).pending() == old(self).pending(),
            !old(self).seen_ids().contains(packet@.id) ==> final(self).pending() == old(self).pending().insert(packet@.id, packet@),
    {
        let id = packet.id.0;
        if self.seen.contains(&id) {
            return;
        }
        if self.seen.len() >= self.max_seen {
            self.seen.clear();
        }
        self.seen.insert(id);
        let ghost pv = packet@;
        self.received.insert(id, packet);
        proof {
            assert(self.pending() =~= old(self).pending().insert(id, pv));
        }
    }

    /// Releases, in order, the waiting packets whose sequence numbers run on
    /// without a gap from the next expected one, and advances the counter
    /// past them. Where several waiting packets carry the same sequence
    /// number, one of them is released.
    pub fn reassemble_ready(&mut self) -> (out: Vec<Packet>)
        requires
            old(self).wf(),
            !run_reaches_max(old(self).pending(), old(self).next()),
        ensures
            final(self).wf(),
            final(self).seen_ids() == old(self).seen_ids(),
            final(self).seen_limit() == old(self).seen_limit(),
            final(self).next() == old(self).next() + out@.len(),
            forall|k: int| 0 <= k < out@.len() ==> #[trigger] out@[k]@.seq == old(self).next() + k,
            released_from(old(self).pending(), old(self).next(), out@.map_values(|p: Packet| p@)),
            final(self).pending() == old(self).pending().remove_keys(ids_of(out@.map_values(|p: Packet| p@))),
            !has_seq(final(self).pending(), final(self).next()),
    {
        let ghost start = self.next_seq;
        let ghost orig = self.pending();
        let mut out: Vec<Packet> = Vec::new();
        loop
            invariant
                self.wf(),
                self.seen@ == old(self).seen@,
                self.max_seen == old(self).max_seen,
                start == old(self).next_seq,
                orig == old(self).pending(),
                !run_reaches_max(orig, start),
                self.next_seq == start + out@.len(),
                released_from(orig, start, out@.map_values(|p: Packet| p@)),
                self.pending() == orig.remove_keys(ids_of(out@.map_values(|p: Packet| p@))),
                forall|q: u64| start <= q < self.next_seq ==> #[trigger] has_seq(orig, q),
            ensures
                !has_seq(self.pending(), self.next_seq),
            decreases self.received@.len(),
        {
            match id_with_seq(&self.received, self.next_seq) {
                None => {
                    proof {
                        if has_seq(self.pending(), self.next_seq) {
                            let id = choose|id: u64| #[trigger] self.pending().contains_key(id)
                                && self.pending()[id].seq == self.next_seq;
                            assert(self.received@.contains_key(id));
                        }
                    }
                    break;
                },
                Some(id) => {
                    let ghost q0 = self.next_seq;
                    let ghost ob = out@.map_values(|p: Packet| p@);
                    let ghost cur = self.pending();
                    proof {
                        assert(cur.contains_key(id));
                        assert(orig.contains_key(id) && orig[id] == cur[id]);
                        assert(has_seq(orig, q0));
                        if q0 == u64::MAX {
                            assert forall|q: u64| start <= q implies #[trigger] has_seq(orig, q) by {
                                if q < q0 {
                                } else {
                                    assert(q == q0);
                                }
                            }
                        }
                        vstd::std_specs::hash::axiom_hashmap_view_finite_dom(self.received);
                    }
                    let p = self.received.remove(&id).unwrap();
                    let ghost pv = p@;
                    out.push(p);
                    self.next_seq = self.next_seq + 1;
                    proof {
                        let no = out@.map_values(|p: Packet| p@);
                        assert(no =~= ob.push(pv));
                        assert(pv == cur[id]);
                        assert(pv.id == id);
                        assert(ids_of(no) =~= ids_of(ob).insert(id)) by {
                            assert forall|x: u64| ids_of(no).contains(x) <==> ids_of(ob).insert(id).contains(x) by {
                                let mn = no.map_values(|p: PacketView| p.id);
                                let mo = ob.map_values(|p: PacketView| p.id);
                                assert(mn =~= mo.push(id));
                                if mn.contains(x) {
                                    let k = choose|k: int| 0 <= k < mn.len() && mn[k] == x;
                                    if k < mo.len() {
                                        assert(mo[k] == x);
                                    }
                                }
                                if mo.contains(x) {
                                    let k = choose|k: int| 0 <= k < mo.len() && mo[k] == x;
                                    assert(mn[k] == x);
                                }
                                if x == id {
                                    assert(mn[mo.len() as int] == x);
                                }
                            }
                        }
                        assert(self.pending() =~= cur.remove(id));
                        assert(cur.remove(id) =~= orig.remove_keys(ids_of(no)));
                        assert forall|k: int| 0 <= k < no.len() implies orig.contains_key((#[trigger] no[k]).id)
                            && orig[no[k].id] == no[k] && no[k].seq == start + k by {
                            if k < ob.len() {
                                assert(no[k] == ob[k]);
                            }
                        }
                        assert forall|q: u64| start <= q < self.next_seq implies #[trigger] has_seq(orig, q) by {
                            if q == q0 {
                            }
                        }
                        assert forall|k: int| 0 <= k < out@.len() implies #[trigger] out@[k]@.seq == start + k by {
                            assert(out@[k]@ == no[k]);
                        }
                    }
                },
            }
        }
        proof {
            let no = out@.map_values(|p: Packet| p@);
            assert forall|k: int| 0 <= k < out@.len() implies #[trigger] out@[k]@.seq == start + k by {
                assert(out@[k]@ == no[k]);
            }
        }
        out
    }
}

impl Default for ReorderBuffer {
    /// An empty buffer expecting sequence number 0.
    fn default() -> (r: Self)
        ensures
            r.wf(),
            r.pending() == Map::<u64, PacketView>::empty(),
            r.next() == 0,
            r.seen_ids() == Set::<u64>::empty(),
            r.seen_limit() == REORDER_MAX_SEEN,
    {
        ReorderBuffer::new()
    }
}

} // verus!
