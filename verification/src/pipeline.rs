//! The encode stage of the sender's pipeline: data packets are collected per
//! FEC group, and each group is Reed–Solomon encoded as soon as all of its
//! data shards are present; what is left is flushed at the end.
use vstd::prelude::*;
use std::collections::{HashMap, HashSet};
use crate::fec::FecEncoder;
use crate::packet::{Packet, PacketView, packets_view};
use crate::schedule::{fec_for_group, spec_fec_for_group};
use crate::stash::{
    all_seqs_present, drain_fec_block_from_packets, drained_at, drained_block, group_buffer,
    group_end_seq, group_first_seq, kept_after_drain, law_drained_block_covers_range,
    law_upsert_keeps_seqs_unique, seq_present, seqs_unique, stash_fec_packet, stash_view,
    upsert_by_seq,
};

verus! {

broadcast use vstd::std_specs::hash::group_hash_axioms;

proof fn lemma_kept_after_drain(s: Seq<PacketView>, lo: u64, hi: u64)
    requires
        seqs_unique(s),
    ensures
        seqs_unique(kept_after_drain(s, lo, hi)),
        forall|k: int| 0 <= k < kept_after_drain(s, lo, hi).len()
            ==> !(lo <= #[trigger] kept_after_drain(s, lo, hi)[k].seq < hi),
        forall|k: int| 0 <= k < kept_after_drain(s, lo, hi).len()
            ==> exists|j: int| 0 <= j < s.len() && s[j] == #[trigger] kept_after_drain(s, lo, hi)[k],
    decreases s.len(),
{
    if s.len() > 0 {
        let t = s.drop_last();
        let x = s.last();
        assert(seqs_unique(t)) by {
            assert forall|i: int, j: int| 0 <= i < j < t.len() implies #[trigger] t[i].seq != #[trigger] t[j].seq by {
                assert(s[i].seq != s[j].seq);
            }
        }
        lemma_kept_after_drain(t, lo, hi);
        let kt = kept_after_drain(t, lo, hi);
        let last = s.len() - 1;
        assert forall|i: int| 0 <= i < t.len() implies #[trigger] drained_at(t, i, lo, hi) == drained_at(s, i, lo, hi) by {
            assert(t[i] == s[i]);
            if drained_at(t, i, lo, hi) {
                assert forall|j: int| 0 <= j < i implies #[trigger] s[j].seq != s[i].seq by {
                    assert(t[j] == s[j]);
                }
            }
            if drained_at(s, i, lo, hi) {
                assert forall|j: int| 0 <= j < i implies #[trigger] t[j].seq != t[i].seq by {
                    assert(t[j] == s[j]);
                }
            }
        }
        if !drained_at(s, last, lo, hi) {
            assert(forall|j: int| 0 <= j < last ==> #[trigger] s[j].seq != s[last].seq);
            assert(!(lo <= x.seq < hi));
            let k = kept_after_drain(s, lo, hi);
            assert(k == kt.push(x));
            assert forall|a: int| 0 <= a < k.len() implies exists|j: int| 0 <= j < s.len() && s[j] == #[trigger] k[a] by {
                if a < kt.len() {
                    assert(k[a] == kt[a]);
                    let j = choose|j: int| 0 <= j < t.len() && t[j] == kt[a];
                    assert(s[j] == t[j]);
                } else {
                    assert(s[last] == k[a]);
                }
            }
            assert forall|a: int, b: int| 0 <= a < b < k.len() implies #[trigger] k[a].seq != #[trigger] k[b].seq by {
                if b < kt.len() {
                    assert(k[a] == kt[a] && k[b] == kt[b]);
                } else {
                    assert(k[a] == kt[a]);
                    let j = choose|j: int| 0 <= j < t.len() && t[j] == kt[a];
                    assert(s[j].seq != s[last].seq);
                }
            }
            assert forall|a: int| 0 <= a < k.len() implies !(lo <= #[trigger] k[a].seq < hi) by {
                if a < kt.len() {
                    assert(k[a] == kt[a]);
                }
            }
        } else {
            assert forall|a: int| 0 <= a < kt.len() implies exists|j: int| 0 <= j < s.len() && s[j] == #[trigger] kt[a] by {
                let j = choose|j: int| 0 <= j < t.len() && t[j] == kt[a];
                assert(s[j] == t[j]);
            }
        }
    }
}

/// After the block over a non-empty range has been drained from a buffer
/// without repeated sequence numbers, the buffer no longer holds a complete
/// block over that range.
proof fn lemma_drain_leaves_incomplete(s: Seq<PacketView>, lo: u64, hi: u64)
    requires
        seqs_unique(s),
        lo < hi,
    ensures
        !all_seqs_present(kept_after_drain(s, lo, hi), lo, hi),
        seqs_unique(kept_after_drain(s, lo, hi)),
{
    lemma_kept_after_drain(s, lo, hi);
    let k = kept_after_drain(s, lo, hi);
    if seq_present(k, lo) {
        let i = choose|i: int| 0 <= i < k.len() && #[trigger] k[i].seq == lo;
        assert(!(lo <= k[i].seq < hi));
    }
    assert(!seq_present(k, lo));
}

/// Per-group buffers of data packets waiting for their FEC block, and the
/// groups in the order their first packet arrived.
pub struct FecStage {
    stash: HashMap<u64, Vec<Packet>>,
    order: Vec<u64>,
    data_shards: usize,
}

impl FecStage {
    /// The buffer of each group.
    pub closed spec fn buffers(self) -> Map<u64, Seq<PacketView>> {
        stash_view(self.stash@)
    }

    /// The groups that have a buffer, in order of first arrival.
    pub closed spec fn groups(self) -> Seq<u64> {
        self.order@
    }

    /// Data shards per block of this stage.
    pub closed spec fn width(self) -> nat {
        if self.data_shards == 0 { 1 } else { self.data_shards as nat }
    }

    /// Buffers hold each sequence number at most once and never a complete
    /// block; the group list names each buffered group once.
    pub closed spec fn wf(self) -> bool {
        &&& self.order@.no_duplicates()
        &&& forall|g: u64| #[trigger] self.stash@.contains_key(g) <==> self.order@.contains(g)
        &&& forall|g: u64| #[trigger] self.stash@.contains_key(g) ==> seqs_unique(stash_view(self.stash@)[g])
            && !all_seqs_present(stash_view(self.stash@)[g],
                group_first_seq(g, self.width()), group_end_seq(g, self.width()))
    }

    /// An empty stage for blocks of `data_shards` data shards.
    pub fn new(data_shards: usize) -> (r: Self)
        ensures
            r.wf(),
            r.buffers() == Map::<u64, Seq<PacketView>>::empty(),
            r.groups() == Seq::<u64>::empty(),
            r.width() == if data_shards == 0 { 1 } else { data_shards as nat },
    {
        let r = FecStage { stash: HashMap::new(), order: Vec::new(), data_shards };
        proof {
            assert(stash_view(r.stash@) =~= Map::<u64, Seq<PacketView>>::empty());
        }
        r
    }

    /// Takes one data packet: it is upserted into its group's buffer, and
    /// when that completes the group's block the block is removed and encoded
    /// with `fec`, whose output is returned. Otherwise nothing is returned.
    pub fn push(&mut self, p: Packet, fec: &FecEncoder) -> (out: Vec<Packet>)
        requires
            old(self).wf(),
            fec.width() == old(self).width(),
            group_first_seq(p@.fec_group, old(self).width()) < group_end_seq(p@.fec_group, old(self).width()),
            ({
                let g = p@.fec_group;
                let b1 = upsert_by_seq(group_buffer(old(self).buffers(), g), p@);
                let lo = group_first_seq(g, old(self).width());
                let hi = group_end_seq(g, old(self).width());
                all_seqs_present(b1, lo, hi) && fec.reaches_codec(drained_block(b1, lo, hi))
                    ==> fec.width() + fec.parity_shards <= usize::MAX
            }),
        ensures
            final(self).wf(),
            final(self).width() == old(self).width(),
            ({
                let g = p@.fec_group;
                let b1 = upsert_by_seq(group_buffer(old(self).buffers(), g), p@);
                let lo = group_first_seq(g, old(self).width());
                let hi = group_end_seq(g, old(self).width());
                &&& final(self).groups() == if old(self).groups().contains(g) {
                    old(self).groups()
                } else {
                    old(self).groups().push(g)
                }
                &&& all_seqs_present(b1, lo, hi) ==> final(self).buffers() == old(self).buffers().insert(g, kept_after_drain(b1, lo, hi))
                    && fec.encodes(drained_block(b1, lo, hi), packets_view(out@))
                &&& !all_seqs_present(b1, lo, hi) ==> final(self).buffers() == old(self).buffers().insert(g, b1)
                    && out@.len() == 0
            }),
    {
        let g = p.fec_group;
        let ghost w = self.width();
        let ghost lo = group_first_seq(g, w);
        let ghost hi = group_end_seq(g, w);
        let ghost bm0 = stash_view(self.stash@);
        let ghost b1 = upsert_by_seq(group_buffer(bm0, g), p@);
        proof {
            if bm0.contains_key(g) {
                assert(self.stash@.contains_key(g));
            }
            law_upsert_keeps_seqs_unique(group_buffer(bm0, g), p@);
        }
        if !self.order_contains(g) {
            let ghost o0 = self.order@;
            self.order.push(g);
            proof {
                assert(self.order@[o0.len() as int] == g);
                assert forall|x: u64| #[trigger] self.order@.contains(x) <==> o0.contains(x) || x == g by {
                    if o0.contains(x) {
                        let j = choose|j: int| 0 <= j < o0.len() && o0[j] == x;
                        assert(self.order@[j] == x);
                    }
                    if self.order@.contains(x) && x != g {
                        let j = choose|j: int| 0 <= j < self.order@.len() && self.order@[j] == x;
                        assert(o0[j] == x);
                    }
                }
                assert forall|a: int, b: int| 0 <= a < b < self.order@.len() implies self.order@[a] != self.order@[b] by {
                    if b == o0.len() {
                        assert(o0[a] == self.order@[a]);
                        assert(o0.contains(o0[a]));
                    } else {
                        assert(o0[a] != o0[b]);
                    }
                }
            }
        }
        proof {
            assert(self.order@.contains(g));
        }
        stash_fec_packet(&mut self.stash, g, p);
        let ghost m1 = self.stash@;
        proof {
            assert(stash_view(m1) == bm0.insert(g, b1));
            assert(stash_view(m1).contains_key(g));
            assert(m1.contains_key(g));
            assert(stash_view(m1)[g] == packets_view(m1[g]@));
        }
        let mut buf = match self.stash.remove(&g) {
            Some(b) => b,
            None => Vec::new(),
        };
        let ghost m2 = self.stash@;
        proof {
            assert(buf == m1[g]);
            assert(packets_view(buf@) == b1);
            assert(m2 == m1.remove(g));
        }
        let mut out: Vec<Packet> = Vec::new();
        let mut drained = false;
        loop
            invariant
                self.stash@ == m2,
                seqs_unique(b1),
                lo < hi,
                lo == group_first_seq(g, fec.width()),
                hi == group_end_seq(g, fec.width()),
                all_seqs_present(b1, lo, hi) && fec.reaches_codec(drained_block(b1, lo, hi))
                    ==> fec.width() + fec.parity_shards <= usize::MAX,
                !drained ==> packets_view(buf@) == b1 && out@.len() == 0,
                drained ==> all_seqs_present(b1, lo, hi)
                    && packets_view(buf@) == kept_after_drain(b1, lo, hi)
                    && fec.encodes(drained_block(b1, lo, hi), packets_view(out@))
                    && !all_seqs_present(packets_view(buf@), lo, hi),
            ensures
                !all_seqs_present(b1, lo, hi) ==> !drained,
                !drained ==> !all_seqs_present(b1, lo, hi),
                !drained ==> packets_view(buf@) == b1 && out@.len() == 0,
                drained ==> all_seqs_present(b1, lo, hi)
                    && packets_view(buf@) == kept_after_drain(b1, lo, hi)
                    && fec.encodes(drained_block(b1, lo, hi), packets_view(out@)),
            decreases (if drained { 0int } else { 1int }),
        {
            match drain_fec_block_from_packets(&mut buf, g, fec) {
                None => {
                    break;
                },
                Some(enc) => {
                    proof {
                        lemma_drain_leaves_incomplete(b1, lo, hi);
                    }
                    out = enc;
                    drained = true;
                },
            }
        }
        let ghost kept = packets_view(buf@);
        proof {
            if drained {
                lemma_drain_leaves_incomplete(b1, lo, hi);
            }
        }
        let ghost bm_before_insert = stash_view(self.stash@);
        self.stash.insert(g, buf);
        proof {
            assert(self.stash@ == m1.remove(g).insert(g, self.stash@[g]));
            assert(packets_view(self.stash@[g]@) == kept);
            assert forall|h: u64| #[trigger] stash_view(self.stash@).contains_key(h) <==> bm0.insert(g, kept).contains_key(h) by {
                if h != g {
                    assert(self.stash@.contains_key(h) == m1.contains_key(h));
                    assert(stash_view(m1).contains_key(h) == bm0.insert(g, b1).contains_key(h));
                }
            }
            assert forall|h: u64| #[trigger] stash_view(self.stash@).contains_key(h) implies stash_view(self.stash@)[h] == bm0.insert(g, kept)[h] by {
                if h != g {
                    assert(self.stash@[h] == m1[h]);
                    assert(stash_view(m1)[h] == bm0.insert(g, b1)[h]);
                }
            }
            assert(stash_view(self.stash@) =~= bm0.insert(g, kept));
            if drained {
                assert(seqs_unique(kept) && !all_seqs_present(kept, lo, hi));
            } else {
                assert(kept == b1);
                assert(!all_seqs_present(kept, lo, hi));
            }
            assert forall|h: u64| #[trigger] self.stash@.contains_key(h) <==> self.order@.contains(h) by {
                if h == g {
                    assert(self.order@.contains(g));
                } else {
                    assert(self.stash@.contains_key(h) == m1.contains_key(h));
                    assert(stash_view(m1).contains_key(h) == bm0.contains_key(h));
                }
            }
            assert forall|h: u64| #[trigger] self.stash@.contains_key(h) implies seqs_unique(stash_view(self.stash@)[h])
                && !all_seqs_present(stash_view(self.stash@)[h], group_first_seq(h, self.width()), group_end_seq(h, self.width())) by {
                if h != g {
                    assert(old(self).stash@.contains_key(h));
                    assert(stash_view(self.stash@)[h] == bm0[h]);
                }
            }
        }
        out
    }

    /// Ends the stage: the packets still buffered, group by group in the
    /// order the groups first arrived, each in buffer order. No buffer holds
    /// a complete block at this point, so nothing more is encoded; `base`,
    /// `fec_cap` and `stragglers` choose each group's encoder all the same.
    pub fn finish(self, base: &FecEncoder, fec_cap: usize, stragglers: &HashSet<u64>) -> (out: Vec<Packet>)
        requires
            self.wf(),
            base.width() == self.width(),
        ensures
            packets_view(out@) == flatten_groups(self.buffers(), self.groups()),
    {
        let ghost w = self.width();
        let ghost bufs = stash_view(self.stash@);
        let ghost m0 = self.stash@;
        let ghost order = self.order@;
        let FecStage { stash, order: groups, data_shards: _ } = self;
        let mut stash = stash;
        let mut out: Vec<Packet> = Vec::new();
        let mut k: usize = 0;
        while k < groups.len()
            invariant
                k <= groups@.len(),
                groups@ == order,
                order.no_duplicates(),
                base.width() == w,
                forall|g: u64| #[trigger] m0.contains_key(g) <==> order.contains(g),
                forall|g: u64| #[trigger] m0.contains_key(g) ==> seqs_unique(bufs[g])
                    && !all_seqs_present(bufs[g], group_first_seq(g, w), group_end_seq(g, w)),
                bufs == stash_view(m0),
                forall|j: int| k <= j < order.len() ==> #[trigger] stash@.contains_key(order[j]) && stash@[order[j]] == m0[order[j]],
                packets_view(out@) == flatten_groups(bufs, order.take(k as int)),
            decreases groups@.len() - k,
        {
            let g = groups[k];
            proof {
                assert(order.contains(g));
                assert(stash@.contains_key(order[k as int]));
            }
            let ghost s1 = stash@;
            let mut buf = match stash.remove(&g) {
                Some(b) => b,
                None => Vec::new(),
            };
            proof {
                assert(buf == m0[g]);
                assert(packets_view(buf@) == bufs[g]);
                assert forall|j: int| k + 1 <= j < order.len() implies #[trigger] stash@.contains_key(order[j]) && stash@[order[j]] == m0[order[j]] by {
                    assert(order[j] != order[k as int]);
                    assert(s1.contains_key(order[j]));
                }
            }
            let fec = fec_for_group(base, fec_cap, stragglers.contains(&g));
            let ghost b0 = packets_view(buf@);
            proof {
                assert(fec.data_shards == base.data_shards);
                assert(fec.width() == w);
                assert(m0.contains_key(g));
                assert(!all_seqs_present(b0, group_first_seq(g, w), group_end_seq(g, w)));
            }
            match drain_fec_block_from_packets(&mut buf, g, &fec) {
                None => {},
                Some(_) => {
                    proof {
                        assert(false);
                    }
                },
            }
            let ghost before = out@;
            let mut rest = buf;
            out.append(&mut rest);
            proof {
                assert(order.take(k + 1).drop_last() =~= order.take(k as int));
                assert(order.take(k + 1).last() == g);
                assert(packets_view(out@) =~= packets_view(before) + bufs[g]);
            }
            k = k + 1;
        }
        proof {
            assert(order.take(order.len() as int) =~= order);
        }
        out
    }

    fn order_contains(&self, g: u64) -> (r: bool)
        ensures
            r == self.order@.contains(g),
    {
        let mut i: usize = 0;
        while i < self.order.len()
            invariant
                i <= self.order@.len(),
                forall|j: int| 0 <= j < i ==> self.order@[j] != g,
            decreases self.order@.len() - i,
        {
            if self.order[i] == g {
                return true;
            }
            i = i + 1;
        }
        false
    }
}

/// The buffers of `order`'s groups, one after another.
pub open spec fn flatten_groups(bufs: Map<u64, Seq<PacketView>>, order: Seq<u64>) -> Seq<PacketView>
    decreases order.len(),
{
    if order.len() == 0 {
        Seq::empty()
    } else {
        flatten_groups(bufs, order.drop_last()) + bufs[order.last()]
    }
}

} // verus!
