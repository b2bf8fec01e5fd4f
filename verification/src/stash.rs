//! Per-group collection of data packets before Reed–Solomon encoding, and the
//! removal of a complete block from such a collection.
use vstd::prelude::*;
use std::collections::HashMap;
use vstd::multiset::Multiset;
use crate::packet::{Packet, PacketView, packets_view};
use crate::proto::ChunkDescriptor;
use crate::fec::{FecEncoder, spec_width};
use crate::sat::{sat_u64, sat_mul_u64};

verus! {

broadcast use vstd::std_specs::hash::group_hash_axioms;

/// Index of the first packet carrying sequence number `seq`.
pub open spec fn first_with_seq(s: Seq<PacketView>, seq: u64) -> Option<int>
    decreases s.len(),
{
    if s.len() == 0 {
        None
    } else {
        match first_with_seq(s.drop_last(), seq) {
            Some(i) => Some(i),
            None => if s.last().seq == seq { Some(s.len() - 1) } else { None },
        }
    }
}

/// `buf` after an upsert of `pkt`: the first packet with the same sequence
/// number is replaced, or `pkt` is appended when there is none.
pub open spec fn upsert_by_seq(buf: Seq<PacketView>, pkt: PacketView) -> Seq<PacketView> {
    match first_with_seq(buf, pkt.seq) {
        Some(i) => buf.update(i, pkt),
        None => buf.push(pkt),
    }
}

/// The stash with each buffer taken by its packets' views.
pub open spec fn stash_view(m: Map<u64, Vec<Packet>>) -> Map<u64, Seq<PacketView>> {
    m.map_values(|v: Vec<Packet>| packets_view(v@))
}

/// The buffer of group `g`, empty when the group has none.
pub open spec fn group_buffer(m: Map<u64, Seq<PacketView>>, g: u64) -> Seq<PacketView> {
    if m.contains_key(g) { m[g] } else { Seq::empty() }
}

/// No two packets share a sequence number.
pub open spec fn seqs_unique(s: Seq<PacketView>) -> bool {
    forall|i: int, j: int| 0 <= i < j < s.len() ==> #[trigger] s[i].seq != #[trigger] s[j].seq
}

pub(crate) proof fn lemma_first_with_seq(s: Seq<PacketView>, seq: u64)
    ensures
        first_with_seq(s, seq) matches Some(i) ==> 0 <= i < s.len() && s[i].seq == seq
            && forall|j: int| 0 <= j < i ==> #[trigger] s[j].seq != seq,
        first_with_seq(s, seq) is None ==> forall|j: int| 0 <= j < s.len() ==> #[trigger] s[j].seq != seq,
    decreases s.len(),
{
    if s.len() > 0 {
        lemma_first_with_seq(s.drop_last(), seq);
        assert forall|j: int| 0 <= j < s.len() - 1 implies #[trigger] s[j] == s.drop_last()[j] by {}
    }
}

/// Position of the first packet with sequence number `seq`.
pub(crate) fn position_of_seq(buf: &Vec<Packet>, seq: u64) -> (r: Option<usize>)
    ensures
        r matches Some(i) ==> i < buf@.len() && first_with_seq(packets_view(buf@), seq) == Some(i as int),
        r is None ==> first_with_seq(packets_view(buf@), seq) is None,
{
    let ghost bv = packets_view(buf@);
    proof {
        lemma_first_with_seq(bv, seq);
    }
    let mut i: usize = 0;
    while i < buf.len()
        invariant
            i <= buf@.len(),
            bv == packets_view(buf@),
            forall|j: int| 0 <= j < i ==> #[trigger] bv[j].seq != seq,
        decreases buf@.len() - i,
    {
        if buf[i].seq == seq {
            proof {
                lemma_first_with_seq(bv, seq);
                match first_with_seq(bv, seq) {
                    Some(k) => {
                        if k < i {
                            assert(bv[k].seq != seq);
                        } else if k > i {
                            assert(bv[i as int].seq == seq);
                        }
                    },
                    None => {
                        assert(bv[i as int].seq == seq);
                    },
                }
            }
            return Some(i);
        }
        i = i + 1;
    }
    proof {
        if let Some(k) = first_with_seq(bv, seq) {
            assert(bv[k].seq == seq);
        }
    }
    None
}

/// Upserts a data packet into the buffer of its FEC group: a packet with the
/// same sequence number is replaced, any other is appended.
pub fn stash_fec_packet(pending: &mut HashMap<u64, Vec<Packet>>, g: u64, pkt: Packet)
    ensures
        stash_view(final(pending)@) == stash_view(old(pending)@).insert(
            g,
            upsert_by_seq(group_buffer(stash_view(old(pending)@), g), pkt@),
        ),
{
    let ghost before = pending@;
    let mut buf = match pending.remove(&g) {
        Some(b) => b,
        None => Vec::new(),
    };
    let ghost bv = packets_view(buf@);
    proof {
        assert(bv == group_buffer(stash_view(before), g));
    }
    let ghost pv = pkt@;
    match position_of_seq(&buf, pkt.seq) {
        Some(pos) => {
            let ghost b0 = buf@;
            buf[pos] = pkt;
            proof {
                assert(packets_view(buf@) =~= bv.update(pos as int, pv));
            }
        },
        None => {
            let ghost b0 = buf@;
            buf.push(pkt);
            proof {
                assert(buf@ =~= b0.push(pkt));
                assert(packets_view(buf@) =~= bv.push(pv));
            }
        },
    }
    let ghost nb = buf;
    pending.insert(g, buf);
    proof {
        assert(pending@ == before.remove(g).insert(g, nb));
        assert(stash_view(pending@) =~= stash_view(before).insert(g, packets_view(nb@)));
    }
}

/// Law: a buffer filled only through upserts holds each sequence number at
/// most once, and the packet just upserted is in it.
pub proof fn law_upsert_keeps_seqs_unique(buf: Seq<PacketView>, pkt: PacketView)
    requires
        seqs_unique(buf),
    ensures
        seqs_unique(upsert_by_seq(buf, pkt)),
        upsert_by_seq(buf, pkt).contains(pkt),
        upsert_by_seq(buf, pkt).len() <= buf.len() + 1,
{
    lemma_first_with_seq(buf, pkt.seq);
    let r = upsert_by_seq(buf, pkt);
    match first_with_seq(buf, pkt.seq) {
        Some(i) => {
            assert(r[i] == pkt);
            assert forall|a: int, b: int| 0 <= a < b < r.len() implies #[trigger] r[a].seq != #[trigger] r[b].seq by {
                if a != i && b != i {
                    assert(buf[a].seq != buf[b].seq);
                } else if a == i {
                    assert(buf[a].seq != buf[b].seq);
                } else {
                    assert(buf[a].seq != buf[b].seq);
                }
            }
        },
        None => {
            assert(r[buf.len() as int] == pkt);
            assert forall|a: int, b: int| 0 <= a < b < r.len() implies #[trigger] r[a].seq != #[trigger] r[b].seq by {
                if b < buf.len() {
                    assert(buf[a].seq != buf[b].seq);
                } else {
                    assert(buf[a].seq != pkt.seq);
                }
            }
        },
    }
}


/// Packet `i` belongs to the block over sequence numbers `lo..hi`: its number
/// lies in the range and no earlier packet carries it.
pub open spec fn drained_at(s: Seq<PacketView>, i: int, lo: u64, hi: u64) -> bool {
    &&& lo <= s[i].seq < hi
    &&& forall|j: int| 0 <= j < i ==> #[trigger] s[j].seq != s[i].seq
}

/// The packets left behind when the block over `lo..hi` is removed, in order.
pub open spec fn kept_after_drain(s: Seq<PacketView>, lo: u64, hi: u64) -> Seq<PacketView>
    decreases s.len(),
{
    if s.len() == 0 {
        Seq::empty()
    } else if drained_at(s, s.len() - 1, lo, hi) {
        kept_after_drain(s.drop_last(), lo, hi)
    } else {
        kept_after_drain(s.drop_last(), lo, hi).push(s.last())
    }
}

/// The packets of the block over `lo..hi`, last position first.
pub open spec fn drained_block(s: Seq<PacketView>, lo: u64, hi: u64) -> Seq<PacketView>
    decreases s.len(),
{
    if s.len() == 0 {
        Seq::empty()
    } else if drained_at(s, s.len() - 1, lo, hi) {
        seq![s.last()] + drained_block(s.drop_last(), lo, hi)
    } else {
        drained_block(s.drop_last(), lo, hi)
    }
}

/// Some packet carries sequence number `q`.
pub open spec fn seq_present(s: Seq<PacketView>, q: u64) -> bool {
    exists|i: int| 0 <= i < s.len() && #[trigger] s[i].seq == q
}

/// Every sequence number in `lo..hi` is carried by some packet.
pub open spec fn all_seqs_present(s: Seq<PacketView>, lo: u64, hi: u64) -> bool {
    forall|q: u64| lo <= q < hi ==> #[trigger] seq_present(s, q)
}

/// First sequence number of the data shards of group `g` in blocks of `width`.
pub open spec fn group_first_seq(g: u64, width: nat) -> u64 {
    sat_u64(g * width)
}

/// One past the last sequence number of the data shards of group `g`.
pub open spec fn group_end_seq(g: u64, width: nat) -> u64 {
    sat_u64(group_first_seq(g, width) + width)
}

/// Whether some packet before position `end` carries `seq`.
fn seq_before(v: &Vec<Packet>, end: usize, seq: u64) -> (r: bool)
    requires
        end <= v@.len(),
    ensures
        r == exists|j: int| 0 <= j < end && #[trigger] packets_view(v@)[j].seq == seq,
{
    let mut i: usize = 0;
    while i < end
        invariant
            i <= end <= v@.len(),
            forall|j: int| 0 <= j < i ==> #[trigger] packets_view(v@)[j].seq != seq,
        decreases end - i,
    {
        if v[i].seq == seq {
            proof {
                assert(packets_view(v@)[i as int].seq == seq);
            }
            return true;
        }
        i = i + 1;
    }
    false
}

/// When every data shard of `fec_group` is present in `packets`, removes the
/// first packet of each of their sequence numbers and returns the block they
/// form, encoded; otherwise leaves `packets` as it is and returns `None`.
pub fn drain_fec_block_from_packets(
    packets: &mut Vec<Packet>,
    fec_group: u64,
    fec: &FecEncoder,
) -> (r: Option<Vec<Packet>>)
    requires
        all_seqs_present(packets_view(old(packets)@), group_first_seq(fec_group, fec.width()), group_end_seq(fec_group, fec.width()))
            && fec.reaches_codec(drained_block(packets_view(old(packets)@), group_first_seq(fec_group, fec.width()), group_end_seq(fec_group, fec.width())))
            ==> fec.width() + fec.parity_shards <= usize::MAX,
    ensures
        r is Some <==> all_seqs_present(packets_view(old(packets)@), group_first_seq(fec_group, fec.width()), group_end_seq(fec_group, fec.width())),
        r is None ==> final(packets)@ == old(packets)@,
        r matches Some(out) ==> packets_view(final(packets)@) == kept_after_drain(packets_view(old(packets)@),
            group_first_seq(fec_group, fec.width()), group_end_seq(fec_group, fec.width())),
        r matches Some(out) ==> fec.encodes(drained_block(packets_view(old(packets)@),
            group_first_seq(fec_group, fec.width()), group_end_seq(fec_group, fec.width())), packets_view(out@)),
{
    let n: usize = if fec.data_shards == 0 { 1 } else { fec.data_shards };
    let base = sat_mul_u64(fec_group, n as u64);
    let hi = base.saturating_add(n as u64);
    let ghost s0 = packets_view(packets@);
    assert(n == fec.width());
    assert(hi == group_end_seq(fec_group, fec.width()));
    let mut q = base;
    while q < hi
        invariant
            base <= q <= hi,
            base == group_first_seq(fec_group, fec.width()),
            hi == group_end_seq(fec_group, fec.width()),
            packets@ == old(packets)@,
            s0 == packets_view(packets@),
            forall|x: u64| base <= x < q ==> #[trigger] seq_present(s0, x),
        decreases hi - q,
    {
        match position_of_seq(packets, q) {
            None => {
                proof {
                    lemma_first_with_seq(s0, q);
                    assert(!seq_present(s0, q));
                    assert(!all_seqs_present(s0, base, hi));
                }
                return None;
            },
            Some(pos) => {
                proof {
                    lemma_first_with_seq(s0, q);
                    assert(s0[pos as int].seq == q);
                    assert(seq_present(s0, q));
                }
            },
        }
        q = q + 1;
    }
    let mut block: Vec<Packet> = Vec::new();
    let ghost mut kept: Seq<PacketView> = Seq::empty();
    let mut i: usize = packets.len();
    proof {
        assert(s0.take(i as int) =~= s0);
        assert(s0.take(i as int) + kept =~= s0);
    }
    while i > 0
        invariant
            i <= s0.len(),
            packets_view(packets@) == s0.take(i as int) + kept,
            packets_view(block@) + drained_block(s0.take(i as int), base, hi) == drained_block(s0, base, hi),
            kept_after_drain(s0.take(i as int), base, hi) + kept == kept_after_drain(s0, base, hi),
        decreases i,
    {
        let idx = i - 1;
        let ghost t = s0.take(i as int);
        proof {
            assert(packets_view(packets@).len() == packets@.len());
            assert(packets@.len() >= i);
            assert(t.drop_last() =~= s0.take(idx as int));
            assert(packets_view(packets@)[idx as int] == s0[idx as int]);
            assert forall|j: int| 0 <= j < idx implies #[trigger] packets_view(packets@)[j] == t[j] by {
                assert((s0.take(i as int) + kept)[j] == t[j]);
            }
        }
        let sq = packets[idx].seq;
        let earlier = seq_before(packets, idx, sq);
        proof {
            assert(drained_at(t, idx as int, base, hi) == (base <= sq && sq < hi && !earlier)) by {
                if earlier {
                    let j = choose|j: int| 0 <= j < idx && #[trigger] packets_view(packets@)[j].seq == sq;
                    assert(t[j].seq == sq);
                }
                if !earlier {
                    assert forall|j: int| 0 <= j < idx implies #[trigger] t[j].seq != t[idx as int].seq by {
                        assert(packets_view(packets@)[j] == t[j]);
                    }
                }
            }
        }
        if base <= sq && sq < hi && !earlier {
            let ghost pb = packets@;
            let ghost bb = block@;
            let pkt = packets.remove(idx);
            block.push(pkt);
            proof {
                assert(packets_view(packets@) =~= packets_view(pb).remove(idx as int));
                assert(packets_view(packets@) =~= s0.take(idx as int) + kept);
                assert(block@ =~= bb.push(pkt));
                assert(packets_view(block@) =~= packets_view(bb).push(t.last()));
                assert(drained_block(t, base, hi) =~= seq![t.last()] + drained_block(s0.take(idx as int), base, hi));
                assert(packets_view(block@) + drained_block(s0.take(idx as int), base, hi)
                    =~= packets_view(bb) + drained_block(t, base, hi));
            }
        } else {
            proof {
                let k2 = seq![t.last()] + kept;
                assert(packets_view(packets@) =~= s0.take(idx as int) + k2);
                assert(kept_after_drain(t, base, hi) =~= kept_after_drain(s0.take(idx as int), base, hi).push(t.last()));
                assert(kept_after_drain(s0.take(idx as int), base, hi) + k2 =~= kept_after_drain(t, base, hi) + kept);
                kept = k2;
            }
        }
        i = idx;
    }
    proof {
        assert(s0.take(0) =~= Seq::<PacketView>::empty());
        assert(packets_view(block@) =~= drained_block(s0, base, hi));
        assert(packets_view(packets@) =~= kept_after_drain(s0, base, hi));
    }
    Some(fec.encode_block(block.as_slice()))
}


/// Law: draining a block loses no packet and invents none: the packets kept
/// and the packets of the block are, together, the packets that were there.
pub proof fn law_drain_loses_nothing(s: Seq<PacketView>, lo: u64, hi: u64)
    ensures
        kept_after_drain(s, lo, hi).to_multiset().add(drained_block(s, lo, hi).to_multiset()) == s.to_multiset(),
    decreases s.len(),
{
    broadcast use vstd::seq_lib::group_to_multiset_ensures;
    broadcast use vstd::multiset::group_multiset_axioms;
    broadcast use vstd::seq_lib::lemma_multiset_commutative;

    if s.len() == 0 {
        assert(kept_after_drain(s, lo, hi).to_multiset() =~= Multiset::empty());
        assert(drained_block(s, lo, hi).to_multiset() =~= Multiset::empty());
        assert(s.to_multiset() =~= Multiset::empty());
    } else {
        let t = s.drop_last();
        let x = s.last();
        law_drain_loses_nothing(t, lo, hi);
        assert(s =~= t.push(x));
        assert(seq![x].to_multiset() =~= Multiset::empty().insert(x)) by {
            assert(seq![x] =~= Seq::<PacketView>::empty().push(x));
        }
        if drained_at(s, s.len() - 1, lo, hi) {
            assert(drained_block(s, lo, hi).to_multiset() =~= drained_block(t, lo, hi).to_multiset().insert(x));
        } else {
            assert(kept_after_drain(s, lo, hi) == kept_after_drain(t, lo, hi).push(x));
        }
        assert(kept_after_drain(s, lo, hi).to_multiset().add(drained_block(s, lo, hi).to_multiset())
            =~= s.to_multiset());
    }
}

/// The sequence numbers of a sequence of packets.
pub open spec fn seqs_of(s: Seq<PacketView>) -> Seq<u64> {
    s.map_values(|p: PacketView| p.seq)
}

proof fn lemma_drained_block_seqs(s: Seq<PacketView>, lo: u64, hi: u64)
    ensures
        forall|k: int| 0 <= k < drained_block(s, lo, hi).len()
            ==> lo <= #[trigger] drained_block(s, lo, hi)[k].seq < hi,
        seqs_of(drained_block(s, lo, hi)).no_duplicates(),
        forall|i: int| 0 <= i < s.len() && #[trigger] drained_at(s, i, lo, hi)
            ==> seqs_of(drained_block(s, lo, hi)).contains(s[i].seq),
        forall|q: u64| #[trigger] seqs_of(drained_block(s, lo, hi)).contains(q)
            ==> exists|i: int| 0 <= i < s.len() && drained_at(s, i, lo, hi) && #[trigger] s[i].seq == q,
    decreases s.len(),
{
    if s.len() > 0 {
        let t = s.drop_last();
        let last = s.len() - 1;
        lemma_drained_block_seqs(t, lo, hi);
        assert forall|i: int| 0 <= i < t.len() implies #[trigger] drained_at(t, i, lo, hi) == drained_at(s, i, lo, hi) by {
            assert(t[i] == s[i]);
            if drained_at(t, i, lo, hi) {
                assert forall|j: int| 0 <= j < i implies #[trigger] s[j].seq != s[i].seq by {
                    assert(t[j] == s[j]);
                }
            }
            if drained_at(s, i, lo, hi) {
                assert forall|j: int| 0 <= j < i implies #[trigger] t[j].seq != t[i].seq by {
                    assert(t[j] == s[j]);
                }
            }
        }
        let db = drained_block(s, lo, hi);
        let dt = drained_block(t, lo, hi);
        if drained_at(s, last, lo, hi) {
            assert(db == seq![s.last()] + dt);
            assert(seqs_of(db) =~= seq![s.last().seq] + seqs_of(dt));
            assert forall|k: int| 0 <= k < db.len() implies lo <= #[trigger] db[k].seq < hi by {
                if k > 0 {
                    assert(db[k] == dt[k - 1]);
                }
            }
            assert(!seqs_of(dt).contains(s.last().seq)) by {
                if seqs_of(dt).contains(s.last().seq) {
                    let i = choose|i: int| 0 <= i < t.len() && drained_at(t, i, lo, hi) && #[trigger] t[i].seq == s.last().seq;
                    assert(s[i].seq != s[last].seq);
                }
            }
            assert(seqs_of(db).no_duplicates()) by {
                assert forall|a: int, b: int| 0 <= a < seqs_of(db).len() && 0 <= b < seqs_of(db).len() && a != b
                    implies seqs_of(db)[a] != seqs_of(db)[b] by {
                    if a == 0 {
                        assert(seqs_of(db)[b] == seqs_of(dt)[b - 1]);
                    } else if b == 0 {
                        assert(seqs_of(db)[a] == seqs_of(dt)[a - 1]);
                    } else {
                        assert(seqs_of(db)[a] == seqs_of(dt)[a - 1]);
                        assert(seqs_of(db)[b] == seqs_of(dt)[b - 1]);
                    }
                }
            }
            assert forall|i: int| 0 <= i < s.len() && #[trigger] drained_at(s, i, lo, hi)
                implies seqs_of(db).contains(s[i].seq) by {
                if i == last {
                    assert(seqs_of(db)[0] == s[i].seq);
                } else {
                    assert(drained_at(t, i, lo, hi));
                    assert(t[i] == s[i]);
                    let k = choose|k: int| 0 <= k < seqs_of(dt).len() && seqs_of(dt)[k] == t[i].seq;
                    assert(seqs_of(db)[k + 1] == seqs_of(dt)[k]);
                }
            }
            assert forall|q: u64| #[trigger] seqs_of(db).contains(q)
                implies exists|i: int| 0 <= i < s.len() && drained_at(s, i, lo, hi) && #[trigger] s[i].seq == q by {
                let k = choose|k: int| 0 <= k < seqs_of(db).len() && seqs_of(db)[k] == q;
                if k == 0 {
                    assert(s[last].seq == q);
                } else {
                    assert(seqs_of(dt)[k - 1] == q);
                    assert(seqs_of(dt).contains(q));
                    let i = choose|i: int| 0 <= i < t.len() && drained_at(t, i, lo, hi) && #[trigger] t[i].seq == q;
                    assert(s[i].seq == q);
                }
            }
        } else {
            assert(db == dt);
            assert forall|i: int| 0 <= i < s.len() && #[trigger] drained_at(s, i, lo, hi)
                implies seqs_of(db).contains(s[i].seq) by {
                if i < last {
                    assert(drained_at(t, i, lo, hi));
                    assert(t[i] == s[i]);
                }
            }
            assert forall|q: u64| #[trigger] seqs_of(db).contains(q)
                implies exists|i: int| 0 <= i < s.len() && drained_at(s, i, lo, hi) && #[trigger] s[i].seq == q by {
                let i = choose|i: int| 0 <= i < t.len() && drained_at(t, i, lo, hi) && #[trigger] t[i].seq == q;
                assert(s[i].seq == q);
            }
        }
    }
}

/// Law: when every sequence number of `lo..hi` is present, the drained block
/// holds exactly one packet for each of them and no other.
pub proof fn law_drained_block_covers_range(s: Seq<PacketView>, lo: u64, hi: u64)
    requires
        lo <= hi,
        all_seqs_present(s, lo, hi),
    ensures
        drained_block(s, lo, hi).len() == hi - lo,
        seqs_of(drained_block(s, lo, hi)).no_duplicates(),
        forall|k: int| 0 <= k < drained_block(s, lo, hi).len()
            ==> lo <= #[trigger] drained_block(s, lo, hi)[k].seq < hi,
        forall|q: u64| lo <= q < hi ==> #[trigger] seqs_of(drained_block(s, lo, hi)).contains(q),
{
    lemma_drained_block_seqs(s, lo, hi);
    let d = seqs_of(drained_block(s, lo, hi));
    assert forall|q: u64| lo <= q < hi implies #[trigger] d.contains(q) by {
        assert(seq_present(s, q));
        lemma_first_with_seq(s, q);
        let i = choose|i: int| 0 <= i < s.len() && #[trigger] s[i].seq == q;
        match first_with_seq(s, q) {
            Some(f) => {
                assert(drained_at(s, f, lo, hi));
            },
            None => {
                assert(s[i].seq != q);
            },
        }
    }
    let di = d.map_values(|q: u64| q as int);
    assert(di.no_duplicates()) by {
        assert forall|a: int, b: int| 0 <= a < di.len() && 0 <= b < di.len() && a != b implies di[a] != di[b] by {
            assert(d[a] != d[b]);
        }
    }
    di.unique_seq_to_set();
    assert(di.to_set() =~= vstd::set_lib::set_int_range(lo as int, hi as int)) by {
        assert forall|x: int| di.to_set().contains(x) implies lo <= x < hi by {
            let k = choose|k: int| 0 <= k < di.len() && di[k] == x;
            assert(lo <= drained_block(s, lo, hi)[k].seq < hi);
        }
        assert forall|x: int| lo <= x < hi implies di.to_set().contains(x) by {
            let q = x as u64;
            assert(d.contains(q));
            let k = choose|k: int| 0 <= k < d.len() && d[k] == q;
            assert(di[k] == x);
        }
    }
    vstd::set_lib::lemma_int_range(lo as int, hi as int);
}

} // verus!
