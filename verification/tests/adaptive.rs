use sc_transport::fec::{FecDecoder, FecEncoder};
use sc_transport::packet::{Block, Packet, PacketId, PacketMeta};
use sc_transport::reorder::ReorderBuffer;
use sc_transport::schedule::{
    block_context_for_schedule, feedback_parity, fec_for_group, plan_parity, schedule_block,
    straggler_parity, MultiTimescaleClock, TimescaleTier,
};
use sc_transport::packet::TransferMode;
use sc_transport::stash::{drain_fec_block_from_packets, stash_fec_packet};
use std::collections::HashMap;

fn pkt(id: u64, seq: u64, payload: Vec<u8>, priority: u8, fec_group: u64) -> Packet {
    let size = payload.len();
    Packet {
        id: PacketId(id),
        seq,
        payload,
        is_parity: false,
        meta: PacketMeta {
            id,
            priority,
            deadline: None,
            size,
        },
        fec_group,
        reconstructable: false,
        parity_index: 0,
    }
}

#[test]
fn reorder_buffer_deduplicates_and_orders() {
    let mut rb = ReorderBuffer::default();
    rb.ingest(pkt(2, 1, vec![2], 10, 0));
    rb.ingest(pkt(1, 0, vec![1], 10, 0));
    rb.ingest(pkt(1, 0, vec![9], 10, 0));
    let out = rb.reassemble_ready();
    assert_eq!(out.len(), 2);
    assert_eq!(out[0].payload, vec![1]);
}

#[test]
fn reorder_buffer_stops_at_gap_and_resumes() {
    let mut rb = ReorderBuffer::new();
    rb.ingest(pkt(10, 0, vec![0], 1, 0));
    rb.ingest(pkt(12, 2, vec![2], 1, 0));
    let first = rb.reassemble_ready();
    assert_eq!(first.len(), 1);
    assert_eq!(first[0].seq, 0);
    rb.ingest(pkt(11, 1, vec![1], 1, 0));
    let second = rb.reassemble_ready();
    let seqs: Vec<u64> = second.iter().map(|p| p.seq).collect();
    assert_eq!(seqs, vec![1, 2]);
    assert!(rb.reassemble_ready().is_empty());
}

#[test]
fn fec_encode_block_emits_framed_parity() {
    let enc = FecEncoder {
        data_shards: 2,
        parity_shards: 1,
    };
    let p0 = pkt(1, 0, vec![0xAA, 0x11], 200, 7);
    let p1 = pkt(2, 1, vec![0x55, 0x22], 200, 7);
    let encoded = enc.encode_block(&[p0.clone(), p1.clone()]);
    assert_eq!(encoded.len(), 3);
    assert!(encoded[2].is_parity);
    assert!(encoded[2].payload.len() > 2);
    assert_eq!(encoded[2].parity_index, 0);
}

#[test]
fn fec_encode_block_sorts_by_chunk_index() {
    let enc = FecEncoder {
        data_shards: 2,
        parity_shards: 1,
    };
    let p0 = pkt(0, 0, vec![0xAA, 0x11], 1, 0);
    let p1 = pkt(1, 1, vec![0x55, 0x22], 1, 0);
    let forward = enc.encode_block(&[p0.clone(), p1.clone()]);
    let reversed = enc.encode_block(&[p1, p0]);
    assert_eq!(forward.len(), reversed.len());
    for (a, b) in forward.iter().zip(reversed.iter()) {
        assert_eq!(a.payload, b.payload);
        assert_eq!(a.is_parity, b.is_parity);
    }
}

#[test]
fn fec_encode_block_parity_metadata() {
    let enc = FecEncoder {
        data_shards: 2,
        parity_shards: 2,
    };
    let mut a = pkt(5, 10, vec![1, 2, 3], 7, 5);
    a.meta.deadline = Some(900);
    let mut b = pkt(6, 11, vec![4], 9, 5);
    b.meta.deadline = Some(500);
    let out = enc.encode_block(&[a, b]);
    assert_eq!(out.len(), 4);
    assert_eq!(out[0].seq, 10);
    assert_eq!(out[1].seq, 11);
    assert_eq!(out[2].id, PacketId(u64::MAX));
    assert_eq!(out[3].id, PacketId(u64::MAX - 1));
    assert_eq!(out[2].seq, 12);
    assert_eq!(out[3].seq, 13);
    assert_eq!(out[2].meta.priority, 9);
    assert_eq!(out[2].meta.deadline, Some(500));
    assert_eq!(out[3].parity_index, 1);
    assert_eq!(out[2].meta.size, out[2].payload.len());
    assert_eq!(out[2].fec_group, 5);
}

#[test]
fn fec_encode_block_passes_small_or_parityless_input_through() {
    let enc = FecEncoder {
        data_shards: 3,
        parity_shards: 1,
    };
    let short = vec![pkt(0, 0, vec![1], 1, 0), pkt(1, 1, vec![2], 1, 0)];
    let out = enc.encode_block(&short);
    assert_eq!(out.len(), 2);
    let none = FecEncoder {
        data_shards: 2,
        parity_shards: 0,
    };
    assert_eq!(none.encode_block(&short).len(), 2);
    assert!(enc.encode_block(&[]).is_empty());
    let empty_payloads = vec![pkt(0, 1, vec![], 1, 0), pkt(1, 0, vec![], 1, 0)];
    let out = none.encode_block(&empty_payloads);
    assert_eq!(out.len(), 2);
    let two = FecEncoder {
        data_shards: 2,
        parity_shards: 1,
    };
    let sorted = two.encode_block(&empty_payloads);
    assert_eq!(sorted.len(), 2);
    assert_eq!(sorted[0].seq, 0);
}

#[test]
fn fec_encode_block_refused_shape_returns_input() {
    let enc = FecEncoder {
        data_shards: 2,
        parity_shards: 300,
    };
    let data = vec![pkt(0, 1, vec![1], 1, 0), pkt(1, 0, vec![2], 1, 0)];
    let out = enc.encode_block(&data);
    assert_eq!(out.len(), 2);
    assert_eq!(out[0].seq, 1);
}

#[test]
fn fec_stash_ignores_duplicate_seq_until_block_complete() {
    let mut stash: HashMap<u64, Vec<Packet>> = HashMap::new();
    let fec = FecEncoder {
        data_shards: 2,
        parity_shards: 1,
    };
    let mk = |seq: u64| pkt(seq, seq, vec![seq as u8], 1, 0);
    stash_fec_packet(&mut stash, 0, mk(0));
    stash_fec_packet(&mut stash, 0, mk(0));
    let buf = stash.get_mut(&0).unwrap();
    assert_eq!(buf.len(), 1);
    assert!(drain_fec_block_from_packets(buf, 0, &fec).is_none());
    stash_fec_packet(&mut stash, 0, mk(1));
    let buf = stash.get_mut(&0).unwrap();
    let encoded = drain_fec_block_from_packets(buf, 0, &fec).expect("encoded");
    assert_eq!(encoded.len(), 3);
    assert!(encoded[2].is_parity);
}

#[test]
fn fec_stash_waits_for_all_shard_indices() {
    let mut stash: HashMap<u64, Vec<Packet>> = HashMap::new();
    let fec = FecEncoder {
        data_shards: 2,
        parity_shards: 1,
    };
    let mk = |seq: u64| pkt(seq, seq, vec![seq as u8], 1, 0);
    stash_fec_packet(&mut stash, 0, mk(1));
    let buf = stash.get_mut(&0).unwrap();
    assert!(drain_fec_block_from_packets(buf, 0, &fec).is_none());
    stash_fec_packet(&mut stash, 0, mk(0));
    let buf = stash.get_mut(&0).unwrap();
    let encoded = drain_fec_block_from_packets(buf, 0, &fec).expect("encoded");
    assert_eq!(encoded.len(), 3);
    assert!(encoded[2].is_parity);
    assert!(buf.is_empty());
}

#[test]
fn drain_keeps_packets_of_other_groups_in_order() {
    let fec = FecEncoder {
        data_shards: 2,
        parity_shards: 1,
    };
    let mut packets = vec![
        pkt(7, 7, vec![7], 1, 3),
        pkt(3, 3, vec![3], 1, 1),
        pkt(2, 2, vec![2], 1, 1),
        pkt(9, 9, vec![9], 1, 4),
    ];
    let encoded = drain_fec_block_from_packets(&mut packets, 1, &fec).expect("group 1 complete");
    assert_eq!(encoded.len(), 3);
    assert_eq!(encoded[0].seq, 2);
    assert_eq!(encoded[1].seq, 3);
    let left: Vec<u64> = packets.iter().map(|p| p.seq).collect();
    assert_eq!(left, vec![7, 9]);
}

#[test]
fn stash_replaces_packet_with_same_seq() {
    let mut stash: HashMap<u64, Vec<Packet>> = HashMap::new();
    stash_fec_packet(&mut stash, 4, pkt(1, 8, vec![1], 1, 4));
    stash_fec_packet(&mut stash, 4, pkt(2, 9, vec![2], 1, 4));
    stash_fec_packet(&mut stash, 4, pkt(3, 8, vec![3], 1, 4));
    let buf = &stash[&4];
    assert_eq!(buf.len(), 2);
    assert_eq!(buf[0].payload, vec![3]);
    assert_eq!(buf[1].payload, vec![2]);
}

#[test]
fn straggler_block_gets_more_parity() {
    let base = FecEncoder {
        data_shards: 8,
        parity_shards: 2,
    };
    let straggler = straggler_parity(base.data_shards, base.parity_shards);
    assert!(
        straggler > base.parity_shards,
        "straggler parity must exceed the base: {} <= {}",
        straggler,
        base.parity_shards
    );
    assert!(straggler <= base.data_shards / 2);
}

#[test]
fn straggler_parity_is_capped_at_half_the_data() {
    assert_eq!(straggler_parity(4, 2), 2);
    assert_eq!(straggler_parity(2, 3), 3);
    assert_eq!(straggler_parity(10, 1), 2);
}

#[test]
fn fec_for_group_respects_cap_and_stragglers() {
    let base = FecEncoder {
        data_shards: 8,
        parity_shards: 2,
    };
    assert_eq!(fec_for_group(&base, 0, true).parity_shards, 0);
    assert_eq!(fec_for_group(&base, 5, true).parity_shards, 3);
    assert_eq!(fec_for_group(&base, 1, true).parity_shards, 1);
    assert_eq!(fec_for_group(&base, 5, false).parity_shards, 2);
    assert_eq!(fec_for_group(&base, 5, false).data_shards, 8);
}

#[test]
fn plan_and_feedback_parity() {
    assert_eq!(plan_parity(0, 3), 0);
    assert_eq!(plan_parity(4, 1), 2);
    assert_eq!(plan_parity(2, 0), 1);
    assert_eq!(feedback_parity(TransferMode::Aggressive, 2, 4, 4), 3);
    assert_eq!(feedback_parity(TransferMode::Balanced, 2, 1, 4), 1);
    assert_eq!(feedback_parity(TransferMode::Conservative, 1, 4, 4), 1);
    assert_eq!(feedback_parity(TransferMode::Conservative, 3, 4, 4), 2);
    assert_eq!(feedback_parity(TransferMode::Aggressive, 2, 0, 4), 0);
    assert_eq!(feedback_parity(TransferMode::Aggressive, 2, 4, 0), 0);
}

#[test]
fn fec_decoder_counts_present_shards() {
    let dec = FecDecoder {
        data_shards: 2,
        parity_shards: 1,
    };
    let some = Some(pkt(0, 0, vec![1], 1, 0));
    assert!(dec.reconstructable_shards(&[some.clone(), None, some.clone()]));
    assert!(!dec.reconstructable_shards(&[some.clone(), None, None]));
}

#[test]
fn block_state_queries() {
    let b = Block {
        id: 1,
        total_shards: 6,
        required_shards: 4,
        sent_shards: 2,
        received_acks: 3,
        in_flight: 1,
    };
    assert!(!b.is_complete());
    assert!(b.is_almost_complete());
    assert_eq!(b.remaining_data_shards(), 1);
    let done = Block {
        received_acks: 4,
        ..b
    };
    assert!(done.is_complete());
    assert_eq!(done.remaining_data_shards(), 0);
}

#[test]
fn schedule_block_decisions() {
    let complete = Block {
        id: 1,
        total_shards: 6,
        required_shards: 4,
        sent_shards: 4,
        received_acks: 4,
        in_flight: 0,
    };
    assert_eq!(schedule_block(&complete, true, true).additional_shards, 0);
    let young = Block {
        id: 2,
        total_shards: 12,
        required_shards: 10,
        sent_shards: 1,
        received_acks: 0,
        in_flight: 1,
    };
    let d = schedule_block(&young, true, true);
    assert_eq!((d.additional_shards, d.duplicate, d.panic_mode), (3, true, true));
    let d = schedule_block(&young, false, false);
    assert_eq!((d.additional_shards, d.duplicate, d.panic_mode), (3, false, false));
    let near = Block {
        received_acks: 8,
        ..young
    };
    let d = schedule_block(&near, false, true);
    assert_eq!((d.additional_shards, d.duplicate), (2, true));
    let covered = Block {
        sent_shards: 5,
        in_flight: 5,
        ..young
    };
    assert_eq!(schedule_block(&covered, false, false).additional_shards, 1);
    assert_eq!(schedule_block(&covered, false, true).additional_shards, 1);
}

#[test]
fn block_context_reflects_receiver_hints() {
    let b = block_context_for_schedule(9, 4, 2, 3, false, false);
    assert_eq!((b.id, b.total_shards, b.required_shards, b.sent_shards, b.received_acks, b.in_flight), (9, 6, 4, 3, 0, 3));
    let b = block_context_for_schedule(9, 4, 2, 6, true, false);
    assert_eq!((b.sent_shards, b.received_acks, b.in_flight), (4, 4, 2));
    let b = block_context_for_schedule(9, 0, 0, 0, false, true);
    assert_eq!((b.required_shards, b.received_acks, b.in_flight), (1, 0, 1));
}

#[test]
fn multi_timescale_clock_fires_slowest_due_tier() {
    let mut c = MultiTimescaleClock::starting_at(0);
    assert_eq!(c.tick(1_000_000), TimescaleTier::Fast);
    assert_eq!(c.last_fast_ns, 0);
    assert_eq!(c.tick(13_000_000), TimescaleTier::Fast);
    assert_eq!(c.last_fast_ns, 13_000_000);
    assert_eq!(c.tick(121_000_000), TimescaleTier::Medium);
    assert_eq!(c.tick(1_600_000_000), TimescaleTier::Slow);
    assert_eq!(c.last_slow_ns, 1_600_000_000);
}

#[test]
fn packet_criticality_and_deadline() {
    let mut p = pkt(1, 1, vec![1], 10, 0);
    assert!(!p.is_critical());
    assert!(!p.nearing_deadline());
    p.meta.deadline = Some(1_000);
    assert!(p.is_critical());
    assert!(p.nearing_deadline_at(990));
    assert!(!p.nearing_deadline_at(900));
    assert!(p.nearing_deadline());
    p.meta.deadline = None;
    p.meta.priority = 200;
    assert!(p.is_critical());
}

#[test]
fn loss_weighting_is_monotone() {
    let w = |loss: f64| {
        let reliability = (1.0 - loss).powf(1.35).max(0.06);
        let retransmission_load = 1.0 + 1.6 * loss;
        reliability / retransmission_load
    };
    assert!(w(0.02) > w(0.38));
}
