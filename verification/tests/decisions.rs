use sc_transport::fec::FecEncoder;
use sc_transport::packet::{Packet, PacketId, PacketMeta};
use sc_transport::proto::{ChecksumAlg, CompressionType, TransferManifest};
use sc_transport::receiver::{final_verdict, FinalVerdict};
use sc_transport::reorder::ReorderBuffer;
use sc_transport::schedule::{keep_open_groups, order_for_sending, MultiTimescaleClock, TimescaleTier};
use sc_transport::sender::parity_cap_for;
use std::collections::HashSet;

fn pkt(id: u64, seq: u64, payload: Vec<u8>, fec_group: u64) -> Packet {
    let size = payload.len();
    Packet {
        id: PacketId(id),
        seq,
        payload,
        is_parity: false,
        meta: PacketMeta { id, priority: 10, deadline: None, size },
        fec_group,
        reconstructable: false,
        parity_index: 0,
    }
}

fn manifest(id: [u8; 16], checksum: [u8; 32]) -> TransferManifest {
    TransferManifest {
        transfer_id: id,
        filename: "f".into(),
        total_size: 0,
        chunk_size: 1,
        num_chunks: 0,
        checksum_algorithm: ChecksumAlg::Blake3,
        file_checksum: checksum,
        compression: CompressionType::Uncompressed,
        metadata: Default::default(),
        data_shards: 1,
        parity_shards: 0,
    }
}

#[test]
fn final_verdict_checks_id_then_checksum() {
    let m = manifest([1; 16], [7; 32]);
    assert_eq!(final_verdict(&[1; 16], &m, true, &[7; 32]), FinalVerdict::Accepted);
    assert_eq!(final_verdict(&[2; 16], &m, true, &[7; 32]), FinalVerdict::TransferIdMismatch);
    assert_eq!(final_verdict(&[2; 16], &m, true, &[8; 32]), FinalVerdict::TransferIdMismatch);
    assert_eq!(final_verdict(&[1; 16], &m, true, &[8; 32]), FinalVerdict::ChecksumMismatch);
    assert_eq!(final_verdict(&[1; 16], &m, false, &[8; 32]), FinalVerdict::Accepted);
    assert!(FinalVerdict::Accepted.success());
    assert!(!FinalVerdict::ChecksumMismatch.success());
}

#[test]
fn parity_cap_is_zero_when_first_group_is_partial() {
    let mut skip = HashSet::new();
    assert_eq!(parity_cap_for(4, 2, &skip), 2);
    skip.insert(7);
    assert_eq!(parity_cap_for(4, 2, &skip), 2);
    skip.insert(3);
    assert_eq!(parity_cap_for(4, 2, &skip), 0);
    assert_eq!(parity_cap_for(3, 2, &skip), 2);
}

#[test]
fn completed_groups_are_dropped_and_counted() {
    let packets = vec![pkt(0, 0, vec![0], 0), pkt(1, 1, vec![1], 1), pkt(2, 2, vec![2], 0), pkt(3, 3, vec![3], 2)];
    let completed: HashSet<u64> = [0u64].into_iter().collect();
    let (kept, dropped) = keep_open_groups(&packets, &completed);
    assert_eq!(dropped, 2);
    let seqs: Vec<u64> = kept.iter().map(|p| p.seq).collect();
    assert_eq!(seqs, vec![1, 3]);
}

#[test]
fn duplicate_id_is_dropped_after_other_ingests() {
    let mut rb = ReorderBuffer::new();
    rb.ingest(pkt(5, 0, vec![1], 0));
    rb.ingest(pkt(6, 1, vec![2], 0));
    rb.ingest(pkt(7, 3, vec![3], 0));
    rb.ingest(pkt(5, 0, vec![9], 0));
    let out = rb.reassemble_ready();
    assert_eq!(out.len(), 2);
    assert_eq!(out[0].payload, vec![1]);
    assert!(rb.reassemble_ready().is_empty());
}

#[test]
fn releases_number_packets_as_one_run() {
    let mut rb = ReorderBuffer::new();
    let mut all = Vec::new();
    rb.ingest(pkt(0, 0, vec![0], 0));
    all.extend(rb.reassemble_ready());
    rb.ingest(pkt(2, 2, vec![2], 0));
    all.extend(rb.reassemble_ready());
    rb.ingest(pkt(1, 1, vec![1], 0));
    all.extend(rb.reassemble_ready());
    let seqs: Vec<u64> = all.iter().map(|p| p.seq).collect();
    assert_eq!(seqs, vec![0, 1, 2]);
}

#[test]
fn slow_tier_fires_once_per_period() {
    let mut c = MultiTimescaleClock::starting_at(0);
    assert_eq!(c.tick(1_500_000_000), TimescaleTier::Slow);
    assert_eq!(c.tick(1_700_000_000), TimescaleTier::Medium);
    assert_ne!(c.tick(2_900_000_000), TimescaleTier::Slow);
    assert_eq!(c.tick(3_000_000_000), TimescaleTier::Slow);
}

#[test]
fn encode_block_ignores_input_order() {
    let enc = FecEncoder { data_shards: 3, parity_shards: 2 };
    let a = pkt(0, 0, vec![1, 2, 3], 0);
    let b = pkt(1, 1, vec![4, 5], 0);
    let c = pkt(2, 2, vec![6], 0);
    let one = enc.encode_block(&[a.clone(), b.clone(), c.clone()]);
    let two = enc.encode_block(&[c, a, b]);
    assert_eq!(one.len(), 5);
    assert_eq!(one.len(), two.len());
    for (x, y) in one.iter().zip(two.iter()) {
        assert_eq!(x.seq, y.seq);
        assert_eq!(x.payload, y.payload);
        assert_eq!(x.is_parity, y.is_parity);
        assert_eq!(x.parity_index, y.parity_index);
    }
}

#[test]
fn send_order_is_priority_then_deadline_and_stable() {
    let mut a = pkt(0, 0, vec![0], 0);
    a.meta.priority = 100;
    a.meta.deadline = Some(500);
    let mut b = pkt(1, 1, vec![1], 0);
    b.meta.priority = 240;
    b.meta.deadline = Some(900);
    let mut c = pkt(2, 2, vec![2], 0);
    c.meta.priority = 100;
    c.meta.deadline = Some(300);
    let mut d = pkt(3, 3, vec![3], 0);
    d.meta.priority = 100;
    let mut e = pkt(4, 4, vec![4], 0);
    e.meta.priority = 100;
    e.meta.deadline = Some(1000);
    let out = order_for_sending(vec![a, b, c, d, e], 1000);
    let seqs: Vec<u64> = out.iter().map(|p| p.seq).collect();
    assert_eq!(seqs, vec![1, 2, 0, 3, 4]);
}
