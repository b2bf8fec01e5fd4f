use sc_transport::fec::FecEncoder;
use sc_transport::packet::{Packet, PacketId, PacketMeta};
use sc_transport::proto::{ChecksumAlg, CompressionType, TransferManifest};
use sc_transport::protocol::WireError;
use sc_transport::receiver::{
    decode_delay_ms, fec_enabled_for, fec_missing_data_slots, fec_recovery_ready, feedback_due,
    feedback_every, hex_transfer_id, ingest_wire_frame, max_streams, missing_chunk_indices,
    parse_framed_header, peek_framed_chunk_index, persist_framed_chunk, resume_state_due,
    try_fec_group_recover, IngestError,
};
use sc_transport::sender::frame_chunk;
use std::collections::{HashMap, HashSet};

fn manifest(num_chunks: u64, data_shards: usize, parity_shards: usize) -> TransferManifest {
    TransferManifest {
        transfer_id: [0; 16],
        filename: "t".into(),
        total_size: 0,
        chunk_size: 1,
        num_chunks,
        checksum_algorithm: ChecksumAlg::Blake3,
        file_checksum: [0; 32],
        compression: CompressionType::Uncompressed,
        metadata: Default::default(),
        data_shards,
        parity_shards,
    }
}

#[test]
fn recovery_not_ready_without_enough_total_shards() {
    let group = vec![Some(vec![1]), None, None, None, Some(vec![2]), None];
    let manifest = manifest(4, 4, 2);
    assert!(!fec_recovery_ready(&group, &manifest));
}

#[test]
fn recovery_ready_with_one_data_and_one_parity() {
    let group = vec![Some(vec![1]), None, Some(vec![2]), None];
    let manifest = manifest(2, 2, 2);
    assert!(fec_recovery_ready(&group, &manifest));
}

#[test]
fn recovery_not_ready_with_parity_only() {
    let group = vec![None, None, Some(vec![1]), Some(vec![2])];
    let manifest = manifest(2, 2, 2);
    assert!(!fec_recovery_ready(&group, &manifest));
}

#[test]
fn recovery_ready_when_three_data_and_two_parity() {
    let group = vec![
        Some(vec![1]),
        None,
        Some(vec![2]),
        Some(vec![3]),
        Some(vec![4]),
        Some(vec![5]),
    ];
    let manifest = manifest(4, 4, 2);
    let missing = fec_missing_data_slots(&group, &manifest, 0, &HashSet::new());
    assert_eq!(missing, vec![1]);
    assert!(fec_recovery_ready(&group, &manifest));
}

#[test]
fn missing_slots_skip_received_chunks() {
    let group = vec![None, None, None, Some(vec![1])];
    let manifest = manifest(8, 2, 2);
    let received: HashSet<u64> = [4].into_iter().collect();
    assert_eq!(fec_missing_data_slots(&group, &manifest, 2, &received), vec![1]);
    assert_eq!(fec_missing_data_slots(&group, &manifest, 2, &HashSet::new()), vec![0, 1]);
}

#[test]
fn missing_chunk_list_is_capped_and_sorted() {
    let num_chunks = 200u64;
    let received: HashSet<u64> = (0..num_chunks).filter(|i| i % 2 == 0).collect();
    let missing = missing_chunk_indices(num_chunks, &received);
    assert!(missing.len() <= 64);
    assert!(missing.windows(2).all(|w| w[0] < w[1]), "not sorted");
    assert_eq!(missing[0], 1, "smallest missing chunk must come first");
}

#[test]
fn missing_chunk_list_exact_values() {
    let received: HashSet<u64> = [0, 2, 3].into_iter().collect();
    assert_eq!(missing_chunk_indices(6, &received), vec![1, 4, 5]);
    let none: HashSet<u64> = HashSet::new();
    let all = missing_chunk_indices(100, &none);
    assert_eq!(all.len(), 64);
    assert_eq!(all[63], 63);
}

#[test]
fn hex_transfer_id_is_lower_case_hex() {
    let mut id = [0u8; 16];
    id[0] = 0xab;
    id[1] = 0x01;
    id[15] = 0xff;
    assert_eq!(hex_transfer_id(id), "ab01000000000000000000000000" .to_string() + "00ff");
}

#[test]
fn receiver_counters() {
    assert_eq!(max_streams(10, 4, 2), 10 + 3 * 2 + 256);
    assert_eq!(max_streams(0, 0, 1), 256);
    assert_eq!(max_streams(usize::MAX, 1, 2), usize::MAX);
    assert!(resume_state_due(5, 100));
    assert!(resume_state_due(64, 100));
    assert!(!resume_state_due(65, 100));
    assert!(resume_state_due(65, 65));
    assert_eq!(feedback_every(None), 8);
    assert_eq!(feedback_every(Some(0)), 1);
    assert_eq!(feedback_every(Some(5)), 5);
    assert!(feedback_due(16, 8));
    assert!(!feedback_due(0, 8));
    assert!(!feedback_due(9, 8));
    assert_eq!(decode_delay_ms(4 * 1024 * 1024), 20);
    assert_eq!(decode_delay_ms(1024 * 1024), 8);
}

#[test]
fn fec_dimensions_are_checked() {
    assert_eq!(fec_enabled_for(&manifest(1, 4, 2)), Ok(true));
    assert_eq!(fec_enabled_for(&manifest(1, 4, 0)), Ok(false));
    assert_eq!(fec_enabled_for(&manifest(1, 0, 2)), Ok(false));
    assert!(fec_enabled_for(&manifest(1, 200, 100)).is_err());
}

#[test]
fn header_errors_are_reported() {
    assert_eq!(peek_framed_chunk_index(&[0, 0]), Err(IngestError::Wire(WireError::TruncatedStream)));
    match parse_framed_header(&[0, 0, 0, 0]) {
        Err(IngestError::Wire(WireError::DescriptorLength(e))) => assert_eq!(e.len, 0),
        _ => panic!("expected a descriptor length error"),
    }
    assert_eq!(
        parse_framed_header(&[0, 0, 0, 9, 1, 2]).err(),
        Some(IngestError::Wire(WireError::TruncatedDescriptor))
    );
    assert_eq!(
        parse_framed_header(&[0, 0, 0, 1, 0xff]).err(),
        Some(IngestError::UndecodableDescriptor)
    );
}

fn framed(idx: u64, raw: &[u8], chunk_size: usize, data_shards: usize) -> Vec<u8> {
    frame_chunk(idx, raw, &CompressionType::Uncompressed, chunk_size, data_shards).expect("frame")
}

#[test]
fn persist_writes_new_chunk_once() {
    let m = manifest(4, 2, 1);
    let wire = framed(3, b"abcd", 4, 2);
    let mut received = HashSet::new();
    let w = persist_framed_chunk(&wire, &m, &mut received, true).expect("ok").expect("write");
    assert_eq!(w.offset, 12);
    assert_eq!(w.bytes, b"abcd".to_vec());
    assert!(received.contains(&3));
    assert!(persist_framed_chunk(&wire, &m, &mut received, true).expect("ok").is_none());
    assert_eq!(peek_framed_chunk_index(&wire), Ok(3));
}

#[test]
fn persist_detects_corruption_and_truncation() {
    let m = manifest(4, 2, 1);
    let mut wire = framed(1, b"hello", 5, 2);
    let last = wire.len() - 1;
    wire[last] ^= 0x01;
    let mut received = HashSet::new();
    assert_eq!(
        persist_framed_chunk(&wire, &m, &mut received, true).err(),
        Some(IngestError::ChunkChecksumMismatch { index: 1 })
    );
    assert!(received.is_empty());
    assert!(persist_framed_chunk(&wire, &m, &mut received, false).expect("ok").is_some());
    let good = framed(2, b"hello", 5, 2);
    let cut = &good[..good.len() - 1];
    let mut received = HashSet::new();
    assert_eq!(
        persist_framed_chunk(cut, &m, &mut received, true).err(),
        Some(IngestError::Wire(WireError::TruncatedBody))
    );
}

fn data_packet(idx: u64, payload: Vec<u8>, data_shards: u64) -> Packet {
    let size = payload.len();
    Packet {
        id: PacketId(idx),
        seq: idx,
        payload,
        is_parity: false,
        meta: PacketMeta {
            id: idx,
            priority: 1,
            deadline: None,
            size,
        },
        fec_group: idx / data_shards,
        reconstructable: false,
        parity_index: 0,
    }
}

#[test]
fn lost_data_chunk_is_recovered_from_parity() {
    let chunk_size = 6usize;
    let m = TransferManifest {
        chunk_size: chunk_size as u32,
        ..manifest(4, 2, 1)
    };
    let raws: Vec<&[u8]> = vec![b"alpha!", b"bravo", b"char", b"dl"];
    let frames: Vec<Vec<u8>> = raws
        .iter()
        .enumerate()
        .map(|(i, r)| framed(i as u64, r, chunk_size, 2))
        .collect();
    let enc = FecEncoder {
        data_shards: 2,
        parity_shards: 1,
    };
    let block = enc.encode_block(&[
        data_packet(0, frames[0].clone(), 2),
        data_packet(1, frames[1].clone(), 2),
    ]);
    assert_eq!(block.len(), 3);
    let parity_frame = block[2].payload.clone();

    let mut received = HashSet::new();
    let mut groups: HashMap<u64, Vec<Option<Vec<u8>>>> = HashMap::new();
    let lost = HashSet::new();
    let first = ingest_wire_frame(&frames[0], &m, &mut received, &mut groups, true, true, &lost).expect("chunk 0");
    assert_eq!(first.fec_group, 0);
    assert_eq!(first.writes.len(), 1);
    assert_eq!(first.writes[0].bytes, raws[0].to_vec());
    let second = ingest_wire_frame(&parity_frame, &m, &mut received, &mut groups, true, true, &lost).expect("parity");
    assert_eq!(second.writes.len(), 1);
    assert_eq!(second.writes[0].offset, chunk_size as u64);
    assert_eq!(second.writes[0].bytes, raws[1].to_vec());
    assert!(received.contains(&1));
    assert!(!groups.contains_key(&0));
}

#[test]
fn simulated_loss_and_disabled_fec() {
    let m = manifest(2, 2, 1);
    let wire = framed(1, b"xyz", 3, 2);
    let mut received = HashSet::new();
    let mut groups = HashMap::new();
    let lost: HashSet<u64> = [1].into_iter().collect();
    let out = ingest_wire_frame(&wire, &m, &mut received, &mut groups, true, true, &lost).expect("ok");
    assert!(out.writes.is_empty());
    assert!(received.is_empty());
    let none = HashSet::new();
    let out = ingest_wire_frame(&wire, &m, &mut received, &mut groups, false, true, &none).expect("ok");
    assert_eq!(out.writes.len(), 1);
    assert!(groups.is_empty());
}

#[test]
fn recover_without_group_does_nothing() {
    let m = manifest(2, 2, 1);
    let mut received = HashSet::new();
    let mut groups = HashMap::new();
    let w = try_fec_group_recover(5, &mut groups, &m, &mut received, true).expect("ok");
    assert!(w.is_empty());
}
