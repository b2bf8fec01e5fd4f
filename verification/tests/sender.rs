use sc_transport::datagram::{choose_datagram_encoding, should_drop_for_rate_limit, DatagramEncoding, LossWindow};
use sc_transport::batch::BatchSender;
use sc_transport::proto::CompressionType;
use sc_transport::receiver::persist_framed_chunk;
use sc_transport::proto::{ChecksumAlg, TransferManifest};
use sc_transport::sender::{
    chunk_len, chunk_matches_receiver, derive_transfer_id, frame_chunk, make_data_packet,
    nack_retransmit_picks, num_chunks,
};
use std::collections::HashSet;

#[test]
fn transfer_id_is_blake3_prefix() {
    let checksum = [3u8; 32];
    let id = derive_transfer_id("a.bin", 1234, &checksum);
    let mut h = blake3::Hasher::new();
    h.update(b"a.bin");
    h.update(&1234u64.to_le_bytes());
    h.update(&checksum);
    assert_eq!(&id[..], &h.finalize().as_bytes()[..16]);
    assert_ne!(id, derive_transfer_id("b.bin", 1234, &checksum));
}

#[test]
fn chunk_grid() {
    assert_eq!(num_chunks(0, 4), 0);
    assert_eq!(num_chunks(8, 4), 2);
    assert_eq!(num_chunks(9, 4), 3);
    assert_eq!(chunk_len(0, 9, 4), 4);
    assert_eq!(chunk_len(2, 9, 4), 1);
    assert_eq!(chunk_len(3, 9, 4), 0);
}

#[test]
fn data_packets() {
    let p = make_data_packet(1, vec![1, 2], 2, 4, 100, 5000);
    assert_eq!(p.meta.priority, 240);
    assert_eq!(p.fec_group, 0);
    let q = make_data_packet(9, vec![1], 1, 4, 100, 5000);
    assert_eq!(q.meta.priority, 100);
    assert_eq!(q.fec_group, 2);
    assert_eq!(q.meta.deadline, Some(5000));
    assert_eq!(make_data_packet(9, vec![], 0, 0, 1, 0).fec_group, 9);
}

#[test]
fn delta_skip_compares_hashes() {
    let raw = b"chunk bytes";
    let h = *blake3::hash(raw).as_bytes();
    assert!(chunk_matches_receiver(raw, &h));
    assert!(!chunk_matches_receiver(b"other", &h));
    assert!(!chunk_matches_receiver(b"", &*blake3::hash(b"").as_bytes()));
    assert!(!chunk_matches_receiver(raw, &[0u8; 32]));
}

#[test]
fn nack_picks_first_eight_fresh() {
    let skip: HashSet<u64> = [2].into_iter().collect();
    let mut done: HashSet<u64> = [3].into_iter().collect();
    let missing = [1, 2, 3, 4, 4, 5, 6, 7, 8, 9];
    let picks = nack_retransmit_picks(&missing, &skip, &mut done);
    assert_eq!(picks, vec![1, 4, 5, 6, 7]);
    assert!(done.contains(&7) && done.contains(&3) && !done.contains(&8));
    assert!(nack_retransmit_picks(&missing, &skip, &mut done).is_empty());
}

#[test]
fn framed_chunk_is_persisted_as_raw_bytes() {
    let raw = vec![5u8; 3000];
    let mode = CompressionType::Zstd { level: 3 };
    let frame = frame_chunk(2, &raw, &mode, 4096, 4).expect("frame");
    assert!(frame.len() < raw.len());
    let manifest = TransferManifest {
        transfer_id: [0; 16],
        filename: "f".into(),
        total_size: 12288,
        chunk_size: 4096,
        num_chunks: 3,
        checksum_algorithm: ChecksumAlg::Blake3,
        file_checksum: [0; 32],
        compression: mode,
        metadata: Default::default(),
        data_shards: 4,
        parity_shards: 1,
    };
    let mut received = HashSet::new();
    let w = persist_framed_chunk(&frame, &manifest, &mut received, true).unwrap().unwrap();
    assert_eq!(w.offset, 8192);
    assert_eq!(w.bytes, raw);
}

#[test]
fn loss_window_and_rate_limit() {
    let mut w = LossWindow::new(3);
    for d in [true, false, true, true] {
        w.record(d);
    }
    assert_eq!(w.len(), 3);
    assert_eq!(w.delivered(), 2);
    assert!(should_drop_for_rate_limit(true, 199));
    assert!(!should_drop_for_rate_limit(false, 199));
    assert!(!should_drop_for_rate_limit(true, 100));
    assert_eq!(choose_datagram_encoding(80, 40, 100), DatagramEncoding::Original);
    assert_eq!(choose_datagram_encoding(180, 40, 100), DatagramEncoding::Truncated);
    assert_eq!(choose_datagram_encoding(180, 140, 100), DatagramEncoding::TooLarge);
}

#[test]
fn batch_ranges_cover_all_events() {
    let b = BatchSender::default();
    assert_eq!(b.max_parallel_streams, 8);
    let r = b.stream_ranges(200);
    assert_eq!(r, vec![(0, 64), (64, 128), (128, 192), (192, 200)]);
    let one = BatchSender { max_parallel_streams: 0, chunk_size: 0 };
    assert_eq!(one.parallel_streams(), 1);
    assert_eq!(one.stream_ranges(2), vec![(0, 1), (1, 2)]);
    assert!(b.stream_ranges(0).is_empty());
}
