use reed_solomon_erasure::galois_8::ReedSolomon;
use sc_transport::descriptor::{decode_chunk_descriptor, encode_chunk_descriptor};
use sc_transport::fec::FecEncoder;
use sc_transport::packet::{Packet, PacketId, PacketMeta};
use sc_transport::proto::ChunkDescriptor;
use sc_transport::protocol::assemble_wire_frame;
use sc_transport::sender::chunk_matches_receiver;
use std::collections::HashSet;

const CHUNK_SIZE: usize = 64 * 1024;

fn framed_chunk_sender_style(index: u64, body: &[u8], chunk_size: usize, data_shards: usize) -> Vec<u8> {
    let off = index as usize * chunk_size;
    let desc = ChunkDescriptor {
        index,
        offset: off as u64,
        compressed_size: body.len() as u32,
        uncompressed_size: body.len() as u32,
        checksum: *blake3::hash(body).as_bytes(),
        was_compressed: false,
        is_parity: false,
        parity_index: 0,
        fec_group: index / data_shards.max(1) as u64,
    };
    let desc_bytes = encode_chunk_descriptor(&desc);
    assemble_wire_frame(&desc_bytes, body)
}

fn framed_chunk(index: u64, body: &[u8]) -> Vec<u8> {
    framed_chunk_sender_style(index, body, 64, 4)
}

fn packet(i: u64, payload: Vec<u8>) -> Packet {
    Packet {
        id: PacketId(i),
        seq: i,
        payload,
        is_parity: false,
        meta: PacketMeta {
            id: i,
            priority: 1,
            deadline: None,
            size: 0,
        },
        fec_group: 0,
        reconstructable: false,
        parity_index: 0,
    }
}

fn framed_data_packets(data_shards: usize) -> Vec<Packet> {
    (0..data_shards)
        .map(|i| {
            let i = i as u64;
            let body: Vec<u8> = (0..CHUNK_SIZE).map(|b| ((i as usize + b) % 251) as u8).collect();
            packet(i, framed_chunk_sender_style(i, &body, CHUNK_SIZE, data_shards))
        })
        .collect()
}

fn parity_body(pkt: &Packet) -> Vec<u8> {
    let desc_len = u32::from_be_bytes(pkt.payload[0..4].try_into().unwrap()) as usize;
    pkt.payload[4 + desc_len..].to_vec()
}

fn reconstruct(group: &[Option<Vec<u8>>], data_shards: usize, parity_shards: usize) -> Vec<Option<Vec<u8>>> {
    let rs = ReedSolomon::new(data_shards, parity_shards).expect("rs");
    let max_len = group.iter().flatten().map(|v| v.len()).max().unwrap_or(0);
    let mut shards: Vec<Option<Vec<u8>>> = group
        .iter()
        .map(|opt| {
            opt.as_ref().map(|v| {
                let mut x = v.clone();
                x.resize(max_len, 0);
                x
            })
        })
        .collect();
    rs.reconstruct_data(&mut shards).expect("reconstruct_data");
    shards
}

#[test]
fn rs_recovers_missing_framed_data_shard_like_receiver() {
    let data_shards = 2usize;
    let parity_shards = 1usize;
    let enc = FecEncoder {
        data_shards,
        parity_shards,
    };
    let p0 = packet(0, framed_chunk(0, b"chunk-zero-bytes!!"));
    let p1 = packet(1, framed_chunk(1, b"chunk-one-bytes!!!"));
    let encoded = enc.encode_block(&[p0.clone(), p1.clone()]);
    assert_eq!(encoded.len(), 3);
    assert!(encoded[2].is_parity);

    let parity_pkt = &encoded[2];
    let parity_desc_len = u32::from_be_bytes(parity_pkt.payload[0..4].try_into().unwrap()) as usize;
    let parity_desc_bytes = &parity_pkt.payload[4..4 + parity_desc_len];
    let parity_desc = decode_chunk_descriptor(parity_desc_bytes).expect("parity desc");
    assert!(parity_desc.is_parity);

    let group: Vec<Option<Vec<u8>>> = vec![Some(p0.payload.clone()), None, Some(parity_body(parity_pkt))];
    let shards = reconstruct(&group, data_shards, parity_shards);
    let recovered = shards[1].clone().expect("shard 1");
    assert_eq!(recovered, p1.payload);
}

#[test]
fn rs_recovers_with_four_data_two_parity() {
    let data_shards = 4usize;
    let parity_shards = 2usize;
    let enc = FecEncoder {
        data_shards,
        parity_shards,
    };
    let packets = framed_data_packets(data_shards);
    let encoded = enc.encode_block(&packets);
    assert_eq!(encoded.len(), data_shards + parity_shards);

    let mut group: Vec<Option<Vec<u8>>> = (0..data_shards + parity_shards).map(|_| None).collect();
    group[0] = Some(packets[0].payload.clone());
    group[2] = Some(packets[2].payload.clone());
    group[3] = Some(packets[3].payload.clone());
    for (pi, pkt) in encoded[data_shards..].iter().enumerate() {
        group[data_shards + pi] = Some(parity_body(pkt));
    }
    let shards = reconstruct(&group, data_shards, parity_shards);
    assert_eq!(shards[1].as_ref().unwrap(), &packets[1].payload);
}

#[test]
fn rs_recovers_two_data_two_parity_missing_shard_one() {
    let data_shards = 2usize;
    let parity_shards = 2usize;
    let enc = FecEncoder {
        data_shards,
        parity_shards,
    };
    let packets = framed_data_packets(data_shards);
    let encoded = enc.encode_block(&[packets[1].clone(), packets[0].clone()]);
    let mut group: Vec<Option<Vec<u8>>> = (0..data_shards + parity_shards).map(|_| None).collect();
    for (pi, pkt) in encoded[data_shards..].iter().enumerate() {
        group[data_shards + pi] = Some(parity_body(pkt));
    }
    group[0] = Some(packets[0].payload.clone());
    let shards = reconstruct(&group, data_shards, parity_shards);
    assert_eq!(shards[1].as_ref().unwrap(), &packets[1].payload);
}

#[test]
fn rs_recovers_out_of_order_four_data_two_parity() {
    let data_shards = 4usize;
    let parity_shards = 2usize;
    let enc = FecEncoder {
        data_shards,
        parity_shards,
    };
    let packets = framed_data_packets(data_shards);
    let encoded = enc.encode_block(&packets);
    let mut group: Vec<Option<Vec<u8>>> = (0..data_shards + parity_shards).map(|_| None).collect();
    group[0] = Some(packets[0].payload.clone());
    group[2] = Some(packets[2].payload.clone());
    group[3] = Some(packets[3].payload.clone());
    for (pi, pkt) in encoded[data_shards..].iter().enumerate() {
        group[data_shards + pi] = Some(parity_body(pkt));
    }
    let shards = reconstruct(&group, data_shards, parity_shards);
    assert_eq!(shards[1].as_ref().unwrap(), &packets[1].payload);
}

#[test]
fn fec_rs_single_erasure_roundtrip() {
    let rs = ReedSolomon::new(2, 1).expect("rs");
    let mut rows = vec![vec![0xAA, 0x11], vec![0x55, 0x22], vec![0u8; 2]];
    rs.encode(&mut rows).expect("encode");
    let mut opt: Vec<Option<Vec<u8>>> = rows.into_iter().map(Some).collect();
    opt[1] = None;
    rs.reconstruct(&mut opt).expect("reconstruct");
    assert_eq!(opt[1].as_deref(), Some(&[0x55u8, 0x22][..]));
}

#[test]
fn fec_recovery_with_one_missing_data_shard() {
    let rs = ReedSolomon::new(4, 2).unwrap();
    let chunk = vec![0xABu8; 256];
    let mut shards: Vec<Vec<u8>> = (0..6).map(|_| chunk.clone()).collect();
    rs.encode(&mut shards).unwrap();
    let mut shards: Vec<Option<Vec<u8>>> = shards.into_iter().map(Some).collect();
    shards[2] = None;
    let received = shards.iter().filter(|s| s.is_some()).count();
    assert!(received >= 4);
    rs.reconstruct_data(&mut shards).expect("reconstruct_data");
    assert!(shards[2].is_some());
}

#[test]
fn delta_skips_matching_chunk_and_keeps_changed() {
    let chunk_size = 64usize;
    let data = vec![0xABu8; chunk_size * 3];
    let mut receiver_hashes: Vec<[u8; 32]> = vec![[0u8; 32]; 3];
    receiver_hashes[1] = *blake3::hash(&data[chunk_size..chunk_size * 2]).as_bytes();
    receiver_hashes[2] = [0xFF; 32];

    let mut skip: HashSet<u64> = HashSet::new();
    for idx in 0u64..3 {
        if let Some(rh) = receiver_hashes.get(idx as usize) {
            let off = idx as usize * chunk_size;
            let end = off + chunk_size;
            if chunk_matches_receiver(&data[off..end], rh) {
                skip.insert(idx);
            }
        }
    }
    assert!(skip.contains(&1));
    assert!(!skip.contains(&0));
    assert!(!skip.contains(&2));
}
