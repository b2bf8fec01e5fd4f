use sc_transport::fec::FecEncoder;
use sc_transport::known_hosts::{cert_fingerprint, check_known_host, HostKeyCheck, KnownHosts};
use sc_transport::packet::{Block, Packet, PacketId, PacketMeta};
use sc_transport::pipeline::FecStage;
use sc_transport::schedule::{blocks_from_packets, idle_completion_estimate_us};
use std::collections::HashSet;

fn data_pkt(seq: u64, payload: Vec<u8>, fec_group: u64) -> Packet {
    let size = payload.len();
    Packet {
        id: PacketId(seq),
        seq,
        payload,
        is_parity: false,
        meta: PacketMeta {
            id: seq,
            priority: 10,
            deadline: None,
            size,
        },
        fec_group,
        reconstructable: false,
        parity_index: 0,
    }
}

#[test]
fn fec_stage_holds_packets_until_block_completes() {
    let fec = FecEncoder {
        data_shards: 2,
        parity_shards: 1,
    };
    let mut stage = FecStage::new(2);
    let first = stage.push(data_pkt(1, vec![7, 8], 0), &fec);
    assert!(first.is_empty());
    let block = stage.push(data_pkt(0, vec![5], 0), &fec);
    assert_eq!(block.len(), 3);
    assert_eq!(block[0].seq, 0);
    assert_eq!(block[1].seq, 1);
    assert!(!block[0].is_parity);
    assert!(!block[1].is_parity);
    assert!(block[2].is_parity);
    assert_eq!(block[2].fec_group, 0);
    let rest = stage.finish(&fec, 4, &HashSet::new());
    assert!(rest.is_empty());
}

#[test]
fn fec_stage_finish_returns_incomplete_groups_in_arrival_order() {
    let fec = FecEncoder {
        data_shards: 3,
        parity_shards: 1,
    };
    let mut stage = FecStage::new(3);
    assert!(stage.push(data_pkt(4, vec![1], 1), &fec).is_empty());
    assert!(stage.push(data_pkt(0, vec![2], 0), &fec).is_empty());
    assert!(stage.push(data_pkt(5, vec![3], 1), &fec).is_empty());
    let rest = stage.finish(&fec, 4, &HashSet::new());
    let seqs: Vec<u64> = rest.iter().map(|p| p.seq).collect();
    assert_eq!(seqs, vec![4, 5, 0]);
}

#[test]
fn fec_stage_replaces_duplicate_sequence_numbers() {
    let fec = FecEncoder {
        data_shards: 3,
        parity_shards: 1,
    };
    let mut stage = FecStage::new(3);
    assert!(stage.push(data_pkt(0, vec![1], 0), &fec).is_empty());
    assert!(stage.push(data_pkt(0, vec![9, 9], 0), &fec).is_empty());
    let rest = stage.finish(&fec, 4, &HashSet::new());
    assert_eq!(rest.len(), 1);
    assert_eq!(rest[0].payload, vec![9, 9]);
}

#[test]
fn blocks_from_packets_counts_each_group() {
    let packets = vec![
        data_pkt(0, vec![1], 0),
        data_pkt(4, vec![1], 1),
        data_pkt(1, vec![1], 0),
        data_pkt(2, vec![1], 0),
    ];
    let mut completed = HashSet::new();
    completed.insert(1u64);
    let blocks = blocks_from_packets(&packets, 2, 1, &completed);
    assert_eq!(blocks.len(), 2);
    assert_eq!(
        blocks[0],
        Block {
            id: 0,
            total_shards: 3,
            required_shards: 2,
            sent_shards: 2,
            received_acks: 0,
            in_flight: 0,
        }
    );
    assert_eq!(blocks[1].id, 1);
    assert_eq!(blocks[1].total_shards, 1);
    assert_eq!(blocks[1].required_shards, 1);
    assert_eq!(blocks[1].sent_shards, 1);
    assert_eq!(blocks[1].received_acks, usize::MAX / 2);
}

#[test]
fn cert_fingerprint_is_hex_blake3() {
    let der = b"certificate bytes";
    let fp = cert_fingerprint(der);
    assert_eq!(fp, blake3::hash(der).to_hex().to_string());
    assert_eq!(fp.len(), 64);
}

#[test]
fn check_known_host_decides_each_case() {
    assert_eq!(check_known_host(None, "ab"), HostKeyCheck::PinNew);
    assert_eq!(check_known_host(Some("ab"), "ab"), HostKeyCheck::Trusted);
    assert_eq!(check_known_host(Some("ab"), "ac"), HostKeyCheck::Mismatch);
}

#[test]
fn known_hosts_parse_keeps_two_word_lines_last_wins() {
    let text = "alpha 11\n  beta\t22  \nnoise\ntoo many words\nalpha 33\r\n";
    let hosts = KnownHosts::parse(text);
    assert_eq!(hosts.len(), 2);
    assert_eq!(hosts.get("alpha").map(|s| s.as_str()), Some("33"));
    assert_eq!(hosts.get("beta").map(|s| s.as_str()), Some("22"));
    assert_eq!(hosts.get("noise"), None);
    assert_eq!(hosts.get("too"), None);
}

#[test]
fn known_hosts_render_sorts_lines() {
    let mut hosts = KnownHosts::new();
    hosts.insert("zeta".to_string(), "f1".to_string());
    hosts.insert("alpha".to_string(), "f2".to_string());
    hosts.insert("zeta".to_string(), "f3".to_string());
    assert_eq!(hosts.render(), "alpha f2\nzeta f3\n");
    assert_eq!(KnownHosts::new().render(), "\n");
}

#[test]
fn known_hosts_render_then_parse_round_trips() {
    let mut hosts = KnownHosts::new();
    hosts.insert("h1:443".to_string(), "aa".to_string());
    hosts.insert("h0:443".to_string(), "bb".to_string());
    let back = KnownHosts::parse(&hosts.render());
    assert_eq!(back.len(), 2);
    assert_eq!(back.get("h1:443").map(|s| s.as_str()), Some("aa"));
    assert_eq!(back.get("h0:443").map(|s| s.as_str()), Some("bb"));
}

#[test]
fn known_hosts_enforce_pins_then_checks() {
    let mut hosts = KnownHosts::new();
    assert_eq!(hosts.enforce("server:4433", b"cert-a"), HostKeyCheck::PinNew);
    assert_eq!(
        hosts.get("server:4433").map(|s| s.clone()),
        Some(blake3::hash(b"cert-a").to_hex().to_string())
    );
    assert_eq!(hosts.enforce("server:4433", b"cert-a"), HostKeyCheck::Trusted);
    assert_eq!(hosts.enforce("server:4433", b"cert-b"), HostKeyCheck::Mismatch);
    assert_eq!(hosts.len(), 1);
}

#[test]
fn idle_completion_estimate_counts_missing_shards() {
    let pending = Block {
        id: 0,
        total_shards: 6,
        required_shards: 4,
        sent_shards: 1,
        received_acks: 0,
        in_flight: 3,
    };
    assert_eq!(idle_completion_estimate_us(&pending), 25_000);
    let done = Block {
        received_acks: 4,
        ..pending
    };
    assert_eq!(idle_completion_estimate_us(&done), 800);
}
