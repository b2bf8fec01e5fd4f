use sc_transport::descriptor::{decode_chunk_descriptor, encode_chunk_descriptor};
use sc_transport::event_frame::{
    frame_event_batch, frame_event_payload, is_batch_body, parse_framed_event_payload,
    split_framed_events,
};
use sc_transport::proto::ChunkDescriptor;
use sc_transport::protocol::{
    assemble_wire_frame, check_frame_len, chunk_body_range, control_frame_len, frame_control_message,
    framed_descriptor_len, max_chunk_body, WireError, MAX_CONTROL_FRAME_BYTES,
};

fn descriptor() -> ChunkDescriptor {
    ChunkDescriptor {
        index: 300,
        offset: 1 << 40,
        compressed_size: 17,
        uncompressed_size: 70000,
        checksum: [9; 32],
        was_compressed: true,
        is_parity: false,
        parity_index: 3,
        fec_group: 75,
    }
}

#[test]
fn descriptor_bytes_are_bincode_varints() {
    let bytes = encode_chunk_descriptor(&descriptor());
    let mut expected = vec![251, 44, 1];
    expected.extend_from_slice(&[253, 0, 0, 0, 0, 0, 1, 0, 0]);
    expected.push(17);
    expected.extend_from_slice(&[252, 0x70, 0x11, 0x01, 0x00]);
    expected.extend_from_slice(&[9; 32]);
    expected.extend_from_slice(&[1, 0, 3, 75]);
    assert_eq!(bytes, expected);
}

#[test]
fn descriptor_round_trips_through_bincode() {
    let d = descriptor();
    let bytes = encode_chunk_descriptor(&d);
    assert!(bytes.len() >= 40 && bytes.len() <= 80);
    let back = decode_chunk_descriptor(&bytes).expect("decodes");
    assert_eq!(back.index, 300);
    assert_eq!(back.offset, 1 << 40);
    assert_eq!(back.uncompressed_size, 70000);
    assert_eq!(back.checksum, [9; 32]);
    assert!(back.was_compressed);
    assert_eq!(back.parity_index, 3);
    assert_eq!(back.fec_group, 75);
    assert!(decode_chunk_descriptor(&bytes[..10]).is_none());
}

/// A telemetry event in its MessagePack form: run `run_id`, type `event_type`.
fn event_bytes(run_id: &str, event_type: &str, timestamp_ms: u64) -> Vec<u8> {
    let mut map = serde_json::Map::new();
    map.insert("run_id".to_string(), serde_json::Value::from(run_id));
    map.insert("task_id".to_string(), serde_json::Value::Null);
    map.insert("event_type".to_string(), serde_json::Value::from(event_type));
    map.insert("timestamp_ms".to_string(), serde_json::Value::from(timestamp_ms));
    map.insert("payload".to_string(), serde_json::Value::Object(serde_json::Map::new()));
    rmp_serde::to_vec_named(&serde_json::Value::Object(map)).expect("event encodes")
}

#[test]
fn framed_event_roundtrip() {
    let e = event_bytes("run-a", "run_started", 1);
    let framed = frame_event_payload(&e).expect("frame must succeed");
    let decoded = parse_framed_event_payload(&framed).expect("decode must succeed");
    let back: serde_json::Value = rmp_serde::from_slice(&decoded).expect("event decodes");
    assert_eq!(back["run_id"], "run-a");
    assert_eq!(back["event_type"], "run_started");
}

#[test]
fn event_batch_round_trips() {
    let events = vec![b"one".to_vec(), b"two!".to_vec(), Vec::new()];
    let framed = frame_event_batch(&events).expect("batch");
    let body = &framed[4..];
    assert!(is_batch_body(body));
    let split = split_framed_events(&framed);
    assert!(split.fault.is_none());
    assert_eq!(split.entries, events);
    let single = frame_event_payload(b"solo").unwrap();
    let split = split_framed_events(&single);
    assert_eq!(split.entries, vec![b"solo".to_vec()]);
}

#[test]
fn control_frames() {
    assert!(check_frame_len(0, 10).is_err());
    assert!(check_frame_len(10, 10).is_ok());
    assert!(check_frame_len(11, 10).is_err());
    let f = frame_control_message(b"abc").unwrap();
    assert_eq!(f, vec![0, 0, 0, 3, b'a', b'b', b'c']);
    assert_eq!(control_frame_len([0, 0, 0, 3]), Ok(3));
    assert!(control_frame_len([0, 0, 0, 0]).is_err());
    assert!(frame_control_message(&[]).is_err());
    assert_eq!(MAX_CONTROL_FRAME_BYTES, 64 * 1024 * 1024);
}

#[test]
fn chunk_frame_layout() {
    let frame = assemble_wire_frame(&[1, 2], &[3, 4, 5]);
    assert_eq!(frame, vec![0, 0, 0, 2, 1, 2, 3, 4, 5]);
    assert_eq!(framed_descriptor_len(&frame), Ok(2));
    assert_eq!(framed_descriptor_len(&frame[..3]), Err(WireError::TruncatedStream));
    assert_eq!(chunk_body_range(frame.len(), 2, 3), Ok((6, 9)));
    assert_eq!(chunk_body_range(frame.len(), 2, 4), Err(WireError::TruncatedBody));
    assert_eq!(max_chunk_body(1024), 65536);
    assert_eq!(max_chunk_body(1 << 20), 4 << 20);
}
