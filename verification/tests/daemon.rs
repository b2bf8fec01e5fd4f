use sc_transport::daemon::{
    clamp_priority, local_source_path, parse_compression, resolve_destination, resolve_output_dir,
    status_after_restart, DestinationError, QueueEntry, TransferQueue, TransferStatus,
};
use sc_transport::proto::CompressionType;

#[test]
fn queue_honors_priority_order() {
    let mut q = TransferQueue::new();
    let id1 = 0x1111u128;
    let id2 = 0x2222u128;
    q.push(QueueEntry { priority: 10, seq: 2, transfer_id: id1 });
    q.push(QueueEntry { priority: 1, seq: 1, transfer_id: id2 });
    let first = q.pop().expect("first");
    assert_eq!(first.transfer_id, id2);
}

#[test]
fn queue_prefers_later_sequence_among_equal_priorities() {
    let mut q = TransferQueue::new();
    let a = q.enqueue(1, 5);
    let b = q.enqueue(2, 5);
    assert_eq!((a, b), (1, 2));
    q.enqueue(3, 0);
    assert_eq!(q.len(), 3);
    assert_eq!(q.pop().unwrap().transfer_id, 3);
    assert_eq!(q.pop().unwrap().transfer_id, 2);
    assert_eq!(q.pop().unwrap().transfer_id, 1);
    assert!(q.pop().is_none());
    q.enqueue(4, 42);
    q.clear();
    assert!(q.pop().is_none());
    assert_eq!(q.next_sequence(), 5);
}

#[test]
fn restart_recovers_active_to_queued() {
    assert_eq!(status_after_restart(TransferStatus::Active), TransferStatus::Queued);
    assert_eq!(status_after_restart(TransferStatus::Cancelled), TransferStatus::Cancelled);
    assert_eq!(status_after_restart(TransferStatus::Completed), TransferStatus::Completed);
}

#[test]
fn priorities_are_clamped() {
    assert_eq!(clamp_priority(0), 1);
    assert_eq!(clamp_priority(7), 7);
    assert_eq!(clamp_priority(200), 10);
}

#[test]
fn compression_setting() {
    assert_eq!(parse_compression("zstd"), CompressionType::Zstd { level: 3 });
    assert_eq!(parse_compression("ZsTd"), CompressionType::Zstd { level: 3 });
    assert_eq!(parse_compression("auto"), CompressionType::Uncompressed);
    assert_eq!(parse_compression("zstd "), CompressionType::Uncompressed);
}

#[test]
fn source_and_destination_paths() {
    assert_eq!(local_source_path("file:///tmp/a.bin"), "/tmp/a.bin");
    assert_eq!(local_source_path("file://file://x"), "x");
    assert_eq!(local_source_path("/data/b.bin"), "/data/b.bin");
    assert_eq!(resolve_output_dir("/data/incoming", "/tmp"), "/tmp");
    assert_eq!(resolve_output_dir("/data/incoming", "sub"), "/data/incoming/sub");
    assert_eq!(resolve_output_dir("/data/incoming/", "sub"), "/data/incoming/sub");
    assert_eq!(resolve_output_dir("", "sub"), "sub");
    assert_eq!(resolve_destination("/base", "out/", Some("f.bin"), false), Ok("/base/out/f.bin".to_string()));
    assert_eq!(resolve_destination("/base", "/x/y.bin", Some("f.bin"), false), Ok("/x/y.bin".to_string()));
    assert_eq!(resolve_destination("/base", "/x", Some("f.bin"), true), Ok("/x/f.bin".to_string()));
    assert_eq!(resolve_destination("/base", "dir/", None, false), Err(DestinationError::SourceHasNoFileName));
}
