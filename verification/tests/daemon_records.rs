use sc_transport::cli::endpoint_host_port;
use sc_transport::daemon::{
    apply_event, count_with_status, job_kind, list_transfers, record_from_event, staged_progress_bytes,
    status_matches, JobKind, TransferEvent, TransferQueue, TransferRecord, TransferStatus,
    ASSUMED_TRANSFER_BYTES,
};

fn event(ts: u128, id: u128) -> TransferEvent {
    TransferEvent {
        ts_unix_ms: ts,
        transfer_id: id,
        source: None,
        destination: None,
        priority: None,
        status: None,
        bytes_transferred: None,
        bytes_total: None,
        error: None,
    }
}

#[test]
fn replayed_events_overlay_present_fields() {
    let mut first = event(100, 7);
    first.source = Some("/tmp/a".to_string());
    first.priority = Some(3);
    let mut rec = record_from_event(&first);
    assert_eq!(rec.priority, 3);
    assert_eq!(rec.status, TransferStatus::Queued);
    assert_eq!(rec.destination, "");
    assert_eq!(rec.created_at_unix_ms, 100);
    let mut progress = event(200, 7);
    progress.status = Some(TransferStatus::Active);
    progress.bytes_transferred = Some(42);
    progress.error = Some("retrying".to_string());
    apply_event(&mut rec, &progress);
    assert_eq!(rec.status, TransferStatus::Active);
    assert_eq!(rec.bytes_transferred, 42);
    assert_eq!(rec.priority, 3);
    assert_eq!(rec.source, "/tmp/a");
    assert_eq!(rec.error.as_deref(), Some("retrying"));
    assert_eq!(rec.created_at_unix_ms, 100);
    assert_eq!(rec.updated_at_unix_ms, 200);
    apply_event(&mut rec, &event(300, 7));
    assert_eq!(rec.error.as_deref(), Some("retrying"));
    assert_eq!(rec.updated_at_unix_ms, 300);
}

#[test]
fn record_transitions_follow_the_job() {
    let mut rec = TransferRecord::submitted(9, "s".to_string(), "d".to_string(), 0, 5);
    assert_eq!(rec.priority, 1);
    assert_eq!(rec.bytes_total, ASSUMED_TRANSFER_BYTES);
    assert!(rec.start(6));
    assert_eq!(rec.status, TransferStatus::Active);
    assert_eq!(rec.attempts, 1);
    rec.fail("boom".to_string(), 7);
    assert_eq!(rec.status, TransferStatus::Failed);
    assert_eq!(rec.reprioritize(20, 8), 10);
    assert_eq!(rec.status, TransferStatus::Queued);
    rec.complete(9);
    assert_eq!(rec.status, TransferStatus::Completed);
    assert!(rec.error.is_none());
    rec.cancel(10);
    assert!(!rec.start(11));
    assert_eq!(rec.status, TransferStatus::Cancelled);
    assert_eq!(rec.updated_at_unix_ms, 10);
    rec.complete(12);
    assert_eq!(rec.status, TransferStatus::Cancelled);
}

#[test]
fn listing_filters_sorts_and_limits() {
    let mut a = TransferRecord::submitted(30, String::new(), String::new(), 5, 0);
    let b = TransferRecord::submitted(10, String::new(), String::new(), 5, 0);
    let mut c = TransferRecord::submitted(20, String::new(), String::new(), 5, 0);
    a.start(1);
    c.cancel(1);
    let records = vec![a, b, c];
    assert_eq!(list_transfers(&records, None, None), vec![1, 2, 0]);
    assert_eq!(list_transfers(&records, None, Some(2)), vec![1, 2]);
    assert_eq!(list_transfers(&records, Some("ACTIVE"), None), vec![0]);
    assert_eq!(list_transfers(&records, Some("queued"), Some(5)), vec![1]);
    assert!(list_transfers(&records, Some("queue"), None).is_empty());
    assert_eq!(count_with_status(&records, TransferStatus::Active), 1);
    assert_eq!(count_with_status(&records, TransferStatus::Failed), 0);
    assert!(status_matches(TransferStatus::Cancelled, "cAnCeLlEd"));
}

#[test]
fn requeue_keeps_only_queued_records() {
    let mut q = TransferQueue::new();
    q.enqueue(99, 3);
    q.requeue(&[
        (1, 4, TransferStatus::Queued),
        (2, 4, TransferStatus::Completed),
        (3, 0, TransferStatus::Queued),
    ]);
    assert_eq!(q.len(), 2);
    let first = q.pop().unwrap();
    assert_eq!((first.transfer_id, first.priority, first.seq), (3, 0, 3));
    let second = q.pop().unwrap();
    assert_eq!((second.transfer_id, second.seq), (1, 2));
    assert!(q.pop().is_none());
}

#[test]
fn job_kind_routes_by_source_and_destination() {
    assert_eq!(job_kind("/x", "sct://1.2.3.4:7272", false), JobKind::Send);
    assert_eq!(job_kind("sct://peer", "/in", false), JobKind::Receive);
    assert_eq!(job_kind("file:///x", "/out", false), JobKind::LocalCopy);
    assert_eq!(job_kind("/x", "/out", true), JobKind::LocalCopy);
    assert_eq!(job_kind("s3://bucket", "/out", false), JobKind::Simulated);
    assert_eq!(staged_progress_bytes(103, 2), 40);
    assert_eq!(staged_progress_bytes(103, 5), 100);
}

#[test]
fn endpoint_host_port_drops_scheme_and_path() {
    assert_eq!(endpoint_host_port("sct://10.0.0.2:7272/incoming/x"), "10.0.0.2:7272");
    assert_eq!(endpoint_host_port("sct://10.0.0.2:7272"), "10.0.0.2:7272");
    assert_eq!(endpoint_host_port("127.0.0.1:1/"), "127.0.0.1:1");
}
