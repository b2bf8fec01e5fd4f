//! Transfer daemon bookkeeping: the priority queue of waiting transfers, the
//! status a transfer resumes with after a restart, and the interpretation of
//! the source, destination and compression settings of a request.
use vstd::prelude::*;
use vstd::multiset::Multiset;
use vstd::string::StrSliceExecFns;
use crate::proto::CompressionType;

verus! {

/// Lifecycle of a transfer managed by the daemon.
#[derive(Debug, Clone, Copy, PartialEq, Eq, Structural)]
pub enum TransferStatus {
    Queued,
    Active,
    Completed,
    Failed,
    Cancelled,
}

/// Status a stored transfer resumes with when the daemon restarts: an
/// interrupted active transfer is queued again, any other keeps its status.
pub fn status_after_restart(s: TransferStatus) -> (r: TransferStatus)
    ensures
        s == TransferStatus::Active ==> r == TransferStatus::Queued,
        s != TransferStatus::Active ==> r == s,
{
    match s {
        TransferStatus::Active => TransferStatus::Queued,
        other => other,
    }
}

/// Request priorities are kept within 1 (most urgent) to 10.
pub fn clamp_priority(p: u8) -> (r: u8)
    ensures
        r == if p < 1 { 1 } else if p > 10 { 10 } else { p },
{
    if p < 1 { 1 } else if p > 10 { 10 } else { p }
}

/// A waiting transfer: its priority, its enqueue sequence number and its id
/// (the UUID as a big-endian integer).
#[derive(Debug, Clone, Copy, PartialEq, Eq, Structural)]
pub struct QueueEntry {
    pub priority: u8,
    pub seq: u64,
    pub transfer_id: u128,
}

/// `a` leaves the queue before `b`: a smaller priority number first; among
/// equal priorities the larger sequence number, then the larger id.
pub open spec fn pops_before(a: QueueEntry, b: QueueEntry) -> bool {
    ||| a.priority < b.priority
    ||| a.priority == b.priority && a.seq > b.seq
    ||| a.priority == b.priority && a.seq == b.seq && a.transfer_id > b.transfer_id
}

/// Waiting transfers and the counter that numbers them.
pub struct TransferQueue {
    entries: Vec<QueueEntry>,
    sequence: u64,
}

impl TransferQueue {
    /// The waiting entries.
    pub closed spec fn items(self) -> Seq<QueueEntry> {
        self.entries@
    }

    /// The last sequence number handed out.
    pub closed spec fn counter(self) -> u64 {
        self.sequence
    }

    /// An empty queue whose counter starts at zero.
    pub fn new() -> (r: Self)
        ensures
            r.items() == Seq::<QueueEntry>::empty(),
            r.counter() == 0,
    {
        TransferQueue { entries: Vec::new(), sequence: 0 }
    }

    /// The last sequence number handed out.
    pub fn sequence(&self) -> (r: u64)
        ensures
            r == self.counter(),
    {
        self.sequence
    }

    /// Number of waiting entries.
    pub fn len(&self) -> (r: usize)
        ensures
            r == self.items().len(),
    {
        self.entries.len()
    }

    /// Adds an entry as it is.
    pub fn push(&mut self, e: QueueEntry)
        ensures
            final(self).items() == old(self).items().push(e),
            final(self).counter() == old(self).counter(),
    {
        self.entries.push(e);
    }

    /// Advances the counter and returns its new value.
    pub fn next_sequence(&mut self) -> (r: u64)
        requires
            old(self).counter() < u64::MAX,
        ensures
            r == old(self).counter() + 1,
            final(self).counter() == r,
            final(self).items() == old(self).items(),
    {
        self.sequence = self.sequence + 1;
        self.sequence
    }

    /// Queues transfer `id` with its priority kept within 1 to 10, numbered
    /// by the next sequence number.
    pub fn enqueue(&mut self, id: u128, priority: u8) -> (r: u64)
        requires
            old(self).counter() < u64::MAX,
        ensures
            r == old(self).counter() + 1,
            final(self).counter() == r,
            final(self).items() == old(self).items().push(QueueEntry {
                priority: if priority < 1 { 1 } else if priority > 10 { 10 } else { priority },
                seq: r,
                transfer_id: id,
            }),
    {
        let seq = self.next_sequence();
        self.push(QueueEntry { priority: clamp_priority(priority), seq, transfer_id: id });
        seq
    }

    /// Removes every entry; the counter keeps its value.
    pub fn clear(&mut self)
        ensures
            final(self).items() == Seq::<QueueEntry>::empty(),
            final(self).counter() == old(self).counter(),
    {
        self.entries.clear();
    }

    /// Takes out the entry that leaves first, if any: no waiting entry
    /// leaves before it, so in particular none has a smaller priority number.
    pub fn pop(&mut self) -> (r: Option<QueueEntry>)
        ensures
            r is None <==> old(self).items().len() == 0,
            final(self).counter() == old(self).counter(),
            r is None ==> final(self).items() == old(self).items(),
            r matches Some(e) ==> old(self).items().contains(e)
                && (forall|i: int| 0 <= i < old(self).items().len() ==> !pops_before(#[trigger] old(self).items()[i], e))
                && (forall|i: int| 0 <= i < old(self).items().len() ==> e.priority <= #[trigger] old(self).items()[i].priority)
                && final(self).items().to_multiset() == old(self).items().to_multiset().remove(e),
    {
        broadcast use vstd::seq_lib::group_to_multiset_ensures;

        if self.entries.len() == 0 {
            return None;
        }
        let ghost items0 = self.entries@;
        let mut best: usize = 0;
        let mut i: usize = 1;
        while i < self.entries.len()
            invariant
                self.entries@ == items0,
                1 <= i <= items0.len(),
                best < i,
                forall|j: int| 0 <= j < i ==> !pops_before(#[trigger] items0[j], items0[best as int]),
            decreases items0.len() - i,
        {
            let a = self.entries[i];
            let b = self.entries[best];
            let before = a.priority < b.priority
                || (a.priority == b.priority && a.seq > b.seq)
                || (a.priority == b.priority && a.seq == b.seq && a.transfer_id > b.transfer_id);
            if before {
                best = i;
            }
            i = i + 1;
        }
        let e = self.entries.remove(best);
        proof {
            assert(items0[best as int] == e);
            assert(items0.contains(e));
            vstd::seq_lib::to_multiset_remove(items0, best as int);
            assert forall|k: int| 0 <= k < items0.len() implies e.priority <= #[trigger] items0[k].priority by {
                assert(!pops_before(items0[k], e));
            }
        }
        Some(e)
    }
}

/// An optional string, taken as text.
pub open spec fn opt_text(o: Option<String>) -> Option<Seq<char>> {
    match o {
        Some(s) => Some(s@),
        None => None,
    }
}

/// What the daemon keeps of a transfer: its request, its status and its
/// byte counters. The id is the UUID as a big-endian integer; times are
/// milliseconds since the Unix epoch.
#[derive(Debug, Clone)]
pub struct TransferRecord {
    pub transfer_id: u128,
    pub source: String,
    pub destination: String,
    pub priority: u8,
    pub status: TransferStatus,
    pub bytes_transferred: u64,
    pub bytes_total: u64,
    pub error: Option<String>,
    pub created_at_unix_ms: u128,
    pub updated_at_unix_ms: u128,
    pub attempts: u32,
}

/// One line of the daemon's event log: the fields of a record that changed.
#[derive(Debug, Clone)]
pub struct TransferEvent {
    pub ts_unix_ms: u128,
    pub transfer_id: u128,
    pub source: Option<String>,
    pub destination: Option<String>,
    pub priority: Option<u8>,
    pub status: Option<TransferStatus>,
    pub bytes_transferred: Option<u64>,
    pub bytes_total: Option<u64>,
    pub error: Option<String>,
}

fn copy_text(s: &String) -> (r: String)
    ensures
        r@ == s@,
{
    s.clone()
}

/// The record a log replay starts from for a transfer first met in `event`:
/// the event's fields where it has them, otherwise no source or destination,
/// priority 5, queued, no bytes; created and updated at the event's time,
/// never attempted.
pub fn record_from_event(event: &TransferEvent) -> (r: TransferRecord)
    ensures
        r.transfer_id == event.transfer_id,
        r.source@ == (match event.source { Some(s) => s@, None => Seq::<char>::empty() }),
        r.destination@ == (match event.destination { Some(s) => s@, None => Seq::<char>::empty() }),
        r.priority == (match event.priority { Some(p) => p, None => 5u8 }),
        r.status == (match event.status { Some(s) => s, None => TransferStatus::Queued }),
        r.bytes_transferred == (match event.bytes_transferred { Some(b) => b, None => 0u64 }),
        r.bytes_total == (match event.bytes_total { Some(b) => b, None => 0u64 }),
        opt_text(r.error) == opt_text(event.error),
        r.created_at_unix_ms == event.ts_unix_ms,
        r.updated_at_unix_ms == event.ts_unix_ms,
        r.attempts == 0,
{
    TransferRecord {
        transfer_id: event.transfer_id,
        source: match &event.source { Some(s) => copy_text(s), None => String::new() },
        destination: match &event.destination { Some(s) => copy_text(s), None => String::new() },
        priority: match event.priority { Some(p) => p, None => 5 },
        status: match event.status { Some(s) => s, None => TransferStatus::Queued },
        bytes_transferred: match event.bytes_transferred { Some(b) => b, None => 0 },
        bytes_total: match event.bytes_total { Some(b) => b, None => 0 },
        error: match &event.error { Some(e) => Some(copy_text(e)), None => None },
        created_at_unix_ms: event.ts_unix_ms,
        updated_at_unix_ms: event.ts_unix_ms,
        attempts: 0,
    }
}

/// Applies a logged event to a record: every field the event carries
/// replaces the record's; a record without a creation time takes the
/// event's, and the record is updated at the event's time.
pub fn apply_event(rec: &mut TransferRecord, event: &TransferEvent)
    ensures
        final(rec).transfer_id == old(rec).transfer_id,
        final(rec).source@ == (match event.source { Some(s) => s@, None => old(rec).source@ }),
        final(rec).destination@ == (match event.destination { Some(s) => s@, None => old(rec).destination@ }),
        final(rec).priority == (match event.priority { Some(p) => p, None => old(rec).priority }),
        final(rec).status == (match event.status { Some(s) => s, None => old(rec).status }),
        final(rec).bytes_transferred == (match event.bytes_transferred { Some(b) => b, None => old(rec).bytes_transferred }),
        final(rec).bytes_total == (match event.bytes_total { Some(b) => b, None => old(rec).bytes_total }),
        opt_text(final(rec).error) == (if event.error is Some { opt_text(event.error) } else { opt_text(old(rec).error) }),
        final(rec).created_at_unix_ms == (if old(rec).created_at_unix_ms == 0 { event.ts_unix_ms } else { old(rec).created_at_unix_ms }),
        final(rec).updated_at_unix_ms == event.ts_unix_ms,
        final(rec).attempts == old(rec).attempts,
{
    match &event.source {
        Some(s) => {
            rec.source = copy_text(s);
        },
        None => {},
    }
    match &event.destination {
        Some(s) => {
            rec.destination = copy_text(s);
        },
        None => {},
    }
    match event.priority {
        Some(p) => {
            rec.priority = p;
        },
        None => {},
    }
    match event.status {
        Some(st) => {
            rec.status = st;
        },
        None => {},
    }
    match event.bytes_transferred {
        Some(b) => {
            rec.bytes_transferred = b;
        },
        None => {},
    }
    match event.bytes_total {
        Some(b) => {
            rec.bytes_total = b;
        },
        None => {},
    }
    match &event.error {
        Some(e) => {
            rec.error = Some(copy_text(e));
        },
        None => {},
    }
    if rec.created_at_unix_ms == 0 {
        rec.created_at_unix_ms = event.ts_unix_ms;
    }
    rec.updated_at_unix_ms = event.ts_unix_ms;
}

/// The queue entries for the waiting transfers among `records`, in order,
/// numbered from `counter + 1` on: each queued record `(id, priority,
/// status)` gets the next number, with its priority as recorded.
pub open spec fn requeued(records: Seq<(u128, u8, TransferStatus)>, counter: u64) -> Seq<QueueEntry>
    decreases records.len(),
{
    if records.len() == 0 {
        Seq::empty()
    } else {
        let r = requeued(records.drop_last(), counter);
        let last = records.last();
        if last.2 == TransferStatus::Queued {
            r.push(QueueEntry { priority: last.1, seq: (counter + r.len() + 1) as u64, transfer_id: last.0 })
        } else {
            r
        }
    }
}

proof fn lemma_requeued_len(records: Seq<(u128, u8, TransferStatus)>, counter: u64)
    ensures
        requeued(records, counter).len() <= records.len(),
    decreases records.len(),
{
    if records.len() > 0 {
        lemma_requeued_len(records.drop_last(), counter);
    }
}

impl TransferQueue {
    /// Rebuilds the queue after a restart: the entries are dropped and each
    /// queued record is entered again, in the order given, numbered by the
    /// counter; other records are left out.
    pub fn requeue(&mut self, records: &[(u128, u8, TransferStatus)])
        requires
            old(self).counter() + records@.len() <= u64::MAX,
        ensures
            final(self).items() == requeued(records@, old(self).counter()),
            final(self).counter() == old(self).counter() + requeued(records@, old(self).counter()).len(),
    {
        let ghost c0 = self.sequence;
        self.entries.clear();
        let mut i: usize = 0;
        proof {
            assert(records@.take(0) =~= Seq::<(u128, u8, TransferStatus)>::empty());
        }
        while i < records.len()
            invariant
                i <= records@.len(),
                c0 + records@.len() <= u64::MAX,
                self.entries@ == requeued(records@.take(i as int), c0),
                self.sequence == c0 + requeued(records@.take(i as int), c0).len(),
            decreases records@.len() - i,
        {
            let (id, priority, status) = records[i];
            proof {
                assert(records@.take(i + 1).drop_last() =~= records@.take(i as int));
                assert(records@.take(i + 1).last() == records@[i as int]);
                lemma_requeued_len(records@.take(i as int), c0);
            }
            match status {
                TransferStatus::Queued => {
                    self.sequence = self.sequence + 1;
                    self.entries.push(QueueEntry { priority, seq: self.sequence, transfer_id: id });
                },
                _ => {},
            }
            i = i + 1;
        }
        proof {
            assert(records@.take(records@.len() as int) =~= records@);
        }
    }
}

/// Size a submitted transfer is assumed to have until its source is read:
/// one gibibyte.
pub const ASSUMED_TRANSFER_BYTES: u64 = 1073741824;

impl TransferRecord {
    /// The record of a newly submitted transfer: queued with its priority
    /// kept within 1 to 10, nothing transferred of an assumed gibibyte,
    /// created and updated at `now`, never attempted.
    pub fn submitted(transfer_id: u128, source: String, destination: String, priority: u8, now: u128) -> (r: Self)
        ensures
            r.transfer_id == transfer_id,
            r.source == source,
            r.destination == destination,
            r.priority == (if priority < 1 { 1 } else if priority > 10 { 10 } else { priority }),
            r.status == TransferStatus::Queued,
            r.bytes_transferred == 0,
            r.bytes_total == ASSUMED_TRANSFER_BYTES,
            r.error is None,
            r.created_at_unix_ms == now,
            r.updated_at_unix_ms == now,
            r.attempts == 0,
    {
        TransferRecord {
            transfer_id,
            source,
            destination,
            priority: clamp_priority(priority),
            status: TransferStatus::Queued,
            bytes_transferred: 0,
            bytes_total: ASSUMED_TRANSFER_BYTES,
            error: None,
            created_at_unix_ms: now,
            updated_at_unix_ms: now,
            attempts: 0,
        }
    }

    /// A job starts: a cancelled transfer stays as it is and is not run
    /// (`false`); otherwise it becomes active, counts one more attempt
    /// (saturating) and is updated at `now`.
    pub fn start(&mut self, now: u128) -> (run: bool)
        ensures
            run == (old(self).status != TransferStatus::Cancelled),
            !run ==> *final(self) == *old(self),
            run ==> final(self).status == TransferStatus::Active
                && final(self).attempts == (if old(self).attempts == u32::MAX { u32::MAX } else { (old(self).attempts + 1) as u32 })
                && final(self).updated_at_unix_ms == now
                && final(self).priority == old(self).priority
                && final(self).bytes_transferred == old(self).bytes_transferred
                && final(self).bytes_total == old(self).bytes_total
                && final(self).error == old(self).error
                && final(self).created_at_unix_ms == old(self).created_at_unix_ms,
    {
        match self.status {
            TransferStatus::Cancelled => false,
            _ => {
                self.status = TransferStatus::Active;
                self.attempts = self.attempts.saturating_add(1);
                self.updated_at_unix_ms = now;
                true
            },
        }
    }

    /// A job failed with `error`.
    pub fn fail(&mut self, error: String, now: u128)
        ensures
            final(self).status == TransferStatus::Failed,
            final(self).error == Some(error),
            final(self).updated_at_unix_ms == now,
            final(self).priority == old(self).priority,
            final(self).attempts == old(self).attempts,
            final(self).bytes_transferred == old(self).bytes_transferred,
            final(self).bytes_total == old(self).bytes_total,
            final(self).created_at_unix_ms == old(self).created_at_unix_ms,
    {
        self.status = TransferStatus::Failed;
        self.error = Some(error);
        self.updated_at_unix_ms = now;
    }

    /// The transfer is cancelled on request.
    pub fn cancel(&mut self, now: u128)
        ensures
            final(self).status == TransferStatus::Cancelled,
            final(self).updated_at_unix_ms == now,
            final(self).priority == old(self).priority,
            final(self).attempts == old(self).attempts,
            final(self).error == old(self).error,
            final(self).bytes_transferred == old(self).bytes_transferred,
            final(self).bytes_total == old(self).bytes_total,
            final(self).created_at_unix_ms == old(self).created_at_unix_ms,
    {
        self.status = TransferStatus::Cancelled;
        self.updated_at_unix_ms = now;
    }

    /// The priority is changed on request: kept within 1 to 10, and the
    /// transfer is queued again. Returns the new priority.
    pub fn reprioritize(&mut self, priority: u8, now: u128) -> (p: u8)
        ensures
            p == (if priority < 1 { 1 } else if priority > 10 { 10 } else { priority }),
            final(self).priority == p,
            final(self).status == TransferStatus::Queued,
            final(self).updated_at_unix_ms == now,
            final(self).attempts == old(self).attempts,
            final(self).error == old(self).error,
            final(self).bytes_transferred == old(self).bytes_transferred,
            final(self).bytes_total == old(self).bytes_total,
            final(self).created_at_unix_ms == old(self).created_at_unix_ms,
    {
        self.priority = clamp_priority(priority);
        self.status = TransferStatus::Queued;
        self.updated_at_unix_ms = now;
        self.priority
    }

    /// A job finished: unless it was cancelled meanwhile the transfer is
    /// completed without error and updated at `now`.
    pub fn complete(&mut self, now: u128)
        ensures
            old(self).status == TransferStatus::Cancelled ==> *final(self) == *old(self),
            old(self).status != TransferStatus::Cancelled ==> final(self).status == TransferStatus::Completed
                && final(self).error is None
                && final(self).updated_at_unix_ms == now
                && final(self).priority == old(self).priority
                && final(self).attempts == old(self).attempts
                && final(self).bytes_transferred == old(self).bytes_transferred
                && final(self).bytes_total == old(self).bytes_total
                && final(self).created_at_unix_ms == old(self).created_at_unix_ms,
    {
        match self.status {
            TransferStatus::Cancelled => {},
            _ => {
                self.status = TransferStatus::Completed;
                self.error = None;
                self.updated_at_unix_ms = now;
            },
        }
    }
}

/// The name of a status as the daemon's API prints it.
pub open spec fn status_name(s: TransferStatus) -> Seq<char> {
    match s {
        TransferStatus::Queued => "Queued"@,
        TransferStatus::Active => "Active"@,
        TransferStatus::Completed => "Completed"@,
        TransferStatus::Failed => "Failed"@,
        TransferStatus::Cancelled => "Cancelled"@,
    }
}

/// `a` and `b` are equal up to ASCII letter case.
pub open spec fn eq_ignore_ascii_case(a: Seq<char>, b: Seq<char>) -> bool {
    a.len() == b.len() && forall|i: int| 0 <= i < a.len() ==> ascii_lower(#[trigger] a[i]) == ascii_lower(b[i])
}

fn status_text(s: TransferStatus) -> (r: &'static str)
    ensures
        r@ == status_name(s),
{
    match s {
        TransferStatus::Queued => "Queued",
        TransferStatus::Active => "Active",
        TransferStatus::Completed => "Completed",
        TransferStatus::Failed => "Failed",
        TransferStatus::Cancelled => "Cancelled",
    }
}

/// Whether a status filter of the listing names `s`, in any letter case.
pub fn status_matches(s: TransferStatus, filter: &str) -> (r: bool)
    ensures
        r == eq_ignore_ascii_case(status_name(s), filter@),
{
    let name = status_text(s);
    let n = name.unicode_len();
    if n != filter.unicode_len() {
        return false;
    }
    let mut i: usize = 0;
    while i < n
        invariant
            i <= n,
            n == name@.len(),
            n == filter@.len(),
            name@ == status_name(s),
            forall|j: int| 0 <= j < i ==> ascii_lower(#[trigger] name@[j]) == ascii_lower(filter@[j]),
        decreases n - i,
    {
        if lower_ascii(name.get_char(i)) != lower_ascii(filter.get_char(i)) {
            return false;
        }
        i = i + 1;
    }
    true
}

/// Whether record `i` is listed under the filter.
pub open spec fn listed(records: Seq<TransferRecord>, filter: Option<Seq<char>>, i: int) -> bool {
    match filter {
        Some(f) => eq_ignore_ascii_case(status_name(records[i].status), f),
        None => true,
    }
}

/// Record `i` comes before record `j` in the listing: by id, then by position.
pub open spec fn listed_before(records: Seq<TransferRecord>, i: int, j: int) -> bool {
    records[i].transfer_id < records[j].transfer_id
        || (records[i].transfer_id == records[j].transfer_id && i < j)
}

/// The positions of the records a listing shows: those the status filter
/// names, ordered by id (ties in their given order), at most `limit` of
/// them: the first ones in that order.
pub open spec fn is_listing(records: Seq<TransferRecord>, filter: Option<Seq<char>>, limit: Option<usize>, r: Seq<usize>) -> bool {
    &&& limit matches Some(l) ==> r.len() <= l
    &&& forall|k: int| 0 <= k < r.len() ==> (#[trigger] r[k]) < records.len() && listed(records, filter, r[k] as int)
    &&& forall|a: int, b: int| 0 <= a < b < r.len() ==> listed_before(records, #[trigger] r[a] as int, #[trigger] r[b] as int)
    &&& forall|i: int| 0 <= i < records.len() && listed(records, filter, i) && !r.contains(i as usize)
        ==> (limit is Some && r.len() == limit->0
            && forall|k: int| 0 <= k < r.len() ==> listed_before(records, #[trigger] r[k] as int, i))
}

/// The records a listing shows, as positions in `records`: those whose
/// status the filter names (all when there is no filter), by id, cut to
/// `limit`.
pub fn list_transfers(records: &[TransferRecord], filter: Option<&str>, limit: Option<usize>) -> (r: Vec<usize>)
    ensures
        is_listing(records@, match filter { Some(f) => Some(f@), None => None }, limit, r@),
{
    let ghost rs = records@;
    let ghost fv: Option<Seq<char>> = match filter { Some(f) => Some(f@), None => None };
    let mut out: Vec<usize> = Vec::new();
    let mut i: usize = 0;
    while i < records.len()
        invariant
            i <= rs.len(),
            rs == records@,
            fv == (match filter { Some(f) => Some(f@), None => None::<Seq<char>> }),
            forall|k: int| 0 <= k < out@.len() ==> (#[trigger] out@[k]) < i && listed(rs, fv, out@[k] as int),
            forall|a: int, b: int| 0 <= a < b < out@.len() ==> listed_before(rs, #[trigger] out@[a] as int, #[trigger] out@[b] as int),
            forall|j: int| 0 <= j < i && listed(rs, fv, j) ==> out@.contains(j as usize),
        decreases rs.len() - i,
    {
        let shown = match filter {
            Some(f) => status_matches(records[i].status, f),
            None => true,
        };
        if shown {
            let id = records[i].transfer_id;
            let mut p: usize = 0;
            while p < out.len() && records[out[p]].transfer_id <= id
                invariant
                    p <= out@.len(),
                    forall|k: int| 0 <= k < out@.len() ==> (#[trigger] out@[k]) < i,
                    forall|k: int| 0 <= k < p ==> listed_before(rs, #[trigger] out@[k] as int, i as int),
                    i < rs.len(),
                    id == rs[i as int].transfer_id,
                    rs == records@,
                decreases out@.len() - p,
            {
                p = p + 1;
            }
            let ghost old_out = out@;
            out.insert(p, i);
            proof {
                let t = out@;
                assert(t =~= old_out.insert(p as int, i));
                assert forall|k: int| 0 <= k < t.len() implies (#[trigger] t[k]) < i + 1 && listed(rs, fv, t[k] as int) by {
                    if k < p {
                        assert(t[k] == old_out[k]);
                    } else if k > p {
                        assert(t[k] == old_out[k - 1]);
                    }
                }
                assert forall|a: int, b: int| 0 <= a < b < t.len() implies listed_before(rs, #[trigger] t[a] as int, #[trigger] t[b] as int) by {
                    if b < p {
                        assert(t[a] == old_out[a] && t[b] == old_out[b]);
                    } else if b == p {
                        assert(t[a] == old_out[a]);
                    } else if a > p {
                        assert(t[a] == old_out[a - 1] && t[b] == old_out[b - 1]);
                    } else if a == p {
                        assert(t[b] == old_out[b - 1]);
                        assert(rs[old_out[p as int] as int].transfer_id > id);
                        if b - 1 > p {
                            assert(listed_before(rs, old_out[p as int] as int, old_out[b - 1] as int));
                        }
                    } else {
                        assert(t[a] == old_out[a] && t[b] == old_out[b - 1]);
                    }
                }
                assert forall|j: int| 0 <= j < i + 1 && listed(rs, fv, j) implies t.contains(j as usize) by {
                    if j == i {
                        assert(t[p as int] == i);
                    } else {
                        assert(old_out.contains(j as usize));
                        let k = choose|k: int| 0 <= k < old_out.len() && old_out[k] == j as usize;
                        if k < p {
                            assert(t[k] == old_out[k]);
                        } else {
                            assert(t[k + 1] == old_out[k]);
                        }
                    }
                }
            }
        } else {
            proof {
                assert(!listed(rs, fv, i as int));
            }
        }
        i = i + 1;
    }
    let ghost full = out@;
    match limit {
        Some(l) => {
            if l < out.len() {
                out.truncate(l);
            }
        },
        None => {},
    }
    proof {
        let r = out@;
        assert(r =~= full.take(r.len() as int));
        assert forall|j: int| 0 <= j < rs.len() && listed(rs, fv, j) && !r.contains(j as usize)
            implies (limit is Some && r.len() == limit->0
                && forall|k: int| 0 <= k < r.len() ==> listed_before(rs, #[trigger] r[k] as int, j)) by {
            assert(full.contains(j as usize));
            let m = choose|m: int| 0 <= m < full.len() && full[m] == j as usize;
            if m < r.len() {
                assert(r[m] == full[m]);
            }
            assert(m >= r.len());
            assert forall|k: int| 0 <= k < r.len() implies listed_before(rs, #[trigger] r[k] as int, j) by {
                assert(r[k] == full[k]);
            }
        }
    }
    out
}

/// Number of records with status `s`.
pub fn count_with_status(records: &[TransferRecord], s: TransferStatus) -> (n: usize)
    ensures
        n == records@.filter(|r: TransferRecord| r.status == s).len(),
{
    let mut n: usize = 0;
    let mut i: usize = 0;
    proof {
        assert(records@.take(0).filter(|r: TransferRecord| r.status == s) =~= Seq::<TransferRecord>::empty());
    }
    while i < records.len()
        invariant
            i <= records@.len(),
            n == records@.take(i as int).filter(|r: TransferRecord| r.status == s).len(),
            n <= i,
        decreases records@.len() - i,
    {
        proof {
            let t = records@.take(i + 1);
            assert(t.drop_last() =~= records@.take(i as int));
            assert(t.last() == records@[i as int]);
            records@.take(i as int).lemma_filter_push(records@[i as int], |r: TransferRecord| r.status == s);
            assert(records@.take(i as int).push(records@[i as int]) =~= t);
        }
        if records[i].status == s {
            n = n + 1;
        }
        i = i + 1;
    }
    proof {
        assert(records@.take(records@.len() as int) =~= records@);
    }
    n
}

/// What a daemon job does with its transfer.
#[derive(Debug, Clone, Copy, PartialEq, Eq, Structural)]
pub enum JobKind {
    /// Send the local source to the SCT endpoint of the destination.
    Send,
    /// Accept one incoming SCT transfer into the destination directory.
    Receive,
    /// Copy a local file.
    LocalCopy,
    /// Nothing to move here: only progress is reported.
    Simulated,
}

/// The kind of job for a transfer: sending when the destination is an
/// `sct://` endpoint, otherwise receiving when the source is one, otherwise
/// a local copy when the source is a `file://` URL or an existing file
/// (`source_is_file`), otherwise progress reporting only.
pub fn job_kind(source: &str, destination: &str, source_is_file: bool) -> (r: JobKind)
    ensures
        r == (if has_prefix(destination@, "sct://"@) {
            JobKind::Send
        } else if has_prefix(source@, "sct://"@) {
            JobKind::Receive
        } else if has_prefix(source@, "file://"@) || source_is_file {
            JobKind::LocalCopy
        } else {
            JobKind::Simulated
        }),
{
    proof {
        assert(destination@.skip(0) =~= destination@);
        assert(source@.skip(0) =~= source@);
    }
    if starts_with_at(destination, 0, "sct://") {
        JobKind::Send
    } else if starts_with_at(source, 0, "sct://") {
        JobKind::Receive
    } else if starts_with_at(source, 0, "file://") || source_is_file {
        JobKind::LocalCopy
    } else {
        JobKind::Simulated
    }
}

/// Bytes reported after step `step` of the five progress steps of a job
/// that moves `total` bytes: a fifth of the total (rounded down) per step.
pub fn staged_progress_bytes(total: u64, step: u64) -> (r: u64)
    requires
        step <= 5,
    ensures
        r == (total / 5) * step,
{
    proof {
        assert((total / 5) * step <= (total / 5) * 5) by (nonlinear_arith)
            requires step <= 5;
        assert((total / 5) * 5 <= total) by (nonlinear_arith);
    }
    (total / 5) * step
}

/// The daemon's compression setting: `zstd` in any letter case selects zstd
/// at level 3, anything else no compression.
pub open spec fn spec_parse_compression(value: Seq<char>) -> CompressionType {
    if value.len() == 4 && ascii_lower(value[0]) == 'z' && ascii_lower(value[1]) == 's'
        && ascii_lower(value[2]) == 't' && ascii_lower(value[3]) == 'd' {
        CompressionType::Zstd { level: 3 }
    } else {
        CompressionType::Uncompressed
    }
}

/// `c` with an ASCII upper-case letter turned lower case.
pub open spec fn ascii_lower(c: char) -> char {
    if 'A' <= c && c <= 'Z' { ((c as u32) + 32) as char } else { c }
}

pub(crate) fn lower_ascii(c: char) -> (r: char)
    ensures
        r == ascii_lower(c),
{
    if 'A' <= c && c <= 'Z' {
        let v = (c as u32) + 32;
        proof {
            assert(97 <= v <= 122);
        }
        char_from_ascii(v as u8)
    } else {
        c
    }
}

fn char_from_ascii(b: u8) -> (r: char)
    requires
        b < 128,
    ensures
        r == b as char,
{
    b as char
}

/// Reads the compression setting of the daemon's configuration.
pub fn parse_compression(value: &str) -> (r: CompressionType)
    ensures
        r == spec_parse_compression(value@),
{
    let n = value.unicode_len();
    if n != 4 {
        return CompressionType::Uncompressed;
    }
    let a = lower_ascii(value.get_char(0));
    let b = lower_ascii(value.get_char(1));
    let c = lower_ascii(value.get_char(2));
    let d = lower_ascii(value.get_char(3));
    if a == 'z' && b == 's' && c == 't' && d == 'd' {
        CompressionType::Zstd { level: 3 }
    } else {
        CompressionType::Uncompressed
    }
}

/// `s` begins with `prefix`.
pub open spec fn has_prefix(s: Seq<char>, prefix: Seq<char>) -> bool {
    prefix.len() <= s.len() && s.take(prefix.len() as int) == prefix
}

/// `s` with every leading repetition of `prefix` removed.
pub open spec fn trim_prefixes(s: Seq<char>, prefix: Seq<char>) -> Seq<char>
    decreases s.len(),
{
    if prefix.len() > 0 && has_prefix(s, prefix) {
        trim_prefixes(s.skip(prefix.len() as int), prefix)
    } else {
        s
    }
}

pub(crate) fn starts_with_at(s: &str, at: usize, prefix: &str) -> (r: bool)
    requires
        at <= s@.len(),
    ensures
        r == has_prefix(s@.skip(at as int), prefix@),
{
    let n = s.unicode_len();
    let m = prefix.unicode_len();
    if n - at < m {
        return false;
    }
    let mut i: usize = 0;
    while i < m
        invariant
            i <= m,
            m == prefix@.len(),
            n == s@.len(),
            at + m <= n,
            forall|j: int| 0 <= j < i ==> s@[at + j] == prefix@[j],
        decreases m - i,
    {
        if s.get_char(at + i) != prefix.get_char(i) {
            proof {
                assert(s@.skip(at as int).take(m as int)[i as int] == s@[at + i]);
            }
            return false;
        }
        i = i + 1;
    }
    proof {
        assert(s@.skip(at as int).take(m as int) =~= prefix@);
    }
    true
}

/// The local path a daemon source names: the source with its leading
/// `file://` prefixes removed.
pub fn local_source_path(source: &str) -> (r: String)
    ensures
        r@ == trim_prefixes(source@, "file://"@),
{
    let prefix = "file://";
    proof {
        reveal_strlit("file://");
    }
    let n = source.unicode_len();
    let mut at: usize = 0;
    proof {
        assert(source@.skip(0) =~= source@);
    }
    while starts_with_at(source, at, prefix)
        invariant
            at <= n,
            n == source@.len(),
            prefix@ == "file://"@,
            prefix@.len() == 7,
            trim_prefixes(source@.skip(at as int), prefix@) == trim_prefixes(source@, prefix@),
        decreases n - at,
    {
        proof {
            assert(source@.skip(at as int).skip(7) =~= source@.skip(at + 7));
        }
        at = at + 7;
    }
    let rest = source.substring_char(at, n);
    proof {
        assert(rest@ =~= source@.skip(at as int));
    }
    rest.to_string()
}

/// `base` joined with the relative path `rel`: a separator is put between
/// them unless `base` is empty or already ends with one.
pub open spec fn join_path(base: Seq<char>, rel: Seq<char>) -> Seq<char> {
    if base.len() == 0 {
        rel
    } else if base.last() == '/' {
        base + rel
    } else {
        base + seq!['/'] + rel
    }
}

/// Output location a destination names: an absolute destination as it is,
/// a relative one under the configured output directory.
pub open spec fn spec_output_dir(base: Seq<char>, destination: Seq<char>) -> Seq<char> {
    if destination.len() > 0 && destination[0] == '/' { destination } else { join_path(base, destination) }
}

/// Resolves a destination against the daemon's output directory.
pub fn resolve_output_dir(output_base_dir: &str, destination: &str) -> (r: String)
    ensures
        r@ == spec_output_dir(output_base_dir@, destination@),
{
    let dn = destination.unicode_len();
    if dn > 0 && destination.get_char(0) == '/' {
        return destination.to_string();
    }
    let bn = output_base_dir.unicode_len();
    let mut out = output_base_dir.to_string();
    if bn > 0 && output_base_dir.get_char(bn - 1) != '/' {
        proof {
            reveal_strlit("/");
        }
        out.append("/");
    }
    out.append(destination);
    out
}

/// Why a destination cannot be resolved.
#[derive(Debug, Clone, Copy, PartialEq, Eq, Structural)]
pub enum DestinationError {
    /// The destination is a directory and the source path has no file name.
    SourceHasNoFileName,
}

/// Target file of a local copy: the resolved destination, and inside it the
/// source's file name when the destination ends with `/` or is an existing
/// directory (`dst_is_dir`).
pub fn resolve_destination(
    output_base_dir: &str,
    destination: &str,
    src_file_name: Option<&str>,
    dst_is_dir: bool,
) -> (r: Result<String, DestinationError>)
    ensures
        ({
            let dst = spec_output_dir(output_base_dir@, destination@);
            let into_dir = (destination@.len() > 0 && destination@.last() == '/') || dst_is_dir;
            &&& !into_dir ==> (r matches Ok(s) && s@ == dst)
            &&& into_dir && src_file_name is None ==> r == Err::<String, DestinationError>(DestinationError::SourceHasNoFileName)
            &&& into_dir && src_file_name is Some ==> (r matches Ok(s) && s@ == join_path(dst, src_file_name->0@))
        }),
{
    let dst = resolve_output_dir(output_base_dir, destination);
    let dn = destination.unicode_len();
    let ends_with_sep = dn > 0 && destination.get_char(dn - 1) == '/';
    if ends_with_sep || dst_is_dir {
        match src_file_name {
            None => Err(DestinationError::SourceHasNoFileName),
            Some(name) => {
                let dn2 = dst.as_str().unicode_len();
                let needs_sep = dn2 > 0 && dst.as_str().get_char(dn2 - 1) != '/';
                let mut out = dst;
                if needs_sep {
                    proof {
                        reveal_strlit("/");
                    }
                    out.append("/");
                }
                out.append(name);
                Ok(out)
            },
        }
    } else {
        Ok(dst)
    }
}

} // verus!
