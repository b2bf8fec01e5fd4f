//! Length-prefixed framing of encoded telemetry events on QUIC streams.
//!
//! A single frame is a 4-byte big-endian length followed by one encoded event.
//! A batch frame carries, inside the same outer length prefix, the magic
//! `SCB1`, a 4-byte big-endian count, and `count` length-prefixed events.
use vstd::prelude::*;
use crate::bytes::{be32, be32_value, lemma_be32_roundtrip, push_be32, read_be32, push_all, copy_range};
use crate::telemetry::TransportError;

verus! {

pub const LENGTH_PREFIX_BYTES: usize = 4;

/// Magic that opens the body of a batch frame.
pub const BATCH_MAGIC: [u8; 4] = [0x53u8, 0x43u8, 0x42u8, 0x31u8];

pub open spec fn batch_magic() -> Seq<u8> {
    seq![0x53u8, 0x43u8, 0x42u8, 0x31u8]
}

/// One length-prefixed entry: `be32(len) ++ bytes`.
pub open spec fn spec_frame(p: Seq<u8>) -> Seq<u8> {
    be32(p.len() as u32) + p
}

/// Consecutive length-prefixed entries.
pub open spec fn spec_entries(ps: Seq<Seq<u8>>) -> Seq<u8>
    decreases ps.len(),
{
    if ps.len() == 0 {
        Seq::empty()
    } else {
        spec_frame(ps[0]) + spec_entries(ps.drop_first())
    }
}

/// Body of a batch frame: magic, count, entries.
pub open spec fn spec_batch_body(ps: Seq<Seq<u8>>) -> Seq<u8> {
    batch_magic() + be32(ps.len() as u32) + spec_entries(ps)
}

/// Total bytes of the entries of a batch.
pub open spec fn spec_entries_len(ps: Seq<Seq<u8>>) -> int
    decreases ps.len(),
{
    if ps.len() == 0 {
        0
    } else {
        4 + ps[0].len() + spec_entries_len(ps.drop_first())
    }
}

/// Structural faults a framed buffer can show.
#[derive(Debug, Clone, Copy, PartialEq, Eq, Structural)]
pub enum FrameFault {
    /// Fewer than four bytes: no room for the length prefix.
    TooSmall,
    /// The length prefix disagrees with the bytes that follow it.
    LengthMismatch,
    /// A batch entry's length header runs past the body.
    BadEntryHeader,
    /// A batch entry's bytes run past the body.
    BadEntryBoundary,
}

/// The body of a single frame, or the fault that prevents reading it.
pub open spec fn spec_unframe(buf: Seq<u8>) -> Result<Seq<u8>, FrameFault> {
    if buf.len() < 4 {
        Err(FrameFault::TooSmall)
    } else if be32_value(buf) as int != buf.len() - 4 {
        Err(FrameFault::LengthMismatch)
    } else {
        Ok(buf.subrange(4, buf.len() as int))
    }
}

/// Entries of a batch body read from `idx`, `count` of them: those read before
/// the first fault, and that fault if one occurs.
pub open spec fn spec_split_entries(body: Seq<u8>, idx: int, count: nat) -> (Seq<Seq<u8>>, Option<FrameFault>)
    decreases count,
{
    if count == 0 {
        (Seq::empty(), None)
    } else if idx + 4 > body.len() {
        (Seq::empty(), Some(FrameFault::BadEntryHeader))
    } else {
        let l = be32_value(body.subrange(idx, idx + 4)) as int;
        if idx + 4 + l > body.len() {
            (Seq::empty(), Some(FrameFault::BadEntryBoundary))
        } else {
            let rest = spec_split_entries(body, idx + 4 + l, (count - 1) as nat);
            (seq![body.subrange(idx + 4, idx + 4 + l)] + rest.0, rest.1)
        }
    }
}

/// Whether a frame body is a batch: at least eight bytes opening with the magic.
pub open spec fn spec_is_batch_body(body: Seq<u8>) -> bool {
    body.len() >= 8 && body.subrange(0, 4) == batch_magic()
}

/// The encoded events a framed buffer carries: for a batch body its entries up
/// to the first fault, otherwise the whole body as one event.
pub open spec fn spec_split_frame(buf: Seq<u8>) -> (Seq<Seq<u8>>, Option<FrameFault>) {
    match spec_unframe(buf) {
        Err(f) => (Seq::empty(), Some(f)),
        Ok(body) => if spec_is_batch_body(body) {
            spec_split_entries(body, 8, be32_value(body.subrange(4, 8)) as nat)
        } else {
            (seq![body], None)
        },
    }
}

/// Encoded events read from a frame, and the fault met after them, if any.
pub struct FramedPayloads {
    pub entries: Vec<Vec<u8>>,
    pub fault: Option<FrameFault>,
}

pub open spec fn bytes_views(v: Seq<Vec<u8>>) -> Seq<Seq<u8>> {
    v.map_values(|b: Vec<u8>| b@)
}

impl FrameFault {
    /// The transport error that reports this fault.
    pub fn to_error(&self) -> (r: TransportError)
        ensures
            r matches TransportError::Unavailable(m) && m@ == spec_fault_message(*self),
    {
        match self {
            FrameFault::TooSmall => TransportError::Unavailable("frame too small".to_string()),
            FrameFault::LengthMismatch => TransportError::Unavailable(
                "frame length mismatch".to_string(),
            ),
            FrameFault::BadEntryHeader => TransportError::Unavailable(
                "invalid batch frame length header".to_string(),
            ),
            FrameFault::BadEntryBoundary => TransportError::Unavailable(
                "invalid batch frame payload boundary".to_string(),
            ),
        }
    }
}

pub open spec fn spec_fault_message(f: FrameFault) -> Seq<char> {
    match f {
        FrameFault::TooSmall => "frame too small"@,
        FrameFault::LengthMismatch => "frame length mismatch"@,
        FrameFault::BadEntryHeader => "invalid batch frame length header"@,
        FrameFault::BadEntryBoundary => "invalid batch frame payload boundary"@,
    }
}

/// Frames one encoded event: 4-byte big-endian length, then the bytes.
/// Fails when the event is longer than `u32::MAX` bytes.
pub fn frame_event_payload(payload: &[u8]) -> (r: Result<Vec<u8>, TransportError>)
    ensures
        payload@.len() <= u32::MAX ==> (r matches Ok(v) && v@ == spec_frame(payload@)),
        payload@.len() > u32::MAX ==> (r matches Err(TransportError::Unavailable(m))
            && m@ == "event payload exceeds u32 frame length"@),
{
    if payload.len() > 0xffff_ffffusize {
        return Err(TransportError::Unavailable("event payload exceeds u32 frame length".to_string()));
    }
    let mut buf: Vec<u8> = Vec::new();
    push_be32(&mut buf, payload.len() as u32);
    push_all(&mut buf, payload);
    Ok(buf)
}

/// The event bytes of a single frame. Fails when the buffer is shorter than
/// the prefix or the prefix disagrees with the bytes that follow.
pub fn parse_framed_event_payload(buf: &[u8]) -> (r: Result<Vec<u8>, TransportError>)
    ensures
        spec_unframe(buf@) matches Ok(b) ==> (r matches Ok(v) && v@ == b),
        spec_unframe(buf@) matches Err(f) ==> (r matches Err(TransportError::Unavailable(m))
            && m@ == spec_fault_message(f)),
{
    if buf.len() < LENGTH_PREFIX_BYTES {
        return Err(FrameFault::TooSmall.to_error());
    }
    let declared = read_be32(buf, 0);
    if declared as usize != buf.len() - LENGTH_PREFIX_BYTES {
        return Err(FrameFault::LengthMismatch.to_error());
    }
    Ok(copy_range(buf, LENGTH_PREFIX_BYTES, buf.len()))
}

proof fn lemma_entries_push(ps: Seq<Seq<u8>>, p: Seq<u8>)
    ensures
        spec_entries(ps.push(p)) == spec_entries(ps) + spec_frame(p),
        spec_entries_len(ps.push(p)) == spec_entries_len(ps) + 4 + p.len(),
    decreases ps.len(),
{
    let e = Seq::<Seq<u8>>::empty();
    assert(spec_entries(e) =~= Seq::<u8>::empty());
    assert(spec_entries_len(e) == 0);
    assert(ps.push(p)[0] == if ps.len() == 0 { p } else { ps[0] });
    if ps.len() == 0 {
        assert(ps =~= e);
        assert(ps.push(p).drop_first() =~= e);
        assert(spec_entries(ps.push(p)) =~= spec_entries(ps) + spec_frame(p));
    } else {
        lemma_entries_push(ps.drop_first(), p);
        assert(ps.push(p).drop_first() =~= ps.drop_first().push(p));
        assert(spec_entries(ps.push(p)) =~= spec_entries(ps) + spec_frame(p));
    }
}

proof fn lemma_entries_len(ps: Seq<Seq<u8>>)
    ensures
        spec_entries(ps).len() == spec_entries_len(ps),
    decreases ps.len(),
{
    if ps.len() > 0 {
        lemma_entries_len(ps.drop_first());
    }
}

/// Frames a batch of encoded events: outer prefix, magic, count, and one
/// length-prefixed entry per event. Fails when there are more than `u32::MAX`
/// events, when an event is longer than `u32::MAX` bytes, or when the body
/// would be longer than `u32::MAX` bytes.
pub fn frame_event_batch(payloads: &[Vec<u8>]) -> (r: Result<Vec<u8>, TransportError>)
    ensures
        payloads@.len() > u32::MAX ==> (r matches Err(TransportError::Unavailable(m))
            && m@ == "too many events for batch frame"@),
        payloads@.len() <= u32::MAX && (exists|i: int| 0 <= i < payloads@.len() && payloads@[i]@.len() > u32::MAX)
            ==> (r matches Err(TransportError::Unavailable(m))
            && m@ == "batched event payload exceeds u32 frame length"@),
        payloads@.len() <= u32::MAX && (forall|i: int| 0 <= i < payloads@.len() ==> payloads@[i]@.len() <= u32::MAX)
            && 8 + spec_entries_len(bytes_views(payloads@)) > u32::MAX
            ==> (r matches Err(TransportError::Unavailable(m))
            && m@ == "batch payload exceeds u32 frame length"@),
        payloads@.len() <= u32::MAX && (forall|i: int| 0 <= i < payloads@.len() ==> payloads@[i]@.len() <= u32::MAX)
            && 8 + spec_entries_len(bytes_views(payloads@)) <= u32::MAX
            ==> (r matches Ok(v) && v@ == spec_frame(spec_batch_body(bytes_views(payloads@)))),
{
    if payloads.len() > 0xffff_ffffusize {
        return Err(TransportError::Unavailable("too many events for batch frame".to_string()));
    }
    let mut body: Vec<u8> = Vec::new();
    push_all(&mut body, &BATCH_MAGIC);
    push_be32(&mut body, payloads.len() as u32);
    let ghost views = bytes_views(payloads@);
    proof {
        assert(BATCH_MAGIC@ == batch_magic());
    }
    let mut i: usize = 0;
    while i < payloads.len()
        invariant
            i <= payloads@.len(),
            payloads@.len() <= u32::MAX,
            views == bytes_views(payloads@),
            forall|j: int| 0 <= j < i ==> payloads@[j]@.len() <= u32::MAX,
            body@ == batch_magic() + be32(payloads@.len() as u32) + spec_entries(views.subrange(0, i as int)),
            body@.len() == 8 + spec_entries_len(views.subrange(0, i as int)),
        decreases payloads@.len() - i,
    {
        let p = &payloads[i];
        if p.len() > 0xffff_ffffusize {
            return Err(TransportError::Unavailable(
                "batched event payload exceeds u32 frame length".to_string(),
            ));
        }
        push_be32(&mut body, p.len() as u32);
        push_all(&mut body, p.as_slice());
        proof {
            lemma_entries_push(views.subrange(0, i as int), views[i as int]);
            assert(views.subrange(0, i as int).push(views[i as int]) =~= views.subrange(0, i + 1));
            lemma_be32_roundtrip(p@.len() as u32);
        }
        i = i + 1;
    }
    proof {
        assert(views.subrange(0, payloads@.len() as int) =~= views);
        lemma_entries_len(views);
    }
    if body.len() > 0xffff_ffffusize {
        return Err(TransportError::Unavailable("batch payload exceeds u32 frame length".to_string()));
    }
    let mut out: Vec<u8> = Vec::new();
    push_be32(&mut out, body.len() as u32);
    push_all(&mut out, body.as_slice());
    Ok(out)
}

/// Whether a frame body (without the outer prefix) is a batch.
pub fn is_batch_body(body: &[u8]) -> (r: bool)
    ensures
        r == spec_is_batch_body(body@),
{
    if body.len() < 8 {
        return false;
    }
    let r = body[0] == BATCH_MAGIC[0] && body[1] == BATCH_MAGIC[1] && body[2] == BATCH_MAGIC[2]
        && body[3] == BATCH_MAGIC[3];
    proof {
        if r {
            assert(body@.subrange(0, 4) =~= batch_magic());
        } else {
            assert(body@.subrange(0, 4) != batch_magic() ==> true);
            if body@.subrange(0, 4) == batch_magic() {
                assert(body@.subrange(0, 4)[0] == body@[0]);
                assert(body@.subrange(0, 4)[1] == body@[1]);
                assert(body@.subrange(0, 4)[2] == body@[2]);
                assert(body@.subrange(0, 4)[3] == body@[3]);
            }
        }
    }
    r
}

/// Splits a framed buffer into the encoded events it carries: the entries of a
/// batch frame in order, or the single event of a plain frame, together with
/// the first structural fault met. Entries read before a fault are returned.
pub fn split_framed_events(buf: &[u8]) -> (r: FramedPayloads)
    ensures
        bytes_views(r.entries@) == spec_split_frame(buf@).0,
        r.fault == spec_split_frame(buf@).1,
{
    if buf.len() < LENGTH_PREFIX_BYTES {
        return FramedPayloads { entries: Vec::new(), fault: Some(FrameFault::TooSmall) };
    }
    let declared = read_be32(buf, 0);
    if declared as usize != buf.len() - LENGTH_PREFIX_BYTES {
        return FramedPayloads { entries: Vec::new(), fault: Some(FrameFault::LengthMismatch) };
    }
    let body = copy_range(buf, LENGTH_PREFIX_BYTES, buf.len());
    if !is_batch_body(body.as_slice()) {
        let mut entries: Vec<Vec<u8>> = Vec::new();
        entries.push(body);
        proof {
            assert(bytes_views(entries@) =~= seq![buf@.subrange(4, buf@.len() as int)]);
        }
        return FramedPayloads { entries, fault: None };
    }
    let count = read_be32(body.as_slice(), 4);
    proof {
        assert(body@.subrange(4, 8) =~= buf@.subrange(4, buf@.len() as int).subrange(4, 8));
    }
    let mut entries: Vec<Vec<u8>> = Vec::new();
    let mut idx: usize = 8;
    let mut i: u32 = 0;
    let ghost total = spec_split_entries(body@, 8, count as nat);
    while i < count
        invariant
            i <= count,
            8 <= idx <= body@.len(),
            total == spec_split_entries(body@, 8, count as nat),
            total == spec_split_frame(buf@),
            total.0 == bytes_views(entries@) + spec_split_entries(body@, idx as int, (count - i) as nat).0,
            total.1 == spec_split_entries(body@, idx as int, (count - i) as nat).1,
        decreases count - i,
    {
        if body.len() - idx < 4 {
            proof {
                assert(spec_split_entries(body@, idx as int, (count - i) as nat).0 =~= Seq::<Seq<u8>>::empty());
                assert(spec_split_entries(body@, idx as int, (count - i) as nat).1 == Some(FrameFault::BadEntryHeader));
                assert(total.0 =~= bytes_views(entries@));
            }
            return FramedPayloads { entries, fault: Some(FrameFault::BadEntryHeader) };
        }
        let len = read_be32(body.as_slice(), idx) as usize;
        if body.len() - idx - 4 < len {
            proof {
                assert(spec_split_entries(body@, idx as int, (count - i) as nat).0 =~= Seq::<Seq<u8>>::empty());
                assert(total.0 =~= bytes_views(entries@));
            }
            return FramedPayloads { entries, fault: Some(FrameFault::BadEntryBoundary) };
        }
        let e = copy_range(body.as_slice(), idx + 4, idx + 4 + len);
        let ghost before = bytes_views(entries@);
        entries.push(e);
        proof {
            assert(bytes_views(entries@) =~= before.push(e@));
            let rest = spec_split_entries(body@, (idx + 4 + len) as int, (count - i - 1) as nat);
            assert(spec_split_entries(body@, idx as int, (count - i) as nat).0 =~= seq![e@] + rest.0);
            assert(before + (seq![e@] + rest.0) =~= before.push(e@) + rest.0);
        }
        idx = idx + 4 + len;
        i = i + 1;
    }
    proof {
        assert(spec_split_entries(body@, idx as int, 0).0 =~= Seq::<Seq<u8>>::empty());
        assert(total.0 =~= bytes_views(entries@));
    }
    FramedPayloads { entries, fault: None }
}


proof fn lemma_split_entries_of(prefix: Seq<u8>, ps: Seq<Seq<u8>>, suffix: Seq<u8>)
    requires
        forall|i: int| 0 <= i < ps.len() ==> ps[i].len() <= u32::MAX,
    ensures
        spec_split_entries(prefix + spec_entries(ps) + suffix, prefix.len() as int, ps.len())
            == (ps, Option::<FrameFault>::None),
    decreases ps.len(),
{
    let body = prefix + spec_entries(ps) + suffix;
    if ps.len() == 0 {
        assert(ps =~= Seq::<Seq<u8>>::empty());
    } else {
        let p = ps[0];
        let idx = prefix.len() as int;
        lemma_be32_roundtrip(p.len() as u32);
        let prefix2 = prefix + spec_frame(p);
        assert(body =~= prefix2 + spec_entries(ps.drop_first()) + suffix);
        assert(body.subrange(idx, idx + 4) =~= be32(p.len() as u32));
        assert(body.subrange(idx + 4, idx + 4 + p.len()) =~= p);
        lemma_split_entries_of(prefix2, ps.drop_first(), suffix);
        assert(seq![p] + ps.drop_first() =~= ps);
    }
}

/// Law: unframing a single frame gives back the event bytes it was built from.
pub proof fn law_single_frame_roundtrip(p: Seq<u8>)
    requires
        p.len() <= u32::MAX,
    ensures
        spec_unframe(spec_frame(p)) == Ok::<Seq<u8>, FrameFault>(p),
{
    lemma_be32_roundtrip(p.len() as u32);
    assert(spec_frame(p).subrange(4, spec_frame(p).len() as int) =~= p);
}

/// Law: splitting a batch frame gives back exactly the event bytes it was built
/// from, in order, with no fault.
pub proof fn law_batch_frame_roundtrip(ps: Seq<Seq<u8>>)
    requires
        ps.len() <= u32::MAX,
        forall|i: int| 0 <= i < ps.len() ==> ps[i].len() <= u32::MAX,
        8 + spec_entries_len(ps) <= u32::MAX,
    ensures
        spec_split_frame(spec_frame(spec_batch_body(ps))) == (ps, Option::<FrameFault>::None),
{
    let body = spec_batch_body(ps);
    lemma_entries_len(ps);
    law_single_frame_roundtrip(body);
    lemma_be32_roundtrip(ps.len() as u32);
    assert(body.subrange(0, 4) =~= batch_magic());
    assert(body.subrange(4, 8) =~= be32(ps.len() as u32));
    let prefix = batch_magic() + be32(ps.len() as u32);
    lemma_split_entries_of(prefix, ps, Seq::empty());
    assert(prefix + spec_entries(ps) + Seq::<u8>::empty() =~= body);
}

/// Law: a plain frame whose event bytes do not look like a batch body splits
/// into that one event.
pub proof fn law_plain_frame_is_one_event(p: Seq<u8>)
    requires
        p.len() <= u32::MAX,
        !spec_is_batch_body(p),
    ensures
        spec_split_frame(spec_frame(p)) == (seq![p], Option::<FrameFault>::None),
{
    law_single_frame_roundtrip(p);
}

} // verus!
