//! Byte layout of control frames and of chunk frames.
//!
//! A control frame is a 4-byte big-endian length followed by the encoded
//! message. A chunk frame is a 4-byte big-endian descriptor length, the encoded
//! [`ChunkDescriptor`](crate::proto::ChunkDescriptor), then the chunk bytes.
use vstd::prelude::*;
use crate::bytes::{be32, be32_value, lemma_be32_roundtrip, push_be32, read_be32, push_all};

verus! {

/// Control-plane frames (manifest, acks, feedback): at most 64 MiB.
pub const MAX_CONTROL_FRAME_BYTES: usize = 67108864;

/// Encoded chunk descriptors: at most 1 MiB.
pub const MAX_CHUNK_DESCRIPTOR_BYTES: usize = 1048576;

/// A frame length outside `1..=max`.
#[derive(Debug, Clone, Copy, PartialEq, Eq, Structural)]
pub struct FrameLenError {
    pub len: usize,
    pub max: usize,
}

/// Accepts a frame length in `1..=max`.
pub fn check_frame_len(len: usize, max: usize) -> (r: Result<(), FrameLenError>)
    ensures
        r is Ok <==> 1 <= len <= max,
        r matches Err(e) ==> e.len == len && e.max == max,
{
    if len == 0 || len > max {
        return Err(FrameLenError { len, max });
    }
    Ok(())
}

/// Control frame bytes: `be32(len) ++ payload`.
pub open spec fn spec_control_frame(payload: Seq<u8>) -> Seq<u8> {
    be32(payload.len() as u32) + payload
}

/// Frames an encoded control message; fails when its length is outside
/// `1..=MAX_CONTROL_FRAME_BYTES`.
pub fn frame_control_message(payload: &[u8]) -> (r: Result<Vec<u8>, FrameLenError>)
    ensures
        1 <= payload@.len() <= MAX_CONTROL_FRAME_BYTES ==> (r matches Ok(v) && v@ == spec_control_frame(payload@)),
        !(1 <= payload@.len() <= MAX_CONTROL_FRAME_BYTES) ==> r == Err::<Vec<u8>, FrameLenError>(
            FrameLenError { len: payload@.len() as usize, max: MAX_CONTROL_FRAME_BYTES },
        ),
{
    match check_frame_len(payload.len(), MAX_CONTROL_FRAME_BYTES) {
        Err(e) => Err(e),
        Ok(()) => {
            let mut out: Vec<u8> = Vec::new();
            push_be32(&mut out, payload.len() as u32);
            push_all(&mut out, payload);
            Ok(out)
        },
    }
}

/// Length announced by a control-frame header; fails when it lies outside
/// `1..=MAX_CONTROL_FRAME_BYTES`.
pub fn control_frame_len(header: [u8; 4]) -> (r: Result<usize, FrameLenError>)
    ensures
        ({
            let n = be32_value(header@);
            &&& (1 <= n <= MAX_CONTROL_FRAME_BYTES ==> r == Ok::<usize, FrameLenError>(n as usize))
            &&& (!(1 <= n <= MAX_CONTROL_FRAME_BYTES) ==> r == Err::<usize, FrameLenError>(
                FrameLenError { len: n as usize, max: MAX_CONTROL_FRAME_BYTES },
            ))
        }),
{
    let n = read_be32(&header, 0) as usize;
    proof {
        assert(header@.subrange(0, 4) =~= header@);
    }
    match check_frame_len(n, MAX_CONTROL_FRAME_BYTES) {
        Err(e) => Err(e),
        Ok(()) => Ok(n),
    }
}

/// Law: the header of a control frame announces exactly the length of the
/// message it frames, and the message follows it.
pub proof fn law_control_frame_roundtrip(payload: Seq<u8>)
    requires
        1 <= payload.len() <= MAX_CONTROL_FRAME_BYTES,
    ensures
        be32_value(spec_control_frame(payload)) == payload.len(),
        spec_control_frame(payload).subrange(4, spec_control_frame(payload).len() as int) == payload,
{
    lemma_be32_roundtrip(payload.len() as u32);
    assert(spec_control_frame(payload).subrange(4, spec_control_frame(payload).len() as int) =~= payload);
}

/// Chunk frame bytes: `be32(desc_len) ++ desc ++ body` (the length truncated to 32 bits).
pub open spec fn spec_wire_frame(desc: Seq<u8>, body: Seq<u8>) -> Seq<u8> {
    be32(desc.len() as u32) + desc + body
}

/// Builds a chunk frame from an encoded descriptor and the chunk bytes.
pub fn assemble_wire_frame(desc: &[u8], body: &[u8]) -> (r: Vec<u8>)
    ensures
        r@ == spec_wire_frame(desc@, body@),
{
    let mut out: Vec<u8> = Vec::new();
    push_be32(&mut out, desc.len() as u32);
    push_all(&mut out, desc);
    push_all(&mut out, body);
    proof {
        assert(out@ =~= spec_wire_frame(desc@, body@));
    }
    out
}

/// Why a chunk frame cannot be read.
#[derive(Debug, Clone, Copy, PartialEq, Eq, Structural)]
pub enum WireError {
    /// Fewer than four bytes: no room for the descriptor length.
    TruncatedStream,
    /// The descriptor length lies outside `1..=MAX_CHUNK_DESCRIPTOR_BYTES`.
    DescriptorLength(FrameLenError),
    /// The descriptor runs past the end of the frame.
    TruncatedDescriptor,
    /// The chunk bytes run past the end of the frame.
    TruncatedBody,
    /// The chunk is larger than the manifest allows.
    PayloadTooLarge { index: u64, is_parity: bool },
}

/// Descriptor length of a chunk frame, or why it cannot be read.
pub open spec fn spec_framed_descriptor_len(wire: Seq<u8>) -> Result<usize, WireError> {
    if wire.len() < 4 {
        Err(WireError::TruncatedStream)
    } else {
        let n = be32_value(wire) as usize;
        if n == 0 || n > MAX_CHUNK_DESCRIPTOR_BYTES {
            Err(WireError::DescriptorLength(FrameLenError { len: n, max: MAX_CHUNK_DESCRIPTOR_BYTES }))
        } else if wire.len() < 4 + n {
            Err(WireError::TruncatedDescriptor)
        } else {
            Ok(n)
        }
    }
}

/// Reads the header of a chunk frame: on success the encoded descriptor
/// occupies `wire[4..4 + n]` for the returned `n`.
pub fn framed_descriptor_len(wire: &[u8]) -> (r: Result<usize, WireError>)
    ensures
        r == spec_framed_descriptor_len(wire@),
{
    if wire.len() < 4 {
        return Err(WireError::TruncatedStream);
    }
    let n = read_be32(wire, 0) as usize;
    proof {
        assert(wire@.subrange(0, 4)[0] == wire@[0]);
        assert(be32_value(wire@.subrange(0, 4)) == be32_value(wire@));
    }
    match check_frame_len(n, MAX_CHUNK_DESCRIPTOR_BYTES) {
        Err(e) => Err(WireError::DescriptorLength(e)),
        Ok(()) => {
            if wire.len() - 4 < n {
                Err(WireError::TruncatedDescriptor)
            } else {
                Ok(n)
            }
        },
    }
}

/// Bounds `[start, end)` of the chunk bytes of a frame with descriptor length
/// `desc_len` and declared body size `compressed_size`.
pub fn chunk_body_range(wire_len: usize, desc_len: usize, compressed_size: u32) -> (r: Result<(usize, usize), WireError>)
    requires
        4 + desc_len <= wire_len,
    ensures
        4 + desc_len + compressed_size <= wire_len ==> r == Ok::<(usize, usize), WireError>(
            ((4 + desc_len) as usize, (4 + desc_len + compressed_size) as usize),
        ),
        4 + desc_len + compressed_size > wire_len ==> r == Err::<(usize, usize), WireError>(WireError::TruncatedBody),
{
    let start = 4 + desc_len;
    if wire_len - start < compressed_size as usize {
        Err(WireError::TruncatedBody)
    } else {
        Ok((start, start + compressed_size as usize))
    }
}

/// Largest chunk body a receiver accepts for a manifest chunk size:
/// four chunks, and never less than 64 KiB.
pub fn max_chunk_body(chunk_size: u32) -> (r: usize)
    ensures
        ({
            let b = if 4 * chunk_size > usize::MAX { usize::MAX as int } else { 4 * chunk_size };
            r == if b > 65536 { b } else { 65536 }
        }),
{
    let c = chunk_size as usize;
    let b = if c > usize::MAX / 4 { usize::MAX } else { c * 4 };
    if b > 65536 { b } else { 65536 }
}

/// Law: reading back a chunk frame finds the descriptor and the chunk bytes it
/// was assembled from.
pub proof fn law_wire_frame_roundtrip(desc: Seq<u8>, body: Seq<u8>)
    requires
        1 <= desc.len() <= MAX_CHUNK_DESCRIPTOR_BYTES,
    ensures
        spec_framed_descriptor_len(spec_wire_frame(desc, body)) == Ok::<usize, WireError>(desc.len() as usize),
        spec_wire_frame(desc, body).subrange(4, 4 + desc.len() as int) == desc,
        spec_wire_frame(desc, body).subrange(4 + desc.len() as int, 4 + desc.len() as int + body.len() as int) == body,
{
    lemma_be32_roundtrip(desc.len() as u32);
    let w = spec_wire_frame(desc, body);
    assert(w.subrange(0, 4) =~= be32(desc.len() as u32));
    assert(be32_value(w) == be32_value(w.subrange(0, 4)));
    assert(w.subrange(4, 4 + desc.len() as int) =~= desc);
    assert(w.subrange(4 + desc.len() as int, 4 + desc.len() as int + body.len() as int) =~= body);
}

} // verus!
