//! Sender-side planning: the transfer id, the chunk grid over the file, the
//! chunk frames and data packets, delta skipping and retransmission choices.
use vstd::prelude::*;
use std::collections::HashSet;
use crate::compression::{maybe_compress, spec_maybe_compress, CompressionError};
use crate::descriptor::{encode_chunk_descriptor, spec_descriptor_bytes};
use crate::digest::{blake3_digest, blake3_hash, digest_eq};
use crate::packet::{Packet, PacketId, PacketMeta, PacketView};
use crate::proto::{ChunkDescriptor, CompressionType};
use crate::protocol::{assemble_wire_frame, spec_wire_frame};
use crate::bytes::push_all;
use vstd::string::StringSliceAdditionalSpecFns;

verus! {

broadcast use vstd::std_specs::hash::group_hash_axioms;

/// Little-endian bytes of `x`.
pub open spec fn le64(x: u64) -> Seq<u8> {
    seq![x as u8, (x >> 8u64) as u8, (x >> 16u64) as u8, (x >> 24u64) as u8,
        (x >> 32u64) as u8, (x >> 40u64) as u8, (x >> 48u64) as u8, (x >> 56u64) as u8]
}

/// Transfer id: the first 16 bytes of the BLAKE3 hash of the file name, the
/// little-endian file size and the file checksum.
pub open spec fn spec_transfer_id(filename: Seq<u8>, total_size: u64, checksum: Seq<u8>) -> Seq<u8> {
    blake3_digest(filename + le64(total_size) + checksum).take(16)
}

/// Derives the transfer id from the file name, size and checksum.
pub fn derive_transfer_id(filename: &str, total_size: u64, checksum: &[u8; 32]) -> (r: [u8; 16])
    ensures
        r@ == spec_transfer_id(filename.spec_bytes(), total_size, checksum@),
{
    let mut buf: Vec<u8> = Vec::new();
    push_all(&mut buf, filename.as_bytes());
    let x = total_size;
    buf.push(x as u8);
    buf.push((x >> 8u64) as u8);
    buf.push((x >> 16u64) as u8);
    buf.push((x >> 24u64) as u8);
    buf.push((x >> 32u64) as u8);
    buf.push((x >> 40u64) as u8);
    buf.push((x >> 48u64) as u8);
    buf.push((x >> 56u64) as u8);
    push_all(&mut buf, checksum);
    proof {
        assert(buf@ =~= filename.spec_bytes() + le64(total_size) + checksum@);
    }
    let d = blake3_hash(buf.as_slice());
    proof {
        assert(d@.len() == 32);
    }
    let r = [d[0], d[1], d[2], d[3], d[4], d[5], d[6], d[7], d[8], d[9], d[10], d[11], d[12], d[13], d[14], d[15]];
    proof {
        assert(r@ =~= d@.take(16));
    }
    r
}

/// Number of chunks of `chunk_size` bytes covering `total_size` bytes.
pub open spec fn spec_num_chunks(total_size: u64, chunk_size: usize) -> int {
    (total_size + chunk_size - 1) / (chunk_size as int)
}

/// Number of chunks the file is cut into.
pub fn num_chunks(total_size: u64, chunk_size: usize) -> (r: u64)
    requires
        chunk_size > 0,
    ensures
        r == spec_num_chunks(total_size, chunk_size),
{
    let c = chunk_size as u64;
    let q = total_size / c;
    let rem = total_size % c;
    proof {
        assert(total_size == c * q + rem) by (nonlinear_arith)
            requires
                q == total_size / c,
                rem == total_size % c,
                c > 0;
        assert((total_size + c - 1) / (c as int) == if rem > 0 { q + 1 } else { q as int }) by (nonlinear_arith)
            requires
                total_size == c * q + rem,
                0 <= rem < c,
                c > 0;
        assert(rem > 0 ==> q < u64::MAX) by (nonlinear_arith)
            requires
                total_size == c * q + rem,
                0 <= rem < c,
                total_size <= u64::MAX;
    }
    if rem > 0 { q + 1 } else { q }
}

/// Byte offset of chunk `idx`.
pub open spec fn spec_chunk_offset(idx: u64, chunk_size: usize) -> int {
    idx * chunk_size
}

/// Length of chunk `idx`: the rest of the file, at most `chunk_size` bytes;
/// zero past the end.
pub open spec fn spec_chunk_len(idx: u64, total_size: u64, chunk_size: usize) -> usize {
    let off = spec_chunk_offset(idx, chunk_size);
    if off >= total_size {
        0
    } else {
        let rest = ((total_size - off) as u64) as usize;
        if rest < chunk_size { rest } else { chunk_size }
    }
}

/// Length of chunk `idx` of a file of `total_size` bytes.
pub fn chunk_len(idx: u64, total_size: u64, chunk_size: usize) -> (r: usize)
    requires
        idx * chunk_size <= u64::MAX,
    ensures
        r == spec_chunk_len(idx, total_size, chunk_size),
{
    let off = idx * chunk_size as u64;
    if off >= total_size {
        return 0;
    }
    let rest = (total_size - off) as usize;
    if rest < chunk_size { rest } else { chunk_size }
}

/// The descriptor of data chunk `idx` carrying `body` (the wire bytes) for
/// `raw` bytes of the file.
pub open spec fn data_descriptor(idx: u64, chunk_size: usize, data_shards: usize, raw_len: nat, body: Seq<u8>, checksum: [u8; 32]) -> ChunkDescriptor {
    let ds: usize = if data_shards == 0 { 1 } else { data_shards };
    ChunkDescriptor {
        index: idx,
        offset: (idx * chunk_size) as u64,
        compressed_size: body.len() as u32,
        uncompressed_size: raw_len as u32,
        checksum,
        was_compressed: body.len() < raw_len,
        is_parity: false,
        parity_index: 0,
        fec_group: idx / (ds as u64),
    }
}

/// The frame of data chunk `idx`: its descriptor, then the chunk as it goes on
/// the wire.
pub open spec fn is_data_frame(frame: Seq<u8>, idx: u64, chunk_size: usize, data_shards: usize, raw: Seq<u8>, body: Seq<u8>) -> bool {
    exists|c: [u8; 32]| c@ == blake3_digest(body)
        && frame == spec_wire_frame(spec_descriptor_bytes(data_descriptor(idx, chunk_size, data_shards, raw.len(), body, c)), body)
}

/// Frames chunk `idx`: compresses it when that pays (see
/// [`maybe_compress`]) and puts its descriptor in front.
pub fn frame_chunk(
    idx: u64,
    chunk_raw: &[u8],
    compression: &CompressionType,
    chunk_size: usize,
    data_shards: usize,
) -> (r: Result<Vec<u8>, CompressionError>)
    requires
        idx * chunk_size <= u64::MAX,
    ensures
        spec_maybe_compress(chunk_raw@, *compression) is None ==> r is Err,
        spec_maybe_compress(chunk_raw@, *compression) matches Some(body)
            ==> (r matches Ok(v) && is_data_frame(v@, idx, chunk_size, data_shards, chunk_raw@, body)),
{
    let chunk = match maybe_compress(chunk_raw, compression) {
        Ok(c) => c,
        Err(e) => return Err(e),
    };
    let was_compressed = chunk.len() < chunk_raw.len();
    let ds: u64 = if data_shards == 0 { 1 } else { data_shards as u64 };
    let off = idx * chunk_size as u64;
    let checksum = blake3_hash(chunk.as_slice());
    let desc = ChunkDescriptor {
        index: idx,
        offset: off,
        compressed_size: chunk.len() as u32,
        uncompressed_size: chunk_raw.len() as u32,
        checksum,
        was_compressed,
        is_parity: false,
        parity_index: 0,
        fec_group: idx / ds,
    };
    let desc_bytes = encode_chunk_descriptor(&desc);
    let out = assemble_wire_frame(desc_bytes.as_slice(), chunk.as_slice());
    proof {
        assert(desc == data_descriptor(idx, chunk_size, data_shards, chunk_raw@.len(), chunk@, checksum));
    }
    Ok(out)
}

/// The data packet of chunk `idx`: the first two chunks go out at priority
/// 240, the others at `priority`; the group is the chunk's FEC block.
pub open spec fn spec_data_packet(idx: u64, payload: Seq<u8>, chunk_len: usize, data_shards: usize, priority: u8, deadline_ms: u64) -> PacketView {
    let ds: usize = if data_shards == 0 { 1 } else { data_shards };
    PacketView {
        id: idx,
        seq: idx,
        payload,
        is_parity: false,
        meta: PacketMeta { id: idx, priority: if idx < 2 { 240 } else { priority }, deadline: Some(deadline_ms), size: chunk_len },
        fec_group: idx / (ds as u64),
        reconstructable: false,
        parity_index: 0,
    }
}

/// Wraps a chunk frame into the data packet the pipeline schedules.
/// `deadline_ms` is the wall-clock instant by which it should arrive.
pub fn make_data_packet(idx: u64, payload: Vec<u8>, chunk_len: usize, data_shards: usize, priority: u8, deadline_ms: u64) -> (r: Packet)
    ensures
        r@ == spec_data_packet(idx, payload@, chunk_len, data_shards, priority, deadline_ms),
{
    let ds: u64 = if data_shards == 0 { 1 } else { data_shards as u64 };
    Packet {
        id: PacketId(idx),
        seq: idx,
        payload,
        is_parity: false,
        meta: PacketMeta { id: idx, priority: if idx < 2 { 240 } else { priority }, deadline: Some(deadline_ms), size: chunk_len },
        fec_group: idx / ds,
        reconstructable: false,
        parity_index: 0,
    }
}

/// Whether a chunk the receiver already holds can be skipped: the receiver
/// reported a hash (all zero means none), the local chunk is not empty and
/// its BLAKE3 hash equals the reported one.
pub open spec fn spec_delta_skip(raw: Seq<u8>, receiver_hash: Seq<u8>) -> bool {
    receiver_hash != Seq::new(32, |i: int| 0u8) && raw.len() > 0 && blake3_digest(raw) == receiver_hash
}

/// Decides whether the local chunk `raw` matches the receiver's copy.
pub fn chunk_matches_receiver(raw: &[u8], receiver_hash: &[u8; 32]) -> (r: bool)
    ensures
        r == spec_delta_skip(raw@, receiver_hash@),
{
    let zero = [0u8; 32];
    let is_zero = digest_eq(receiver_hash, &zero);
    proof {
        assert(zero@ =~= Seq::new(32, |i: int| 0u8));
    }
    if is_zero {
        return false;
    }
    if raw.len() == 0 {
        return false;
    }
    let h = blake3_hash(raw);
    digest_eq(&h, receiver_hash)
}

/// Of `reported`, in order, those neither skipped nor retransmitted before,
/// each once.
pub open spec fn fresh_picks(reported: Seq<u64>, skip: Set<u64>, done: Set<u64>) -> Seq<u64>
    decreases reported.len(),
{
    if reported.len() == 0 {
        Seq::empty()
    } else {
        let prev = fresh_picks(reported.drop_last(), skip, done);
        let x = reported.last();
        if skip.contains(x) || done.contains(x) || prev.contains(x) { prev } else { prev.push(x) }
    }
}

/// Missing chunks reported by the receiver that are retransmitted now: the
/// fresh ones among the first eight reported.
pub open spec fn spec_nack_picks(missing: Seq<u64>, skip: Set<u64>, done: Set<u64>) -> Seq<u64> {
    fresh_picks(missing.take(if missing.len() > 8 { 8 } else { missing.len() as int }), skip, done)
}

/// Picks the chunks to retransmit for a receiver's missing list, and records
/// them as retransmitted.
pub fn nack_retransmit_picks(missing: &[u64], skip: &HashSet<u64>, retransmitted: &mut HashSet<u64>) -> (r: Vec<u64>)
    ensures
        r@ == spec_nack_picks(missing@, skip@, old(retransmitted)@),
        final(retransmitted)@ == old(retransmitted)@ + r@.to_set(),
{
    let ghost done0 = retransmitted@;
    let limit: usize = if missing.len() > 8 { 8 } else { missing.len() };
    let mut out: Vec<u64> = Vec::new();
    let mut i: usize = 0;
    while i < limit
        invariant
            i <= limit <= missing@.len(),
            limit <= 8,
            out@ == fresh_picks(missing@.take(i as int), skip@, done0),
            retransmitted@ == done0 + out@.to_set(),
        decreases limit - i,
    {
        let x = missing[i];
        let ghost prev = out@;
        proof {
            assert(missing@.take(i + 1).drop_last() =~= missing@.take(i as int));
        }
        if !skip.contains(&x) && !retransmitted.contains(&x) {
            proof {
                assert(!prev.contains(x));
            }
            retransmitted.insert(x);
            out.push(x);
            proof {
                prev.lemma_push_to_set_commute(x);
                assert(out@ == prev.push(x));
                assert(out@.to_set() =~= prev.to_set().insert(x));
                assert(retransmitted@ =~= done0 + out@.to_set());
            }
        } else {
            proof {
                if !skip@.contains(x) && !done0.contains(x) {
                    assert(prev.to_set().contains(x));
                    assert(prev.contains(x));
                }
            }
        }
        i = i + 1;
    }
    out
}

/// Whether a chunk of the first FEC group is skipped (the receiver has it).
pub open spec fn first_group_gap(data_shards: usize, skip: Set<u64>) -> bool {
    exists|i: u64| i < data_shards && #[trigger] skip.contains(i)
}

/// The parity shards a transfer may add: none when a chunk of the first FEC
/// group is skipped, since that group is not sent whole; otherwise the
/// manifest's parity.
pub fn parity_cap_for(data_shards: usize, manifest_parity: usize, skip: &HashSet<u64>) -> (r: usize)
    ensures
        r == if first_group_gap(data_shards, skip@) { 0 } else { manifest_parity },
{
    let n = data_shards as u64;
    let mut i: u64 = 0;
    while i < n
        invariant
            i <= n,
            n == data_shards,
            forall|j: u64| j < i ==> !skip@.contains(j),
        decreases n - i,
    {
        if skip.contains(&i) {
            return 0;
        }
        i = i + 1;
    }
    manifest_parity
}

} // verus!
