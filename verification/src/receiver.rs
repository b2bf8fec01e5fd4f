//! Receiver-side handling of chunk frames: reading and checking a frame,
//! deciding what to write to the partial file, collecting the shards of each
//! FEC group and recovering lost data shards from them.
//!
//! The file itself is written by the caller: each step returns the
//! [`ChunkWrite`]s it decided on.
use vstd::prelude::*;
use std::collections::{HashMap, HashSet};
use crate::bytes::copy_range;
use crate::compression::{maybe_decompress, spec_maybe_decompress};
use crate::descriptor::{decode_chunk_descriptor, spec_decoded_descriptor};
use crate::digest::{blake3_digest, blake3_hash, digest_eq};
use crate::proto::{ChunkDescriptor, CompressionType, TransferManifest};
use crate::protocol::{framed_descriptor_len, spec_framed_descriptor_len, max_chunk_body, WireError};
use crate::sat::{sat_u64, sat_mul_u64};
use crate::erasure::{rs_accepts_shape, rs_shape_ok, opt_rows_view, count_present, present_uniform, reconstruct_accepts, rs_recovered_data, rs_reconstruct_data, is_erasure_of};
use crate::fec::{pad_to, zeros};

verus! {

broadcast use vstd::std_specs::hash::group_hash_axioms;

/// Bytes to write into the partial output file at `offset`.
pub struct ChunkWrite {
    pub offset: u64,
    pub bytes: Vec<u8>,
}

/// Why a chunk frame was refused.
#[derive(Debug, Clone, Copy, PartialEq, Eq, Structural)]
pub enum IngestError {
    /// The frame's layout is broken.
    Wire(WireError),
    /// The descriptor bytes do not decode.
    UndecodableDescriptor,
    /// A parity shard does not match its checksum.
    ParityChecksumMismatch { fec_group: u64, parity_index: usize },
    /// A data chunk does not match its checksum.
    ChunkChecksumMismatch { index: u64 },
    /// A compressed chunk does not decompress.
    Decompress,
}

/// The descriptor of a chunk frame and its encoded length, or why the frame
/// cannot be read.
pub open spec fn spec_parse_frame(wire: Seq<u8>) -> Result<(ChunkDescriptor, usize), IngestError> {
    match spec_framed_descriptor_len(wire) {
        Err(e) => Err(IngestError::Wire(e)),
        Ok(n) => match spec_decoded_descriptor(wire.subrange(4, 4 + n)) {
            None => Err(IngestError::UndecodableDescriptor),
            Some(d) => Ok((d, n)),
        },
    }
}

/// Reads the header of a chunk frame: its descriptor, where the descriptor
/// starts and how long it is.
pub fn parse_framed_header(wire: &[u8]) -> (r: Result<(ChunkDescriptor, usize, usize), IngestError>)
    ensures
        match spec_parse_frame(wire@) {
            Ok((d, n)) => r == Ok::<(ChunkDescriptor, usize, usize), IngestError>((d, 4usize, n)),
            Err(e) => r == Err::<(ChunkDescriptor, usize, usize), IngestError>(e),
        },
{
    match framed_descriptor_len(wire) {
        Err(e) => Err(IngestError::Wire(e)),
        Ok(n) => {
            let desc_bytes = copy_range(wire, 4, 4 + n);
            match decode_chunk_descriptor(desc_bytes.as_slice()) {
                None => Err(IngestError::UndecodableDescriptor),
                Some(d) => Ok((d, 4, n)),
            }
        },
    }
}

/// The chunk index a frame announces.
pub fn peek_framed_chunk_index(wire: &[u8]) -> (r: Result<u64, IngestError>)
    ensures
        match spec_parse_frame(wire@) {
            Ok((d, n)) => r == Ok::<u64, IngestError>(d.index),
            Err(e) => r == Err::<u64, IngestError>(e),
        },
{
    if wire.len() < 4 {
        return Err(IngestError::Wire(WireError::TruncatedStream));
    }
    match parse_framed_header(wire) {
        Ok((d, _, _)) => Ok(d.index),
        Err(e) => Err(e),
    }
}

/// What persisting a data frame decides: refuse it, skip it, or write the
/// chunk `(index, offset, bytes)`.
pub open spec fn spec_persist(wire: Seq<u8>, compression: CompressionType, received: Set<u64>, verify: bool)
    -> Result<Option<(u64, u64, Seq<u8>)>, IngestError>
{
    match spec_parse_frame(wire) {
        Err(e) => Err(e),
        Ok((d, n)) => {
            let start = 4 + n;
            let end = start + d.compressed_size;
            if d.is_parity {
                Ok(None)
            } else if end > wire.len() {
                Err(IngestError::Wire(WireError::TruncatedBody))
            } else {
                let payload = wire.subrange(start, end);
                if verify && d.checksum@ != blake3_digest(payload) {
                    Err(IngestError::ChunkChecksumMismatch { index: d.index })
                } else if received.contains(d.index) {
                    Ok(None)
                } else if d.was_compressed {
                    match spec_maybe_decompress(payload, compression) {
                        None => Err(IngestError::Decompress),
                        Some(b) => Ok(Some((d.index, d.offset, b))),
                    }
                } else {
                    Ok(Some((d.index, d.offset, payload)))
                }
            }
        },
    }
}

/// The chunk indices received after persisting a frame.
pub open spec fn received_after(received: Set<u64>, outcome: Result<Option<(u64, u64, Seq<u8>)>, IngestError>) -> Set<u64> {
    match outcome {
        Ok(Some(w)) => received.insert(w.0),
        _ => received,
    }
}

/// `r` carries the outcome `o` of persisting a frame.
pub open spec fn persist_result_is(r: Result<Option<ChunkWrite>, IngestError>, o: Result<Option<(u64, u64, Seq<u8>)>, IngestError>) -> bool {
    match o {
        Err(e) => r == Err::<Option<ChunkWrite>, IngestError>(e),
        Ok(None) => r matches Ok(None),
        Ok(Some(w)) => r matches Ok(Some(cw)) && cw.offset == w.1 && cw.bytes@ == w.2,
    }
}

/// Checks a data frame and decides what to write: nothing for a parity
/// frame or a chunk already received, otherwise the chunk's bytes
/// (decompressed when the descriptor says so) at its offset, after which the
/// chunk counts as received.
pub fn persist_framed_chunk(
    wire: &[u8],
    manifest: &TransferManifest,
    received_chunks: &mut HashSet<u64>,
    verify_checksums: bool,
) -> (r: Result<Option<ChunkWrite>, IngestError>)
    ensures
        persist_result_is(r, spec_persist(wire@, manifest.compression, old(received_chunks)@, verify_checksums)),
        final(received_chunks)@ == received_after(old(received_chunks)@,
            spec_persist(wire@, manifest.compression, old(received_chunks)@, verify_checksums)),
{
    let (desc, prefix, desc_len) = match parse_framed_header(wire) {
        Ok(t) => t,
        Err(e) => return Err(e),
    };
    if desc.is_parity {
        return Ok(None);
    }
    let payload_off = prefix + desc_len;
    if wire.len() - payload_off < desc.compressed_size as usize {
        return Err(IngestError::Wire(WireError::TruncatedBody));
    }
    let payload_end = payload_off + desc.compressed_size as usize;
    let wire_payload = copy_range(wire, payload_off, payload_end);
    if verify_checksums {
        let got = blake3_hash(wire_payload.as_slice());
        if !digest_eq(&got, &desc.checksum) {
            return Err(IngestError::ChunkChecksumMismatch { index: desc.index });
        }
    }
    if received_chunks.contains(&desc.index) {
        return Ok(None);
    }
    let bytes = if desc.was_compressed {
        match maybe_decompress(wire_payload.as_slice(), &manifest.compression) {
            Ok(b) => b,
            Err(_) => return Err(IngestError::Decompress),
        }
    } else {
        wire_payload
    };
    received_chunks.insert(desc.index);
    Ok(Some(ChunkWrite { offset: desc.offset, bytes }))
}

/// Chunk index held by data slot `slot` of group `g`.
pub open spec fn slot_chunk_index(g: u64, data_shards: usize, slot: int) -> u64 {
    let ds = if data_shards == 0 { 1 } else { data_shards };
    sat_u64(sat_u64(g * ds) + slot)
}

/// Data slot `slot` of group `g` is neither received nor held in the group.
pub open spec fn slot_missing(group: Seq<Option<Seq<u8>>>, g: u64, data_shards: usize, slot: int, received: Set<u64>) -> bool {
    &&& !received.contains(slot_chunk_index(g, data_shards, slot))
    &&& (slot >= group.len() || group[slot] is None)
}

/// The missing data slots among the first `k`, in increasing order.
pub open spec fn missing_slots(group: Seq<Option<Seq<u8>>>, g: u64, data_shards: usize, k: nat, received: Set<u64>) -> Seq<usize>
    decreases k,
{
    if k == 0 {
        Seq::empty()
    } else {
        let rest = missing_slots(group, g, data_shards, (k - 1) as nat, received);
        if slot_missing(group, g, data_shards, k - 1, received) { rest.push((k - 1) as usize) } else { rest }
    }
}

/// Data slots of `fec_group` that are absent on the wire and not yet persisted.
pub fn fec_missing_data_slots(
    group: &[Option<Vec<u8>>],
    manifest: &TransferManifest,
    fec_group: u64,
    received_chunks: &HashSet<u64>,
) -> (r: Vec<usize>)
    ensures
        r@ == missing_slots(opt_rows_view(group@), fec_group, manifest.data_shards, manifest.data_shards as nat, received_chunks@),
{
    let ds: u64 = if manifest.data_shards == 0 { 1 } else { manifest.data_shards as u64 };
    let base = sat_mul_u64(fec_group, ds);
    let mut out: Vec<usize> = Vec::new();
    let mut slot: usize = 0;
    while slot < manifest.data_shards
        invariant
            slot <= manifest.data_shards,
            base == sat_u64(fec_group * (if manifest.data_shards == 0 { 1usize } else { manifest.data_shards })),
            out@ == missing_slots(opt_rows_view(group@), fec_group, manifest.data_shards, slot as nat, received_chunks@),
        decreases manifest.data_shards - slot,
    {
        let chunk_idx = base.saturating_add(slot as u64);
        let held = slot < group.len() && group[slot].is_some();
        if !received_chunks.contains(&chunk_idx) && !held {
            out.push(slot);
        }
        slot = slot + 1;
    }
    out
}

/// A group can go to the decoder: it has one slot per shard, at least one
/// data shard and at least `data_shards` shards in all.
pub open spec fn spec_recovery_ready(group: Seq<Option<Seq<u8>>>, data_shards: usize, parity_shards: usize) -> bool {
    &&& group.len() == data_shards + parity_shards
    &&& count_present(group.take(data_shards as int)) > 0
    &&& count_present(group) >= data_shards
}

fn count_present_upto(group: &[Option<Vec<u8>>], k: usize) -> (r: usize)
    requires
        k <= group@.len(),
    ensures
        r == count_present(opt_rows_view(group@).take(k as int)),
{
    let ghost g = opt_rows_view(group@);
    let mut c: usize = 0;
    let mut i: usize = 0;
    while i < k
        invariant
            i <= k <= group@.len(),
            g == opt_rows_view(group@),
            c == count_present(g.take(i as int)),
            c <= i,
        decreases k - i,
    {
        proof {
            assert(g.take(i + 1).drop_last() =~= g.take(i as int));
        }
        if group[i].is_some() {
            c = c + 1;
        }
        i = i + 1;
    }
    c
}

/// True when the decoder can run: one slot per shard, at least one data shard
/// present and at least `data_shards` shards present in all.
pub fn fec_recovery_ready(group: &[Option<Vec<u8>>], manifest: &TransferManifest) -> (r: bool)
    requires
        manifest.data_shards + manifest.parity_shards <= usize::MAX,
    ensures
        r == spec_recovery_ready(opt_rows_view(group@), manifest.data_shards, manifest.parity_shards),
{
    let total = manifest.data_shards + manifest.parity_shards;
    if group.len() != total {
        return false;
    }
    let data_present = count_present_upto(group, manifest.data_shards);
    if data_present == 0 {
        return false;
    }
    let all = count_present_upto(group, group.len());
    proof {
        assert(opt_rows_view(group@).take(group@.len() as int) =~= opt_rows_view(group@));
    }
    all >= manifest.data_shards
}


/// Longest present shard of a group (0 when none is present).
pub open spec fn max_present_len(s: Seq<Option<Seq<u8>>>) -> nat
    decreases s.len(),
{
    if s.len() == 0 {
        0
    } else {
        let m = max_present_len(s.drop_last());
        match s.last() {
            Some(v) => if v.len() > m { v.len() } else { m },
            None => m,
        }
    }
}

/// Each present shard zero-padded to `len`.
pub open spec fn pad_group(s: Seq<Option<Seq<u8>>>, len: nat) -> Seq<Option<Seq<u8>>> {
    s.map_values(|o: Option<Seq<u8>>| match o { Some(v) => Some(pad_to(v, len)), None => None })
}

/// The shard sets of the FEC groups, by group.
pub open spec fn groups_view(m: Map<u64, Vec<Option<Vec<u8>>>>) -> Map<u64, Seq<Option<Seq<u8>>>> {
    m.map_values(|g: Vec<Option<Vec<u8>>>| opt_rows_view(g@))
}

/// Progress of recovery over the missing slots: the error met, if any; the
/// writes decided, as `(offset, bytes)`; the chunks received; whether some
/// recovered chunk was accepted.
pub type RecoverProgress = (Option<IngestError>, Seq<(u64, Seq<u8>)>, Set<u64>, bool);

/// One recovered slot: its row must be a frame of the slot's chunk, which is
/// then persisted like a received one.
pub open spec fn recover_step(st: RecoverProgress, slot: usize, rows: Seq<Seq<u8>>, g: u64, data_shards: usize, compression: CompressionType, verify: bool) -> RecoverProgress {
    if st.0 is Some {
        st
    } else {
        let bytes = rows[slot as int];
        match spec_parse_frame(bytes) {
            Err(_) => st,
            Ok((d, _)) => if d.index != slot_chunk_index(g, data_shards, slot as int) {
                st
            } else {
                match spec_persist(bytes, compression, st.2, verify) {
                    Err(e) => (Some(e), st.1, st.2, st.3),
                    Ok(None) => (None, st.1, st.2, true),
                    Ok(Some(w)) => (None, st.1.push((w.1, w.2)), st.2.insert(w.0), true),
                }
            },
        }
    }
}

/// Recovery over `slots` in order, starting from the chunks `received`.
pub open spec fn recover_fold(slots: Seq<usize>, rows: Seq<Seq<u8>>, g: u64, data_shards: usize, compression: CompressionType, verify: bool, received: Set<u64>) -> RecoverProgress
    decreases slots.len(),
{
    if slots.len() == 0 {
        (None, Seq::empty(), received, false)
    } else {
        recover_step(recover_fold(slots.drop_last(), rows, g, data_shards, compression, verify, received), slots.last(), rows, g, data_shards, compression, verify)
    }
}

/// The present shards of group `g`, zero-padded to the longest of them.
pub open spec fn padded_group(groups: Map<u64, Seq<Option<Seq<u8>>>>, g: u64) -> Seq<Option<Seq<u8>>> {
    pad_group(groups[g], max_present_len(groups[g]))
}

/// What an attempt to recover group `g` gives when decoding yields the data
/// rows `rows`: the writes or the error, the chunks received afterwards, and
/// the groups afterwards (a group whose data slots are all accounted for
/// after a recovery is dropped).
pub open spec fn recover_outcome(
    groups: Map<u64, Seq<Option<Seq<u8>>>>,
    g: u64,
    data_shards: usize,
    parity_shards: usize,
    compression: CompressionType,
    verify: bool,
    received: Set<u64>,
    rows: Seq<Seq<u8>>,
) -> (Result<Seq<(u64, Seq<u8>)>, IngestError>, Set<u64>, Map<u64, Seq<Option<Seq<u8>>>>) {
    let unchanged = (Ok(Seq::empty()), received, groups);
    if !groups.contains_key(g) {
        unchanged
    } else {
        let group = groups[g];
        let missing = missing_slots(group, g, data_shards, data_shards as nat, received);
        if missing.len() == 0 || !spec_recovery_ready(group, data_shards, parity_shards) {
            unchanged
        } else {
            let len = max_present_len(group);
            let padded = pad_group(group, len);
            if len == 0 || !reconstruct_accepts(data_shards as nat, parity_shards as nat, padded) {
                unchanged
            } else {
                let st = recover_fold(missing, rows, g, data_shards, compression, verify, received);
                match st.0 {
                    Some(e) => (Err(e), st.2, groups),
                    None => (Ok(st.1), st.2,
                        if st.3 && missing_slots(group, g, data_shards, data_shards as nat, st.2).len() == 0 {
                            groups.remove(g)
                        } else {
                            groups
                        }),
                }
            }
        }
    }
}

/// What an attempt to recover group `g` gives: decoding fills in the data
/// rows that the codec recovers from the padded shards.
pub open spec fn spec_try_recover(
    groups: Map<u64, Seq<Option<Seq<u8>>>>,
    g: u64,
    data_shards: usize,
    parity_shards: usize,
    compression: CompressionType,
    verify: bool,
    received: Set<u64>,
) -> (Result<Seq<(u64, Seq<u8>)>, IngestError>, Set<u64>, Map<u64, Seq<Option<Seq<u8>>>>) {
    recover_outcome(groups, g, data_shards, parity_shards, compression, verify, received,
        rs_recovered_data(data_shards as nat, parity_shards as nat, padded_group(groups, g)))
}

proof fn lemma_recover_fold_rows(
    slots: Seq<usize>,
    rows1: Seq<Seq<u8>>,
    rows2: Seq<Seq<u8>>,
    g: u64,
    data_shards: usize,
    compression: CompressionType,
    verify: bool,
    received: Set<u64>,
)
    requires
        forall|k: int| 0 <= k < slots.len() ==> rows1[#[trigger] slots[k] as int] == rows2[slots[k] as int],
    ensures
        recover_fold(slots, rows1, g, data_shards, compression, verify, received)
            == recover_fold(slots, rows2, g, data_shards, compression, verify, received),
    decreases slots.len(),
{
    if slots.len() > 0 {
        let t = slots.drop_last();
        assert forall|k: int| 0 <= k < t.len() implies rows1[#[trigger] t[k] as int] == rows2[t[k] as int] by {
            assert(t[k] == slots[k]);
        }
        lemma_recover_fold_rows(t, rows1, rows2, g, data_shards, compression, verify, received);
        assert(slots[slots.len() - 1] == slots.last());
    }
}

/// The `(offset, bytes)` of each write.
pub open spec fn writes_view(v: Seq<ChunkWrite>) -> Seq<(u64, Seq<u8>)> {
    v.map_values(|w: ChunkWrite| (w.offset, w.bytes@))
}

proof fn lemma_max_present_len(s: Seq<Option<Seq<u8>>>, i: int)
    requires
        0 <= i < s.len(),
        s[i] is Some,
    ensures
        s[i]->0.len() <= max_present_len(s),
    decreases s.len(),
{
    if i < s.len() - 1 {
        lemma_max_present_len(s.drop_last(), i);
    }
}

proof fn lemma_pad_group_count(s: Seq<Option<Seq<u8>>>, len: nat)
    ensures
        count_present(pad_group(s, len)) == count_present(s),
        pad_group(s, len).len() == s.len(),
    decreases s.len(),
{
    if s.len() > 0 {
        lemma_pad_group_count(s.drop_last(), len);
        assert(pad_group(s, len).drop_last() =~= pad_group(s.drop_last(), len));
    }
}

proof fn lemma_missing_slots_elems(group: Seq<Option<Seq<u8>>>, g: u64, data_shards: usize, k: nat, received: Set<u64>)
    requires
        k <= usize::MAX,
    ensures
        forall|j: int| 0 <= j < missing_slots(group, g, data_shards, k, received).len() ==> {
            let s = #[trigger] missing_slots(group, g, data_shards, k, received)[j];
            s < k && slot_missing(group, g, data_shards, s as int, received)
        },
        missing_slots(group, g, data_shards, k, received).len() <= k,
    decreases k,
{
    if k > 0 {
        lemma_missing_slots_elems(group, g, data_shards, (k - 1) as nat, received);
        let rest = missing_slots(group, g, data_shards, (k - 1) as nat, received);
        let all = missing_slots(group, g, data_shards, k, received);
        assert forall|j: int| 0 <= j < all.len() implies {
            let s = #[trigger] all[j];
            s < k && slot_missing(group, g, data_shards, s as int, received)
        } by {
            if j < rest.len() {
                assert(all[j] == rest[j]);
                let s = rest[j];
                assert(s < k - 1 && slot_missing(group, g, data_shards, s as int, received));
            } else {
                assert(slot_missing(group, g, data_shards, k - 1, received));
                assert(all[j] == (k - 1) as usize);
            }
        }
    }
}

proof fn lemma_recover_fold_error_sticks(slots: Seq<usize>, j: int, rows: Seq<Seq<u8>>, g: u64, data_shards: usize, compression: CompressionType, verify: bool, received: Set<u64>)
    requires
        0 <= j <= slots.len(),
        recover_fold(slots.take(j), rows, g, data_shards, compression, verify, received).0 is Some,
    ensures
        recover_fold(slots, rows, g, data_shards, compression, verify, received)
            == recover_fold(slots.take(j), rows, g, data_shards, compression, verify, received),
    decreases slots.len() - j,
{
    if j < slots.len() {
        assert(slots.drop_last().take(j) =~= slots.take(j));
        lemma_recover_fold_error_sticks(slots.drop_last(), j, rows, g, data_shards, compression, verify, received);
    } else {
        assert(slots.take(j) =~= slots);
    }
}

fn max_present_len_of(group: &Vec<Option<Vec<u8>>>) -> (r: usize)
    ensures
        r == max_present_len(opt_rows_view(group@)),
{
    let ghost gv = opt_rows_view(group@);
    let mut m: usize = 0;
    let mut i: usize = 0;
    while i < group.len()
        invariant
            i <= group@.len(),
            gv == opt_rows_view(group@),
            m == max_present_len(gv.take(i as int)),
        decreases group@.len() - i,
    {
        proof {
            assert(gv.take(i + 1).drop_last() =~= gv.take(i as int));
        }
        match &group[i] {
            Some(v) => {
                if v.len() > m {
                    m = v.len();
                }
            },
            None => {},
        }
        i = i + 1;
    }
    proof {
        assert(gv.take(group@.len() as int) =~= gv);
    }
    m
}

fn pad_shard(v: &Vec<u8>, len: usize) -> (r: Vec<u8>)
    requires
        v@.len() <= len,
    ensures
        r@ == pad_to(v@, len as nat),
{
    let mut r: Vec<u8> = Vec::new();
    let mut i: usize = 0;
    while i < v.len()
        invariant
            i <= v@.len(),
            r@ == v@.take(i as int),
        decreases v@.len() - i,
    {
        r.push(v[i]);
        i = i + 1;
        proof {
            assert(r@ =~= v@.take(i as int));
        }
    }
    proof {
        assert(v@.take(v@.len() as int) =~= v@);
        assert(r@ =~= v@ + zeros(0));
    }
    while r.len() < len
        invariant
            v@.len() <= r@.len() <= len,
            r@ == v@ + zeros((r@.len() - v@.len()) as nat),
        decreases len - r@.len(),
    {
        r.push(0u8);
        proof {
            assert(r@ =~= v@ + zeros((r@.len() - v@.len()) as nat));
        }
    }
    r
}

fn pad_present(group: &Vec<Option<Vec<u8>>>, len: usize) -> (r: Vec<Option<Vec<u8>>>)
    requires
        len == max_present_len(opt_rows_view(group@)),
    ensures
        opt_rows_view(r@) == pad_group(opt_rows_view(group@), len as nat),
{
    let ghost gv = opt_rows_view(group@);
    let mut out: Vec<Option<Vec<u8>>> = Vec::new();
    let mut i: usize = 0;
    while i < group.len()
        invariant
            i <= group@.len(),
            gv == opt_rows_view(group@),
            len == max_present_len(gv),
            opt_rows_view(out@) == pad_group(gv, len as nat).take(i as int),
        decreases group@.len() - i,
    {
        let ghost before = out@;
        let item: Option<Vec<u8>> = match &group[i] {
            Some(v) => {
                proof {
                    lemma_max_present_len(gv, i as int);
                }
                Some(pad_shard(v, len))
            },
            None => None,
        };
        let ghost iv = match item { Some(ref v) => Some(v@), None => None };
        out.push(item);
        proof {
            assert(out@ =~= before.push(item));
            assert(opt_rows_view(out@) =~= opt_rows_view(before).push(iv));
            assert(opt_rows_view(out@) =~= pad_group(gv, len as nat).take(i + 1));
        }
        i = i + 1;
    }
    proof {
        assert(pad_group(gv, len as nat).take(group@.len() as int) =~= pad_group(gv, len as nat));
    }
    out
}

/// Tries to recover the lost data chunks of `fec_group`. When data slots are
/// missing and enough shards are present, the present shards are padded to a
/// common length and decoded; every recovered row that is a frame of its
/// slot's chunk is persisted like a received frame. A group whose data slots
/// are all accounted for after a recovery is dropped.
#[verifier::loop_isolation(false)]
pub fn try_fec_group_recover(
    fec_group: u64,
    fec_groups: &mut HashMap<u64, Vec<Option<Vec<u8>>>>,
    manifest: &TransferManifest,
    received_chunks: &mut HashSet<u64>,
    verify_checksums: bool,
) -> (r: Result<Vec<ChunkWrite>, IngestError>)
    requires
        manifest.data_shards + manifest.parity_shards <= usize::MAX,
    ensures
        ({
            let out = spec_try_recover(groups_view(old(fec_groups)@), fec_group, manifest.data_shards,
                manifest.parity_shards, manifest.compression, verify_checksums, old(received_chunks)@);
            &&& match out.0 {
                Ok(ws) => r matches Ok(v) && writes_view(v@) == ws,
                Err(e) => r == Err::<Vec<ChunkWrite>, IngestError>(e),
            }
            &&& final(received_chunks)@ == out.1
            &&& groups_view(final(fec_groups)@) == out.2
        }),
        // When the shards kept are an erasure of the encoding of data rows
        // `data`, the lost chunks are recovered from `data` itself.
        forall|data: Seq<Seq<u8>>| #[trigger] is_erasure_of(manifest.data_shards as nat, manifest.parity_shards as nat,
            padded_group(groups_view(old(fec_groups)@), fec_group), data)
            ==> spec_try_recover(groups_view(old(fec_groups)@), fec_group, manifest.data_shards, manifest.parity_shards,
                manifest.compression, verify_checksums, old(received_chunks)@)
                == recover_outcome(groups_view(old(fec_groups)@), fec_group, manifest.data_shards, manifest.parity_shards,
                manifest.compression, verify_checksums, old(received_chunks)@, data),
{
    let ghost gm = groups_view(fec_groups@);
    let ghost rec0 = received_chunks@;
    let group: &Vec<Option<Vec<u8>>> = match fec_groups.get(&fec_group) {
        None => {
            return Ok(Vec::new());
        },
        Some(g) => g,
    };
    let ghost gv = opt_rows_view(group@);
    proof {
        assert(gm.contains_key(fec_group));
        assert(gm[fec_group] == gv);
    }
    let missing = fec_missing_data_slots(group.as_slice(), manifest, fec_group, received_chunks);
    if missing.len() == 0 || !fec_recovery_ready(group.as_slice(), manifest) {
        return Ok(Vec::new());
    }
    let max_len = max_present_len_of(group);
    if max_len == 0 {
        return Ok(Vec::new());
    }
    let mut shards = pad_present(group, max_len);
    let ghost padded = opt_rows_view(shards@);
    proof {
        lemma_pad_group_count(gv, max_len as nat);
    }
    let n = manifest.data_shards;
    let p = manifest.parity_shards;
    if !rs_reconstruct_data(n, p, &mut shards) {
        return Ok(Vec::new());
    }
    let ghost rows = rs_recovered_data(n as nat, p as nat, padded);
    let ghost comp = manifest.compression;
    proof {
        lemma_missing_slots_elems(gv, fec_group, n, n as nat, rec0);
        assert forall|data: Seq<Seq<u8>>| #[trigger] is_erasure_of(n as nat, p as nat, padded_group(gm, fec_group), data)
            implies spec_try_recover(gm, fec_group, n, p, manifest.compression, verify_checksums, rec0)
                == recover_outcome(gm, fec_group, n, p, manifest.compression, verify_checksums, rec0, data) by {
            assert(padded_group(gm, fec_group) == padded);
            let ms = missing_slots(gv, fec_group, n, n as nat, rec0);
            assert forall|k: int| 0 <= k < ms.len() implies rows[#[trigger] ms[k] as int] == data[ms[k] as int] by {
                assert(ms[k] == missing@[k]);
            }
            lemma_recover_fold_rows(ms, rows, data, fec_group, n, manifest.compression, verify_checksums, rec0);
        }
    }
    let ds: u64 = if n == 0 { 1 } else { n as u64 };
    let base = sat_mul_u64(fec_group, ds);
    let mut writes: Vec<ChunkWrite> = Vec::new();
    let mut recovered_any = false;
    let mut k: usize = 0;
    while k < missing.len()
        invariant
            k <= missing@.len(),
            missing@ == missing_slots(gv, fec_group, n, n as nat, rec0),
            forall|j: int| 0 <= j < missing@.len() ==> {
                let s = #[trigger] missing@[j];
                s < n && slot_missing(gv, fec_group, n, s as int, rec0)
            },
            gv.len() == n + p,
            shards@.len() == n + p,
            padded.len() == n + p,
            forall|i: int| 0 <= i < n && (#[trigger] padded[i]) is None ==> opt_rows_view(shards@)[i] == Some(rows[i]),
            forall|i: int| 0 <= i < gv.len() ==> (#[trigger] padded[i] is None) == (gv[i] is None),
            base == sat_u64(fec_group * (if n == 0 { 1usize } else { n })),
            comp == manifest.compression,
            ({
                let st = recover_fold(missing@.take(k as int), rows, fec_group, n, comp, verify_checksums, rec0);
                &&& st.0 is None
                &&& writes_view(writes@) == st.1
                &&& received_chunks@ == st.2
                &&& recovered_any == st.3
            }),
        decreases missing@.len() - k,
    {
        let slot = missing[k];
        let ghost st = recover_fold(missing@.take(k as int), rows, fec_group, n, comp, verify_checksums, rec0);
        proof {
            assert(missing@.take(k + 1).drop_last() =~= missing@.take(k as int));
            assert(missing@.take(k + 1).last() == slot);
            assert(gv[slot as int] is None);
            assert(padded[slot as int] is None);
            assert(opt_rows_view(shards@)[slot as int] == Some(rows[slot as int]));
        }
        let chunk_idx = base.saturating_add(slot as u64);
        match &shards[slot] {
            None => {
                proof {
                    assert(false);
                }
            },
            Some(bytes) => {
                proof {
                    assert(bytes@ == rows[slot as int]);
                }
                match peek_framed_chunk_index(bytes.as_slice()) {
                    Err(_) => {},
                    Ok(ri) => {
                        if ri == chunk_idx {
                            let ghost wb = writes@;
                            match persist_framed_chunk(bytes.as_slice(), manifest, received_chunks, verify_checksums) {
                                Err(e) => {
                                    proof {
                                        lemma_recover_fold_error_sticks(missing@, k + 1, rows, fec_group, n, comp, verify_checksums, rec0);
                                    }
                                    return Err(e);
                                },
                                Ok(w) => {
                                    match w {
                                        Some(cw) => {
                                            let ghost cwv = (cw.offset, cw.bytes@);
                                            writes.push(cw);
                                            proof {
                                                assert(writes_view(writes@) =~= writes_view(wb).push(cwv));
                                            }
                                        },
                                        None => {},
                                    }
                                    recovered_any = true;
                                },
                            }
                        }
                    },
                }
            },
        }
        k = k + 1;
    }
    proof {
        assert(missing@.take(missing@.len() as int) =~= missing@);
    }
    if recovered_any {
        let still = fec_missing_data_slots(group.as_slice(), manifest, fec_group, received_chunks);
        if still.len() == 0 {
            fec_groups.remove(&fec_group);
            proof {
                assert(groups_view(fec_groups@) =~= gm.remove(fec_group));
            }
        }
    }
    Ok(writes)
}


/// The frame's FEC group and the writes an ingested frame led to.
pub struct IngestOutcome {
    pub fec_group: u64,
    pub writes: Vec<ChunkWrite>,
}

/// The shard slots of group `g`: those held so far, or `total` empty slots.
pub open spec fn group_or_new(groups: Map<u64, Seq<Option<Seq<u8>>>>, g: u64, total: nat) -> Seq<Option<Seq<u8>>> {
    if groups.contains_key(g) { groups[g] } else { Seq::new(total, |i: int| None) }
}

/// `group` with slot `i` holding `v`, when there is such a slot.
pub open spec fn store_slot(group: Seq<Option<Seq<u8>>>, i: int, v: Seq<u8>) -> Seq<Option<Seq<u8>>> {
    if 0 <= i < group.len() { group.update(i, Some(v)) } else { group }
}

/// Largest chunk body the receiver accepts: four chunks, at least 64 KiB.
pub open spec fn spec_max_body(chunk_size: u32) -> int {
    let b = if 4 * chunk_size > usize::MAX { usize::MAX as int } else { 4 * chunk_size };
    if b > 65536 { b } else { 65536 }
}

/// The result of recovery folded into an ingest result.
pub open spec fn after_recovery(
    g: u64,
    before: Seq<(u64, Seq<u8>)>,
    rec: (Result<Seq<(u64, Seq<u8>)>, IngestError>, Set<u64>, Map<u64, Seq<Option<Seq<u8>>>>),
) -> (Result<(u64, Seq<(u64, Seq<u8>)>), IngestError>, Set<u64>, Map<u64, Seq<Option<Seq<u8>>>>) {
    match rec.0 {
        Err(e) => (Err(e), rec.1, rec.2),
        Ok(ws) => (Ok((g, before + ws)), rec.1, rec.2),
    }
}

/// What ingesting a chunk frame gives: its group and the writes decided, or
/// the error; the chunks received afterwards; the FEC groups afterwards.
pub open spec fn spec_ingest(
    wire: Seq<u8>,
    manifest: TransferManifest,
    fec_enabled: bool,
    verify: bool,
    lost: Set<u64>,
    received: Set<u64>,
    groups: Map<u64, Seq<Option<Seq<u8>>>>,
) -> (Result<(u64, Seq<(u64, Seq<u8>)>), IngestError>, Set<u64>, Map<u64, Seq<Option<Seq<u8>>>>) {
    let ds = manifest.data_shards;
    let ps = manifest.parity_shards;
    let total = (ds + ps) as nat;
    match spec_parse_frame(wire) {
        Err(e) => (Err(e), received, groups),
        Ok((d, n)) => {
            let start = 4 + n;
            let end = start + d.compressed_size;
            let g = d.fec_group;
            if d.compressed_size > spec_max_body(manifest.chunk_size) {
                (Err(IngestError::Wire(WireError::PayloadTooLarge { index: d.index, is_parity: d.is_parity })), received, groups)
            } else if end > wire.len() {
                (Err(IngestError::Wire(WireError::TruncatedBody)), received, groups)
            } else if d.is_parity {
                let payload = wire.subrange(start, end);
                if !fec_enabled {
                    (Ok((g, Seq::empty())), received, groups)
                } else if verify && d.checksum@ != blake3_digest(payload) {
                    (Err(IngestError::ParityChecksumMismatch { fec_group: g, parity_index: d.parity_index }), received, groups)
                } else {
                    let pi = sat_usize_add(d.parity_index, ds);
                    let groups1 = groups.insert(g, store_slot(group_or_new(groups, g, total), pi as int, payload));
                    after_recovery(g, Seq::empty(),
                        spec_try_recover(groups1, g, ds, ps, manifest.compression, verify, received))
                }
            } else if lost.contains(d.index) {
                (Ok((g, Seq::empty())), received, groups)
            } else {
                let o = spec_persist(wire, manifest.compression, received, verify);
                match o {
                    Err(e) => (Err(e), received, groups),
                    Ok(w) => {
                        let received1 = received_after(received, o);
                        let writes1: Seq<(u64, Seq<u8>)> = match w { Some(t) => seq![(t.1, t.2)], None => Seq::empty() };
                        let base = sat_u64(g * (if ds == 0 { 1usize } else { ds }));
                        let slot = (if d.index >= base { d.index - base } else { 0 }) as usize;
                        if fec_enabled && slot < ds {
                            let groups1 = groups.insert(g, store_slot(group_or_new(groups, g, total), slot as int, wire));
                            after_recovery(g, writes1,
                                spec_try_recover(groups1, g, ds, ps, manifest.compression, verify, received1))
                        } else {
                            (Ok((g, writes1)), received1, groups)
                        }
                    },
                }
            }
        },
    }
}

/// `a + b`, or `usize::MAX` when the sum does not fit.
pub open spec fn sat_usize_add(a: usize, b: usize) -> usize {
    if a + b > usize::MAX { usize::MAX } else { (a + b) as usize }
}

fn empty_slots(total: usize) -> (r: Vec<Option<Vec<u8>>>)
    ensures
        opt_rows_view(r@) == Seq::new(total as nat, |i: int| None::<Seq<u8>>),
{
    let mut r: Vec<Option<Vec<u8>>> = Vec::new();
    while r.len() < total
        invariant
            r@.len() <= total,
            opt_rows_view(r@) == Seq::new(r@.len(), |i: int| None::<Seq<u8>>),
        decreases total - r@.len(),
    {
        let ghost before = r@;
        r.push(None);
        proof {
            assert(r@ =~= before.push(None));
            assert forall|i: int| 0 <= i < r@.len() implies #[trigger] opt_rows_view(r@)[i] == None::<Seq<u8>> by {
                if i < before.len() {
                    assert(opt_rows_view(before)[i] == Seq::new(before.len(), |i: int| None::<Seq<u8>>)[i]);
                    assert(r@[i] == before[i]);
                }
            }
            assert(opt_rows_view(r@) =~= Seq::new(r@.len(), |i: int| None::<Seq<u8>>));
        }
    }
    r
}

/// Puts `v` into slot `slot` of group `g`, creating the group with `total`
/// empty slots when it does not exist yet.
fn store_in_group(
    fec_groups: &mut HashMap<u64, Vec<Option<Vec<u8>>>>,
    g: u64,
    total: usize,
    slot: usize,
    v: Vec<u8>,
)
    ensures
        groups_view(final(fec_groups)@) == groups_view(old(fec_groups)@).insert(g,
            store_slot(group_or_new(groups_view(old(fec_groups)@), g, total as nat), slot as int, v@)),
{
    let ghost gm = groups_view(fec_groups@);
    let mut group = match fec_groups.remove(&g) {
        Some(x) => x,
        None => empty_slots(total),
    };
    proof {
        assert(opt_rows_view(group@) == group_or_new(gm, g, total as nat));
    }
    let ghost before = group@;
    let ghost vv = v@;
    if slot < group.len() {
        group.set(slot, Some(v));
        proof {
            assert(opt_rows_view(group@) =~= opt_rows_view(before).update(slot as int, Some(vv)));
        }
    }
    let ghost ng = group;
    fec_groups.insert(g, group);
    proof {
        assert(groups_view(fec_groups@) =~= gm.insert(g, opt_rows_view(ng@)));
    }
}

/// Handles one chunk frame. Parity shards are checked and stored in their
/// group (ignored when FEC is off); data chunks not marked lost are
/// persisted and, when FEC is on, stored in their group's data slot. Either
/// way a recovery of the group is attempted afterwards.
pub fn ingest_wire_frame(
    wire: &[u8],
    manifest: &TransferManifest,
    received_chunks: &mut HashSet<u64>,
    fec_groups: &mut HashMap<u64, Vec<Option<Vec<u8>>>>,
    fec_enabled: bool,
    verify_checksums: bool,
    simulate_lost: &HashSet<u64>,
) -> (r: Result<IngestOutcome, IngestError>)
    requires
        fec_enabled ==> rs_shape_ok(manifest.data_shards as nat, manifest.parity_shards as nat),
    ensures
        ({
            let out = spec_ingest(wire@, *manifest, fec_enabled, verify_checksums, simulate_lost@,
                old(received_chunks)@, groups_view(old(fec_groups)@));
            &&& match out.0 {
                Ok((g, ws)) => r matches Ok(o) && o.fec_group == g && writes_view(o.writes@) == ws,
                Err(e) => r == Err::<IngestOutcome, IngestError>(e),
            }
            &&& final(received_chunks)@ == out.1
            &&& groups_view(final(fec_groups)@) == out.2
        }),
{
    let (desc, _prefix, desc_len) = match parse_framed_header(wire) {
        Ok(t) => t,
        Err(e) => return Err(e),
    };
    let max_body = max_chunk_body(manifest.chunk_size);
    if desc.compressed_size as usize > max_body {
        return Err(IngestError::Wire(WireError::PayloadTooLarge { index: desc.index, is_parity: desc.is_parity }));
    }
    let payload_off = 4 + desc_len;
    if wire.len() - payload_off < desc.compressed_size as usize {
        return Err(IngestError::Wire(WireError::TruncatedBody));
    }
    let payload_end = payload_off + desc.compressed_size as usize;
    let g = desc.fec_group;
    if desc.is_parity {
        if !fec_enabled {
            return Ok(IngestOutcome { fec_group: g, writes: Vec::new() });
        }
        let payload = copy_range(wire, payload_off, payload_end);
        if verify_checksums {
            let got = blake3_hash(payload.as_slice());
            if !digest_eq(&got, &desc.checksum) {
                return Err(IngestError::ParityChecksumMismatch { fec_group: g, parity_index: desc.parity_index });
            }
        }
        let total = manifest.data_shards + manifest.parity_shards;
        let pi = desc.parity_index.saturating_add(manifest.data_shards);
        store_in_group(fec_groups, g, total, pi, payload);
        return match try_fec_group_recover(g, fec_groups, manifest, received_chunks, verify_checksums) {
            Err(e) => Err(e),
            Ok(ws) => {
                proof {
                    assert(Seq::<(u64, Seq<u8>)>::empty() + writes_view(ws@) =~= writes_view(ws@));
                }
                Ok(IngestOutcome { fec_group: g, writes: ws })
            },
        };
    }
    if simulate_lost.contains(&desc.index) {
        return Ok(IngestOutcome { fec_group: g, writes: Vec::new() });
    }
    let mut writes: Vec<ChunkWrite> = Vec::new();
    match persist_framed_chunk(wire, manifest, received_chunks, verify_checksums) {
        Err(e) => return Err(e),
        Ok(w) => {
            match w {
                Some(cw) => {
                    writes.push(cw);
                },
                None => {},
            }
        },
    }
    let ghost w1 = writes_view(writes@);
    if fec_enabled {
        let ds: u64 = if manifest.data_shards == 0 { 1 } else { manifest.data_shards as u64 };
        let base = sat_mul_u64(g, ds);
        let slot = desc.index.saturating_sub(base) as usize;
        if slot < manifest.data_shards {
            let total = manifest.data_shards + manifest.parity_shards;
            let copy = copy_range(wire, 0, wire.len());
            proof {
                assert(copy@ =~= wire@);
            }
            store_in_group(fec_groups, g, total, slot, copy);
            match try_fec_group_recover(g, fec_groups, manifest, received_chunks, verify_checksums) {
                Err(e) => {
                    return Err(e);
                },
                Ok(ws) => {
                    let ghost wv = writes_view(ws@);
                    let mut ws = ws;
                    let mut all = writes;
                    let ghost a0 = writes_view(all@);
                    all.append(&mut ws);
                    proof {
                        assert(writes_view(all@) =~= a0 + wv);
                    }
                    return Ok(IngestOutcome { fec_group: g, writes: all });
                },
            }
        }
    }
    Ok(IngestOutcome { fec_group: g, writes })
}


/// FEC dimensions a manifest announces that the codec refuses.
#[derive(Debug, Clone, Copy, PartialEq, Eq, Structural)]
pub struct FecShapeError {
    pub data_shards: usize,
    pub parity_shards: usize,
}

/// Whether the receiver runs Reed–Solomon recovery for a manifest: only when
/// it announces data and parity shards, and then only for a shape the codec
/// accepts (any other shape is an error).
pub fn fec_enabled_for(manifest: &TransferManifest) -> (r: Result<bool, FecShapeError>)
    requires
        manifest.parity_shards > 0 && manifest.data_shards > 0 ==> manifest.data_shards + manifest.parity_shards <= usize::MAX,
    ensures
        !(manifest.parity_shards > 0 && manifest.data_shards > 0) ==> r == Ok::<bool, FecShapeError>(false),
        manifest.parity_shards > 0 && manifest.data_shards > 0 ==> (
            if rs_shape_ok(manifest.data_shards as nat, manifest.parity_shards as nat) {
                r == Ok::<bool, FecShapeError>(true)
            } else {
                r == Err::<bool, FecShapeError>(FecShapeError { data_shards: manifest.data_shards, parity_shards: manifest.parity_shards })
            }),
        r == Ok::<bool, FecShapeError>(true) ==> rs_shape_ok(manifest.data_shards as nat, manifest.parity_shards as nat),
{
    if manifest.parity_shards > 0 && manifest.data_shards > 0 {
        if rs_accepts_shape(manifest.data_shards, manifest.parity_shards) {
            Ok(true)
        } else {
            Err(FecShapeError { data_shards: manifest.data_shards, parity_shards: manifest.parity_shards })
        }
    } else {
        Ok(false)
    }
}

/// Streams the receiver accepts before giving up on missing chunks: one per
/// chunk, one per expected parity shard, and 256 more for duplicates.
pub open spec fn spec_max_streams(total_chunks: usize, data_shards: usize, parity_shards: usize) -> int {
    let ds = if data_shards == 0 { 1 } else { data_shards as int };
    let groups = (total_chunks + ds - 1) / ds;
    let parity = if groups * parity_shards > usize::MAX { usize::MAX as int } else { groups * parity_shards };
    let a = if total_chunks + parity > usize::MAX { usize::MAX as int } else { total_chunks + parity };
    if a + 256 > usize::MAX { usize::MAX as int } else { a + 256 }
}

/// Upper bound on data streams accepted for a transfer of `total_chunks`
/// chunks.
pub fn max_streams(total_chunks: usize, data_shards: usize, parity_shards: usize) -> (r: usize)
    ensures
        r == spec_max_streams(total_chunks, data_shards, parity_shards),
{
    let ds: usize = if data_shards == 0 { 1 } else { data_shards };
    let q = total_chunks / ds;
    proof {
        assert(total_chunks == ds * q + total_chunks % ds) by (nonlinear_arith)
            requires
                q == total_chunks / ds,
                ds > 0;
        assert(total_chunks % ds > 0 ==> q < usize::MAX) by (nonlinear_arith)
            requires
                total_chunks == ds * q + total_chunks % ds,
                0 <= total_chunks % ds < ds,
                total_chunks <= usize::MAX;
    }
    let groups = if total_chunks % ds > 0 { q + 1 } else { q };
    proof {
        assert((total_chunks + ds - 1) / (ds as int) == groups) by (nonlinear_arith)
            requires
                total_chunks == ds * q + total_chunks % ds,
                0 <= total_chunks % ds < ds,
                groups == (if total_chunks % ds > 0 { q + 1 } else { q as int }),
                ds > 0;
    }
    let parity = groups.checked_mul(parity_shards).unwrap_or(usize::MAX);
    total_chunks.saturating_add(parity).saturating_add(256)
}

/// The resume state is written after each of the first 32 chunks, after
/// every 32nd chunk, and when the last chunk arrived.
pub fn resume_state_due(received: usize, total_chunks: usize) -> (r: bool)
    ensures
        r == (received == total_chunks || received <= 32 || received % 32 == 0),
{
    received == total_chunks || received <= 32 || received % 32 == 0
}

/// Feedback period in chunks: the configured value, 8 by default, at least 1.
pub fn feedback_every(configured: Option<u64>) -> (r: u64)
    ensures
        r == match configured { Some(v) => if v < 1 { 1 } else { v }, None => 8 },
{
    let v = match configured {
        Some(v) => v,
        None => 8,
    };
    if v < 1 { 1 } else { v }
}

/// A feedback frame goes out once some chunks arrived and their count is a
/// multiple of the period.
pub fn feedback_due(received: usize, every: u64) -> (r: bool)
    requires
        every >= 1,
    ensures
        r == (received > 0 && (received as u64) % every == 0),
{
    received > 0 && (received as u64) % every == 0
}

/// Decoding delay the receiver reports: 20 ms for chunks above 1 MiB, else 8 ms.
pub fn decode_delay_ms(chunk_size: u32) -> (r: u32)
    ensures
        r == if chunk_size > 1048576 { 20u32 } else { 8u32 },
{
    if chunk_size > 1048576 { 20 } else { 8 }
}

/// Most missing chunk indices one feedback frame reports.
pub const MAX_REPORTED_MISSING: usize = 64;

/// The missing chunk indices among the first `k`, in increasing order.
pub open spec fn missing_upto(received: Set<u64>, k: nat) -> Seq<u64>
    decreases k,
{
    if k == 0 {
        Seq::empty()
    } else {
        let rest = missing_upto(received, (k - 1) as nat);
        if received.contains((k - 1) as u64) { rest } else { rest.push((k - 1) as u64) }
    }
}

/// The first `cap` chunk indices below `num_chunks` that have not arrived,
/// in increasing order.
pub open spec fn spec_missing_chunks(received: Set<u64>, num_chunks: u64, cap: nat) -> Seq<u64> {
    let all = missing_upto(received, num_chunks as nat);
    if all.len() > cap { all.take(cap as int) } else { all }
}

proof fn lemma_missing_upto_prefix(received: Set<u64>, k: nat, j: nat)
    requires
        j <= k,
    ensures
        missing_upto(received, j).len() <= missing_upto(received, k).len(),
        missing_upto(received, k).take(missing_upto(received, j).len() as int) == missing_upto(received, j),
    decreases k - j,
{
    if j < k {
        lemma_missing_upto_prefix(received, (k - 1) as nat, j);
        let r = missing_upto(received, (k - 1) as nat);
        let m = missing_upto(received, j);
        if !received.contains((k - 1) as u64) {
            assert(r.push((k - 1) as u64).take(m.len() as int) =~= r.take(m.len() as int));
        }
    }
}

/// Chunk indices to report as missing in a feedback frame: the first 64 that
/// have not arrived, smallest first.
pub fn missing_chunk_indices(num_chunks: u64, received_chunks: &HashSet<u64>) -> (r: Vec<u64>)
    ensures
        r@ == spec_missing_chunks(received_chunks@, num_chunks, MAX_REPORTED_MISSING as nat),
{
    let mut out: Vec<u64> = Vec::new();
    let mut i: u64 = 0;
    while i < num_chunks && out.len() < MAX_REPORTED_MISSING
        invariant
            i <= num_chunks,
            out@.len() <= MAX_REPORTED_MISSING,
            out@ == missing_upto(received_chunks@, i as nat),
        decreases num_chunks - i,
    {
        if !received_chunks.contains(&i) {
            out.push(i);
        }
        i = i + 1;
    }
    proof {
        lemma_missing_upto_prefix(received_chunks@, num_chunks as nat, i as nat);
        if out@.len() >= MAX_REPORTED_MISSING {
            assert(out@.len() == MAX_REPORTED_MISSING);
        } else {
            assert(i == num_chunks);
        }
    }
    out
}

/// Law: the missing list is strictly increasing, holds only chunks that did
/// not arrive, and has at most 64 entries.
pub proof fn law_missing_list_sorted_and_capped(received: Set<u64>, num_chunks: u64)
    ensures
        spec_missing_chunks(received, num_chunks, MAX_REPORTED_MISSING as nat).len() <= MAX_REPORTED_MISSING,
        forall|a: int, b: int| 0 <= a < b < spec_missing_chunks(received, num_chunks, MAX_REPORTED_MISSING as nat).len()
            ==> spec_missing_chunks(received, num_chunks, MAX_REPORTED_MISSING as nat)[a]
                < spec_missing_chunks(received, num_chunks, MAX_REPORTED_MISSING as nat)[b],
        forall|a: int| 0 <= a < spec_missing_chunks(received, num_chunks, MAX_REPORTED_MISSING as nat).len()
            ==> !received.contains(#[trigger] spec_missing_chunks(received, num_chunks, MAX_REPORTED_MISSING as nat)[a])
                && spec_missing_chunks(received, num_chunks, MAX_REPORTED_MISSING as nat)[a] < num_chunks,
{
    lemma_missing_upto_props(received, num_chunks as nat);
}

proof fn lemma_missing_upto_props(received: Set<u64>, k: nat)
    requires
        k <= u64::MAX + 1,
    ensures
        forall|a: int, b: int| 0 <= a < b < missing_upto(received, k).len()
            ==> missing_upto(received, k)[a] < missing_upto(received, k)[b],
        forall|a: int| 0 <= a < missing_upto(received, k).len()
            ==> !received.contains(#[trigger] missing_upto(received, k)[a]) && missing_upto(received, k)[a] < k,
    decreases k,
{
    if k > 0 {
        lemma_missing_upto_props(received, (k - 1) as nat);
        let r = missing_upto(received, (k - 1) as nat);
        let m = missing_upto(received, k);
        if !received.contains((k - 1) as u64) {
            assert forall|a: int| 0 <= a < m.len() implies !received.contains(#[trigger] m[a]) && m[a] < k by {
                if a < r.len() {
                    assert(m[a] == r[a]);
                }
            }
            assert forall|a: int, b: int| 0 <= a < b < m.len() implies m[a] < m[b] by {
                assert(m[a] == r[a]);
                if b < r.len() {
                    assert(m[b] == r[b]);
                } else {
                    assert(r[a] < k - 1);
                }
            }
        }
    }
}


/// Lower-case hexadecimal digit of `n` (below 16).
pub open spec fn hex_digit(n: int) -> char {
    if n < 10 { (48 + n) as char } else { (87 + n) as char }
}

/// Two lower-case hexadecimal digits per byte.
pub open spec fn hex_of(s: Seq<u8>) -> Seq<char>
    decreases s.len(),
{
    if s.len() == 0 {
        Seq::empty()
    } else {
        hex_of(s.drop_last()) + seq![hex_digit((s.last() / 16) as int), hex_digit((s.last() % 16) as int)]
    }
}

pub(crate) fn hex_digit_str(n: u8) -> (r: &'static str)
    requires
        n < 16,
    ensures
        r@ == seq![hex_digit(n as int)],
{
    match n {
        0 => {
            proof {
                reveal_strlit("0");
            }
            "0"
        },
        1 => {
            proof {
                reveal_strlit("1");
            }
            "1"
        },
        2 => {
            proof {
                reveal_strlit("2");
            }
            "2"
        },
        3 => {
            proof {
                reveal_strlit("3");
            }
            "3"
        },
        4 => {
            proof {
                reveal_strlit("4");
            }
            "4"
        },
        5 => {
            proof {
                reveal_strlit("5");
            }
            "5"
        },
        6 => {
            proof {
                reveal_strlit("6");
            }
            "6"
        },
        7 => {
            proof {
                reveal_strlit("7");
            }
            "7"
        },
        8 => {
            proof {
                reveal_strlit("8");
            }
            "8"
        },
        9 => {
            proof {
                reveal_strlit("9");
            }
            "9"
        },
        10 => {
            proof {
                reveal_strlit("a");
            }
            "a"
        },
        11 => {
            proof {
                reveal_strlit("b");
            }
            "b"
        },
        12 => {
            proof {
                reveal_strlit("c");
            }
            "c"
        },
        13 => {
            proof {
                reveal_strlit("d");
            }
            "d"
        },
        14 => {
            proof {
                reveal_strlit("e");
            }
            "e"
        },
        15 => {
            proof {
                reveal_strlit("f");
            }
            "f"
        },
        _ => {
            proof {
                reveal_strlit("f");
            }
            "f"
        },
    }
}

/// The transfer id as 32 lower-case hexadecimal digits, as it appears in the
/// names of partial and state files.
pub fn hex_transfer_id(id: [u8; 16]) -> (r: String)
    ensures
        r@ == hex_of(id@),
{
    let mut out = String::new();
    let mut i: usize = 0;
    proof {
        assert(id@.take(0) =~= Seq::<u8>::empty());
    }
    while i < 16
        invariant
            i <= 16,
            id@.len() == 16,
            out@ == hex_of(id@.take(i as int)),
        decreases 16 - i,
    {
        let b = id[i];
        out.append(hex_digit_str(b / 16));
        out.append(hex_digit_str(b % 16));
        proof {
            assert(id@.take(i + 1).drop_last() =~= id@.take(i as int));
            assert(out@ =~= hex_of(id@.take(i + 1)));
        }
        i = i + 1;
    }
    proof {
        assert(id@.take(16) =~= id@);
    }
    out
}


/// The byte range `[offset, end)` of chunk `i` that a partial file of
/// `file_len` bytes already holds, for a transfer of `total_size` bytes in
/// chunks of `chunk_size`; `None` when it holds none of it.
pub fn existing_chunk_range(i: u64, chunk_size: u32, file_len: u64, total_size: u64) -> (r: Option<(u64, u64)>)
    requires
        (i + 1) * chunk_size <= u64::MAX,
    ensures
        ({
            let off = i * chunk_size;
            let end0 = off + chunk_size;
            let end1 = if end0 < file_len { end0 } else { file_len as int };
            let end = if end1 < total_size { end1 } else { total_size as int };
            if end <= off { r is None } else { r == Some((off as u64, end as u64)) }
        }),
{
    proof {
        assert(i * chunk_size <= (i + 1) * chunk_size) by (nonlinear_arith);
        assert((i + 1) * chunk_size == i * chunk_size + chunk_size) by (nonlinear_arith);
    }
    let off = i * (chunk_size as u64);
    let mut end = off + chunk_size as u64;
    if file_len < end {
        end = file_len;
    }
    if total_size < end {
        end = total_size;
    }
    if end <= off {
        None
    } else {
        Some((off, end))
    }
}

/// Settings of a receiving endpoint.
#[derive(Debug, Clone)]
pub struct ReceiverConfig {
    pub max_parallel_chunks: usize,
    pub verify_checksums: bool,
    pub resume_partial: bool,
    /// Directory for partial and state files; the output directory when `None`.
    pub temp_dir: Option<String>,
}

impl Default for ReceiverConfig {
    /// Sixteen chunks in parallel, checksums verified, no resumption.
    fn default() -> (r: Self)
        ensures
            r.max_parallel_chunks == 16,
            r.verify_checksums,
            !r.resume_partial,
            r.temp_dir is None,
    {
        ReceiverConfig { max_parallel_chunks: 16, verify_checksums: true, resume_partial: false, temp_dir: None }
    }
}

/// The receiver's answer to the sender's end-of-transfer marker.
#[derive(Debug, Clone, Copy, PartialEq, Eq, Structural)]
pub enum FinalVerdict {
    /// The file is accepted and moved into place.
    Accepted,
    /// The marker names another transfer than the manifest.
    TransferIdMismatch,
    /// Checksums are verified and the written file's differs from the manifest's.
    ChecksumMismatch,
}

/// The marker is checked first: a foreign transfer id is refused; then, when
/// checksums are verified, a file hash other than the manifest's is refused;
/// otherwise the file is accepted.
pub open spec fn spec_final_verdict(complete_id: Seq<u8>, manifest_id: Seq<u8>, verify: bool, file_hash: Seq<u8>, manifest_checksum: Seq<u8>) -> FinalVerdict {
    if complete_id != manifest_id {
        FinalVerdict::TransferIdMismatch
    } else if verify && file_hash != manifest_checksum {
        FinalVerdict::ChecksumMismatch
    } else {
        FinalVerdict::Accepted
    }
}

fn transfer_id_eq(a: &[u8; 16], b: &[u8; 16]) -> (r: bool)
    ensures
        r == (a@ == b@),
{
    let mut i: usize = 0;
    while i < 16
        invariant
            i <= 16,
            a@.len() == 16,
            b@.len() == 16,
            forall|j: int| 0 <= j < i ==> a@[j] == b@[j],
        decreases 16 - i,
    {
        if a[i] != b[i] {
            return false;
        }
        i = i + 1;
    }
    proof {
        assert(a@ =~= b@);
    }
    true
}

/// Decides the final acknowledgement of a transfer from the id in the
/// sender's end marker, the manifest, whether checksums are verified, and
/// the BLAKE3 hash of the written file.
pub fn final_verdict(complete_id: &[u8; 16], manifest: &TransferManifest, verify: bool, file_hash: &[u8; 32]) -> (r: FinalVerdict)
    ensures
        r == spec_final_verdict(complete_id@, manifest.transfer_id@, verify, file_hash@, manifest.file_checksum@),
{
    if !transfer_id_eq(complete_id, &manifest.transfer_id) {
        FinalVerdict::TransferIdMismatch
    } else if verify && !digest_eq(file_hash, &manifest.file_checksum) {
        FinalVerdict::ChecksumMismatch
    } else {
        FinalVerdict::Accepted
    }
}

impl FinalVerdict {
    /// Whether the transfer succeeded.
    pub fn success(&self) -> (r: bool)
        ensures
            r == (*self == FinalVerdict::Accepted),
    {
        match self {
            FinalVerdict::Accepted => true,
            _ => false,
        }
    }
}


proof fn lemma_missing_upto_complete(received: Set<u64>, k: nat, i: u64)
    requires
        k <= u64::MAX + 1,
        i < k,
        !received.contains(i),
    ensures
        missing_upto(received, k).contains(i),
    decreases k,
{
    let rest = missing_upto(received, (k - 1) as nat);
    if i == k - 1 {
        assert(missing_upto(received, k) == rest.push(i));
        assert(missing_upto(received, k)[rest.len() as int] == i);
    } else {
        lemma_missing_upto_complete(received, (k - 1) as nat, i);
        let j = choose|j: int| 0 <= j < rest.len() && rest[j] == i;
        if !received.contains((k - 1) as u64) {
            assert(missing_upto(received, k)[j] == i);
        }
    }
}

/// Law: the missing list leaves no gap. Every chunk index below
/// `num_chunks` that has not arrived is reported, unless the report is
/// already full with 64 indices, all of them smaller. So the report is the
/// first (at most 64) missing indices, and a receiver missing chunks never
/// sends an empty list.
pub proof fn law_missing_list_complete(received: Set<u64>, num_chunks: u64, i: u64)
    requires
        i < num_chunks,
        !received.contains(i),
    ensures
        spec_missing_chunks(received, num_chunks, MAX_REPORTED_MISSING as nat).contains(i)
            || (spec_missing_chunks(received, num_chunks, MAX_REPORTED_MISSING as nat).len() == 64
                && forall|a: int| 0 <= a < 64 ==> #[trigger] spec_missing_chunks(received, num_chunks, MAX_REPORTED_MISSING as nat)[a] < i),
        spec_missing_chunks(received, num_chunks, MAX_REPORTED_MISSING as nat).len() > 0,
{
    let all = missing_upto(received, num_chunks as nat);
    lemma_missing_upto_complete(received, num_chunks as nat, i);
    lemma_missing_upto_props(received, num_chunks as nat);
    let l = spec_missing_chunks(received, num_chunks, MAX_REPORTED_MISSING as nat);
    let p = choose|p: int| 0 <= p < all.len() && all[p] == i;
    if all.len() > 64 {
        if p < 64 {
            assert(l[p] == i);
        } else {
            assert forall|a: int| 0 <= a < 64 implies #[trigger] l[a] < i by {
                assert(l[a] == all[a]);
                assert(all[a] < all[p]);
            }
        }
    } else {
        assert(l == all);
    }
}

} // verus!
