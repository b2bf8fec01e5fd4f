//! What a receiver makes of the frames a sender builds.
use vstd::prelude::*;
use crate::bytes::{be32_value};
use crate::compression::{spec_maybe_compress, spec_maybe_decompress, zstd_encode_result, zstd_decode_result};
use crate::descriptor::{spec_decoded_descriptor, spec_descriptor_bytes};
use crate::digest::blake3_digest;
use crate::fec::{zeros, pad_to, padded_rows, is_encoded_block, spec_max_payload_len, lemma_max_payload_len_bound};
use crate::packet::PacketView;
use crate::erasure::{rs_parity_rows, is_erasure_of, rows_uniform};
use crate::receiver::{pad_group, max_present_len};
use crate::proto::{ChunkDescriptor, CompressionType};
use crate::protocol::{spec_framed_descriptor_len, spec_wire_frame, law_wire_frame_roundtrip, MAX_CHUNK_DESCRIPTOR_BYTES, WireError};
use crate::receiver::{spec_parse_frame, spec_persist, IngestError};
use crate::sender::{is_data_frame, data_descriptor};

verus! {

/// Law: zero bytes after a readable frame change nothing a receiver reads
/// from it, so a frame recovered from zero-padded Reed–Solomon rows is
/// persisted exactly like the frame itself.
pub proof fn law_padding_keeps_frame(frame: Seq<u8>, k: nat, compression: CompressionType, received: Set<u64>, verify: bool)
    requires
        spec_parse_frame(frame) matches Ok((d, n)) && 4 + n + d.compressed_size <= frame.len(),
    ensures
        spec_parse_frame(frame + zeros(k)) == spec_parse_frame(frame),
        spec_persist(frame + zeros(k), compression, received, verify) == spec_persist(frame, compression, received, verify),
{
    let w = frame + zeros(k);
    let (d, n) = spec_parse_frame(frame)->Ok_0;
    assert(w.subrange(0, 4) =~= frame.subrange(0, 4));
    assert(be32_value(w) == be32_value(frame)) by {
        assert(w[0] == frame[0] && w[1] == frame[1] && w[2] == frame[2] && w[3] == frame[3]);
    }
    assert(w.subrange(4, 4 + n) =~= frame.subrange(4, 4 + n));
    assert(spec_framed_descriptor_len(w) == spec_framed_descriptor_len(frame));
    let start = 4 + n;
    let end = start + d.compressed_size;
    assert(w.subrange(start, end) =~= frame.subrange(start, end));
}

proof fn lemma_built_frame_header(frame: Seq<u8>, db: Seq<u8>, body: Seq<u8>)
    requires
        frame == spec_wire_frame(db, body),
        1 <= db.len() <= MAX_CHUNK_DESCRIPTOR_BYTES,
    ensures
        spec_framed_descriptor_len(frame) == Ok::<usize, WireError>(db.len() as usize),
{
    law_wire_frame_roundtrip(db, body);
}

proof fn lemma_built_frame_parses(frame: Seq<u8>, d: ChunkDescriptor, db: Seq<u8>, body: Seq<u8>)
    requires
        frame == spec_wire_frame(db, body),
        1 <= db.len() <= MAX_CHUNK_DESCRIPTOR_BYTES,
        spec_decoded_descriptor(db) == Some(d),
    ensures
        spec_parse_frame(frame) == Ok::<(ChunkDescriptor, usize), IngestError>((d, db.len() as usize)),
{
    lemma_built_frame_header(frame, db, body);
    law_wire_frame_roundtrip(db, body);
    let n = db.len() as usize;
    assert(frame.subrange(4, 4 + n) == db);
}

proof fn lemma_built_frame_body(frame: Seq<u8>, db: Seq<u8>, body: Seq<u8>)
    requires
        frame == spec_wire_frame(db, body),
        1 <= db.len() <= MAX_CHUNK_DESCRIPTOR_BYTES,
    ensures
        frame.subrange(4 + db.len() as int, 4 + db.len() as int + body.len() as int) == body,
{
    law_wire_frame_roundtrip(db, body);
}

/// Law: a data frame built by the sender is persisted by a receiver that
/// lacks the chunk as the chunk's own bytes at the chunk's offset, whether or
/// not it travelled compressed. This rests on two properties of the codecs:
/// a descriptor decodes from its encoding, which is 1 byte to 1 MiB long, and
/// zstd gives back what it compressed.
pub proof fn law_data_frame_delivers_chunk(
    idx: u64,
    chunk_size: usize,
    data_shards: usize,
    raw: Seq<u8>,
    body: Seq<u8>,
    frame: Seq<u8>,
    compression: CompressionType,
    received: Set<u64>,
    verify: bool,
)
    requires
        is_data_frame(frame, idx, chunk_size, data_shards, raw, body),
        spec_maybe_compress(raw, compression) == Some(body),
        raw.len() <= u32::MAX,
        idx * chunk_size <= u64::MAX,
        !received.contains(idx),
        forall|d: ChunkDescriptor| #[trigger] spec_decoded_descriptor(spec_descriptor_bytes(d)) == Some(d),
        forall|d: ChunkDescriptor| 1 <= #[trigger] spec_descriptor_bytes(d).len() <= MAX_CHUNK_DESCRIPTOR_BYTES,
        forall|x: Seq<u8>, level: i32| (#[trigger] zstd_encode_result(x, level)) matches Some(c) ==> zstd_decode_result(c) == Some(x),
    ensures
        spec_persist(frame, compression, received, verify)
            == Ok::<Option<(u64, u64, Seq<u8>)>, IngestError>(Some((idx, (idx * chunk_size) as u64, raw))),
{
    let c = choose|c: [u8; 32]| c@ == blake3_digest(body)
        && frame == spec_wire_frame(spec_descriptor_bytes(data_descriptor(idx, chunk_size, data_shards, raw.len(), body, c)), body);
    let d = data_descriptor(idx, chunk_size, data_shards, raw.len(), body, c);
    let db = spec_descriptor_bytes(d);
    assert(spec_decoded_descriptor(db) == Some(d));
    assert(1 <= db.len() <= MAX_CHUNK_DESCRIPTOR_BYTES);
    let back = if body.len() < raw.len() {
        match compression {
            CompressionType::Uncompressed => {
                assert(false);
                raw
            },
            CompressionType::Zstd { level } => {
                assert(zstd_encode_result(raw, level) == Some(body));
                assert(zstd_decode_result(body) == Some(raw));
                raw
            },
        }
    } else {
        raw
    };
    assert(body.len() <= raw.len());
    assert(body.len() >= raw.len() ==> body == raw);
    assert(body.len() < raw.len() ==> spec_maybe_decompress(body, compression) == Some(raw));
    lemma_built_frame_parses(frame, d, db, body);
    lemma_built_frame_body(frame, db, body);
}

/// The shard slots a receiver holds for the block `block` encoded with `p`
/// parity shards, when the shards numbered in `arrived` came in: data slot
/// `i` holds the block's `i`-th data frame, parity slot `n + j` the `j`-th
/// parity row (the bytes the `j`-th parity frame carries), other slots
/// nothing.
pub open spec fn received_shards(block: Seq<PacketView>, p: nat, arrived: Set<int>) -> Seq<Option<Seq<u8>>> {
    let n = block.len();
    let rows = rs_parity_rows(n, p, padded_rows(block, spec_max_payload_len(block)));
    Seq::new(n + p, |k: int| if arrived.contains(k) {
        if k < n { Some(block[k].payload) } else { Some(rows[k - n]) }
    } else {
        None
    })
}

proof fn lemma_max_present_len(s: Seq<Option<Seq<u8>>>, len: nat, k: int)
    requires
        forall|i: int| 0 <= i < s.len() ==> (#[trigger] s[i] matches Some(v) ==> v.len() <= len),
        0 <= k < s.len(),
        s[k] matches Some(v) && v.len() == len,
    ensures
        max_present_len(s) == len,
    decreases s.len(),
{
    let t = s.drop_last();
    assert forall|i: int| 0 <= i < t.len() implies (#[trigger] t[i] matches Some(v) ==> v.len() <= len) by {
        assert(t[i] == s[i]);
    }
    lemma_max_present_len_bound(t, len);
    if k < s.len() - 1 {
        assert(t[k] == s[k]);
        lemma_max_present_len(t, len, k);
    } else {
        assert(s.last() == s[k]);
    }
}

proof fn lemma_max_present_len_bound(s: Seq<Option<Seq<u8>>>, len: nat)
    requires
        forall|i: int| 0 <= i < s.len() ==> (#[trigger] s[i] matches Some(v) ==> v.len() <= len),
    ensures
        max_present_len(s) <= len,
    decreases s.len(),
{
    if s.len() > 0 {
        let t = s.drop_last();
        assert forall|i: int| 0 <= i < t.len() implies (#[trigger] t[i] matches Some(v) ==> v.len() <= len) by {
            assert(t[i] == s[i]);
        }
        lemma_max_present_len_bound(t, len);
        assert(s.last() == s[s.len() - 1]);
    }
}

/// Law: the shards of an encoded block survive the loss of any of them, as
/// long as one parity shard arrives. The shards a receiver holds, padded to
/// their longest as recovery pads them, are then an erasure of the encoding
/// of the block's data frames (zero-padded to the longest), so recovery
/// fills each missing data slot with the zero-padded frame that was sent.
pub proof fn law_encoded_block_survives_erasures(out: Seq<PacketView>, block: Seq<PacketView>, p: nat, arrived: Set<int>)
    requires
        is_encoded_block(out, block, p),
        spec_max_payload_len(block) > 0,
        exists|k: int| block.len() <= k < block.len() + p && #[trigger] arrived.contains(k),
    ensures
        ({
            let s = received_shards(block, p, arrived);
            let len = spec_max_payload_len(block);
            &&& max_present_len(s) == len
            &&& is_erasure_of(block.len(), p, pad_group(s, max_present_len(s)), padded_rows(block, len))
        }),
{
    let n = block.len();
    let len = spec_max_payload_len(block);
    let data = padded_rows(block, len);
    let rows = rs_parity_rows(n, p, data);
    let s = received_shards(block, p, arrived);
    assert forall|i: int| 0 <= i < s.len() implies (#[trigger] s[i] matches Some(v) ==> v.len() <= len) by {
        if arrived.contains(i) {
            if i < n {
                lemma_max_payload_len_bound(block, i);
            } else {
                assert(rows[i - n].len() == len);
            }
        }
    }
    let k0 = choose|k: int| n <= k < n + p && #[trigger] arrived.contains(k);
    let j = k0 - n;
    assert(s[n + j] == Some(rows[j]));
    assert(rows[j].len() == len);
    lemma_max_present_len(s, len, n + j);
    let padded = pad_group(s, len);
    assert(n > 0) by {
        if n == 0 {
            assert(spec_max_payload_len(block) == 0);
        }
    }
    assert(rows_uniform(data)) by {
        lemma_max_payload_len_bound(block, 0);
        assert forall|i: int| 0 <= i < data.len() implies #[trigger] data[i].len() == data[0].len() by {
            lemma_max_payload_len_bound(block, i);
        }
    }
    assert forall|i: int| 0 <= i < n implies (#[trigger] padded[i] matches Some(v) ==> v == data[i]) by {
        if arrived.contains(i) {
            assert(s[i] == Some(block[i].payload));
        }
    }
    assert forall|k: int| 0 <= k < p implies (#[trigger] padded[n + k] matches Some(v) ==> v == rows[k]) by {
        if arrived.contains(n + k) {
            assert(s[n + k] == Some(rows[k]));
            assert(rows[k].len() == len);
            assert(pad_to(rows[k], len) =~= rows[k]);
        }
    }
}

} // verus!
