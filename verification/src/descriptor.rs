//! Binary encoding of chunk descriptors: bincode's standard configuration
//! over the descriptor's fields, in declaration order.
use vstd::prelude::*;
use crate::proto::ChunkDescriptor;

verus! {

/// The fields of a chunk descriptor, in declaration order.
pub type DescriptorFields = (u64, u64, u32, u32, [u8; 32], bool, bool, usize, u64);

/// The `n` low bytes of `x`, least significant first.
pub open spec fn le_bytes(x: nat, n: nat) -> Seq<u8>
    decreases n,
{
    if n == 0 {
        Seq::empty()
    } else {
        seq![(x % 256) as u8] + le_bytes(x / 256, (n - 1) as nat)
    }
}

/// bincode's variable-length integer: the value as one byte up to 250;
/// otherwise a tag 251, 252 or 253 followed by the value as a little-endian
/// `u16`, `u32` or `u64`, the smallest that holds it.
pub open spec fn varint(x: u64) -> Seq<u8> {
    if x <= 250 {
        seq![x as u8]
    } else if x <= 0xffff {
        seq![251u8] + le_bytes(x as nat, 2)
    } else if x <= 0xffff_ffff {
        seq![252u8] + le_bytes(x as nat, 4)
    } else {
        seq![253u8] + le_bytes(x as nat, 8)
    }
}

/// A boolean as bincode writes it: one byte, 1 or 0.
pub open spec fn bool_byte(b: bool) -> Seq<u8> {
    seq![if b { 1u8 } else { 0u8 }]
}

/// The bytes `bincode::serde::encode_to_vec` produces, under the standard
/// configuration (little-endian, variable-length integers), for the
/// descriptor fields: the fields in order with no framing, each integer as a
/// variable-length integer (`usize` as a `u64`), the checksum as its 32
/// bytes, each boolean as one byte.
#[verifier::opaque]
pub open spec fn bincode_descriptor_bytes(f: DescriptorFields) -> Seq<u8> {
    varint(f.0) + varint(f.1) + varint(f.2 as u64) + varint(f.3 as u64) + f.4@
        + bool_byte(f.5) + bool_byte(f.6) + varint(f.7 as u64) + varint(f.8)
}

proof fn lemma_le_bytes_len(x: nat, n: nat)
    ensures
        le_bytes(x, n).len() == n,
    decreases n,
{
    if n > 0 {
        lemma_le_bytes_len(x / 256, (n - 1) as nat);
    }
}

proof fn lemma_varint_len(x: u64)
    ensures
        1 <= varint(x).len() <= 9,
        x <= u32::MAX ==> varint(x).len() <= 5,
{
    lemma_le_bytes_len(x as nat, 2);
    lemma_le_bytes_len(x as nat, 4);
    lemma_le_bytes_len(x as nat, 8);
}

/// The encoding of descriptor fields is 40 to 80 bytes long.
pub proof fn lemma_descriptor_bytes_len(f: DescriptorFields)
    ensures
        40 <= bincode_descriptor_bytes(f).len() <= 80,
{
    reveal(bincode_descriptor_bytes);
    lemma_varint_len(f.0);
    lemma_varint_len(f.1);
    lemma_varint_len(f.2 as u64);
    lemma_varint_len(f.3 as u64);
    lemma_varint_len(f.7 as u64);
    lemma_varint_len(f.8);
    assert(f.4@.len() == 32);
}

/// What `bincode::serde::decode_from_slice` gives, under the standard
/// configuration, when it reads descriptor fields from the front of `bytes`:
/// `None` when it fails.
pub uninterp spec fn bincode_descriptor_fields(bytes: Seq<u8>) -> Option<DescriptorFields>;

/// Encodes descriptor fields with `bincode::serde::encode_to_vec` and the
/// standard configuration. Trusted, as the crate's source shows: a tuple is
/// written field by field with no length; `u32`, `u64` and `usize` go
/// through the variable-length integer encoder, `u8` and `bool` as one byte
/// each, so the checksum array is its 32 bytes. The encoder writes into a
/// growable buffer without a size limit and has no failing path for these
/// types; the empty fallback is never taken.
#[verifier::external_body]
fn encode_descriptor_fields(fields: DescriptorFields) -> (r: Vec<u8>)
    ensures
        r@ == bincode_descriptor_bytes(fields),
{
    bincode::serde::encode_to_vec(fields, bincode::config::standard()).unwrap_or_default()
}

/// Decodes descriptor fields with `bincode::serde::decode_from_slice` and the
/// standard configuration. Trusted: the outcome is a function of the bytes
/// alone, and bytes produced by the encoder above decode to the fields they
/// were produced from (the serde data model of a tuple of integers, booleans
/// and a byte array round-trips through bincode).
#[verifier::external_body]
fn decode_descriptor_fields(bytes: &[u8]) -> (r: Option<DescriptorFields>)
    ensures
        r == bincode_descriptor_fields(bytes@),
        forall|f: DescriptorFields| bytes@ == bincode_descriptor_bytes(f) ==> r == Some(f),
{
    match bincode::serde::decode_from_slice::<DescriptorFields, _>(bytes, bincode::config::standard()) {
        Ok((fields, _)) => Some(fields),
        Err(_) => None,
    }
}

/// The fields of a descriptor, in declaration order.
pub open spec fn fields_of(d: ChunkDescriptor) -> DescriptorFields {
    (d.index, d.offset, d.compressed_size, d.uncompressed_size, d.checksum, d.was_compressed, d.is_parity, d.parity_index, d.fec_group)
}

/// The descriptor with the given fields.
pub open spec fn descriptor_from(f: DescriptorFields) -> ChunkDescriptor {
    ChunkDescriptor {
        index: f.0,
        offset: f.1,
        compressed_size: f.2,
        uncompressed_size: f.3,
        checksum: f.4,
        was_compressed: f.5,
        is_parity: f.6,
        parity_index: f.7,
        fec_group: f.8,
    }
}

/// Encoded bytes of a descriptor.
pub open spec fn spec_descriptor_bytes(d: ChunkDescriptor) -> Seq<u8> {
    bincode_descriptor_bytes(fields_of(d))
}

/// The descriptor read from the front of `bytes`, if any.
pub open spec fn spec_decoded_descriptor(bytes: Seq<u8>) -> Option<ChunkDescriptor> {
    match bincode_descriptor_fields(bytes) {
        Some(f) => Some(descriptor_from(f)),
        None => None,
    }
}

/// Encodes a chunk descriptor for the wire.
pub fn encode_chunk_descriptor(d: &ChunkDescriptor) -> (r: Vec<u8>)
    ensures
        r@ == spec_descriptor_bytes(*d),
        40 <= r@.len() <= 80,
{
    proof {
        lemma_descriptor_bytes_len(fields_of(*d));
    }
    encode_descriptor_fields((d.index, d.offset, d.compressed_size, d.uncompressed_size, d.checksum, d.was_compressed, d.is_parity, d.parity_index, d.fec_group))
}

/// Reads a chunk descriptor from the front of `bytes`.
pub fn decode_chunk_descriptor(bytes: &[u8]) -> (r: Option<ChunkDescriptor>)
    ensures
        r == spec_decoded_descriptor(bytes@),
        forall|d: ChunkDescriptor| bytes@ == spec_descriptor_bytes(d) ==> r == Some(d),
{
    match decode_descriptor_fields(bytes) {
        Some(f) => Some(ChunkDescriptor {
            index: f.0,
            offset: f.1,
            compressed_size: f.2,
            uncompressed_size: f.3,
            checksum: f.4,
            was_compressed: f.5,
            is_parity: f.6,
            parity_index: f.7,
            fec_group: f.8,
        }),
        None => None,
    }
}

/// Law: descriptor fields and descriptors correspond one to one.
pub proof fn law_descriptor_fields_roundtrip(d: ChunkDescriptor)
    ensures
        descriptor_from(fields_of(d)) == d,
{
}

} // verus!
