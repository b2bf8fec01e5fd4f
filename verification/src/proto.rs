//! Control-plane and chunk wire structures of the SPARQ transfer protocol.
use vstd::prelude::*;
use std::collections::HashMap;

verus! {

/// Default width of a Reed–Solomon block when a manifest does not name one.
pub fn default_data_shards() -> (r: usize)
    ensures
        r == 4,
{
    4
}

/// Checksum algorithm of a transfer.
#[derive(Debug, Clone, Copy, PartialEq, Eq, Structural)]
pub enum ChecksumAlg {
    Blake3,
}

/// Compression applied to chunk payloads.
#[derive(Debug, Clone, Copy, PartialEq, Eq, Structural)]
pub enum CompressionType {
    Uncompressed,
    Zstd { level: i32 },
}

/// What the sender announces before the first chunk.
#[derive(Debug, Clone)]
pub struct TransferManifest {
    pub transfer_id: [u8; 16],
    pub filename: String,
    pub total_size: u64,
    pub chunk_size: u32,
    pub num_chunks: u64,
    pub checksum_algorithm: ChecksumAlg,
    pub file_checksum: [u8; 32],
    pub compression: CompressionType,
    pub metadata: HashMap<String, String>,
    /// FEC data shards (must match the sender's RS block width).
    pub data_shards: usize,
    /// FEC parity shards (0 = no Reed–Solomon parity on the wire).
    pub parity_shards: usize,
}

/// Per-chunk header that precedes the chunk bytes on the wire.
#[derive(Debug, Clone, Copy)]
pub struct ChunkDescriptor {
    pub index: u64,
    pub offset: u64,
    pub compressed_size: u32,
    pub uncompressed_size: u32,
    pub checksum: [u8; 32],
    /// True when the chunk bytes on the wire are ZSTD-compressed.
    pub was_compressed: bool,
    pub is_parity: bool,
    pub parity_index: usize,
    pub fec_group: u64,
}

/// Receiver's answer to a manifest.
#[derive(Debug, Clone)]
pub struct ManifestAck {
    pub accepted: bool,
    pub message: Option<String>,
    pub received_chunks: Vec<u64>,
    /// Index i holds the BLAKE3 hash of chunk i as the receiver has it; empty = no delta info.
    pub chunk_hashes: Vec<[u8; 32]>,
}

/// Receiver's verdict after the whole file arrived.
#[derive(Debug, Clone)]
pub struct FinalAck {
    pub success: bool,
    pub message: Option<String>,
}

/// Sender's end-of-transfer marker.
#[derive(Debug, Clone, Copy)]
pub struct TransferComplete {
    pub transfer_id: [u8; 16],
}

} // verus!
