use sc_transport::cli::{endpoint_address_text, flag_on, select_compression, CompressionArg};
use sc_transport::digest::chunk_digest;
use sc_transport::proto::CompressionType;
use sc_transport::receiver::existing_chunk_range;

#[test]
fn select_compression_follows_mode_and_size() {
    assert_eq!(select_compression(CompressionArg::Uncompressed, 1 << 40), CompressionType::Uncompressed);
    assert_eq!(select_compression(CompressionArg::Zstd, 0), CompressionType::Zstd { level: 3 });
    assert_eq!(select_compression(CompressionArg::Auto, 8 * 1024 * 1024), CompressionType::Uncompressed);
    assert_eq!(
        select_compression(CompressionArg::Auto, 8 * 1024 * 1024 + 1),
        CompressionType::Zstd { level: 1 }
    );
}

#[test]
fn endpoint_address_text_strips_one_scheme() {
    assert_eq!(endpoint_address_text("sct://10.0.0.1:7272"), "10.0.0.1:7272");
    assert_eq!(endpoint_address_text("10.0.0.1:7272"), "10.0.0.1:7272");
    assert_eq!(endpoint_address_text("sct://sct://x"), "sct://x");
    assert_eq!(endpoint_address_text("sct:/x"), "sct:/x");
}

#[test]
fn chunk_digest_is_blake3() {
    assert_eq!(chunk_digest(b"abc"), *blake3::hash(b"abc").as_bytes());
    assert_ne!(chunk_digest(b"abc"), chunk_digest(b"abd"));
}

#[test]
fn existing_chunk_range_clips_to_file_and_transfer() {
    assert_eq!(existing_chunk_range(0, 10, 100, 100), Some((0, 10)));
    assert_eq!(existing_chunk_range(2, 10, 25, 100), Some((20, 25)));
    assert_eq!(existing_chunk_range(2, 10, 100, 23), Some((20, 23)));
    assert_eq!(existing_chunk_range(3, 10, 25, 100), None);
}

#[test]
fn flag_on_accepts_only_one_true_yes() {
    assert!(flag_on("1"));
    assert!(flag_on(" TRUE "));
    assert!(flag_on("\tYeS\n"));
    assert!(!flag_on("0"));
    assert!(!flag_on("no"));
    assert!(!flag_on("truee"));
    assert!(!flag_on(""));
}
