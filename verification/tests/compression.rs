use sc_transport::compression::{is_likely_compressed, maybe_compress, maybe_decompress};
use sc_transport::proto::CompressionType;

#[test]
fn hdf5_magic_is_detected() {
    let hdf5_header = [0x89, 0x48, 0x44, 0x46, 0x0D, 0x0A, 0x1A, 0x0A];
    assert!(is_likely_compressed(&hdf5_header));
}

#[test]
fn gzip_magic_is_detected() {
    let gz = [0x1F, 0x8B, 0x08, 0x00];
    assert!(is_likely_compressed(&gz));
}

#[test]
fn plain_text_is_not_detected() {
    let text = b"Hello, world!";
    assert!(!is_likely_compressed(text));
}

#[test]
fn expansion_guard_returns_original() {
    let random = [0xDE, 0xAD, 0xBE, 0xEF];
    let result = maybe_compress(&random, &CompressionType::Zstd { level: 3 }).unwrap();
    assert!(result.len() <= random.len() + 20);
    assert_eq!(result, random.to_vec());
}

#[test]
fn redundant_data_compresses_and_round_trips() {
    let data = vec![7u8; 4096];
    let mode = CompressionType::Zstd { level: 3 };
    let packed = maybe_compress(&data, &mode).unwrap();
    assert!(packed.len() < data.len());
    let back = maybe_decompress(&packed, &mode).unwrap();
    assert_eq!(back, data);
}

#[test]
fn uncompressed_mode_passes_through() {
    let data = b"plain".to_vec();
    assert_eq!(maybe_compress(&data, &CompressionType::Uncompressed).unwrap(), data);
    assert_eq!(maybe_decompress(&data, &CompressionType::Uncompressed).unwrap(), data);
    assert!(maybe_decompress(b"not zstd", &CompressionType::Zstd { level: 1 }).is_err());
}

#[test]
fn already_compressed_input_is_not_touched() {
    let mut zip = vec![0x50, 0x4B, 0x03, 0x04];
    zip.extend(vec![0u8; 1000]);
    assert_eq!(maybe_compress(&zip, &CompressionType::Zstd { level: 3 }).unwrap(), zip);
}
