//! Optional zstd compression of chunk payloads with a magic-byte check and an
//! expansion guard.
use vstd::prelude::*;
use crate::proto::CompressionType;
use crate::packet::copy_bytes;

verus! {

#[verifier::external_type_specification]
#[verifier::external_body]
pub struct ExIoError(std::io::Error);

/// Failure of the zstd codec.
#[derive(Debug)]
pub enum CompressionError {
    Zstd(std::io::Error),
}

/// What `zstd::stream::encode_all` returns for `input` at `level`:
/// `Some(frame)` on success, `None` on error.
pub uninterp spec fn zstd_encode_result(input: Seq<u8>, level: i32) -> Option<Seq<u8>>;

/// What `zstd::stream::decode_all` returns for `input`:
/// `Some(bytes)` on success, `None` on error.
pub uninterp spec fn zstd_decode_result(input: Seq<u8>) -> Option<Seq<u8>>;

/// Calls `zstd::stream::encode_all` on an in-memory slice. Trusted: the
/// outcome is a function of the input bytes and the level alone.
#[verifier::external_body]
fn zstd_encode_all(input: &[u8], level: i32) -> (r: Result<Vec<u8>, std::io::Error>)
    ensures
        r matches Ok(v) ==> zstd_encode_result(input@, level) == Some(v@),
        r is Err ==> zstd_encode_result(input@, level) is None,
{
    zstd::stream::encode_all(input, level)
}

/// Calls `zstd::stream::decode_all` on an in-memory slice. Trusted: the
/// outcome is a function of the input bytes alone, and a frame produced by
/// `encode_all` decodes to the bytes it was produced from (the codec is
/// lossless).
#[verifier::external_body]
fn zstd_decode_all(input: &[u8]) -> (r: Result<Vec<u8>, std::io::Error>)
    ensures
        r matches Ok(v) ==> zstd_decode_result(input@) == Some(v@),
        r is Err ==> zstd_decode_result(input@) is None,
        r is Err ==> forall|x: Seq<u8>, level: i32| zstd_encode_result(x, level) != Some(input@),
        r matches Ok(v) ==> forall|x: Seq<u8>, level: i32| zstd_encode_result(x, level) == Some(input@) ==> v@ == x,
{
    zstd::stream::decode_all(input)
}

/// Whether the first four bytes announce an already-compressed format
/// (ZIP, GZIP, zstd, LZ4, HDF5, ROOT, BZ2, 7-Zip).
pub open spec fn spec_likely_compressed(d: Seq<u8>) -> bool {
    d.len() >= 4 && {
        let (a, b, c, e) = (d[0], d[1], d[2], d[3]);
        ||| (a == 0x50 && b == 0x4B && c == 0x03 && e == 0x04)
        ||| (a == 0x1F && b == 0x8B)
        ||| (a == 0x28 && b == 0xB5 && c == 0x2F && e == 0xFD)
        ||| (a == 0x04 && b == 0x22 && c == 0x4D && e == 0x18)
        ||| (a == 0x89 && b == 0x48 && c == 0x44 && e == 0x46)
        ||| (a == 0x72 && b == 0x6F && c == 0x6F && e == 0x74)
        ||| (a == 0x42 && b == 0x5A && c == 0x68)
        ||| (a == 0x37 && b == 0x7A && c == 0xBC && e == 0xAF)
    }
}

/// True when the magic bytes point to a format that is already compressed,
/// so that no zstd attempt is made on data that will not shrink.
pub fn is_likely_compressed(data: &[u8]) -> (r: bool)
    ensures
        r == spec_likely_compressed(data@),
{
    if data.len() < 4 {
        return false;
    }
    let (a, b, c, e) = (data[0], data[1], data[2], data[3]);
    (a == 0x50 && b == 0x4B && c == 0x03 && e == 0x04) || (a == 0x1F && b == 0x8B) || (a == 0x28
        && b == 0xB5 && c == 0x2F && e == 0xFD) || (a == 0x04 && b == 0x22 && c == 0x4D && e
        == 0x18) || (a == 0x89 && b == 0x48 && c == 0x44 && e == 0x46) || (a == 0x72 && b == 0x6F
        && c == 0x6F && e == 0x74) || (a == 0x42 && b == 0x5A && c == 0x68) || (a == 0x37 && b
        == 0x7A && c == 0xBC && e == 0xAF)
}

/// The bytes `maybe_compress` puts on the wire, or `None` when zstd fails.
pub open spec fn spec_maybe_compress(input: Seq<u8>, mode: CompressionType) -> Option<Seq<u8>> {
    match mode {
        CompressionType::Uncompressed => Some(input),
        CompressionType::Zstd { level } => if spec_likely_compressed(input) {
            Some(input)
        } else {
            match zstd_encode_result(input, level) {
                None => None,
                Some(c) => if c.len() >= input.len() { Some(input) } else { Some(c) },
            }
        },
    }
}

/// Compresses with zstd unless the data already looks compressed or zstd
/// would not make it smaller; in those cases the input passes through.
pub fn maybe_compress(input: &[u8], mode: &CompressionType) -> (r: Result<Vec<u8>, CompressionError>)
    ensures
        spec_maybe_compress(input@, *mode) matches Some(out) ==> (r matches Ok(v) && v@ == out),
        spec_maybe_compress(input@, *mode) is None ==> r is Err,
        r matches Ok(v) ==> v@.len() <= input@.len(),
{
    match mode {
        CompressionType::Uncompressed => Ok(copy_bytes(input)),
        CompressionType::Zstd { level } => {
            if is_likely_compressed(input) {
                return Ok(copy_bytes(input));
            }
            match zstd_encode_all(input, *level) {
                Err(e) => Err(CompressionError::Zstd(e)),
                Ok(compressed) => {
                    if compressed.len() >= input.len() {
                        Ok(copy_bytes(input))
                    } else {
                        Ok(compressed)
                    }
                },
            }
        },
    }
}

/// The bytes `maybe_decompress` returns, or `None` when zstd fails.
pub open spec fn spec_maybe_decompress(input: Seq<u8>, mode: CompressionType) -> Option<Seq<u8>> {
    match mode {
        CompressionType::Uncompressed => Some(input),
        CompressionType::Zstd { .. } => zstd_decode_result(input),
    }
}

/// Undoes `Zstd` compression; passes uncompressed data through. A zstd
/// frame that compression produced from `x` comes back as `x`.
pub fn maybe_decompress(input: &[u8], mode: &CompressionType) -> (r: Result<Vec<u8>, CompressionError>)
    ensures
        spec_maybe_decompress(input@, *mode) matches Some(out) ==> (r matches Ok(v) && v@ == out),
        spec_maybe_decompress(input@, *mode) is None ==> r is Err,
        forall|x: Seq<u8>, level: i32| #[trigger] zstd_encode_result(x, level) == Some(input@) && *mode is Zstd
            ==> (r matches Ok(v) && v@ == x),
{
    match mode {
        CompressionType::Uncompressed => Ok(copy_bytes(input)),
        CompressionType::Zstd { .. } => match zstd_decode_all(input) {
            Err(e) => Err(CompressionError::Zstd(e)),
            Ok(v) => Ok(v),
        },
    }
}


/// Law: data that begins with the magic bytes of an already-compressed
/// format, and holds at least four bytes, is recognised as compressed and
/// passes zstd mode unchanged: ZIP 50 4B 03 04, GZIP 1F 8B, zstd
/// 28 B5 2F FD, LZ4 frame 04 22 4D 18, HDF5 89 48 44 46, ROOT 72 6F 6F 74,
/// BZ2 42 5A 68, 7-Zip 37 7A BC AF. Data shorter than four bytes is never
/// taken for compressed.
pub proof fn law_known_formats_recognised(d: Seq<u8>, level: i32)
    ensures
        d.len() < 4 ==> !spec_likely_compressed(d),
        d.len() >= 4 && d.take(4) == seq![0x50u8, 0x4Bu8, 0x03u8, 0x04u8] ==> spec_likely_compressed(d),
        d.len() >= 4 && d.take(2) == seq![0x1Fu8, 0x8Bu8] ==> spec_likely_compressed(d),
        d.len() >= 4 && d.take(4) == seq![0x28u8, 0xB5u8, 0x2Fu8, 0xFDu8] ==> spec_likely_compressed(d),
        d.len() >= 4 && d.take(4) == seq![0x04u8, 0x22u8, 0x4Du8, 0x18u8] ==> spec_likely_compressed(d),
        d.len() >= 4 && d.take(4) == seq![0x89u8, 0x48u8, 0x44u8, 0x46u8] ==> spec_likely_compressed(d),
        d.len() >= 4 && d.take(4) == seq![0x72u8, 0x6Fu8, 0x6Fu8, 0x74u8] ==> spec_likely_compressed(d),
        d.len() >= 4 && d.take(3) == seq![0x42u8, 0x5Au8, 0x68u8] ==> spec_likely_compressed(d),
        d.len() >= 4 && d.take(4) == seq![0x37u8, 0x7Au8, 0xBCu8, 0xAFu8] ==> spec_likely_compressed(d),
        spec_likely_compressed(d) ==> spec_maybe_compress(d, CompressionType::Zstd { level }) == Some(d),
{
    if d.len() >= 4 {
        assert(d.take(4)[0] == d[0] && d.take(4)[1] == d[1] && d.take(4)[2] == d[2] && d.take(4)[3] == d[3]);
        assert(d.take(3)[0] == d[0] && d.take(3)[1] == d[1] && d.take(3)[2] == d[2]);
        assert(d.take(2)[0] == d[0] && d.take(2)[1] == d[1]);
    }
}

} // verus!
