//! The calls into the codec, hash and text functions that the format relies on.
//! Every item here is trusted: its contract is believed, not proved.
use vstd::prelude::*;
use vstd::bytes::*;
use vstd::utf8::*;

verus! {

/// `std::io::Error`, the error type of the zstd and xz2 streams.
#[verifier::external_type_specification]
#[verifier::external_body]
pub struct ExIoError(std::io::Error);

/// `lz4_flex::block::DecompressError`, returned for malformed LZ4 blocks.
#[verifier::external_type_specification]
#[verifier::external_body]
pub struct ExLz4DecompressError(lz4_flex::block::DecompressError);

/// The SHA-256 digest of `data`.
pub uninterp spec fn sha256_of(data: Seq<u8>) -> Seq<u8>;

/// What `lz4_flex::decompress_size_prepended` gives back for `block`; `None` where it fails.
pub uninterp spec fn lz4_unblocked(block: Seq<u8>) -> Option<Seq<u8>>;

/// Whether `frame` is a zstd frame of `data` compressed at level `level`, as
/// `zstd::encode_all` makes one. It names a relation, not a function: the frame
/// that zstd makes may differ from machine to machine.
pub uninterp spec fn zstd_frame_of(data: Seq<u8>, level: i32, frame: Seq<u8>) -> bool;

/// Whether `stream` is an xz stream of `data` at preset `level`, as an
/// `xz2::write::XzEncoder` writes one. It names a relation, not a function.
pub uninterp spec fn xz_stream_of(data: Seq<u8>, level: u32, stream: Seq<u8>) -> bool;

/// What `zstd::decode_all` gives back for `frame`; `None` where it fails.
pub uninterp spec fn zstd_unframed(frame: Seq<u8>) -> Option<Seq<u8>>;

/// What an `xz2::read::XzDecoder` reads out of `stream`; `None` where it fails.
pub uninterp spec fn xz_unstreamed(stream: Seq<u8>) -> Option<Seq<u8>>;

/// What `str::to_lowercase` makes of the characters `s`.
pub uninterp spec fn lowercased(s: Seq<char>) -> Seq<char>;

/// What `String::from_utf8_lossy` makes of `bytes`.
pub uninterp spec fn utf8_lossy_decoded(bytes: Seq<u8>) -> Seq<char>;

/// Calls `sha2::Sha256::digest`. Claimed: the result is the SHA-256 digest
/// of `data` and, as the digest's output size says, 32 bytes long.
#[verifier::external_body]
pub(crate) fn sha256(data: &[u8]) -> (digest: Vec<u8>)
    ensures
        digest@ == sha256_of(data@),
        digest@.len() == 32,
{
    <sha2::Sha256 as sha2::Digest>::digest(data).to_vec()
}

/// Calls `lz4_flex::compress_prepend_size`. Claimed: the block starts with the
/// length of `data` as a little-endian `u32` (truncated to 32 bits), and
/// `decompress_size_prepended` gives `data` back from it whenever that length
/// fits in a `u32`. The compressed bytes after the prefix are not described:
/// the crate picks its hash table by the machine's word size.
/// The `requires` keeps the crate's computation of its worst-case output size,
/// `16 + 4 + len * 110 / 100`, from overflowing a `usize`.
#[verifier::external_body]
pub(crate) fn lz4_compress(data: &[u8]) -> (block: Vec<u8>)
    requires
        data@.len() * 110 <= usize::MAX,
    ensures
        block@.len() >= 4,
        block@.subrange(0, 4) == spec_u32_to_le_bytes(data@.len() as u32),
        data@.len() <= u32::MAX ==> lz4_unblocked(block@) == Some(data@),
{
    lz4_flex::compress_prepend_size(data)
}

/// Calls `lz4_flex::decompress_size_prepended`. Claimed: it succeeds exactly
/// where `lz4_unblocked` is `Some`, and then gives that value. The error
/// value is not described.
#[verifier::external_body]
pub(crate) fn lz4_decompress(block: &[u8]) -> (r: Result<Vec<u8>, lz4_flex::block::DecompressError>)
    ensures
        r is Ok <==> lz4_unblocked(block@) is Some,
        r matches Ok(v) ==> lz4_unblocked(block@) == Some(v@),
{
    lz4_flex::decompress_size_prepended(block)
}

/// Calls `zstd::encode_all` on `data` at `level`. Claimed: when it succeeds,
/// its result is a frame of `data` at that level, and `zstd::decode_all` gives
/// `data` back from it. The frame's bytes, and when and with which error it
/// fails, are not described.
#[verifier::external_body]
pub(crate) fn zstd_compress(data: &[u8], level: i32) -> (r: Result<Vec<u8>, std::io::Error>)
    ensures
        r matches Ok(frame) ==> zstd_frame_of(data@, level, frame@),
        r matches Ok(frame) ==> zstd_unframed(frame@) == Some(data@),
{
    zstd::encode_all(data, level)
}

/// Calls `zstd::decode_all` on `frame`. Claimed: it succeeds exactly where
/// `zstd_unframed` is `Some`, and then gives that value. The error value is
/// not described.
#[verifier::external_body]
pub(crate) fn zstd_decompress(frame: &[u8]) -> (r: Result<Vec<u8>, std::io::Error>)
    ensures
        r is Ok <==> zstd_unframed(frame@) is Some,
        r matches Ok(v) ==> zstd_unframed(frame@) == Some(v@),
{
    zstd::decode_all(frame)
}

/// Writes `data` through an `xz2::write::XzEncoder` of preset `level` into a
/// new vector and finishes the stream. Claimed: when it succeeds, its result
/// is a stream of `data` at that preset, and an `xz2::read::XzDecoder` reads
/// `data` back out of it. `level` is at
/// most 9: the encoder's constructor panics on a larger preset. The stream's
/// bytes, and when and with which error it fails, are not described.
#[verifier::external_body]
pub(crate) fn xz_compress(data: &[u8], level: u32) -> (r: Result<Vec<u8>, std::io::Error>)
    requires
        level <= 9,
    ensures
        r matches Ok(stream) ==> xz_stream_of(data@, level, stream@),
        r matches Ok(stream) ==> xz_unstreamed(stream@) == Some(data@),
{
    let mut encoder = xz2::write::XzEncoder::new(Vec::new(), level);
    std::io::Write::write_all(&mut encoder, data)?;
    encoder.finish()
}

/// Reads everything out of an `xz2::read::XzDecoder` over `stream`. Claimed: it
/// succeeds exactly where `xz_unstreamed` is `Some`, and then gives that
/// value. The error value is not described.
#[verifier::external_body]
pub(crate) fn xz_decompress(stream: &[u8]) -> (r: Result<Vec<u8>, std::io::Error>)
    ensures
        r is Ok <==> xz_unstreamed(stream@) is Some,
        r matches Ok(v) ==> xz_unstreamed(stream@) == Some(v@),
{
    let mut out = Vec::new();
    std::io::Read::read_to_end(&mut xz2::read::XzDecoder::new(stream), &mut out)?;
    Ok(out)
}

/// The ASCII lower case of `s`: `A` to `Z` become `a` to `z`, the rest stays.
pub open spec fn ascii_lowercase(s: Seq<char>) -> Seq<char> {
    s.map_values(|c: char| if 'A' <= c <= 'Z' { ((c as u32) + 32) as char } else { c })
}

/// Calls `str::to_lowercase`. Claimed: the result is a function of the
/// characters of `s`, and for ASCII text it is the ASCII lower case.
#[verifier::external_body]
pub(crate) fn to_lowercase(s: &str) -> (lower: String)
    ensures
        lower@ == lowercased(s@),
        is_ascii_chars(s@) ==> lower@ == ascii_lowercase(s@),
{
    s.to_lowercase()
}

/// Calls `String::from_utf8_lossy`. Claimed: the result is a function of
/// `bytes`, and where `bytes` is valid UTF-8 it is the text they encode.
#[verifier::external_body]
pub(crate) fn from_utf8_lossy(bytes: &[u8]) -> (text: String)
    ensures
        text@ == utf8_lossy_decoded(bytes@),
        valid_utf8(bytes@) ==> text@ == decode_utf8(bytes@),
{
    String::from_utf8_lossy(bytes).into_owned()
}

/// Calls `String::push`. Claimed: `c` is appended to the text.
#[verifier::external_body]
pub(crate) fn push_char(s: &mut String, c: char)
    ensures
        final(s)@ == old(s)@.push(c),
{
    s.push(c)
}

/// Calls `ToString::to_string` on an I/O error: its display text. Nothing is claimed of the text.
#[verifier::external_body]
pub(crate) fn io_error_text(e: &std::io::Error) -> String {
    e.to_string()
}

/// Calls `ToString::to_string` on an LZ4 decompression error: its display text.
/// Nothing is claimed of the text.
#[verifier::external_body]
pub(crate) fn lz4_error_text(e: &lz4_flex::block::DecompressError) -> String {
    e.to_string()
}

} // verus!
