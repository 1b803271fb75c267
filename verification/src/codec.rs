//! The compression algorithms of the format, by id and by name.
use crate::error::QuartError;
use crate::outside::{
    ascii_lowercase, io_error_text, lowercased, lz4_compress, lz4_decompress, lz4_error_text, lz4_unblocked,
    to_lowercase, xz_compress, xz_decompress, xz_stream_of, xz_unstreamed, zstd_compress,
    zstd_decompress, zstd_frame_of, zstd_unframed,
};
use vstd::bytes::*;
use vstd::prelude::*;
use vstd::utf8::*;

verus! {

/// Data stored as it is ("none").
pub const ALGO_STORE: u8 = 0;

/// A zstd frame.
pub const ALGO_ZSTD: u8 = 1;

/// An xz (LZMA2) stream.
pub const ALGO_LZMA: u8 = 2;

/// An LZ4 block with its uncompressed size in front.
pub const ALGO_LZ4: u8 = 3;

/// The highest algorithm id that the format knows.
pub const ALGO_LAST: u8 = 3;

/// The zstd level that file data is compressed at.
pub const ZSTD_FILE_LEVEL: i32 = 10;

/// The xz preset that file data is compressed at.
pub const LZMA_FILE_LEVEL: u32 = 6;

/// The algorithm that a lower-case compression name selects.
pub open spec fn compression_id_spec(name: Seq<char>) -> Option<u8> {
    if name == "store"@ || name == "none"@ {
        Some(ALGO_STORE)
    } else if name == "lz4"@ {
        Some(ALGO_LZ4)
    } else if name == "zstd"@ || name == "zstandard"@ {
        Some(ALGO_ZSTD)
    } else if name == "lzma"@ || name == "lzma2"@ {
        Some(ALGO_LZMA)
    } else {
        None
    }
}

/// The names of the algorithms: `store` and `none` select storing, `lz4`
/// selects LZ4, `zstd` and `zstandard` select zstd, `lzma` and `lzma2` select
/// xz; no other name selects anything.
pub proof fn lemma_compression_names(name: Seq<char>)
    ensures
        compression_id_spec(name) == Some(0u8) <==> (name == "store"@ || name == "none"@),
        compression_id_spec(name) == Some(3u8) <==> name == "lz4"@,
        compression_id_spec(name) == Some(1u8) <==> (name == "zstd"@ || name == "zstandard"@),
        compression_id_spec(name) == Some(2u8) <==> (name == "lzma"@ || name == "lzma2"@),
        compression_id_spec(name) is Some <==> (name == "store"@ || name == "none"@ || name
            == "lz4"@ || name == "zstd"@ || name == "zstandard"@ || name == "lzma"@ || name
            == "lzma2"@),
{
    reveal_strlit("store");
    reveal_strlit("none");
    reveal_strlit("lz4");
    reveal_strlit("zstd");
    reveal_strlit("zstandard");
    reveal_strlit("lzma");
    reveal_strlit("lzma2");
    assert("store"@.len() == 5 && "lzma2"@.len() == 5 && "lz4"@.len() == 3);
    assert("none"@.len() == 4 && "zstd"@.len() == 4 && "lzma"@.len() == 4);
    assert("zstandard"@.len() == 9);
    assert("store"@[0] != "lzma2"@[0]);
    assert("none"@[0] != "zstd"@[0] && "none"@[0] != "lzma"@[0] && "zstd"@[0] != "lzma"@[0]);
}

/// The lower case of the text `s`: for ASCII text, its ASCII lower case;
/// otherwise what `str::to_lowercase` makes of it.
pub open spec fn lowercase_text(s: Seq<char>) -> Seq<char> {
    if is_ascii_chars(s) {
        ascii_lowercase(s)
    } else {
        lowercased(s)
    }
}

/// Every algorithm that a compression name selects is one the format knows:
/// neither `compress_data` nor `decompress_data` refuses it as unknown.
pub proof fn lemma_named_algorithms_known(name: Seq<char>)
    ensures
        compression_id_spec(name) matches Some(id) ==> id <= ALGO_LAST,
{
}

/// The level recorded in an entry compressed with `algo`: the level that
/// zstd and xz compress file data at, and 0 for the others.
pub open spec fn compression_level_spec(algo: u8) -> u8 {
    if algo == ALGO_ZSTD {
        ZSTD_FILE_LEVEL as u8
    } else if algo == ALGO_LZMA {
        LZMA_FILE_LEVEL as u8
    } else {
        0
    }
}

/// Whether `piece` is what compressing `data` with the known algorithm `algo`
/// may give: `data` itself when stored; a zstd frame at `ZSTD_FILE_LEVEL`; an
/// xz stream at preset `LZMA_FILE_LEVEL`; an LZ4 block that starts with the
/// length of `data` as a little-endian `u32`.
pub open spec fn compressed_as(algo: u8, data: Seq<u8>, piece: Seq<u8>) -> bool {
    if algo == ALGO_STORE {
        piece == data
    } else if algo == ALGO_ZSTD {
        zstd_frame_of(data, ZSTD_FILE_LEVEL, piece)
    } else if algo == ALGO_LZMA {
        xz_stream_of(data, LZMA_FILE_LEVEL, piece)
    } else {
        piece.len() >= 4 && piece.subrange(0, 4) == spec_u32_to_le_bytes(data.len() as u32)
    }
}

/// What decompressing `data` with the known algorithm `algo` gives; `None` where it fails.
pub open spec fn decompressed_spec(algo: u8, data: Seq<u8>) -> Option<Seq<u8>> {
    if algo == ALGO_STORE {
        Some(data)
    } else if algo == ALGO_LZ4 {
        lz4_unblocked(data)
    } else if algo == ALGO_ZSTD {
        zstd_unframed(data)
    } else {
        xz_unstreamed(data)
    }
}

/// The ids of the format's algorithms, the levels recorded with them, and the
/// library behind each: id 0 stores the data as it is, id 1 is a zstd frame at
/// level 10, id 2 an xz stream at preset 6, id 3 an LZ4 block with the
/// data's length in front; no other id is known.
pub proof fn lemma_algorithm_table(data: Seq<u8>, piece: Seq<u8>)
    ensures
        ALGO_STORE == 0 && ALGO_ZSTD == 1 && ALGO_LZMA == 2 && ALGO_LZ4 == 3 && ALGO_LAST == 3,
        ZSTD_FILE_LEVEL == 10 && LZMA_FILE_LEVEL == 6,
        compression_level_spec(0) == 0 && compression_level_spec(1) == 10
            && compression_level_spec(2) == 6 && compression_level_spec(3) == 0,
        compressed_as(0, data, piece) == (piece == data),
        compressed_as(1, data, piece) == zstd_frame_of(data, 10, piece),
        compressed_as(2, data, piece) == xz_stream_of(data, 6, piece),
        compressed_as(3, data, piece) == (piece.len() >= 4 && piece.subrange(0, 4)
            == spec_u32_to_le_bytes(data.len() as u32)),
        decompressed_spec(0, piece) == Some(piece),
        decompressed_spec(1, piece) == zstd_unframed(piece),
        decompressed_spec(2, piece) == xz_unstreamed(piece),
        decompressed_spec(3, piece) == lz4_unblocked(piece),
{
}

/// Whether the library that `algo` names reports its failures as LZ4 errors.
pub open spec fn failure_matches(algo: u8, e: QuartError) -> bool {
    if algo == ALGO_LZ4 {
        e is Lz4
    } else {
        e is Io
    }
}

/// Whether two errors are the same up to the messages of the compression libraries.
pub open spec fn same_error(a: QuartError, b: QuartError) -> bool {
    match (a, b) {
        (QuartError::Io(_), QuartError::Io(_)) => true,
        (QuartError::Lz4(_), QuartError::Lz4(_)) => true,
        (QuartError::UnknownCompressionType(x), QuartError::UnknownCompressionType(y)) => x@ == y@,
        _ => a == b,
    }
}

/// A failure of the library behind `algo`, its message left open.
pub open spec fn failure_of(algo: u8) -> QuartError {
    if algo == ALGO_LZ4 {
        QuartError::Lz4(vstd::pervasive::arbitrary())
    } else {
        QuartError::Io(vstd::pervasive::arbitrary())
    }
}

/// Whether two strings hold the same characters.
pub fn str_eq(a: &str, b: &str) -> (r: bool)
    ensures
        r == (a@ == b@),
{
    broadcast use encode_utf8_decode_utf8;

    let x = a.as_bytes();
    let y = b.as_bytes();
    if x.len() != y.len() {
        return false;
    }
    let mut i: usize = 0;
    while i < x.len()
        invariant
            x@.len() == y@.len(),
            x@ == encode_utf8(a@),
            y@ == encode_utf8(b@),
            i <= x@.len(),
            forall|j: int| 0 <= j < i ==> x@[j] == y@[j],
        decreases x@.len() - i,
    {
        if x[i] != y[i] {
            return false;
        }
        i = i + 1;
    }
    assert(x@ =~= y@);
    assert(decode_utf8(encode_utf8(a@)) == decode_utf8(encode_utf8(b@)));
    true
}

/// The algorithm that the lower-case compression name `name` selects, if any.
pub fn compression_id(name: &str) -> (r: Option<u8>)
    ensures
        r == compression_id_spec(name@),
{
    if str_eq(name, "store") || str_eq(name, "none") {
        Some(ALGO_STORE)
    } else if str_eq(name, "lz4") {
        Some(ALGO_LZ4)
    } else if str_eq(name, "zstd") || str_eq(name, "zstandard") {
        Some(ALGO_ZSTD)
    } else if str_eq(name, "lzma") || str_eq(name, "lzma2") {
        Some(ALGO_LZMA)
    } else {
        None
    }
}

/// The algorithm that a compression name selects, whatever its case:
/// `store` or `none`, `lz4`, `zstd` or `zstandard`, `lzma` or `lzma2`.
pub fn parse_compression_type(s: &str) -> (r: Result<u8, QuartError>)
    ensures
        match compression_id_spec(lowercase_text(s@)) {
            Some(id) => r == Ok::<u8, QuartError>(id),
            None => r matches Err(QuartError::UnknownCompressionType(name)) && name@ == s@,
        },
        r matches Ok(id) ==> id <= ALGO_LAST,
        ({
            let n = lowercase_text(s@);
            &&& r is Ok <==> (n == "store"@ || n == "none"@ || n == "lz4"@ || n == "zstd"@ || n
                == "zstandard"@ || n == "lzma"@ || n == "lzma2"@)
            &&& r == Ok::<u8, QuartError>(0u8) <==> (n == "store"@ || n == "none"@)
            &&& r == Ok::<u8, QuartError>(3u8) <==> n == "lz4"@
            &&& r == Ok::<u8, QuartError>(1u8) <==> (n == "zstd"@ || n == "zstandard"@)
            &&& r == Ok::<u8, QuartError>(2u8) <==> (n == "lzma"@ || n == "lzma2"@)
        }),
{
    proof {
        lemma_compression_names(lowercase_text(s@));
    }
    let lower = to_lowercase(s);
    match compression_id(lower.as_str()) {
        Some(id) => Ok(id),
        None => Err(QuartError::UnknownCompressionType(s.to_owned())),
    }
}

/// The compression level recorded in an entry compressed with `algo_id`.
pub fn get_compression_level(algo_id: u8) -> (level: u8)
    ensures
        level == compression_level_spec(algo_id),
{
    match algo_id {
        ALGO_STORE => 0,
        ALGO_LZ4 => 0,
        ALGO_ZSTD => 10,
        ALGO_LZMA => 6,
        _ => 0,
    }
}

/// Compresses `data` with the algorithm `algo_id`.
///
/// An unknown id is an error; storing gives `data` itself; LZ4 always succeeds
/// and puts the length of `data` in front as a little-endian `u32`; zstd (at
/// `ZSTD_FILE_LEVEL`) and xz (at preset `LZMA_FILE_LEVEL`) succeed unless their
/// library reports a failure. What comes out
/// decompresses back to `data` (for LZ4, where the length of `data` fits in a
/// `u32`).
pub fn compress_data(data: &[u8], algo_id: u8) -> (r: Result<Vec<u8>, QuartError>)
    requires
        algo_id == ALGO_LZ4 ==> data@.len() * 110 <= usize::MAX,
    ensures
        algo_id > ALGO_LAST ==> r == Err::<Vec<u8>, QuartError>(QuartError::UnknownAlgorithm(algo_id)),
        algo_id == ALGO_STORE ==> (r matches Ok(c) && c@ == data@),
        algo_id == ALGO_LZ4 ==> (r matches Ok(c) && c@.len() >= 4 && c@.subrange(0, 4)
            == spec_u32_to_le_bytes(data@.len() as u32)),
        r matches Err(e) ==> algo_id > ALGO_LAST || ((algo_id == ALGO_ZSTD || algo_id == ALGO_LZMA)
            && e is Io),
        r matches Ok(c) ==> compressed_as(algo_id, data@, c@),
        r matches Ok(c) ==> (algo_id != ALGO_LZ4 || data@.len() <= u32::MAX) ==> decompressed_spec(
            algo_id,
            c@,
        ) == Some(data@),
        algo_id == ALGO_ZSTD ==> (r matches Ok(c) ==> zstd_frame_of(data@, ZSTD_FILE_LEVEL, c@)
            && zstd_unframed(c@) == Some(data@)),
        algo_id == ALGO_LZMA ==> (r matches Ok(c) ==> xz_stream_of(data@, LZMA_FILE_LEVEL, c@)
            && xz_unstreamed(c@) == Some(data@)),
        algo_id == ALGO_LZ4 && data@.len() <= u32::MAX ==> (r matches Ok(c) && lz4_unblocked(c@)
            == Some(data@)),
{
    match algo_id {
        ALGO_STORE => Ok(vstd::slice::slice_to_vec(data)),
        ALGO_ZSTD => match zstd_compress(data, ZSTD_FILE_LEVEL) {
            Ok(c) => Ok(c),
            Err(e) => Err(QuartError::Io(io_error_text(&e))),
        },
        ALGO_LZMA => match xz_compress(data, LZMA_FILE_LEVEL) {
            Ok(c) => Ok(c),
            Err(e) => Err(QuartError::Io(io_error_text(&e))),
        },
        ALGO_LZ4 => Ok(lz4_compress(data)),
        _ => Err(QuartError::UnknownAlgorithm(algo_id)),
    }
}

/// Decompresses `data` that was compressed with the algorithm `algo_id`.
///
/// An unknown id is an error; stored data comes back as it is; otherwise the
/// outcome is what the algorithm's library gives, a failure mapped to an LZ4
/// or I/O error.
pub fn decompress_data(data: &[u8], algo_id: u8) -> (r: Result<Vec<u8>, QuartError>)
    ensures
        algo_id > ALGO_LAST ==> r == Err::<Vec<u8>, QuartError>(QuartError::UnknownAlgorithm(algo_id)),
        algo_id <= ALGO_LAST ==> (r is Ok <==> decompressed_spec(algo_id, data@) is Some),
        r matches Ok(v) ==> decompressed_spec(algo_id, data@) == Some(v@),
        r matches Err(e) ==> algo_id > ALGO_LAST || failure_matches(algo_id, e),
        algo_id == ALGO_STORE ==> (r matches Ok(v) && v@ == data@),
        algo_id == ALGO_ZSTD ==> (r is Ok <==> zstd_unframed(data@) is Some) && (r matches Ok(v)
            ==> zstd_unframed(data@) == Some(v@)) && (r is Err ==> r->Err_0 is Io),
        algo_id == ALGO_LZMA ==> (r is Ok <==> xz_unstreamed(data@) is Some) && (r matches Ok(v)
            ==> xz_unstreamed(data@) == Some(v@)) && (r is Err ==> r->Err_0 is Io),
        algo_id == ALGO_LZ4 ==> (r is Ok <==> lz4_unblocked(data@) is Some) && (r matches Ok(v)
            ==> lz4_unblocked(data@) == Some(v@)) && (r is Err ==> r->Err_0 is Lz4),
{
    match algo_id {
        ALGO_STORE => Ok(vstd::slice::slice_to_vec(data)),
        ALGO_LZ4 => match lz4_decompress(data) {
            Ok(v) => Ok(v),
            Err(e) => Err(QuartError::Lz4(lz4_error_text(&e))),
        },
        ALGO_ZSTD => match zstd_decompress(data) {
            Ok(v) => Ok(v),
            Err(e) => Err(QuartError::Io(io_error_text(&e))),
        },
        ALGO_LZMA => match xz_decompress(data) {
            Ok(v) => Ok(v),
            Err(e) => Err(QuartError::Io(io_error_text(&e))),
        },
        _ => Err(QuartError::UnknownAlgorithm(algo_id)),
    }
}

} // verus!
