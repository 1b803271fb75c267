//! Whole archives: the header, the compressed file data, the compressed
//! central directory and the end record.
use crate::codec::{
    compress_data, compressed_as, compression_level_spec, decompress_data, decompressed_spec, failure_of,
    get_compression_level, same_error, ALGO_LAST, ALGO_LZ4, ALGO_ZSTD,
};
use crate::directory::{
    directory_bytes, entry_models, lemma_directory_count, lemma_directory_roundtrip, parse_directory,
    parse_directory_spec, write_directory,
};
use crate::entry::{
    entry_wf, lemma_split, DirectoryEntry, EntryModel, HASH_LEN,
};
use crate::varint::append_bytes;
use crate::error::QuartError;
use crate::outside::{io_error_text, push_char, sha256, sha256_of, zstd_compress, zstd_frame_of, zstd_unframed};
use vstd::bytes::*;
use vstd::prelude::*;
use vstd::slice::*;
use vstd::std_specs::iter::IteratorSpec;
use vstd::utf8::*;

verus! {

/// The length of the archive header: the magic bytes and the version.
pub const HEADER_LEN: usize = 7;

/// The length of the end record.
pub const END_RECORD_LEN: usize = 21;

/// No archive is shorter: a header, an end record.
pub const MIN_ARCHIVE_LEN: u64 = 28;

/// The format version that this library writes and reads.
pub const FORMAT_VERSION: u16 = 1;

/// The most entries that an archive may declare.
pub const MAX_ENTRY_COUNT: u32 = 10_000_000;

/// The zstd level that the directory is compressed at.
pub const DIRECTORY_ZSTD_LEVEL: i32 = 15;

/// The magic bytes, "QUART".
pub open spec fn magic() -> Seq<u8> {
    seq![0x51u8, 0x55u8, 0x41u8, 0x52u8, 0x54u8]
}

/// The archive header: the magic bytes, then the version as a little-endian `u16`.
pub open spec fn header_bytes() -> Seq<u8> {
    magic() + spec_u16_to_le_bytes(FORMAT_VERSION)
}

/// A file to archive: its name in the archive, its contents, its
/// modification time (seconds since the Unix epoch) and its permission bits.
pub struct InputFile {
    pub name: String,
    pub data: Vec<u8>,
    pub modified_time: u64,
    pub permissions: u32,
}

/// The value of a file to archive.
pub ghost struct InputModel {
    pub name: Seq<char>,
    pub data: Seq<u8>,
    pub modified_time: u64,
    pub permissions: u32,
}

impl View for InputFile {
    type V = InputModel;

    open spec fn view(&self) -> InputModel {
        InputModel {
            name: self.name@,
            data: self.data@,
            modified_time: self.modified_time,
            permissions: self.permissions,
        }
    }
}

/// The name in the archive of a file at the relative path `relative`: the
/// path with each backslash turned into a forward slash.
pub open spec fn archive_name_spec(relative: Seq<char>) -> Seq<char> {
    relative.map_values(|c: char| if c == '\\' { '/' } else { c })
}

/// Makes the archive name of a file from its path relative to the directory
/// being archived, so that names use forward slashes whatever the platform.
pub fn archive_name(relative: &str) -> (name: String)
    ensures
        name@ == archive_name_spec(relative@),
        name@.len() == relative@.len(),
        forall|i: int|
            0 <= i < relative@.len() ==> #[trigger] name@[i] == if relative@[i] == '\\' {
                '/'
            } else {
                relative@[i]
            },
{
    broadcast use vstd::string::axiom_spec_iter, vstd::string::next_postcondition;

    let mut chars = relative.chars();
    let mut name = String::new();
    loop
        invariant
            chars.obeys_prophetic_iter_laws(),
            chars.decrease() is Some,
            name@ + archive_name_spec(chars.remaining()) == archive_name_spec(relative@),
        ensures
            name@ == archive_name_spec(relative@),
        decreases chars.decrease()->0,
    {
        let ghost before = chars.remaining();
        match chars.next() {
            Some(c) => {
                let out = if c == '\\' {
                    '/'
                } else {
                    c
                };
                push_char(&mut name, out);
                proof {
                    assert(archive_name_spec(before) =~= seq![out] + archive_name_spec(
                        chars.remaining(),
                    ));
                    assert(name@ + archive_name_spec(chars.remaining()) =~= archive_name_spec(
                        relative@,
                    ));
                }
            },
            None => {
                assert(archive_name_spec(chars.remaining()) =~= Seq::<char>::empty());
                assert(name@ =~= archive_name_spec(relative@));
                break ;
            },
        }
    }
    proof {
        lemma_archive_name_chars(relative@);
    }
    name
}

/// An archive name has the length of the path it is made from, and holds a
/// forward slash where the path holds a backslash and the path's own
/// character everywhere else.
pub proof fn lemma_archive_name_chars(relative: Seq<char>)
    ensures
        archive_name_spec(relative).len() == relative.len(),
        forall|i: int|
            0 <= i < relative.len() ==> #[trigger] archive_name_spec(relative)[i] == if relative[i]
                == '\\' {
                '/'
            } else {
                relative[i]
            },
{
}

/// The values of a sequence of files.
pub open spec fn input_models(files: Seq<InputFile>) -> Seq<InputModel> {
    files.map_values(|f: InputFile| f@)
}

/// The compressed pieces, one after another.
pub open spec fn blobs_spec(pieces: Seq<Seq<u8>>) -> Seq<u8>
    decreases pieces.len(),
{
    if pieces.len() == 0 {
        Seq::empty()
    } else {
        blobs_spec(pieces.drop_last()) + pieces.last()
    }
}

/// The directory entry of the file `f` whose compressed data `piece`, made
/// with `algo`, starts at `offset`.
pub open spec fn entry_for(f: InputModel, offset: int, piece: Seq<u8>, algo: u8) -> EntryModel {
    EntryModel {
        filename: f.name,
        data_offset: offset as u64,
        compressed_size: piece.len() as u64,
        uncompressed_size: f.data.len() as u64,
        sha256_hash: sha256_of(f.data),
        modified_time: f.modified_time,
        permissions: f.permissions,
        compression_algo: algo,
        compression_level: compression_level_spec(algo),
        encryption_algo: 0,
        encryption_key_id: 0,
    }
}

/// The directory entries of `files`, whose compressed data are `pieces`, laid
/// one after another after the header.
pub open spec fn entries_spec(files: Seq<InputModel>, pieces: Seq<Seq<u8>>, algo: u8) -> Seq<
    EntryModel,
> {
    Seq::new(
        files.len(),
        |i: int| entry_for(files[i], HEADER_LEN + blobs_spec(pieces.take(i)).len(), pieces[i], algo),
    )
}

/// The uncompressed directory of an archive of `files` whose compressed data are `pieces`.
pub open spec fn archive_directory(files: Seq<InputModel>, pieces: Seq<Seq<u8>>, algo: u8) -> Seq<
    u8,
> {
    directory_bytes(entries_spec(files, pieces, algo))
}

/// The end record: where the directory starts, its compressed and uncompressed
/// sizes, the number of entries and the directory's compression algorithm.
pub open spec fn end_record_bytes(
    dir_offset: u64,
    comp_size: u32,
    uncomp_size: u32,
    count: u32,
    algo: u8,
) -> Seq<u8> {
    spec_u64_to_le_bytes(dir_offset) + (spec_u32_to_le_bytes(comp_size) + (spec_u32_to_le_bytes(
        uncomp_size,
    ) + (spec_u32_to_le_bytes(count) + seq![algo])))
}

/// The archive of `files` whose data were compressed by `algo` into `pieces`,
/// and whose directory was compressed into `cdir`: the header, the pieces, the
/// compressed directory and the end record.
pub open spec fn archive_spec(
    files: Seq<InputModel>,
    pieces: Seq<Seq<u8>>,
    cdir: Seq<u8>,
    algo: u8,
) -> Seq<u8> {
    let blobs = blobs_spec(pieces);
    let dir = archive_directory(files, pieces, algo);
    header_bytes() + blobs + cdir + end_record_bytes(
        (HEADER_LEN + blobs.len()) as u64,
        cdir.len() as u32,
        dir.len() as u32,
        files.len() as u32,
        ALGO_ZSTD,
    )
}

/// `bytes` is the archive of `files`, made of the compressed data `pieces` and
/// the compressed directory `cdir`: each piece is its file compressed with
/// `algo` (at the level the entries record) and decompresses to the file (with
/// LZ4, where the file's length fits in a `u32`), each digest is a full digest,
/// and `cdir` is a zstd frame of the directory at `DIRECTORY_ZSTD_LEVEL` that
/// decompresses to it.
pub open spec fn is_archive_of(
    bytes: Seq<u8>,
    files: Seq<InputModel>,
    pieces: Seq<Seq<u8>>,
    cdir: Seq<u8>,
    algo: u8,
) -> bool {
    &&& pieces.len() == files.len()
    &&& bytes == archive_spec(files, pieces, cdir, algo)
    &&& forall|i: int| 0 <= i < files.len() ==> (#[trigger] files[i]).data.len() <= u64::MAX
        && sha256_of(files[i].data).len() == HASH_LEN && compressed_as(algo, files[i].data, pieces[i])
        && ((algo != ALGO_LZ4 || files[i].data.len() <= u32::MAX) ==> decompressed_spec(
        algo,
        pieces[i],
    ) == Some(files[i].data))
    &&& zstd_frame_of(archive_directory(files, pieces, algo), DIRECTORY_ZSTD_LEVEL, cdir)
    &&& zstd_unframed(cdir) == Some(archive_directory(files, pieces, algo))
}

/// `bytes` is an archive of `files` made of `pieces` and `cdir`, and `entries`
/// are the entries it records.
pub open spec fn is_build_of(
    bytes: Seq<u8>,
    entries: Seq<EntryModel>,
    files: Seq<InputModel>,
    pieces: Seq<Seq<u8>>,
    cdir: Seq<u8>,
    algo: u8,
) -> bool {
    &&& is_archive_of(bytes, files, pieces, cdir, algo)
    &&& entries == entries_spec(files, pieces, algo)
}

/// `built` holds an archive of `files` whose data were compressed with `algo`
/// into some pieces that read back, and the entries that archive records.
pub open spec fn is_built_from(built: BuiltArchive, files: Seq<InputFile>, algo: u8) -> bool {
    exists|pieces: Seq<Seq<u8>>, cdir: Seq<u8>|
        #[trigger] is_build_of(
            built.bytes@,
            entry_models(built.entries@),
            input_models(files),
            pieces,
            cdir,
            algo,
        )
}

proof fn lemma_take_step<T>(s: Seq<T>, i: int)
    requires
        0 <= i < s.len(),
    ensures
        s.take(i + 1).drop_last() == s.take(i),
        s.take(i + 1).last() == s[i],
        s.take(i + 1).len() == i + 1,
{
    assert(s.take(i + 1).drop_last() =~= s.take(i));
}

proof fn lemma_entries_spec_push(
    files: Seq<InputModel>,
    pieces: Seq<Seq<u8>>,
    piece: Seq<u8>,
    algo: u8,
    i: int,
)
    requires
        0 <= i < files.len(),
        pieces.len() == i,
    ensures
        entries_spec(files.take(i + 1), pieces.push(piece), algo) == entries_spec(
            files.take(i),
            pieces,
            algo,
        ).push(entry_for(files[i], HEADER_LEN + blobs_spec(pieces).len(), piece, algo)),
{
    let p2 = pieces.push(piece);
    let a = entries_spec(files.take(i + 1), p2, algo);
    let b = entries_spec(files.take(i), pieces, algo).push(
        entry_for(files[i], HEADER_LEN + blobs_spec(pieces).len(), piece, algo),
    );
    assert forall|j: int| 0 <= j < a.len() implies a[j] == b[j] by {
        if j < i {
            assert(p2.take(j) =~= pieces.take(j));
            assert(p2[j] == pieces[j]);
        } else {
            assert(p2.take(j) =~= pieces);
            assert(p2[j] == piece);
            assert(files.take(i + 1)[j] == files[i]);
        }
    }
    assert(a =~= b);
}

/// Appends the compressed data of `file` to the archive being built in `out`,
/// and gives the file's directory entry: its data starts where `out` ended,
/// and `hash` is its digest.
pub fn record_file(
    out: &mut Vec<u8>,
    file: &InputFile,
    compressed: &[u8],
    hash: Vec<u8>,
    algo_id: u8,
) -> (entry: DirectoryEntry)
    ensures
        final(out)@ == old(out)@ + compressed@,
        entry@ == (EntryModel {
            filename: file.name@,
            data_offset: old(out)@.len() as u64,
            compressed_size: compressed@.len() as u64,
            uncompressed_size: file.data@.len() as u64,
            sha256_hash: hash@,
            modified_time: file.modified_time,
            permissions: file.permissions,
            compression_algo: algo_id,
            compression_level: compression_level_spec(algo_id),
            encryption_algo: 0,
            encryption_key_id: 0,
        }),
{
    let entry = DirectoryEntry {
        filename: file.name.clone(),
        data_offset: out.len() as u64,
        compressed_size: compressed.len() as u64,
        uncompressed_size: file.data.len() as u64,
        sha256_hash: hash,
        modified_time: file.modified_time,
        permissions: file.permissions,
        compression_algo: algo_id,
        compression_level: get_compression_level(algo_id),
        encryption_algo: 0,
        encryption_key_id: 0,
    };
    append_bytes(out, compressed);
    entry
}

/// Ends the archive being built in `out`: appends the compressed directory
/// (whose uncompressed length is `directory_len`), then the end record, which
/// points at where `out` ended, counts `entry_count` entries and names zstd as
/// the directory's algorithm. Lengths that do not fit in a `u32` are truncated.
pub fn finish_archive(
    out: &mut Vec<u8>,
    directory_len: usize,
    compressed_directory: &[u8],
    entry_count: usize,
)
    ensures
        final(out)@ == old(out)@ + compressed_directory@ + end_record_bytes(
            old(out)@.len() as u64,
            compressed_directory@.len() as u32,
            directory_len as u32,
            entry_count as u32,
            ALGO_ZSTD,
        ),
{
    let ghost start = out@;
    let directory_offset = out.len() as u64;
    append_bytes(out, compressed_directory);
    let mut end: Vec<u8> = u64_to_le_bytes(directory_offset);
    append_bytes(&mut end, u32_to_le_bytes(compressed_directory.len() as u32).as_slice());
    append_bytes(&mut end, u32_to_le_bytes(directory_len as u32).as_slice());
    append_bytes(&mut end, u32_to_le_bytes(entry_count as u32).as_slice());
    // The directory is always compressed with zstd.
    end.push(ALGO_ZSTD);
    append_bytes(out, end.as_slice());
    assert(end@ =~= end_record_bytes(
        directory_offset,
        compressed_directory@.len() as u32,
        directory_len as u32,
        entry_count as u32,
        ALGO_ZSTD,
    ));
    assert(out@ =~= start + compressed_directory@ + end@);
}

/// An archive that was built: its bytes, and the directory entries it records.
pub struct BuiltArchive {
    pub bytes: Vec<u8>,
    pub entries: Vec<DirectoryEntry>,
}

/// Builds the archive of `files`, compressing each file's data with `algo_id`.
///
/// Fails when there is no file, when the algorithm is unknown, or when a
/// compression library reports a failure. What it builds is an archive of
/// `files`, made of compressed data that read back, and the entries it returns
/// are those the archive records.
pub fn build_archive(files: &Vec<InputFile>, algo_id: u8) -> (r: Result<BuiltArchive, QuartError>)
    requires
        algo_id == ALGO_LZ4 ==> forall|i: int|
            0 <= i < files@.len() ==> (#[trigger] files@[i]).data@.len() * 110 <= usize::MAX,
    ensures
        files@.len() == 0 ==> r matches Err(QuartError::NoFiles),
        files@.len() > 0 && algo_id > ALGO_LAST ==> (r matches Err(QuartError::UnknownAlgorithm(a))
            && a == algo_id),
        r matches Err(e) ==> files@.len() == 0 || algo_id > ALGO_LAST || e is Io,
        r matches Ok(built) ==> is_built_from(built, files@, algo_id),
        r matches Ok(built) ==> {
            let b = built.bytes@;
            let n = b.len() as int;
            let es = entry_models(built.entries@);
            let off = spec_u64_from_le_bytes(b.subrange(n - 21, n - 13)) as int;
            &&& n >= 28
            &&& b.subrange(0, 5) == seq![0x51u8, 0x55u8, 0x41u8, 0x52u8, 0x54u8]
            &&& spec_u16_from_le_bytes(b.subrange(5, 7)) == 1
            &&& b[n - 1] == 1
            &&& spec_u32_from_le_bytes(b.subrange(n - 5, n - 1)) == files@.len() as u32
            &&& 7 <= off <= n - 21
            &&& zstd_unframed(b.subrange(off, n - 21)) == Some(directory_bytes(es))
            &&& es.len() == files@.len()
            &&& es[0].data_offset == 7
            &&& es.last().data_offset + es.last().compressed_size == off
            &&& forall|i: int|
                0 <= i < es.len() - 1 ==> (#[trigger] es[i + 1]).data_offset == es[i].data_offset
                    + es[i].compressed_size
            &&& forall|i: int|
                0 <= i < es.len() ==> {
                    &&& (#[trigger] es[i]).filename == files@[i].name@
                    &&& es[i].uncompressed_size == files@[i].data@.len()
                    &&& es[i].sha256_hash == sha256_of(files@[i].data@)
                    &&& es[i].modified_time == files@[i].modified_time
                    &&& es[i].permissions == files@[i].permissions
                    &&& es[i].compression_algo == algo_id
                    &&& es[i].compression_level == compression_level_spec(algo_id)
                    &&& es[i].encryption_algo == 0 && es[i].encryption_key_id == 0
                    &&& compressed_as(
                        algo_id,
                        files@[i].data@,
                        b.subrange(es[i].data_offset as int, es[i].data_offset + es[i].compressed_size),
                    )
                    &&& (algo_id != ALGO_LZ4 || files@[i].data@.len() <= u32::MAX) ==> decompressed_spec(
                        algo_id,
                        b.subrange(es[i].data_offset as int, es[i].data_offset + es[i].compressed_size),
                    ) == Some(files@[i].data@)
                }
        },
{
    if files.len() == 0 {
        return Err(QuartError::NoFiles);
    }
    if algo_id > ALGO_LAST {
        return Err(QuartError::UnknownAlgorithm(algo_id));
    }
    let ghost models = input_models(files@);
    let ghost mut pieces: Seq<Seq<u8>> = Seq::empty();
    let mut out: Vec<u8> = Vec::new();
    out.push(0x51);
    out.push(0x55);
    out.push(0x41);
    out.push(0x52);
    out.push(0x54);
    let version = u16_to_le_bytes(FORMAT_VERSION);
    append_bytes(&mut out, version.as_slice());
    assert(out@ =~= header_bytes() + blobs_spec(pieces));
    assert(entry_models(Seq::<DirectoryEntry>::empty()) =~= entries_spec(
        models.take(0),
        pieces,
        algo_id,
    ));
    let mut entries: Vec<DirectoryEntry> = Vec::new();
    let mut i: usize = 0;
    while i < files.len()
        invariant
            algo_id <= ALGO_LAST,
            models == input_models(files@),
            i <= files@.len(),
            pieces.len() == i,
            algo_id == ALGO_LZ4 ==> forall|i: int|
                0 <= i < files@.len() ==> (#[trigger] files@[i]).data@.len() * 110 <= usize::MAX,
            out@ == header_bytes() + blobs_spec(pieces),
            entry_models(entries@) == entries_spec(models.take(i as int), pieces, algo_id),
            forall|j: int|
                0 <= j < i ==> (#[trigger] models[j]).data.len() <= u64::MAX && sha256_of(
                    models[j].data,
                ).len() == HASH_LEN && compressed_as(algo_id, models[j].data, pieces[j]) && ((algo_id
                    != ALGO_LZ4 || models[j].data.len() <= u32::MAX) ==> decompressed_spec(
                    algo_id,
                    pieces[j],
                ) == Some(models[j].data)),
        decreases files@.len() - i,
    {
        let f = &files[i];
        let data = f.data.as_slice();
        proof {
            broadcast use vstd::slice::group_slice_axioms;

            assert(data@.len() == data.len());
        }
        let compressed = match compress_data(data, algo_id) {
            Ok(c) => c,
            Err(e) => {
                return Err(e);
            },
        };
        let hash = sha256(data);
        let ghost before = out@;
        let entry = record_file(&mut out, f, compressed.as_slice(), hash, algo_id);
        proof {
            lemma_take_step(models, i as int);
            lemma_entries_spec_push(models, pieces, compressed@, algo_id, i as int);
            assert(models[i as int] == f@);
            assert(before.len() == HEADER_LEN + blobs_spec(pieces).len()) by {
                lemma_auto_spec_u16_to_from_le_bytes();
            }
            assert(entry@ == entry_for(
                models[i as int],
                HEADER_LEN + blobs_spec(pieces).len(),
                compressed@,
                algo_id,
            ));
            assert(entry_models(entries@.push(entry)) =~= entry_models(entries@).push(entry@));
            let p2 = pieces.push(compressed@);
            assert(p2.drop_last() =~= pieces);
            assert(out@ =~= header_bytes() + blobs_spec(p2));
            pieces = p2;
        }
        entries.push(entry);
        i = i + 1;
    }
    proof {
        assert(models.take(i as int) =~= models);
        lemma_auto_spec_u16_to_from_le_bytes();
        lemma_auto_spec_u32_to_from_le_bytes();
        lemma_auto_spec_u64_to_from_le_bytes();
    }
    let directory = write_directory(&entries);
    let compressed_directory = match zstd_compress(directory.as_slice(), DIRECTORY_ZSTD_LEVEL) {
        Ok(c) => c,
        Err(e) => {
            return Err(QuartError::Io(io_error_text(&e)));
        },
    };
    finish_archive(&mut out, directory.len(), compressed_directory.as_slice(), entries.len());
    proof {
        assert(entries@.len() == models.len());
        assert(out@ =~= archive_spec(models, pieces, compressed_directory@, algo_id));
        assert(is_archive_of(out@, models, pieces, compressed_directory@, algo_id));
        assert(entry_models(entries@) == entries_spec(models, pieces, algo_id));
    }
    let built = BuiltArchive { bytes: out, entries };
    assert(is_archive_of(
        built.bytes@,
        input_models(files@),
        pieces,
        compressed_directory@,
        algo_id,
    ));
    assert(is_build_of(
        built.bytes@,
        entry_models(built.entries@),
        input_models(files@),
        pieces,
        compressed_directory@,
        algo_id,
    ));
    assert(is_built_from(built, files@, algo_id));
    let total = built.bytes.len();
    proof {
        assert(built.bytes@.len() == total as int);
        assert(total as int <= u64::MAX);
        lemma_archive_layout(
            built.bytes@,
            input_models(files@),
            pieces,
            compressed_directory@,
            algo_id,
        );
        lemma_auto_spec_u64_to_from_le_bytes();
        let es = entry_models(built.entries@);
        assert forall|i: int| 0 <= i < es.len() implies (#[trigger] es[i]).filename
            == files@[i].name@ by {
            assert(input_models(files@)[i] == files@[i]@);
        }
    }
    Ok(built)
}

/// What reading an archive yields: where its directory starts, how many
/// entries the end record declares, and the entries.
pub struct ArchiveIndex {
    pub directory_offset: u64,
    pub entry_count: u32,
    pub entries: Vec<DirectoryEntry>,
}

/// The value of an archive index.
pub ghost struct IndexModel {
    pub directory_offset: u64,
    pub entry_count: u32,
    pub entries: Seq<EntryModel>,
}

impl View for ArchiveIndex {
    type V = IndexModel;

    open spec fn view(&self) -> IndexModel {
        IndexModel {
            directory_offset: self.directory_offset,
            entry_count: self.entry_count,
            entries: entry_models(self.entries@),
        }
    }
}

/// Reading the archive `bytes`: its index, or the first check that fails.
///
/// In order: the magic bytes, the version, the least length, then the end
/// record (the directory must start inside the archive and after the header,
/// the entry count be at most `MAX_ENTRY_COUNT`, the compressed directory lie
/// inside the archive), then the directory's decompression, its size, and
/// its entries.
pub open spec fn read_index_spec(bytes: Seq<u8>) -> Result<IndexModel, QuartError> {
    let len = bytes.len();
    if len < 5 {
        Err(QuartError::UnexpectedEof)
    } else if bytes.subrange(0, 5) != magic() {
        Err(QuartError::InvalidMagic)
    } else if len < HEADER_LEN {
        Err(QuartError::UnexpectedEof)
    } else if spec_u16_from_le_bytes(bytes.subrange(5, 7)) != FORMAT_VERSION {
        Err(QuartError::UnsupportedVersion(spec_u16_from_le_bytes(bytes.subrange(5, 7))))
    } else if len < MIN_ARCHIVE_LEN {
        Err(QuartError::TooSmall)
    } else {
        let end = bytes.subrange(len - END_RECORD_LEN, len as int);
        let offset = spec_u64_from_le_bytes(end.subrange(0, 8));
        let comp_size = spec_u32_from_le_bytes(end.subrange(8, 12));
        let uncomp_size = spec_u32_from_le_bytes(end.subrange(12, 16));
        let count = spec_u32_from_le_bytes(end.subrange(16, 20));
        let dir_algo = end[20];
        if offset >= len {
            Err(QuartError::InvalidDirectoryOffset)
        } else if offset < HEADER_LEN {
            Err(QuartError::DirectoryOverlapsHeader)
        } else if count > MAX_ENTRY_COUNT {
            Err(QuartError::UnreasonableEntryCount)
        } else if offset + comp_size > len {
            Err(QuartError::UnexpectedEof)
        } else if dir_algo > ALGO_LAST {
            Err(QuartError::UnknownAlgorithm(dir_algo))
        } else {
            match decompressed_spec(dir_algo, bytes.subrange(offset as int, offset + comp_size)) {
                None => Err(failure_of(dir_algo)),
                Some(dir) => if dir.len() != uncomp_size {
                    Err(QuartError::DirectorySizeMismatch)
                } else {
                    match parse_directory_spec(dir, count) {
                        Ok(entries) => Ok(
                            IndexModel { directory_offset: offset, entry_count: count, entries },
                        ),
                        Err(e) => Err(e),
                    }
                },
            }
        }
    }
}

/// What reading an archive checks and gives: bytes that do not start with the
/// magic "QUART" are refused as such; an index is only read from bytes that
/// start with it and the version 1 (a little-endian `u16`), that are at least
/// 28 bytes long, and whose end record (the last 21 bytes) names a directory
/// offset past the header and inside the archive, at most 10,000,000 entries,
/// and a compressed directory that lies inside the archive, decompresses with
/// the algorithm the record names to the recorded uncompressed length, and
/// reads as that many entries, which the index holds.
pub proof fn lemma_read_index_checks(bytes: Seq<u8>)
    ensures
        bytes.len() < 5 ==> read_index_spec(bytes) == Err::<IndexModel, QuartError>(
            QuartError::UnexpectedEof,
        ),
        bytes.len() >= 5 && bytes.subrange(0, 5) != seq![0x51u8, 0x55u8, 0x41u8, 0x52u8, 0x54u8]
            ==> read_index_spec(bytes) == Err::<IndexModel, QuartError>(QuartError::InvalidMagic),
        read_index_spec(bytes) matches Ok(idx) ==> {
            let n = bytes.len() as int;
            let off = idx.directory_offset as int;
            let cs = spec_u32_from_le_bytes(bytes.subrange(n - 13, n - 9)) as int;
            let us = spec_u32_from_le_bytes(bytes.subrange(n - 9, n - 5)) as int;
            let algo = bytes[n - 1];
            &&& bytes.subrange(0, 5) == seq![0x51u8, 0x55u8, 0x41u8, 0x52u8, 0x54u8]
            &&& spec_u16_from_le_bytes(bytes.subrange(5, 7)) == 1
            &&& n >= 28
            &&& idx.directory_offset == spec_u64_from_le_bytes(bytes.subrange(n - 21, n - 13))
            &&& 7 <= off < n
            &&& off + cs <= n
            &&& idx.entry_count == spec_u32_from_le_bytes(bytes.subrange(n - 5, n - 1))
            &&& idx.entry_count <= 10_000_000
            &&& idx.entries.len() == idx.entry_count
            &&& algo <= ALGO_LAST
            &&& decompressed_spec(algo, bytes.subrange(off, off + cs)) matches Some(dir) && dir.len()
                == us && parse_directory_spec(dir, idx.entry_count) == Ok::<
                Seq<EntryModel>,
                QuartError,
            >(idx.entries)
        },
{
    let n = bytes.len() as int;
    if n >= 5 {
        assert(magic() =~= seq![0x51u8, 0x55u8, 0x41u8, 0x52u8, 0x54u8]);
    }
    if n >= 28 {
        let end = bytes.subrange(n - 21, n);
        assert(end.subrange(0, 8) =~= bytes.subrange(n - 21, n - 13));
        assert(end.subrange(8, 12) =~= bytes.subrange(n - 13, n - 9));
        assert(end.subrange(12, 16) =~= bytes.subrange(n - 9, n - 5));
        assert(end.subrange(16, 20) =~= bytes.subrange(n - 5, n - 1));
        assert(end[20] == bytes[n - 1]);
        if read_index_spec(bytes) is Ok {
            let cs = spec_u32_from_le_bytes(end.subrange(8, 12));
            let us = spec_u32_from_le_bytes(end.subrange(12, 16));
            let off = spec_u64_from_le_bytes(end.subrange(0, 8));
            let dir = decompressed_spec(end[20], bytes.subrange(off as int, off + cs))->Some_0;
            lemma_directory_count(dir, spec_u32_from_le_bytes(end.subrange(16, 20)));
        }
    }
}

/// Reads the index of the archive `bytes`.
pub fn read_archive(bytes: &[u8]) -> (r: Result<ArchiveIndex, QuartError>)
    ensures
        r is Ok <==> read_index_spec(bytes@) is Ok,
        r matches Ok(index) ==> read_index_spec(bytes@) == Ok::<IndexModel, QuartError>(index@),
        r matches Err(e) ==> read_index_spec(bytes@) matches Err(f) && same_error(e, f),
        bytes@.len() >= 5 && bytes@.subrange(0, 5) != seq![0x51u8, 0x55u8, 0x41u8, 0x52u8, 0x54u8]
            ==> r matches Err(QuartError::InvalidMagic),
        r matches Ok(index) ==> {
            let n = bytes@.len() as int;
            &&& bytes@.subrange(0, 5) == seq![0x51u8, 0x55u8, 0x41u8, 0x52u8, 0x54u8]
            &&& spec_u16_from_le_bytes(bytes@.subrange(5, 7)) == 1
            &&& n >= 28
            &&& index.directory_offset == spec_u64_from_le_bytes(bytes@.subrange(n - 21, n - 13))
            &&& 7 <= index.directory_offset < n
            &&& index.entry_count == spec_u32_from_le_bytes(bytes@.subrange(n - 5, n - 1))
            &&& index.entry_count <= 10_000_000
            &&& index.entries@.len() == index.entry_count
        },
{
    proof {
        lemma_read_index_checks(bytes@);
    }
    let len = bytes.len();
    if len < 5 {
        return Err(QuartError::UnexpectedEof);
    }
    proof {
        if bytes@.subrange(0, 5) == magic() {
            assert(bytes@[0] == bytes@.subrange(0, 5)[0]);
            assert(bytes@[1] == bytes@.subrange(0, 5)[1]);
            assert(bytes@[2] == bytes@.subrange(0, 5)[2]);
            assert(bytes@[3] == bytes@.subrange(0, 5)[3]);
            assert(bytes@[4] == bytes@.subrange(0, 5)[4]);
        }
    }
    if !(bytes[0] == 0x51 && bytes[1] == 0x55 && bytes[2] == 0x41 && bytes[3] == 0x52 && bytes[4]
        == 0x54) {
        return Err(QuartError::InvalidMagic);
    }
    assert(bytes@.subrange(0, 5) =~= magic());
    if len < HEADER_LEN {
        return Err(QuartError::UnexpectedEof);
    }
    let version = u16_from_le_bytes(slice_subrange(bytes, 5, 7));
    if version != FORMAT_VERSION {
        return Err(QuartError::UnsupportedVersion(version));
    }
    let file_size = len as u64;
    if file_size < MIN_ARCHIVE_LEN {
        return Err(QuartError::TooSmall);
    }
    let end = slice_subrange(bytes, len - END_RECORD_LEN, len);
    let offset = u64_from_le_bytes(slice_subrange(end, 0, 8));
    let comp_size = u32_from_le_bytes(slice_subrange(end, 8, 12));
    let uncomp_size = u32_from_le_bytes(slice_subrange(end, 12, 16));
    let entry_count = u32_from_le_bytes(slice_subrange(end, 16, 20));
    let dir_algo = end[20];
    if offset >= file_size {
        return Err(QuartError::InvalidDirectoryOffset);
    }
    if offset < HEADER_LEN as u64 {
        return Err(QuartError::DirectoryOverlapsHeader);
    }
    if entry_count > MAX_ENTRY_COUNT {
        return Err(QuartError::UnreasonableEntryCount);
    }
    let start = offset as usize;
    if comp_size as usize > len - start {
        return Err(QuartError::UnexpectedEof);
    }
    let compressed_directory = slice_subrange(bytes, start, start + comp_size as usize);
    let directory = match decompress_data(compressed_directory, dir_algo) {
        Ok(d) => d,
        Err(e) => {
            return Err(e);
        },
    };
    if directory.len() != uncomp_size as usize {
        return Err(QuartError::DirectorySizeMismatch);
    }
    let entries = match parse_directory(directory.as_slice(), entry_count) {
        Ok(es) => es,
        Err(e) => {
            return Err(e);
        },
    };
    Ok(ArchiveIndex { directory_offset: offset, entry_count, entries })
}

/// What extracting an entry yields.
pub enum Extraction {
    /// The entry's data reaches into the directory: it is skipped.
    Overlaps,
    /// The entry's data, decompressed; whether its length is the recorded
    /// size, and whether its digest is the recorded digest.
    Decompressed { data: Vec<u8>, size_matches: bool, hash_matches: bool },
}

/// The value of an extraction.
pub ghost enum ExtractionModel {
    Overlaps,
    Decompressed { data: Seq<u8>, size_matches: bool, hash_matches: bool },
}

impl View for Extraction {
    type V = ExtractionModel;

    open spec fn view(&self) -> ExtractionModel {
        match self {
            Extraction::Overlaps => ExtractionModel::Overlaps,
            Extraction::Decompressed { data, size_matches, hash_matches } => {
                ExtractionModel::Decompressed {
                    data: data@,
                    size_matches: *size_matches,
                    hash_matches: *hash_matches,
                }
            },
        }
    }
}

/// Extracting the entry `e` from the archive `bytes` whose directory starts at
/// `dir_offset`: data that reaches past the directory's start is skipped;
/// otherwise it is read, decompressed, and held against the recorded size and digest.
pub open spec fn extract_spec(bytes: Seq<u8>, dir_offset: u64, e: EntryModel) -> Result<
    ExtractionModel,
    QuartError,
> {
    let end = e.data_offset + e.compressed_size;
    if end > dir_offset {
        Ok(ExtractionModel::Overlaps)
    } else if end > bytes.len() {
        Err(QuartError::UnexpectedEof)
    } else if e.compression_algo > ALGO_LAST {
        Err(QuartError::UnknownAlgorithm(e.compression_algo))
    } else {
        match decompressed_spec(e.compression_algo, bytes.subrange(e.data_offset as int, end)) {
            None => Err(failure_of(e.compression_algo)),
            Some(data) => Ok(
                ExtractionModel::Decompressed {
                    data,
                    size_matches: data.len() == e.uncompressed_size,
                    hash_matches: sha256_of(data) == e.sha256_hash,
                },
            ),
        }
    }
}

/// Whether two byte strings are equal.
fn bytes_eq(a: &[u8], b: &[u8]) -> (r: bool)
    ensures
        r == (a@ == b@),
{
    if a.len() != b.len() {
        return false;
    }
    let mut i: usize = 0;
    while i < a.len()
        invariant
            a@.len() == b@.len(),
            i <= a@.len(),
            forall|j: int| 0 <= j < i ==> a@[j] == b@[j],
        decreases a@.len() - i,
    {
        if a[i] != b[i] {
            return false;
        }
        i = i + 1;
    }
    assert(a@ =~= b@);
    true
}

/// Extracts `entry` from the archive `bytes` whose directory starts at `directory_offset`.
pub fn extract_entry(bytes: &[u8], directory_offset: u64, entry: &DirectoryEntry) -> (r: Result<
    Extraction,
    QuartError,
>)
    ensures
        r is Ok <==> extract_spec(bytes@, directory_offset, entry@) is Ok,
        r matches Ok(x) ==> extract_spec(bytes@, directory_offset, entry@) == Ok::<
            ExtractionModel,
            QuartError,
        >(x@),
        r matches Err(e) ==> extract_spec(bytes@, directory_offset, entry@) matches Err(f)
            && same_error(e, f),
        r matches Ok(x) ==> (x is Overlaps <==> entry.data_offset + entry.compressed_size
            > directory_offset),
        r matches Ok(Extraction::Decompressed { data, size_matches, hash_matches }) ==> {
            &&& hash_matches == (sha256_of(data@) == entry.sha256_hash@)
            &&& size_matches == (data@.len() == entry.uncompressed_size)
            &&& entry.data_offset + entry.compressed_size <= directory_offset
            &&& entry.data_offset + entry.compressed_size <= bytes@.len()
            &&& entry.compression_algo <= ALGO_LAST
            &&& decompressed_spec(
                entry.compression_algo,
                bytes@.subrange(
                    entry.data_offset as int,
                    entry.data_offset + entry.compressed_size,
                ),
            ) == Some(data@)
        },
{
    if entry.data_offset > directory_offset || entry.compressed_size > directory_offset
        - entry.data_offset {
        return Ok(Extraction::Overlaps);
    }
    let end = entry.data_offset + entry.compressed_size;
    if end > bytes.len() as u64 {
        return Err(QuartError::UnexpectedEof);
    }
    let compressed = slice_subrange(bytes, entry.data_offset as usize, end as usize);
    let data = match decompress_data(compressed, entry.compression_algo) {
        Ok(d) => d,
        Err(e) => {
            return Err(e);
        },
    };
    let size_matches = data.len() as u64 == entry.uncompressed_size;
    let hash = sha256(data.as_slice());
    let hash_matches = bytes_eq(hash.as_slice(), entry.sha256_hash.as_slice());
    Ok(Extraction::Decompressed { data, size_matches, hash_matches })
}

/// What an extraction holds: data that reaches past the directory's start is
/// skipped, and only such data; otherwise the data is what the entry's
/// algorithm decompresses from the entry's bytes, its size matches when its
/// length is the recorded size, and its digest matches when the SHA-256 digest
/// of the data is the recorded digest, all of its bytes.
pub proof fn lemma_extraction_checks(bytes: Seq<u8>, dir_offset: u64, e: EntryModel)
    ensures
        extract_spec(bytes, dir_offset, e) matches Ok(x) ==> (x is Overlaps <==> e.data_offset
            + e.compressed_size > dir_offset),
        extract_spec(bytes, dir_offset, e) matches Ok(
            ExtractionModel::Decompressed { data, size_matches, hash_matches },
        ) ==> {
            &&& hash_matches == (sha256_of(data) == e.sha256_hash)
            &&& size_matches == (data.len() == e.uncompressed_size)
            &&& e.data_offset + e.compressed_size <= dir_offset
            &&& e.data_offset + e.compressed_size <= bytes.len()
            &&& e.compression_algo <= ALGO_LAST
            &&& decompressed_spec(
                e.compression_algo,
                bytes.subrange(e.data_offset as int, e.data_offset + e.compressed_size),
            ) == Some(data)
        },
        e.data_offset + e.compressed_size <= dir_offset && e.data_offset + e.compressed_size
            > bytes.len() ==> extract_spec(bytes, dir_offset, e) == Err::<ExtractionModel, QuartError>(
            QuartError::UnexpectedEof,
        ),
{
}

/// What to do with an extracted entry.
#[derive(Debug, Clone, Copy, PartialEq, Eq, Structural)]
pub enum ExtractAction {
    /// The entry's data reaches into the directory: skip it.
    SkipOverlapping,
    /// The data's digest is not the recorded one: report the corruption and
    /// skip it; warn first if its size is not the recorded one either.
    SkipCorrupted { size_mismatch: bool },
    /// Write the data out; warn first if its size is not the recorded one.
    Write { size_mismatch: bool },
}

/// The action that an extraction calls for: overlapping data is skipped,
/// data whose digest does not match is skipped as corrupted, other data is
/// written; a size that does not match the recorded size is warned about.
pub fn extraction_action(x: &Extraction) -> (a: ExtractAction)
    ensures
        match x@ {
            ExtractionModel::Overlaps => a == ExtractAction::SkipOverlapping,
            ExtractionModel::Decompressed { data, size_matches, hash_matches } => if hash_matches {
                a == ExtractAction::Write { size_mismatch: !size_matches }
            } else {
                a == ExtractAction::SkipCorrupted { size_mismatch: !size_matches }
            },
        },
{
    match x {
        Extraction::Overlaps => ExtractAction::SkipOverlapping,
        Extraction::Decompressed { data: _, size_matches, hash_matches } => {
            if *hash_matches {
                ExtractAction::Write { size_mismatch: !*size_matches }
            } else {
                ExtractAction::SkipCorrupted { size_mismatch: !*size_matches }
            }
        },
    }
}

proof fn lemma_blobs_prefix(pieces: Seq<Seq<u8>>, k: int, m: int)
    requires
        0 <= k <= m <= pieces.len(),
    ensures
        blobs_spec(pieces.take(k)).len() <= blobs_spec(pieces.take(m)).len(),
        blobs_spec(pieces.take(m)).subrange(0, blobs_spec(pieces.take(k)).len() as int)
            == blobs_spec(pieces.take(k)),
    decreases m - k,
{
    if k == m {
        assert(blobs_spec(pieces.take(m)).subrange(0, blobs_spec(pieces.take(k)).len() as int)
            =~= blobs_spec(pieces.take(k)));
    } else {
        lemma_blobs_prefix(pieces, k, m - 1);
        lemma_take_step(pieces, m - 1);
        let a = blobs_spec(pieces.take(m - 1));
        let b = blobs_spec(pieces.take(m));
        assert(b == a + pieces[m - 1]);
        let pk = blobs_spec(pieces.take(k));
        assert(b.subrange(0, pk.len() as int) =~= a.subrange(0, pk.len() as int));
    }
}

proof fn lemma_blobs_piece(pieces: Seq<Seq<u8>>, i: int)
    requires
        0 <= i < pieces.len(),
    ensures
        ({
            let p = blobs_spec(pieces.take(i)).len();
            let c = pieces[i];
            &&& p + c.len() <= blobs_spec(pieces).len()
            &&& blobs_spec(pieces).subrange(p as int, (p + c.len()) as int) == c
        }),
{
    lemma_take_step(pieces, i);
    lemma_blobs_prefix(pieces, i + 1, pieces.len() as int);
    assert(pieces.take(pieces.len() as int) =~= pieces);
    let p = blobs_spec(pieces.take(i)).len();
    let c = pieces[i];
    let whole = blobs_spec(pieces);
    let upto = blobs_spec(pieces.take(i + 1));
    assert(upto == blobs_spec(pieces.take(i)) + c);
    assert(whole.subrange(p as int, (p + c.len()) as int) =~= c) by {
        assert forall|j: int| 0 <= j < c.len() implies whole.subrange(
            p as int,
            (p + c.len()) as int,
        )[j] == c[j] by {
            assert(whole.subrange(0, upto.len() as int)[p + j] == upto[p + j]);
        }
    }
}

/// The layout of an archive of `files`: the magic bytes "QUART" and the
/// version 1 as a little-endian `u16`; each file's compressed data right after
/// the previous one's, the first right after the header; the compressed
/// directory right after the data; and the end record in the last 21 bytes:
/// the directory's offset as a little-endian `u64`, its compressed and
/// uncompressed lengths and the number of files as little-endian `u32`s, and
/// the directory's algorithm, zstd (1). Each entry records its file's name,
/// length, digest, time and permissions, and the algorithm and level of its data.
pub proof fn lemma_archive_layout(
    bytes: Seq<u8>,
    files: Seq<InputModel>,
    pieces: Seq<Seq<u8>>,
    cdir: Seq<u8>,
    algo: u8,
)
    requires
        is_archive_of(bytes, files, pieces, cdir, algo),
        bytes.len() <= u64::MAX,
    ensures
        ({
            let n = bytes.len() as int;
            let off = n - 21 - cdir.len();
            let es = entries_spec(files, pieces, algo);
            &&& n >= 28
            &&& bytes.subrange(0, 5) == seq![0x51u8, 0x55u8, 0x41u8, 0x52u8, 0x54u8]
            &&& spec_u16_from_le_bytes(bytes.subrange(5, 7)) == 1
            &&& bytes[n - 1] == 1
            &&& spec_u64_from_le_bytes(bytes.subrange(n - 21, n - 13)) == off
            &&& spec_u32_from_le_bytes(bytes.subrange(n - 13, n - 9)) == cdir.len() as u32
            &&& spec_u32_from_le_bytes(bytes.subrange(n - 9, n - 5)) == directory_bytes(es).len() as u32
            &&& spec_u32_from_le_bytes(bytes.subrange(n - 5, n - 1)) == files.len() as u32
            &&& bytes.subrange(off, n - 21) == cdir
            &&& zstd_unframed(cdir) == Some(directory_bytes(es))
            &&& es.len() == files.len()
            &&& files.len() == 0 ==> off == 7
            &&& files.len() > 0 ==> es[0].data_offset == 7 && es.last().data_offset
                + es.last().compressed_size == off
            &&& forall|i: int|
                0 <= i < files.len() - 1 ==> (#[trigger] es[i + 1]).data_offset == es[i].data_offset
                    + es[i].compressed_size
            &&& forall|i: int|
                0 <= i < files.len() ==> {
                    &&& (#[trigger] es[i]).filename == files[i].name
                    &&& es[i].uncompressed_size == files[i].data.len()
                    &&& es[i].sha256_hash == sha256_of(files[i].data)
                    &&& es[i].modified_time == files[i].modified_time
                    &&& es[i].permissions == files[i].permissions
                    &&& es[i].compression_algo == algo
                    &&& es[i].compression_level == compression_level_spec(algo)
                    &&& es[i].encryption_algo == 0 && es[i].encryption_key_id == 0
                    &&& bytes.subrange(
                        es[i].data_offset as int,
                        es[i].data_offset + es[i].compressed_size,
                    ) == pieces[i]
                }
        }),
{
    lemma_auto_spec_u16_to_from_le_bytes();
    lemma_auto_spec_u32_to_from_le_bytes();
    lemma_auto_spec_u64_to_from_le_bytes();
    let blobs = blobs_spec(pieces);
    let es = entries_spec(files, pieces, algo);
    let dir = archive_directory(files, pieces, algo);
    let off = (HEADER_LEN + blobs.len()) as u64;
    let t64 = spec_u64_to_le_bytes(off);
    let t1 = spec_u32_to_le_bytes(cdir.len() as u32);
    let t2 = spec_u32_to_le_bytes(dir.len() as u32);
    let t3 = spec_u32_to_le_bytes(files.len() as u32);
    let end = end_record_bytes(off, cdir.len() as u32, dir.len() as u32, files.len() as u32, ALGO_ZSTD);
    assert(end =~= t64 + t1 + t2 + t3 + seq![1u8]);
    let header = header_bytes();
    assert(header.len() == HEADER_LEN);
    assert(bytes == header + blobs + cdir + end);
    let n = bytes.len() as int;
    assert(n == 28 + blobs.len() + cdir.len());
    assert(bytes.subrange(0, 5) =~= magic());
    assert(bytes.subrange(5, 7) =~= spec_u16_to_le_bytes(FORMAT_VERSION));
    assert(bytes.subrange(n - 21, n - 13) =~= t64);
    assert(bytes.subrange(n - 13, n - 9) =~= t1);
    assert(bytes.subrange(n - 9, n - 5) =~= t2);
    assert(bytes.subrange(n - 5, n - 1) =~= t3);
    assert(bytes[n - 1] == end[20]);
    assert(bytes.subrange(n - 21 - cdir.len(), n - 21) =~= cdir);
    assert forall|i: int| 0 <= i < files.len() implies {
        &&& (#[trigger] es[i]).data_offset + es[i].compressed_size <= off
        &&& es[i].data_offset == HEADER_LEN + blobs_spec(pieces.take(i)).len()
        &&& bytes.subrange(es[i].data_offset as int, es[i].data_offset + es[i].compressed_size)
            == pieces[i]
    } by {
        lemma_blobs_piece(pieces, i);
        let p = blobs_spec(pieces.take(i)).len();
        let c = pieces[i];
        assert(bytes.subrange(HEADER_LEN + p, HEADER_LEN + p + c.len()) =~= c) by {
            assert forall|j: int| 0 <= j < c.len() implies bytes.subrange(
                HEADER_LEN + p,
                HEADER_LEN + p + c.len(),
            )[j] == c[j] by {
                assert(blobs.subrange(p as int, (p + c.len()) as int)[j] == blobs[p + j]);
            }
        }
    }
    assert forall|i: int| 0 <= i < files.len() - 1 implies (#[trigger] es[i + 1]).data_offset
        == es[i].data_offset + es[i].compressed_size by {
        lemma_take_step(pieces, i);
        assert(es[i + 1].data_offset == HEADER_LEN + blobs_spec(pieces.take(i + 1)).len());
    }
    if files.len() > 0 {
        assert(pieces.take(0) =~= Seq::<Seq<u8>>::empty());
        let k = files.len() - 1;
        lemma_take_step(pieces, k);
        assert(pieces.take(k + 1) =~= pieces);
        assert(es.last() == es[k]);
    } else {
        assert(pieces =~= Seq::<Seq<u8>>::empty());
    }
}

/// Extraction gives back what creation stored: reading an archive of `files`
/// (such as `build_archive` makes) gives the directory offset, one entry per
/// file in order (with its name, modification time and permissions), and
/// extracting each entry gives the file's data with its size and digest as
/// recorded.
///
/// It holds where the format's fields can record the archive: at most
/// `MAX_ENTRY_COUNT` files, directory sizes that fit in a `u32`, filename and
/// archive lengths that fit in a `u64`, and, with LZ4, files whose lengths fit
/// in a `u32`.
pub proof fn lemma_extract_after_create(
    bytes: Seq<u8>,
    files: Seq<InputModel>,
    pieces: Seq<Seq<u8>>,
    cdir: Seq<u8>,
    algo: u8,
)
    requires
        is_archive_of(bytes, files, pieces, cdir, algo),
        algo <= ALGO_LAST,
        0 < files.len() <= MAX_ENTRY_COUNT,
        forall|i: int| 0 <= i < files.len() ==> encode_utf8((#[trigger] files[i]).name).len() <= u64::MAX,
        algo == ALGO_LZ4 ==> forall|i: int|
            0 <= i < files.len() ==> (#[trigger] files[i]).data.len() <= u32::MAX,
        bytes.len() <= u64::MAX,
        archive_directory(files, pieces, algo).len() <= u32::MAX,
        cdir.len() <= u32::MAX,
    ensures
        read_index_spec(bytes) == Ok::<IndexModel, QuartError>(
            IndexModel {
                directory_offset: (HEADER_LEN + blobs_spec(pieces).len()) as u64,
                entry_count: files.len() as u32,
                entries: entries_spec(files, pieces, algo),
            },
        ),
        entries_spec(files, pieces, algo).len() == files.len(),
        forall|i: int|
            0 <= i < files.len() ==> {
                &&& (#[trigger] entries_spec(files, pieces, algo)[i]).filename == files[i].name
                &&& entries_spec(files, pieces, algo)[i].modified_time == files[i].modified_time
                &&& entries_spec(files, pieces, algo)[i].permissions == files[i].permissions
                &&& extract_spec(
                    bytes,
                    (HEADER_LEN + blobs_spec(pieces).len()) as u64,
                    entries_spec(files, pieces, algo)[i],
                ) == Ok::<ExtractionModel, QuartError>(
                    ExtractionModel::Decompressed {
                        data: files[i].data,
                        size_matches: true,
                        hash_matches: true,
                    },
                )
            },
{
    lemma_auto_spec_u16_to_from_le_bytes();
    lemma_auto_spec_u32_to_from_le_bytes();
    lemma_auto_spec_u64_to_from_le_bytes();
    let blobs = blobs_spec(pieces);
    let entries = entries_spec(files, pieces, algo);
    let dir = archive_directory(files, pieces, algo);
    let off = (HEADER_LEN + blobs.len()) as u64;
    let count = files.len() as u32;
    let t64 = spec_u64_to_le_bytes(off);
    let t1 = spec_u32_to_le_bytes(cdir.len() as u32);
    let t2 = spec_u32_to_le_bytes(dir.len() as u32);
    let t3 = spec_u32_to_le_bytes(count);
    let tail = seq![ALGO_ZSTD];
    let end = end_record_bytes(off, cdir.len() as u32, dir.len() as u32, count, ALGO_ZSTD);
    assert(end == t64 + (t1 + (t2 + (t3 + tail))));
    assert(end.len() == END_RECORD_LEN);
    let header = header_bytes();
    assert(header.len() == HEADER_LEN);
    assert(bytes == header + blobs + cdir + end);
    let len = bytes.len();
    assert(off == HEADER_LEN + blobs.len());

    // The header.
    assert(bytes.subrange(0, 5) =~= magic());
    assert(bytes.subrange(5, 7) =~= spec_u16_to_le_bytes(FORMAT_VERSION));

    // The end record.
    assert(bytes.subrange(len - END_RECORD_LEN, len as int) =~= end);
    assert(end.subrange(0, end.len() as int) =~= end);
    lemma_split(end, 0, t64, t1 + (t2 + (t3 + tail)));
    lemma_split(end, 8, t1, t2 + (t3 + tail));
    lemma_split(end, 12, t2, t3 + tail);
    lemma_split(end, 16, t3, tail);
    assert(end[20] == ALGO_ZSTD) by {
        assert(end.subrange(20, 21)[0] == tail[0]);
    }

    // The directory.
    assert(bytes.subrange(off as int, off + cdir.len()) =~= cdir);
    assert forall|i: int| 0 <= i < entries.len() implies entry_wf(#[trigger] entries[i]) by {
        assert(entries[i].sha256_hash == sha256_of(files[i].data));
    }
    lemma_directory_roundtrip(entries);

    // Each entry's data.
    assert forall|i: int| 0 <= i < files.len() implies {
        &&& (#[trigger] entries_spec(files, pieces, algo)[i]).filename == files[i].name
        &&& entries_spec(files, pieces, algo)[i].modified_time == files[i].modified_time
        &&& entries_spec(files, pieces, algo)[i].permissions == files[i].permissions
        &&& extract_spec(bytes, off, entries_spec(files, pieces, algo)[i]) == Ok::<
            ExtractionModel,
            QuartError,
        >(
            ExtractionModel::Decompressed {
                data: files[i].data,
                size_matches: true,
                hash_matches: true,
            },
        )
    } by {
        lemma_blobs_piece(pieces, i);
        let p = blobs_spec(pieces.take(i)).len();
        let c = pieces[i];
        let e = entries[i];
        assert(files[i].data.len() <= u64::MAX);
        assert(e.data_offset == HEADER_LEN + p);
        assert(e.compressed_size == c.len());
        assert(bytes.subrange(HEADER_LEN + p, HEADER_LEN + p + c.len()) =~= c) by {
            assert forall|j: int| 0 <= j < c.len() implies bytes.subrange(
                HEADER_LEN + p,
                HEADER_LEN + p + c.len(),
            )[j] == c[j] by {
                assert(blobs.subrange(p as int, (p + c.len()) as int)[j] == blobs[p + j]);
            }
        }
    }
}

} // verus!
