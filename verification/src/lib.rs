//! Quart: a file format for compressing and archiving several files, each
//! compressed on its own and indexed by a central directory.
//!
//! The library holds the format's logic: the variable-length integers, the
//! directory entries, the compression codecs, the archive layout that
//! creation writes and the checks that extraction makes.

pub mod error;
pub mod outside;
pub mod varint;
pub mod entry;
pub mod directory;
pub mod codec;
pub mod archive;

pub use archive::{
    archive_name, build_archive, extract_entry, extraction_action, finish_archive, read_archive,
    record_file,
    ArchiveIndex, BuiltArchive, ExtractAction, Extraction, InputFile,
};
pub use codec::{
    compress_data, decompress_data, get_compression_level, parse_compression_type, ALGO_LAST,
    ALGO_LZ4, ALGO_LZMA, ALGO_STORE, ALGO_ZSTD,
};
pub use directory::{parse_directory, write_directory};
pub use entry::{parse_directory_entry, write_directory_entry, DirectoryEntry};
pub use error::{EntryError, QuartError};
pub use varint::{read_varint, write_varint};
