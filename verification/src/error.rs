use vstd::prelude::*;

verus! {

/// Why a directory entry (or one of its variable-length integers) could not be read.
#[derive(Debug, Clone, Copy, PartialEq, Eq, Structural)]
pub enum EntryError {
    VarintExceedsBuffer,
    VarintOverflow,
    FilenameExceedsBuffer,
    HashExceedsBuffer,
    TimestampExceedsBuffer,
    PermissionsExceedBuffer,
    CompressionAlgoExceedsBuffer,
    CompressionLevelExceedsBuffer,
    EncryptionAlgoExceedsBuffer,
    EncryptionKeyIdExceedsBuffer,
    AttributesExceedBuffer,
}

/// Why an archive could not be created or read.
#[derive(Debug, Clone, PartialEq, Eq)]
pub enum QuartError {
    /// There is no file to archive.
    NoFiles,
    /// The compression name is none of those the format knows; it carries the name given.
    UnknownCompressionType(String),
    /// The algorithm id is none of those the format knows.
    UnknownAlgorithm(u8),
    /// The zstd or xz library failed; it carries that library's message.
    Io(String),
    /// The LZ4 library could not decompress a block; it carries its message.
    Lz4(String),
    /// The archive ends before a part that it promises.
    UnexpectedEof,
    /// The archive does not start with the magic bytes.
    InvalidMagic,
    /// The archive's format version is not 1; it carries the version found.
    UnsupportedVersion(u16),
    /// The archive is shorter than the smallest valid archive.
    TooSmall,
    /// The end record points at or past the end of the archive.
    InvalidDirectoryOffset,
    /// The end record points into the archive header.
    DirectoryOverlapsHeader,
    /// The end record promises more entries than the format allows.
    UnreasonableEntryCount,
    /// The decompressed directory does not have the size the end record gives.
    DirectorySizeMismatch,
    /// Entry number `index` could not be read.
    Entry(u32, EntryError),
}

} // verus!
