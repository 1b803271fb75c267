# quart

Quart is an archive format that compresses each file on its own and indexes
the files in a central directory. This crate holds the format as a library
verified with Verus, and a command-line tool around it.

- `src/varint.rs`: the variable-length integers (a size byte, then little-endian bytes).
- `src/entry.rs`: directory entries, their bytes and how they are read.
- `src/directory.rs`: the central directory, one entry after another.
- `src/codec.rs`: the compression algorithms (none, zstd, xz, LZ4) by id and by name.
- `src/archive.rs`: whole archives: building one from files, reading its
  index, extracting an entry, and the proof that extraction gives back what
  creation stored.
- `src/outside.rs`: the calls into sha2, lz4_flex, zstd, xz2 and std text
  functions, with the contracts that the rest relies on.
- `app/main.rs`: the `quart` program: arguments, files and directories, messages.
