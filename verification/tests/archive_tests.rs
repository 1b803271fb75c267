use quart::{
    build_archive, compress_data, decompress_data, extract_entry, extraction_action,
    get_compression_level, parse_compression_type, read_archive, write_directory, DirectoryEntry,
    EntryError, ExtractAction, Extraction, InputFile, QuartError, ALGO_LZ4, ALGO_LZMA,
    ALGO_STORE, ALGO_ZSTD,
};

fn file(name: &str, data: &[u8]) -> InputFile {
    InputFile {
        name: name.to_string(),
        data: data.to_vec(),
        modified_time: 1_700_000_123,
        permissions: 0o100640,
    }
}

fn sample_files() -> Vec<InputFile> {
    let text: Vec<u8> = b"the quick brown fox jumps over the lazy dog. ".repeat(40);
    let binary: Vec<u8> = (0u32..1000).map(|i| (i * 7 % 251) as u8).collect();
    vec![file("a.txt", &text), file("dir/empty", b""), file("dir/bin.dat", &binary)]
}

fn le_u32(b: &[u8]) -> u32 {
    u32::from_le_bytes([b[0], b[1], b[2], b[3]])
}

fn le_u64(b: &[u8]) -> u64 {
    let mut a = [0u8; 8];
    a.copy_from_slice(&b[..8]);
    u64::from_le_bytes(a)
}

const SHA256_ABC: [u8; 32] = [
    0xba, 0x78, 0x16, 0xbf, 0x8f, 0x01, 0xcf, 0xea, 0x41, 0x41, 0x40, 0xde, 0x5d, 0xae, 0x22,
    0x23, 0xb0, 0x03, 0x61, 0xa3, 0x96, 0x17, 0x7a, 0x9c, 0xb4, 0x10, 0xff, 0x61, 0xf2, 0x00,
    0x15, 0xad,
];

#[test]
fn compression_names() {
    assert_eq!(parse_compression_type("store"), Ok(ALGO_STORE));
    assert_eq!(parse_compression_type("None"), Ok(ALGO_STORE));
    assert_eq!(parse_compression_type("LZ4"), Ok(ALGO_LZ4));
    assert_eq!(parse_compression_type("zstd"), Ok(ALGO_ZSTD));
    assert_eq!(parse_compression_type("ZStandard"), Ok(ALGO_ZSTD));
    assert_eq!(parse_compression_type("lzma"), Ok(ALGO_LZMA));
    assert_eq!(parse_compression_type("LZMA2"), Ok(ALGO_LZMA));
    assert_eq!(
        parse_compression_type("gzip"),
        Err(QuartError::UnknownCompressionType("gzip".to_string()))
    );
    assert_eq!(
        parse_compression_type(""),
        Err(QuartError::UnknownCompressionType(String::new()))
    );
}

#[test]
fn algorithm_ids_are_the_documented_ones() {
    assert_eq!(parse_compression_type("none"), Ok(0));
    assert_eq!(parse_compression_type("zstd"), Ok(1));
    assert_eq!(parse_compression_type("lzma"), Ok(2));
    assert_eq!(parse_compression_type("lz4"), Ok(3));
}

#[test]
fn compression_levels() {
    assert_eq!(get_compression_level(ALGO_STORE), 0);
    assert_eq!(get_compression_level(ALGO_LZ4), 0);
    assert_eq!(get_compression_level(ALGO_ZSTD), 10);
    assert_eq!(get_compression_level(ALGO_LZMA), 6);
    assert_eq!(get_compression_level(200), 0);
}

#[test]
fn codecs_roundtrip() {
    let data: Vec<u8> = b"abcabcabcabcabcabcabcabcabcabcabcabc 0123456789".repeat(50);
    for algo in [ALGO_STORE, ALGO_LZ4, ALGO_ZSTD, ALGO_LZMA] {
        let c = compress_data(&data, algo).unwrap();
        if algo == ALGO_STORE {
            assert_eq!(c, data);
        } else {
            assert!(c.len() < data.len(), "algo {}", algo);
        }
        assert_eq!(decompress_data(&c, algo).unwrap(), data, "algo {}", algo);
    }
    for algo in [ALGO_STORE, ALGO_LZ4, ALGO_ZSTD, ALGO_LZMA] {
        let c = compress_data(b"", algo).unwrap();
        assert_eq!(decompress_data(&c, algo).unwrap(), Vec::<u8>::new());
    }
}

#[test]
fn lz4_block_has_size_prefix() {
    let data = vec![7u8; 1000];
    let c = compress_data(&data, ALGO_LZ4).unwrap();
    assert_eq!(&c[..4], &1000u32.to_le_bytes());
}

#[test]
fn unknown_algorithm_is_refused() {
    assert_eq!(compress_data(b"x", 4), Err(QuartError::UnknownAlgorithm(4)));
    assert_eq!(decompress_data(b"x", 255), Err(QuartError::UnknownAlgorithm(255)));
}

#[test]
fn corrupt_data_fails_to_decompress() {
    assert!(matches!(decompress_data(b"ab", ALGO_LZ4), Err(QuartError::Lz4(_))));
    assert!(matches!(decompress_data(b"not a frame", ALGO_ZSTD), Err(QuartError::Io(_))));
    assert!(matches!(decompress_data(b"not a stream", ALGO_LZMA), Err(QuartError::Io(_))));
    assert_eq!(decompress_data(b"raw", ALGO_STORE), Ok(b"raw".to_vec()));
}

#[test]
fn no_files_is_an_error() {
    assert!(matches!(build_archive(&vec![], ALGO_ZSTD), Err(QuartError::NoFiles)));
}

#[test]
fn unknown_algorithm_when_building() {
    assert!(matches!(
        build_archive(&sample_files(), 9),
        Err(QuartError::UnknownAlgorithm(9))
    ));
}

#[test]
fn archive_layout_store() {
    let files = vec![file("abc", b"abc"), file("hello.txt", b"hello")];
    let built = build_archive(&files, ALGO_STORE).unwrap();
    let bytes = &built.bytes;
    assert_eq!(&bytes[..7], b"QUART\x01\x00");
    assert_eq!(&bytes[7..10], b"abc");
    assert_eq!(&bytes[10..15], b"hello");
    let n = bytes.len();
    let end = &bytes[n - 21..];
    assert_eq!(le_u64(&end[0..8]), 15);
    let dir = write_directory(&built.entries);
    assert_eq!(le_u32(&end[12..16]) as usize, dir.len());
    assert_eq!(le_u32(&end[8..12]) as usize, n - 21 - 15);
    assert_eq!(le_u32(&end[16..20]), 2);
    assert_eq!(end[20], ALGO_ZSTD);
    assert_eq!(decompress_data(&bytes[15..n - 21], ALGO_ZSTD).unwrap(), dir);

    let e = &built.entries[0];
    assert_eq!(e.filename, "abc");
    assert_eq!(e.data_offset, 7);
    assert_eq!(e.compressed_size, 3);
    assert_eq!(e.uncompressed_size, 3);
    assert_eq!(e.sha256_hash, SHA256_ABC.to_vec());
    assert_eq!(e.modified_time, 1_700_000_123);
    assert_eq!(e.permissions, 0o100640);
    assert_eq!(e.compression_algo, ALGO_STORE);
    assert_eq!(e.compression_level, 0);
    assert_eq!(e.encryption_algo, 0);
    assert_eq!(e.encryption_key_id, 0);
    assert_eq!(built.entries[1].data_offset, 10);
}

#[test]
fn extract_after_create_every_algorithm() {
    let files = sample_files();
    for algo in [ALGO_STORE, ALGO_LZ4, ALGO_ZSTD, ALGO_LZMA] {
        let built = build_archive(&files, algo).unwrap();
        let index = read_archive(&built.bytes).unwrap();
        assert_eq!(index.entry_count, 3);
        assert_eq!(index.entries, built.entries);
        assert_eq!(
            index.directory_offset,
            7 + built.entries.iter().map(|e| e.compressed_size).sum::<u64>()
        );
        for (entry, f) in index.entries.iter().zip(files.iter()) {
            assert_eq!(entry.filename, f.name);
            assert_eq!(entry.compression_level, get_compression_level(algo));
            match extract_entry(&built.bytes, index.directory_offset, entry).unwrap() {
                Extraction::Decompressed { data, size_matches, hash_matches } => {
                    assert_eq!(data, f.data);
                    assert!(size_matches);
                    assert!(hash_matches);
                }
                Extraction::Overlaps => panic!("entry overlaps the directory"),
            }
        }
    }
}

fn store_archive() -> Vec<u8> {
    build_archive(&vec![file("abc", b"abc")], ALGO_STORE).unwrap().bytes
}

fn set_end(bytes: &mut Vec<u8>, at: usize, value: &[u8]) {
    let n = bytes.len();
    bytes[n - 21 + at..n - 21 + at + value.len()].copy_from_slice(value);
}

#[test]
fn read_rejects_bad_headers() {
    assert!(matches!(read_archive(b"QUA"), Err(QuartError::UnexpectedEof)));
    assert!(matches!(read_archive(b"QUARX\x01\x00"), Err(QuartError::InvalidMagic)));
    assert!(matches!(read_archive(b"QUART\x01"), Err(QuartError::UnexpectedEof)));
    let mut v2 = store_archive();
    v2[5] = 2;
    assert!(matches!(read_archive(&v2), Err(QuartError::UnsupportedVersion(2))));
    let short = b"QUART\x01\x00".repeat(3);
    assert!(matches!(read_archive(&short), Err(QuartError::TooSmall)));
}

#[test]
fn read_rejects_bad_end_records() {
    let base = store_archive();
    let n = base.len() as u64;

    let mut past = base.clone();
    set_end(&mut past, 0, &n.to_le_bytes());
    assert!(matches!(read_archive(&past), Err(QuartError::InvalidDirectoryOffset)));

    let mut early = base.clone();
    set_end(&mut early, 0, &6u64.to_le_bytes());
    assert!(matches!(read_archive(&early), Err(QuartError::DirectoryOverlapsHeader)));

    let mut many = base.clone();
    set_end(&mut many, 16, &10_000_001u32.to_le_bytes());
    assert!(matches!(read_archive(&many), Err(QuartError::UnreasonableEntryCount)));

    let mut long = base.clone();
    set_end(&mut long, 8, &(n as u32).to_le_bytes());
    assert!(matches!(read_archive(&long), Err(QuartError::UnexpectedEof)));

    let mut algo = base.clone();
    set_end(&mut algo, 20, &[9]);
    assert!(matches!(read_archive(&algo), Err(QuartError::UnknownAlgorithm(9))));

    let mut size = base.clone();
    set_end(&mut size, 12, &1u32.to_le_bytes());
    assert!(matches!(read_archive(&size), Err(QuartError::DirectorySizeMismatch)));

    let mut count = base.clone();
    set_end(&mut count, 16, &2u32.to_le_bytes());
    assert!(matches!(
        read_archive(&count),
        Err(QuartError::Entry(1, EntryError::VarintExceedsBuffer))
    ));

    let mut frame = base.clone();
    frame[12] ^= 0xff;
    assert!(matches!(read_archive(&frame), Err(QuartError::Io(_))));
}

#[test]
fn read_stored_directory() {
    // An archive whose directory is stored rather than compressed.
    let entry = DirectoryEntry {
        filename: "x".to_string(),
        data_offset: 7,
        compressed_size: 2,
        uncompressed_size: 2,
        sha256_hash: vec![0; 32],
        modified_time: 0,
        permissions: 0,
        compression_algo: ALGO_STORE,
        compression_level: 0,
        encryption_algo: 0,
        encryption_key_id: 0,
    };
    let dir = write_directory(&vec![entry.clone()]);
    let mut bytes = b"QUART\x01\x00hi".to_vec();
    bytes.extend_from_slice(&dir);
    bytes.extend_from_slice(&9u64.to_le_bytes());
    bytes.extend_from_slice(&(dir.len() as u32).to_le_bytes());
    bytes.extend_from_slice(&(dir.len() as u32).to_le_bytes());
    bytes.extend_from_slice(&1u32.to_le_bytes());
    bytes.push(ALGO_STORE);
    let index = read_archive(&bytes).unwrap();
    assert_eq!(index.directory_offset, 9);
    assert_eq!(index.entries, vec![entry.clone()]);
    match extract_entry(&bytes, 9, &entry).unwrap() {
        Extraction::Decompressed { data, size_matches, hash_matches } => {
            assert_eq!(data, b"hi".to_vec());
            assert!(size_matches);
            assert!(!hash_matches);
        }
        Extraction::Overlaps => panic!("no overlap expected"),
    }
}

#[test]
fn extract_checks_overlap_size_and_hash() {
    let built = build_archive(&vec![file("abc", b"abc")], ALGO_STORE).unwrap();
    let bytes = &built.bytes;
    let e = &built.entries[0];

    let mut over = e.clone();
    over.compressed_size = 4;
    assert!(matches!(extract_entry(bytes, 10, &over), Ok(Extraction::Overlaps)));
    let mut far = e.clone();
    far.data_offset = u64::MAX;
    assert!(matches!(extract_entry(bytes, 10, &far), Ok(Extraction::Overlaps)));

    let mut beyond = e.clone();
    beyond.data_offset = 1000;
    assert!(matches!(extract_entry(bytes, 2000, &beyond), Err(QuartError::UnexpectedEof)));

    let mut size = e.clone();
    size.uncompressed_size = 99;
    match extract_entry(bytes, 10, &size).unwrap() {
        Extraction::Decompressed { data, size_matches, hash_matches } => {
            assert_eq!(data, b"abc".to_vec());
            assert!(!size_matches);
            assert!(hash_matches);
        }
        Extraction::Overlaps => panic!("no overlap expected"),
    }

    let mut hash = e.clone();
    hash.sha256_hash[0] ^= 1;
    match extract_entry(bytes, 10, &hash).unwrap() {
        Extraction::Decompressed { size_matches, hash_matches, .. } => {
            assert!(size_matches);
            assert!(!hash_matches);
        }
        Extraction::Overlaps => panic!("no overlap expected"),
    }

    let mut algo = e.clone();
    algo.compression_algo = 7;
    assert!(matches!(extract_entry(bytes, 10, &algo), Err(QuartError::UnknownAlgorithm(7))));
}

#[test]
fn record_file_appends_data_and_describes_it() {
    let mut out = b"QUART\x01\x00xyz".to_vec();
    let f = file("name", b"abcdef");
    let entry = quart::record_file(&mut out, &f, b"ABC", vec![5; 32], ALGO_LZMA);
    assert_eq!(out, b"QUART\x01\x00xyzABC".to_vec());
    assert_eq!(entry.filename, "name");
    assert_eq!(entry.data_offset, 10);
    assert_eq!(entry.compressed_size, 3);
    assert_eq!(entry.uncompressed_size, 6);
    assert_eq!(entry.sha256_hash, vec![5; 32]);
    assert_eq!(entry.compression_algo, ALGO_LZMA);
    assert_eq!(entry.compression_level, 6);
    assert_eq!(entry.modified_time, 1_700_000_123);
    assert_eq!(entry.permissions, 0o100640);
    assert_eq!(entry.encryption_algo, 0);
    assert_eq!(entry.encryption_key_id, 0);
}

#[test]
fn finish_archive_writes_end_record() {
    let mut out = vec![1u8; 12];
    quart::finish_archive(&mut out, 0x0102, b"DIR", 2);
    let mut expected = vec![1u8; 12];
    expected.extend_from_slice(b"DIR");
    expected.extend_from_slice(&12u64.to_le_bytes());
    expected.extend_from_slice(&3u32.to_le_bytes());
    expected.extend_from_slice(&0x0102u32.to_le_bytes());
    expected.extend_from_slice(&2u32.to_le_bytes());
    expected.push(ALGO_ZSTD);
    assert_eq!(out, expected);
}

#[test]
fn lz4_short_block_fails() {
    assert!(matches!(decompress_data(b"\x01\x00\x00", ALGO_LZ4), Err(QuartError::Lz4(_))));
}

#[test]
fn extraction_actions() {
    assert_eq!(extraction_action(&Extraction::Overlaps), ExtractAction::SkipOverlapping);
    let x = |size_matches, hash_matches| Extraction::Decompressed {
        data: vec![1],
        size_matches,
        hash_matches,
    };
    assert_eq!(extraction_action(&x(true, true)), ExtractAction::Write { size_mismatch: false });
    assert_eq!(extraction_action(&x(false, true)), ExtractAction::Write { size_mismatch: true });
    assert_eq!(
        extraction_action(&x(true, false)),
        ExtractAction::SkipCorrupted { size_mismatch: false }
    );
    assert_eq!(
        extraction_action(&x(false, false)),
        ExtractAction::SkipCorrupted { size_mismatch: true }
    );
}

#[test]
fn archive_names_use_forward_slashes() {
    assert_eq!(quart::archive_name("dir\\sub\\file.txt"), "dir/sub/file.txt");
    assert_eq!(quart::archive_name("a/b\\c"), "a/b/c");
    assert_eq!(quart::archive_name(""), "");
    assert_eq!(quart::archive_name("é\\日"), "é/日");
}
