use quart::{
    parse_directory, parse_directory_entry, read_varint, write_directory, write_directory_entry,
    write_varint, DirectoryEntry, EntryError, QuartError,
};

fn encode(v: u64) -> Vec<u8> {
    let mut buf = Vec::new();
    write_varint(&mut buf, v);
    buf
}

fn sample_entry(name: &str) -> DirectoryEntry {
    DirectoryEntry {
        filename: name.to_string(),
        data_offset: 7,
        compressed_size: 300,
        uncompressed_size: 1 << 40,
        sha256_hash: (0u8..32).collect(),
        modified_time: 1_700_000_000,
        permissions: 0o100644,
        compression_algo: 2,
        compression_level: 10,
        encryption_algo: 0,
        encryption_key_id: 0x1234,
    }
}

#[test]
fn varint_encodings_are_exact() {
    assert_eq!(encode(0), vec![0x00]);
    assert_eq!(encode(1), vec![0x01, 0x01]);
    assert_eq!(encode(127), vec![0x01, 0x7f]);
    assert_eq!(encode(255), vec![0x01, 0xff]);
    assert_eq!(encode(256), vec![0x02, 0x00, 0x01]);
    assert_eq!(encode(300), vec![0x02, 0x2c, 0x01]);
    assert_eq!(encode(65536), vec![0x03, 0x00, 0x00, 0x01]);
    assert_eq!(encode(1 << 56), vec![0x08, 0, 0, 0, 0, 0, 0, 0, 0x01]);
    let mut max = vec![0x08];
    max.extend_from_slice(&[0xff; 8]);
    assert_eq!(encode(u64::MAX), max);
}

#[test]
fn write_varint_appends() {
    let mut buf = vec![9, 9];
    write_varint(&mut buf, 300);
    assert_eq!(buf, vec![9, 9, 0x02, 0x2c, 0x01]);
}

#[test]
fn varint_roundtrip_moves_cursor_past_encoding() {
    for v in [0u64, 1, 127, 128, 255, 256, 300, 65535, 1 << 35, u64::MAX - 1, u64::MAX] {
        let mut buf = vec![0xaa, 0xbb];
        write_varint(&mut buf, v);
        let len = buf.len();
        buf.push(0xcc);
        let mut cursor = 2usize;
        assert_eq!(read_varint(&buf, &mut cursor), Ok(v));
        assert_eq!(cursor, len);
    }
}

#[test]
fn read_varint_past_end_of_buffer() {
    let mut cursor = 0usize;
    assert_eq!(read_varint(&[], &mut cursor), Err(EntryError::VarintExceedsBuffer));
    assert_eq!(cursor, 0);
    let mut cursor = 0usize;
    assert_eq!(read_varint(&[0x02, 0x2c], &mut cursor), Err(EntryError::VarintExceedsBuffer));
    assert_eq!(cursor, 0);
    let mut cursor = 5usize;
    assert_eq!(read_varint(&[0x01], &mut cursor), Err(EntryError::VarintExceedsBuffer));
    assert_eq!(cursor, 5);
}

#[test]
fn read_varint_size_above_eight_overflows() {
    let data = vec![0x09; 12];
    let mut cursor = 0usize;
    assert_eq!(read_varint(&data, &mut cursor), Err(EntryError::VarintOverflow));
    assert_eq!(cursor, 0);
}

#[test]
fn read_varint_accepts_longer_encodings() {
    let data = [0x03, 0x05, 0x00, 0x00, 0x77];
    let mut cursor = 0usize;
    assert_eq!(read_varint(&data, &mut cursor), Ok(5));
    assert_eq!(cursor, 4);
}

#[test]
fn entry_bytes_layout() {
    let mut buf = Vec::new();
    let entry = DirectoryEntry {
        filename: "a.txt".to_string(),
        data_offset: 7,
        compressed_size: 3,
        uncompressed_size: 3,
        sha256_hash: vec![0xee; 32],
        modified_time: 0x0102030405060708,
        permissions: 0x0a0b0c0d,
        compression_algo: 0,
        compression_level: 0,
        encryption_algo: 0,
        encryption_key_id: 0x0201,
    };
    write_directory_entry(&mut buf, &entry);
    let mut expected = vec![1u8, 5];
    expected.extend_from_slice(b"a.txt");
    expected.extend_from_slice(&[1, 7, 1, 3, 1, 3]);
    expected.extend_from_slice(&[0xee; 32]);
    expected.extend_from_slice(&[8, 7, 6, 5, 4, 3, 2, 1]);
    expected.extend_from_slice(&[0x0d, 0x0c, 0x0b, 0x0a]);
    expected.extend_from_slice(&[0, 0, 0]);
    expected.extend_from_slice(&[0x01, 0x02]);
    expected.push(0);
    assert_eq!(buf, expected);
}

#[test]
fn entry_roundtrip() {
    let entry = sample_entry("docs/notes.txt");
    let mut buf = vec![1, 2, 3];
    write_directory_entry(&mut buf, &entry);
    let end = buf.len();
    buf.extend_from_slice(&[4, 5]);
    let mut cursor = 3usize;
    assert_eq!(parse_directory_entry(&buf, &mut cursor), Ok(entry));
    assert_eq!(cursor, end);
}

#[test]
fn entry_roundtrip_non_ascii_name() {
    let entry = sample_entry("répertoire/日本語.txt");
    let mut buf = Vec::new();
    write_directory_entry(&mut buf, &entry);
    let mut cursor = 0usize;
    assert_eq!(parse_directory_entry(&buf, &mut cursor), Ok(entry));
    assert_eq!(cursor, buf.len());
}

#[test]
fn entry_invalid_utf8_name_is_decoded_lossily() {
    let mut buf = Vec::new();
    let entry = sample_entry("x");
    write_directory_entry(&mut buf, &entry);
    // Replace the one filename byte with an invalid UTF-8 byte.
    buf[2] = 0xff;
    let mut cursor = 0usize;
    let parsed = parse_directory_entry(&buf, &mut cursor).unwrap();
    assert_eq!(parsed.filename, "\u{fffd}");
    assert_eq!(parsed.data_offset, entry.data_offset);
}

#[test]
fn entry_skips_attributes() {
    let mut buf = Vec::new();
    write_directory_entry(&mut buf, &sample_entry("f"));
    // Replace the empty attributes field by three bytes of attributes.
    buf.pop();
    buf.extend_from_slice(&[1, 3, 0xaa, 0xbb, 0xcc, 0x99]);
    let mut cursor = 0usize;
    assert_eq!(parse_directory_entry(&buf, &mut cursor), Ok(sample_entry("f")));
    assert_eq!(cursor, buf.len() - 1);
}

#[test]
fn entry_truncation_errors() {
    let mut full = Vec::new();
    write_directory_entry(&mut full, &sample_entry("ab"));
    // name length 2 bytes, name 2 bytes, offset 2 bytes, compressed 3 bytes, uncompressed 7 bytes
    let varints_end = 2 + 2 + 2 + 3 + 7;
    let cases: Vec<(usize, EntryError, usize)> = vec![
        (0, EntryError::VarintExceedsBuffer, 0),
        (1, EntryError::VarintExceedsBuffer, 0),
        (3, EntryError::FilenameExceedsBuffer, 2),
        (4, EntryError::VarintExceedsBuffer, 4),
        (varints_end - 1, EntryError::VarintExceedsBuffer, 9),
        (varints_end + 31, EntryError::HashExceedsBuffer, varints_end),
        (varints_end + 39, EntryError::TimestampExceedsBuffer, varints_end + 32),
        (varints_end + 43, EntryError::PermissionsExceedBuffer, varints_end + 40),
        (varints_end + 44, EntryError::CompressionAlgoExceedsBuffer, varints_end + 44),
        (varints_end + 45, EntryError::CompressionLevelExceedsBuffer, varints_end + 45),
        (varints_end + 46, EntryError::EncryptionAlgoExceedsBuffer, varints_end + 46),
        (varints_end + 48, EntryError::EncryptionKeyIdExceedsBuffer, varints_end + 47),
        (varints_end + 49, EntryError::VarintExceedsBuffer, varints_end + 49),
    ];
    for (cut, err, at) in cases {
        let mut cursor = 0usize;
        assert_eq!(parse_directory_entry(&full[..cut], &mut cursor), Err(err), "cut {}", cut);
        assert_eq!(cursor, at, "cut {}", cut);
    }
    assert_eq!(full.len(), varints_end + 50);
    let mut long_attrs = full.clone();
    long_attrs.pop();
    long_attrs.extend_from_slice(&[1, 5, 0]);
    let mut cursor = 0usize;
    assert_eq!(
        parse_directory_entry(&long_attrs, &mut cursor),
        Err(EntryError::AttributesExceedBuffer)
    );
    assert_eq!(cursor, long_attrs.len() - 1);
}

#[test]
fn directory_roundtrip() {
    let entries = vec![sample_entry("one"), sample_entry("two/three"), sample_entry("")];
    let data = write_directory(&entries);
    assert_eq!(parse_directory(&data, 3), Ok(entries.clone()));
    assert_eq!(parse_directory(&data, 2), Ok(entries[..2].to_vec()));
    assert_eq!(parse_directory(&data, 0), Ok(vec![]));
}

#[test]
fn directory_names_failing_entry() {
    let entries = vec![sample_entry("one"), sample_entry("two")];
    let data = write_directory(&entries);
    assert_eq!(
        parse_directory(&data, 3),
        Err(QuartError::Entry(2, EntryError::VarintExceedsBuffer))
    );
    assert_eq!(parse_directory(&data[..data.len() - 1], 2), Err(QuartError::Entry(1, EntryError::VarintExceedsBuffer)));
}

#[test]
fn attribute_bytes_do_not_change_the_entry() {
    let mut a = Vec::new();
    write_directory_entry(&mut a, &sample_entry("n"));
    a.pop();
    let mut b = a.clone();
    a.extend_from_slice(&[1, 2, 0x00, 0x00]);
    b.extend_from_slice(&[1, 2, 0xfe, 0x41]);
    let (mut ca, mut cb) = (0usize, 0usize);
    assert_eq!(parse_directory_entry(&a, &mut ca), parse_directory_entry(&b, &mut cb));
    assert_eq!(ca, cb);
    assert_eq!(ca, a.len());
}
