//! Directory entries: the per-file records of the central directory.
use crate::error::EntryError;
use crate::outside::{from_utf8_lossy, utf8_lossy_decoded};
use crate::varint::{
    append_bytes, lemma_varint_roundtrip, read_varint, read_varint_at, varint_encode, varint_width,
    write_varint,
};
use vstd::bytes::*;
use vstd::prelude::*;
use vstd::slice::*;
use vstd::utf8::*;

verus! {

/// The length of a SHA-256 digest, which every entry carries.
pub const HASH_LEN: usize = 32;

/// One record of the central directory.
#[derive(Debug, Clone, PartialEq, Eq)]
pub struct DirectoryEntry {
    pub filename: String,
    pub data_offset: u64,
    pub compressed_size: u64,
    pub uncompressed_size: u64,
    pub sha256_hash: Vec<u8>,
    pub modified_time: u64,
    pub permissions: u32,
    pub compression_algo: u8,
    pub compression_level: u8,
    pub encryption_algo: u8,
    pub encryption_key_id: u16,
}

/// The mathematical value of a directory entry.
pub ghost struct EntryModel {
    pub filename: Seq<char>,
    pub data_offset: u64,
    pub compressed_size: u64,
    pub uncompressed_size: u64,
    pub sha256_hash: Seq<u8>,
    pub modified_time: u64,
    pub permissions: u32,
    pub compression_algo: u8,
    pub compression_level: u8,
    pub encryption_algo: u8,
    pub encryption_key_id: u16,
}

impl View for DirectoryEntry {
    type V = EntryModel;

    open spec fn view(&self) -> EntryModel {
        EntryModel {
            filename: self.filename@,
            data_offset: self.data_offset,
            compressed_size: self.compressed_size,
            uncompressed_size: self.uncompressed_size,
            sha256_hash: self.sha256_hash@,
            modified_time: self.modified_time,
            permissions: self.permissions,
            compression_algo: self.compression_algo,
            compression_level: self.compression_level,
            encryption_algo: self.encryption_algo,
            encryption_key_id: self.encryption_key_id,
        }
    }
}

/// An entry that reads back as itself: its hash is a full digest, and the
/// length of its filename's UTF-8 fits the varint that records it.
pub open spec fn entry_wf(e: EntryModel) -> bool {
    &&& e.sha256_hash.len() == HASH_LEN
    &&& encode_utf8(e.filename).len() <= u64::MAX
}

/// The text a stored filename reads back as: the UTF-8 it encodes, or, for
/// bytes that are not UTF-8, what lossy decoding makes of them.
pub open spec fn filename_text(bytes: Seq<u8>) -> Seq<char> {
    if valid_utf8(bytes) {
        decode_utf8(bytes)
    } else {
        utf8_lossy_decoded(bytes)
    }
}

/// The bytes of a directory record: the length of the filename bytes `name`
/// and those bytes, the offset and the two sizes as varints, the digest, the
/// modification time, the permissions, the three one-byte fields, the
/// encryption key id, and the length of the attribute bytes `attrs` and those
/// bytes. The filename of `e` is not used: `name` stands for it.
pub open spec fn record_bytes(name: Seq<u8>, e: EntryModel, attrs: Seq<u8>) -> Seq<u8> {
    varint_encode(name.len() as u64) + (name + (varint_encode(e.data_offset) + (varint_encode(
        e.compressed_size,
    ) + (varint_encode(e.uncompressed_size) + (e.sha256_hash + (spec_u64_to_le_bytes(
        e.modified_time,
    ) + (spec_u32_to_le_bytes(e.permissions) + (seq![e.compression_algo, e.compression_level, e.encryption_algo] + (
    spec_u16_to_le_bytes(e.encryption_key_id) + (varint_encode(attrs.len() as u64) + attrs))))))))))
}

/// The bytes that `write_directory_entry` writes for `e`: its filename as UTF-8,
/// and no attributes.
pub open spec fn entry_bytes(e: EntryModel) -> Seq<u8> {
    record_bytes(encode_utf8(e.filename), e, Seq::empty())
}

/// The fixed-width tail of an entry, after the three varints and before the
/// attributes: the digest, the modification time, the permissions, the three
/// one-byte fields and the encryption key id. Its outcome, and where it stops.
pub open spec fn parse_fixed_fields(data: Seq<u8>, p: int) -> (Result<
    (Seq<u8>, u64, u32, u8, u8, u8, u16),
    EntryError,
>, int) {
    if p + 32 > data.len() {
        (Err(EntryError::HashExceedsBuffer), p)
    } else if p + 40 > data.len() {
        (Err(EntryError::TimestampExceedsBuffer), p + 32)
    } else if p + 44 > data.len() {
        (Err(EntryError::PermissionsExceedBuffer), p + 40)
    } else if p + 45 > data.len() {
        (Err(EntryError::CompressionAlgoExceedsBuffer), p + 44)
    } else if p + 46 > data.len() {
        (Err(EntryError::CompressionLevelExceedsBuffer), p + 45)
    } else if p + 47 > data.len() {
        (Err(EntryError::EncryptionAlgoExceedsBuffer), p + 46)
    } else if p + 49 > data.len() {
        (Err(EntryError::EncryptionKeyIdExceedsBuffer), p + 47)
    } else {
        (
            Ok(
                (
                    data.subrange(p, p + 32),
                    spec_u64_from_le_bytes(data.subrange(p + 32, p + 40)),
                    spec_u32_from_le_bytes(data.subrange(p + 40, p + 44)),
                    data[p + 44],
                    data[p + 45],
                    data[p + 46],
                    spec_u16_from_le_bytes(data.subrange(p + 47, p + 49)),
                ),
            ),
            p + 49,
        )
    }
}

/// Whether the fixed-width fields of `e` stand in `data` from `p` on: the
/// 32-byte digest, the modification time as a little-endian `u64`, the
/// permissions as a little-endian `u32`, the compression algorithm, the
/// compression level and the encryption algorithm one byte each, and the
/// encryption key id as a little-endian `u16`.
pub open spec fn fixed_fields_at(data: Seq<u8>, p: int, e: EntryModel) -> bool {
    &&& 0 <= p
    &&& p + 49 <= data.len()
    &&& data.subrange(p, p + 32) == e.sha256_hash
    &&& spec_u64_from_le_bytes(data.subrange(p + 32, p + 40)) == e.modified_time
    &&& spec_u32_from_le_bytes(data.subrange(p + 40, p + 44)) == e.permissions
    &&& data[p + 44] == e.compression_algo
    &&& data[p + 45] == e.compression_level
    &&& data[p + 46] == e.encryption_algo
    &&& spec_u16_from_le_bytes(data.subrange(p + 47, p + 49)) == e.encryption_key_id
}

/// The fixed-width fields are read at their places: the digest from the 32
/// bytes at `p`, the time from the next 8, the permissions from the next 4,
/// then the compression algorithm at `p + 44`, the compression level at
/// `p + 45`, the encryption algorithm at `p + 46` and the key id from the last 2;
/// they can be read exactly when those 49 bytes are there, and where they are
/// cut short the error names the first field that does not fit.
pub proof fn lemma_fixed_fields_layout(data: Seq<u8>, p: int)
    requires
        0 <= p,
    ensures
        parse_fixed_fields(data, p).0 is Ok <==> p + 49 <= data.len(),
        p + 32 > data.len() ==> parse_fixed_fields(data, p).0 == Err::<
            (Seq<u8>, u64, u32, u8, u8, u8, u16),
            EntryError,
        >(EntryError::HashExceedsBuffer),
        p + 32 <= data.len() < p + 40 ==> parse_fixed_fields(data, p).0 == Err::<
            (Seq<u8>, u64, u32, u8, u8, u8, u16),
            EntryError,
        >(EntryError::TimestampExceedsBuffer),
        p + 40 <= data.len() < p + 44 ==> parse_fixed_fields(data, p).0 == Err::<
            (Seq<u8>, u64, u32, u8, u8, u8, u16),
            EntryError,
        >(EntryError::PermissionsExceedBuffer),
        data.len() == p + 44 ==> parse_fixed_fields(data, p).0 == Err::<
            (Seq<u8>, u64, u32, u8, u8, u8, u16),
            EntryError,
        >(EntryError::CompressionAlgoExceedsBuffer),
        data.len() == p + 45 ==> parse_fixed_fields(data, p).0 == Err::<
            (Seq<u8>, u64, u32, u8, u8, u8, u16),
            EntryError,
        >(EntryError::CompressionLevelExceedsBuffer),
        data.len() == p + 46 ==> parse_fixed_fields(data, p).0 == Err::<
            (Seq<u8>, u64, u32, u8, u8, u8, u16),
            EntryError,
        >(EntryError::EncryptionAlgoExceedsBuffer),
        p + 47 <= data.len() < p + 49 ==> parse_fixed_fields(data, p).0 == Err::<
            (Seq<u8>, u64, u32, u8, u8, u8, u16),
            EntryError,
        >(EntryError::EncryptionKeyIdExceedsBuffer),
        parse_fixed_fields(data, p).0 matches Ok(f) ==> {
            &&& f.0 == data.subrange(p, p + 32)
            &&& f.1 == spec_u64_from_le_bytes(data.subrange(p + 32, p + 40))
            &&& f.2 == spec_u32_from_le_bytes(data.subrange(p + 40, p + 44))
            &&& f.3 == data[p + 44]
            &&& f.4 == data[p + 45]
            &&& f.5 == data[p + 46]
            &&& f.6 == spec_u16_from_le_bytes(data.subrange(p + 47, p + 49))
        },
{
}

/// Reading the head of an entry that starts at `pos`: everything up to and
/// including the length of its attributes. Gives the entry and that length,
/// or why they cannot be read, and the position where reading stopped (on
/// success, where the attribute bytes start).
pub open spec fn parse_entry_head_at(data: Seq<u8>, pos: int) -> (Result<
    (EntryModel, u64),
    EntryError,
>, int) {
    let (r1, p1) = read_varint_at(data, pos);
    match r1 {
        Err(e) => (Err(e), p1),
        Ok(name_len) => if p1 + name_len > data.len() {
            (Err(EntryError::FilenameExceedsBuffer), p1)
        } else {
            let p2 = p1 + name_len;
            let (r3, p3) = read_varint_at(data, p2);
            match r3 {
                Err(e) => (Err(e), p3),
                Ok(data_offset) => {
                    let (r4, p4) = read_varint_at(data, p3);
                    match r4 {
                        Err(e) => (Err(e), p4),
                        Ok(compressed_size) => {
                            let (r5, p5) = read_varint_at(data, p4);
                            match r5 {
                                Err(e) => (Err(e), p5),
                                Ok(uncompressed_size) => {
                                    let (r6, p6) = parse_fixed_fields(data, p5);
                                    match r6 {
                                        Err(e) => (Err(e), p6),
                                        Ok(fixed) => {
                                            let (r7, p7) = read_varint_at(data, p6);
                                            match r7 {
                                                Err(e) => (Err(e), p7),
                                                Ok(attr_len) => (
                                                    Ok(
                                                        (
                                                            EntryModel {
                                                                filename: filename_text(
                                                                    data.subrange(p1, p2),
                                                                ),
                                                                data_offset,
                                                                compressed_size,
                                                                uncompressed_size,
                                                                sha256_hash: fixed.0,
                                                                modified_time: fixed.1,
                                                                permissions: fixed.2,
                                                                compression_algo: fixed.3,
                                                                compression_level: fixed.4,
                                                                encryption_algo: fixed.5,
                                                                encryption_key_id: fixed.6,
                                                            },
                                                            attr_len,
                                                        ),
                                                    ),
                                                    p7,
                                                ),
                                            }
                                        },
                                    }
                                },
                            }
                        },
                    }
                },
            }
        },
    }
}

/// Reading an entry that starts at `pos`: its head, then its attribute bytes,
/// which are skipped. Gives the entry, or why it cannot be read, and the
/// position where reading stopped.
pub open spec fn parse_entry_at(data: Seq<u8>, pos: int) -> (Result<EntryModel, EntryError>, int) {
    match parse_entry_head_at(data, pos) {
        (Err(e), p) => (Err(e), p),
        (Ok((e, attr_len)), p) => if p + attr_len > data.len() {
            (Err(EntryError::AttributesExceedBuffer), p)
        } else {
            (Ok(e), p + attr_len)
        },
    }
}

/// Appends the directory record of `entry` to `buf`.
pub fn write_directory_entry(buf: &mut Vec<u8>, entry: &DirectoryEntry)
    ensures
        final(buf)@ == old(buf)@ + entry_bytes(entry@),
        final(buf)@.subrange(0, old(buf)@.len() as int) == old(buf)@,
        ({
            let b = final(buf)@;
            let n = b.len() as int;
            let h = entry.sha256_hash@.len() as int;
            &&& n >= old(buf)@.len() + h + 18
            &&& b[n - 1] == 0
            &&& b.subrange(n - 3, n - 1) == spec_u16_to_le_bytes(entry.encryption_key_id)
            &&& b[n - 4] == entry.encryption_algo
            &&& b[n - 5] == entry.compression_level
            &&& b[n - 6] == entry.compression_algo
            &&& b.subrange(n - 10, n - 6) == spec_u32_to_le_bytes(entry.permissions)
            &&& b.subrange(n - 18, n - 10) == spec_u64_to_le_bytes(entry.modified_time)
            &&& b.subrange(n - 18 - h, n - 18) == entry.sha256_hash@
        }),
{
    let ghost start = buf@;
    let name = entry.filename.as_str().as_bytes();
    write_varint(buf, name.len() as u64);
    append_bytes(buf, name);
    write_varint(buf, entry.data_offset);
    write_varint(buf, entry.compressed_size);
    write_varint(buf, entry.uncompressed_size);
    append_bytes(buf, entry.sha256_hash.as_slice());
    let time = u64_to_le_bytes(entry.modified_time);
    append_bytes(buf, time.as_slice());
    let perms = u32_to_le_bytes(entry.permissions);
    append_bytes(buf, perms.as_slice());
    buf.push(entry.compression_algo);
    buf.push(entry.compression_level);
    buf.push(entry.encryption_algo);
    let key = u16_to_le_bytes(entry.encryption_key_id);
    append_bytes(buf, key.as_slice());
    // The attributes field is empty.
    write_varint(buf, 0);
    assert(buf@ =~= start + entry_bytes(entry@));
    proof {
        let eb = entry_bytes(entry@);
        let b = buf@;
        let n = b.len() as int;
        let m = eb.len() as int;
        let k = start.len() as int;
        let h = entry.sha256_hash@.len() as int;
        lemma_entry_layout(entry@);
        assert(b.subrange(0, k) =~= start);
        assert(b[n - 1] == eb[m - 1]);
        assert(b[n - 4] == eb[m - 4]);
        assert(b[n - 5] == eb[m - 5]);
        assert(b[n - 6] == eb[m - 6]);
        assert(b.subrange(n - 3, n - 1) =~= eb.subrange(m - 3, m - 1));
        assert(b.subrange(n - 10, n - 6) =~= eb.subrange(m - 10, m - 6));
        assert(b.subrange(n - 18, n - 10) =~= eb.subrange(m - 18, m - 10));
        assert(b.subrange(n - 18 - h, n - 18) =~= eb.subrange(m - 18 - h, m - 18));
    }
}

/// The layout of a written record, counted from its end: the digest, the
/// modification time as a little-endian `u64`, the permissions as a
/// little-endian `u32`, then one byte each for the compression algorithm, the
/// compression level and the encryption algorithm, the encryption key id as a
/// little-endian `u16`, and a last zero byte: the empty attributes.
pub proof fn lemma_entry_layout(e: EntryModel)
    ensures
        ({
            let b = entry_bytes(e);
            let n = b.len() as int;
            let h = e.sha256_hash.len() as int;
            &&& n >= h + 18
            &&& b[n - 1] == 0
            &&& b.subrange(n - 3, n - 1) == spec_u16_to_le_bytes(e.encryption_key_id)
            &&& b[n - 4] == e.encryption_algo
            &&& b[n - 5] == e.compression_level
            &&& b[n - 6] == e.compression_algo
            &&& b.subrange(n - 10, n - 6) == spec_u32_to_le_bytes(e.permissions)
            &&& b.subrange(n - 18, n - 10) == spec_u64_to_le_bytes(e.modified_time)
            &&& b.subrange(n - 18 - h, n - 18) == e.sha256_hash
        }),
{
    lemma_auto_spec_u64_to_from_le_bytes();
    lemma_auto_spec_u32_to_from_le_bytes();
    lemma_auto_spec_u16_to_from_le_bytes();
    let name = encode_utf8(e.filename);
    let pre = varint_encode(name.len() as u64) + name + varint_encode(e.data_offset)
        + varint_encode(e.compressed_size) + varint_encode(e.uncompressed_size);
    assert(varint_width(0) == 0) by {
        assert(1u64 << 0u64 == 1) by (bit_vector);
    }
    assert(varint_encode(0) =~= seq![0u8]);
    let t = spec_u64_to_le_bytes(e.modified_time);
    let pm = spec_u32_to_le_bytes(e.permissions);
    let key = spec_u16_to_le_bytes(e.encryption_key_id);
    let tail = e.sha256_hash + t + pm + seq![e.compression_algo, e.compression_level, e.encryption_algo]
        + key + seq![0u8];
    let b = entry_bytes(e);
    assert(b =~= pre + tail);
    let n = b.len() as int;
    let h = e.sha256_hash.len() as int;
    let k = pre.len() as int;
    assert(t.len() == 8 && pm.len() == 4 && key.len() == 2);
    assert(n == k + h + 18);
    assert(b.subrange(n - 3, n - 1) =~= key);
    assert(b.subrange(n - 10, n - 6) =~= pm);
    assert(b.subrange(n - 18, n - 10) =~= t);
    assert(b.subrange(n - 18 - h, n - 18) =~= e.sha256_hash);
}

/// Reads the entry at `*cursor`, moving the cursor to where reading stopped.
pub fn parse_directory_entry(data: &[u8], cursor: &mut usize) -> (r: Result<
    DirectoryEntry,
    EntryError,
>)
    ensures
        ({
            let (expected, end) = parse_entry_at(data@, *old(cursor) as int);
            &&& *final(cursor) as int == end
            &&& match r {
                Ok(e) => expected == Ok::<EntryModel, EntryError>(e@),
                Err(err) => expected == Err::<EntryModel, EntryError>(err),
            }
        }),
        r matches Ok(e) ==> exists|p: int|
            *old(cursor) <= p && p + 49 <= *final(cursor) && #[trigger] fixed_fields_at(data@, p, e@),
{
    let ghost start = *cursor as int;
    let filename_len = read_varint(data, cursor)?;
    if filename_len > (data.len() - *cursor) as u64 {
        return Err(EntryError::FilenameExceedsBuffer);
    }
    let name_end = *cursor + filename_len as usize;
    let filename = from_utf8_lossy(slice_subrange(data, *cursor, name_end));
    *cursor = name_end;
    let data_offset = read_varint(data, cursor)?;
    let compressed_size = read_varint(data, cursor)?;
    let uncompressed_size = read_varint(data, cursor)?;
    let c = *cursor;
    let len = data.len();
    if c > len || len - c < 32 {
        return Err(EntryError::HashExceedsBuffer);
    }
    let sha256_hash = slice_to_vec(slice_subrange(data, c, c + 32));
    *cursor = c + 32;
    if len - c < 40 {
        return Err(EntryError::TimestampExceedsBuffer);
    }
    let modified_time = u64_from_le_bytes(slice_subrange(data, c + 32, c + 40));
    *cursor = c + 40;
    if len - c < 44 {
        return Err(EntryError::PermissionsExceedBuffer);
    }
    let permissions = u32_from_le_bytes(slice_subrange(data, c + 40, c + 44));
    *cursor = c + 44;
    if len - c < 45 {
        return Err(EntryError::CompressionAlgoExceedsBuffer);
    }
    let compression_algo = data[c + 44];
    *cursor = c + 45;
    if len - c < 46 {
        return Err(EntryError::CompressionLevelExceedsBuffer);
    }
    let compression_level = data[c + 45];
    *cursor = c + 46;
    if len - c < 47 {
        return Err(EntryError::EncryptionAlgoExceedsBuffer);
    }
    let encryption_algo = data[c + 46];
    *cursor = c + 47;
    if len - c < 49 {
        return Err(EntryError::EncryptionKeyIdExceedsBuffer);
    }
    let encryption_key_id = u16_from_le_bytes(slice_subrange(data, c + 47, c + 49));
    *cursor = c + 49;
    let attributes_len = read_varint(data, cursor)?;
    if attributes_len > (data.len() - *cursor) as u64 {
        return Err(EntryError::AttributesExceedBuffer);
    }
    *cursor = *cursor + attributes_len as usize;
    let entry = DirectoryEntry {
        filename,
        data_offset,
        compressed_size,
        uncompressed_size,
        sha256_hash,
        modified_time,
        permissions,
        compression_algo,
        compression_level,
        encryption_algo,
        encryption_key_id,
    };
    assert(fixed_fields_at(data@, c as int, entry@));
    assert(start <= c && c + 49 <= *cursor);
    let r = Ok(entry);
    assert(r matches Ok(e) ==> exists|p: int|
        start <= p && p + 49 <= *cursor && #[trigger] fixed_fields_at(data@, p, e@)) by {
        assert(fixed_fields_at(data@, c as int, r->Ok_0@));
    }
    r
}

/// Where a concatenation stands in a buffer, each of its two parts stands there too.
pub(crate) proof fn lemma_split(data: Seq<u8>, pos: int, a: Seq<u8>, b: Seq<u8>)
    requires
        0 <= pos,
        pos + a.len() + b.len() <= data.len(),
        data.subrange(pos, pos + a.len() + b.len()) == a + b,
    ensures
        data.subrange(pos, pos + a.len()) == a,
        data.subrange(pos + a.len(), pos + a.len() + b.len()) == b,
{
    assert forall|i: int| 0 <= i < a.len() implies data.subrange(pos, pos + a.len())[i] == a[i] by {
        assert(data.subrange(pos, pos + a.len() + b.len())[i] == (a + b)[i]);
    }
    assert forall|i: int| 0 <= i < b.len() implies data.subrange(
        pos + a.len(),
        pos + a.len() + b.len(),
    )[i] == b[i] by {
        assert(data.subrange(pos, pos + a.len() + b.len())[a.len() + i] == (a + b)[a.len() + i]);
        assert(data.subrange(pos, pos + a.len() + b.len())[a.len() + i] == data[pos + a.len() + i]);
        assert(data.subrange(pos + a.len(), pos + a.len() + b.len())[i] == data[pos + a.len() + i]);
    }
    assert(data.subrange(pos, pos + a.len()) =~= a);
    assert(data.subrange(pos + a.len(), pos + a.len() + b.len()) =~= b);
}

/// Reading a record: wherever the bytes of a record stand in a buffer, with any
/// filename bytes and any attribute bytes, reading an entry there gives the
/// record's fields, the filename decoded from its bytes, and stops right after
/// the record.
pub proof fn lemma_record_roundtrip(
    data: Seq<u8>,
    pos: int,
    name: Seq<u8>,
    e: EntryModel,
    attrs: Seq<u8>,
)
    requires
        e.sha256_hash.len() == HASH_LEN,
        name.len() <= u64::MAX,
        attrs.len() <= u64::MAX,
        0 <= pos,
        pos + record_bytes(name, e, attrs).len() <= data.len(),
        data.subrange(pos, pos + record_bytes(name, e, attrs).len()) == record_bytes(name, e, attrs),
    ensures
        parse_entry_at(data, pos) == (
            Ok::<EntryModel, EntryError>(EntryModel { filename: filename_text(name), ..e }),
            pos + record_bytes(name, e, attrs).len(),
        ),
{
    lemma_auto_spec_u64_to_from_le_bytes();
    lemma_auto_spec_u32_to_from_le_bytes();
    lemma_auto_spec_u16_to_from_le_bytes();
    let v1 = varint_encode(name.len() as u64);
    let v3 = varint_encode(e.data_offset);
    let v4 = varint_encode(e.compressed_size);
    let v5 = varint_encode(e.uncompressed_size);
    let t = spec_u64_to_le_bytes(e.modified_time);
    let pm = spec_u32_to_le_bytes(e.permissions);
    let bs = seq![e.compression_algo, e.compression_level, e.encryption_algo];
    let key = spec_u16_to_le_bytes(e.encryption_key_id);
    let va = varint_encode(attrs.len() as u64);
    let r11 = va + attrs;
    let r10 = key + r11;
    let r9 = bs + r10;
    let r8 = pm + r9;
    let r7 = t + r8;
    let r6 = e.sha256_hash + r7;
    let r5 = v5 + r6;
    let r4 = v4 + r5;
    let r3 = v3 + r4;
    let r2 = name + r3;
    let rec = record_bytes(name, e, attrs);
    assert(rec == v1 + r2);
    assert(name.len() as u64 as int == name.len());
    assert(attrs.len() as u64 as int == attrs.len());

    lemma_split(data, pos, v1, r2);
    lemma_varint_roundtrip(data, pos, name.len() as u64);
    let p1 = pos + v1.len();
    lemma_split(data, p1, name, r3);
    let p2 = p1 + name.len();
    lemma_split(data, p2, v3, r4);
    lemma_varint_roundtrip(data, p2, e.data_offset);
    let p3 = p2 + v3.len();
    lemma_split(data, p3, v4, r5);
    lemma_varint_roundtrip(data, p3, e.compressed_size);
    let p4 = p3 + v4.len();
    lemma_split(data, p4, v5, r6);
    lemma_varint_roundtrip(data, p4, e.uncompressed_size);
    let p5 = p4 + v5.len();
    lemma_split(data, p5, e.sha256_hash, r7);
    let p6 = p5 + 32;
    lemma_split(data, p6, t, r8);
    let p7 = p6 + 8;
    lemma_split(data, p7, pm, r9);
    let p8 = p7 + 4;
    lemma_split(data, p8, bs, r10);
    assert(data[p8] == e.compression_algo) by {
        assert(data.subrange(p8, p8 + 3)[0] == bs[0]);
    }
    assert(data[p8 + 1] == e.compression_level) by {
        assert(data.subrange(p8, p8 + 3)[1] == bs[1]);
    }
    assert(data[p8 + 2] == e.encryption_algo) by {
        assert(data.subrange(p8, p8 + 3)[2] == bs[2]);
    }
    let p9 = p8 + 3;
    lemma_split(data, p9, key, r11);
    let p10 = p9 + 2;
    lemma_split(data, p10, va, attrs);
    lemma_varint_roundtrip(data, p10, attrs.len() as u64);
    assert(p10 + va.len() + attrs.len() == pos + rec.len());
    assert(parse_fixed_fields(data, p5) == (
        Ok::<(Seq<u8>, u64, u32, u8, u8, u8, u16), EntryError>(
            (
                e.sha256_hash,
                e.modified_time,
                e.permissions,
                e.compression_algo,
                e.compression_level,
                e.encryption_algo,
                e.encryption_key_id,
            ),
        ),
        p10,
    ));
    assert(data.subrange(p1, p2) == name);
}

/// Whether `a` and `b` hold the same bytes at the positions from `lo` up to `hi`.
pub open spec fn same_bytes(a: Seq<u8>, b: Seq<u8>, lo: int, hi: int) -> bool {
    forall|i: int| lo <= i < hi ==> a[i] == b[i]
}

proof fn lemma_varint_local(d1: Seq<u8>, d2: Seq<u8>, p: int, q: int)
    requires
        d1.len() == d2.len(),
        0 <= p,
        read_varint_at(d1, p).0 is Ok,
        read_varint_at(d1, p).1 <= q,
        same_bytes(d1, d2, p, q),
    ensures
        read_varint_at(d2, p) == read_varint_at(d1, p),
        p < read_varint_at(d1, p).1,
{
    let n = d1[p];
    assert(d2[p] == n);
    assert(d1.subrange(p + 1, p + 1 + n) =~= d2.subrange(p + 1, p + 1 + n));
}

proof fn lemma_fixed_local(d1: Seq<u8>, d2: Seq<u8>, p: int, q: int)
    requires
        d1.len() == d2.len(),
        0 <= p,
        parse_fixed_fields(d1, p).0 is Ok,
        p + 49 <= q,
        same_bytes(d1, d2, p, q),
    ensures
        parse_fixed_fields(d2, p) == parse_fixed_fields(d1, p),
        parse_fixed_fields(d1, p).1 == p + 49,
{
    assert(d1.subrange(p, p + 32) =~= d2.subrange(p, p + 32));
    assert(d1.subrange(p + 32, p + 40) =~= d2.subrange(p + 32, p + 40));
    assert(d1.subrange(p + 40, p + 44) =~= d2.subrange(p + 40, p + 44));
    assert(d1.subrange(p + 47, p + 49) =~= d2.subrange(p + 47, p + 49));
    assert(d1[p + 44] == d2[p + 44]);
    assert(d1[p + 45] == d2[p + 45]);
    assert(d1[p + 46] == d2[p + 46]);
}

/// Attribute bytes never affect the entry read: where an entry can be read
/// from `data1` at `pos`, any `data2` of the same length that holds the same
/// bytes from `pos` up to where the entry's attribute bytes start (whatever
/// it holds in those attribute bytes and after them) reads back as the same
/// entry, stopping at the same place.
pub proof fn lemma_attributes_ignored(data1: Seq<u8>, data2: Seq<u8>, pos: int)
    requires
        data1.len() == data2.len(),
        0 <= pos,
        parse_entry_at(data1, pos).0 is Ok,
        same_bytes(data1, data2, pos, parse_entry_head_at(data1, pos).1),
    ensures
        parse_entry_head_at(data2, pos) == parse_entry_head_at(data1, pos),
        parse_entry_at(data2, pos) == parse_entry_at(data1, pos),
{
    let d1 = data1;
    let d2 = data2;
    let q = parse_entry_head_at(d1, pos).1;
    let (r1, p1) = read_varint_at(d1, pos);
    let name_len = r1->Ok_0;
    let p2 = p1 + name_len;
    let (r3, p3) = read_varint_at(d1, p2);
    let (r4, p4) = read_varint_at(d1, p3);
    let (r5, p5) = read_varint_at(d1, p4);
    let (r6, p6) = parse_fixed_fields(d1, p5);
    let (r7, p7) = read_varint_at(d1, p6);
    assert(q == p7);
    // Each step stops no later than the next one, and all before `q`.
    assert(p1 > pos) by {
        assert(d1[pos] <= 8);
    }
    assert(p3 > p2 && p4 > p3 && p5 > p4 && p7 > p6);
    assert(p6 == p5 + 49);
    lemma_varint_local(d1, d2, pos, q);
    assert(d1.subrange(p1, p2) =~= d2.subrange(p1, p2));
    lemma_varint_local(d1, d2, p2, q);
    lemma_varint_local(d1, d2, p3, q);
    lemma_varint_local(d1, d2, p4, q);
    lemma_fixed_local(d1, d2, p5, q);
    lemma_varint_local(d1, d2, p6, q);
}

/// Reading back what `write_directory_entry` wrote: wherever the bytes of a
/// well-formed entry stand in a buffer, reading an entry there gives that entry
/// and stops right after its bytes.
pub proof fn lemma_entry_roundtrip(data: Seq<u8>, pos: int, e: EntryModel)
    requires
        entry_wf(e),
        0 <= pos,
        pos + entry_bytes(e).len() <= data.len(),
        data.subrange(pos, pos + entry_bytes(e).len()) == entry_bytes(e),
    ensures
        parse_entry_at(data, pos) == (Ok::<EntryModel, EntryError>(e), pos + entry_bytes(e).len()),
{
    broadcast use encode_utf8_valid_utf8, encode_utf8_decode_utf8;

    lemma_record_roundtrip(data, pos, encode_utf8(e.filename), e, Seq::empty());
    assert(EntryModel { filename: filename_text(encode_utf8(e.filename)), ..e } == e);
}

} // verus!
