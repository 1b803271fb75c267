//! Variable-length unsigned integers: one byte that gives the size, in bytes,
//! of the value, then the value's bytes, little-endian. Zero has size 0 and is
//! the single byte 0.
use crate::error::EntryError;
use vstd::bytes::*;
use vstd::prelude::*;
use vstd::slice::*;

verus! {

/// The largest size byte that a varint may carry: a `u64` has 8 bytes.
pub const VARINT_MAX_BYTES: u8 = 8;

/// The number of bytes of `v`, counting from `n`: the least `k >= n` such that
/// `v < 2^(8k)`, or 8.
pub open spec fn width_from(v: u64, n: nat) -> nat
    decreases 8 - n,
{
    if n >= 8 || v < (1u64 << ((8 * n) as u64)) {
        n
    } else {
        width_from(v, n + 1)
    }
}

/// The size, in bytes, of the value `v`: 0 for 0, else the number of its
/// significant bytes.
pub open spec fn varint_width(v: u64) -> nat {
    width_from(v, 0)
}

/// The bytes that encode `v`: its size, then its low bytes, little-endian.
pub open spec fn varint_encode(v: u64) -> Seq<u8> {
    seq![varint_width(v) as u8] + spec_u64_to_le_bytes(v).take(varint_width(v) as int)
}

/// `bytes`, followed by zero bytes up to a length of 8.
pub open spec fn pad_to_u64(bytes: Seq<u8>) -> Seq<u8> {
    bytes + Seq::new((8 - bytes.len()) as nat, |i: int| 0u8)
}

/// Reading a varint whose size byte is at `pos`: its value, or why it cannot
/// be read, and the position after it (where it cannot be read, `pos`). A size
/// above 8 is an overflow.
pub open spec fn read_varint_at(data: Seq<u8>, pos: int) -> (Result<u64, EntryError>, int) {
    if pos < 0 || pos >= data.len() {
        (Err(EntryError::VarintExceedsBuffer), pos)
    } else if data[pos] > VARINT_MAX_BYTES {
        (Err(EntryError::VarintOverflow), pos)
    } else if pos + 1 + data[pos] > data.len() {
        (Err(EntryError::VarintExceedsBuffer), pos)
    } else {
        (
            Ok(spec_u64_from_le_bytes(pad_to_u64(data.subrange(pos + 1, pos + 1 + data[pos])))),
            pos + 1 + data[pos],
        )
    }
}

/// Appends the bytes of `src` to `buf`.
pub fn append_bytes(buf: &mut Vec<u8>, src: &[u8])
    ensures
        final(buf)@ == old(buf)@ + src@,
{
    let ghost start = buf@;
    let mut i: usize = 0;
    while i < src.len()
        invariant
            i <= src@.len(),
            buf@ == start + src@.subrange(0, i as int),
        decreases src@.len() - i,
    {
        buf.push(src[i]);
        i = i + 1;
        assert(buf@ =~= start + src@.subrange(0, i as int));
    }
    assert(src@.subrange(0, i as int) =~= src@);
}

/// Appends the encoding of `value` to `buf`.
pub fn write_varint(buf: &mut Vec<u8>, value: u64)
    ensures
        final(buf)@ == old(buf)@ + varint_encode(value),
{
    let mut n: usize = 0;
    while n < 8 && value >= (1u64 << ((8 * n) as u64))
        invariant
            n <= 8,
            width_from(value, n as nat) == varint_width(value),
        decreases 8 - n,
    {
        n = n + 1;
    }
    let bytes = u64_to_le_bytes(value);
    buf.push(n as u8);
    append_bytes(buf, slice_subrange(bytes.as_slice(), 0, n));
    assert(bytes@.subrange(0, n as int) =~= bytes@.take(n as int));
}

/// Reads a varint at `*cursor`, moving the cursor past it when it can be read.
pub fn read_varint(data: &[u8], cursor: &mut usize) -> (r: Result<u64, EntryError>)
    ensures
        (r, *final(cursor) as int) == read_varint_at(data@, *old(cursor) as int),
        r is Ok ==> *old(cursor) < *final(cursor) <= data@.len(),
{
    let c = *cursor;
    if c >= data.len() {
        return Err(EntryError::VarintExceedsBuffer);
    }
    let size = data[c];
    if size > VARINT_MAX_BYTES {
        return Err(EntryError::VarintOverflow);
    }
    let n = size as usize;
    if n > data.len() - c - 1 {
        return Err(EntryError::VarintExceedsBuffer);
    }
    let mut padded: Vec<u8> = Vec::new();
    append_bytes(&mut padded, slice_subrange(data, c + 1, c + 1 + n));
    while padded.len() < 8
        invariant
            n <= padded@.len() <= 8,
            padded@ == data@.subrange(c + 1, c + 1 + n) + Seq::new(
                (padded@.len() - n) as nat,
                |i: int| 0u8,
            ),
        decreases 8 - padded@.len(),
    {
        padded.push(0);
        assert(padded@ =~= data@.subrange(c + 1, c + 1 + n) + Seq::new(
            (padded@.len() - n) as nat,
            |i: int| 0u8,
        ));
    }
    assert(padded@ =~= pad_to_u64(data@.subrange(c + 1, c + 1 + n)));
    let value = u64_from_le_bytes(padded.as_slice());
    *cursor = c + 1 + n;
    Ok(value)
}

proof fn lemma_width(v: u64, n: nat)
    requires
        n <= 8,
    ensures
        width_from(v, n) <= 8,
        width_from(v, n) >= n,
        width_from(v, n) < 8 ==> v < (1u64 << ((8 * width_from(v, n)) as u64)),
    decreases 8 - n,
{
    if n < 8 && v >= (1u64 << ((8 * n) as u64)) {
        lemma_width(v, n + 1);
    }
}

proof fn lemma_high_byte_zero(v: u64, n: u64, i: u64)
    requires
        n <= i < 8,
        v < (1u64 << (8 * n)),
    ensures
        (v >> (8 * i)) & 0xff == 0,
{
    assert(n <= i < 8 && v < (1u64 << (8 * n)) ==> (v >> (8 * i)) & 0xff == 0) by (bit_vector);
}

/// The low `varint_width(v)` bytes of `v`, padded with zeros, are the bytes of `v`.
proof fn lemma_pad_width(v: u64)
    ensures
        pad_to_u64(spec_u64_to_le_bytes(v).take(varint_width(v) as int)) == spec_u64_to_le_bytes(v),
{
    lemma_auto_spec_u64_to_from_le_bytes();
    spec_u64_to_le_bytes_to_open(v);
    lemma_width(v, 0);
    let n = varint_width(v);
    let b = spec_u64_to_le_bytes(v);
    let p = pad_to_u64(b.take(n as int));
    assert forall|i: int| 0 <= i < 8 implies p[i] == b[i] by {
        if i >= n {
            lemma_high_byte_zero(v, n as u64, i as u64);
            assert(b[i] == ((v >> (8 * (i as u64))) & 0xff) as u8) by {
                assert(0 <= i < 8);
                if i == 0 { assert(v >> 0u64 == v) by (bit_vector); }
            }
        }
    }
    assert(p =~= b);
}

proof fn lemma_width_min(v: u64, m: nat)
    requires
        m <= 8,
    ensures
        width_from(v, m) > m ==> v >= (1u64 << ((8 * (width_from(v, m) - 1)) as u64)),
    decreases 8 - m,
{
    if m < 8 && v >= (1u64 << ((8 * m) as u64)) {
        lemma_width_min(v, m + 1);
    }
}

/// The layout of an encoded value: a size byte `n` of at most 8, then `n`
/// bytes, the low bytes of the value, least significant first. The size is
/// 0 exactly for 0, and otherwise the last byte is not zero: no byte is wasted.
pub proof fn lemma_varint_layout(v: u64)
    ensures
        ({
            let enc = varint_encode(v);
            let n = enc[0] as int;
            &&& n <= 8
            &&& enc.len() == 1 + n
            &&& forall|i: int| 0 <= i < n ==> #[trigger] enc[1 + i] == ((v >> ((8 * i) as u64)) & 0xff) as u8
            &&& (n == 0 <==> v == 0)
            &&& n > 0 ==> enc[n] != 0
        }),
{
    lemma_auto_spec_u64_to_from_le_bytes();
    spec_u64_to_le_bytes_to_open(v);
    lemma_width(v, 0);
    lemma_width_min(v, 0);
    let n = varint_width(v);
    let enc = varint_encode(v);
    let b = spec_u64_to_le_bytes(v);
    assert(enc[0] as int == n);
    assert forall|i: int| 0 <= i < n implies #[trigger] enc[1 + i] == ((v >> ((8 * i) as u64)) & 0xff) as u8 by {
        assert(enc[1 + i] == b[i]);
        if i == 0 { assert(v >> 0u64 == v) by (bit_vector); }
    }
    if n == 0 {
        assert(v < (1u64 << 0u64));
        assert(1u64 << 0u64 == 1) by (bit_vector);
    } else {
        let k = (n - 1) as u64;
        assert(v >= (1u64 << (8 * k)));
        assert(k < 8);
        assert(n < 8 ==> v < (1u64 << (8 * (k + 1))));
        assert(k < 8 && v >= (1u64 << (8 * k)) && (k == 7 || v < (1u64 << (8 * (k + 1))))
            ==> (v >> (8 * k)) & 0xff != 0) by (bit_vector);
        let x = (v >> (8 * k)) & 0xff;
        assert(x <= 0xff) by (bit_vector)
            requires x == (v >> (8 * k)) & 0xff;
        assert((8 * (n - 1)) as u64 == 8 * k);
        assert(enc[1 + (n - 1)] == x as u8);
        assert(enc[n as int] == enc[1 + (n - 1)]);
    }
    if v == 0 {
        assert(0u64 < (1u64 << 0u64)) by (bit_vector);
    }
}

/// What a read varint is: the size byte at `pos` is at most 8, the value's
/// low bytes, least significant first, are the bytes that follow it, and the
/// value's higher bytes are zero.
pub proof fn lemma_read_varint_bytes(data: Seq<u8>, pos: int)
    ensures
        read_varint_at(data, pos).0 matches Ok(v) ==> {
            let n = data[pos] as int;
            &&& 0 <= pos && n <= 8
            &&& read_varint_at(data, pos).1 == pos + 1 + n <= data.len()
            &&& forall|i: int| 0 <= i < n ==> #[trigger] data[pos + 1 + i] == ((v >> ((8 * i) as u64))
                & 0xff) as u8
            &&& forall|i: int| n <= i < 8 ==> #[trigger] ((v >> ((8 * i) as u64)) & 0xff) == 0
        },
{
    if read_varint_at(data, pos).0 is Ok {
        let n = data[pos] as int;
        let v = read_varint_at(data, pos).0->Ok_0;
        let sub = data.subrange(pos + 1, pos + 1 + n);
        let pd = pad_to_u64(sub);
        assert(pd.len() == 8);
        lemma_auto_spec_u64_to_from_le_bytes();
        spec_u64_to_le_bytes_to_open(v);
        assert(spec_u64_to_le_bytes(v) == pd);
        assert forall|i: int| 0 <= i < 8 implies ((v >> ((8 * i) as u64)) & 0xff) as u8 == pd[i] by {
            if i == 0 {
                assert(v >> 0u64 == v) by (bit_vector);
            }
        }
        assert forall|i: int| 0 <= i < n implies #[trigger] data[pos + 1 + i] == ((v >> ((8 * i)
            as u64)) & 0xff) as u8 by {
            assert(pd[i] == sub[i]);
        }
        assert forall|i: int| n <= i < 8 implies #[trigger] ((v >> ((8 * i) as u64)) & 0xff) == 0 by {
            let s8 = (8 * i) as u64;
            let x = (v >> s8) & 0xff;
            assert(x <= 0xff) by (bit_vector)
                requires x == (v >> s8) & 0xff;
            assert(pd[i] == 0);
        }
    }
}

/// Reading back what `write_varint` wrote: wherever the encoding of `v` stands
/// in a buffer, reading a varint there gives `v` and stops right after the encoding.
pub proof fn lemma_varint_roundtrip(data: Seq<u8>, pos: int, v: u64)
    requires
        0 <= pos,
        pos + varint_encode(v).len() <= data.len(),
        data.subrange(pos, pos + varint_encode(v).len()) == varint_encode(v),
    ensures
        read_varint_at(data, pos) == (Ok::<u64, EntryError>(v), pos + varint_encode(v).len()),
{
    lemma_auto_spec_u64_to_from_le_bytes();
    lemma_width(v, 0);
    lemma_pad_width(v);
    let n = varint_width(v);
    let enc = varint_encode(v);
    assert(enc.len() == 1 + n);
    assert(data[pos] == n as u8) by {
        assert(data.subrange(pos, pos + enc.len())[0] == enc[0]);
    }
    assert(data.subrange(pos + 1, pos + 1 + n) =~= spec_u64_to_le_bytes(v).take(n as int)) by {
        assert forall|i: int| 0 <= i < n implies data.subrange(pos + 1, pos + 1 + n)[i]
            == spec_u64_to_le_bytes(v).take(n as int)[i] by {
            assert(data.subrange(pos, pos + enc.len())[i + 1] == enc[i + 1]);
        }
    }
}

} // verus!
