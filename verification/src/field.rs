//! Fixed-width big-endian fields inside a byte buffer.

use vstd::prelude::*;

verus! {

/// The number that the four bytes at `pos` spell, most significant first.
pub open spec fn be_u32(bytes: Seq<u8>, pos: int) -> int {
    bytes[pos] * 0x100_0000 + bytes[pos + 1] * 0x1_0000 + bytes[pos + 2] * 0x100 + bytes[pos + 3]
}

/// The number that the eight bytes at `pos` spell, most significant first.
pub open spec fn be_u64(bytes: Seq<u8>, pos: int) -> int {
    be_u32(bytes, pos) * 0x1_0000_0000 + be_u32(bytes, pos + 4)
}

/// The four bytes that spell `v`, most significant first.
pub open spec fn u32_bytes(v: u32) -> Seq<u8> {
    seq![
        (v / 0x100_0000) as u8,
        (v / 0x1_0000 % 0x100) as u8,
        (v / 0x100 % 0x100) as u8,
        (v % 0x100) as u8,
    ]
}

/// The eight bytes that spell `v`, most significant first.
pub open spec fn u64_bytes(v: u64) -> Seq<u8> {
    u32_bytes((v / 0x1_0000_0000) as u32) + u32_bytes((v % 0x1_0000_0000) as u32)
}

/// `bytes` with the bytes from `pos` on replaced by `field`; nothing moves.
pub open spec fn splice(bytes: Seq<u8>, pos: int, field: Seq<u8>) -> Seq<u8> {
    Seq::new(
        bytes.len(),
        |i: int|
            if pos <= i < pos + field.len() {
                field[i - pos]
            } else {
                bytes[i]
            },
    )
}

/// Reads the 32-bit field at `pos`.
pub fn read_u32_at(buf: &[u8], pos: usize) -> (v: u32)
    requires
        pos + 4 <= buf@.len(),
    ensures
        v == be_u32(buf@, pos as int),
{
    (buf[pos] as u32) * 0x100_0000 + (buf[pos + 1] as u32) * 0x1_0000 + (buf[pos + 2] as u32)
        * 0x100 + (buf[pos + 3] as u32)
}

/// Reads the 64-bit field at `pos`.
pub fn read_u64_at(buf: &[u8], pos: usize) -> (v: u64)
    requires
        pos + 8 <= buf@.len(),
    ensures
        v == be_u64(buf@, pos as int),
{
    assert(buf@.len() == buf.len());
    let high: u32 = read_u32_at(buf, pos);
    let low: u32 = read_u32_at(buf, pos + 4);
    (high as u64) * 0x1_0000_0000 + (low as u64)
}

/// Overwrites the 32-bit field at `pos` with `v`.
pub fn write_u32_at(buf: &mut [u8], pos: usize, v: u32)
    requires
        pos + 4 <= old(buf)@.len(),
    ensures
        final(buf)@ == splice(old(buf)@, pos as int, u32_bytes(v)),
{
    buf[pos] = (v / 0x100_0000) as u8;
    buf[pos + 1] = (v / 0x1_0000 % 0x100) as u8;
    buf[pos + 2] = (v / 0x100 % 0x100) as u8;
    buf[pos + 3] = (v % 0x100) as u8;
}

/// Overwrites the 64-bit field at `pos` with `v`.
pub fn write_u64_at(buf: &mut [u8], pos: usize, v: u64)
    requires
        pos + 8 <= old(buf)@.len(),
    ensures
        final(buf)@ == splice(old(buf)@, pos as int, u64_bytes(v)),
{
    assert(buf@.len() == buf.len());
    write_u32_at(buf, pos, (v / 0x1_0000_0000) as u32);
    write_u32_at(buf, pos + 4, (v % 0x1_0000_0000) as u32);
}

/// A number reads the same in a piece of a buffer as in the buffer.
pub proof fn lemma_be_u32_window(whole: Seq<u8>, start: int, piece: Seq<u8>, pos: int)
    requires
        0 <= start,
        start + piece.len() <= whole.len(),
        whole.subrange(start, start + piece.len()) == piece,
        0 <= pos,
        pos + 4 <= piece.len(),
    ensures
        be_u32(whole, start + pos) == be_u32(piece, pos),
{
    let window = whole.subrange(start, start + piece.len());
    assert(window[pos] == whole[start + pos]);
    assert(window[pos + 1] == whole[start + pos + 1]);
    assert(window[pos + 2] == whole[start + pos + 2]);
    assert(window[pos + 3] == whole[start + pos + 3]);
}

/// The bytes that spell a 32-bit number spell that number.
pub proof fn lemma_u32_bytes(v: u32)
    ensures
        u32_bytes(v).len() == 4,
        be_u32(u32_bytes(v), 0) == v,
{
    assert(v / 0x100_0000 < 0x100) by (bit_vector);
    assert(v == (v / 0x100_0000) * 0x100_0000 + (v / 0x1_0000 % 0x100) * 0x1_0000 + (v / 0x100
        % 0x100) * 0x100 + v % 0x100) by (bit_vector);
}

/// The bytes that spell a 64-bit number spell that number.
pub proof fn lemma_u64_bytes(v: u64)
    ensures
        u64_bytes(v).len() == 8,
        be_u64(u64_bytes(v), 0) == v,
{
    let high = (v / 0x1_0000_0000) as u32;
    let low = (v % 0x1_0000_0000) as u32;
    assert(v / 0x1_0000_0000 < 0x1_0000_0000) by (bit_vector);
    assert(v == (v / 0x1_0000_0000) * 0x1_0000_0000 + v % 0x1_0000_0000) by (bit_vector);
    lemma_u32_bytes(high);
    lemma_u32_bytes(low);
    let bytes = u64_bytes(v);
    assert(be_u32(bytes, 0) == be_u32(u32_bytes(high), 0));
    assert(be_u32(bytes, 4) == be_u32(u32_bytes(low), 0));
}

/// A field that was written reads back as written, and the bytes around it
/// are as they were.
pub proof fn lemma_splice_u32(bytes: Seq<u8>, pos: int, v: u32)
    requires
        0 <= pos,
        pos + 4 <= bytes.len(),
    ensures
        splice(bytes, pos, u32_bytes(v)).len() == bytes.len(),
        be_u32(splice(bytes, pos, u32_bytes(v)), pos) == v,
        forall|i: int|
            0 <= i < bytes.len() && !(pos <= i < pos + 4) ==> splice(bytes, pos, u32_bytes(v))[i]
                == bytes[i],
{
    lemma_u32_bytes(v);
    let field = u32_bytes(v);
    let after = splice(bytes, pos, field);
    assert(after[pos] == field[0]);
    assert(after[pos + 1] == field[1]);
    assert(after[pos + 2] == field[2]);
    assert(after[pos + 3] == field[3]);
}

/// A field that was written reads back as written, and the bytes around it
/// are as they were.
pub proof fn lemma_splice_u64(bytes: Seq<u8>, pos: int, v: u64)
    requires
        0 <= pos,
        pos + 8 <= bytes.len(),
    ensures
        splice(bytes, pos, u64_bytes(v)).len() == bytes.len(),
        be_u64(splice(bytes, pos, u64_bytes(v)), pos) == v,
        forall|i: int|
            0 <= i < bytes.len() && !(pos <= i < pos + 8) ==> splice(bytes, pos, u64_bytes(v))[i]
                == bytes[i],
{
    lemma_u64_bytes(v);
    let field = u64_bytes(v);
    let after = splice(bytes, pos, field);
    assert(be_u32(after, pos) == be_u32(field, 0));
    assert(be_u32(after, pos + 4) == be_u32(field, 4));
}

} // verus!
