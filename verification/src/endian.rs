use byteorder::{ByteOrder, LittleEndian};
use vstd::prelude::*;

verus! {

/// The two little-endian bytes of `v`.
pub open spec fn u16_le_bytes(v: u16) -> Seq<u8> {
    seq![v as u8, (v >> 8u16) as u8]
}

/// The four little-endian bytes of `v`.
pub open spec fn u32_le_bytes(v: u32) -> Seq<u8> {
    seq![v as u8, (v >> 8u32) as u8, (v >> 16u32) as u8, (v >> 24u32) as u8]
}

/// The eight little-endian bytes of `v`.
pub open spec fn u64_le_bytes(v: u64) -> Seq<u8> {
    seq![
        v as u8,
        (v >> 8u64) as u8,
        (v >> 16u64) as u8,
        (v >> 24u64) as u8,
        (v >> 32u64) as u8,
        (v >> 40u64) as u8,
        (v >> 48u64) as u8,
        (v >> 56u64) as u8,
    ]
}

pub open spec fn le2(b0: u8, b1: u8) -> u16 {
    (b0 as u16) | ((b1 as u16) << 8u16)
}

pub open spec fn le4(b0: u8, b1: u8, b2: u8, b3: u8) -> u32 {
    (b0 as u32) | ((b1 as u32) << 8u32) | ((b2 as u32) << 16u32) | ((b3 as u32) << 24u32)
}

pub open spec fn le8(b0: u8, b1: u8, b2: u8, b3: u8, b4: u8, b5: u8, b6: u8, b7: u8) -> u64 {
    (b0 as u64) | ((b1 as u64) << 8u64) | ((b2 as u64) << 16u64) | ((b3 as u64) << 24u64)
        | ((b4 as u64) << 32u64) | ((b5 as u64) << 40u64) | ((b6 as u64) << 48u64) | ((b7
        as u64) << 56u64)
}

/// The `u16` whose little-endian bytes start `b`.
pub open spec fn le_u16(b: Seq<u8>) -> u16 {
    le2(b[0], b[1])
}

/// The `u32` whose little-endian bytes start `b`.
pub open spec fn le_u32(b: Seq<u8>) -> u32 {
    le4(b[0], b[1], b[2], b[3])
}

/// The `u64` whose little-endian bytes start `b`.
pub open spec fn le_u64(b: Seq<u8>) -> u64 {
    le8(b[0], b[1], b[2], b[3], b[4], b[5], b[6], b[7])
}

/// Reading back the bytes that a value is written as gives the value.
pub proof fn lemma_le_u16_roundtrip(v: u16)
    ensures
        le_u16(u16_le_bytes(v)) == v,
        u16_le_bytes(v).len() == 2,
{
    assert(le2(v as u8, (v >> 8u16) as u8) == v) by (bit_vector);
}

pub proof fn lemma_le_u32_roundtrip(v: u32)
    ensures
        le_u32(u32_le_bytes(v)) == v,
        u32_le_bytes(v).len() == 4,
{
    assert(le4(v as u8, (v >> 8u32) as u8, (v >> 16u32) as u8, (v >> 24u32) as u8) == v)
        by (bit_vector);
}

pub proof fn lemma_le_u64_roundtrip(v: u64)
    ensures
        le_u64(u64_le_bytes(v)) == v,
        u64_le_bytes(v).len() == 8,
{
    assert(le8(
        v as u8,
        (v >> 8u64) as u8,
        (v >> 16u64) as u8,
        (v >> 24u64) as u8,
        (v >> 32u64) as u8,
        (v >> 40u64) as u8,
        (v >> 48u64) as u8,
        (v >> 56u64) as u8,
    ) == v) by (bit_vector);
}

/// The bytes of a value are its base-256 digits, least significant first, and reading
/// bytes gives back the number those digits make.
pub proof fn lemma_le_digits(v16: u16, v32: u32, v64: u64, b: Seq<u8>)
    requires
        b.len() >= 8,
    ensures
        u16_le_bytes(v16) == seq![(v16 % 256) as u8, (v16 / 256) as u8],
        u32_le_bytes(v32) == seq![
            (v32 % 256) as u8,
            (v32 / 0x100 % 256) as u8,
            (v32 / 0x1_0000 % 256) as u8,
            (v32 / 0x100_0000) as u8,
        ],
        u64_le_bytes(v64) == seq![
            (v64 % 256) as u8,
            (v64 / 0x100 % 256) as u8,
            (v64 / 0x1_0000 % 256) as u8,
            (v64 / 0x100_0000 % 256) as u8,
            (v64 / 0x1_0000_0000 % 256) as u8,
            (v64 / 0x100_0000_0000 % 256) as u8,
            (v64 / 0x1_0000_0000_0000 % 256) as u8,
            (v64 / 0x100_0000_0000_0000 % 256) as u8,
        ],
        le_u16(b) == b[0] + 256 * b[1],
        le_u32(b) == b[0] + 0x100 * b[1] + 0x1_0000 * b[2] + 0x100_0000 * b[3],
        le_u64(b) == b[0] + 0x100 * b[1] + 0x1_0000 * b[2] + 0x100_0000 * b[3] + 0x1_0000_0000 * b[4]
            + 0x100_0000_0000 * b[5] + 0x1_0000_0000_0000 * b[6] + 0x100_0000_0000_0000 * b[7],
{
    assert((v16 as u8) == (v16 % 256) as u8 && ((v16 >> 8u16) as u8) == (v16 / 256) as u8)
        by (bit_vector);
    assert((v32 as u8) == (v32 % 256) as u8 && ((v32 >> 8u32) as u8) == (v32 / 0x100 % 256) as u8
        && ((v32 >> 16u32) as u8) == (v32 / 0x1_0000 % 256) as u8 && ((v32 >> 24u32) as u8) == (v32
        / 0x100_0000) as u8) by (bit_vector);
    assert((v64 as u8) == (v64 % 256) as u8 && ((v64 >> 8u64) as u8) == (v64 / 0x100 % 256) as u8
        && ((v64 >> 16u64) as u8) == (v64 / 0x1_0000 % 256) as u8 && ((v64 >> 24u64) as u8) == (v64
        / 0x100_0000 % 256) as u8 && ((v64 >> 32u64) as u8) == (v64 / 0x1_0000_0000 % 256) as u8
        && ((v64 >> 40u64) as u8) == (v64 / 0x100_0000_0000 % 256) as u8 && ((v64 >> 48u64) as u8)
        == (v64 / 0x1_0000_0000_0000 % 256) as u8 && ((v64 >> 56u64) as u8) == (v64
        / 0x100_0000_0000_0000 % 256) as u8) by (bit_vector);
    assert(u16_le_bytes(v16) =~= seq![(v16 % 256) as u8, (v16 / 256) as u8]);
    assert(u32_le_bytes(v32) =~= seq![
        (v32 % 256) as u8,
        (v32 / 0x100 % 256) as u8,
        (v32 / 0x1_0000 % 256) as u8,
        (v32 / 0x100_0000) as u8,
    ]);
    assert(u64_le_bytes(v64) =~= seq![
        (v64 % 256) as u8,
        (v64 / 0x100 % 256) as u8,
        (v64 / 0x1_0000 % 256) as u8,
        (v64 / 0x100_0000 % 256) as u8,
        (v64 / 0x1_0000_0000 % 256) as u8,
        (v64 / 0x100_0000_0000 % 256) as u8,
        (v64 / 0x1_0000_0000_0000 % 256) as u8,
        (v64 / 0x100_0000_0000_0000 % 256) as u8,
    ]);
    let (b0, b1, b2, b3, b4, b5, b6, b7) = (b[0], b[1], b[2], b[3], b[4], b[5], b[6], b[7]);
    assert(le2(b0, b1) == b0 + 256 * b1) by (bit_vector);
    assert(le4(b0, b1, b2, b3) == b0 + 0x100 * b1 + 0x1_0000 * b2 + 0x100_0000 * b3) by (bit_vector);
    assert(le8(b0, b1, b2, b3, b4, b5, b6, b7) == b0 + 0x100 * b1 + 0x1_0000 * b2 + 0x100_0000 * b3
        + 0x1_0000_0000 * b4 + 0x100_0000_0000 * b5 + 0x1_0000_0000_0000 * b6
        + 0x100_0000_0000_0000 * b7) by (bit_vector);
}

/// Writing the value that some bytes are read as gives those bytes back.
pub proof fn lemma_le_u16_bytes(b: Seq<u8>)
    requires
        b.len() >= 2,
    ensures
        u16_le_bytes(le_u16(b)) == b.take(2),
{
    let (b0, b1) = (b[0], b[1]);
    assert(le2(b0, b1) as u8 == b0 && (le2(b0, b1) >> 8u16) as u8 == b1) by (bit_vector);
    assert(u16_le_bytes(le_u16(b)) =~= b.take(2));
}

pub proof fn lemma_le_u32_bytes(b: Seq<u8>)
    requires
        b.len() >= 4,
    ensures
        u32_le_bytes(le_u32(b)) == b.take(4),
{
    let (b0, b1, b2, b3) = (b[0], b[1], b[2], b[3]);
    let v = le4(b0, b1, b2, b3);
    assert(v == le4(b0, b1, b2, b3) ==> v as u8 == b0 && (v >> 8u32) as u8 == b1 && (v >> 16u32) as u8
        == b2 && (v >> 24u32) as u8 == b3) by (bit_vector);
    assert(u32_le_bytes(le_u32(b)) =~= b.take(4));
}

pub proof fn lemma_le_u64_bytes(b: Seq<u8>)
    requires
        b.len() >= 8,
    ensures
        u64_le_bytes(le_u64(b)) == b.take(8),
{
    let (b0, b1, b2, b3, b4, b5, b6, b7) = (b[0], b[1], b[2], b[3], b[4], b[5], b[6], b[7]);
    let v = le8(b0, b1, b2, b3, b4, b5, b6, b7);
    assert(v == le8(b0, b1, b2, b3, b4, b5, b6, b7) ==> v as u8 == b0 && (v >> 8u64) as u8 == b1
        && (v >> 16u64) as u8 == b2 && (v >> 24u64) as u8 == b3 && (v >> 32u64) as u8 == b4 && (v
        >> 40u64) as u8 == b5 && (v >> 48u64) as u8 == b6 && (v >> 56u64) as u8 == b7)
        by (bit_vector);
    assert(u64_le_bytes(le_u64(b)) =~= b.take(8));
}

/// Calls `LittleEndian::read_u16` of byteorder, which reads the first two bytes of `buf`
/// as a little-endian integer (and panics on a shorter buffer).
#[verifier::external_body]
pub(crate) fn read_u16_le(buf: &[u8]) -> (r: u16)
    requires
        buf@.len() >= 2,
    ensures
        r == le_u16(buf@),
{
    LittleEndian::read_u16(buf)
}

/// Calls `LittleEndian::read_u32` of byteorder: the first four bytes of `buf`,
/// little-endian.
#[verifier::external_body]
pub(crate) fn read_u32_le(buf: &[u8]) -> (r: u32)
    requires
        buf@.len() >= 4,
    ensures
        r == le_u32(buf@),
{
    LittleEndian::read_u32(buf)
}

/// Calls `LittleEndian::read_u64` of byteorder: the first eight bytes of `buf`,
/// little-endian.
#[verifier::external_body]
pub(crate) fn read_u64_le(buf: &[u8]) -> (r: u64)
    requires
        buf@.len() >= 8,
    ensures
        r == le_u64(buf@),
{
    LittleEndian::read_u64(buf)
}

/// Calls `LittleEndian::write_u16` of byteorder on a fresh two-byte buffer, which it
/// fills with the little-endian bytes of `n`.
#[verifier::external_body]
pub(crate) fn write_u16_le(n: u16) -> (r: [u8; 2])
    ensures
        r@ == u16_le_bytes(n),
{
    let mut buf = [0u8; 2];
    LittleEndian::write_u16(&mut buf, n);
    buf
}

/// Calls `LittleEndian::write_u32` of byteorder on a fresh four-byte buffer.
#[verifier::external_body]
pub(crate) fn write_u32_le(n: u32) -> (r: [u8; 4])
    ensures
        r@ == u32_le_bytes(n),
{
    let mut buf = [0u8; 4];
    LittleEndian::write_u32(&mut buf, n);
    buf
}

/// Calls `LittleEndian::write_u64` of byteorder on a fresh eight-byte buffer.
#[verifier::external_body]
pub(crate) fn write_u64_le(n: u64) -> (r: [u8; 8])
    ensures
        r@ == u64_le_bytes(n),
{
    let mut buf = [0u8; 8];
    LittleEndian::write_u64(&mut buf, n);
    buf
}

/// The eight little-endian bytes of `v`.
pub(crate) fn u64_to_le_bytes(v: u64) -> (r: [u8; 8])
    ensures
        r@ == u64_le_bytes(v),
{
    let r = [
        v as u8,
        (v >> 8) as u8,
        (v >> 16) as u8,
        (v >> 24) as u8,
        (v >> 32) as u8,
        (v >> 40) as u8,
        (v >> 48) as u8,
        (v >> 56) as u8,
    ];
    assert(r@ =~= u64_le_bytes(v));
    r
}

} // verus!
