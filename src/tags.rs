//! Tag bytes of the TSON format and of JSON text, and the little-endian
//! encoding of composite lengths.

use vstd::prelude::*;

verus! {

/// Tag bytes that precede every TSON value.
pub const OBJECT_BEGIN: u8 = 0x00;
pub const OBJECT_END: u8 = 0x01;
pub const ARRAY_BEGIN: u8 = 0x02;
pub const ARRAY_END: u8 = 0x03;
pub const STRING: u8 = 0x04;
pub const NUMBER: u8 = 0x05;
pub const TRUE: u8 = 0x06;
pub const FALSE: u8 = 0x07;
pub const NULL: u8 = 0x08;
pub const PAIR: u8 = 0x09;
pub const SEPARATOR: u8 = 0x0A;

/// Bytes of JSON text that the codec dispatches on.
pub const JSON_OBJECT_BEGIN: u8 = 0x7B;
pub const JSON_OBJECT_END: u8 = 0x7D;
pub const JSON_ARRAY_BEGIN: u8 = 0x5B;
pub const JSON_ARRAY_END: u8 = 0x5D;
pub const JSON_QUOTE: u8 = 0x22;
pub const JSON_ESCAPE: u8 = 0x5C;
pub const JSON_PAIR: u8 = 0x3A;
pub const JSON_SEPARATOR: u8 = 0x2C;

/// The four little-endian bytes of `x`.
pub open spec fn le32(x: u32) -> Seq<u8> {
    seq![
        (x & 0xff) as u8,
        ((x >> 8u32) & 0xff) as u8,
        ((x >> 16u32) & 0xff) as u8,
        ((x >> 24u32) & 0xff) as u8,
    ]
}

/// The value of four little-endian bytes.
pub open spec fn le32_value(b0: u8, b1: u8, b2: u8, b3: u8) -> u32 {
    (b0 as u32) | ((b1 as u32) << 8u32) | ((b2 as u32) << 16u32) | ((b3 as u32) << 24u32)
}

/// The value of the four bytes of `s` that start at `at`.
pub open spec fn le32_at(s: Seq<u8>, at: int) -> u32 {
    le32_value(s[at], s[at + 1], s[at + 2], s[at + 3])
}

/// The eight little-endian bytes of `x`.
pub open spec fn le64(x: u64) -> Seq<u8> {
    seq![
        (x & 0xff) as u8,
        ((x >> 8u64) & 0xff) as u8,
        ((x >> 16u64) & 0xff) as u8,
        ((x >> 24u64) & 0xff) as u8,
        ((x >> 32u64) & 0xff) as u8,
        ((x >> 40u64) & 0xff) as u8,
        ((x >> 48u64) & 0xff) as u8,
        ((x >> 56u64) & 0xff) as u8,
    ]
}

/// Reading back the bytes of `le32(x)` gives `x`.
pub proof fn lemma_le32_round_trip(x: u32)
    ensures
        le32(x).len() == 4,
        le32_at(le32(x), 0) == x,
{
    let b0 = (x & 0xff) as u8;
    let b1 = ((x >> 8u32) & 0xff) as u8;
    let b2 = ((x >> 16u32) & 0xff) as u8;
    let b3 = ((x >> 24u32) & 0xff) as u8;
    assert((b0 as u32) | ((b1 as u32) << 8u32) | ((b2 as u32) << 16u32) | ((b3 as u32) << 24u32)
        == x) by (bit_vector)
        requires
            b0 == (x & 0xff) as u8,
            b1 == ((x >> 8u32) & 0xff) as u8,
            b2 == ((x >> 16u32) & 0xff) as u8,
            b3 == ((x >> 24u32) & 0xff) as u8,
    ;
}

/// Zero is four zero bytes.
pub proof fn lemma_le32_zero()
    ensures
        le32(0) == seq![0u8, 0u8, 0u8, 0u8],
{
    assert((0u32 & 0xff) == 0 && ((0u32 >> 8u32) & 0xff) == 0 && ((0u32 >> 16u32) & 0xff) == 0
        && ((0u32 >> 24u32) & 0xff) == 0) by (bit_vector);
    assert(le32(0) =~= seq![0u8, 0u8, 0u8, 0u8]);
}

/// The little-endian bytes of a length.
pub fn le32_bytes(x: u32) -> (r: [u8; 4])
    ensures
        r@ == le32(x),
{
    let r = [
        (x & 0xff) as u8,
        ((x >> 8u32) & 0xff) as u8,
        ((x >> 16u32) & 0xff) as u8,
        ((x >> 24u32) & 0xff) as u8,
    ];
    assert(r@ =~= le32(x));
    r
}

/// The value of four little-endian bytes.
pub fn le32_from(b0: u8, b1: u8, b2: u8, b3: u8) -> (r: u32)
    ensures
        r == le32_value(b0, b1, b2, b3),
{
    (b0 as u32) | ((b1 as u32) << 8u32) | ((b2 as u32) << 16u32) | ((b3 as u32) << 24u32)
}

/// The value of the eight little-endian bytes of `s` that start at `at`.
pub open spec fn le64_at(s: Seq<u8>, at: int) -> u64 {
    (s[at] as u64) | ((s[at + 1] as u64) << 8u64) | ((s[at + 2] as u64) << 16u64) | ((s[at
        + 3] as u64) << 24u64) | ((s[at + 4] as u64) << 32u64) | ((s[at + 5] as u64) << 40u64)
        | ((s[at + 6] as u64) << 48u64) | ((s[at + 7] as u64) << 56u64)
}

/// The value of eight little-endian bytes.
pub fn le64_from(b: &[u8]) -> (r: u64)
    requires
        b@.len() == 8,
    ensures
        r == le64_at(b@, 0),
{
    (b[0] as u64) | ((b[1] as u64) << 8u64) | ((b[2] as u64) << 16u64) | ((b[3] as u64) << 24u64)
        | ((b[4] as u64) << 32u64) | ((b[5] as u64) << 40u64) | ((b[6] as u64) << 48u64) | ((
    b[7] as u64) << 56u64)
}

/// The little-endian bytes of a number's bit pattern.
pub fn le64_bytes(x: u64) -> (r: [u8; 8])
    ensures
        r@ == le64(x),
{
    let r = [
        (x & 0xff) as u8,
        ((x >> 8u64) & 0xff) as u8,
        ((x >> 16u64) & 0xff) as u8,
        ((x >> 24u64) & 0xff) as u8,
        ((x >> 32u64) & 0xff) as u8,
        ((x >> 40u64) & 0xff) as u8,
        ((x >> 48u64) & 0xff) as u8,
        ((x >> 56u64) & 0xff) as u8,
    ];
    assert(r@ =~= le64(x));
    r
}

} // verus!
