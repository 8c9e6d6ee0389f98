//! The mathematical model of the codec: a byte buffer viewed as one
//! continuous big-endian bitstream, and the 11-bit groups cut from it.

use vstd::prelude::*;

verus! {

/// Bit `k` of byte `b`, counting from the most significant bit (`k == 0`).
pub open spec fn byte_bit(b: u8, k: int) -> bool {
    (b >> ((7 - k) as u8)) & 1 == 1
}

/// Bit `j` of the bitstream of `bytes`: bit `j % 8` of byte `j / 8`.
/// Bits outside the buffer read as zero.
pub open spec fn stream_bit(bytes: Seq<u8>, j: int) -> bool {
    0 <= j < 8 * bytes.len() && byte_bit(bytes[j / 8], j % 8)
}

/// Bit `t` of an 11-bit group value, counting from the most significant of
/// the eleven bits (`t == 0`).
pub open spec fn group_bit(v: u16, t: int) -> bool {
    (v >> ((10 - t) as u16)) & 1 == 1
}

pub open spec fn bit_int(b: bool) -> int {
    if b {
        1
    } else {
        0
    }
}

/// The value of the `i`-th 11-bit group of `bytes`: the eleven consecutive
/// stream bits starting at offset `11*i`, read as a big-endian number.
pub open spec fn group_at(bytes: Seq<u8>, i: int) -> u16 {
    (1024 * bit_int(stream_bit(bytes, 11 * i)) + 512 * bit_int(stream_bit(bytes, 11 * i + 1))
        + 256 * bit_int(stream_bit(bytes, 11 * i + 2)) + 128 * bit_int(
        stream_bit(bytes, 11 * i + 3),
    ) + 64 * bit_int(stream_bit(bytes, 11 * i + 4)) + 32 * bit_int(stream_bit(bytes, 11 * i + 5))
        + 16 * bit_int(stream_bit(bytes, 11 * i + 6)) + 8 * bit_int(stream_bit(bytes, 11 * i + 7))
        + 4 * bit_int(stream_bit(bytes, 11 * i + 8)) + 2 * bit_int(stream_bit(bytes, 11 * i + 9))
        + bit_int(stream_bit(bytes, 11 * i + 10))) as u16
}

/// The group value is below 2048 and its bits are exactly the stream bits
/// it was cut from.
pub proof fn lemma_group_at_bits(bytes: Seq<u8>, i: int)
    ensures
        group_at(bytes, i) < 2048,
        forall|t: int| 0 <= t < 11 ==> group_bit(group_at(bytes, i), t) == stream_bit(bytes, 11 * i + t),
{
    let c0 = bit_int(stream_bit(bytes, 11 * i)) as u16;
    let c1 = bit_int(stream_bit(bytes, 11 * i + 1)) as u16;
    let c2 = bit_int(stream_bit(bytes, 11 * i + 2)) as u16;
    let c3 = bit_int(stream_bit(bytes, 11 * i + 3)) as u16;
    let c4 = bit_int(stream_bit(bytes, 11 * i + 4)) as u16;
    let c5 = bit_int(stream_bit(bytes, 11 * i + 5)) as u16;
    let c6 = bit_int(stream_bit(bytes, 11 * i + 6)) as u16;
    let c7 = bit_int(stream_bit(bytes, 11 * i + 7)) as u16;
    let c8 = bit_int(stream_bit(bytes, 11 * i + 8)) as u16;
    let c9 = bit_int(stream_bit(bytes, 11 * i + 9)) as u16;
    let c10 = bit_int(stream_bit(bytes, 11 * i + 10)) as u16;
    let v = group_at(bytes, i);
    assert(v == 1024 * c0 + 512 * c1 + 256 * c2 + 128 * c3 + 64 * c4 + 32 * c5 + 16 * c6 + 8 * c7
        + 4 * c8 + 2 * c9 + c10);
    assert(v < 2048 && ((v >> 10u16) & 1 == 1) == (c0 == 1) && ((v >> 9u16) & 1 == 1) == (c1 == 1)
        && ((v >> 8u16) & 1 == 1) == (c2 == 1) && ((v >> 7u16) & 1 == 1) == (c3 == 1) && ((v
        >> 6u16) & 1 == 1) == (c4 == 1) && ((v >> 5u16) & 1 == 1) == (c5 == 1) && ((v >> 4u16) & 1
        == 1) == (c6 == 1) && ((v >> 3u16) & 1 == 1) == (c7 == 1) && ((v >> 2u16) & 1 == 1) == (c8
        == 1) && ((v >> 1u16) & 1 == 1) == (c9 == 1) && ((v >> 0u16) & 1 == 1) == (c10 == 1))
        by (bit_vector)
        requires
            c0 <= 1 && c1 <= 1 && c2 <= 1 && c3 <= 1 && c4 <= 1 && c5 <= 1 && c6 <= 1 && c7 <= 1
                && c8 <= 1 && c9 <= 1 && c10 <= 1,
            v == 1024 * c0 + 512 * c1 + 256 * c2 + 128 * c3 + 64 * c4 + 32 * c5 + 16 * c6 + 8 * c7
                + 4 * c8 + 2 * c9 + c10,
    ;
    assert forall|t: int| 0 <= t < 11 implies group_bit(v, t) == stream_bit(bytes, 11 * i + t) by {
        if t == 0 {
        } else if t == 1 {
        } else if t == 2 {
        } else if t == 3 {
        } else if t == 4 {
        } else if t == 5 {
        } else if t == 6 {
        } else if t == 7 {
        } else if t == 8 {
        } else if t == 9 {
        } else {
            assert(t == 10);
        }
    }
}

/// Two values below 2048 with the same eleven bits are the same value.
pub proof fn lemma_group_bits_unique(v1: u16, v2: u16)
    requires
        v1 < 2048,
        v2 < 2048,
        forall|t: int| 0 <= t < 11 ==> group_bit(v1, t) == group_bit(v2, t),
    ensures
        v1 == v2,
{
    assert(group_bit(v1, 0) == group_bit(v2, 0));
    assert(group_bit(v1, 1) == group_bit(v2, 1));
    assert(group_bit(v1, 2) == group_bit(v2, 2));
    assert(group_bit(v1, 3) == group_bit(v2, 3));
    assert(group_bit(v1, 4) == group_bit(v2, 4));
    assert(group_bit(v1, 5) == group_bit(v2, 5));
    assert(group_bit(v1, 6) == group_bit(v2, 6));
    assert(group_bit(v1, 7) == group_bit(v2, 7));
    assert(group_bit(v1, 8) == group_bit(v2, 8));
    assert(group_bit(v1, 9) == group_bit(v2, 9));
    assert(group_bit(v1, 10) == group_bit(v2, 10));
    assert(v1 == v2) by (bit_vector)
        requires
            v1 < 2048,
            v2 < 2048,
            ((v1 >> 10u16) & 1 == 1) == ((v2 >> 10u16) & 1 == 1),
            ((v1 >> 9u16) & 1 == 1) == ((v2 >> 9u16) & 1 == 1),
            ((v1 >> 8u16) & 1 == 1) == ((v2 >> 8u16) & 1 == 1),
            ((v1 >> 7u16) & 1 == 1) == ((v2 >> 7u16) & 1 == 1),
            ((v1 >> 6u16) & 1 == 1) == ((v2 >> 6u16) & 1 == 1),
            ((v1 >> 5u16) & 1 == 1) == ((v2 >> 5u16) & 1 == 1),
            ((v1 >> 4u16) & 1 == 1) == ((v2 >> 4u16) & 1 == 1),
            ((v1 >> 3u16) & 1 == 1) == ((v2 >> 3u16) & 1 == 1),
            ((v1 >> 2u16) & 1 == 1) == ((v2 >> 2u16) & 1 == 1),
            ((v1 >> 1u16) & 1 == 1) == ((v2 >> 1u16) & 1 == 1),
            ((v1 >> 0u16) & 1 == 1) == ((v2 >> 0u16) & 1 == 1),
    ;
}

/// Two bytes with the same eight bits are the same byte.
pub proof fn lemma_byte_bits_eq(a: u8, b: u8)
    requires
        forall|k: int| 0 <= k < 8 ==> byte_bit(a, k) == byte_bit(b, k),
    ensures
        a == b,
{
    assert(byte_bit(a, 0) == byte_bit(b, 0));
    assert(byte_bit(a, 1) == byte_bit(b, 1));
    assert(byte_bit(a, 2) == byte_bit(b, 2));
    assert(byte_bit(a, 3) == byte_bit(b, 3));
    assert(byte_bit(a, 4) == byte_bit(b, 4));
    assert(byte_bit(a, 5) == byte_bit(b, 5));
    assert(byte_bit(a, 6) == byte_bit(b, 6));
    assert(byte_bit(a, 7) == byte_bit(b, 7));
    assert(a == b) by (bit_vector)
        requires
            ((a >> 7u8) & 1 == 1) == ((b >> 7u8) & 1 == 1),
            ((a >> 6u8) & 1 == 1) == ((b >> 6u8) & 1 == 1),
            ((a >> 5u8) & 1 == 1) == ((b >> 5u8) & 1 == 1),
            ((a >> 4u8) & 1 == 1) == ((b >> 4u8) & 1 == 1),
            ((a >> 3u8) & 1 == 1) == ((b >> 3u8) & 1 == 1),
            ((a >> 2u8) & 1 == 1) == ((b >> 2u8) & 1 == 1),
            ((a >> 1u8) & 1 == 1) == ((b >> 1u8) & 1 == 1),
            ((a >> 0u8) & 1 == 1) == ((b >> 0u8) & 1 == 1),
    ;
}

/// Every bit of the zero byte is clear.
pub proof fn lemma_zero_byte_bits()
    ensures
        forall|k: int| 0 <= k < 8 ==> !byte_bit(0u8, k),
{
    assert forall|k: int| 0 <= k < 8 implies !byte_bit(0u8, k) by {
        let s = (7 - k) as u8;
        assert((0u8 >> s) & 1 != 1) by (bit_vector);
    }
}

/// Splitting a stream position into its byte index and bit index.
pub proof fn lemma_stream_pos(i: int, k: int)
    requires
        0 <= i,
        0 <= k < 8,
    ensures
        (8 * i + k) / 8 == i,
        (8 * i + k) % 8 == k,
{
    assert((8 * i + k) / 8 == i && (8 * i + k) % 8 == k) by (nonlinear_arith)
        requires
            0 <= i && 0 <= k < 8,
    ;
}

/// Two byte buffers of the same length whose streams agree bit for bit are
/// the same buffer.
pub proof fn lemma_bytes_eq_from_bits(b1: Seq<u8>, b2: Seq<u8>)
    requires
        b1.len() == b2.len(),
        forall|j: int| 0 <= j < 8 * b1.len() ==> stream_bit(b1, j) == stream_bit(b2, j),
    ensures
        b1 == b2,
{
    assert forall|i: int| 0 <= i < b1.len() implies b1[i] == b2[i] by {
        assert forall|k: int| 0 <= k < 8 implies byte_bit(b1[i], k) == byte_bit(b2[i], k) by {
            lemma_stream_pos(i, k);
            assert(stream_bit(b1, 8 * i + k) == stream_bit(b2, 8 * i + k));
        }
        lemma_byte_bits_eq(b1[i], b2[i]);
    }
    assert(b1 =~= b2);
}

/// A stream bit of a prefix of a buffer is the corresponding bit of the
/// whole buffer.
pub proof fn lemma_stream_bit_prefix(b: Seq<u8>, m: int, j: int)
    requires
        0 <= m <= b.len(),
        0 <= j < 8 * m,
    ensures
        stream_bit(b.subrange(0, m), j) == stream_bit(b, j),
{
    assert(0 <= j / 8 < m && 0 <= j % 8 < 8) by (nonlinear_arith)
        requires
            0 <= j < 8 * m,
    ;
}

} // verus!
