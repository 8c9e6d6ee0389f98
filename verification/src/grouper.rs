//! The bit-regrouping primitive: reinterpreting an 8-bit-aligned byte
//! buffer as a sequence of 11-bit groups and writing such groups back.

use vstd::prelude::*;

use crate::bits::{
    byte_bit, group_bit, stream_bit, group_at, lemma_group_at_bits, lemma_group_bits_unique,
    lemma_stream_bit_prefix, lemma_stream_pos, lemma_zero_byte_bits,
};

verus! {

/// Number of 11-bit groups needed to hold `n` bytes: `ceil(8n / 11)`.
pub open spec fn group_count(n: int) -> int {
    (8 * n + 10) / 11
}

/// Number of stream bits that the final, partially filled group receives
/// from `n` bytes: `8n mod 11`; zero means the bytes end exactly on a
/// group boundary.
pub open spec fn bit_remainder(n: int) -> int {
    (8 * n) % 11
}

/// Shift the buffer's bitstream left by eleven bits: afterwards stream bit
/// `j` holds what stream bit `j + 11` held before, and the bits shifted in
/// from past the end are zero.
pub fn shift_11(buf: &mut Vec<u8>)
    requires
        old(buf).len() >= 2,
    ensures
        final(buf).len() == old(buf).len(),
        forall|j: int|
            0 <= j < 8 * final(buf)@.len() ==> stream_bit(final(buf)@, j) == stream_bit(
                old(buf)@,
                j + 11,
            ),
{
    let len = buf.len();
    let mut i: usize = 0;
    while i < len - 2
        invariant
            buf.len() == len,
            len == old(buf).len(),
            2 <= len,
            i <= len - 2,
            forall|j: int|
                0 <= j < 8 * i ==> stream_bit(buf@, j) == stream_bit(old(buf)@, j + 11),
            forall|m: int| i <= m < len ==> buf@[m] == old(buf)@[m],
        decreases len - i,
    {
        let a = buf[i + 1];
        let b = buf[i + 2];
        let v = ((a & 0b11111) << 3) | ((b & 0b11100000) >> 5);
        let ghost prev = buf@;
        buf[i] = v;
        proof {
            assert(forall|s: u8|
                s < 8 ==> (((v >> s) & 1 == 1) == (if s >= 3 {
                    ((a >> ((s - 3) as u8)) & 1 == 1)
                } else {
                    ((b >> (s + 5)) & 1 == 1)
                }))) by (bit_vector)
                requires
                    v == ((a & 0b11111) << 3) | ((b & 0b11100000) >> 5),
            ;
            assert forall|j: int| 0 <= j < 8 * (i + 1) implies stream_bit(buf@, j) == stream_bit(
                old(buf)@,
                j + 11,
            ) by {
                if j < 8 * i {
                    assert(0 <= j / 8 < i && 0 <= j % 8 < 8) by (nonlinear_arith)
                        requires
                            0 <= j < 8 * i,
                    ;
                    assert(buf@[j / 8] == prev[j / 8]);
                    assert(stream_bit(buf@, j) == stream_bit(prev, j));
                } else {
                    let k = j - 8 * i;
                    lemma_stream_pos(i as int, k);
                    assert(stream_bit(buf@, j) == byte_bit(v, k));
                    let s = (7 - k) as u8;
                    assert(((v >> s) & 1 == 1) == (if s >= 3 {
                        ((a >> ((s - 3) as u8)) & 1 == 1)
                    } else {
                        ((b >> (s + 5)) & 1 == 1)
                    }));
                    if k < 5 {
                        assert(byte_bit(v, k) == byte_bit(a, k + 3));
                        lemma_stream_pos(i as int + 1, k + 3);
                        assert(j + 11 == 8 * (i + 1) + (k + 3));
                        assert(stream_bit(old(buf)@, j + 11) == byte_bit(a, k + 3));
                    } else {
                        assert(byte_bit(v, k) == byte_bit(b, k - 5));
                        lemma_stream_pos(i as int + 2, k - 5);
                        assert(j + 11 == 8 * (i + 2) + (k - 5));
                        assert(stream_bit(old(buf)@, j + 11) == byte_bit(b, k - 5));
                    }
                }
            }
        }
        i += 1;
    }
    let c = buf[len - 1];
    let w = (c & 0b11111) << 3;
    let ghost prev = buf@;
    buf[len - 2] = w;
    buf[len - 1] = 0;
    proof {
        assert(forall|s: u8|
            s < 8 ==> (((w >> s) & 1 == 1) == (s >= 3 && ((c >> ((s - 3) as u8)) & 1 == 1))))
            by (bit_vector)
            requires
                w == (c & 0b11111) << 3,
        ;
        lemma_zero_byte_bits();
        assert forall|j: int| 0 <= j < 8 * buf@.len() implies stream_bit(buf@, j) == stream_bit(
            old(buf)@,
            j + 11,
        ) by {
            if j < 8 * (len - 2) {
                assert(0 <= j / 8 < len - 2 && 0 <= j % 8 < 8) by (nonlinear_arith)
                    requires
                        0 <= j < 8 * (len - 2),
                ;
                assert(buf@[j / 8] == prev[j / 8]);
                assert(stream_bit(buf@, j) == stream_bit(prev, j));
            } else if j < 8 * (len - 1) {
                let k = j - 8 * (len - 2);
                lemma_stream_pos(len as int - 2, k);
                assert(stream_bit(buf@, j) == byte_bit(w, k));
                let s = (7 - k) as u8;
                assert(((w >> s) & 1 == 1) == (s >= 3 && ((c >> ((s - 3) as u8)) & 1 == 1)));
                if k < 5 {
                    assert(byte_bit(w, k) == byte_bit(c, k + 3));
                    lemma_stream_pos(len as int - 1, k + 3);
                    assert(j + 11 == 8 * (len - 1) + (k + 3));
                    assert(stream_bit(old(buf)@, j + 11) == byte_bit(c, k + 3));
                } else {
                    assert(!byte_bit(w, k));
                    assert(j + 11 >= 8 * len);
                    assert(!stream_bit(old(buf)@, j + 11));
                }
            } else {
                let k = j - 8 * (len - 1);
                lemma_stream_pos(len as int - 1, k);
                assert(stream_bit(buf@, j) == byte_bit(0u8, k));
                assert(!byte_bit(0u8, k));
                assert(j + 11 >= 8 * len);
                assert(!stream_bit(old(buf)@, j + 11));
            }
        }
    }
}

/// Write the eleven bits of `value` into the stream of `buf` at bit offset
/// `11 * index` by masked read-modify-write, leaving every other bit of the
/// buffer unchanged.
pub fn write_with_shift_11(buf: &mut Vec<u8>, value: u16, index: usize)
    requires
        value < 2048,
        11 * index + 11 <= 8 * old(buf).len(),
        8 * old(buf).len() <= usize::MAX,
    ensures
        final(buf).len() == old(buf).len(),
        forall|t: int|
            0 <= t < 11 ==> stream_bit(final(buf)@, 11 * index + t) == group_bit(value, t),
        forall|j: int|
            0 <= j < 8 * final(buf)@.len() && !(11 * index <= j < 11 * index + 11) ==> stream_bit(
                final(buf)@,
                j,
            ) == stream_bit(old(buf)@, j),
{
    let bit_length = index * 11;
    let byte_position = bit_length / 8;
    let bit_shift = bit_length % 8;
    proof {
        vstd::arithmetic::div_mod::lemma_fundamental_div_mod(bit_length as int, 8);
        assert(8 * (byte_position + 1) < 8 * old(buf).len());
    }
    let ghost bp = byte_position as int;
    let ghost sh = bit_shift as int;
    let shv: u8 = bit_shift as u8;
    let old0 = buf[byte_position];
    let first_mask: u8 = #[verifier::truncate] ((0xFFu16 << ((8 - shv) as u16)) as u8);
    let applied_first: u8 = #[verifier::truncate] ((value >> ((shv + 3) as u16)) as u8);
    let new0: u8 = (old0 & first_mask) | applied_first;
    buf[byte_position] = new0;
    proof {
        assert(forall|s: u8|
            s < 8 ==> (((new0 >> s) & 1 == 1) == (if s + shv >= 8 {
                ((old0 >> s) & 1 == 1)
            } else {
                ((value >> ((3 + s + shv) as u16)) & 1 == 1)
            }))) by (bit_vector)
            requires
                shv < 8,
                value < 2048,
                new0 == (old0 & ((0xFFu16 << ((8 - shv) as u16)) as u8)) | ((value >> ((shv + 3)
                    as u16)) as u8),
        ;
        assert forall|k: int| 0 <= k < 8 implies byte_bit(new0, k) == (if k < sh {
            byte_bit(old0, k)
        } else {
            group_bit(value, k - sh)
        }) by {
            let s = (7 - k) as u8;
            assert(((new0 >> s) & 1 == 1) == (if s + shv >= 8 {
                ((old0 >> s) & 1 == 1)
            } else {
                ((value >> ((3 + s + shv) as u16)) & 1 == 1)
            }));
        }
    }
    if bit_shift < 5 {
        let old1 = buf[byte_position + 1];
        let second_mask: u8 = 0xFFu8 >> (3 + shv);
        let applied_second: u8 = #[verifier::truncate] ((value << ((5 - shv) as u16)) as u8);
        let new1: u8 = (old1 & second_mask) | applied_second;
        buf[byte_position + 1] = new1;
        proof {
            assert(forall|s: u8|
                s < 8 ==> (((new1 >> s) & 1 == 1) == (if s + shv >= 5 {
                    ((value >> ((s + shv - 5) as u16)) & 1 == 1)
                } else {
                    ((old1 >> s) & 1 == 1)
                }))) by (bit_vector)
                requires
                    shv < 5,
                    value < 2048,
                    new1 == (old1 & (0xFFu8 >> (3 + shv))) | ((value << ((5 - shv) as u16)) as u8),
            ;
            assert forall|k: int| 0 <= k < 8 implies byte_bit(new1, k) == (if k < sh + 3 {
                group_bit(value, k + 8 - sh)
            } else {
                byte_bit(old1, k)
            }) by {
                let s = (7 - k) as u8;
                assert(((new1 >> s) & 1 == 1) == (if s + shv >= 5 {
                    ((value >> ((s + shv - 5) as u16)) & 1 == 1)
                } else {
                    ((old1 >> s) & 1 == 1)
                }));
            }
            lemma_write_glue(old(buf)@, buf@, value, index as int, bp, sh);
        }
    } else if bit_shift == 5 {
        let new1: u8 = #[verifier::truncate] ((value & 0xFF) as u8);
        buf[byte_position + 1] = new1;
        proof {
            assert(forall|s: u8|
                s < 8 ==> (((new1 >> s) & 1 == 1) == ((value >> s) & 1 == 1))) by (bit_vector)
                requires
                    new1 == (value & 0xFF) as u8,
            ;
            assert forall|k: int| 0 <= k < 8 implies byte_bit(new1, k) == (if k < sh + 3 {
                group_bit(value, k + 8 - sh)
            } else {
                byte_bit(buf@[bp + 1], k)
            }) by {
                let s = (7 - k) as u8;
                assert(((new1 >> s) & 1 == 1) == ((value >> s) & 1 == 1));
            }
            lemma_write_glue(old(buf)@, buf@, value, index as int, bp, sh);
        }
    } else {
        let old2 = buf[byte_position + 2];
        let applied_second: u8 = #[verifier::truncate] ((value >> ((shv - 5) as u16)) as u8);
        let third_mask: u8 = 0xFFu8 >> (shv - 5);
        let applied_third: u8 = #[verifier::truncate] ((value << ((13 - shv) as u16)) as u8);
        let new1: u8 = applied_second;
        let new2: u8 = (old2 & third_mask) | applied_third;
        buf[byte_position + 1] = new1;
        buf[byte_position + 2] = new2;
        proof {
            assert(forall|s: u8|
                s < 8 ==> (((new1 >> s) & 1 == 1) == ((value >> ((s + shv - 5) as u16)) & 1 == 1)))
                by (bit_vector)
                requires
                    5 < shv < 8,
                    value < 2048,
                    new1 == (value >> ((shv - 5) as u16)) as u8,
            ;
            assert(forall|s: u8|
                s < 8 ==> (((new2 >> s) & 1 == 1) == (if s + shv >= 13 {
                    ((value >> ((s + shv - 13) as u16)) & 1 == 1)
                } else {
                    ((old2 >> s) & 1 == 1)
                }))) by (bit_vector)
                requires
                    5 < shv < 8,
                    value < 2048,
                    new2 == (old2 & (0xFFu8 >> ((shv - 5) as u8))) | ((value << ((13 - shv) as u16)) as u8),
            ;
            assert forall|k: int| 0 <= k < 8 implies byte_bit(new1, k) == (if k < sh + 3 {
                group_bit(value, k + 8 - sh)
            } else {
                byte_bit(buf@[bp + 1], k)
            }) by {
                let s = (7 - k) as u8;
                assert(((new1 >> s) & 1 == 1) == ((value >> ((s + shv - 5) as u16)) & 1 == 1));
            }
            assert forall|k: int| 0 <= k < 8 implies byte_bit(new2, k) == (if k < sh - 5 {
                group_bit(value, k + 16 - sh)
            } else {
                byte_bit(old2, k)
            }) by {
                let s = (7 - k) as u8;
                assert(((new2 >> s) & 1 == 1) == (if s + shv >= 13 {
                    ((value >> ((s + shv - 13) as u16)) & 1 == 1)
                } else {
                    ((old2 >> s) & 1 == 1)
                }));
            }
            lemma_write_glue(old(buf)@, buf@, value, index as int, bp, sh);
        }
    }
}

/// From per-byte descriptions of the bytes a write touched, conclude the
/// stream-level description: the eleven window bits carry `value`, all
/// other bits are unchanged.
proof fn lemma_write_glue(oldv: Seq<u8>, newv: Seq<u8>, value: u16, index: int, bp: int, sh: int)
    requires
        0 <= index,
        value < 2048,
        11 * index == 8 * bp + sh,
        0 <= sh < 8,
        0 <= bp,
        11 * index + 11 <= 8 * oldv.len(),
        newv.len() == oldv.len(),
        forall|k: int|
            0 <= k < 8 ==> #[trigger] byte_bit(newv[bp], k) == (if k < sh {
                byte_bit(oldv[bp], k)
            } else {
                group_bit(value, k - sh)
            }),
        forall|k: int|
            0 <= k < 8 ==> #[trigger] byte_bit(newv[bp + 1], k) == (if k < sh + 3 {
                group_bit(value, k + 8 - sh)
            } else {
                byte_bit(oldv[bp + 1], k)
            }),
        sh > 5 ==> forall|k: int|
            0 <= k < 8 ==> #[trigger] byte_bit(newv[bp + 2], k) == (if k < sh - 5 {
                group_bit(value, k + 16 - sh)
            } else {
                byte_bit(oldv[bp + 2], k)
            }),
        forall|m: int|
            0 <= m < oldv.len() && m != bp && m != bp + 1 && !(sh > 5 && m == bp + 2) ==> newv[m]
                == oldv[m],
    ensures
        forall|t: int| 0 <= t < 11 ==> stream_bit(newv, 11 * index + t) == group_bit(value, t),
        forall|j: int|
            0 <= j < 8 * newv.len() && !(11 * index <= j < 11 * index + 11) ==> stream_bit(newv, j)
                == stream_bit(oldv, j),
{
    assert forall|t: int| 0 <= t < 11 implies stream_bit(newv, 11 * index + t) == group_bit(
        value,
        t,
    ) by {
        let p = 11 * index + t;
        assert(p == 8 * bp + sh + t);
        if sh + t < 8 {
            lemma_stream_pos(bp, sh + t);
            assert(stream_bit(newv, p) == byte_bit(newv[bp], sh + t));
        } else if sh + t < 16 {
            lemma_stream_pos(bp + 1, sh + t - 8);
            assert(p == 8 * (bp + 1) + (sh + t - 8));
            assert(stream_bit(newv, p) == byte_bit(newv[bp + 1], sh + t - 8));
        } else {
            assert(sh > 5);
            lemma_stream_pos(bp + 2, sh + t - 16);
            assert(p == 8 * (bp + 2) + (sh + t - 16));
            assert(stream_bit(newv, p) == byte_bit(newv[bp + 2], sh + t - 16));
        }
    }
    assert forall|j: int|
        0 <= j < 8 * newv.len() && !(11 * index <= j < 11 * index + 11) implies stream_bit(newv, j)
        == stream_bit(oldv, j) by {
        vstd::arithmetic::div_mod::lemma_fundamental_div_mod(j, 8);
        let i0 = j / 8;
        let k = j % 8;
        assert(0 <= k < 8 && 0 <= i0 < newv.len()) by (nonlinear_arith)
            requires
                0 <= j < 8 * newv.len() && i0 == j / 8 && k == j % 8,
        ;
        assert(j == 8 * i0 + k);
        if i0 == bp {
            assert(k < sh);
            assert(byte_bit(newv[bp], k) == byte_bit(oldv[bp], k));
        } else if i0 == bp + 1 {
            assert(k >= sh + 3);
            assert(byte_bit(newv[bp + 1], k) == byte_bit(oldv[bp + 1], k));
        } else if i0 == bp + 2 && sh > 5 {
            assert(k >= sh - 5);
            assert(byte_bit(newv[bp + 2], k) == byte_bit(oldv[bp + 2], k));
        } else {
            assert(newv[i0] == oldv[i0]);
        }
    }
}


/// Slice a byte buffer into its sequence of 11-bit groups: `ceil(8n/11)`
/// values, the `i`-th holding the eleven stream bits at offset `11*i`,
/// zero-padded past the end of the buffer.
pub fn split(bytes: &Vec<u8>) -> (r: Vec<u16>)
    requires
        8 * bytes@.len() + 16 <= usize::MAX,
    ensures
        r@.len() == group_count(bytes@.len() as int),
        forall|i: int| 0 <= i < r@.len() ==> r@[i] == group_at(bytes@, i),
{
    let n = bytes.len();
    let group_total = (8 * n + 10) / 11;
    let mut work: Vec<u8> = Vec::new();
    let mut i: usize = 0;
    while i < n
        invariant
            i <= n == bytes@.len(),
            work@ == bytes@.subrange(0, i as int),
        decreases n - i,
    {
        work.push(bytes[i]);
        proof {
            assert(work@ =~= bytes@.subrange(0, i + 1));
        }
        i += 1;
    }
    work.push(0);
    work.push(0);
    proof {
        assert(bytes@.subrange(0, n as int) =~= bytes@);
        lemma_zero_byte_bits();
        assert forall|j: int| 0 <= j < 8 * (n + 2) implies stream_bit(work@, j) == stream_bit(
            bytes@,
            j,
        ) by {
            vstd::arithmetic::div_mod::lemma_fundamental_div_mod(j, 8);
            let i0 = j / 8;
            let k0 = j % 8;
            assert(0 <= k0 < 8 && 0 <= i0 < n + 2) by (nonlinear_arith)
                requires
                    0 <= j < 8 * (n + 2) && i0 == j / 8 && k0 == j % 8,
            ;
            if i0 < n {
                assert(work@[i0] == bytes@[i0]);
            } else {
                assert(work@[i0] == 0u8);
                assert(!byte_bit(0u8, k0));
                assert(j >= 8 * n);
            }
        }
    }
    let mut groups: Vec<u16> = Vec::new();
    let mut k: usize = 0;
    while k < group_total
        invariant
            n == bytes@.len(),
            8 * n + 16 <= usize::MAX,
            group_total == group_count(n as int),
            work@.len() == n + 2,
            k <= group_total,
            groups@.len() == k,
            forall|j: int|
                0 <= j < 8 * (n + 2) ==> stream_bit(work@, j) == stream_bit(bytes@, j + 11 * k),
            forall|p: int| 0 <= p < k ==> groups@[p] == group_at(bytes@, p),
        decreases group_total - k,
    {
        let a = work[0];
        let b = work[1];
        let x: u16 = ((a as u16) << 3) | ((b as u16) >> 5);
        proof {
            assert(x < 2048) by (bit_vector)
                requires
                    x == ((a as u16) << 3) | ((b as u16) >> 5),
            ;
            assert((((x >> 10u16) & 1 == 1) == ((a >> 7u8) & 1 == 1)) && (((x >> 9u16) & 1 == 1)
                == ((a >> 6u8) & 1 == 1)) && (((x >> 8u16) & 1 == 1) == ((a >> 5u8) & 1 == 1)) && ((
            (x >> 7u16) & 1 == 1) == ((a >> 4u8) & 1 == 1)) && (((x >> 6u16) & 1 == 1) == ((a
                >> 3u8) & 1 == 1)) && (((x >> 5u16) & 1 == 1) == ((a >> 2u8) & 1 == 1)) && (((x
                >> 4u16) & 1 == 1) == ((a >> 1u8) & 1 == 1)) && (((x >> 3u16) & 1 == 1) == ((a
                >> 0u8) & 1 == 1)) && (((x >> 2u16) & 1 == 1) == ((b >> 7u8) & 1 == 1)) && (((x
                >> 1u16) & 1 == 1) == ((b >> 6u8) & 1 == 1)) && (((x >> 0u16) & 1 == 1) == ((b
                >> 5u8) & 1 == 1))) by (bit_vector)
                requires
                    x == ((a as u16) << 3) | ((b as u16) >> 5),
            ;
            assert forall|t: int| 0 <= t < 11 implies group_bit(x, t) == stream_bit(work@, t) by {
                if t < 8 {
                    lemma_stream_pos(0, t);
                    assert(stream_bit(work@, t) == byte_bit(a, t));
                } else {
                    lemma_stream_pos(1, t - 8);
                    assert(t == 8 * 1 + (t - 8));
                    assert(stream_bit(work@, t) == byte_bit(b, t - 8));
                }
                if t == 0 {
                } else if t == 1 {
                } else if t == 2 {
                } else if t == 3 {
                } else if t == 4 {
                } else if t == 5 {
                } else if t == 6 {
                } else if t == 7 {
                } else if t == 8 {
                } else if t == 9 {
                } else {
                    assert(t == 10);
                }
            }
            lemma_group_at_bits(bytes@, k as int);
            assert forall|t: int| 0 <= t < 11 implies group_bit(x, t) == group_bit(
                group_at(bytes@, k as int),
                t,
            ) by {
                assert(stream_bit(work@, t) == stream_bit(bytes@, t + 11 * k));
            }
            lemma_group_bits_unique(x, group_at(bytes@, k as int));
        }
        groups.push(x);
        shift_11(&mut work);
        proof {
            let ghost prev_k = k as int;
            assert forall|j: int| 0 <= j < 8 * (n + 2) implies stream_bit(work@, j) == stream_bit(
                bytes@,
                j + 11 * (prev_k + 1),
            ) by {
                if j + 11 < 8 * (n + 2) {
                    assert(stream_bit(work@, j) == stream_bit(bytes@, (j + 11) + 11 * prev_k));
                    assert((j + 11) + 11 * prev_k == j + 11 * (prev_k + 1));
                } else {
                    assert(!stream_bit(work@, j));
                    assert(j + 11 * (prev_k + 1) >= j + 11 >= 8 * (n + 2) >= 8 * n);
                    assert(!stream_bit(bytes@, j + 11 * (prev_k + 1)));
                }
            }
        }
        k += 1;
    }
    groups
}

/// Write a sequence of 11-bit group values back into a fresh buffer of
/// exactly `byte_len` bytes, each group at its natural bit offset; the
/// requested length must lie within the bits the groups cover.
pub fn join(symbols: &Vec<u16>, byte_len: usize) -> (r: Vec<u8>)
    requires
        forall|i: int| 0 <= i < symbols@.len() ==> #[trigger] symbols@[i] < 2048,
        11 * symbols@.len() + 7 <= usize::MAX,
        8 * byte_len <= 11 * symbols@.len(),
    ensures
        r@.len() == byte_len,
        forall|j: int|
            0 <= j < 8 * byte_len ==> stream_bit(r@, j) == group_bit(symbols@[j / 11], j % 11),
{
    let s = symbols.len();
    let bit_size = 11 * s;
    let buf_size = (bit_size + 7) / 8;
    proof {
        assert(bit_size <= 8 * buf_size && 8 * buf_size <= bit_size + 7) by (nonlinear_arith)
            requires
                bit_size >= 0 && buf_size == (bit_size + 7) / 8,
        ;
    }
    let mut buf: Vec<u8> = Vec::new();
    let mut z: usize = 0;
    while z < buf_size
        invariant
            z <= buf_size,
            buf@.len() == z,
            forall|p: int| 0 <= p < z ==> buf@[p] == 0u8,
        decreases buf_size - z,
    {
        buf.push(0);
        z += 1;
    }
    proof {
        lemma_zero_byte_bits();
        assert forall|j: int| 0 <= j < 8 * buf_size implies !stream_bit(buf@, j) by {
            vstd::arithmetic::div_mod::lemma_fundamental_div_mod(j, 8);
            assert(0 <= j % 8 < 8 && 0 <= j / 8 < buf_size) by (nonlinear_arith)
                requires
                    0 <= j < 8 * buf_size,
            ;
            assert(buf@[j / 8] == 0u8);
        }
    }
    let mut k: usize = 0;
    while k < s
        invariant
            buf@.len() == buf_size,
            11 * s <= 8 * buf_size,
            8 * buf_size <= bit_size + 7,
            bit_size == 11 * s,
            s == symbols@.len(),
            11 * s + 7 <= usize::MAX,
            k <= s,
            forall|i: int| 0 <= i < s ==> #[trigger] symbols@[i] < 2048,
            forall|j: int|
                0 <= j < 8 * buf_size ==> stream_bit(buf@, j) == (j < 11 * k && group_bit(
                    symbols@[j / 11],
                    j % 11,
                )),
        decreases s - k,
    {
        let x = symbols[k];
        let ghost before = buf@;
        write_with_shift_11(&mut buf, x, k);
        proof {
            let kk = k as int;
            assert forall|j: int| 0 <= j < 8 * buf_size implies stream_bit(buf@, j) == (j < 11 * (kk
                + 1) && group_bit(symbols@[j / 11], j % 11)) by {
                if 11 * kk <= j < 11 * kk + 11 {
                    let t = j - 11 * kk;
                    assert(stream_bit(buf@, 11 * kk + t) == group_bit(x, t));
                    assert(j / 11 == kk && j % 11 == t) by (nonlinear_arith)
                        requires
                            11 * kk <= j < 11 * kk + 11 && t == j - 11 * kk && kk >= 0,
                    ;
                } else {
                    assert(stream_bit(buf@, j) == stream_bit(before, j));
                }
            }
        }
        k += 1;
    }
    let ghost full = buf@;
    buf.truncate(byte_len);
    proof {
        assert(byte_len <= buf_size);
        assert(buf@ == full.subrange(0, byte_len as int));
        assert forall|j: int| 0 <= j < 8 * byte_len implies stream_bit(buf@, j) == group_bit(
            symbols@[j / 11],
            j % 11,
        ) by {
            lemma_stream_bit_prefix(full, byte_len as int, j);
            assert(j < 11 * s);
        }
    }
    buf
}

} // verus!
