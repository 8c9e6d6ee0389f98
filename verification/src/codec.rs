//! The encoder and decoder: bytes to dictionary words and back, with the
//! padding marker that lets the decoder recover the exact byte count.

use vstd::prelude::*;

use crate::bits::{group_bit, stream_bit, group_at, lemma_group_at_bits, lemma_bytes_eq_from_bits};
use crate::dictionary::{
    Dictionary, dict_valid, in_dict, spec_index_of, marker_seq, marker_word, word_ok,
    lemma_index_of_entry,
};
use crate::grouper::{group_count, bit_remainder, join, split};

verus! {

/// Why decoding a word-sequence failed.
#[derive(Clone, Copy, Debug, PartialEq, Eq, Structural)]
pub enum DecodeError {
    /// A data word of the sequence is not a dictionary entry.
    UnknownWord,
    /// The marker stands anywhere but immediately before the final word,
    /// or the word after it is not a designated padding word.
    MalformedPadding,
}

/// The dictionary index of the designated padding word that records the
/// bit remainder `r` (1 to 10).
pub open spec fn padding_word_index(r: int) -> int {
    r
}

/// The word-sequence that encoding `bytes` with dictionary `d` produces:
/// one word per 11-bit group and, when the bytes do not end exactly on a
/// group boundary, the marker word followed by the padding word of the
/// remainder.
pub open spec fn encode_spec(d: Seq<Seq<char>>, bytes: Seq<u8>) -> Seq<Seq<char>> {
    let s = group_count(bytes.len() as int);
    let r = bit_remainder(bytes.len() as int);
    let data = Seq::new(s as nat, |i: int| d[group_at(bytes, i) as int]);
    if r == 0 {
        data
    } else {
        data + seq![marker_seq(), d[padding_word_index(r)]]
    }
}

/// Encode a byte buffer into its word-sequence.  Encoding never fails;
/// an empty buffer yields the empty sequence.
pub fn encode(dict: &Dictionary, bytes: &Vec<u8>) -> (r: Vec<String>)
    requires
        dict.wf(),
        8 * bytes@.len() + 16 <= usize::MAX,
    ensures
        r.deep_view() == encode_spec(dict@, bytes@),
{
    let n = bytes.len();
    let remainder = (8 * n) % 11;
    let symbols = split(bytes);
    let s = symbols.len();
    let mut words: Vec<String> = Vec::new();
    let mut k: usize = 0;
    while k < s
        invariant
            dict.wf(),
            n == bytes@.len(),
            s == symbols@.len(),
            s == group_count(n as int),
            forall|i: int| 0 <= i < s ==> #[trigger] symbols@[i] == group_at(bytes@, i),
            k <= s,
            words@.len() == k,
            forall|p: int|
                0 <= p < k ==> words.deep_view()[p] == dict@[group_at(bytes@, p) as int],
        decreases s - k,
    {
        proof {
            lemma_group_at_bits(bytes@, k as int);
        }
        let w = dict.word_at(symbols[k]);
        let ghost dv_before = words.deep_view();
        words.push(w);
        proof {
            assert(words.deep_view() =~= dv_before.push(w@));
            assert forall|p: int| 0 <= p < k + 1 implies words.deep_view()[p] == dict@[group_at(
                bytes@,
                p,
            ) as int] by {
                if p == k {
                    assert(words.deep_view()[p] == w@);
                } else {
                    assert(words.deep_view()[p] == dv_before[p]);
                }
            }
        }
        k += 1;
    }
    if remainder != 0 {
        let m = marker_word();
        let ghost dv0 = words.deep_view();
        words.push(m);
        proof {
            assert(words.deep_view() =~= dv0.push(m@));
        }
        let pad = dict.word_at(remainder as u16);
        let ghost dv1 = words.deep_view();
        words.push(pad);
        proof {
            assert(words.deep_view() =~= dv1.push(pad@));
        }
    }
    proof {
        assert(words.deep_view() =~= encode_spec(dict@, bytes@));
    }
    words
}

/// Every occurrence of the marker word stands immediately before the
/// final word.
pub open spec fn marker_ok(ws: Seq<Seq<char>>) -> bool {
    forall|i: int| 0 <= i < ws.len() && #[trigger] ws[i] == marker_seq() ==> i == ws.len() - 2
}

/// The sequence carries a padding marker.
pub open spec fn has_marker(ws: Seq<Seq<char>>) -> bool {
    ws.len() >= 2 && ws[ws.len() - 2] == marker_seq()
}

/// `w` is one of the ten designated padding words of dictionary `d`.
pub open spec fn is_pad_word(d: Seq<Seq<char>>, w: Seq<char>) -> bool {
    exists|r: int| 1 <= r <= 10 && d[padding_word_index(r)] == w
}

/// The bit remainder that the padding word `w` stands for.
pub open spec fn pad_word_rem(d: Seq<Seq<char>>, w: Seq<char>) -> int {
    choose|r: int| 1 <= r <= 10 && d[padding_word_index(r)] == w
}

/// The padding information of the sequence is well-formed: the marker
/// appears nowhere but immediately before the final word, and where it
/// appears, the final word is a designated padding word.
pub open spec fn padding_ok(d: Seq<Seq<char>>, ws: Seq<Seq<char>>) -> bool {
    marker_ok(ws) && (has_marker(ws) ==> is_pad_word(d, ws[ws.len() - 1]))
}

/// The words of the sequence that carry data: everything before the
/// marker-and-padding pair, or the whole sequence when there is none.
pub open spec fn data_words(ws: Seq<Seq<char>>) -> Seq<Seq<char>> {
    if has_marker(ws) {
        ws.take(ws.len() - 2)
    } else {
        ws
    }
}

/// The bit remainder the sequence declares: the value of its padding
/// word, or zero when there is no marker.
pub open spec fn declared_rem(d: Seq<Seq<char>>, ws: Seq<Seq<char>>) -> int {
    if has_marker(ws) {
        pad_word_rem(d, ws[ws.len() - 1])
    } else {
        0
    }
}

/// The exact byte count that `s` data groups with declared bit remainder
/// `rem` decode to: with a remainder, the final group contributed only
/// `rem` source bits, so the count shrinks accordingly; without one, the
/// groups must cover whole bytes.
pub open spec fn decoded_len(s: int, rem: int) -> int {
    if rem == 0 {
        (11 * s) / 8
    } else if 11 * s >= 11 - rem {
        (11 * s - (11 - rem)) / 8
    } else {
        0
    }
}

/// The decoded buffer: bit `j` of its stream is bit `j mod 11` of the
/// group value of data word `j / 11`.
pub open spec fn decoded_bytes_ok(
    d: Seq<Seq<char>>,
    data: Seq<Seq<char>>,
    rem: int,
    b: Seq<u8>,
) -> bool {
    &&& b.len() == decoded_len(data.len() as int, rem)
    &&& forall|j: int|
        0 <= j < 8 * b.len() ==> stream_bit(b, j) == group_bit(
            spec_index_of(d, data[j / 11]) as u16,
            j % 11,
        )
}

/// What decoding a word-sequence returns: malformed padding is reported
/// first, then an unknown data word; otherwise decoding succeeds with the
/// unique buffer the data groups describe.
pub open spec fn decode_post(
    d: Seq<Seq<char>>,
    ws: Seq<Seq<char>>,
    r: Result<Vec<u8>, DecodeError>,
) -> bool {
    if !padding_ok(d, ws) {
        r == Result::<Vec<u8>, DecodeError>::Err(DecodeError::MalformedPadding)
    } else if exists|i: int|
        0 <= i < data_words(ws).len() && !in_dict(d, #[trigger] data_words(ws)[i]) {
        r == Result::<Vec<u8>, DecodeError>::Err(DecodeError::UnknownWord)
    } else {
        r is Ok && decoded_bytes_ok(d, data_words(ws), declared_rem(d, ws), r.unwrap()@)
    }
}

/// Decode a word-sequence back into the exact byte buffer it encodes.
/// The empty sequence decodes to the empty buffer.
pub fn decode(dict: &Dictionary, words: &Vec<String>) -> (r: Result<Vec<u8>, DecodeError>)
    requires
        dict.wf(),
        11 * words@.len() + 7 <= usize::MAX,
    ensures
        decode_post(dict@, words.deep_view(), r),
{
    let ghost d = dict@;
    let ghost ws = words.deep_view();
    let n = words.len();
    let marker = marker_word();
    let mut i: usize = 0;
    while i < n
        invariant
            n == words@.len(),
            marker@ == marker_seq(),
            ws == words.deep_view(),
            11 * n + 7 <= usize::MAX,
            forall|p: int| 0 <= p < i && #[trigger] ws[p] == marker_seq() ==> p == n - 2,
        decreases n - i,
    {
        if words[i] == marker {
            proof {
                assert(ws[i as int] == marker_seq());
            }
            if i + 2 != n {
                proof {
                    assert(!marker_ok(ws));
                }
                return Err(DecodeError::MalformedPadding);
            }
        }
        i += 1;
    }
    assert(marker_ok(ws));
    let has_mark = n >= 2 && words[n - 2] == marker;
    proof {
        if n >= 2 {
            assert(ws[n - 2] == words@[n - 2]@);
        }
        assert(has_mark == has_marker(ws));
    }
    let mut rem: usize = 0;
    if has_mark {
        let mut r: usize = 1;
        while r <= 10
            invariant
                dict.wf(),
                d == dict@,
                ws == words.deep_view(),
                n == words@.len(),
                n >= 2,
                1 <= r <= 11,
                rem == 0 ==> forall|q: int|
                    1 <= q < r ==> d[padding_word_index(q)] != ws[n - 1],
                rem != 0 ==> 1 <= rem <= 10 && d[padding_word_index(rem as int)] == ws[n - 1],
            decreases 11 - r,
        {
            if rem == 0 {
                let pw = dict.word_at(r as u16);
                if pw == words[n - 1] {
                    proof {
                        assert(ws[n - 1] == words@[n - 1]@);
                    }
                    rem = r;
                }
            }
            r += 1;
        }
        if rem == 0 {
            proof {
                assert(!is_pad_word(d, ws[n - 1]));
                assert(has_marker(ws));
                assert(!padding_ok(d, ws));
            }
            return Err(DecodeError::MalformedPadding);
        }
        proof {
            assert(is_pad_word(d, ws[n - 1]));
            let q = pad_word_rem(d, ws[n - 1]);
            assert(1 <= q <= 10 && d[padding_word_index(q)] == ws[n - 1]);
            if q != rem {
                assert(d[q] != d[rem as int]);
            }
            assert(declared_rem(d, ws) == rem);
        }
    }
    proof {
        assert(padding_ok(d, ws));
        if !has_mark {
            assert(declared_rem(d, ws) == 0);
        }
    }
    let s = if has_mark {
        n - 2
    } else {
        n
    };
    let ghost data = data_words(ws);
    proof {
        assert(data =~= ws.take(s as int));
    }
    let mut syms: Vec<u16> = Vec::new();
    let mut i: usize = 0;
    while i < s
        invariant
            dict.wf(),
            d == dict@,
            ws == words.deep_view(),
            n == words@.len(),
            s <= n,
            data == data_words(ws),
            data =~= ws.take(s as int),
            padding_ok(d, ws),
            i <= s,
            syms@.len() == i,
            forall|p: int|
                0 <= p < i ==> in_dict(d, #[trigger] data[p]) && syms@[p] == spec_index_of(
                    d,
                    data[p],
                ) && syms@[p] < 2048,
        decreases s - i,
    {
        proof {
            assert(ws[i as int] == words@[i as int]@);
            assert(data[i as int] == ws[i as int]);
        }
        match dict.index_of(&words[i]) {
            Some(x) => {
                syms.push(x);
            },
            None => {
                proof {
                    assert(!in_dict(d, data[i as int]));
                }
                return Err(DecodeError::UnknownWord);
            },
        }
        i += 1;
    }
    proof {
        assert(forall|p: int| 0 <= p < data.len() ==> in_dict(d, #[trigger] data[p]));
        assert forall|p: int| 0 <= p < s implies #[trigger] syms@[p] < 2048 by {
            assert(in_dict(d, data[p]));
        }
    }
    let bit_size = 11 * s;
    let byte_len: usize = if rem == 0 {
        bit_size / 8
    } else {
        let pad = 11 - rem;
        if bit_size >= pad {
            (bit_size - pad) / 8
        } else {
            0
        }
    };
    proof {
        assert(byte_len == decoded_len(s as int, rem as int));
        assert(8 * byte_len <= bit_size) by (nonlinear_arith)
            requires
                bit_size >= 0 && 0 <= rem <= 10 && byte_len == decoded_len(s as int, rem as int)
                    && bit_size == 11 * s,
        ;
    }
    let buf = join(&syms, byte_len);
    proof {
        assert forall|j: int| 0 <= j < 8 * buf@.len() implies stream_bit(buf@, j) == group_bit(
            spec_index_of(d, data[j / 11]) as u16,
            j % 11,
        ) by {
            assert(0 <= j / 11 < s && 0 <= j % 11 < 11) by (nonlinear_arith)
                requires
                    0 <= j < 11 * s,
            ;
            assert(stream_bit(buf@, j) == group_bit(syms@[j / 11], j % 11));
            assert(in_dict(d, data[j / 11]));
        }
        assert(decoded_bytes_ok(d, data, rem as int, buf@));
        assert(declared_rem(d, ws) == rem);
    }
    Ok(buf)
}

/// How the group count and the bit remainder of `n` bytes relate.
pub proof fn lemma_group_count_rem(n: int)
    requires
        n >= 0,
    ensures
        0 <= bit_remainder(n) <= 10,
        bit_remainder(n) == 0 ==> 11 * group_count(n) == 8 * n,
        bit_remainder(n) != 0 ==> 11 * group_count(n) == 8 * n + 11 - bit_remainder(n),
        8 * n <= 11 * group_count(n),
        group_count(n) >= 0,
{
    let q = (8 * n) / 11;
    let r = (8 * n) % 11;
    vstd::arithmetic::div_mod::lemma_fundamental_div_mod(8 * n, 11);
    assert(0 <= r < 11 && q >= 0) by (nonlinear_arith)
        requires
            n >= 0 && q == (8 * n) / 11 && r == (8 * n) % 11,
    ;
    assert(8 * n == 11 * q + r);
    if r == 0 {
        assert((11 * q + 10) / 11 == q) by (nonlinear_arith)
            requires
                q >= 0,
        ;
        assert(8 * n + 10 == 11 * q + 10);
    } else {
        assert((11 * q + r + 10) / 11 == q + 1) by (nonlinear_arith)
            requires
                q >= 0 && 1 <= r <= 10,
        ;
        assert(8 * n + 10 == 11 * q + r + 10);
    }
}

/// Round trip: decoding any word-sequence that encoding produced succeeds
/// and returns exactly the original bytes, for byte buffers of any length.
pub proof fn lemma_round_trip(d: Seq<Seq<char>>, bytes: Seq<u8>, r: Result<Vec<u8>, DecodeError>)
    requires
        dict_valid(d),
        decode_post(d, encode_spec(d, bytes), r),
    ensures
        r is Ok,
        r.unwrap()@ == bytes,
{
    let n = bytes.len() as int;
    let s = group_count(n);
    let rem = bit_remainder(n);
    let ws = encode_spec(d, bytes);
    let data = Seq::new(s as nat, |i: int| d[group_at(bytes, i) as int]);
    lemma_group_count_rem(n);
    assert forall|i: int| 0 <= i < s implies #[trigger] ws[i] != marker_seq() by {
        lemma_group_at_bits(bytes, i);
        assert(ws[i] == d[group_at(bytes, i) as int]);
        assert(word_ok(d[group_at(bytes, i) as int]));
    }
    if rem == 0 {
        assert(ws.len() == s);
        assert(marker_ok(ws));
        if ws.len() >= 2 {
            assert(ws[ws.len() - 2] != marker_seq());
        }
        assert(!has_marker(ws));
        assert(declared_rem(d, ws) == 0);
    } else {
        assert(ws.len() == s + 2);
        assert(ws[s] == marker_seq());
        assert(1 <= rem <= 10);
        assert(ws[s + 1] == d[padding_word_index(rem)]);
        assert(word_ok(d[padding_word_index(rem)]));
        assert(ws[s + 1] != marker_seq());
        assert forall|i: int|
            0 <= i < ws.len() && #[trigger] ws[i] == marker_seq() implies i == ws.len() - 2 by {
            if i < s {
                assert(ws[i] != marker_seq());
            } else if i == s + 1 {
                assert(ws[i] != marker_seq());
            }
        }
        assert(marker_ok(ws));
        assert(has_marker(ws));
        assert(is_pad_word(d, ws[ws.len() - 1]));
        let q = pad_word_rem(d, ws[ws.len() - 1]);
        assert(1 <= q <= 10 && d[padding_word_index(q)] == ws[s + 1]);
        if q != rem {
            assert(d[q] != d[rem]);
        }
        assert(declared_rem(d, ws) == rem);
    }
    assert(padding_ok(d, ws));
    assert(data_words(ws) =~= data);
    assert forall|i: int| 0 <= i < data.len() implies in_dict(d, #[trigger] data[i])
        && spec_index_of(d, data[i]) == group_at(bytes, i) by {
        lemma_group_at_bits(bytes, i);
        lemma_index_of_entry(d, group_at(bytes, i) as int);
    }
    assert(!(exists|i: int|
        0 <= i < data_words(ws).len() && !in_dict(d, #[trigger] data_words(ws)[i])));
    assert(r is Ok);
    let b = r.unwrap()@;
    assert(decoded_bytes_ok(d, data_words(ws), declared_rem(d, ws), b));
    if rem == 0 {
        assert(11 * s == 8 * n);
        assert((11 * s) / 8 == n) by (nonlinear_arith)
            requires
                11 * s == 8 * n && n >= 0,
        ;
    } else {
        assert(11 * s == 8 * n + 11 - rem);
        assert(11 * s >= 11 - rem);
        assert((11 * s - (11 - rem)) / 8 == n) by (nonlinear_arith)
            requires
                11 * s - (11 - rem) == 8 * n && n >= 0,
        ;
    }
    assert(b.len() == n);
    assert forall|j: int| 0 <= j < 8 * b.len() implies stream_bit(b, j) == stream_bit(bytes, j) by {
        vstd::arithmetic::div_mod::lemma_fundamental_div_mod(j, 11);
        let i = j / 11;
        let t = j % 11;
        assert(0 <= t < 11 && 0 <= i) by (nonlinear_arith)
            requires
                0 <= j && i == j / 11 && t == j % 11,
        ;
        assert(j == 11 * i + t);
        assert(i < s) by (nonlinear_arith)
            requires
                0 <= j < 11 * s && j == 11 * i + t && 0 <= t < 11,
        ;
        assert(stream_bit(b, j) == group_bit(spec_index_of(d, data_words(ws)[i]) as u16, t));
        assert(data_words(ws)[i] == data[i]);
        assert(spec_index_of(d, data[i]) == group_at(bytes, i));
        lemma_group_at_bits(bytes, i);
        assert(group_bit(group_at(bytes, i), t) == stream_bit(bytes, 11 * i + t));
    }
    lemma_bytes_eq_from_bits(b, bytes);
}

/// Symbol bound: every data word that encoding produces is a dictionary
/// entry, and it maps back to its group value, which lies in `[0, 2047]`.
pub proof fn lemma_symbol_bound(d: Seq<Seq<char>>, bytes: Seq<u8>, i: int)
    requires
        dict_valid(d),
        0 <= i < group_count(bytes.len() as int),
    ensures
        in_dict(d, encode_spec(d, bytes)[i]),
        spec_index_of(d, encode_spec(d, bytes)[i]) == group_at(bytes, i),
        0 <= spec_index_of(d, encode_spec(d, bytes)[i]) < 2048,
{
    lemma_group_at_bits(bytes, i);
    assert(encode_spec(d, bytes)[i] == d[group_at(bytes, i) as int]);
    lemma_index_of_entry(d, group_at(bytes, i) as int);
}

/// Exact fit: when the bytes end exactly on a group boundary, encoding
/// emits no marker word: the sequence consists of the data words alone,
/// and none of them is the marker.
pub proof fn lemma_exact_fit(d: Seq<Seq<char>>, bytes: Seq<u8>)
    requires
        dict_valid(d),
        bit_remainder(bytes.len() as int) == 0,
    ensures
        encode_spec(d, bytes).len() == group_count(bytes.len() as int),
        forall|i: int|
            0 <= i < encode_spec(d, bytes).len() ==> #[trigger] encode_spec(d, bytes)[i]
                != marker_seq(),
{
    let ws = encode_spec(d, bytes);
    assert forall|i: int| 0 <= i < ws.len() implies #[trigger] ws[i] != marker_seq() by {
        lemma_group_at_bits(bytes, i);
        assert(ws[i] == d[group_at(bytes, i) as int]);
        assert(word_ok(d[group_at(bytes, i) as int]));
    }
}

} // verus!
