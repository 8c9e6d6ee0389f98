//! The wire form: a word-sequence as one dash-joined line of text, and
//! the trimming of a trailing line break before decoding.

use vstd::prelude::*;

use vstd::string::{StrSliceExecFns, StringExecFns};

use crate::codec::{
    DecodeError, decode, decode_post, encode, encode_spec, lemma_round_trip, padding_word_index,
};
use crate::bits::{group_at, lemma_group_at_bits};
use crate::grouper::{bit_remainder, group_count};
use crate::dictionary::{Dictionary, dict_valid, marker_seq, word_ok};

verus! {

/// The dash-joined form of a word-sequence: the words in order, one dash
/// between neighbours, no leading or trailing dash.
pub open spec fn joined(ws: Seq<Seq<char>>) -> Seq<char>
    decreases ws.len(),
{
    if ws.len() == 0 {
        Seq::empty()
    } else if ws.len() == 1 {
        ws[0]
    } else {
        joined(ws.drop_last()) + seq!['-'] + ws.last()
    }
}

/// Splitting a line on dashes, scanning from position `cur`, with the
/// current word reaching back to position `start`.
pub open spec fn split_from(s: Seq<char>, start: int, cur: int) -> Seq<Seq<char>>
    decreases s.len() - cur,
{
    if cur >= s.len() {
        seq![s.subrange(start, s.len() as int)]
    } else if s[cur] == '-' {
        seq![s.subrange(start, cur)] + split_from(s, cur + 1, cur + 1)
    } else {
        split_from(s, start, cur + 1)
    }
}

/// The words of a line: splitting on every dash, except that the empty
/// line carries no words at all.
pub open spec fn words_of(s: Seq<char>) -> Seq<Seq<char>> {
    if s.len() == 0 {
        Seq::empty()
    } else {
        split_from(s, 0, 0)
    }
}

/// Join a word-sequence into one dash-separated line.
pub fn join_words(words: &Vec<String>) -> (r: String)
    ensures
        r@ == joined(words.deep_view()),
{
    let n = words.len();
    let mut out = String::new();
    if n == 0 {
        proof {
            assert(out@ =~= joined(words.deep_view()));
        }
        return out;
    }
    out.append(words[0].as_str());
    proof {
        assert(words.deep_view().take(1)[0] == words.deep_view()[0]);
        assert(out@ =~= joined(words.deep_view().take(1)));
    }
    let mut i: usize = 1;
    while i < n
        invariant
            n == words@.len(),
            1 <= i <= n,
            out@ == joined(words.deep_view().take(i as int)),
        decreases n - i,
    {
        out.append("-");
        out.append(words[i].as_str());
        proof {
            reveal_strlit("-");
            let dv = words.deep_view();
            assert(dv.take(i + 1).drop_last() =~= dv.take(i as int));
            assert(dv.take(i + 1).last() == dv[i as int]);
            assert(dv[i as int] == words@[i as int]@);
            assert(out@ =~= joined(dv.take(i + 1)));
        }
        i += 1;
    }
    proof {
        assert(words.deep_view().take(n as int) =~= words.deep_view());
    }
    out
}

/// Split a line into its words: one split at every dash, and no words at
/// all for the empty line.
pub fn split_words(line: &str) -> (r: Vec<String>)
    ensures
        r.deep_view() == words_of(line@),
        r@.len() <= line@.len() + 1,
{
    let mut words: Vec<String> = Vec::new();
    let n = line.unicode_len();
    if n == 0 {
        proof {
            assert(words.deep_view() =~= words_of(line@));
        }
        return words;
    }
    let mut start: usize = 0;
    let mut cur: usize = 0;
    while cur < n
        invariant
            n == line@.len(),
            n >= 1,
            start <= cur <= n,
            words@.len() <= start,
            split_from(line@, 0, 0) == words.deep_view() + split_from(
                line@,
                start as int,
                cur as int,
            ),
            forall|q: int| start <= q < cur ==> line@[q] != '-',
        decreases n - cur,
    {
        let c = line.get_char(cur);
        if c == '-' {
            let w = line.substring_char(start, cur).to_owned();
            let ghost dv = words.deep_view();
            words.push(w);
            proof {
                assert(words.deep_view() =~= dv.push(w@));
                assert(split_from(line@, start as int, cur as int) == seq![
                    line@.subrange(start as int, cur as int),
                ] + split_from(line@, cur as int + 1, cur as int + 1));
                assert(split_from(line@, 0, 0) =~= words.deep_view() + split_from(
                    line@,
                    cur as int + 1,
                    cur as int + 1,
                ));
            }
            start = cur + 1;
        }
        cur += 1;
    }
    let w = line.substring_char(start, n).to_owned();
    let ghost dv = words.deep_view();
    words.push(w);
    proof {
        assert(words.deep_view() =~= dv.push(w@));
        assert(split_from(line@, start as int, n as int) == seq![
            line@.subrange(start as int, n as int),
        ]);
        assert(words.deep_view() =~= words_of(line@));
    }
    words
}

/// Remove one trailing line break from `s`: a final `"\r\n"` or a final
/// `"\n"`; any other string is left unchanged.
pub open spec fn trimmed(s: Seq<char>) -> Seq<char> {
    if s.len() >= 2 && s[s.len() - 1] == '\n' && s[s.len() - 2] == '\r' {
        s.take(s.len() - 2)
    } else if s.len() >= 1 && s[s.len() - 1] == '\n' {
        s.take(s.len() - 1)
    } else {
        s
    }
}

/// Trim one trailing line break before decoding; the separator itself is
/// never trimmed.
pub fn trim_newline(s: &mut String)
    ensures
        final(s)@ == trimmed(old(s)@),
{
    let n = s.as_str().unicode_len();
    if n >= 1 && s.as_str().get_char(n - 1) == '\n' {
        if n >= 2 && s.as_str().get_char(n - 2) == '\r' {
            let t = s.as_str().substring_char(0, n - 2).to_owned();
            proof {
                assert(t@ =~= trimmed(s@));
            }
            *s = t;
        } else {
            let t = s.as_str().substring_char(0, n - 1).to_owned();
            proof {
                assert(t@ =~= trimmed(s@));
            }
            *s = t;
        }
    }
}

/// Encode a byte buffer into its dash-joined wire line.  The empty buffer
/// yields the empty line.
pub fn encode_to_string(dict: &Dictionary, bytes: &Vec<u8>) -> (r: String)
    requires
        dict.wf(),
        8 * bytes@.len() + 16 <= usize::MAX,
    ensures
        r@ == joined(encode_spec(dict@, bytes@)),
{
    let words = encode(dict, bytes);
    join_words(&words)
}

/// Decode one dash-joined wire line back into bytes.  The empty line
/// decodes to the empty buffer.
pub fn decode_str(dict: &Dictionary, line: &str) -> (r: Result<Vec<u8>, DecodeError>)
    requires
        dict.wf(),
        11 * line@.len() + 18 <= usize::MAX,
    ensures
        decode_post(dict@, words_of(line@), r),
{
    let words = split_words(line);
    decode(dict, &words)
}

/// A word without the separator dash.
pub open spec fn dash_free(w: Seq<char>) -> bool {
    forall|k: int| 0 <= k < w.len() ==> w[k] != '-'
}

/// Scanning over a dash-free stretch does not change the split.
proof fn lemma_split_skip(s: Seq<char>, st: int, c1: int, c2: int)
    requires
        0 <= st <= c1 <= c2 <= s.len(),
        forall|q: int| c1 <= q < c2 ==> s[q] != '-',
    ensures
        split_from(s, st, c1) == split_from(s, st, c2),
    decreases c2 - c1,
{
    if c1 < c2 {
        lemma_split_skip(s, st, c1 + 1, c2);
    }
}

/// Splitting is invariant under dropping an already-scanned prefix.
proof fn lemma_split_shift(s: Seq<char>, dd: int, st: int, cur: int)
    requires
        0 <= dd <= s.len(),
        0 <= st <= cur <= s.len() - dd,
    ensures
        split_from(s, st + dd, cur + dd) == split_from(s.skip(dd), st, cur),
    decreases s.len() - cur,
{
    let tail = s.skip(dd);
    if cur >= tail.len() {
        assert(s.subrange(st + dd, s.len() as int) =~= tail.subrange(st, tail.len() as int));
        assert(split_from(s, st + dd, cur + dd) =~= split_from(tail, st, cur));
    } else if s[cur + dd] == '-' {
        assert(tail[cur] == '-');
        lemma_split_shift(s, dd, cur + 1, cur + 1);
        assert(s.subrange(st + dd, cur + dd) =~= tail.subrange(st, cur));
        assert(split_from(s, st + dd, cur + dd) =~= split_from(tail, st, cur));
    } else {
        assert(tail[cur] != '-');
        lemma_split_shift(s, dd, st, cur + 1);
    }
}

/// A word-sequence of two or more words joins as its first word, a dash,
/// and the joined rest.
proof fn lemma_joined_front(ws: Seq<Seq<char>>)
    requires
        ws.len() >= 2,
    ensures
        joined(ws) == ws[0] + seq!['-'] + joined(ws.skip(1)),
    decreases ws.len(),
{
    if ws.len() == 2 {
        assert(ws.drop_last() =~= seq![ws[0]]);
        assert(ws.skip(1) =~= seq![ws[1]]);
        assert(joined(seq![ws[0]]) == ws[0]);
        assert(joined(seq![ws[1]]) == ws[1]);
        assert(joined(ws) =~= ws[0] + seq!['-'] + joined(ws.skip(1)));
    } else {
        let dl = ws.drop_last();
        lemma_joined_front(dl);
        assert(ws.skip(1).drop_last() =~= dl.skip(1));
        assert(ws.skip(1).last() == ws.last());
        assert(joined(ws.skip(1)) == joined(dl.skip(1)) + seq!['-'] + ws.last());
        assert(dl[0] == ws[0]);
        assert(joined(ws) =~= ws[0] + seq!['-'] + joined(ws.skip(1)));
    }
}

/// Splitting the joined form of a non-empty sequence of dash-free words
/// gives back exactly those words.
proof fn lemma_split_joined_rec(ws: Seq<Seq<char>>)
    requires
        ws.len() >= 1,
        forall|i: int| 0 <= i < ws.len() ==> dash_free(#[trigger] ws[i]),
    ensures
        split_from(joined(ws), 0, 0) == ws,
    decreases ws.len(),
{
    let s = joined(ws);
    if ws.len() == 1 {
        assert(s == ws[0]);
        lemma_split_skip(s, 0, 0, s.len() as int);
        assert(s.subrange(0, s.len() as int) =~= s);
        assert(split_from(s, 0, 0) =~= ws);
    } else {
        lemma_joined_front(ws);
        let w0 = ws[0];
        let m = w0.len() as int;
        assert forall|q: int| 0 <= q < m implies s[q] != '-' by {
            assert(s[q] == w0[q]);
        }
        lemma_split_skip(s, 0, 0, m);
        assert(s[m] == '-');
        assert(split_from(s, 0, m) == seq![s.subrange(0, m)] + split_from(s, m + 1, m + 1));
        assert(s.subrange(0, m) =~= w0);
        lemma_split_shift(s, m + 1, 0, 0);
        assert(s.skip(m + 1) =~= joined(ws.skip(1)));
        lemma_split_joined_rec(ws.skip(1));
        assert(split_from(s, 0, 0) =~= ws);
    }
}

/// The wire line of an encoding splits back into exactly the encoded
/// word-sequence: the dictionary words and the marker hold no dash, and
/// an encoding is never a single empty word.
pub proof fn lemma_words_of_joined_encode(d: Seq<Seq<char>>, bytes: Seq<u8>)
    requires
        dict_valid(d),
    ensures
        words_of(joined(encode_spec(d, bytes))) == encode_spec(d, bytes),
{
    let ws = encode_spec(d, bytes);
    let n = bytes.len() as int;
    let s = group_count(n);
    let rem = bit_remainder(n);
    crate::codec::lemma_group_count_rem(n);
    if ws.len() == 0 {
        assert(joined(ws).len() == 0);
        assert(words_of(joined(ws)) =~= ws);
    } else {
        assert forall|i: int| 0 <= i < ws.len() implies dash_free(#[trigger] ws[i]) && ws[i].len()
            > 0 by {
            if i < s {
                lemma_group_at_bits(bytes, i);
                assert(ws[i] == d[group_at(bytes, i) as int]);
                assert(word_ok(d[group_at(bytes, i) as int]));
            } else if i == s {
                assert(ws[i] == marker_seq());
                reveal_strlit("of");
                assert(marker_seq().len() == 2);
                assert(marker_seq()[0] == 'o' && marker_seq()[1] == 'f');
            } else {
                assert(ws[i] == d[padding_word_index(rem)]);
                assert(word_ok(d[padding_word_index(rem)]));
            }
        }
        if ws.len() == 1 {
            assert(joined(ws) == ws[0]);
            assert(joined(ws).len() > 0);
        } else {
            lemma_joined_front(ws);
            assert(joined(ws).len() > 0);
        }
        lemma_split_joined_rec(ws);
        assert(words_of(joined(ws)) == split_from(joined(ws), 0, 0));
    }
}

/// Round trip at the wire level: whatever decoding returns on the encoded
/// line of a byte buffer, it is success with exactly those bytes.
pub proof fn lemma_round_trip_line(
    d: Seq<Seq<char>>,
    bytes: Seq<u8>,
    r: Result<Vec<u8>, DecodeError>,
)
    requires
        dict_valid(d),
        decode_post(d, words_of(joined(encode_spec(d, bytes))), r),
    ensures
        r is Ok,
        r.unwrap()@ == bytes,
{
    lemma_words_of_joined_encode(d, bytes);
    lemma_round_trip(d, bytes, r);
}

} // verus!
