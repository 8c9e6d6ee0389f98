//! The word table: a validated bijection between the indices `0..2047`
//! and 2048 distinct words, plus the reserved marker word.

use vstd::prelude::*;

use vstd::string::StrSliceExecFns;

verus! {

/// The reserved marker word that announces a padding descriptor.  It is
/// never a dictionary entry, so it can be recognized unambiguously in a
/// word-sequence.
pub open spec fn marker_seq() -> Seq<char> {
    "of"@
}

/// A word acceptable as a dictionary entry: non-empty, free of the
/// separator dash, and distinct from the marker.
pub open spec fn word_ok(w: Seq<char>) -> bool {
    &&& w.len() > 0
    &&& (forall|k: int| 0 <= k < w.len() ==> w[k] != '-')
    &&& w != marker_seq()
}

/// A valid dictionary: exactly 2048 pairwise distinct acceptable words.
pub open spec fn dict_valid(ws: Seq<Seq<char>>) -> bool {
    &&& ws.len() == 2048
    &&& (forall|i: int, j: int| 0 <= i < j < ws.len() ==> ws[i] != ws[j])
    &&& (forall|i: int| 0 <= i < ws.len() ==> word_ok(#[trigger] ws[i]))
}

/// `w` is an entry of the dictionary `d`.
pub open spec fn in_dict(d: Seq<Seq<char>>, w: Seq<char>) -> bool {
    exists|i: int| 0 <= i < d.len() && d[i] == w
}

/// The index of the entry `w` in the dictionary `d`.
pub open spec fn spec_index_of(d: Seq<Seq<char>>, w: Seq<char>) -> int {
    choose|i: int| 0 <= i < d.len() && d[i] == w
}

/// In a valid dictionary, looking up the word at index `i` finds exactly
/// the index `i` again.
pub proof fn lemma_index_of_entry(d: Seq<Seq<char>>, i: int)
    requires
        dict_valid(d),
        0 <= i < d.len(),
    ensures
        in_dict(d, d[i]),
        spec_index_of(d, d[i]) == i,
{
    assert(0 <= i < d.len() && d[i] == d[i]);
    let j = spec_index_of(d, d[i]);
    assert(0 <= j < d.len() && d[j] == d[i]);
    if j < i {
        assert(d[j] != d[i]);
    } else if i < j {
        assert(d[i] != d[j]);
    }
}

/// The marker word as an owned string.
pub fn marker_word() -> (m: String)
    ensures
        m@ == marker_seq(),
{
    "of".to_owned()
}

/// The fixed table mapping each index in `[0, 2047]` to its word.  It is
/// injected into the codec after validation, so encode and decode can rely
/// on it being a bijection.
pub struct Dictionary {
    words: Vec<String>,
}

impl View for Dictionary {
    type V = Seq<Seq<char>>;

    closed spec fn view(&self) -> Seq<Seq<char>> {
        self.words.deep_view()
    }
}

impl Dictionary {
    /// The table is a valid dictionary.
    pub open spec fn wf(&self) -> bool {
        dict_valid(self@)
    }

    /// Validate a word table and take ownership of it; rejects a table
    /// that is not a valid dictionary.
    pub fn new(words: Vec<String>) -> (r: Option<Dictionary>)
        ensures
            r is Some <==> dict_valid(words.deep_view()),
            r is Some ==> r.unwrap()@ == words.deep_view() && r.unwrap().wf(),
    {
        let n = words.len();
        if n != 2048 {
            return None;
        }
        let marker = marker_word();
        let mut i: usize = 0;
        while i < n
            invariant
                n == 2048,
                n == words.len(),
                marker@ == marker_seq(),
                forall|p: int| 0 <= p < i ==> word_ok(#[trigger] words.deep_view()[p]),
            decreases n - i,
        {
            let w = &words[i];
            assert(words.deep_view()[i as int] == w@);
            if w.as_str().is_empty() {
                assert(!word_ok(words.deep_view()[i as int]));
                return None;
            }
            if *w == marker {
                assert(!word_ok(words.deep_view()[i as int]));
                return None;
            }
            let wn = w.as_str().unicode_len();
            let mut k: usize = 0;
            while k < wn
                invariant
                    wn == w@.len(),
                    w == &words[i as int],
                    i < n == words.len(),
                    forall|q: int| 0 <= q < k ==> w@[q] != '-',
                decreases wn - k,
            {
                if w.as_str().get_char(k) == '-' {
                    assert(words.deep_view()[i as int][k as int] == '-');
                    assert(!word_ok(words.deep_view()[i as int]));
                    return None;
                }
                k += 1;
            }
            assert(word_ok(words.deep_view()[i as int]));
            i += 1;
        }
        let mut i: usize = 0;
        while i < n
            invariant
                n == 2048,
                n == words.len(),
                forall|p: int| 0 <= p < n ==> word_ok(#[trigger] words.deep_view()[p]),
                forall|p: int, q: int|
                    0 <= p < q < n && p < i ==> words.deep_view()[p] != words.deep_view()[q],
            decreases n - i,
        {
            let mut j: usize = i + 1;
            while j < n
                invariant
                    i < j <= n,
                    n == 2048,
                    n == words.len(),
                    forall|q: int| i < q < j ==> words.deep_view()[i as int] != words.deep_view()[q],
                decreases n - j,
            {
                if words[i] == words[j] {
                    assert(words.deep_view()[i as int] == words.deep_view()[j as int]);
                    return None;
                }
                j += 1;
            }
            i += 1;
        }
        Some(Dictionary { words })
    }

    /// The word at `index`, as an owned string.
    pub fn word_at(&self, index: u16) -> (w: String)
        requires
            self.wf(),
            index < 2048,
        ensures
            w@ == self@[index as int],
    {
        let w = self.words[index as usize].clone();
        assert(w@ == self@[index as int]);
        w
    }

    /// The index of `word` in the table, if `word` is an entry.
    pub fn index_of(&self, word: &String) -> (r: Option<u16>)
        requires
            self.wf(),
        ensures
            r is Some <==> in_dict(self@, word@),
            r is Some ==> r.unwrap() < 2048 && self@[r.unwrap() as int] == word@
                && spec_index_of(self@, word@) == r.unwrap(),
    {
        let n = self.words.len();
        let mut i: usize = 0;
        while i < n
            invariant
                self.wf(),
                n == 2048,
                n == self.words.len(),
                forall|p: int| 0 <= p < i ==> self@[p] != word@,
            decreases n - i,
        {
            if self.words[i] == *word {
                proof {
                    assert(self@[i as int] == word@);
                    lemma_index_of_entry(self@, i as int);
                }
                return Some(i as u16);
            }
            i += 1;
        }
        None
    }
}

} // verus!
