//! The dictionary index over letters: translates between ASCII letters and
//! trie letter indices, and forwards pattern queries to the trie.
//!
//! Words are inserted case-insensitively; queries report them in upper case.

use vstd::prelude::*;

use crate::trie::{ALPHABET_SIZE, Trie, pattern_matches};
use rand::rngs::StdRng;
use vstd::string::StrSliceExecFns;

verus! {

/// Relies on `String::push`: it appends the character to the string.
pub assume_specification[ String::push ](s: &mut String, c: char)
    ensures
        final(s)@ == old(s)@.push(c),
;

/// An ASCII letter of either case.
pub open spec fn is_ascii_letter(c: char) -> bool {
    65 <= c as int <= 90 || 97 <= c as int <= 122
}

/// An uppercase ASCII letter.
pub open spec fn is_uppercase_letter(c: char) -> bool {
    65 <= c as int <= 90
}

/// The alphabet index of a letter, folding case; out-of-alphabet characters
/// map to the unused index [`ALPHABET_SIZE`], which no stored word carries.
pub open spec fn char_index(c: char) -> usize {
    if 65 <= c as int <= 90 {
        (c as int - 65) as usize
    } else if 97 <= c as int <= 122 {
        (c as int - 97) as usize
    } else {
        ALPHABET_SIZE
    }
}

/// The uppercase letter written for an alphabet index.
pub open spec fn index_char(i: int) -> char {
    ((i + 65) as u8) as char
}

/// A letter word as the trie stores it: one index per letter.
pub open spec fn word_indices(w: Seq<char>) -> Seq<usize> {
    w.map_values(|c: char| char_index(c))
}

/// An index word written out in uppercase letters.
pub open spec fn indices_word(w: Seq<usize>) -> Seq<char> {
    w.map_values(|i: usize| index_char(i as int))
}

/// A letter pattern as the trie queries it: fixed letters become fixed
/// indices, wildcards stay wildcards.
pub open spec fn pattern_indices(p: Seq<Option<char>>) -> Seq<Option<usize>> {
    p.map_values(
        |o: Option<char>| match o {
            Some(c) => Some(char_index(c)),
            None => None,
        },
    )
}

/// Writing an index word in letters and reading it back as indices returns
/// the same word.
pub proof fn lemma_indices_roundtrip(v: Seq<usize>)
    requires
        forall|i: int| 0 <= i < v.len() ==> v[i] < ALPHABET_SIZE,
    ensures
        word_indices(indices_word(v)) == v,
        forall|i: int| 0 <= i < v.len() ==> is_uppercase_letter(#[trigger] indices_word(v)[i]),
{
    assert forall|i: int| 0 <= i < v.len() implies word_indices(indices_word(v))[i] == v[i]
        && is_uppercase_letter(indices_word(v)[i]) by {
        let c = index_char(v[i] as int);
        assert(c as int == v[i] + 65);
    }
    assert(word_indices(indices_word(v)) =~= v);
}

/// Maps an alphabet index to its uppercase letter.
pub fn int_to_char(i: usize) -> (c: char)
    requires
        i < ALPHABET_SIZE,
    ensures
        c == index_char(i as int),
{
    (i as u8 + 65) as char
}

/// Maps a letter of either case to its alphabet index.
pub fn char_to_int(c: char) -> (r: usize)
    requires
        is_ascii_letter(c),
    ensures
        r == char_index(c),
        r < ALPHABET_SIZE,
{
    let u = c as u32;
    if u >= 97 {
        (u - 97) as usize
    } else {
        (u - 65) as usize
    }
}

/// True when every character of the string is an uppercase ASCII letter.
pub fn is_uppercase_str(input: &str) -> (r: bool)
    ensures
        r <==> forall|i: int| 0 <= i < input@.len() ==> is_uppercase_letter(#[trigger] input@[i]),
{
    let n = input.unicode_len();
    let mut i: usize = 0;
    while i < n
        invariant
            n == input@.len(),
            i <= n,
            forall|k: int| 0 <= k < i ==> is_uppercase_letter(#[trigger] input@[k]),
        decreases n - i,
    {
        let c = input.get_char(i);
        let u = c as u32;
        if u < 65 || u > 90 {
            return false;
        }
        i += 1;
    }
    true
}

/// The word index: a trie over letter indices, plus a tally of how many
/// inserts were made per word length (duplicates counted).
pub struct Matcher {
    /// The prefix tree holding the dictionary.
    pub trie: Trie,
    /// Entry `l` counts the insert calls whose word had length `l`.
    pub word_count_by_length: Vec<usize>,
}

impl Matcher {
    /// The index is usable: its trie branches over the whole alphabet.
    pub open spec fn wf(self) -> bool {
        self.trie.wf()
    }

    /// Whether the dictionary holds this word, folding case.
    pub open spec fn has_word(self, w: Seq<char>) -> bool {
        self.trie.contains_word(word_indices(w))
    }

    /// The uppercase words of the dictionary that fit the letter pattern,
    /// in deterministic enumeration order.
    pub open spec fn found_strings(self, p: Seq<Option<char>>) -> Seq<Seq<char>> {
        self.trie.found_words(pattern_indices(p)).map_values(|w: Seq<usize>| indices_word(w))
    }

    /// How many insert calls were made with a word of length `l`.
    pub open spec fn spec_count_for(self, l: int) -> usize {
        if 0 <= l < self.word_count_by_length@.len() {
            self.word_count_by_length@[l]
        } else {
            0
        }
    }

    /// An empty dictionary.
    pub fn new() -> (m: Matcher)
        ensures
            m.wf(),
            m.trie.size() == 0,
            forall|w: Seq<usize>| !m.trie.contains_word(w),
            forall|l: int| m.spec_count_for(l) == 0,
    {
        Matcher { trie: Trie::new(), word_count_by_length: Vec::new() }
    }

    /// Adds a word of ASCII letters to the dictionary, folding it to upper
    /// case, and tallies its length.  Inserting a stored word again changes
    /// no query answer; only the tally moves.
    pub fn insert(&mut self, word: &str)
        requires
            old(self).wf(),
            forall|i: int| 0 <= i < word@.len() ==> is_ascii_letter(#[trigger] word@[i]),
            word@.len() < usize::MAX,
            old(self).trie.size() < usize::MAX,
            old(self).spec_count_for(word@.len() as int) < usize::MAX,
        ensures
            final(self).wf(),
            forall|w: Seq<usize>|
                final(self).trie.contains_word(w) <==> (old(self).trie.contains_word(w) || w
                    == word_indices(word@)),
            old(self).trie.contains_word(word_indices(word@)) ==> final(self).trie.equivalent(
                old(self).trie,
            ),
            final(self).trie.size() <= old(self).trie.size() + 1,
            forall|l: int|
                final(self).spec_count_for(l) == old(self).spec_count_for(l) + (if l == word@.len()
                    as int {
                    1int
                } else {
                    0int
                }),
    {
        let ghost orig_counts = *old(self);
        let n = word.unicode_len();
        let mut idx: Vec<usize> = Vec::new();
        let mut i: usize = 0;
        while i < n
            invariant
                n == word@.len(),
                i <= n,
                idx@.len() == i,
                forall|k: int| 0 <= k < word@.len() ==> is_ascii_letter(#[trigger] word@[k]),
                forall|k: int| 0 <= k < i ==> idx@[k] == char_index(word@[k]),
                forall|k: int| 0 <= k < i ==> idx@[k] < ALPHABET_SIZE,
            decreases n - i,
        {
            let c = word.get_char(i);
            idx.push(char_to_int(c));
            i += 1;
        }
        proof {
            assert(idx@ =~= word_indices(word@));
        }
        self.trie.insert(idx.as_slice());
        let l = idx.len();
        if l >= self.word_count_by_length.len() {
            self.word_count_by_length.resize(l + 1, 0);
        }
        let ghost padded = self.word_count_by_length@;
        let slot = &mut self.word_count_by_length[l];
        *slot = *slot + 1;
        proof {
            assert(self.word_count_by_length@ =~= padded.update(l as int, (padded[l as int]
                + 1) as usize));
        }
    }

    /// How many insert calls were made with a word of this length.
    pub fn word_count_by_length(&self, len: usize) -> (r: usize)
        ensures
            r == self.spec_count_for(len as int),
    {
        if len >= self.word_count_by_length.len() {
            0
        } else {
            self.word_count_by_length[len]
        }
    }
}

/// Builds the trie's query pattern for a letter pattern.
fn pattern_to_indices(word: &[Option<char>]) -> (r: Vec<Option<usize>>)
    requires
        forall|k: int|
            0 <= k < word@.len() ==> match #[trigger] word@[k] {
                Some(c) => is_ascii_letter(c),
                None => true,
            },
    ensures
        r@ == pattern_indices(word@),
        forall|k: int|
            0 <= k < r@.len() ==> match #[trigger] r@[k] {
                Some(c) => c < ALPHABET_SIZE,
                None => true,
            },
{
    let n = word.len();
    let mut r: Vec<Option<usize>> = Vec::new();
    let mut i: usize = 0;
    while i < n
        invariant
            n == word@.len(),
            i <= n,
            r@.len() == i,
            forall|k: int|
                0 <= k < word@.len() ==> match #[trigger] word@[k] {
                    Some(c) => is_ascii_letter(c),
                    None => true,
                },
            forall|k: int| 0 <= k < i ==> r@[k] == pattern_indices(word@)[k],
            forall|k: int|
                0 <= k < i ==> match #[trigger] r@[k] {
                    Some(c) => c < ALPHABET_SIZE,
                    None => true,
                },
        decreases n - i,
    {
        match word[i] {
            Some(c) => {
                r.push(Some(char_to_int(c)));
            },
            None => {
                r.push(None);
            },
        }
        i += 1;
    }
    proof {
        assert(r@ =~= pattern_indices(word@));
    }
    r
}

/// Writes an index word as an uppercase string.
fn word_to_string(w: &Vec<usize>) -> (s: String)
    requires
        forall|i: int| 0 <= i < w@.len() ==> w@[i] < ALPHABET_SIZE,
    ensures
        s@ == indices_word(w@),
{
    let n = w.len();
    let mut s = String::new();
    let mut i: usize = 0;
    while i < n
        invariant
            n == w@.len(),
            i <= n,
            s@.len() == i,
            forall|k: int| 0 <= k < w@.len() ==> w@[k] < ALPHABET_SIZE,
            forall|k: int| 0 <= k < i ==> s@[k] == index_char(w@[k] as int),
        decreases n - i,
    {
        s.push(int_to_char(w[i]));
        i += 1;
    }
    proof {
        assert(s@ =~= indices_word(w@));
    }
    s
}

/// Writes every index word of the list as an uppercase string.
fn words_to_strings(ws: Vec<Vec<usize>>) -> (r: Vec<String>)
    requires
        forall|k: int, i: int|
            0 <= k < ws.deep_view().len() && 0 <= i < ws.deep_view()[k].len()
                ==> ws.deep_view()[k][i] < ALPHABET_SIZE,
    ensures
        r.deep_view() == ws.deep_view().map_values(|w: Seq<usize>| indices_word(w)),
{
    let n = ws.len();
    let mut r: Vec<String> = Vec::new();
    let mut i: usize = 0;
    while i < n
        invariant
            n == ws@.len(),
            i <= n,
            r@.len() == i,
            forall|k: int, j: int|
                0 <= k < ws.deep_view().len() && 0 <= j < ws.deep_view()[k].len()
                    ==> ws.deep_view()[k][j] < ALPHABET_SIZE,
            forall|k: int| 0 <= k < i ==> r@[k]@ == indices_word(ws@[k]@),
        decreases n - i,
    {
        proof {
            assert(ws.deep_view()[i as int] =~= ws@[i as int]@);
        }
        let s = word_to_string(&ws[i]);
        r.push(s);
        i += 1;
    }
    proof {
        assert forall|k: int| 0 <= k < n implies r.deep_view()[k] == indices_word(
            ws.deep_view()[k],
        ) by {
            assert(r.deep_view()[k] == r@[k]@);
            assert(ws.deep_view()[k] =~= ws@[k]@);
            assert(r@[k]@ == indices_word(ws@[k]@));
        }
        assert(r.deep_view() =~~= ws.deep_view().map_values(|w: Seq<usize>| indices_word(w)));
    }
    r
}

impl Matcher {
    /// Lists the dictionary words that fit the pattern, in deterministic
    /// enumeration order, written in uppercase letters.
    pub fn find(&self, word: &[Option<char>]) -> (r: Vec<String>)
        requires
            self.wf(),
            forall|k: int|
                0 <= k < word@.len() ==> match #[trigger] word@[k] {
                    Some(c) => is_ascii_letter(c),
                    None => true,
                },
        ensures
            r.deep_view() == self.found_strings(word@),
    {
        let tp = pattern_to_indices(word);
        let found = self.trie.find(tp.as_slice());
        proof {
            assert forall|k: int, i: int|
                0 <= k < found.deep_view().len() && 0 <= i < found.deep_view()[k].len()
                implies found.deep_view()[k][i] < ALPHABET_SIZE by {
                crate::trie::lemma_found_words_iff(self.trie, tp@);
                assert(self.trie.found_words(tp@).contains(found.deep_view()[k]));
                crate::trie::lemma_contained_word_letters(self.trie, found.deep_view()[k]);
            }
        }
        words_to_strings(found)
    }

    /// Lists the same words as [`Matcher::find`], in an order that depends
    /// on the generator: only the order varies, never the word set.
    pub fn find_vec_random(&self, word: &[Option<char>], rng: &mut StdRng) -> (r: Vec<String>)
        requires
            self.wf(),
            forall|k: int|
                0 <= k < word@.len() ==> match #[trigger] word@[k] {
                    Some(c) => is_ascii_letter(c),
                    None => true,
                },
        ensures
            r.deep_view().to_multiset() == self.found_strings(word@).to_multiset(),
    {
        let tp = pattern_to_indices(word);
        let found = self.trie.find_random(tp.as_slice(), rng);
        proof {
            broadcast use vstd::seq_lib::group_to_multiset_ensures;

            assert forall|k: int, i: int|
                0 <= k < found.deep_view().len() && 0 <= i < found.deep_view()[k].len()
                implies found.deep_view()[k][i] < ALPHABET_SIZE by {
                crate::trie::lemma_found_words_iff(self.trie, tp@);
                assert(found.deep_view().to_multiset().count(found.deep_view()[k]) > 0);
                assert(self.trie.found_words(tp@).to_multiset().count(found.deep_view()[k]) > 0);
                assert(self.trie.found_words(tp@).contains(found.deep_view()[k]));
                crate::trie::lemma_contained_word_letters(self.trie, found.deep_view()[k]);
            }
            crate::trie::lemma_map_values_multiset(
                found.deep_view(),
                self.trie.found_words(tp@),
                |w: Seq<usize>| indices_word(w),
            );
        }
        words_to_strings(found)
    }

    /// Counts the dictionary words that fit the pattern: always the length
    /// of what [`Matcher::find`] returns for the same pattern.
    pub fn count_matches(&self, word: &[Option<char>]) -> (r: usize)
        requires
            self.wf(),
            self.trie.size() <= usize::MAX,
            forall|k: int|
                0 <= k < word@.len() ==> match #[trigger] word@[k] {
                    Some(c) => is_ascii_letter(c),
                    None => true,
                },
        ensures
            r == self.found_strings(word@).len(),
    {
        let tp = pattern_to_indices(word);
        self.trie.count_matches(tp.as_slice())
    }
}

/// Enumeration misses nothing: every dictionary word of the pattern's
/// length, written in uppercase, that agrees with the pattern's fixed
/// letters is among the matches the pattern enumeration reports.
pub proof fn lemma_found_string_complete(m: Matcher, p: Seq<Option<char>>, w: Seq<char>)
    requires
        m.wf(),
        m.has_word(w),
        w.len() == p.len(),
        forall|i: int| 0 <= i < w.len() ==> is_uppercase_letter(#[trigger] w[i]),
        forall|i: int|
            0 <= i < p.len() ==> match #[trigger] p[i] {
                Some(c) => w[i] == c,
                None => true,
            },
    ensures
        m.found_strings(p).contains(w),
{
    let v = word_indices(w);
    let pi = pattern_indices(p);
    assert forall|i: int| 0 <= i < v.len() implies #[trigger] v[i] < ALPHABET_SIZE by {
        assert(v[i] == char_index(w[i]));
    }
    crate::trie::lemma_found_words_iff(m.trie, pi);
    assert(crate::trie::pattern_matches(pi, v)) by {
        assert forall|i: int|
            0 <= i < pi.len() implies match #[trigger] pi[i] {
            Some(c) => v[i] == c,
            None => true,
        } by {
            match p[i] {
                Some(c) => {
                    assert(pi[i] == Some(char_index(c)));
                    assert(v[i] == char_index(w[i]));
                },
                None => {},
            }
        }
    }
    assert(m.trie.found_words(pi).contains(v));
    let j = choose|j: int| 0 <= j < m.trie.found_words(pi).len() && m.trie.found_words(pi)[j] == v;
    assert(indices_word(v) =~= w) by {
        assert forall|i: int| 0 <= i < v.len() implies indices_word(v)[i] == w[i] by {
            assert(v[i] == char_index(w[i]));
            assert(indices_word(v)[i] == index_char(v[i] as int));
        }
    }
    assert(m.found_strings(p)[j] == w);
}

/// Inserting a word the index already stores changes no query answer:
/// after such an insert the trie is shape-equivalent to what it was (see
/// [`Matcher::insert`]), and shape-equivalent tries list, and therefore
/// count, exactly the same matches for every pattern.
pub proof fn lemma_equivalent_same_answers(a: Matcher, b: Matcher, p: Seq<Option<char>>)
    requires
        a.trie.equivalent(b.trie),
    ensures
        a.found_strings(p) == b.found_strings(p),
{
    crate::trie::lemma_equivalent_found(a.trie, b.trie, pattern_indices(p));
}

/// What holds of every word of an enumeration result, however the order
/// came out: given a list multiset-equal to the matches of an uppercase
/// letter pattern, each of its words is a dictionary word of the pattern's
/// length, written in uppercase, that agrees with every fixed letter.
pub proof fn lemma_found_string_member(m: Matcher, p: Seq<Option<char>>, ws: Seq<Seq<char>>, k: int)
    requires
        m.wf(),
        ws.to_multiset() == m.found_strings(p).to_multiset(),
        0 <= k < ws.len(),
        forall|i: int|
            0 <= i < p.len() ==> match #[trigger] p[i] {
                Some(c) => is_uppercase_letter(c),
                None => true,
            },
    ensures
        m.has_word(ws[k]),
        ws[k].len() == p.len(),
        forall|i: int| 0 <= i < ws[k].len() ==> is_uppercase_letter(#[trigger] ws[k][i]),
        forall|i: int|
            0 <= i < p.len() ==> match #[trigger] p[i] {
                Some(c) => ws[k][i] == c,
                None => true,
            },
{
    broadcast use vstd::seq_lib::group_to_multiset_ensures;

    let w = ws[k];
    let pi = pattern_indices(p);
    assert(ws.contains(w));
    assert(ws.to_multiset().count(w) > 0);
    assert(m.found_strings(p).to_multiset().count(w) > 0);
    assert(m.found_strings(p).contains(w));
    let j = choose|j: int| 0 <= j < m.found_strings(p).len() && m.found_strings(p)[j] == w;
    let v = m.trie.found_words(pi)[j];
    assert(w == indices_word(v));
    crate::trie::lemma_found_words_iff(m.trie, pi);
    assert(m.trie.found_words(pi).contains(v)) by {
        assert(m.trie.found_words(pi)[j] == v);
    }
    assert(m.trie.contains_word(v) && crate::trie::pattern_matches(pi, v));
    crate::trie::lemma_contained_word_letters(m.trie, v);
    lemma_indices_roundtrip(v);
    assert(m.has_word(w));
    assert(w.len() == v.len() && v.len() == pi.len() && pi.len() == p.len());
    assert forall|i: int| 0 <= i < p.len() implies match #[trigger] p[i] {
        Some(c) => w[i] == c,
        None => true,
    } by {
        match p[i] {
            Some(c) => {
                assert(pi[i] == Some(char_index(c)));
                assert(v[i] == char_index(c));
                assert(w[i] == index_char(v[i] as int));
                assert(index_char(char_index(c) as int) == c);
            },
            None => {},
        }
    }
}

} // verus!