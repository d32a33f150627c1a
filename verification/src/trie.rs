//! A fixed-alphabet prefix tree over letter indices.
//!
//! Words are sequences of letter indices below [`ALPHABET_SIZE`].  A pattern
//! is a sequence of optional indices: `Some(c)` fixes position `c`, `None` is
//! a wildcard.  The trie answers which stored words fit a pattern, either as
//! an exact count, a full enumeration, or an enumeration in randomized order.

use vstd::prelude::*;

use crate::rng::rand_index_below;
use rand::rngs::StdRng;

verus! {

/// Number of distinct letters a trie node can branch on.
pub const ALPHABET_SIZE: usize = 26;

/// One node of the prefix tree; the root stands for the empty prefix.
pub struct Trie {
    /// One slot per alphabet letter; `Some` where a stored word continues.
    pub children: Vec<Option<Trie>>,
    /// True when a stored word ends at this node.
    pub end_of_word: bool,
}

/// A word fits a pattern when the lengths agree and the word carries the
/// pattern's letter at every fixed position.
pub open spec fn pattern_matches(p: Seq<Option<usize>>, w: Seq<usize>) -> bool {
    &&& w.len() == p.len()
    &&& forall|i: int|
        0 <= i < p.len() ==> match #[trigger] p[i] {
            Some(c) => w[i] == c,
            None => true,
        }
}

impl Trie {
    /// Every node branches over the whole alphabet.
    pub open spec fn wf(self) -> bool
        decreases self,
    {
        &&& self.children@.len() == ALPHABET_SIZE
        &&& forall|c: int|
            0 <= c < self.children@.len() && (#[trigger] self.children@[c]) is Some
                ==> self.children@[c]->0.wf()
    }

    /// The word set of the trie: one stored word per root-to-terminal path.
    pub open spec fn contains_word(self, w: Seq<usize>) -> bool
        decreases self,
    {
        if w.len() == 0 {
            self.end_of_word
        } else if w[0] < ALPHABET_SIZE && (w[0] as int) < self.children@.len()
            && self.children@[w[0] as int] is Some {
            self.children@[w[0] as int]->0.contains_word(w.skip(1))
        } else {
            false
        }
    }

    /// The stored words that fit pattern `p`, in the order a depth-first
    /// walk visits them: child edges in alphabet order.
    pub open spec fn found_words(self, p: Seq<Option<usize>>) -> Seq<Seq<usize>>
        decreases self, p.len(), 28int,
    {
        if p.len() == 0 {
            if self.end_of_word {
                seq![Seq::<usize>::empty()]
            } else {
                Seq::<Seq<usize>>::empty()
            }
        } else {
            match p[0] {
                Some(c) => {
                    if c < ALPHABET_SIZE {
                        self.found_words_via(c as int, p)
                    } else {
                        Seq::<Seq<usize>>::empty()
                    }
                },
                None => self.found_words_range(p, 0, ALPHABET_SIZE as int),
            }
        }
    }

    /// The words of `found_words` that continue through child `c`,
    /// each prefixed with the letter `c`.
    pub open spec fn found_words_via(self, c: int, p: Seq<Option<usize>>) -> Seq<Seq<usize>>
        decreases self, p.len(), 0int,
    {
        if 0 <= c < self.children@.len() && self.children@[c] is Some {
            self.children@[c]->0.found_words(p.skip(1)).map_values(
                |w: Seq<usize>| seq![c as usize] + w,
            )
        } else {
            Seq::<Seq<usize>>::empty()
        }
    }

    /// Wildcard enumeration restricted to the child letters in `[c, d)`.
    pub open spec fn found_words_range(self, p: Seq<Option<usize>>, c: int, d: int) -> Seq<
        Seq<usize>,
    >
        decreases self, p.len(), d - c + 1,
    {
        if c < d {
            self.found_words_via(c, p) + self.found_words_range(p, c + 1, d)
        } else {
            Seq::<Seq<usize>>::empty()
        }
    }

    /// How many words the trie stores (a duplicate insert stores nothing new).
    pub open spec fn size(self) -> nat
        decreases self, 1int, 0int,
    {
        (if self.end_of_word {
            1nat
        } else {
            0nat
        }) + self.size_range(0, ALPHABET_SIZE as int)
    }

    /// Words stored strictly below the children with letters in `[c, d)`.
    pub open spec fn size_range(self, c: int, d: int) -> nat
        decreases self, 0int, d - c,
    {
        if c < d {
            (if 0 <= c < self.children@.len() && self.children@[c] is Some {
                self.children@[c]->0.size()
            } else {
                0nat
            }) + self.size_range(c + 1, d)
        } else {
            0nat
        }
    }

    /// Two tries with the same shape: the same terminal flags along the same
    /// edges.  Every pattern query gives the same answer on both.
    pub open spec fn equivalent(self, other: Trie) -> bool
        decreases self,
    {
        &&& self.end_of_word == other.end_of_word
        &&& self.children@.len() == other.children@.len()
        &&& forall|c: int|
            0 <= c < self.children@.len() ==> ((#[trigger] self.children@[c]) is Some
                <==> other.children@[c] is Some)
        &&& forall|c: int|
            0 <= c < self.children@.len() && (#[trigger] self.children@[c]) is Some
                ==> self.children@[c]->0.equivalent(other.children@[c]->0)
    }
}

/// Shape equivalence is reflexive.
pub proof fn lemma_equivalent_reflexive(t: Trie)
    ensures
        t.equivalent(t),
    decreases t,
{
    assert forall|c: int|
        0 <= c < t.children@.len() && (#[trigger] t.children@[c]) is Some implies t
        .children@[c]->0.equivalent(t.children@[c]->0) by {
        lemma_equivalent_reflexive(t.children@[c]->0);
    }
}

/// A node whose children are all absent from `c` on stores nothing below them.
proof fn lemma_size_range_none(t: Trie, c: int, d: int)
    requires
        forall|k: int| c <= k < d ==> t.children@[k] is None,
    ensures
        t.size_range(c, d) == 0,
    decreases d - c,
{
    if c < d {
        lemma_size_range_none(t, c + 1, d);
    }
}

/// Nodes that agree on their children sequence store the same counts.
proof fn lemma_size_range_same_children(a: Trie, b: Trie, c: int, d: int)
    requires
        a.children@ == b.children@,
    ensures
        a.size_range(c, d) == b.size_range(c, d),
    decreases d - c,
{
    if c < d {
        lemma_size_range_same_children(a, b, c + 1, d);
    }
}

/// Replacing the child at letter `c` changes the stored count by the
/// difference between the new and the old subtree.
proof fn lemma_size_range_update(a: Trie, b: Trie, c: int, lo: int, hi: int)
    requires
        a.children@.len() == b.children@.len(),
        0 <= lo,
        hi <= a.children@.len(),
        forall|d: int| 0 <= d < a.children@.len() && d != c ==> a.children@[d] == b.children@[d],
    ensures
        lo <= c < hi ==> a.size_range(lo, hi) + (if b.children@[c] is Some {
            b.children@[c]->0.size()
        } else {
            0nat
        }) == b.size_range(lo, hi) + (if a.children@[c] is Some {
            a.children@[c]->0.size()
        } else {
            0nat
        }),
        !(lo <= c < hi) ==> a.size_range(lo, hi) == b.size_range(lo, hi),
    decreases hi - lo,
{
    if lo < hi {
        lemma_size_range_update(a, b, c, lo + 1, hi);
    }
}

impl Trie {
    /// A fresh node: no children, no terminal flag, so no stored words.
    pub fn new() -> (t: Trie)
        ensures
            t.wf(),
            !t.end_of_word,
            forall|w: Seq<usize>| !t.contains_word(w),
            t.size() == 0,
    {
        let mut children: Vec<Option<Trie>> = Vec::new();
        let mut i: usize = 0;
        while i < ALPHABET_SIZE
            invariant
                i <= ALPHABET_SIZE,
                children@.len() == i,
                forall|k: int| 0 <= k < i ==> children@[k] is None,
            decreases ALPHABET_SIZE - i,
        {
            children.push(None);
            i += 1;
        }
        let t = Trie { children, end_of_word: false };
        proof {
            lemma_size_range_none(t, 0, ALPHABET_SIZE as int);
            assert forall|w: Seq<usize>| !t.contains_word(w) by {
                if w.len() > 0 && w[0] < ALPHABET_SIZE {
                    assert(t.children@[w[0] as int] is None);
                }
            }
        }
        t
    }

    /// Adds the word to the trie, creating the missing path; inserting a word
    /// a second time stores nothing new and leaves the trie as it was.
    pub fn insert(&mut self, word: &[usize])
        requires
            old(self).wf(),
            forall|k: int| 0 <= k < word@.len() ==> word@[k] < ALPHABET_SIZE,
        ensures
            final(self).wf(),
            forall|w: Seq<usize>|
                final(self).contains_word(w) <==> (old(self).contains_word(w) || w == word@),
            old(self).contains_word(word@) ==> final(self).equivalent(*old(self)),
            final(self).size() <= old(self).size() + 1,
    {
        proof {
            assert(word@.skip(0) =~= word@);
        }
        self.insert_at(word, 0);
    }

    /// Adds the suffix of `word` that starts at position `i` below this node.
    fn insert_at(&mut self, word: &[usize], i: usize)
        requires
            old(self).wf(),
            i <= word@.len(),
            forall|k: int| 0 <= k < word@.len() ==> word@[k] < ALPHABET_SIZE,
        ensures
            final(self).wf(),
            forall|w: Seq<usize>|
                final(self).contains_word(w) <==> (old(self).contains_word(w) || w == word@.skip(
                    i as int,
                )),
            old(self).contains_word(word@.skip(i as int)) ==> final(self).equivalent(*old(self)),
            final(self).size() <= old(self).size() + 1,
        decreases word@.len() - i,
    {
        let ghost sfx = word@.skip(i as int);
        if i == word.len() {
            let ghost before = *self;
            self.end_of_word = true;
            proof {
                assert(sfx =~= Seq::<usize>::empty());
                assert forall|w: Seq<usize>|
                    self.contains_word(w) <==> (before.contains_word(w) || w == sfx) by {
                    if w.len() == 0 {
                        assert(w =~= sfx);
                    }
                }
                if before.contains_word(sfx) {
                    lemma_equivalent_reflexive(*self);
                }
                lemma_size_range_same_children(*self, before, 0, ALPHABET_SIZE as int);
            }
        } else {
            let c = word[i];
            let ghost at_entry = *self;
            if self.children[c].is_none() {
                let fresh = Trie::new();
                let elem = &mut self.children[c];
                *elem = Some(fresh);
            }
            let ghost grown = *self;
            proof {
                assert(grown.children@[c as int] is Some);
                assert(grown.wf());
                // The possibly created empty child stores nothing, so the
                // word set and size are unchanged by this step.
                assert forall|w: Seq<usize>|
                    grown.contains_word(w) == at_entry.contains_word(w) by {
                    if w.len() > 0 && w[0] < ALPHABET_SIZE && w[0] == c
                        && at_entry.children@[c as int] is None {
                        assert(!(grown.children@[c as int]->0).contains_word(w.skip(1)));
                    }
                }
                lemma_size_range_update(at_entry, grown, c as int, 0, ALPHABET_SIZE as int);
            }
            match &mut self.children[c] {
                Some(child) => {
                    child.insert_at(word, i + 1);
                },
                None => {
                    proof {
                        assert(false);
                    }
                },
            }
            proof {
                let gc = grown.children@[c as int]->0;
                let fc = self.children@[c as int]->0;
                assert(self.children@ =~= grown.children@.update(c as int, self.children@[c as int]));
                assert(sfx.skip(1) =~= word@.skip(i + 1));
                assert(sfx[0] == word@[i as int]);
                assert forall|w: Seq<usize>|
                    self.contains_word(w) <==> (at_entry.contains_word(w) || w == sfx) by {
                    if w.len() == 0 {
                        assert(w != sfx);
                        assert(self.end_of_word == at_entry.end_of_word);
                    } else if !(w[0] < ALPHABET_SIZE) {
                        assert(w != sfx);
                    } else if w[0] == c {
                        assert(self.contains_word(w) == fc.contains_word(w.skip(1)));
                        assert(fc.contains_word(w.skip(1)) <==> (gc.contains_word(w.skip(1))
                            || w.skip(1) == sfx.skip(1)));
                        if w.skip(1) == sfx.skip(1) && w[0] == sfx[0] {
                            assert(w =~= sfx) by {
                                assert(w.len() == sfx.len());
                                assert(forall|k: int|
                                    1 <= k < w.len() ==> w[k] == w.skip(1)[k - 1]
                                        && sfx[k] == sfx.skip(1)[k - 1]);
                            }
                        }
                        if w == sfx {
                            assert(w.skip(1) == sfx.skip(1));
                        }
                    } else {
                        assert(self.children@[w[0] as int] == at_entry.children@[w[0] as int]);
                        assert(w != sfx);
                    }
                }
                if at_entry.contains_word(sfx) {
                    assert(at_entry.children@[c as int] is Some);
                    assert(gc.contains_word(sfx.skip(1)));
                    assert(fc.equivalent(gc));
                    assert forall|d: int|
                        0 <= d < self.children@.len() && (#[trigger] self.children@[d]) is Some
                        implies self.children@[d]->0.equivalent(at_entry.children@[d]->0) by {
                        if d != c {
                            assert(self.children@[d] == at_entry.children@[d]);
                            lemma_equivalent_reflexive(self.children@[d]->0);
                        }
                    }
                    assert(self.equivalent(at_entry));
                }
                lemma_size_range_update(grown, *self, c as int, 0, ALPHABET_SIZE as int);
                assert(self.size() <= at_entry.size() + 1);
            }
        }
    }
}

/// A wildcard enumeration over `[a, c)` is the one over `[a, b)` followed by
/// the one over `[b, c)`.
pub proof fn lemma_found_range_split(t: Trie, p: Seq<Option<usize>>, a: int, b: int, c: int)
    requires
        a <= b <= c,
    ensures
        t.found_words_range(p, a, c) == t.found_words_range(p, a, b) + t.found_words_range(
            p,
            b,
            c,
        ),
    decreases b - a,
{
    if a == b {
        assert(t.found_words_range(p, a, b) =~= Seq::<Seq<usize>>::empty());
        assert(t.found_words_range(p, a, c) =~= t.found_words_range(p, a, b)
            + t.found_words_range(p, b, c));
    } else {
        lemma_found_range_split(t, p, a + 1, b, c);
        assert(t.found_words_range(p, a, c) =~= t.found_words_range(p, a, b)
            + t.found_words_range(p, b, c));
    }
}

/// The count stored below one child is part of the count stored below a
/// range of children that includes it.
proof fn lemma_size_range_lower(t: Trie, c: int, lo: int, hi: int)
    requires
        lo <= c < hi,
        0 <= lo,
        hi <= t.children@.len(),
        t.children@[c] is Some,
    ensures
        t.children@[c]->0.size() <= t.size_range(lo, hi),
    decreases c - lo,
{
    if lo < c {
        lemma_size_range_lower(t, c, lo + 1, hi);
    }
}

/// No pattern can match more words than the trie stores.
pub proof fn lemma_found_le_size(t: Trie, p: Seq<Option<usize>>)
    requires
        t.wf(),
    ensures
        t.found_words(p).len() <= t.size(),
    decreases t, p.len(), 28int,
{
    if p.len() == 0 {
    } else {
        match p[0] {
            Some(c) => {
                if c < ALPHABET_SIZE && t.children@[c as int] is Some {
                    lemma_found_le_size(t.children@[c as int]->0, p.skip(1));
                    lemma_size_range_lower(t, c as int, 0, ALPHABET_SIZE as int);
                }
            },
            None => {
                lemma_found_range_le_size(t, p, 0, ALPHABET_SIZE as int);
            },
        }
    }
}

/// Range version of [`lemma_found_le_size`].
proof fn lemma_found_range_le_size(t: Trie, p: Seq<Option<usize>>, c: int, d: int)
    requires
        t.wf(),
        0 <= c,
        d <= ALPHABET_SIZE,
        p.len() > 0,
    ensures
        t.found_words_range(p, c, d).len() <= t.size_range(c, d),
    decreases t, p.len(), d - c + 1,
{
    if c < d {
        if t.children@[c] is Some {
            lemma_found_le_size(t.children@[c]->0, p.skip(1));
            assert(t.found_words_via(c, p).len() == t.children@[c]->0.found_words(
                p.skip(1),
            ).len());
        } else {
            assert(t.found_words_via(c, p).len() == 0);
        }
        lemma_found_range_le_size(t, p, c + 1, d);
        assert(t.found_words_range(p, c, d) == t.found_words_via(c, p) + t.found_words_range(
            p,
            c + 1,
            d,
        ));
    }
}

/// Every word stored in a well-formed trie is written over the alphabet.
pub proof fn lemma_contained_word_letters(t: Trie, w: Seq<usize>)
    requires
        t.contains_word(w),
    ensures
        forall|i: int| 0 <= i < w.len() ==> w[i] < ALPHABET_SIZE,
    decreases w.len(),
{
    if w.len() > 0 {
        lemma_contained_word_letters(t.children@[w[0] as int]->0, w.skip(1));
        assert forall|i: int| 0 <= i < w.len() implies w[i] < ALPHABET_SIZE by {
            if i > 0 {
                assert(w.skip(1)[i - 1] == w[i]);
            }
        }
    }
}

/// What a pattern enumeration reports is exactly the stored words that fit
/// the pattern.
pub proof fn lemma_found_words_iff(t: Trie, p: Seq<Option<usize>>)
    requires
        t.wf(),
    ensures
        forall|w: Seq<usize>| #[trigger]
            t.found_words(p).contains(w) <==> (t.contains_word(w) && pattern_matches(p, w)),
    decreases t, p.len(), 28int,
{
    if p.len() == 0 {
        assert forall|w: Seq<usize>| #[trigger]
            t.found_words(p).contains(w) <==> (t.contains_word(w) && pattern_matches(p, w)) by {
            if t.end_of_word {
                if w.len() == 0 {
                    assert(w =~= Seq::<usize>::empty());
                    assert(t.found_words(p)[0] == Seq::<usize>::empty());
                }
            }
        }
    } else {
        match p[0] {
            Some(c) => {
                if c < ALPHABET_SIZE {
                    lemma_found_via_iff(t, p, c as int);
                    assert(t.found_words(p) == t.found_words_via(c as int, p));
                    assert forall|w: Seq<usize>| #[trigger]
                        t.found_words(p).contains(w) <==> (t.contains_word(w) && pattern_matches(
                            p,
                            w,
                        )) by {
                        if t.contains_word(w) && pattern_matches(p, w) {
                            assert(w[0] == c);
                        }
                    }
                } else {
                    assert(t.found_words(p) =~= Seq::<Seq<usize>>::empty());
                    assert forall|w: Seq<usize>| #[trigger]
                        t.found_words(p).contains(w) <==> (t.contains_word(w) && pattern_matches(
                            p,
                            w,
                        )) by {
                        assert(!t.found_words(p).contains(w));
                        if t.contains_word(w) && pattern_matches(p, w) {
                            assert(w.len() > 0);
                            assert(w[0] == c && w[0] < ALPHABET_SIZE);
                        }
                    }
                }
            },
            None => {
                lemma_found_range_iff(t, p, 0, ALPHABET_SIZE as int);
                assert(t.found_words(p) == t.found_words_range(p, 0, ALPHABET_SIZE as int));
                assert forall|w: Seq<usize>| #[trigger]
                    t.found_words(p).contains(w) <==> (t.contains_word(w) && pattern_matches(
                        p,
                        w,
                    )) by {
                    if t.contains_word(w) && pattern_matches(p, w) {
                        assert(0 <= w[0] < ALPHABET_SIZE);
                    }
                }
            },
        }
    }
}

/// The words reported through child `c` are the stored words that fit the
/// pattern and start with the letter `c`.
proof fn lemma_found_via_iff(t: Trie, p: Seq<Option<usize>>, c: int)
    requires
        t.wf(),
        0 <= c < ALPHABET_SIZE,
        p.len() > 0,
        match p[0] {
            Some(x) => x == c,
            None => true,
        },
    ensures
        forall|w: Seq<usize>| #[trigger]
            t.found_words_via(c, p).contains(w) <==> (t.contains_word(w) && pattern_matches(p, w)
                && w.len() > 0 && w[0] == c),
    decreases t, p.len(), 0int,
{
    if t.children@[c] is Some {
        let child = t.children@[c]->0;
        let sub = child.found_words(p.skip(1));
        let mapped = t.found_words_via(c, p);
        lemma_found_words_iff(child, p.skip(1));
        assert forall|w: Seq<usize>| #[trigger]
            mapped.contains(w) <==> (t.contains_word(w) && pattern_matches(p, w) && w.len() > 0
                && w[0] == c) by {
            if mapped.contains(w) {
                let k = choose|k: int| 0 <= k < mapped.len() && mapped[k] == w;
                let v = sub[k];
                assert(sub.contains(v));
                assert(w == seq![c as usize] + v);
                assert(w[0] == c);
                assert(w.skip(1) =~= v);
                assert(child.contains_word(v) && pattern_matches(p.skip(1), v));
                assert forall|i: int| 0 <= i < p.len() implies match #[trigger] p[i] {
                    Some(x) => w[i] == x,
                    None => true,
                } by {
                    if i > 0 {
                        assert(p.skip(1)[i - 1] == p[i]);
                        assert(v[i - 1] == w[i]);
                    }
                }
            }
            if t.contains_word(w) && pattern_matches(p, w) && w.len() > 0 && w[0] == c {
                let v = w.skip(1);
                assert(child.contains_word(v));
                assert forall|i: int| 0 <= i < p.skip(1).len() implies match #[trigger] p.skip(
                    1,
                )[i] {
                    Some(x) => v[i] == x,
                    None => true,
                } by {
                    assert(p.skip(1)[i] == p[i + 1]);
                    assert(v[i] == w[i + 1]);
                }
                assert(pattern_matches(p.skip(1), v));
                assert(sub.contains(v));
                let k = choose|k: int| 0 <= k < sub.len() && sub[k] == v;
                assert(mapped[k] == seq![c as usize] + v);
                assert(seq![c as usize] + v =~= w);
                assert(mapped.contains(w));
            }
        }
    } else {
        assert forall|w: Seq<usize>| #[trigger]
            t.found_words_via(c, p).contains(w) <==> (t.contains_word(w) && pattern_matches(p, w)
                && w.len() > 0 && w[0] == c) by {
            assert(!t.found_words_via(c, p).contains(w));
        }
    }
}

/// Range version of [`lemma_found_words_iff`] for wildcard positions.
proof fn lemma_found_range_iff(t: Trie, p: Seq<Option<usize>>, c: int, d: int)
    requires
        t.wf(),
        0 <= c <= d,
        d <= ALPHABET_SIZE,
        p.len() > 0,
        p[0] is None,
    ensures
        forall|w: Seq<usize>| #[trigger]
            t.found_words_range(p, c, d).contains(w) <==> (t.contains_word(w) && pattern_matches(
                p,
                w,
            ) && w.len() > 0 && c <= w[0] < d),
    decreases t, p.len(), d - c + 1,
{
    if c < d {
        lemma_found_via_iff(t, p, c);
        lemma_found_range_iff(t, p, c + 1, d);
        let via = t.found_words_via(c, p);
        let rest = t.found_words_range(p, c + 1, d);
        assert forall|w: Seq<usize>| #[trigger]
            t.found_words_range(p, c, d).contains(w) <==> (t.contains_word(w) && pattern_matches(
                p,
                w,
            ) && w.len() > 0 && c <= w[0] < d) by {
            assert(t.found_words_range(p, c, d) == via + rest);
            if (via + rest).contains(w) {
                let k = choose|k: int| 0 <= k < (via + rest).len() && (via + rest)[k] == w;
                if k < via.len() {
                    assert(via[k] == w);
                    assert(via.contains(w));
                } else {
                    assert(rest[k - via.len()] == w);
                    assert(rest.contains(w));
                }
            }
            if via.contains(w) {
                let k = choose|k: int| 0 <= k < via.len() && via[k] == w;
                assert((via + rest)[k] == w);
                assert((via + rest).contains(w));
            }
            if rest.contains(w) {
                let k = choose|k: int| 0 <= k < rest.len() && rest[k] == w;
                assert((via + rest)[k + via.len()] == w);
                assert((via + rest).contains(w));
            }
        }
    } else {
        assert forall|w: Seq<usize>| #[trigger]
            t.found_words_range(p, c, d).contains(w) <==> (t.contains_word(w) && pattern_matches(
                p,
                w,
            ) && w.len() > 0 && c <= w[0] < d) by {
            assert(!t.found_words_range(p, c, d).contains(w));
        }
    }
}

/// A pattern enumeration reports each stored word at most once.
pub proof fn lemma_found_no_duplicates(t: Trie, p: Seq<Option<usize>>)
    requires
        t.wf(),
    ensures
        t.found_words(p).no_duplicates(),
    decreases t, p.len(), 28int,
{
    if p.len() == 0 {
    } else {
        match p[0] {
            Some(c) => {
                if c < ALPHABET_SIZE {
                    lemma_found_via_no_duplicates(t, p, c as int);
                }
            },
            None => {
                lemma_found_range_no_duplicates(t, p, 0, ALPHABET_SIZE as int);
            },
        }
    }
}

/// Child version of [`lemma_found_no_duplicates`]: prefixing a letter to a
/// duplicate-free list keeps it duplicate-free.
proof fn lemma_found_via_no_duplicates(t: Trie, p: Seq<Option<usize>>, c: int)
    requires
        t.wf(),
        0 <= c < ALPHABET_SIZE,
        p.len() > 0,
    ensures
        t.found_words_via(c, p).no_duplicates(),
    decreases t, p.len(), 0int,
{
    if t.children@[c] is Some {
        let child = t.children@[c]->0;
        let sub = child.found_words(p.skip(1));
        let via = t.found_words_via(c, p);
        lemma_found_no_duplicates(child, p.skip(1));
        assert forall|i: int, j: int| 0 <= i < j < via.len() implies via[i] != via[j] by {
            assert(via[i] == seq![c as usize] + sub[i]);
            assert(via[j] == seq![c as usize] + sub[j]);
            if via[i] == via[j] {
                assert(sub[i] =~= sub[j]) by {
                    assert(forall|k: int|
                        0 <= k < sub[i].len() ==> sub[i][k] == via[i][k + 1] && sub[j][k]
                            == via[j][k + 1]);
                }
            }
        }
    }
}

/// Range version of [`lemma_found_no_duplicates`]: words reported through
/// different children start with different letters.
proof fn lemma_found_range_no_duplicates(t: Trie, p: Seq<Option<usize>>, c: int, d: int)
    requires
        t.wf(),
        0 <= c <= d,
        d <= ALPHABET_SIZE,
        p.len() > 0,
        p[0] is None,
    ensures
        t.found_words_range(p, c, d).no_duplicates(),
        forall|k: int|
            0 <= k < t.found_words_range(p, c, d).len() ==> {
                let w = #[trigger] t.found_words_range(p, c, d)[k];
                w.len() > 0 && c <= w[0] < d
            },
    decreases t, p.len(), d - c + 1,
{
    if c < d {
        lemma_found_via_no_duplicates(t, p, c);
        lemma_found_via_iff(t, p, c);
        lemma_found_range_no_duplicates(t, p, c + 1, d);
        let via = t.found_words_via(c, p);
        let rest = t.found_words_range(p, c + 1, d);
        let whole = t.found_words_range(p, c, d);
        assert(whole == via + rest);
        assert forall|k: int| 0 <= k < whole.len() implies {
            let w = #[trigger] whole[k];
            w.len() > 0 && c <= w[0] < d
        } by {
            if k < via.len() {
                assert(whole[k] == via[k]);
                assert(via.contains(via[k]));
            } else {
                assert(whole[k] == rest[k - via.len()]);
            }
        }
        assert forall|i: int, j: int| 0 <= i < j < whole.len() implies whole[i] != whole[j] by {
            if j < via.len() {
                assert(whole[i] == via[i] && whole[j] == via[j]);
            } else if i >= via.len() {
                assert(whole[i] == rest[i - via.len()] && whole[j] == rest[j - via.len()]);
            } else {
                assert(whole[i] == via[i]);
                assert(via.contains(via[i]));
                assert(whole[i].len() > 0 && whole[i][0] == c);
                assert(whole[j] == rest[j - via.len()]);
                assert(whole[j].len() > 0 && c + 1 <= whole[j][0] < d);
            }
        }
    }
}

/// Shape-equivalent tries answer every pattern query with the same word list.
pub proof fn lemma_equivalent_found(a: Trie, b: Trie, p: Seq<Option<usize>>)
    requires
        a.equivalent(b),
    ensures
        a.found_words(p) == b.found_words(p),
    decreases a, p.len(), 28int,
{
    if p.len() == 0 {
        assert(a.found_words(p) =~= b.found_words(p));
    } else {
        match p[0] {
            Some(c) => {
                if c < ALPHABET_SIZE {
                    lemma_equivalent_found_via(a, b, p, c as int);
                }
            },
            None => {
                lemma_equivalent_found_range(a, b, p, 0, ALPHABET_SIZE as int);
            },
        }
    }
}

/// Child version of [`lemma_equivalent_found`].
proof fn lemma_equivalent_found_via(a: Trie, b: Trie, p: Seq<Option<usize>>, c: int)
    requires
        a.equivalent(b),
        p.len() > 0,
    ensures
        a.found_words_via(c, p) == b.found_words_via(c, p),
    decreases a, p.len(), 0int,
{
    if 0 <= c < a.children@.len() && a.children@[c] is Some {
        lemma_equivalent_found(a.children@[c]->0, b.children@[c]->0, p.skip(1));
    }
}

/// Range version of [`lemma_equivalent_found`].
proof fn lemma_equivalent_found_range(a: Trie, b: Trie, p: Seq<Option<usize>>, c: int, d: int)
    requires
        a.equivalent(b),
        p.len() > 0,
    ensures
        a.found_words_range(p, c, d) == b.found_words_range(p, c, d),
    decreases a, p.len(), d - c + 1,
{
    if c < d {
        lemma_equivalent_found_via(a, b, p, c);
        lemma_equivalent_found_range(a, b, p, c + 1, d);
    }
}

impl Trie {
    /// Counts the stored words that fit the pattern, without listing them.
    pub fn count_matches(&self, word: &[Option<usize>]) -> (r: usize)
        requires
            self.wf(),
            self.size() <= usize::MAX,
            forall|k: int|
                0 <= k < word@.len() ==> match #[trigger] word@[k] {
                    Some(c) => c < ALPHABET_SIZE,
                    None => true,
                },
        ensures
            r == self.found_words(word@).len(),
    {
        proof {
            assert(word@.skip(0) =~= word@);
        }
        self.count_at(word, 0)
    }

    /// Counts the matches of the pattern suffix that starts at `i`.
    fn count_at(&self, word: &[Option<usize>], i: usize) -> (r: usize)
        requires
            self.wf(),
            self.size() <= usize::MAX,
            i <= word@.len(),
            forall|k: int|
                0 <= k < word@.len() ==> match #[trigger] word@[k] {
                    Some(c) => c < ALPHABET_SIZE,
                    None => true,
                },
        ensures
            r == self.found_words(word@.skip(i as int)).len(),
        decreases word@.len() - i,
    {
        let ghost sp = word@.skip(i as int);
        if i == word.len() {
            proof {
                assert(sp.len() == 0);
            }
            if self.end_of_word {
                1
            } else {
                0
            }
        } else {
            proof {
                assert(sp.skip(1) =~= word@.skip(i + 1));
                assert(sp[0] == word@[i as int]);
            }
            match word[i] {
                Some(c) => {
                    match &self.children[c] {
                        Some(child) => {
                            proof {
                                lemma_size_range_lower(*self, c as int, 0, ALPHABET_SIZE as int);
                            }
                            let r = child.count_at(word, i + 1);
                            proof {
                                assert(self.found_words(sp) == self.found_words_via(c as int, sp));
                                assert(self.found_words_via(c as int, sp).len() == child
                                    .found_words(sp.skip(1)).len());
                            }
                            r
                        },
                        None => {
                            proof {
                                assert(self.found_words(sp).len() == 0);
                            }
                            0
                        },
                    }
                },
                None => {
                    let mut total: usize = 0;
                    let mut c: usize = 0;
                    proof {
                        lemma_found_le_size(*self, sp);
                    }
                    while c < ALPHABET_SIZE
                        invariant
                            self.wf(),
                            self.size() <= usize::MAX,
                            i < word@.len(),
                            forall|k: int|
                                0 <= k < word@.len() ==> match #[trigger] word@[k] {
                                    Some(x) => x < ALPHABET_SIZE,
                                    None => true,
                                },
                            word@.len() <= usize::MAX,
                            sp == word@.skip(i as int),
                            sp.len() > 0,
                            sp[0] is None,
                            c <= ALPHABET_SIZE,
                            total == self.found_words_range(sp, 0, c as int).len(),
                            self.found_words(sp).len() <= self.size(),
                        decreases ALPHABET_SIZE - c,
                    {
                        proof {
                            lemma_found_range_split(*self, sp, 0, c as int, c + 1);
                            lemma_found_range_split(*self, sp, 0, c + 1, ALPHABET_SIZE as int);
                            assert(self.found_words(sp) == self.found_words_range(
                                sp,
                                0,
                                ALPHABET_SIZE as int,
                            ));
                            assert(self.found_words_range(sp, c + 1, c + 1) =~= Seq::<
                                Seq<usize>,
                            >::empty());
                            assert(self.found_words_range(sp, c as int, c + 1)
                                == self.found_words_via(c as int, sp) + self.found_words_range(
                                sp,
                                c + 1,
                                c + 1,
                            ));
                            assert(self.found_words_range(sp, c as int, c + 1).len()
                                == self.found_words_via(c as int, sp).len());
                        }
                        match &self.children[c] {
                            Some(child) => {
                                proof {
                                    lemma_size_range_lower(*self, c as int, 0, ALPHABET_SIZE as int);
                                    assert(sp.skip(1) =~= word@.skip(i + 1));
                                }
                                let k = child.count_at(word, i + 1);
                                proof {
                                    assert(self.found_words_via(c as int, sp).len() == k);
                                    assert(total + k == self.found_words_range(sp, 0, c + 1).len());
                                }
                                total = total + k;
                            },
                            None => {
                                proof {
                                    assert(self.found_words_via(c as int, sp).len() == 0);
                                    assert(self.found_words_range(sp, 0, c + 1).len() == total);
                                }
                            },
                        }
                        c += 1;
                    }
                    proof {
                        assert(self.found_words(sp) == self.found_words_range(
                            sp,
                            0,
                            ALPHABET_SIZE as int,
                        ));
                    }
                    total
                },
            }
        }
    }
}

/// Sequences with the same multiset stay multiset-equal after mapping a
/// function over both.
pub proof fn lemma_map_values_multiset<A, B>(a: Seq<A>, b: Seq<A>, f: spec_fn(A) -> B)
    requires
        a.to_multiset() == b.to_multiset(),
    ensures
        a.map_values(f).to_multiset() == b.map_values(f).to_multiset(),
    decreases a.len(),
{
    broadcast use vstd::seq_lib::group_to_multiset_ensures;
    broadcast use vstd::multiset::group_multiset_axioms;

    if a.len() == 0 {
        assert(a.to_multiset().len() == a.len());
        assert(b.to_multiset().len() == b.len());
        assert(b.len() == 0);
        assert(a.map_values(f) =~= b.map_values(f));
    } else {
        let x = a.last();
        let a1 = a.drop_last();
        assert(a =~= a1.push(x));
        assert(a.to_multiset() == a1.to_multiset().insert(x));
        assert(a.to_multiset().count(x) > 0);
        assert(b.contains(x));
        let j = choose|j: int| 0 <= j < b.len() && b[j] == x;
        let b1 = b.remove(j);
        assert(b1.to_multiset() == b.to_multiset().remove(x));
        assert(a1.to_multiset() =~= a.to_multiset().remove(x)) by {
            assert(a1 =~= a.remove(a.len() - 1));
            assert(a.remove(a.len() - 1).to_multiset() =~= a.to_multiset().remove(x));
        }
        assert(a1.to_multiset() == b1.to_multiset());
        lemma_map_values_multiset(a1, b1, f);
        assert(a.map_values(f) =~= a1.map_values(f).push(f(x)));
        assert(a.map_values(f).to_multiset() == a1.map_values(f).to_multiset().insert(f(x)));
        assert(b1.map_values(f) =~= b.map_values(f).remove(j));
        assert(b.map_values(f).remove(j).to_multiset() =~= b.map_values(f).to_multiset().remove(
            f(x),
        )) by {
            assert(b.map_values(f)[j] == f(x));
        }
        assert(b.map_values(f).to_multiset().count(f(x)) > 0) by {
            assert(b.map_values(f)[j] == f(x));
            assert(b.map_values(f).contains(f(x)));
        }
        assert(b.map_values(f).to_multiset() =~= b.map_values(f).to_multiset().remove(f(x)).insert(
            f(x),
        ));
        assert(a.map_values(f).to_multiset() == b.map_values(f).to_multiset());
    }
}

/// Two word lists with equal multisets hold exactly the same words: the set
/// of answers of a randomized enumeration equals the set of answers of the
/// deterministic one, whatever order either came in.
pub proof fn lemma_multiset_eq_same_members<A>(a: Seq<A>, b: Seq<A>)
    requires
        a.to_multiset() == b.to_multiset(),
    ensures
        forall|x: A| a.contains(x) <==> b.contains(x),
{
    broadcast use vstd::seq_lib::group_to_multiset_ensures;

    assert forall|x: A| a.contains(x) <==> b.contains(x) by {
        assert(a.contains(x) <==> a.to_multiset().count(x) > 0);
        assert(b.contains(x) <==> b.to_multiset().count(x) > 0);
    }
}

/// Turns every word of the list into the same word with letter `c` in front.
fn prepend_letter(words: &mut Vec<Vec<usize>>, c: usize)
    ensures
        final(words)@.len() == old(words)@.len(),
        final(words).deep_view() == old(words).deep_view().map_values(
            |w: Seq<usize>| seq![c] + w,
        ),
{
    let ghost orig = *old(words);
    let n = words.len();
    let mut j: usize = 0;
    while j < n
        invariant
            n == orig@.len(),
            words@.len() == n,
            j <= n,
            forall|k: int| 0 <= k < j ==> words@[k]@ == seq![c] + orig@[k]@,
            forall|k: int| j <= k < n ==> words@[k] == orig@[k],
        decreases n - j,
    {
        words[j].insert(0, c);
        proof {
            assert(words@[j as int]@ =~= seq![c] + orig@[j as int]@);
        }
        j += 1;
    }
    proof {
        assert(words.deep_view() =~~= orig.deep_view().map_values(|w: Seq<usize>| seq![c] + w));
    }
}

impl Trie {
    /// Lists every stored word that fits the pattern, walking child edges in
    /// alphabet order.
    pub fn find(&self, word: &[Option<usize>]) -> (r: Vec<Vec<usize>>)
        requires
            self.wf(),
            forall|k: int|
                0 <= k < word@.len() ==> match #[trigger] word@[k] {
                    Some(c) => c < ALPHABET_SIZE,
                    None => true,
                },
        ensures
            r.deep_view() == self.found_words(word@),
    {
        proof {
            assert(word@.skip(0) =~= word@);
        }
        self.find_at(word, 0)
    }

    /// Lists the matches of the pattern suffix that starts at `i`.
    fn find_at(&self, word: &[Option<usize>], i: usize) -> (r: Vec<Vec<usize>>)
        requires
            self.wf(),
            i <= word@.len(),
            forall|k: int|
                0 <= k < word@.len() ==> match #[trigger] word@[k] {
                    Some(c) => c < ALPHABET_SIZE,
                    None => true,
                },
        ensures
            r.deep_view() == self.found_words(word@.skip(i as int)),
        decreases word@.len() - i,
    {
        let ghost sp = word@.skip(i as int);
        if i == word.len() {
            let mut r: Vec<Vec<usize>> = Vec::new();
            if self.end_of_word {
                r.push(Vec::new());
            }
            proof {
                assert(sp.len() == 0);
                if self.end_of_word {
                    assert(r.deep_view() =~~= seq![Seq::<usize>::empty()]);
                } else {
                    assert(r.deep_view() =~~= Seq::<Seq<usize>>::empty());
                }
            }
            r
        } else {
            proof {
                assert(sp.skip(1) =~= word@.skip(i + 1));
                assert(sp[0] == word@[i as int]);
            }
            match word[i] {
                Some(c) => {
                    match &self.children[c] {
                        Some(child) => {
                            let mut sub = child.find_at(word, i + 1);
                            prepend_letter(&mut sub, c);
                            proof {
                                assert(sub.deep_view() =~~= self.found_words(sp));
                            }
                            sub
                        },
                        None => {
                            let r: Vec<Vec<usize>> = Vec::new();
                            proof {
                                assert(r.deep_view() =~~= self.found_words(sp));
                            }
                            r
                        },
                    }
                },
                None => {
                    let mut result: Vec<Vec<usize>> = Vec::new();
                    let mut c: usize = 0;
                    proof {
                        assert(result.deep_view() =~~= self.found_words_range(sp, 0, 0));
                    }
                    while c < ALPHABET_SIZE
                        invariant
                            self.wf(),
                            i < word@.len(),
                            word@.len() <= usize::MAX,
                            forall|k: int|
                                0 <= k < word@.len() ==> match #[trigger] word@[k] {
                                    Some(x) => x < ALPHABET_SIZE,
                                    None => true,
                                },
                            sp == word@.skip(i as int),
                            sp.len() > 0,
                            sp[0] is None,
                            c <= ALPHABET_SIZE,
                            result.deep_view() == self.found_words_range(sp, 0, c as int),
                        decreases ALPHABET_SIZE - c,
                    {
                        let ghost before = result.deep_view();
                        match &self.children[c] {
                            Some(child) => {
                                proof {
                                    assert(sp.skip(1) =~= word@.skip(i + 1));
                                }
                                let mut sub = child.find_at(word, i + 1);
                                prepend_letter(&mut sub, c);
                                proof {
                                    assert(sub.deep_view() =~~= self.found_words_via(c as int, sp));
                                }
                                result.append(&mut sub);
                                proof {
                                    assert(result.deep_view() =~~= before + self.found_words_via(
                                        c as int,
                                        sp,
                                    ));
                                }
                            },
                            None => {
                                proof {
                                    assert(self.found_words_via(c as int, sp) =~= Seq::<
                                        Seq<usize>,
                                    >::empty());
                                    assert(result.deep_view() =~~= before + self.found_words_via(
                                        c as int,
                                        sp,
                                    ));
                                }
                            },
                        }
                        proof {
                            lemma_found_range_split(*self, sp, 0, c as int, c + 1);
                            assert(self.found_words_range(sp, c + 1, c + 1) =~= Seq::<
                                Seq<usize>,
                            >::empty());
                            assert(self.found_words_range(sp, c as int, c + 1)
                                == self.found_words_via(c as int, sp) + self.found_words_range(
                                sp,
                                c + 1,
                                c + 1,
                            ));
                            assert(self.found_words_range(sp, c as int, c + 1)
                                =~= self.found_words_via(c as int, sp));
                            assert(result.deep_view() == self.found_words_range(sp, 0, c + 1));
                        }
                        c += 1;
                    }
                    proof {
                        assert(self.found_words(sp) == self.found_words_range(
                            sp,
                            0,
                            ALPHABET_SIZE as int,
                        ));
                    }
                    result
                },
            }
        }
    }
}

impl Trie {
    /// Lists every stored word that fits the pattern, like [`Trie::find`],
    /// but at each wildcard position the child edges are visited starting
    /// from a random offset, wrapping around.  The same words come back,
    /// only their order depends on the generator.
    pub fn find_random(&self, word: &[Option<usize>], rng: &mut StdRng) -> (r: Vec<Vec<usize>>)
        requires
            self.wf(),
            forall|k: int|
                0 <= k < word@.len() ==> match #[trigger] word@[k] {
                    Some(c) => c < ALPHABET_SIZE,
                    None => true,
                },
        ensures
            r.deep_view().to_multiset() == self.found_words(word@).to_multiset(),
    {
        proof {
            assert(word@.skip(0) =~= word@);
        }
        self.find_random_at(word, 0, rng)
    }

    /// Randomized enumeration of the pattern suffix that starts at `i`.
    fn find_random_at(&self, word: &[Option<usize>], i: usize, rng: &mut StdRng) -> (r: Vec<
        Vec<usize>,
    >)
        requires
            self.wf(),
            i <= word@.len(),
            forall|k: int|
                0 <= k < word@.len() ==> match #[trigger] word@[k] {
                    Some(c) => c < ALPHABET_SIZE,
                    None => true,
                },
        ensures
            r.deep_view().to_multiset() == self.found_words(word@.skip(i as int)).to_multiset(),
        decreases word@.len() - i, 1int,
    {
        let ghost sp = word@.skip(i as int);
        if i == word.len() {
            let mut r: Vec<Vec<usize>> = Vec::new();
            if self.end_of_word {
                r.push(Vec::new());
            }
            proof {
                assert(sp.len() == 0);
                if self.end_of_word {
                    assert(r.deep_view() =~~= seq![Seq::<usize>::empty()]);
                } else {
                    assert(r.deep_view() =~~= Seq::<Seq<usize>>::empty());
                }
            }
            r
        } else {
            proof {
                assert(sp.skip(1) =~= word@.skip(i + 1));
                assert(sp[0] == word@[i as int]);
            }
            match word[i] {
                Some(c) => {
                    match &self.children[c] {
                        Some(child) => {
                            let mut sub = child.find_random_at(word, i + 1, rng);
                            proof {
                                lemma_map_values_multiset(
                                    sub.deep_view(),
                                    self.children@[c as int]->0.found_words(sp.skip(1)),
                                    |w: Seq<usize>| seq![c as usize] + w,
                                );
                            }
                            let ghost before_prepend = sub.deep_view();
                            prepend_letter(&mut sub, c);
                            proof {
                                assert(sub.deep_view() == before_prepend.map_values(
                                    |w: Seq<usize>| seq![c] + w,
                                ));
                                assert(self.found_words(sp) == self.found_words_via(c as int, sp));
                            }
                            sub
                        },
                        None => {
                            let r: Vec<Vec<usize>> = Vec::new();
                            proof {
                                assert(r.deep_view() =~~= self.found_words(sp));
                            }
                            r
                        },
                    }
                },
                None => {
                    let offset = rand_index_below(rng, ALPHABET_SIZE);
                    let mut result: Vec<Vec<usize>> = Vec::new();
                    let ghost off = offset as int;
                    let mut c: usize = offset;
                    proof {
                        assert(result.deep_view() =~~= Seq::<Seq<usize>>::empty());
                        assert(self.found_words_range(sp, off, off) =~= Seq::<Seq<usize>>::empty());
                    }
                    while c < ALPHABET_SIZE
                        invariant
                            self.wf(),
                            i < word@.len(),
                            word@.len() <= usize::MAX,
                            forall|k: int|
                                0 <= k < word@.len() ==> match #[trigger] word@[k] {
                                    Some(x) => x < ALPHABET_SIZE,
                                    None => true,
                                },
                            sp == word@.skip(i as int),
                            sp.len() > 0,
                            sp[0] is None,
                            off == offset,
                            0 <= off <= c <= ALPHABET_SIZE,
                            result.deep_view().to_multiset() == self.found_words_range(
                                sp,
                                off,
                                c as int,
                            ).to_multiset(),
                        decreases ALPHABET_SIZE - c,
                    {
                        self.collect_random_child(word, i, rng, c, &mut result);
                        proof {
                            lemma_found_range_one_more(*self, sp, off, c as int);
                        }
                        c += 1;
                    }
                    let mut c: usize = 0;
                    while c < offset
                        invariant
                            self.wf(),
                            i < word@.len(),
                            word@.len() <= usize::MAX,
                            forall|k: int|
                                0 <= k < word@.len() ==> match #[trigger] word@[k] {
                                    Some(x) => x < ALPHABET_SIZE,
                                    None => true,
                                },
                            sp == word@.skip(i as int),
                            sp.len() > 0,
                            sp[0] is None,
                            off == offset,
                            0 <= c <= off < ALPHABET_SIZE,
                            result.deep_view().to_multiset() == (self.found_words_range(
                                sp,
                                off,
                                ALPHABET_SIZE as int,
                            ) + self.found_words_range(sp, 0, c as int)).to_multiset(),
                        decreases offset - c,
                    {
                        self.collect_random_child(word, i, rng, c, &mut result);
                        proof {
                            lemma_found_range_one_more(*self, sp, 0, c as int);
                            let tail = self.found_words_range(sp, off, ALPHABET_SIZE as int);
                            let head_c = self.found_words_range(sp, 0, c as int);
                            let head_c1 = self.found_words_range(sp, 0, c + 1);
                            broadcast use vstd::seq_lib::lemma_multiset_commutative;

                            assert(head_c1.to_multiset() == head_c.to_multiset().add(
                                self.found_words_via(c as int, sp).to_multiset(),
                            ));
                            assert((tail + head_c1).to_multiset() == (tail + head_c).to_multiset()
                                .add(self.found_words_via(c as int, sp).to_multiset()));
                        }
                        c += 1;
                    }
                    proof {
                        lemma_found_range_split(*self, sp, 0, off, ALPHABET_SIZE as int);
                        broadcast use vstd::seq_lib::lemma_multiset_commutative;

                        let head = self.found_words_range(sp, 0, off);
                        let tail = self.found_words_range(sp, off, ALPHABET_SIZE as int);
                        assert(self.found_words(sp) == head + tail);
                        vstd::seq_lib::lemma_seq_union_to_multiset_commutative(head, tail);
                    }
                    result
                },
            }
        }
    }

    /// One step of the randomized wildcard walk: appends the matches that
    /// continue through child `c` to `result`, in randomized child order.
    fn collect_random_child(
        &self,
        word: &[Option<usize>],
        i: usize,
        rng: &mut StdRng,
        c: usize,
        result: &mut Vec<Vec<usize>>,
    )
        requires
            self.wf(),
            i < word@.len(),
            word@.len() <= usize::MAX,
            c < ALPHABET_SIZE,
            forall|k: int|
                0 <= k < word@.len() ==> match #[trigger] word@[k] {
                    Some(x) => x < ALPHABET_SIZE,
                    None => true,
                },
        ensures
            final(result).deep_view().to_multiset() == old(result).deep_view().to_multiset().add(
                self.found_words_via(c as int, word@.skip(i as int)).to_multiset(),
            ),
        decreases word@.len() - i, 0int,
    {
        let ghost sp = word@.skip(i as int);
        proof {
            assert(sp.skip(1) =~= word@.skip(i + 1));
        }
        broadcast use vstd::seq_lib::lemma_multiset_commutative;

        match &self.children[c] {
            Some(child) => {
                let mut sub = child.find_random_at(word, i + 1, rng);
                proof {
                    lemma_map_values_multiset(
                        sub.deep_view(),
                        self.children@[c as int]->0.found_words(sp.skip(1)),
                        |w: Seq<usize>| seq![c as usize] + w,
                    );
                }
                let ghost before_prepend = sub.deep_view();
                prepend_letter(&mut sub, c);
                let ghost old_deep = result.deep_view();
                proof {
                    assert(sub.deep_view() == before_prepend.map_values(
                        |w: Seq<usize>| seq![c] + w,
                    ));
                    assert(sub.deep_view().to_multiset() == self.found_words_via(
                        c as int,
                        sp,
                    ).to_multiset());
                }
                let ghost sub_deep = sub.deep_view();
                result.append(&mut sub);
                proof {
                    assert(result.deep_view() =~~= old_deep + sub_deep);
                }
            },
            None => {
                proof {
                    broadcast use vstd::seq_lib::group_to_multiset_ensures;
                    broadcast use vstd::multiset::group_multiset_axioms;

                    let e = Seq::<Seq<usize>>::empty();
                    assert(self.found_words_via(c as int, sp) =~= e);
                    assert forall|x: Seq<usize>| e.to_multiset().count(x) == 0 by {
                        assert(!e.contains(x));
                    }
                    assert(result.deep_view().to_multiset() =~= result.deep_view().to_multiset()
                        .add(e.to_multiset()));
                }
            },
        }
    }
}

/// Extending a wildcard range by one child appends that child's matches.
proof fn lemma_found_range_one_more(t: Trie, p: Seq<Option<usize>>, lo: int, c: int)
    requires
        lo <= c,
    ensures
        t.found_words_range(p, lo, c + 1).to_multiset() == t.found_words_range(
            p,
            lo,
            c,
        ).to_multiset().add(t.found_words_via(c, p).to_multiset()),
{
    broadcast use vstd::seq_lib::lemma_multiset_commutative;

    lemma_found_range_split(t, p, lo, c, c + 1);
    assert(t.found_words_range(p, c + 1, c + 1) =~= Seq::<Seq<usize>>::empty());
    assert(t.found_words_range(p, c, c + 1) =~= t.found_words_via(c, p));
}

impl Trie {
    /// Picks one stored word that fits the pattern, chosen by walking child
    /// edges from random offsets; returns `None` exactly when no stored word
    /// fits the pattern.
    pub fn find_one_random(&self, word: &[Option<usize>], rng: &mut StdRng) -> (r: Option<
        Vec<usize>,
    >)
        requires
            self.wf(),
            forall|k: int|
                0 <= k < word@.len() ==> match #[trigger] word@[k] {
                    Some(c) => c < ALPHABET_SIZE,
                    None => true,
                },
        ensures
            match r {
                Some(w) => self.contains_word(w@) && pattern_matches(word@, w@),
                None => self.found_words(word@).len() == 0,
            },
    {
        proof {
            assert(word@.skip(0) =~= word@);
        }
        self.find_one_at(word, 0, rng)
    }

    /// Randomized pick among the matches of the pattern suffix at `i`.
    fn find_one_at(&self, word: &[Option<usize>], i: usize, rng: &mut StdRng) -> (r: Option<
        Vec<usize>,
    >)
        requires
            self.wf(),
            i <= word@.len(),
            forall|k: int|
                0 <= k < word@.len() ==> match #[trigger] word@[k] {
                    Some(c) => c < ALPHABET_SIZE,
                    None => true,
                },
        ensures
            match r {
                Some(w) => self.contains_word(w@) && pattern_matches(word@.skip(i as int), w@),
                None => self.found_words(word@.skip(i as int)).len() == 0,
            },
        decreases word@.len() - i, 1int,
    {
        let ghost sp = word@.skip(i as int);
        if i == word.len() {
            proof {
                assert(sp.len() == 0);
            }
            if self.end_of_word {
                let w: Vec<usize> = Vec::new();
                proof {
                    assert(w@ =~= Seq::<usize>::empty());
                }
                Some(w)
            } else {
                None
            }
        } else {
            proof {
                assert(sp.skip(1) =~= word@.skip(i + 1));
                assert(sp[0] == word@[i as int]);
            }
            match word[i] {
                Some(c) => {
                    match &self.children[c] {
                        Some(child) => {
                            let sub = child.find_one_at(word, i + 1, rng);
                            match sub {
                                Some(mut w) => {
                                    let ghost wv = w@;
                                    w.insert(0, c);
                                    proof {
                                        assert(w@ =~= seq![c] + wv);
                                        lemma_prefixed_match(*self, sp, c as int, wv);
                                    }
                                    Some(w)
                                },
                                None => {
                                    proof {
                                        assert(self.found_words(sp) == self.found_words_via(
                                            c as int,
                                            sp,
                                        ));
                                    }
                                    None
                                },
                            }
                        },
                        None => {
                            proof {
                                assert(self.found_words(sp).len() == 0);
                            }
                            None
                        },
                    }
                },
                None => {
                    let offset = rand_index_below(rng, ALPHABET_SIZE);
                    let ghost off = offset as int;
                    let mut c: usize = offset;
                    while c < ALPHABET_SIZE
                        invariant
                            self.wf(),
                            i < word@.len(),
                            word@.len() <= usize::MAX,
                            forall|k: int|
                                0 <= k < word@.len() ==> match #[trigger] word@[k] {
                                    Some(x) => x < ALPHABET_SIZE,
                                    None => true,
                                },
                            sp == word@.skip(i as int),
                            sp.len() > 0,
                            sp[0] is None,
                            off == offset,
                            0 <= off <= c <= ALPHABET_SIZE,
                            self.found_words_range(sp, off, c as int).len() == 0,
                        decreases ALPHABET_SIZE - c,
                    {
                        let picked = self.pick_random_child(word, i, rng, c);
                        if let Some(w) = picked {
                            return Some(w);
                        }
                        proof {
                            lemma_found_range_split(*self, sp, off, c as int, c + 1);
                            assert(self.found_words_range(sp, c + 1, c + 1) =~= Seq::<
                                Seq<usize>,
                            >::empty());
                            assert(self.found_words_range(sp, c as int, c + 1).len()
                                == self.found_words_via(c as int, sp).len());
                        }
                        c += 1;
                    }
                    let mut c: usize = 0;
                    while c < offset
                        invariant
                            self.wf(),
                            i < word@.len(),
                            word@.len() <= usize::MAX,
                            forall|k: int|
                                0 <= k < word@.len() ==> match #[trigger] word@[k] {
                                    Some(x) => x < ALPHABET_SIZE,
                                    None => true,
                                },
                            sp == word@.skip(i as int),
                            sp.len() > 0,
                            sp[0] is None,
                            off == offset,
                            0 <= c <= off < ALPHABET_SIZE,
                            self.found_words_range(sp, off, ALPHABET_SIZE as int).len() == 0,
                            self.found_words_range(sp, 0, c as int).len() == 0,
                        decreases offset - c,
                    {
                        let picked = self.pick_random_child(word, i, rng, c);
                        if let Some(w) = picked {
                            return Some(w);
                        }
                        proof {
                            lemma_found_range_split(*self, sp, 0, c as int, c + 1);
                            assert(self.found_words_range(sp, c + 1, c + 1) =~= Seq::<
                                Seq<usize>,
                            >::empty());
                            assert(self.found_words_range(sp, c as int, c + 1).len()
                                == self.found_words_via(c as int, sp).len());
                        }
                        c += 1;
                    }
                    proof {
                        lemma_found_range_split(*self, sp, 0, off, ALPHABET_SIZE as int);
                        assert(self.found_words(sp) == self.found_words_range(
                            sp,
                            0,
                            ALPHABET_SIZE as int,
                        ));
                    }
                    None
                },
            }
        }
    }

    /// One step of the randomized pick: a match through child `c`, if any.
    fn pick_random_child(&self, word: &[Option<usize>], i: usize, rng: &mut StdRng, c: usize) -> (r:
        Option<Vec<usize>>)
        requires
            self.wf(),
            i < word@.len(),
            word@.len() <= usize::MAX,
            c < ALPHABET_SIZE,
            forall|k: int|
                0 <= k < word@.len() ==> match #[trigger] word@[k] {
                    Some(x) => x < ALPHABET_SIZE,
                    None => true,
                },
        ensures
            match r {
                Some(w) => self.contains_word(w@) && pattern_matches(word@.skip(i as int), w@)
                    && word@.skip(i as int)[0] is None,
                None => self.found_words_via(c as int, word@.skip(i as int)).len() == 0
                    || !(word@.skip(i as int)[0] is None),
            },
        decreases word@.len() - i, 0int,
    {
        let ghost sp = word@.skip(i as int);
        proof {
            assert(sp.skip(1) =~= word@.skip(i + 1));
        }
        if !matches!(word[i], None) {
            return None;
        }
        match &self.children[c] {
            Some(child) => {
                let sub = child.find_one_at(word, i + 1, rng);
                match sub {
                    Some(mut w) => {
                        let ghost wv = w@;
                        w.insert(0, c);
                        proof {
                            assert(w@ =~= seq![c] + wv);
                            lemma_prefixed_match(*self, sp, c as int, wv);
                        }
                        Some(w)
                    },
                    None => None,
                }
            },
            None => None,
        }
    }
}

/// A match of the pattern tail below child `c`, prefixed with `c`, is a
/// stored word of the parent that fits the whole pattern.
proof fn lemma_prefixed_match(t: Trie, p: Seq<Option<usize>>, c: int, v: Seq<usize>)
    requires
        t.wf(),
        0 <= c < ALPHABET_SIZE,
        p.len() > 0,
        match p[0] {
            Some(x) => x == c,
            None => true,
        },
        t.children@[c] is Some,
        t.children@[c]->0.contains_word(v),
        pattern_matches(p.skip(1), v),
    ensures
        t.contains_word(seq![c as usize] + v),
        pattern_matches(p, seq![c as usize] + v),
{
    let w = seq![c as usize] + v;
    assert(w[0] == c);
    assert(w.skip(1) =~= v);
    assert(t.contains_word(w));
    assert forall|k: int| 0 <= k < p.len() implies match #[trigger] p[k] {
        Some(x) => w[k] == x,
        None => true,
    } by {
        if k > 0 {
            assert(p.skip(1)[k - 1] == p[k]);
            assert(v[k - 1] == w[k]);
        }
    }
}

} // verus!
