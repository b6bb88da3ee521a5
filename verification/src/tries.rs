//! An earlier take on the trie in which every node carries its own
//! character. It stores the same words as `trie::Node`; the one visible
//! difference is that `take_next` spells each word starting with the node's
//! own character. Kept alongside the newer module for its callers.

use vstd::prelude::*;

use crate::trie;
use crate::trie::{in_list, lex_lt, starts_with};

verus! {

/// A node that remembers the character of the edge that leads to it (`None`
/// at the root), plus the words stored beneath it.
pub struct Node {
    pub value: Option<char>,
    pub words: trie::Node,
}

impl Node {
    /// The characters this node itself contributes to what `take_next`
    /// spells: its own character, if it has one.
    pub open spec fn value_seq(self) -> Seq<char> {
        match self.value {
            Some(c) => seq![c],
            None => Seq::<char>::empty(),
        }
    }

    /// Well-formed: the underlying word store is.
    pub open spec fn wf(self) -> bool {
        self.words.wf()
    }

    /// The membership predicate: the value character plays no part in it.
    pub open spec fn contains_word(self, w: Seq<char>) -> bool {
        self.words.contains_word(w)
    }

    /// A fresh node holding no words.
    pub fn new(value: Option<char>) -> (r: Node)
        ensures
            r.wf(),
            forall|w: Seq<char>| !r.contains_word(w),
            r.value == value,
    {
        Node { value, words: trie::Node::new() }
    }

    /// Insert `word`: afterwards the node holds exactly the words it held
    /// before, plus `word`.
    pub fn insert(&mut self, word: &str)
        requires
            old(self).wf(),
        ensures
            final(self).wf(),
            final(self).value == old(self).value,
            forall|w: Seq<char>|
                final(self).contains_word(w) <==> (old(self).contains_word(w) || w == word@),
    {
        self.words.insert(word);
    }

    /// Whether `word` is stored.
    pub fn has(&self, word: &str) -> (r: bool)
        requires
            self.wf(),
        ensures
            r == self.contains_word(word@),
    {
        self.words.has_word(word)
    }

    /// The first `n` stored words in ascending lexicographic order, each
    /// spelled with this node's own character in front.
    pub fn take_next(&self, n: usize) -> (r: Vec<String>)
        requires
            self.wf(),
        ensures
            r@.len() <= n,
            forall|k: int|
                0 <= k < r@.len() ==> starts_with((#[trigger] r@[k])@, self.value_seq())
                    && self.contains_word(r@[k]@.skip(self.value_seq().len() as int)),
            forall|k: int, l: int|
                0 <= k < l < r@.len() ==> lex_lt((#[trigger] r@[k])@, (#[trigger] r@[l])@),
            forall|u: Seq<char>|
                r@.len() < n && #[trigger] self.contains_word(u) ==> in_list(
                    r@,
                    self.value_seq() + u,
                ),
            forall|u: Seq<char>, k: int|
                #[trigger] self.contains_word(u) && !in_list(r@, self.value_seq() + u) && 0 <= k
                    < r@.len() ==> lex_lt((#[trigger] r@[k])@, self.value_seq() + u),
    {
        let ghost v = self.value_seq();
        let suffixes = self.words.take_next(n);
        let mut r: Vec<String> = Vec::new();
        let mut k: usize = 0;
        while k < suffixes.len()
            invariant
                v == self.value_seq(),
                k <= suffixes@.len(),
                r@.len() == k,
                forall|t: int| 0 <= t < k ==> (#[trigger] r@[t])@ == v + suffixes@[t]@,
            decreases suffixes@.len() - k,
        {
            let mut full = String::new();
            match self.value {
                Some(c) => {
                    trie::push_char(&mut full, c);
                    proof {
                        assert(full@ =~= v);
                    }
                },
                None => {
                    proof {
                        assert(full@ =~= v);
                    }
                },
            }
            full.append(suffixes[k].as_str());
            r.push(full);
            k += 1;
        }
        proof {
            assert forall|t: int|
                0 <= t < r@.len() implies starts_with((#[trigger] r@[t])@, v)
                    && self.contains_word(r@[t]@.skip(v.len() as int)) by {
                let st = suffixes@[t]@;
                assert((v + st).subrange(0, v.len() as int) =~= v);
                assert((v + st).skip(v.len() as int) =~= st);
            }
            assert forall|t: int, l: int|
                0 <= t < l < r@.len() implies lex_lt((#[trigger] r@[t])@, (#[trigger] r@[l])@) by {
                trie::lemma_lex_append_mono(v, suffixes@[t]@, suffixes@[l]@);
            }
            assert forall|u: Seq<char>|
                r@.len() < n && #[trigger] self.contains_word(u) implies in_list(r@, v + u) by {
                assert(in_list(suffixes@, u));
                let t = choose|t: int| 0 <= t < suffixes@.len() && suffixes@[t]@ == u;
                assert(r@[t]@ == v + u);
            }
            assert forall|u: Seq<char>, t: int|
                #[trigger] self.contains_word(u) && !in_list(r@, v + u) && 0 <= t
                    < r@.len() implies lex_lt((#[trigger] r@[t])@, v + u) by {
                if in_list(suffixes@, u) {
                    let m = choose|m: int| 0 <= m < suffixes@.len() && suffixes@[m]@ == u;
                    assert(r@[m]@ == v + u);
                    assert(false);
                }
                assert(lex_lt(suffixes@[t]@, u));
                trie::lemma_lex_append_mono(v, suffixes@[t]@, u);
            }
        }
        r
    }

    /// The first `n` stored words that start with `query`, in ascending
    /// lexicographic order, each returned in full.
    pub fn autocomplete(&self, query: &str, n: usize) -> (r: Vec<String>)
        requires
            self.wf(),
        ensures
            r@.len() <= n,
            forall|k: int|
                0 <= k < r@.len() ==> starts_with((#[trigger] r@[k])@, query@)
                    && self.contains_word(r@[k]@),
            forall|k: int, l: int|
                0 <= k < l < r@.len() ==> lex_lt((#[trigger] r@[k])@, (#[trigger] r@[l])@),
            forall|k: int, l: int|
                0 <= k < l < r@.len() ==> (#[trigger] r@[k])@ != (#[trigger] r@[l])@,
            forall|u: Seq<char>|
                r@.len() < n && starts_with(u, query@) && #[trigger] self.contains_word(u)
                    ==> in_list(r@, u),
            forall|u: Seq<char>, k: int|
                starts_with(u, query@) && #[trigger] self.contains_word(u) && !in_list(r@, u) && 0
                    <= k < r@.len() ==> lex_lt((#[trigger] r@[k])@, u),
    {
        self.words.autocomplete(query, n)
    }
}

} // verus!
