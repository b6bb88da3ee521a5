//! A trie (prefix tree) over characters: insertion, exact lookup, prefix
//! lookup, and bounded enumeration of the stored words in lexicographic
//! order.

use vstd::prelude::*;

verus! {

/// Strict lexicographic order on character sequences: `a` comes before `b`
/// iff `a` is a proper prefix of `b`, or at the first differing position the
/// character of `a` is the smaller one.
pub open spec fn lex_lt(a: Seq<char>, b: Seq<char>) -> bool
    decreases a.len(),
{
    if b.len() == 0 {
        false
    } else if a.len() == 0 {
        true
    } else if a[0] != b[0] {
        a[0] < b[0]
    } else {
        lex_lt(a.skip(1), b.skip(1))
    }
}

/// `u` starts with `p`.
pub open spec fn starts_with(u: Seq<char>, p: Seq<char>) -> bool {
    p.len() <= u.len() && u.subrange(0, p.len() as int) == p
}

/// `u` occurs among the strings of `s`.
pub open spec fn in_list(s: Seq<String>, u: Seq<char>) -> bool {
    exists|k: int| 0 <= k < s.len() && s[k]@ == u
}

/// The order is irreflexive: related sequences are different.
pub proof fn lemma_lex_lt_ne(a: Seq<char>, b: Seq<char>)
    requires
        lex_lt(a, b),
    ensures
        a != b,
    decreases a.len(),
{
    if b.len() == 0 {
    } else if a.len() == 0 {
        assert(a.len() != b.len());
    } else if a[0] != b[0] {
        assert(a != b);
    } else {
        lemma_lex_lt_ne(a.skip(1), b.skip(1));
        if a == b {
            assert(a.skip(1) == b.skip(1));
        }
    }
}

/// The order is transitive.
pub proof fn lemma_lex_trans(a: Seq<char>, b: Seq<char>, c: Seq<char>)
    requires
        lex_lt(a, b),
        lex_lt(b, c),
    ensures
        lex_lt(a, c),
    decreases a.len(),
{
    if c.len() == 0 {
    } else if a.len() == 0 {
    } else {
        assert(b.len() > 0);
        if a[0] == b[0] && b[0] == c[0] {
            lemma_lex_trans(a.skip(1), b.skip(1), c.skip(1));
        }
    }
}

/// Every sequence comes before its proper extensions.
pub proof fn lemma_lex_prefix(p: Seq<char>, s: Seq<char>)
    requires
        s.len() > 0,
    ensures
        lex_lt(p, p + s),
    decreases p.len(),
{
    if p.len() == 0 {
        assert(p + s =~= s);
    } else {
        assert((p + s)[0] == p[0]);
        assert((p + s).skip(1) =~= p.skip(1) + s);
        lemma_lex_prefix(p.skip(1), s);
    }
}

/// Two extensions of a common stem compare by the first characters that
/// follow the stem.
pub proof fn lemma_lex_mid(p: Seq<char>, c: char, d: char, s: Seq<char>, t: Seq<char>)
    requires
        c < d,
    ensures
        lex_lt(p + seq![c] + s, p + seq![d] + t),
    decreases p.len(),
{
    let a = p + seq![c] + s;
    let b = p + seq![d] + t;
    if p.len() == 0 {
        assert(a[0] == c && b[0] == d);
    } else {
        assert(a[0] == p[0] && b[0] == p[0]);
        assert(a.skip(1) =~= p.skip(1) + seq![c] + s);
        assert(b.skip(1) =~= p.skip(1) + seq![d] + t);
        lemma_lex_mid(p.skip(1), c, d, s, t);
    }
}

/// Prepending a common stem preserves the order.
pub proof fn lemma_lex_append_mono(p: Seq<char>, a: Seq<char>, b: Seq<char>)
    requires
        lex_lt(a, b),
    ensures
        lex_lt(p + a, p + b),
    decreases p.len(),
{
    if p.len() == 0 {
        assert(p + a =~= a);
        assert(p + b =~= b);
    } else {
        assert((p + a)[0] == p[0] && (p + b)[0] == p[0]);
        assert((p + a).skip(1) =~= p.skip(1) + a);
        assert((p + b).skip(1) =~= p.skip(1) + b);
        lemma_lex_append_mono(p.skip(1), a, b);
    }
}

/// Whatever comes before a stem comes before every extension of the stem.
pub proof fn lemma_lex_lt_extend(e: Seq<char>, p: Seq<char>, u: Seq<char>)
    requires
        lex_lt(e, p),
        starts_with(u, p),
    ensures
        lex_lt(e, u),
{
    if u.len() == p.len() {
        assert(u =~= p);
    } else {
        assert(u =~= p + u.skip(p.len() as int));
        lemma_lex_prefix(p, u.skip(p.len() as int));
        lemma_lex_trans(e, p, u);
    }
}

/// Relies on String::push: appends the given character to the end of the
/// string, changing nothing else.
#[verifier::external_body]
pub(crate) fn push_char(s: &mut String, c: char)
    ensures
        final(s)@ == old(s)@.push(c),
{
    s.push(c);
}

/// Law: membership round-trips through insertion. The hypothesis is the
/// membership change `insert` guarantees; afterwards the inserted word is
/// held, and every other string is held exactly as before — so `has_word`,
/// which returns membership itself, answers true for the inserted word and
/// is unchanged on all others.
pub proof fn lemma_round_trip_membership(t0: Node, t1: Node, w: Seq<char>, v: Seq<char>)
    requires
        forall|u: Seq<char>| t1.contains_word(u) <==> (t0.contains_word(u) || u == w),
    ensures
        t1.contains_word(w),
        v != w ==> (t1.contains_word(v) <==> t0.contains_word(v)),
{
}

/// Law: inserting a word a second time changes nothing. The two hypotheses
/// are the membership changes `insert` guarantees for two successive
/// insertions of the same word; the held word set after the second one is
/// the set after the first.
pub proof fn lemma_duplicate_insert_same_words(t0: Node, t1: Node, t2: Node, w: Seq<char>)
    requires
        forall|u: Seq<char>| t1.contains_word(u) <==> (t0.contains_word(u) || u == w),
        forall|u: Seq<char>| t2.contains_word(u) <==> (t1.contains_word(u) || u == w),
    ensures
        forall|u: Seq<char>| t2.contains_word(u) <==> t1.contains_word(u),
{
    assert forall|u: Seq<char>| t2.contains_word(u) <==> t1.contains_word(u) by {
        assert(t1.contains_word(u) <==> (t0.contains_word(u) || u == w));
        assert(t2.contains_word(u) <==> (t1.contains_word(u) || u == w));
    }
}

/// One trie node. The root represents the empty prefix; each child edge is
/// labelled with one character. `children` is kept sorted by its character
/// keys, and no two children share a key.
pub struct Node {
    pub is_word: bool,
    pub children: Vec<(char, Node)>,
}

impl Node {
    /// Well-formed: child keys strictly ascending (hence distinct), and every
    /// child well-formed in turn.
    pub open spec fn wf(self) -> bool
        decreases self,
    {
        &&& (forall|i: int, j: int|
            0 <= i < j < self.children@.len() ==> (#[trigger] self.children@[i]).0
                < (#[trigger] self.children@[j]).0)
        &&& (forall|i: int|
            0 <= i < self.children@.len() ==> (#[trigger] self.children@[i]).1.wf())
    }

    /// The set of words this subtree holds, as a membership predicate: `w` is
    /// held iff walking its characters from this node ends on a node marked
    /// `is_word`.
    pub open spec fn contains_word(self, w: Seq<char>) -> bool
        decreases self, w.len(),
    {
        if w.len() == 0 {
            self.is_word
        } else {
            exists|i: int|
                0 <= i < self.children@.len() && (#[trigger] self.children@[i]).0 == w[0]
                    && self.children@[i].1.contains_word(w.skip(1))
        }
    }

    /// No dead branches: every child subtree holds at least one word.
    /// Tries built by `new` and `insert` alone always satisfy this, and on
    /// such tries `find_node` answers `Some` exactly for the stored words'
    /// prefixes.
    pub open spec fn pruned(self) -> bool
        decreases self,
    {
        forall|i: int|
            0 <= i < self.children@.len() ==> ((#[trigger] self.children@[i]).1.pruned()
                && exists|w: Seq<char>| self.children@[i].1.contains_word(w))
    }

    /// A fresh node: not a word boundary, no children, so it holds no words.
    pub fn new() -> (r: Node)
        ensures
            r.wf(),
            r.pruned(),
            forall|w: Seq<char>| !r.contains_word(w),
            !r.is_word,
            r.children@.len() == 0,
    {
        Node { is_word: false, children: Vec::new() }
    }

    /// Whether this node itself ends a stored word.
    pub fn is_word(&self) -> (r: bool)
        ensures
            r == self.contains_word(Seq::<char>::empty()),
    {
        proof {
            assert(Seq::<char>::empty().len() == 0);
        }
        self.is_word
    }

    /// Membership of a non-empty word looks only at the children, never at
    /// this node's own `is_word` flag.
    proof fn lemma_same_children_same_words(self, other: Node, w: Seq<char>)
        requires
            self.children@ == other.children@,
            w.len() > 0,
        ensures
            self.contains_word(w) == other.contains_word(w),
    {
        if self.contains_word(w) {
            let k = choose|k: int|
                0 <= k < self.children@.len() && (#[trigger] self.children@[k]).0 == w[0]
                    && self.children@[k].1.contains_word(w.skip(1));
            assert(other.children@[k].0 == w[0] && other.children@[k].1.contains_word(w.skip(1)));
        }
        if other.contains_word(w) {
            let k = choose|k: int|
                0 <= k < other.children@.len() && (#[trigger] other.children@[k]).0 == w[0]
                    && other.children@[k].1.contains_word(w.skip(1));
            assert(self.children@[k].0 == w[0] && self.children@[k].1.contains_word(w.skip(1)));
        }
    }

    /// Folding the definition: a node each of whose children is pruned and
    /// holds a word is itself pruned.
    proof fn lemma_pruned_from_parts(self)
        requires
            forall|p: int|
                0 <= p < self.children@.len() ==> ((#[trigger] self.children@[p]).1.pruned()
                    && exists|w: Seq<char>| self.children@[p].1.contains_word(w)),
        ensures
            self.pruned(),
    {
    }

    /// Prunedness, like membership of non-empty words, looks only at the
    /// children.
    proof fn lemma_same_children_same_pruned(self, other: Node)
        requires
            self.children@ == other.children@,
            other.pruned(),
        ensures
            self.pruned(),
    {
        assert forall|p: int|
            0 <= p < self.children@.len() implies ((#[trigger] self.children@[p]).1.pruned()
                && exists|w: Seq<char>| self.children@[p].1.contains_word(w)) by {
            assert(other.children@[p].1.pruned());
            let w0 = choose|w: Seq<char>| other.children@[p].1.contains_word(w);
            assert(self.children@[p].1.contains_word(w0));
        }
    }

    /// In a well-formed node the child keys are distinct, so at most one
    /// index can carry a given key.
    proof fn lemma_child_unique(self, i: int, j: int)
        requires
            self.wf(),
            0 <= i < self.children@.len(),
            0 <= j < self.children@.len(),
            self.children@[i].0 == self.children@[j].0,
        ensures
            i == j,
    {
        if i < j {
            assert(self.children@[i].0 < self.children@[j].0);
        } else if j < i {
            assert(self.children@[j].0 < self.children@[i].0);
        }
    }

    /// The insertion point for key `c`: everything before it is smaller,
    /// everything from it on is at least `c`.
    fn find_child_pos(&self, c: char) -> (j: usize)
        requires
            self.wf(),
        ensures
            j <= self.children@.len(),
            forall|k: int| 0 <= k < j ==> (#[trigger] self.children@[k]).0 < c,
            forall|k: int|
                j <= k < self.children@.len() ==> c <= (#[trigger] self.children@[k]).0,
    {
        let mut j: usize = 0;
        while j < self.children.len()
            invariant
                j <= self.children@.len(),
                forall|k: int| 0 <= k < j ==> (#[trigger] self.children@[k]).0 < c,
                self.wf(),
            decreases self.children@.len() - j,
        {
            if c <= self.children[j].0 {
                return j;
            }
            j += 1;
        }
        j
    }

    /// Insert `word`: afterwards the trie holds exactly the words it held
    /// before, plus `word`.
    pub fn insert(&mut self, word: &str)
        requires
            old(self).wf(),
        ensures
            final(self).wf(),
            old(self).pruned() ==> final(self).pruned(),
            forall|w: Seq<char>|
                final(self).contains_word(w) <==> (old(self).contains_word(w) || w == word@),
    {
        self.insert_at(word, 0);
        proof {
            assert(word@.skip(0) =~= word@);
        }
    }

    /// Insert the suffix of `word` that starts at character `i`.
    fn insert_at(&mut self, word: &str, i: usize)
        requires
            old(self).wf(),
            i <= word@.len(),
        ensures
            final(self).wf(),
            old(self).pruned() ==> final(self).pruned(),
            forall|w: Seq<char>|
                final(self).contains_word(w) <==> (old(self).contains_word(w) || w == word@.skip(
                    i as int,
                )),
        decreases word@.len() - i as int,
    {
        let ghost suffix = word@.skip(i as int);
        if i == word.unicode_len() {
            self.is_word = true;
            proof {
                assert(old(self).pruned() ==> self.pruned()) by {
                    if old(self).pruned() {
                        self.lemma_same_children_same_pruned(*old(self));
                    }
                }
                assert(suffix.len() == 0);
                assert(suffix =~= Seq::<char>::empty());
                assert forall|w: Seq<char>|
                    self.contains_word(w) <==> (old(self).contains_word(w) || w
                        == suffix) by {
                    if w.len() == 0 {
                        assert(w =~= suffix);
                    } else {
                        assert(w != suffix);
                        self.lemma_same_children_same_words(*old(self), w);
                    }
                }
            }
        } else {
            let c = word.get_char(i);
            proof {
                assert(suffix[0] == word@[i as int]);
                assert(suffix.len() > 0);
            }
            let j = self.find_child_pos(c);
            let is_present = j < self.children.len() && self.children[j].0 == c;
            if !is_present {
                self.children.insert(j, (c, Node::new()));
            }
            let ghost mid = *self;
            proof {
                if is_present {
                    assert(mid == *old(self));
                } else {
                    assert(mid.children@ == old(self).children@.insert(j as int, (
                        c,
                        mid.children@[j as int].1,
                    )));
                }
                // in both cases `mid` is well-formed and holds the same words
                assert(mid.wf()) by {
                    if !is_present {
                        assert forall|p: int, q: int|
                            0 <= p < q < mid.children@.len() implies (
                        #[trigger] mid.children@[p]).0 < (#[trigger] mid.children@[q]).0 by {
                            let jj = j as int;
                            if p < jj && q == jj {
                                assert(old(self).children@[p].0 < c);
                            } else if p == jj && q > jj {
                                assert(c <= old(self).children@[q - 1].0);
                                assert(c != old(self).children@[q - 1].0);
                            } else if p < jj && q > jj {
                                assert(old(self).children@[p].0 < old(self).children@[q - 1].0);
                            } else if p > jj && q > jj {
                                assert(old(self).children@[p - 1].0 < old(self).children@[q
                                    - 1].0);
                            }
                        }
                    }
                }
                assert(forall|w: Seq<char>|
                    mid.contains_word(w) == old(self).contains_word(w)) by {
                    if !is_present {
                        assert forall|w: Seq<char>|
                            mid.contains_word(w) == old(self).contains_word(w) by {
                            mid.lemma_insert_empty_child_same_words(*old(self), j as int, c, w);
                        }
                    }
                }
                assert(mid.children@[j as int].0 == c);
            }
            // recurse into the child at j
            let mut entry = self.children.remove(j);
            entry.1.insert_at(word, i + 1);
            let ghost newchild = entry.1;
            self.children.insert(j, entry);
            proof {
                assert(self.children@ =~= mid.children@.update(j as int, (c, newchild)));
                let jj = j as int;
                assert(self.wf()) by {
                    assert forall|p: int|
                        0 <= p < self.children@.len() implies (
                    #[trigger] self.children@[p]).1.wf() by {
                        if p != jj {
                            assert(self.children@[p] == mid.children@[p]);
                        }
                    }
                    assert forall|p: int, q: int|
                        0 <= p < q < self.children@.len() implies (
                    #[trigger] self.children@[p]).0 < (#[trigger] self.children@[q]).0 by {
                        assert(self.children@[p].0 == mid.children@[p].0);
                        assert(self.children@[q].0 == mid.children@[q].0);
                    }
                }
                assert(word@.skip(i as int + 1) =~= suffix.skip(1));
                assert forall|w: Seq<char>|
                    self.contains_word(w) <==> (old(self).contains_word(w) || w == suffix) by {
                    self.lemma_update_child_words(mid, jj, c, newchild, suffix, w);
                    assert(mid.contains_word(w) == old(self).contains_word(w));
                }
                if old(self).pruned() {
                        assert(mid.children@[jj].1.pruned()) by {
                            if is_present {
                                assert(old(self).children@[jj].1.pruned());
                            }
                        }
                        assert(newchild.pruned());
                        assert(newchild.contains_word(suffix.skip(1))) by {
                            assert(suffix.skip(1) == word@.skip(i as int + 1));
                        }
                        assert forall|p: int|
                            0 <= p < self.children@.len() implies ((
                        #[trigger] self.children@[p]).1.pruned() && exists|w: Seq<char>|
                            self.children@[p].1.contains_word(w)) by {
                            if p == jj {
                                assert(self.children@[p].1 == newchild);
                            } else if is_present {
                                assert(self.children@[p] == old(self).children@[p]);
                            } else if p < jj {
                                assert(self.children@[p] == mid.children@[p]);
                                assert(mid.children@[p] == old(self).children@[p]);
                            } else {
                                assert(self.children@[p] == mid.children@[p]);
                                assert(mid.children@[p] == old(self).children@[p - 1]);
                            }
                        }
                        self.lemma_pruned_from_parts();
                }
            }
        }
    }

    /// The child reached over the edge labelled `c`, if that edge exists.
    fn get_child(&self, c: char) -> (r: Option<&Node>)
        requires
            self.wf(),
        ensures
            match r {
                Some(child) => exists|k: int|
                    0 <= k < self.children@.len() && (#[trigger] self.children@[k]).0 == c
                        && self.children@[k].1 == *child,
                None => forall|k: int|
                    0 <= k < self.children@.len() ==> (#[trigger] self.children@[k]).0 != c,
            },
    {
        let mut k: usize = 0;
        while k < self.children.len()
            invariant
                k <= self.children@.len(),
                forall|t: int| 0 <= t < k ==> (#[trigger] self.children@[t]).0 != c,
                self.wf(),
            decreases self.children@.len() - k,
        {
            if self.children[k].0 == c {
                return Some(&self.children[k].1);
            }
            k += 1;
        }
        None
    }

    /// Walk `prefix` from this node: the returned node, when there is one,
    /// holds exactly the suffixes that complete `prefix` to a stored word;
    /// when there is none, no stored word starts with `prefix`.
    pub fn find_node(&self, prefix: &str) -> (r: Option<&Node>)
        requires
            self.wf(),
        ensures
            match r {
                Some(node) => node.wf() && forall|w: Seq<char>|
                    (#[trigger] node.contains_word(w)) == self.contains_word(prefix@ + w),
                None => forall|w: Seq<char>| !self.contains_word(prefix@ + w),
            },
            self.pruned() ==> (r.is_some() <==> (prefix@.len() == 0 || exists|w: Seq<char>|
                #[trigger] self.contains_word(prefix@ + w))),
    {
        let r = self.find_node_at(prefix, 0);
        proof {
            assert forall|w: Seq<char>| prefix@.skip(0) + w == prefix@ + w by {
                assert(prefix@.skip(0) + w =~= prefix@ + w);
            }
            if self.pruned() {
                if exists|w: Seq<char>| #[trigger] self.contains_word(prefix@ + w) {
                    let w0 = choose|w: Seq<char>| #[trigger] self.contains_word(prefix@ + w);
                    assert(self.contains_word(prefix@.skip(0) + w0));
                }
                if exists|w: Seq<char>| #[trigger] self.contains_word(prefix@.skip(0) + w) {
                    let w1 = choose|w: Seq<char>|
                        #[trigger] self.contains_word(prefix@.skip(0) + w);
                    assert(self.contains_word(prefix@ + w1));
                }
            }
        }
        r
    }

    /// Walk the suffix of `prefix` that starts at character `i`.
    fn find_node_at(&self, prefix: &str, i: usize) -> (r: Option<&Node>)
        requires
            self.wf(),
            i <= prefix@.len(),
        ensures
            match r {
                Some(node) => node.wf() && forall|w: Seq<char>|
                    (#[trigger] node.contains_word(w)) == self.contains_word(
                        prefix@.skip(i as int) + w,
                    ),
                None => forall|w: Seq<char>| !self.contains_word(prefix@.skip(i as int) + w),
            },
            self.pruned() ==> (r.is_some() <==> (i == prefix@.len() || exists|w: Seq<char>|
                #[trigger] self.contains_word(prefix@.skip(i as int) + w))),
        decreases prefix@.len() - i as int,
    {
        let ghost rest = prefix@.skip(i as int);
        if i == prefix.unicode_len() {
            proof {
                assert(rest.len() == 0);
                assert forall|w: Seq<char>|
                    (#[trigger] self.contains_word(w)) == self.contains_word(rest + w) by {
                    assert(rest + w =~= w);
                }
            }
            Some(self)
        } else {
            let c = prefix.get_char(i);
            proof {
                assert(rest.len() > 0);
                assert(rest[0] == prefix@[i as int]);
            }
            match self.get_child(c) {
                None => {
                    proof {
                        assert forall|w: Seq<char>| !self.contains_word(rest + w) by {
                            let u = rest + w;
                            assert(u.len() > 0 && u[0] == c);
                        }
                    }
                    None
                },
                Some(child) => {
                    let r = child.find_node_at(prefix, i + 1);
                    proof {
                        let rest1 = prefix@.skip((i + 1) as int);
                        let k = choose|k: int|
                            0 <= k < self.children@.len() && (#[trigger] self.children@[k]).0 == c
                                && self.children@[k].1 == *child;
                        assert forall|w: Seq<char>|
                            (#[trigger] child.contains_word(rest1 + w)) == self.contains_word(
                                rest + w,
                            ) by {
                            let u = rest + w;
                            let v = rest1 + w;
                            assert(u.len() > 0 && u[0] == c);
                            assert(u.skip(1) =~= v);
                            if self.contains_word(u) {
                                let t = choose|t: int|
                                    0 <= t < self.children@.len() && (
                                    #[trigger] self.children@[t]).0 == u[0]
                                        && self.children@[t].1.contains_word(u.skip(1));
                                self.lemma_child_unique(t, k);
                            }
                            if child.contains_word(v) {
                                assert(self.children@[k].1.contains_word(u.skip(1)));
                            }
                        }
                        match r {
                            Some(node) => {
                                assert forall|w: Seq<char>|
                                    (#[trigger] node.contains_word(w)) == self.contains_word(
                                        rest + w,
                                    ) by {
                                    assert(node.contains_word(w) == child.contains_word(
                                        rest1 + w,
                                    ));
                                }
                            },
                            None => {
                                assert forall|w: Seq<char>| !self.contains_word(rest + w) by {
                                    assert(!child.contains_word(rest1 + w));
                                }
                            },
                        }
                        if self.pruned() {
                            assert(child.pruned()) by {
                                assert(self.children@[k].1.pruned());
                            }
                            assert(r.is_some() <==> (i == prefix@.len() || exists|w: Seq<char>|
                                #[trigger] self.contains_word(rest + w))) by {
                                if r.is_some() {
                                    if i + 1 == prefix@.len() {
                                        let w0 = choose|w: Seq<char>|
                                            self.children@[k].1.contains_word(w);
                                        assert(rest1 + w0 =~= w0);
                                        assert(child.contains_word(rest1 + w0));
                                        assert(self.contains_word(rest + w0));
                                    } else {
                                        let w1 = choose|w: Seq<char>|
                                            #[trigger] child.contains_word(rest1 + w);
                                        assert(self.contains_word(rest + w1));
                                    }
                                }
                                if exists|w: Seq<char>| #[trigger] self.contains_word(rest + w) {
                                    let w2 = choose|w: Seq<char>|
                                        #[trigger] self.contains_word(rest + w);
                                    assert(child.contains_word(rest1 + w2));
                                    assert(r.is_some());
                                }
                            }
                        }
                    }
                    r
                },
            }
        }
    }

    /// Whether `word` is stored in the trie.
    pub fn has_word(&self, word: &str) -> (r: bool)
        requires
            self.wf(),
        ensures
            r == self.contains_word(word@),
    {
        proof {
            assert(word@ + Seq::<char>::empty() =~= word@);
        }
        match self.find_node(word) {
            Some(node) => node.is_word(),
            None => false,
        }
    }

    /// Build a trie holding the first `max_words` words of `words` (all of
    /// them, if fewer are available).
    pub fn from_words(words: &Vec<String>, max_words: usize) -> (r: Node)
        ensures
            r.wf(),
            r.pruned(),
            forall|w: Seq<char>|
                r.contains_word(w) <==> exists|k: int|
                    0 <= k < vstd::math::min(max_words as int, words@.len() as int) && (
                    #[trigger] words@[k])@ == w,
    {
        let mut t = Node::new();
        let end = if max_words < words.len() {
            max_words
        } else {
            words.len()
        };
        let mut k: usize = 0;
        while k < end
            invariant
                k <= end,
                end == vstd::math::min(max_words as int, words@.len() as int),
                t.wf(),
                t.pruned(),
                forall|w: Seq<char>|
                    t.contains_word(w) <==> exists|m: int| 0 <= m < k && (#[trigger] words@[m])@
                        == w,
            decreases end - k,
        {
            t.insert(words[k].as_str());
            k += 1;
        }
        t
    }

    /// `u` completes the stem `p` to a word this subtree holds.
    pub open spec fn word_below(self, p: Seq<char>, u: Seq<char>) -> bool {
        starts_with(u, p) && self.contains_word(u.skip(p.len() as int))
    }

    /// `u` completes `p` through the child at index `j`.
    pub open spec fn below_child(self, p: Seq<char>, j: int, u: Seq<char>) -> bool {
        starts_with(u, p.push(self.children@[j].0)) && self.children@[j].1.contains_word(
            u.skip(p.len() as int + 1),
        )
    }

    /// `u` is the stem itself (a word here), or completes `p` through one of
    /// the first `idx` children.
    pub open spec fn handled_upto(self, p: Seq<char>, idx: int, u: Seq<char>) -> bool {
        (self.is_word && u == p) || exists|j: int| 0 <= j < idx && self.below_child(p, j, u)
    }

    /// A completion through child `j` is a completion of the stem itself.
    proof fn lemma_child_below(self, p: Seq<char>, j: int, u: Seq<char>)
        requires
            0 <= j < self.children@.len(),
            self.below_child(p, j, u),
        ensures
            self.word_below(p, u),
    {
        let c = self.children@[j].0;
        assert(u.subrange(0, p.len() as int) =~= p) by {
            assert(u.subrange(0, p.len() as int + 1) == p.push(c));
            assert forall|t: int| 0 <= t < p.len() implies u.subrange(0, p.len() as int)[t]
                == p[t] by {
                assert(u.subrange(0, p.len() as int + 1)[t] == p.push(c)[t]);
            }
        }
        let suffix = u.skip(p.len() as int);
        assert(suffix[0] == c) by {
            assert(u.subrange(0, p.len() as int + 1)[p.len() as int] == p.push(c)[p.len() as int]);
        }
        assert(suffix.skip(1) =~= u.skip(p.len() as int + 1));
        assert(self.children@[j].0 == suffix[0] && self.children@[j].1.contains_word(
            suffix.skip(1),
        ));
    }

    /// Conversely, a completion of the stem is the stem itself or goes
    /// through some child.
    proof fn lemma_below_cases(self, p: Seq<char>, u: Seq<char>)
        requires
            self.word_below(p, u),
        ensures
            (self.is_word && u == p) || exists|j: int|
                0 <= j < self.children@.len() && self.below_child(p, j, u),
    {
        let suffix = u.skip(p.len() as int);
        if suffix.len() == 0 {
            assert(u =~= p);
        } else {
            let j = choose|j: int|
                0 <= j < self.children@.len() && (#[trigger] self.children@[j]).0 == suffix[0]
                    && self.children@[j].1.contains_word(suffix.skip(1));
            let c = self.children@[j].0;
            assert(u.subrange(0, p.len() as int + 1) =~= p.push(c)) by {
                assert forall|t: int| 0 <= t < p.len() as int + 1 implies u.subrange(0, p.len() as int + 1)[t]
                    == p.push(c)[t] by {
                    if t < p.len() {
                        assert(u.subrange(0, p.len() as int)[t] == p[t]);
                    } else {
                        assert(u[t] == suffix[0]);
                    }
                }
            }
            assert(u.skip(p.len() as int + 1) =~= suffix.skip(1));
            assert(self.below_child(p, j, u));
        }
    }

    /// Append, in ascending order, the words of this subtree prefixed by
    /// `prefix` to `out`, until `out` holds `limit` strings.
    fn collect_words(&self, limit: usize, prefix: &String, out: &mut Vec<String>)
        requires
            self.wf(),
            old(out)@.len() <= limit,
            forall|k: int, l: int|
                0 <= k < l < old(out)@.len() ==> lex_lt(
                    (#[trigger] old(out)@[k])@,
                    (#[trigger] old(out)@[l])@,
                ),
            forall|k: int| 0 <= k < old(out)@.len() ==> lex_lt((#[trigger] old(out)@[k])@, prefix@),
        ensures
            final(out)@.len() <= limit,
            final(out)@.len() >= old(out)@.len(),
            final(out)@.subrange(0, old(out)@.len() as int) == old(out)@,
            forall|k: int|
                old(out)@.len() <= k < final(out)@.len() ==> self.word_below(
                    prefix@,
                    (#[trigger] final(out)@[k])@,
                ),
            forall|k: int, l: int|
                0 <= k < l < final(out)@.len() ==> lex_lt(
                    (#[trigger] final(out)@[k])@,
                    (#[trigger] final(out)@[l])@,
                ),
            forall|u: Seq<char>|
                final(out)@.len() < limit && #[trigger] self.word_below(prefix@, u) ==> in_list(
                    final(out)@,
                    u,
                ),
            forall|u: Seq<char>, k: int|
                #[trigger] self.word_below(prefix@, u) && !in_list(final(out)@, u) && 0 <= k
                    < final(out)@.len() ==> lex_lt((#[trigger] final(out)@[k])@, u),
        decreases self,
    {
        let ghost old0 = old(out)@;
        let ghost p = prefix@;
        if out.len() >= limit {
            proof {
                assert(out@.subrange(0, old0.len() as int) =~= old0);
                assert forall|u: Seq<char>, k: int|
                    #[trigger] self.word_below(p, u) && !in_list(out@, u) && 0 <= k
                        < out@.len() implies lex_lt((#[trigger] out@[k])@, u) by {
                    lemma_lex_lt_extend(out@[k]@, p, u);
                }
            }
            return ;
        }
        if self.is_word {
            let entry = prefix.as_str().to_owned();
            out.push(entry);
            proof {
                assert(p.skip(p.len() as int).len() == 0);
                assert(p.subrange(0, p.len() as int) =~= p);
                assert(self.word_below(p, p));
                assert(out@.subrange(0, old0.len() as int) =~= old0);
            }
        }
        proof {
            assert forall|k: int, j: int|
                0 <= k < out@.len() && 0 <= j < self.children@.len() implies lex_lt(
                (#[trigger] out@[k])@,
                p.push((#[trigger] self.children@[j]).0),
            ) by {
                let cj = self.children@[j].0;
                if k < old0.len() {
                    assert(out@[k] == old0[k]);
                    assert(starts_with(p.push(cj), p)) by {
                        assert(p.push(cj).subrange(0, p.len() as int) =~= p);
                    }
                    lemma_lex_lt_extend(out@[k]@, p, p.push(cj));
                } else {
                    assert(out@[k]@ == p);
                    assert(p.push(cj) =~= p + seq![cj]);
                    lemma_lex_prefix(p, seq![cj]);
                }
            }
            assert forall|u: Seq<char>|
                out@.len() < limit && #[trigger] self.handled_upto(p, 0, u) implies in_list(
                out@,
                u,
            ) by {
                assert(self.is_word && u == p);
                assert(out@[out@.len() - 1]@ == p);
            }
        }
        let mut idx: usize = 0;
        while idx < self.children.len()
            invariant
                self.wf(),
                p == prefix@,
                idx <= self.children@.len(),
                out@.len() <= limit,
                out@.len() >= old0.len(),
                out@.subrange(0, old0.len() as int) == old0,
                forall|k: int|
                    old0.len() <= k < out@.len() ==> self.word_below(p, (#[trigger] out@[k])@),
                forall|k: int, l: int|
                    0 <= k < l < out@.len() ==> lex_lt((#[trigger] out@[k])@, (#[trigger] out@[l])@),
                forall|k: int, j: int|
                    0 <= k < out@.len() && idx <= j < self.children@.len() ==> lex_lt(
                        (#[trigger] out@[k])@,
                        p.push((#[trigger] self.children@[j]).0),
                    ),
                forall|u: Seq<char>|
                    out@.len() < limit && #[trigger] self.handled_upto(p, idx as int, u) ==> in_list(
                        out@,
                        u,
                    ),
                forall|u: Seq<char>, k: int|
                    #[trigger] self.handled_upto(p, idx as int, u) && !in_list(out@, u) && 0 <= k
                        < out@.len() ==> lex_lt((#[trigger] out@[k])@, u),
            decreases self.children@.len() - idx,
        {
            let c = self.children[idx].0;
            let mut stem = prefix.as_str().to_owned();
            proof {
                assert(stem@ == p);
            }
            push_char(&mut stem, c);
            let ghost pre = out@;
            proof {
                assert(stem@ == p.push(c));
                assert forall|k: int| 0 <= k < out@.len() implies lex_lt(
                    (#[trigger] out@[k])@,
                    stem@,
                ) by {
                    assert(lex_lt(out@[k]@, p.push(self.children@[idx as int].0)));
                }
            }
            self.children[idx].1.collect_words(limit, &stem, out);
            proof {
                let child = self.children@[idx as int].1;
                let idx1 = idx as int + 1;
                assert(out@.subrange(0, old0.len() as int) =~= old0) by {
                    assert(out@.subrange(0, pre.len() as int) == pre);
                    assert forall|t: int| 0 <= t < old0.len() implies out@.subrange(
                        0,
                        old0.len() as int,
                    )[t] == old0[t] by {
                        assert(out@.subrange(0, pre.len() as int)[t] == pre[t]);
                        assert(pre.subrange(0, old0.len() as int)[t] == old0[t]);
                    }
                }
                // new entries complete the stem, hence the prefix
                assert forall|k: int| old0.len() <= k < out@.len() implies self.word_below(
                    p,
                    (#[trigger] out@[k])@,
                ) by {
                    if k >= pre.len() {
                        assert(child.word_below(stem@, out@[k]@));
                        assert(self.below_child(p, idx as int, out@[k]@)) by {
                            assert(out@[k]@.skip(p.len() as int + 1) == out@[k]@.skip(stem@.len() as int));
                        }
                        self.lemma_child_below(p, idx as int, out@[k]@);
                    } else {
                        assert(out@.subrange(0, pre.len() as int)[k] == pre[k]);
                        assert(pre[k] == out@[k]);
                    }
                }
                // entries stay below the stems still to come
                assert forall|k: int, j: int|
                    0 <= k < out@.len() && idx1 <= j < self.children@.len() implies lex_lt(
                    (#[trigger] out@[k])@,
                    p.push((#[trigger] self.children@[j]).0),
                ) by {
                    let d = self.children@[j].0;
                    assert(c < d);
                    if k < pre.len() {
                        assert(out@.subrange(0, pre.len() as int)[k] == pre[k]);
                        assert(lex_lt(pre[k]@, p.push(d)));
                    } else {
                        let e = out@[k]@;
                        assert(child.word_below(stem@, e));
                        assert(e =~= p + seq![c] + e.skip(p.len() as int + 1)) by {
                            assert(e.subrange(0, p.len() as int + 1) == stem@);
                            assert forall|t: int| 0 <= t < e.len() implies e[t] == (p + seq![c]
                                + e.skip(p.len() as int + 1))[t] by {
                                if t < p.len() as int + 1 {
                                    assert(e.subrange(0, p.len() as int + 1)[t] == stem@[t]);
                                }
                            }
                        }
                        assert(p.push(d) =~= p + seq![d] + Seq::<char>::empty());
                        lemma_lex_mid(p, c, d, e.skip(p.len() as int + 1), Seq::<char>::empty());
                    }
                }
                // everything handled so far is either present or above all
                assert forall|u: Seq<char>|
                    out@.len() < limit && #[trigger] self.handled_upto(p, idx1, u) implies in_list(
                    out@,
                    u,
                ) by {
                    assert(pre.len() < limit);
                    if self.is_word && u == p {
                        assert(self.handled_upto(p, idx as int, u));
                        assert(in_list(pre, u));
                        let t = choose|t: int| 0 <= t < pre.len() && pre[t]@ == u;
                        assert(out@.subrange(0, pre.len() as int)[t] == pre[t]);
                    } else {
                        let j = choose|j: int| 0 <= j < idx1 && self.below_child(p, j, u);
                        if j == idx as int {
                            assert(child.word_below(stem@, u)) by {
                                assert(u.skip(p.len() as int + 1) == u.skip(stem@.len() as int));
                            }
                        } else {
                            assert(self.handled_upto(p, idx as int, u));
                            assert(in_list(pre, u));
                            let t = choose|t: int| 0 <= t < pre.len() && pre[t]@ == u;
                            assert(out@.subrange(0, pre.len() as int)[t] == pre[t]);
                        }
                    }
                }
                assert forall|u: Seq<char>, k: int|
                    #[trigger] self.handled_upto(p, idx1, u) && !in_list(out@, u) && 0 <= k
                        < out@.len() implies lex_lt((#[trigger] out@[k])@, u) by {
                    if pre.len() == limit {
                        // the list was already full: nothing changed
                        assert(out@ =~= pre);
                        assert(self.handled_upto(p, idx as int, u) || self.below_child(
                            p,
                            idx as int,
                            u,
                        ));
                        if self.below_child(p, idx as int, u) {
                            assert(child.word_below(stem@, u)) by {
                                assert(u.skip(p.len() as int + 1) == u.skip(stem@.len() as int));
                            }
                            if in_list(out@, u) {
                            } else {
                                assert(lex_lt(out@[k]@, u));
                            }
                        }
                    } else {
                        // there was room, so everything handled before is present
                        if self.handled_upto(p, idx as int, u) {
                            assert(in_list(pre, u));
                            let t = choose|t: int| 0 <= t < pre.len() && pre[t]@ == u;
                            assert(out@.subrange(0, pre.len() as int)[t] == pre[t]);
                            assert(in_list(out@, u));
                        } else {
                            let j = choose|j: int| 0 <= j < idx1 && self.below_child(p, j, u);
                            assert(j == idx as int);
                            assert(child.word_below(stem@, u)) by {
                                assert(u.skip(p.len() as int + 1) == u.skip(stem@.len() as int));
                            }
                        }
                    }
                }
            }
            idx += 1;
        }
        proof {
            assert forall|u: Seq<char>|
                out@.len() < limit && #[trigger] self.word_below(p, u) implies in_list(
                out@,
                u,
            ) by {
                self.lemma_below_cases(p, u);
                assert(self.handled_upto(p, self.children@.len() as int, u));
            }
            assert forall|u: Seq<char>, k: int|
                #[trigger] self.word_below(p, u) && !in_list(out@, u) && 0 <= k
                    < out@.len() implies lex_lt((#[trigger] out@[k])@, u) by {
                self.lemma_below_cases(p, u);
                assert(self.handled_upto(p, self.children@.len() as int, u));
            }
        }
    }

    /// The first `n` words of this subtree in ascending lexicographic order:
    /// every returned string is a stored word; the list is strictly
    /// ascending; it stops short of `n` only when no stored word is missing;
    /// and any stored word left out comes after everything returned.
    pub fn take_next(&self, n: usize) -> (r: Vec<String>)
        requires
            self.wf(),
        ensures
            r@.len() <= n,
            forall|k: int| 0 <= k < r@.len() ==> self.contains_word((#[trigger] r@[k])@),
            forall|k: int, l: int|
                0 <= k < l < r@.len() ==> lex_lt((#[trigger] r@[k])@, (#[trigger] r@[l])@),
            forall|u: Seq<char>|
                r@.len() < n && #[trigger] self.contains_word(u) ==> in_list(r@, u),
            forall|u: Seq<char>, k: int|
                #[trigger] self.contains_word(u) && !in_list(r@, u) && 0 <= k < r@.len()
                    ==> lex_lt((#[trigger] r@[k])@, u),
    {
        let mut out: Vec<String> = Vec::new();
        let prefix = String::new();
        self.collect_words(n, &prefix, &mut out);
        proof {
            assert forall|k: int| 0 <= k < out@.len() implies self.contains_word(
                (#[trigger] out@[k])@,
            ) by {
                assert(self.word_below(prefix@, out@[k]@));
                assert(out@[k]@.skip(0) =~= out@[k]@);
            }
            assert forall|u: Seq<char>|
                out@.len() < n && #[trigger] self.contains_word(u) implies in_list(out@, u) by {
                assert(u.subrange(0, 0) =~= prefix@);
                assert(u.skip(0) =~= u);
                assert(self.word_below(prefix@, u));
            }
            assert forall|u: Seq<char>, k: int|
                #[trigger] self.contains_word(u) && !in_list(out@, u) && 0 <= k
                    < out@.len() implies lex_lt((#[trigger] out@[k])@, u) by {
                assert(u.subrange(0, 0) =~= prefix@);
                assert(u.skip(0) =~= u);
                assert(self.word_below(prefix@, u));
            }
        }
        out
    }

    /// The first `n` stored words that start with `query`, in ascending
    /// lexicographic order, each returned in full. When fewer than `n` are
    /// returned, none is missing; any stored completion left out comes after
    /// everything returned. A query with no stored completion yields an
    /// empty list, and a query that is itself a stored word comes first.
    pub fn autocomplete(&self, query: &str, n: usize) -> (r: Vec<String>)
        requires
            self.wf(),
        ensures
            r@.len() <= n,
            forall|k: int|
                0 <= k < r@.len() ==> starts_with((#[trigger] r@[k])@, query@)
                    && self.contains_word(r@[k]@),
            forall|k: int, l: int|
                0 <= k < l < r@.len() ==> lex_lt((#[trigger] r@[k])@, (#[trigger] r@[l])@),
            forall|k: int, l: int|
                0 <= k < l < r@.len() ==> (#[trigger] r@[k])@ != (#[trigger] r@[l])@,
            forall|u: Seq<char>|
                r@.len() < n && starts_with(u, query@) && #[trigger] self.contains_word(u)
                    ==> in_list(r@, u),
            forall|u: Seq<char>, k: int|
                starts_with(u, query@) && #[trigger] self.contains_word(u) && !in_list(r@, u) && 0
                    <= k < r@.len() ==> lex_lt((#[trigger] r@[k])@, u),
    {
        match self.find_node(query) {
            None => {
                let r: Vec<String> = Vec::new();
                proof {
                    assert forall|u: Seq<char>|
                        r@.len() < n && starts_with(u, query@) && #[trigger] self.contains_word(
                            u,
                        ) implies in_list(r@, u) by {
                        assert(u =~= query@ + u.skip(query@.len() as int));
                    }
                }
                r
            },
            Some(node) => {
                let suffixes = node.take_next(n);
                let mut r: Vec<String> = Vec::new();
                let mut k: usize = 0;
                while k < suffixes.len()
                    invariant
                        k <= suffixes@.len(),
                        r@.len() == k,
                        forall|t: int|
                            0 <= t < k ==> (#[trigger] r@[t])@ == query@ + suffixes@[t]@,
                    decreases suffixes@.len() - k,
                {
                    let mut full = query.to_owned();
                    full.append(suffixes[k].as_str());
                    r.push(full);
                    k += 1;
                }
                proof {
                    assert forall|t: int|
                        0 <= t < r@.len() implies starts_with((#[trigger] r@[t])@, query@)
                            && self.contains_word(r@[t]@) by {
                        let st = suffixes@[t]@;
                        assert((query@ + st).subrange(0, query@.len() as int) =~= query@);
                        assert(node.contains_word(st));
                    }
                    assert forall|t: int, l: int|
                        0 <= t < l < r@.len() implies lex_lt(
                        (#[trigger] r@[t])@,
                        (#[trigger] r@[l])@,
                    ) by {
                        lemma_lex_append_mono(query@, suffixes@[t]@, suffixes@[l]@);
                    }
                    assert forall|t: int, l: int|
                        0 <= t < l < r@.len() implies (#[trigger] r@[t])@ != (
                    #[trigger] r@[l])@ by {
                        lemma_lex_lt_ne(r@[t]@, r@[l]@);
                    }
                    assert forall|u: Seq<char>|
                        r@.len() < n && starts_with(u, query@) && #[trigger] self.contains_word(
                            u,
                        ) implies in_list(r@, u) by {
                        let w = u.skip(query@.len() as int);
                        assert(u =~= query@ + w);
                        assert(node.contains_word(w));
                        assert(in_list(suffixes@, w));
                        let t = choose|t: int| 0 <= t < suffixes@.len() && suffixes@[t]@ == w;
                        assert(r@[t]@ == u);
                    }
                    assert forall|u: Seq<char>, t: int|
                        starts_with(u, query@) && #[trigger] self.contains_word(u) && !in_list(
                            r@,
                            u,
                        ) && 0 <= t < r@.len() implies lex_lt((#[trigger] r@[t])@, u) by {
                        let w = u.skip(query@.len() as int);
                        assert(u =~= query@ + w);
                        assert(node.contains_word(w));
                        if in_list(suffixes@, w) {
                            let m = choose|m: int|
                                0 <= m < suffixes@.len() && suffixes@[m]@ == w;
                            assert(r@[m]@ == u);
                            assert(false);
                        }
                        assert(lex_lt(suffixes@[t]@, w));
                        lemma_lex_append_mono(query@, suffixes@[t]@, w);
                    }
                }
                r
            },
        }
    }

    /// Inserting a fresh empty child changes no membership: the new child
    /// holds no words.
    proof fn lemma_insert_empty_child_same_words(self, base: Node, j: int, c: char, w: Seq<char>)
        requires
            base.wf(),
            0 <= j <= base.children@.len(),
            self.children@ == base.children@.insert(j, (c, self.children@[j].1)),
            self.children@[j].1.children@.len() == 0,
            !self.children@[j].1.is_word,
            self.is_word == base.is_word,
        ensures
            self.contains_word(w) == base.contains_word(w),
        decreases w.len(),
    {
        if w.len() == 0 {
        } else {
            if self.contains_word(w) {
                let k = choose|k: int|
                    0 <= k < self.children@.len() && (#[trigger] self.children@[k]).0 == w[0]
                        && self.children@[k].1.contains_word(w.skip(1));
                if k == j {
                    // the fresh child holds nothing
                    assert(w.skip(1).len() >= 0);
                    assert(!self.children@[j].1.contains_word(w.skip(1)));
                } else if k < j {
                    assert(base.children@[k] == self.children@[k]);
                    assert(base.contains_word(w));
                } else {
                    assert(base.children@[k - 1] == self.children@[k]);
                    assert(base.contains_word(w));
                }
            }
            if base.contains_word(w) {
                let k = choose|k: int|
                    0 <= k < base.children@.len() && (#[trigger] base.children@[k]).0 == w[0]
                        && base.children@[k].1.contains_word(w.skip(1));
                if k < j {
                    assert(self.children@[k] == base.children@[k]);
                    assert(self.contains_word(w));
                } else {
                    assert(self.children@[k + 1] == base.children@[k]);
                    assert(self.contains_word(w));
                }
            }
        }
    }

    /// Replacing the child at `j` (key `c`) by one that holds the old child's
    /// words plus `extra` adds exactly `c` followed by `extra` to this node.
    proof fn lemma_update_child_words(
        self,
        base: Node,
        j: int,
        c: char,
        newchild: Node,
        suffix: Seq<char>,
        w: Seq<char>,
    )
        requires
            base.wf(),
            0 <= j < base.children@.len(),
            base.children@[j].0 == c,
            self.children@ == base.children@.update(j, (c, newchild)),
            self.is_word == base.is_word,
            suffix.len() > 0,
            suffix[0] == c,
            forall|v: Seq<char>|
                newchild.contains_word(v) <==> (base.children@[j].1.contains_word(v) || v
                    == suffix.skip(1)),
        ensures
            self.contains_word(w) <==> (base.contains_word(w) || w == suffix),
    {
        if w.len() == 0 {
            assert(w != suffix);
        } else {
            if w[0] != c {
                // the touched child is irrelevant
                assert(w != suffix);
                if self.contains_word(w) {
                    let k = choose|k: int|
                        0 <= k < self.children@.len() && (#[trigger] self.children@[k]).0 == w[0]
                            && self.children@[k].1.contains_word(w.skip(1));
                    assert(k != j);
                    assert(self.children@[k] == base.children@[k]);
                    assert(base.contains_word(w));
                }
                if base.contains_word(w) {
                    let k = choose|k: int|
                        0 <= k < base.children@.len() && (#[trigger] base.children@[k]).0 == w[0]
                            && base.children@[k].1.contains_word(w.skip(1));
                    assert(k != j);
                    assert(self.children@[k] == base.children@[k]);
                    assert(self.contains_word(w));
                }
            } else {
                // only index j can match w[0]
                assert forall|k: int|
                    0 <= k < base.children@.len() && (#[trigger] base.children@[k]).0
                        == c implies k == j by {
                    base.lemma_child_unique(k, j);
                }
                assert(self.contains_word(w) <==> newchild.contains_word(w.skip(1))) by {
                    if self.contains_word(w) {
                        let k = choose|k: int|
                            0 <= k < self.children@.len() && (#[trigger] self.children@[k]).0
                                == w[0] && self.children@[k].1.contains_word(w.skip(1));
                        assert(base.children@[k].0 == c);
                        assert(k == j);
                    }
                    if newchild.contains_word(w.skip(1)) {
                        assert(self.children@[j].0 == w[0]);
                        assert(self.children@[j].1.contains_word(w.skip(1)));
                    }
                }
                assert(base.contains_word(w) <==> base.children@[j].1.contains_word(w.skip(1)))
                    by {
                    if base.contains_word(w) {
                        let k = choose|k: int|
                            0 <= k < base.children@.len() && (#[trigger] base.children@[k]).0
                                == w[0] && base.children@[k].1.contains_word(w.skip(1));
                        assert(k == j);
                    }
                }
                assert((w == suffix) <==> (w.skip(1) == suffix.skip(1))) by {
                    if w.skip(1) == suffix.skip(1) {
                        assert(w =~= suffix) by {
                            assert(w.len() == w.skip(1).len() + 1);
                            assert(suffix.len() == suffix.skip(1).len() + 1);
                            assert forall|t: int| 0 <= t < w.len() implies w[t] == suffix[t] by {
                                if t > 0 {
                                    assert(w[t] == w.skip(1)[t - 1]);
                                    assert(suffix[t] == suffix.skip(1)[t - 1]);
                                }
                            }
                        }
                    }
                }
            }
        }
    }
}

} // verus!
