//! A Boggle-style board search: an immutable square grid of characters, a
//! per-path bitmask of visited cells, and a depth-first search that walks
//! king-move adjacencies and prunes through the trie the moment the
//! accumulated letters are no longer a prefix of any stored word.

use vstd::prelude::*;

use crate::trie;

verus! {

/// The two failures construction can report: a grid string whose length is
/// not the square of its side, and a word source that cannot be read.
#[derive(Clone, Copy, Debug, PartialEq, Eq, Structural)]
pub enum Error {
    InvalidDimensions,
    SourceUnavailable,
}

/// What lower-casing does to a single character: ASCII capitals move to
/// their small forms, everything else stays.
pub open spec fn lower_char_spec(c: char) -> char {
    if 'A' <= c && c <= 'Z' {
        (((c as u32) + 32) as u8) as char
    } else {
        c
    }
}

/// Lower-case one character: 'A' to 'Z' move onto 'a' to 'z', every other
/// character is unchanged.
fn lower_char(c: char) -> (r: char)
    ensures
        r == lower_char_spec(c),
{
    if 'A' <= c && c <= 'Z' {
        (((c as u32) + 32) as u8) as char
    } else {
        c
    }
}

#[verifier::external_type_specification]
#[verifier::external_body]
#[verifier::reject_recursive_types(B)]
pub struct ExBitVec<B>(bit_vec::BitVec<B>);

/// The bits a bit_vec::BitVec holds, as a sequence of booleans.
pub uninterp spec fn bits_of(v: bit_vec::BitVec) -> Seq<bool>;

/// Relies on bit_vec::BitVec::from_elem: a vector of `len` bits, every one
/// equal to `bit`.
#[verifier::external_body]
fn bits_new(len: usize, bit: bool) -> (r: bit_vec::BitVec)
    ensures
        bits_of(r) == Seq::new(len as nat, |i: int| bit),
{
    bit_vec::BitVec::from_elem(len, bit)
}

/// Relies on bit_vec::BitVec::set: writes `x` at index `i` and touches no
/// other bit. Out-of-range indices panic there, so they are excluded here.
#[verifier::external_body]
fn bits_set(v: &mut bit_vec::BitVec, i: usize, x: bool)
    requires
        i < bits_of(*old(v)).len(),
    ensures
        bits_of(*final(v)) == bits_of(*old(v)).update(i as int, x),
{
    v.set(i, x);
}

/// Relies on bit_vec::BitVec::get: returns the bit at `i`, which is `Some`
/// exactly when `i` is within range.
#[verifier::external_body]
fn bits_get(v: &bit_vec::BitVec, i: usize) -> (r: bool)
    requires
        i < bits_of(*v).len(),
    ensures
        r == bits_of(*v)[i as int],
{
    match v.get(i) {
        Some(b) => b,
        None => false,
    }
}

/// Relies on Clone for bit_vec::BitVec: the copy holds the same bits.
#[verifier::external_body]
fn bits_clone(v: &bit_vec::BitVec) -> (r: bit_vec::BitVec)
    ensures
        bits_of(r) == bits_of(*v),
{
    v.clone()
}

/// A cell of the grid, by column `x` and row `y`.
#[derive(Clone, Copy)]
pub struct Posn {
    pub x: usize,
    pub y: usize,
}

/// The cells the current search path has already used, one bit per cell,
/// indexed by `y * n + x`.
pub struct Visited {
    pub data: bit_vec::BitVec,
    pub n: usize,
}

impl Visited {
    /// The mask carries one bit for each of the n-by-n cells.
    pub open spec fn wf(self) -> bool {
        &&& bits_of(self.data).len() == self.n * self.n
        &&& self.n * self.n <= usize::MAX
    }

    /// The bits of the mask.
    pub open spec fn bits(self) -> Seq<bool> {
        bits_of(self.data)
    }

    /// Where the bit of cell `(x, y)` lives.
    pub open spec fn spec_index_of(self, x: int, y: int) -> int {
        y * self.n + x
    }

    /// An all-clear mask for an n-by-n board.
    pub fn new(n: usize) -> (r: Visited)
        requires
            n * n <= usize::MAX,
        ensures
            r.wf(),
            r.n == n,
            r.bits().len() == n * n,
            forall|j: int| 0 <= j < r.bits().len() ==> !(#[trigger] r.bits()[j]),
    {
        let size = n * n;
        Visited { n, data: bits_new(size, false) }
    }

    /// The bit index of a cell, in range for a well-formed mask.
    fn index(&self, posn: &Posn) -> (r: usize)
        requires
            self.wf(),
            posn.x < self.n,
            posn.y < self.n,
        ensures
            r == self.spec_index_of(posn.x as int, posn.y as int),
            r < self.n * self.n,
    {
        proof {
            assert(posn.y * self.n + posn.x < self.n * self.n) by (nonlinear_arith)
                requires
                    posn.x < self.n,
                    posn.y < self.n,
            ;
        }
        posn.y * self.n + posn.x
    }

    /// Mark one cell as used by the current path.
    pub fn mark_visited(&mut self, posn: &Posn)
        requires
            old(self).wf(),
            posn.x < old(self).n,
            posn.y < old(self).n,
        ensures
            final(self).wf(),
            final(self).n == old(self).n,
            final(self).bits() == old(self).bits().update(
                old(self).spec_index_of(posn.x as int, posn.y as int),
                true,
            ),
    {
        let i = self.index(posn);
        bits_set(&mut self.data, i, true);
    }

    /// Whether a cell is already on the current path.
    pub fn check(&self, posn: &Posn) -> (r: bool)
        requires
            self.wf(),
            posn.x < self.n,
            posn.y < self.n,
        ensures
            r == self.bits()[self.spec_index_of(posn.x as int, posn.y as int)],
    {
        let i = self.index(posn);
        bits_get(&self.data, i)
    }

    /// An independent copy, so sibling branches never see each other's
    /// visits.
    pub fn duplicate(&self) -> (r: Visited)
        ensures
            r.n == self.n,
            r.bits() == self.bits(),
    {
        Visited { n: self.n, data: bits_clone(&self.data) }
    }
}

/// An immutable n-by-n character matrix, built once from a flat string of
/// exactly n-squared characters, each cell lower-cased.
pub struct Grid {
    pub data: Vec<Vec<char>>,
    pub n: usize,
}

impl Grid {
    /// Square, with a bit index available for every cell.
    pub open spec fn wf(self) -> bool {
        &&& self.data@.len() == self.n
        &&& forall|i: int| 0 <= i < self.n ==> (#[trigger] self.data@[i])@.len() == self.n
        &&& self.n * self.n <= usize::MAX
    }

    /// Validate and build: succeeds exactly when the flat string holds
    /// n-squared characters; row `x`, column `y` then holds the lower-cased
    /// character at position `x * n + y` of the input.
    pub fn from_data(data: &str, n: usize) -> (r: Result<Grid, Error>)
        ensures
            match r {
                Ok(g) => {
                    &&& data@.len() == n * n
                    &&& g.wf()
                    &&& g.n == n
                    &&& forall|x: int, y: int|
                        0 <= x < n && 0 <= y < n ==> (#[trigger] g.data@[x]@[y]) == lower_char_spec(
                            data@[x * n + y],
                        )
                },
                Err(e) => e == Error::InvalidDimensions && data@.len() != n * n,
            },
    {
        let len = data.unicode_len();
        proof {
            assert(n as int <= 0xFFFF_FFFF_FFFF_FFFFu64 as int);
            assert(n as int * n as int <= u128::MAX as int) by (nonlinear_arith)
                requires
                    n as int <= 0xFFFF_FFFF_FFFF_FFFFu64 as int,
            ;
        }
        let square: u128 = (n as u128) * (n as u128);
        if square != (len as u128) {
            return Err(Error::InvalidDimensions);
        }
        let mut rows: Vec<Vec<char>> = Vec::new();
        let mut x: usize = 0;
        while x < n
            invariant
                x <= n,
                n * n <= usize::MAX,
                data@.len() == n * n,
                rows@.len() == x,
                forall|i: int| 0 <= i < x ==> (#[trigger] rows@[i])@.len() == n,
                forall|i: int, j: int|
                    0 <= i < x && 0 <= j < n ==> (#[trigger] rows@[i]@[j]) == lower_char_spec(
                        data@[i * n + j],
                    ),
            decreases n - x,
        {
            let mut row: Vec<char> = Vec::new();
            let mut y: usize = 0;
            while y < n
                invariant
                    x < n,
                    y <= n,
                    n * n <= usize::MAX,
                    data@.len() == n * n,
                    row@.len() == y,
                    forall|j: int|
                        0 <= j < y ==> (#[trigger] row@[j]) == lower_char_spec(data@[x * n + j]),
                decreases n - y,
            {
                proof {
                    assert(x * n + y < n * n) by (nonlinear_arith)
                        requires
                            x < n,
                            y < n,
                    ;
                }
                let c = data.get_char(x * n + y);
                row.push(lower_char(c));
                y += 1;
            }
            rows.push(row);
            x += 1;
        }
        Ok(Grid { data: rows, n })
    }
}

/// The pair of integer coordinates of a cell.
pub open spec fn pair_of(p: Posn) -> (int, int) {
    (p.x as int, p.y as int)
}

/// The bit index of a cell on an n-wide board.
pub open spec fn cell_index(n: int, p: (int, int)) -> int {
    p.1 * n + p.0
}

/// Two cells touch by a king move: distinct, and both coordinates differ by
/// at most one.
pub open spec fn adjacent(a: (int, int), b: (int, int)) -> bool {
    &&& a != b
    &&& -1 <= a.0 - b.0 <= 1
    &&& -1 <= a.1 - b.1 <= 1
}

/// How many bits of the mask are set.
pub open spec fn count_trues(s: Seq<bool>) -> int
    decreases s.len(),
{
    if s.len() == 0 {
        0
    } else {
        count_trues(s.drop_last()) + if s.last() {
            1int
        } else {
            0int
        }
    }
}

/// The count is bounded by the number of bits.
proof fn lemma_count_le_len(s: Seq<bool>)
    ensures
        0 <= count_trues(s) <= s.len(),
    decreases s.len(),
{
    if s.len() > 0 {
        lemma_count_le_len(s.drop_last());
    }
}

/// Setting a clear bit raises the count by one.
proof fn lemma_count_update(s: Seq<bool>, i: int)
    requires
        0 <= i < s.len(),
        !s[i],
    ensures
        count_trues(s.update(i, true)) == count_trues(s) + 1,
    decreases s.len(),
{
    let t = s.update(i, true);
    if i == s.len() - 1 {
        assert(t.drop_last() =~= s.drop_last());
    } else {
        assert(t.drop_last() =~= s.drop_last().update(i, true));
        lemma_count_update(s.drop_last(), i);
        assert(t.last() == s.last());
    }
}

/// Cell indices are unique: equal indices mean the same cell.
proof fn lemma_cell_index_injective(n: int, a: (int, int), b: (int, int))
    requires
        0 <= a.0 < n,
        0 <= b.0 < n,
        0 <= a.1,
        0 <= b.1,
        cell_index(n, a) == cell_index(n, b),
    ensures
        a == b,
{
    assert(a.0 == b.0 && a.1 == b.1) by (nonlinear_arith)
        requires
            0 <= a.0 < n,
            0 <= b.0 < n,
            0 <= a.1,
            0 <= b.1,
            a.1 * n + a.0 == b.1 * n + b.0,
    ;
}

/// Whether `s` already holds the string `u`.
fn contains_string(v: &Vec<String>, s: &String) -> (r: bool)
    ensures
        r == trie::in_list(v@, s@),
{
    let mut k: usize = 0;
    while k < v.len()
        invariant
            k <= v@.len(),
            forall|t: int| 0 <= t < k ==> (#[trigger] v@[t])@ != s@,
        decreases v@.len() - k,
    {
        if v[k].eq(s) {
            proof {
                assert(0 <= k < v@.len() && v@[k as int]@ == s@);
            }
            return true;
        }
        k += 1;
    }
    false
}

/// The board searcher: a square grid of letters and the trie that both
/// prunes the search and decides which accumulated strings are words.
pub struct Boggle {
    pub board: Vec<Vec<char>>,
    pub n: usize,
    pub lexicon: trie::Node,
}

impl Boggle {
    /// Square board, a bit index for every cell, a well-formed lexicon.
    pub open spec fn wf(self) -> bool {
        &&& self.board@.len() == self.n
        &&& forall|i: int| 0 <= i < self.n ==> (#[trigger] self.board@[i])@.len() == self.n
        &&& self.n * self.n <= usize::MAX
        &&& self.lexicon.wf()
    }

    /// The letter at cell `(x, y)`.
    pub open spec fn cell(self, x: int, y: int) -> char {
        self.board@[x]@[y]
    }

    /// Within the board.
    pub open spec fn in_bounds(self, p: (int, int)) -> bool {
        0 <= p.0 < self.n && 0 <= p.1 < self.n
    }

    /// A legal search path: in-bounds cells, consecutive ones adjacent, and
    /// no cell used twice.
    pub open spec fn is_path(self, path: Seq<(int, int)>) -> bool {
        &&& forall|k: int| 0 <= k < path.len() ==> self.in_bounds(#[trigger] path[k])
        &&& forall|k: int| 0 <= k < path.len() - 1 ==> adjacent(#[trigger] path[k], path[k + 1])
        &&& forall|k: int, l: int| 0 <= k < l < path.len() ==> path[k] != path[l]
    }

    /// The letters a path spells, in order.
    pub open spec fn spells(self, path: Seq<(int, int)>) -> Seq<char> {
        Seq::new(path.len(), |k: int| self.cell(path[k].0, path[k].1))
    }

    /// `w` is spelled by some legal path that extends `path`: the exact
    /// shape of everything `visit_recur` may add.
    pub open spec fn rooted(self, path: Seq<(int, int)>, w: Seq<char>) -> bool {
        exists|rest: Seq<(int, int)>|
            self.is_path(path + rest) && self.spells(path + rest) == w
    }

    /// `w` is a word of the lexicon that some legal path on the board
    /// spells: what `solve` is allowed to report.
    pub open spec fn found_word(self, w: Seq<char>) -> bool {
        &&& self.lexicon.contains_word(w)
        &&& exists|path: Seq<(int, int)>|
            path.len() >= 1 && self.is_path(path) && self.spells(path) == w
    }

    /// Pair a validated grid with a lexicon.
    pub fn new(board: Grid, lexicon: trie::Node) -> (r: Boggle)
        requires
            board.wf(),
            lexicon.wf(),
        ensures
            r.wf(),
            r.n == board.n,
            r.board == board.data,
            r.lexicon == lexicon,
    {
        Boggle { board: board.data, n: board.n, lexicon }
    }

    /// All king-move neighbours of a cell that lie on the board: nothing
    /// else, and none of them missing.
    fn neighbors(&self, posn: &Posn) -> (r: Vec<Posn>)
        requires
            self.wf(),
            posn.x < self.n,
            posn.y < self.n,
        ensures
            forall|t: int|
                0 <= t < r@.len() ==> ((#[trigger] r@[t]).x < self.n && r@[t].y < self.n
                    && adjacent(pair_of(*posn), pair_of(r@[t]))),
            forall|q: (int, int)|
                #[trigger] adjacent(pair_of(*posn), q) && self.in_bounds(q) ==> exists|t: int|
                    0 <= t < r@.len() && pair_of(#[trigger] r@[t]) == q,
            forall|t: int, l: int|
                0 <= t < l < r@.len() ==> pair_of(#[trigger] r@[t]) != pair_of(#[trigger] r@[l]),
    {
        let mut result: Vec<Posn> = Vec::new();
        let x = posn.x;
        let y = posn.y;
        let ghost mut iwc: int = -1;
        let ghost mut iwn: int = -1;
        let ghost mut iws: int = -1;
        let ghost mut iec: int = -1;
        let ghost mut ies: int = -1;
        let ghost mut ien: int = -1;
        let ghost mut icn: int = -1;
        let ghost mut ics: int = -1;
        if x > 0 {
            result.push(Posn { x: x - 1, y });
            proof {
                iwc = result@.len() - 1;
            }
            if y > 0 {
                result.push(Posn { x: x - 1, y: y - 1 });
                proof {
                    iwn = result@.len() - 1;
                }
            }
            if y < self.n - 1 {
                result.push(Posn { x: x - 1, y: y + 1 });
                proof {
                    iws = result@.len() - 1;
                }
            }
        }
        if x < self.n - 1 {
            result.push(Posn { x: x + 1, y });
            proof {
                iec = result@.len() - 1;
            }
            if y < self.n - 1 {
                result.push(Posn { x: x + 1, y: y + 1 });
                proof {
                    ies = result@.len() - 1;
                }
            }
            if y > 0 {
                result.push(Posn { x: x + 1, y: y - 1 });
                proof {
                    ien = result@.len() - 1;
                }
            }
        }
        if y > 0 {
            result.push(Posn { x, y: y - 1 });
            proof {
                icn = result@.len() - 1;
            }
        }
        if y < self.n - 1 {
            result.push(Posn { x, y: y + 1 });
            proof {
                ics = result@.len() - 1;
            }
        }
        proof {
            let xi = x as int;
            let yi = y as int;
            assert forall|q: (int, int)|
                #[trigger] adjacent(pair_of(*posn), q) && self.in_bounds(q) implies exists|t: int|
                0 <= t < result@.len() && pair_of(#[trigger] result@[t]) == q by {
                if q.0 == xi - 1 {
                    if q.1 == yi - 1 {
                        assert(pair_of(result@[iwn]) == q);
                    } else if q.1 == yi {
                        assert(pair_of(result@[iwc]) == q);
                    } else {
                        assert(pair_of(result@[iws]) == q);
                    }
                } else if q.0 == xi {
                    if q.1 == yi - 1 {
                        assert(pair_of(result@[icn]) == q);
                    } else {
                        assert(pair_of(result@[ics]) == q);
                    }
                } else {
                    if q.1 == yi - 1 {
                        assert(pair_of(result@[ien]) == q);
                    } else if q.1 == yi {
                        assert(pair_of(result@[iec]) == q);
                    } else {
                        assert(pair_of(result@[ies]) == q);
                    }
                }
            }
        }
        result
    }

    /// The neighbours not yet on the current path.
    #[verifier::rlimit(50)]
    fn unvisited_neighbors(&self, posn: &Posn, visited: &Visited) -> (r: Vec<Posn>)
        requires
            self.wf(),
            visited.wf(),
            visited.n == self.n,
            posn.x < self.n,
            posn.y < self.n,
        ensures
            forall|t: int|
                0 <= t < r@.len() ==> ((#[trigger] r@[t]).x < self.n && r@[t].y < self.n
                    && adjacent(pair_of(*posn), pair_of(r@[t])) && !visited.bits()[cell_index(
                    self.n as int,
                    pair_of(r@[t]),
                )]),
            forall|q: (int, int)|
                #[trigger] adjacent(pair_of(*posn), q) && self.in_bounds(q)
                    && !visited.bits()[cell_index(self.n as int, q)] ==> exists|t: int|
                    0 <= t < r@.len() && pair_of(#[trigger] r@[t]) == q,
            forall|t: int, l: int|
                0 <= t < l < r@.len() ==> pair_of(#[trigger] r@[t]) != pair_of(#[trigger] r@[l]),
    {
        let all = self.neighbors(posn);
        let mut result: Vec<Posn> = Vec::new();
        let ghost mut wit: Seq<int> = Seq::empty();
        let mut t: usize = 0;
        while t < all.len()
            invariant
                self.wf(),
                visited.wf(),
                visited.n == self.n,
                t <= all@.len(),
                forall|u: int|
                    0 <= u < all@.len() ==> ((#[trigger] all@[u]).x < self.n && all@[u].y < self.n
                        && adjacent(pair_of(*posn), pair_of(all@[u]))),
                forall|u: int|
                    0 <= u < result@.len() ==> ((#[trigger] result@[u]).x < self.n
                        && result@[u].y < self.n && adjacent(pair_of(*posn), pair_of(result@[u]))
                        && !visited.bits()[cell_index(self.n as int, pair_of(result@[u]))]),
                forall|u: int|
                    0 <= u < t && !visited.bits()[cell_index(
                        self.n as int,
                        pair_of(#[trigger] all@[u]),
                    )] ==> exists|v: int|
                        0 <= v < result@.len() && pair_of(#[trigger] result@[v]) == pair_of(
                            all@[u],
                        ),
                wit.len() == result@.len(),
                forall|v: int|
                    0 <= v < wit.len() ==> 0 <= #[trigger] wit[v] < t && pair_of(result@[v])
                        == pair_of(all@[wit[v]]),
                forall|v: int, w: int|
                    0 <= v < w < wit.len() ==> #[trigger] wit[v] < #[trigger] wit[w],
            decreases all@.len() - t,
        {
            let candidate = all[t];
            let ghost pre = result@;
            let was_visited = visited.check(&candidate);
            if !was_visited {
                result.push(candidate);
                proof {
                    wit = wit.push(t as int);
                }
            }
            proof {
                if was_visited {
                    assert(visited.bits()[cell_index(self.n as int, pair_of(all@[t as int]))]);
                }
                assert forall|u: int|
                    0 <= u < t + 1 && !visited.bits()[cell_index(
                        self.n as int,
                        pair_of(#[trigger] all@[u]),
                    )] implies exists|v: int|
                    0 <= v < result@.len() && pair_of(#[trigger] result@[v]) == pair_of(
                        all@[u],
                    ) by {
                    if u < t {
                        let v0 = choose|v: int|
                            0 <= v < pre.len() && pair_of(#[trigger] pre[v]) == pair_of(all@[u]);
                        assert(pair_of(result@[v0]) == pair_of(all@[u]));
                    } else {
                        assert(!was_visited);
                        assert(pair_of(result@[result@.len() - 1]) == pair_of(all@[u]));
                    }
                }
            }
            t += 1;
        }
        proof {
            // the witnesses map the result injectively into `all`, whose
            // entries are pairwise distinct
            assert forall|v: int, w: int|
                0 <= v < w < result@.len() implies pair_of(#[trigger] result@[v]) != pair_of(
                #[trigger] result@[w],
            ) by {
                assert(wit[v] < wit[w]);
                assert(pair_of(all@[wit[v]]) != pair_of(all@[wit[w]]));
            }
            assert forall|q: (int, int)|
                #[trigger] adjacent(pair_of(*posn), q) && self.in_bounds(q)
                    && !visited.bits()[cell_index(self.n as int, q)] implies exists|t0: int|
                0 <= t0 < result@.len() && pair_of(#[trigger] result@[t0]) == q by {
                let u = choose|u: int| 0 <= u < all@.len() && pair_of(#[trigger] all@[u]) == q;
                assert(!visited.bits()[cell_index(self.n as int, pair_of(all@[u]))]);
            }
        }
        result
    }

    /// Extend the path ending at `posn` in every legal direction, pruning
    /// through the lexicon; every string this adds to `found` is a lexicon
    /// word that some legal path spells, and `found` stays free of
    /// duplicates. The ghost `path` is the route walked so far, ending at
    /// `posn`; `acc` spells everything before `posn`, and `visited` marks
    /// exactly the cells before `posn`.
    #[verifier::rlimit(100)]
    #[verifier::spinoff_prover]
    pub fn visit_recur(
        &self,
        posn: Posn,
        acc: &str,
        visited: Visited,
        found: &mut Vec<String>,
        path: Ghost<Seq<(int, int)>>,
    )
        requires
            self.wf(),
            visited.wf(),
            visited.n == self.n,
            posn.x < self.n,
            posn.y < self.n,
            self.is_path(path@),
            path@.len() >= 1,
            path@.last() == pair_of(posn),
            acc@ == self.spells(path@.drop_last()),
            forall|j: int|
                0 <= j < visited.bits().len() ==> ((#[trigger] visited.bits()[j]) <==> exists|
                    t: int,
                |
                    0 <= t < path@.len() - 1 && cell_index(self.n as int, path@[t]) == j),
            forall|k: int, l: int|
                0 <= k < l < old(found)@.len() ==> (#[trigger] old(found)@[k])@ != (
                #[trigger] old(found)@[l])@,
        ensures
            final(found)@.len() >= old(found)@.len(),
            final(found)@.subrange(0, old(found)@.len() as int) == old(found)@,
            forall|k: int|
                old(found)@.len() <= k < final(found)@.len() ==> self.found_word(
                    (#[trigger] final(found)@[k])@,
                ),
            forall|k: int, l: int|
                0 <= k < l < final(found)@.len() ==> (#[trigger] final(found)@[k])@ != (
                #[trigger] final(found)@[l])@,
            forall|rest: Seq<(int, int)>|
                self.is_path(path@ + rest) && self.lexicon.contains_word(
                    #[trigger] self.spells(path@ + rest),
                ) ==> trie::in_list(final(found)@, self.spells(path@ + rest)),
            (forall|w: Seq<char>|
                !(#[trigger] self.lexicon.contains_word(self.spells(path@) + w)))
                ==> final(found)@ == old(found)@,
            forall|k: int|
                old(found)@.len() <= k < final(found)@.len() ==> self.rooted(
                    path@,
                    (#[trigger] final(found)@[k])@,
                ),
        decreases self.n * self.n - count_trues(visited.bits()),
    {
        let current = self.board[posn.x][posn.y];
        let mut word = acc.to_owned();
        trie::push_char(&mut word, current);
        proof {
            assert(word@ =~= self.spells(path@)) by {
                assert forall|t: int| 0 <= t < path@.len() implies word@[t] == self.spells(
                    path@,
                )[t] by {
                    if t < path@.len() - 1 {
                        assert(word@[t] == self.spells(path@.drop_last())[t]);
                        assert(path@.drop_last()[t] == path@[t]);
                    } else {
                        assert(path@[t] == pair_of(posn));
                    }
                }
            }
        }
        match self.lexicon.find_node(word.as_str()) {
            None => {
                proof {
                    assert(found@.subrange(0, old(found)@.len() as int) =~= old(found)@);
                    // the prune is safe: nothing along this path can still be
                    // a stored word, because this prefix completes to none
                    assert forall|rest: Seq<(int, int)>|
                        self.is_path(path@ + rest) && self.lexicon.contains_word(
                            #[trigger] self.spells(path@ + rest),
                        ) implies trie::in_list(found@, self.spells(path@ + rest)) by {
                        let full = self.spells(path@ + rest);
                        let tail = full.skip(path@.len() as int);
                        assert(full =~= word@ + tail) by {
                            assert forall|i: int| 0 <= i < full.len() implies full[i] == (word@
                                + tail)[i] by {
                                if i < path@.len() {
                                    assert((path@ + rest)[i] == path@[i]);
                                    assert(word@[i] == self.spells(path@)[i]);
                                }
                            }
                        }
                        assert(!self.lexicon.contains_word(word@ + tail));
                        assert(false);
                    }
                }
            },
            Some(node) => {
                let is_w = node.is_word();
                proof {
                    assert(word@ + Seq::<char>::empty() =~= word@);
                    assert(is_w == self.lexicon.contains_word(word@));
                }
                if is_w {
                    if !contains_string(found, &word) {
                        let entry = word.as_str().to_owned();
                        found.push(entry);
                        proof {
                            assert(self.found_word(word@)) by {
                                assert(path@.len() >= 1 && self.is_path(path@) && self.spells(
                                    path@,
                                ) == word@);
                            }
                            assert(found@.subrange(0, old(found)@.len() as int) =~= old(found)@);
                            assert(found@[found@.len() - 1]@ == word@);
                        }
                    }
                }
                proof {
                    assert(self.lexicon.contains_word(word@) ==> trie::in_list(found@, word@));
                    let er = Seq::<(int, int)>::empty();
                    assert(path@ + er =~= path@);
                    assert(self.is_path(path@ + er) && self.spells(path@ + er) == word@);
                    assert(self.rooted(path@, word@));
                    assert forall|k: int|
                        old(found)@.len() <= k < found@.len() implies self.rooted(
                        path@,
                        (#[trigger] found@[k])@,
                    ) by {
                        assert(found@[k]@ == word@);
                    }
                }
                let neighbors = self.unvisited_neighbors(&posn, &visited);
                let ghost nn = self.n as int;
                let mut k: usize = 0;
                while k < neighbors.len()
                    invariant
                        self.wf(),
                        visited.wf(),
                        visited.n == self.n,
                        nn == self.n as int,
                        posn.x < self.n,
                        posn.y < self.n,
                        self.is_path(path@),
                        path@.len() >= 1,
                        path@.last() == pair_of(posn),
                        word@ == self.spells(path@),
                        forall|j: int|
                            0 <= j < visited.bits().len() ==> ((#[trigger] visited.bits()[j])
                                <==> exists|t: int|
                                0 <= t < path@.len() - 1 && cell_index(nn, path@[t]) == j),
                        k <= neighbors@.len(),
                        forall|t: int|
                            0 <= t < neighbors@.len() ==> ((#[trigger] neighbors@[t]).x < self.n
                                && neighbors@[t].y < self.n && adjacent(
                                pair_of(posn),
                                pair_of(neighbors@[t]),
                            ) && !visited.bits()[cell_index(nn, pair_of(neighbors@[t]))]),
                        found@.len() >= old(found)@.len(),
                        found@.subrange(0, old(found)@.len() as int) == old(found)@,
                        forall|t: int|
                            old(found)@.len() <= t < found@.len() ==> self.found_word(
                                (#[trigger] found@[t])@,
                            ),
                        forall|t: int, l: int|
                            0 <= t < l < found@.len() ==> (#[trigger] found@[t])@ != (
                            #[trigger] found@[l])@,
                        self.lexicon.contains_word(word@) ==> trie::in_list(found@, word@),
                        forall|k: int|
                            old(found)@.len() <= k < found@.len() ==> self.rooted(
                                path@,
                                (#[trigger] found@[k])@,
                            ),
                        forall|rest: Seq<(int, int)>|
                            rest.len() >= 1 && self.is_path(path@ + rest)
                                && self.lexicon.contains_word(#[trigger] self.spells(path@ + rest))
                                && (exists|t: int|
                                0 <= t < k && pair_of(#[trigger] neighbors@[t]) == rest[0])
                                ==> trie::in_list(found@, self.spells(path@ + rest)),
                    decreases neighbors@.len() - k,
                {
                    let np = neighbors[k];
                    let mut next_visited = visited.duplicate();
                    next_visited.mark_visited(&posn);
                    let ghost npath = path@.push(pair_of(np));
                    let ghost pp = pair_of(posn);
                    let ghost q = pair_of(np);
                    let ghost pidx = cell_index(nn, pp);
                    proof {
                        assert(0 <= pidx < nn * nn) by (nonlinear_arith)
                            requires
                                pidx == pp.1 * nn + pp.0,
                                0 <= pp.0 < nn,
                                0 <= pp.1 < nn,
                        ;
                        assert(!visited.bits()[pidx]) by {
                            if visited.bits()[pidx] {
                                let t = choose|t: int|
                                    0 <= t < path@.len() - 1 && cell_index(nn, path@[t]) == pidx;
                                lemma_cell_index_injective(nn, path@[t], pp);
                                assert(path@[t] == path@[path@.len() - 1]);
                                assert(false);
                            }
                        }
                        assert(next_visited.bits() == visited.bits().update(pidx, true));
                        assert(npath.drop_last() =~= path@);
                        assert(self.is_path(npath)) by {
                            assert forall|t: int| 0 <= t < npath.len() implies self.in_bounds(
                                #[trigger] npath[t],
                            ) by {
                                if t < path@.len() {
                                    assert(npath[t] == path@[t]);
                                }
                            }
                            assert forall|t: int| 0 <= t < npath.len() - 1 implies adjacent(
                                #[trigger] npath[t],
                                npath[t + 1],
                            ) by {
                                if t < path@.len() - 1 {
                                    assert(npath[t] == path@[t] && npath[t + 1] == path@[t + 1]);
                                } else {
                                    assert(npath[t] == pp && npath[t + 1] == q);
                                }
                            }
                            assert forall|t: int, l: int|
                                0 <= t < l < npath.len() implies npath[t] != npath[l] by {
                                if l < path@.len() {
                                } else {
                                    // the new cell is unvisited and is not `posn`
                                    assert(npath[l] == q);
                                    if t < path@.len() - 1 {
                                        if npath[t] == q {
                                            assert(0 <= cell_index(nn, q) < nn * nn)
                                                by (nonlinear_arith)
                                                requires
                                                    0 <= q.0 < nn,
                                                    0 <= q.1 < nn,
                                            ;
                                            assert(visited.bits()[cell_index(nn, q)]);
                                            assert(false);
                                        }
                                    } else {
                                        assert(npath[t] == pp);
                                        assert(adjacent(pp, q));
                                    }
                                }
                            }
                        }
                        assert forall|j: int| 0 <= j < next_visited.bits().len() implies ((
                        #[trigger] next_visited.bits()[j]) <==> exists|t: int|
                            0 <= t < npath.len() - 1 && cell_index(nn, npath[t]) == j) by {
                            if j == pidx {
                                assert(next_visited.bits()[j]);
                                assert(npath[path@.len() - 1] == pp);
                                assert(cell_index(nn, npath[path@.len() - 1]) == j);
                            } else {
                                assert(next_visited.bits()[j] == visited.bits()[j]);
                                if visited.bits()[j] {
                                    let t = choose|t: int|
                                        0 <= t < path@.len() - 1 && cell_index(nn, path@[t]) == j;
                                    assert(npath[t] == path@[t]);
                                    assert(cell_index(nn, npath[t]) == j);
                                }
                                if exists|t: int|
                                    0 <= t < npath.len() - 1 && cell_index(nn, npath[t]) == j {
                                    let t = choose|t: int|
                                        0 <= t < npath.len() - 1 && cell_index(nn, npath[t]) == j;
                                    if t == path@.len() - 1 {
                                        assert(npath[t] == pp);
                                        assert(false);
                                    } else {
                                        assert(npath[t] == path@[t]);
                                        assert(visited.bits()[j]);
                                    }
                                }
                            }
                        }
                        lemma_count_le_len(visited.bits());
                        lemma_count_update(visited.bits(), pidx);
                        lemma_count_le_len(next_visited.bits());
                    }
                    let ghost pre = found@;
                    self.visit_recur(np, word.as_str(), next_visited, found, Ghost(npath));
                    proof {
                        assert(found@.subrange(0, old(found)@.len() as int) =~= old(found)@) by {
                            assert(found@.subrange(0, pre.len() as int) == pre);
                            assert forall|t: int| 0 <= t < old(found)@.len() implies found@.subrange(
                                0,
                                old(found)@.len() as int,
                            )[t] == old(found)@[t] by {
                                assert(found@.subrange(0, pre.len() as int)[t] == pre[t]);
                                assert(pre.subrange(0, old(found)@.len() as int)[t] == old(
                                    found,
                                )@[t]);
                            }
                        }
                        assert forall|t: int|
                            old(found)@.len() <= t < found@.len() implies self.found_word(
                            (#[trigger] found@[t])@,
                        ) by {
                            if t < pre.len() {
                                assert(found@.subrange(0, pre.len() as int)[t] == pre[t]);
                                assert(found@[t] == pre[t]);
                            }
                        }
                        // previously present words stay present
                        assert forall|u: Seq<char>| trie::in_list(pre, u) implies trie::in_list(
                            found@,
                            u,
                        ) by {
                            let v = choose|v: int| 0 <= v < pre.len() && pre[v]@ == u;
                            assert(found@.subrange(0, pre.len() as int)[v] == pre[v]);
                            assert(found@[v]@ == u);
                        }
                        // everything reachable through a neighbour handled so
                        // far is present
                        assert forall|rest: Seq<(int, int)>|
                            rest.len() >= 1 && self.is_path(path@ + rest)
                                && self.lexicon.contains_word(#[trigger] self.spells(path@ + rest))
                                && (exists|t: int|
                                0 <= t < k + 1 && pair_of(#[trigger] neighbors@[t])
                                    == rest[0]) implies trie::in_list(
                            found@,
                            self.spells(path@ + rest),
                        ) by {
                            let t0 = choose|t: int|
                                0 <= t < k + 1 && pair_of(#[trigger] neighbors@[t]) == rest[0];
                            if t0 < k {
                                assert(trie::in_list(pre, self.spells(path@ + rest)));
                            } else {
                                let rest1 = rest.skip(1);
                                assert(npath + rest1 =~= path@ + rest);
                                assert(self.spells(npath + rest1) == self.spells(path@ + rest));
                                assert(trie::in_list(found@, self.spells(npath + rest1)));
                            }
                        }
                        // new entries still come from paths rooted here
                        assert forall|k2: int|
                            old(found)@.len() <= k2 < found@.len() implies self.rooted(
                            path@,
                            (#[trigger] found@[k2])@,
                        ) by {
                            if k2 < pre.len() {
                                assert(found@.subrange(0, pre.len() as int)[k2] == pre[k2]);
                                assert(found@[k2] == pre[k2]);
                                assert(self.rooted(path@, pre[k2]@));
                            } else {
                                assert(self.rooted(npath, found@[k2]@));
                                let rest1 = choose|rest1: Seq<(int, int)>|
                                    self.is_path(npath + rest1) && self.spells(npath + rest1)
                                        == found@[k2]@;
                                let rst = seq![pair_of(np)] + rest1;
                                assert(path@ + rst =~= npath + rest1);
                                assert(self.is_path(path@ + rst) && self.spells(path@ + rst)
                                    == found@[k2]@);
                            }
                        }
                    }
                    k += 1;
                }
                proof {
                    // a stem that completes to no stored word gains nothing:
                    // every new entry is a stored word some extension spells
                    assert((forall|w: Seq<char>|
                        !(#[trigger] self.lexicon.contains_word(self.spells(path@) + w)))
                        ==> found@ == old(found)@) by {
                        if (forall|w: Seq<char>|
                            !(#[trigger] self.lexicon.contains_word(self.spells(path@) + w))) {
                            if found@.len() > old(found)@.len() {
                                let e = found@[old(found)@.len() as int];
                                assert(self.rooted(path@, e@) && self.found_word(e@));
                                let rest = choose|rest: Seq<(int, int)>|
                                    self.is_path(path@ + rest) && self.spells(path@ + rest) == e@;
                                let tail = self.spells(path@ + rest).skip(path@.len() as int);
                                assert(self.spells(path@ + rest) =~= self.spells(path@) + tail)
                                    by {
                                    assert forall|i: int|
                                        0 <= i < self.spells(path@ + rest).len() implies self.spells(
                                        path@ + rest,
                                    )[i] == (self.spells(path@) + tail)[i] by {
                                        if i < path@.len() {
                                            assert((path@ + rest)[i] == path@[i]);
                                        }
                                    }
                                }
                                assert(!self.lexicon.contains_word(self.spells(path@) + tail));
                                assert(false);
                            }
                            assert(found@ =~= old(found)@) by {
                                assert forall|i: int| 0 <= i < found@.len() implies found@[i]
                                    == old(found)@[i] by {
                                    assert(found@.subrange(0, old(found)@.len() as int)[i]
                                        == old(found)@[i]);
                                }
                            }
                        }
                    }
                    let nn0 = self.n as int;
                    assert forall|rest: Seq<(int, int)>|
                        self.is_path(path@ + rest) && self.lexicon.contains_word(
                            #[trigger] self.spells(path@ + rest),
                        ) implies trie::in_list(found@, self.spells(path@ + rest)) by {
                        if rest.len() == 0 {
                            assert(path@ + rest =~= path@);
                            assert(self.spells(path@ + rest) == word@);
                        } else {
                            let q = rest[0];
                            assert((path@ + rest)[path@.len() as int] == q);
                            assert(self.in_bounds(q));
                            assert((path@ + rest)[path@.len() - 1] == pair_of(posn));
                            assert(adjacent(pair_of(posn), q));
                            assert(!visited.bits()[cell_index(nn0, q)]) by {
                                assert(0 <= cell_index(nn0, q) < nn0 * nn0) by (nonlinear_arith)
                                    requires
                                        cell_index(nn0, q) == q.1 * nn0 + q.0,
                                        0 <= q.0 < nn0,
                                        0 <= q.1 < nn0,
                                ;
                                if visited.bits()[cell_index(nn0, q)] {
                                    let t = choose|t: int|
                                        0 <= t < path@.len() - 1 && cell_index(nn0, path@[t])
                                            == cell_index(nn0, q);
                                    assert((path@ + rest)[t] == path@[t]);
                                    assert(self.in_bounds(path@[t]));
                                    lemma_cell_index_injective(nn0, path@[t], q);
                                    assert((path@ + rest)[t] == (path@ + rest)[path@.len() as int]);
                                    assert(false);
                                }
                            }
                            assert(exists|t: int|
                                0 <= t < neighbors@.len() && pair_of(#[trigger] neighbors@[t])
                                    == q);
                            assert(trie::in_list(found@, self.spells(path@ + rest)));
                        }
                    }
                }
            },
        }
    }

    /// Search the whole board: start an independent depth-first search at
    /// every cell. The result holds exactly the lexicon words that some
    /// legal path spells (no cell used twice), each reported once.
    pub fn solve(&self) -> (r: Vec<String>)
        requires
            self.wf(),
        ensures
            forall|k: int| 0 <= k < r@.len() ==> self.found_word((#[trigger] r@[k])@),
            forall|k: int, l: int|
                0 <= k < l < r@.len() ==> (#[trigger] r@[k])@ != (#[trigger] r@[l])@,
            forall|w: Seq<char>| #[trigger] self.found_word(w) ==> trie::in_list(r@, w),
    {
        let n = self.n;
        let mut found: Vec<String> = Vec::new();
        let mut x: usize = 0;
        while x < n
            invariant
                self.wf(),
                n == self.n,
                x <= n,
                forall|k: int| 0 <= k < found@.len() ==> self.found_word((#[trigger] found@[k])@),
                forall|k: int, l: int|
                    0 <= k < l < found@.len() ==> (#[trigger] found@[k])@ != (
                    #[trigger] found@[l])@,
                forall|p: Seq<(int, int)>|
                    p.len() >= 1 && self.is_path(p) && self.lexicon.contains_word(
                        #[trigger] self.spells(p),
                    ) && p[0].0 < x ==> trie::in_list(found@, self.spells(p)),
            decreases n - x,
        {
            proof {
                assert forall|p: Seq<(int, int)>|
                    p.len() >= 1 && self.is_path(p) && self.lexicon.contains_word(
                        #[trigger] self.spells(p),
                    ) && (p[0].0 < x as int || (p[0].0 == x as int && p[0].1
                        < 0)) implies trie::in_list(found@, self.spells(p)) by {
                    assert(self.in_bounds(p[0]));
                }
            }
            let mut y: usize = 0;
            while y < n
                invariant
                    self.wf(),
                    n == self.n,
                    x < n,
                    y <= n,
                    forall|k: int|
                        0 <= k < found@.len() ==> self.found_word((#[trigger] found@[k])@),
                    forall|k: int, l: int|
                        0 <= k < l < found@.len() ==> (#[trigger] found@[k])@ != (
                        #[trigger] found@[l])@,
                    forall|p: Seq<(int, int)>|
                        p.len() >= 1 && self.is_path(p) && self.lexicon.contains_word(
                            #[trigger] self.spells(p),
                        ) && (p[0].0 < x as int || (p[0].0 == x as int && p[0].1 < y as int))
                            ==> trie::in_list(found@, self.spells(p)),
                decreases n - y,
            {
                let visited = Visited::new(n);
                let start = Posn { x, y };
                let acc = String::new();
                let ghost path0: Seq<(int, int)> = seq![(x as int, y as int)];
                proof {
                    assert(path0.drop_last() =~= Seq::<(int, int)>::empty());
                    assert(acc@ =~= self.spells(path0.drop_last()));
                    assert forall|j: int| 0 <= j < visited.bits().len() implies ((
                    #[trigger] visited.bits()[j]) <==> exists|t: int|
                        0 <= t < path0.len() - 1 && cell_index(self.n as int, path0[t]) == j) by {
                        assert(!visited.bits()[j]);
                    }
                }
                let ghost pre = found@;
                self.visit_recur(start, acc.as_str(), visited, &mut found, Ghost(path0));
                proof {
                    assert forall|k: int| 0 <= k < found@.len() implies self.found_word(
                        (#[trigger] found@[k])@,
                    ) by {
                        if k < pre.len() {
                            assert(found@.subrange(0, pre.len() as int)[k] == pre[k]);
                            assert(found@[k] == pre[k]);
                        }
                    }
                    assert forall|u: Seq<char>| trie::in_list(pre, u) implies trie::in_list(
                        found@,
                        u,
                    ) by {
                        let v = choose|v: int| 0 <= v < pre.len() && pre[v]@ == u;
                        assert(found@.subrange(0, pre.len() as int)[v] == pre[v]);
                        assert(found@[v]@ == u);
                    }
                    assert forall|p: Seq<(int, int)>|
                        p.len() >= 1 && self.is_path(p) && self.lexicon.contains_word(
                            #[trigger] self.spells(p),
                        ) && (p[0].0 < x as int || (p[0].0 == x as int && p[0].1 < y as int
                            + 1)) implies trie::in_list(found@, self.spells(p)) by {
                        if p[0].0 < x as int || (p[0].0 == x as int && p[0].1 < y as int) {
                            assert(trie::in_list(pre, self.spells(p)));
                        } else {
                            assert(p[0] == (x as int, y as int));
                            let rest = p.skip(1);
                            assert(path0 + rest =~= p);
                            assert(self.spells(path0 + rest) == self.spells(p));
                            assert(self.is_path(path0 + rest));
                            assert(trie::in_list(found@, self.spells(path0 + rest)));
                        }
                    }
                }
                y += 1;
            }
            proof {
                assert forall|p: Seq<(int, int)>|
                    p.len() >= 1 && self.is_path(p) && self.lexicon.contains_word(
                        #[trigger] self.spells(p),
                    ) && p[0].0 < x as int + 1 implies trie::in_list(found@, self.spells(p)) by {
                    assert(self.in_bounds(p[0]));
                }
            }
            x += 1;
        }
        proof {
            assert forall|w: Seq<char>| #[trigger] self.found_word(w) implies trie::in_list(
                found@,
                w,
            ) by {
                let p = choose|p: Seq<(int, int)>|
                    p.len() >= 1 && self.is_path(p) && self.spells(p) == w;
                assert(self.in_bounds(p[0]));
                assert(trie::in_list(found@, self.spells(p)));
            }
        }
        found
    }
}

} // verus!
