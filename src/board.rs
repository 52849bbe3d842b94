//! The board and the word-path engine: a depth-first search for words traced
//! through 8-directionally adjacent, pairwise distinct cells.

use vstd::prelude::*;
use vstd::string::*;
use crate::words::{lemma_expand_injective, string_of, expand, expand_qu, normalize, normalize_word, views};
use crate::grid::{col, row, near, step_rank, lemma_cell_coords, lemma_cell_in_grid};

verus! {

/// A lowercase ASCII letter.
pub open spec fn is_letter(c: char) -> bool {
    'a' <= c <= 'z'
}

/// A square grid of letters, stored row-major, with the dictionary and the
/// minimum word length of one round.
pub struct Board {
    pub size: usize,
    pub chars: Vec<char>,
    pub min_len: usize,
    pub words: Vec<String>,
}

/// Why a word offered by the player is not accepted.
#[derive(Debug, Clone, Copy, PartialEq, Eq, Structural)]
pub enum Rejection {
    /// Shorter than the board's minimum length.
    TooShort,
    /// Not a word of the board's dictionary.
    NotInDictionary,
    /// The search does not find it on the board.
    NotFound,
}

/// Whether `x` occurs in `v`.
fn contains(v: &Vec<usize>, x: usize) -> (r: bool)
    ensures
        r == v@.contains(x),
{
    let mut k: usize = 0;
    while k < v.len()
        invariant
            forall|m: int| 0 <= m < k ==> v@[m] != x,
        decreases v.len() - k,
    {
        if v[k] == x {
            return true;
        }
        k = k + 1;
    }
    false
}

/// The coordinate one step along an axis from `x`: `d` is 0 for +1, 1 for no
/// step and 2 for -1; `None` when the step leaves the grid.
fn shift(x: usize, size: usize, d: usize) -> (r: Option<usize>)
    requires
        x < size,
        d < 3,
    ensures
        r == (if 0 <= x + 1 - d < size {
            Some((x + 1 - d) as usize)
        } else {
            None::<usize>
        }),
{
    if d == 0 {
        if x + 1 < size {
            Some(x + 1)
        } else {
            None
        }
    } else if d == 1 {
        Some(x)
    } else if x >= 1 {
        Some(x - 1)
    } else {
        None
    }
}

impl Board {
    /// The board is square with side at least 2, every cell holds a letter,
    /// and words shorter than 2 are never accepted.
    pub open spec fn wf(&self) -> bool {
        &&& self.size >= 2
        &&& self.min_len >= 2
        &&& self.chars@.len() == self.size * self.size
        &&& forall|i: int| 0 <= i < self.chars@.len() ==> is_letter(#[trigger] self.chars@[i])
    }

    /// Cells `i` and `j` touch horizontally, vertically or diagonally.
    pub open spec fn adjacent(&self, i: int, j: int) -> bool {
        i != j && near(self.size as int, i, j)
    }

    /// `p` is a path of pairwise distinct cells of this board, each one near
    /// the one before, whose letters spell `w`.
    pub open spec fn spells(&self, w: Seq<char>, p: Seq<usize>) -> bool {
        &&& p.len() == w.len()
        &&& forall|k: int|
            0 <= k < p.len() ==> (#[trigger] p[k]) < self.chars@.len() && self.chars@[p[k] as int]
                == w[k]
        &&& forall|k: int|
            0 <= k < p.len() - 1 ==> near(self.size as int, #[trigger] p[k] as int, p[k + 1] as int)
        &&& p.no_duplicates()
    }

    /// Some path of this board spells `w` (the empty path spells the empty
    /// word).
    pub open spec fn findable(&self, w: Seq<char>) -> bool {
        exists|p: Seq<usize>| self.spells(w, p)
    }

    /// `p` spells `w`, starts at cell `i` and uses no cell of `visited`.
    pub open spec fn spells_from(&self, w: Seq<char>, i: usize, visited: Seq<usize>, p: Seq<usize>) -> bool {
        &&& self.spells(w, p)
        &&& p.len() > 0
        &&& p[0] == i
        &&& forall|k: int| 0 <= k < p.len() ==> !visited.contains(#[trigger] p[k])
    }

    /// The search from cell `i`, with `visited` already used, finds `w`: it
    /// is empty, or some path spelling it starts at `i` and avoids `visited`.
    pub open spec fn found_from(&self, w: Seq<char>, i: usize, visited: Seq<usize>) -> bool {
        w.len() == 0 || exists|p: Seq<usize>| self.spells_from(w, i, visited, p)
    }

    /// `q` comes before `p` in the search's neighbour order: they agree up to
    /// some cell, and from there `q` steps in an earlier direction.
    pub open spec fn steps_before(&self, q: Seq<usize>, p: Seq<usize>) -> bool {
        exists|t: int|
            1 <= t < q.len() && t < p.len() && q.subrange(0, t) == p.subrange(0, t) && #[trigger] step_rank(
                self.size as int,
                q[t - 1] as int,
                q[t] as int,
            ) < step_rank(self.size as int, p[t - 1] as int, p[t] as int)
    }

    /// `q` comes before `p` in search order: it starts on an earlier cell, or
    /// on the same cell and steps before it.
    pub open spec fn searched_before(&self, q: Seq<usize>, p: Seq<usize>) -> bool {
        q.len() > 0 && p.len() > 0 && (q[0] < p[0] || (q[0] == p[0] && self.steps_before(q, p)))
    }

    /// A path from `j` that avoids `visited` and `i` extends by `i` in front.
    proof fn lemma_extend(&self, w: Seq<char>, i: usize, visited: Seq<usize>, j: usize, q: Seq<usize>)
        requires
            w.len() >= 2,
            i < self.chars@.len(),
            self.chars@[i as int] == w[0],
            !visited.contains(i),
            near(self.size as int, i as int, j as int),
            self.spells_from(w.drop_first(), j, visited.push(i), q),
        ensures
            self.spells_from(w, i, visited, seq![i] + q),
            self.found_from(w, i, visited),
    {
        let p = seq![i] + q;
        assert forall|k: int| 0 <= k < p.len() implies !visited.contains(#[trigger] p[k]) by {
            if k > 0 {
                assert(p[k] == q[k - 1]);
                assert(!visited.push(i).contains(q[k - 1]));
                if visited.contains(q[k - 1]) {
                    let m = choose|m: int| 0 <= m < visited.len() && visited[m] == q[k - 1];
                    assert(visited.push(i)[m] == q[k - 1]);
                }
            }
        }
        assert forall|k: int| 0 <= k < p.len() implies (#[trigger] p[k]) < self.chars@.len()
            && self.chars@[p[k] as int] == w[k] by {
            if k > 0 {
                assert(p[k] == q[k - 1]);
                assert(w.drop_first()[k - 1] == w[k]);
            }
        }
        assert forall|k: int| 0 <= k < p.len() - 1 implies near(
            self.size as int,
            #[trigger] p[k] as int,
            p[k + 1] as int,
        ) by {
            if k > 0 {
                assert(p[k] == q[k - 1] && p[k + 1] == q[k]);
            }
        }
        assert forall|a: int, b: int| 0 <= a < p.len() && 0 <= b < p.len() && a != b implies p[a]
            != p[b] by {
            if a > 0 && b > 0 {
                assert(p[a] == q[a - 1] && p[b] == q[b - 1]);
            } else if a == 0 {
                assert(p[b] == q[b - 1]);
                assert(visited.push(i)[visited.len() as int] == i);
                assert(!visited.push(i).contains(q[b - 1]));
            } else {
                assert(p[a] == q[a - 1]);
                assert(visited.push(i)[visited.len() as int] == i);
                assert(!visited.push(i).contains(q[a - 1]));
            }
        }
        assert(self.spells_from(w, i, visited, p));
    }

    /// A path of two cells or more from `i` continues from its second cell.
    proof fn lemma_shorten(&self, w: Seq<char>, i: usize, visited: Seq<usize>, p: Seq<usize>)
        requires
            w.len() >= 2,
            self.spells_from(w, i, visited, p),
        ensures
            self.spells_from(w.drop_first(), p[1], visited.push(i), p.drop_first()),
            self.found_from(w.drop_first(), p[1], visited.push(i)),
            near(self.size as int, i as int, p[1] as int),
            p[1] < self.chars@.len(),
            !visited.push(i).contains(p[1]),
    {
        let q = p.drop_first();
        assert(near(self.size as int, p[0] as int, p[1] as int));
        assert forall|k: int| 0 <= k < q.len() implies !visited.push(i).contains(#[trigger] q[k]) by {
            assert(q[k] == p[k + 1]);
            assert(!visited.contains(p[k + 1]));
            assert(p[0] != p[k + 1]);
            if visited.push(i).contains(q[k]) {
                let m = choose|m: int| 0 <= m < visited.len() + 1 && visited.push(i)[m] == q[k];
                if m < visited.len() {
                    assert(visited[m] == q[k]);
                }
            }
        }
        assert forall|k: int| 0 <= k < q.len() implies (#[trigger] q[k]) < self.chars@.len()
            && self.chars@[q[k] as int] == w.drop_first()[k] by {
            assert(q[k] == p[k + 1]);
        }
        assert forall|k: int| 0 <= k < q.len() - 1 implies near(
            self.size as int,
            #[trigger] q[k] as int,
            q[k + 1] as int,
        ) by {
            assert(q[k] == p[k + 1] && q[k + 1] == p[k + 2]);
        }
        assert forall|a: int, b: int| 0 <= a < q.len() && 0 <= b < q.len() && a != b implies q[a]
            != q[b] by {
            assert(q[a] == p[a + 1] && q[b] == p[b + 1]);
        }
        assert(q[0] == p[1]);
        assert(self.spells_from(w.drop_first(), p[1], visited.push(i), q));
    }

    fn to_index(&self, x: usize, y: usize) -> (r: usize)
        requires
            self.wf(),
            x < self.size,
            y < self.size,
        ensures
            r == x + y * self.size,
            r < self.chars@.len(),
            col(self.size as int, r as int) == x,
            row(self.size as int, r as int) == y,
    {
        proof {
            lemma_cell_coords(self.size as int, x as int, y as int);
            assert(self.chars.len() == self.chars@.len());
        }
        let step = y * self.size;
        x + step
    }

    /// The cells near `i` (`i` itself included) that are not in `visited`,
    /// in the fixed neighbour order of `step_rank`.
    fn get_neighbors(&self, i: usize, visited: &Vec<usize>) -> (r: Vec<usize>)
        requires
            self.wf(),
            i < self.chars@.len(),
        ensures
            forall|k: int|
                0 <= k < r@.len() ==> (#[trigger] r@[k]) < self.chars@.len() && near(
                    self.size as int,
                    i as int,
                    r@[k] as int,
                ) && !visited@.contains(r@[k]),
            forall|j: usize|
                j < self.chars@.len() && near(self.size as int, i as int, j as int)
                    && !visited@.contains(j) ==> r@.contains(j),
            forall|a: int, b: int|
                0 <= a < b < r@.len() ==> step_rank(self.size as int, i as int, r@[a] as int)
                    < step_rank(self.size as int, i as int, r@[b] as int),
    {
        let size = self.size;
        let ghost n = self.chars@.len();
        proof {
            lemma_cell_in_grid(size as int, i as int);
        }
        let x = i % size;
        let y = i / size;
        let mut out: Vec<usize> = Vec::new();
        let mut k: usize = 0;
        while k < 9
            invariant
                self.wf(),
                size == self.size,
                n == self.chars@.len(),
                i < n,
                k <= 9,
                x == col(size as int, i as int),
                y == row(size as int, i as int),
                x < size,
                y < size,
                forall|m: int|
                    0 <= m < out@.len() ==> (#[trigger] out@[m]) < n && near(
                        size as int,
                        i as int,
                        out@[m] as int,
                    ) && !visited@.contains(out@[m]) && step_rank(size as int, i as int, out@[m] as int)
                        < k,
                forall|j: usize|
                    j < n && near(size as int, i as int, j as int) && !visited@.contains(j)
                        && step_rank(size as int, i as int, j as int) < k ==> out@.contains(j),
                forall|a: int, b: int|
                    0 <= a < b < out@.len() ==> step_rank(size as int, i as int, out@[a] as int)
                        < step_rank(size as int, i as int, out@[b] as int),
            decreases 9 - k,
        {
            let ghost before = out@;
            let cx = shift(x, size, k / 3);
            let cy = shift(y, size, k % 3);
            proof {
                assert forall|j: usize|
                    j < n && near(size as int, i as int, j as int) && step_rank(
                        size as int,
                        i as int,
                        j as int,
                    ) == k implies cx == Some(col(size as int, j as int) as usize) && cy == Some(
                    row(size as int, j as int) as usize,
                ) && j == col(size as int, j as int) + row(size as int, j as int) * size by {
                    lemma_cell_in_grid(size as int, j as int);
                }
            }
            match cx {
                Some(nx) => {
                    match cy {
                        Some(ny) => {
                            let j = self.to_index(nx, ny);
                            if !contains(visited, j) {
                                out.push(j);
                                proof {
                                    assert(out@[before.len() as int] == j);
                                    assert forall|m: int| 0 <= m < before.len() implies out@[m]
                                        == before[m] by {}
                                }
                            }
                        },
                        None => {},
                    }
                },
                None => {},
            }
            proof {
                assert forall|j: usize|
                    j < n && near(size as int, i as int, j as int) && !visited@.contains(j)
                        && step_rank(size as int, i as int, j as int) < k + 1 implies out@.contains(
                    j,
                ) by {
                    if step_rank(size as int, i as int, j as int) < k {
                        let m = choose|m: int| 0 <= m < before.len() && before[m] == j;
                        assert(out@[m] == j);
                    } else {
                        assert(out@[before.len() as int] == j);
                    }
                }
            }
            k = k + 1;
        }
        out
    }
    /// The recursive match: an empty suffix succeeds; a cell whose letter
    /// differs fails; a cell that matches the last letter succeeds;
    /// otherwise the cell is pushed on `visited` and the search goes on with
    /// the rest of the word from each free neighbour, in the fixed order,
    /// until one succeeds. The cell is popped again before the call returns,
    /// so every branch sees only its own path.
    #[verifier::rlimit(30)]
    fn has_word_from(&self, word: &Vec<char>, pos: usize, i: usize, visited: &mut Vec<usize>) -> (r:
        bool)
        requires
            self.wf(),
            pos <= word@.len(),
            i < self.chars@.len(),
            !old(visited)@.contains(i),
        ensures
            r == self.found_from(word@.subrange(pos as int, word@.len() as int), i, old(visited)@),
            final(visited)@ == old(visited)@,
        decreases word@.len() - pos,
    {
        let ghost w = word@.subrange(pos as int, word@.len() as int);
        let ghost v0 = visited@;
        let len = word.len();
        if pos == len {
            return true;
        }
        if word[pos] != self.chars[i] {
            proof {
                assert forall|p: Seq<usize>| !self.spells_from(w, i, v0, p) by {
                    if self.spells_from(w, i, v0, p) {
                        assert(self.chars@[p[0] as int] == w[0]);
                    }
                }
            }
            return false;
        }
        if pos + 1 == len {
            proof {
                assert(self.spells_from(w, i, v0, seq![i]));
            }
            return true;
        }
        visited.push(i);
        let ghost tail = word@.subrange(pos + 1, word@.len() as int);
        assert(tail =~= w.drop_first());
        assert(v0.push(i).subrange(0, v0.len() as int) =~= v0);
        let nbrs = self.get_neighbors(i, visited);
        let mut k: usize = 0;
        while k < nbrs.len()
            invariant
                self.wf(),
                pos + 1 < word@.len(),
                len == word@.len(),
                i < self.chars@.len(),
                visited@ == v0.push(i),
                v0 == old(visited)@,
                v0.push(i).subrange(0, v0.len() as int) == v0,
                !v0.contains(i),
                w == word@.subrange(pos as int, word@.len() as int),
                w.len() >= 2,
                self.chars@[i as int] == w[0],
                tail == word@.subrange(pos + 1, word@.len() as int),
                tail == w.drop_first(),
                forall|m: int|
                    0 <= m < nbrs@.len() ==> (#[trigger] nbrs@[m]) < self.chars@.len() && near(
                        self.size as int,
                        i as int,
                        nbrs@[m] as int,
                    ) && !v0.push(i).contains(nbrs@[m]),
                forall|m: int| 0 <= m < k ==> !self.found_from(tail, #[trigger] nbrs@[m], v0.push(i)),
            decreases nbrs@.len() - k,
        {
            let j = nbrs[k];
            if self.has_word_from(word, pos + 1, j, visited) {
                proof {
                    let q = choose|q: Seq<usize>| self.spells_from(tail, j, v0.push(i), q);
                    self.lemma_extend(w, i, v0, j, q);
                }
                visited.pop();
                return true;
            }
            k = k + 1;
        }
        proof {
            self.lemma_found_needs_neighbor(w, i, v0, nbrs@);
        }
        visited.pop();
        false
    }

    /// When no free neighbour of `i` succeeds on the rest of the word, the
    /// search from `i` fails.
    proof fn lemma_found_needs_neighbor(&self, w: Seq<char>, i: usize, visited: Seq<usize>, nbrs: Seq<usize>)
        requires
            w.len() >= 2,
            forall|j: usize|
                j < self.chars@.len() && near(self.size as int, i as int, j as int)
                    && !visited.push(i).contains(j) ==> nbrs.contains(j),
            forall|m: int| 0 <= m < nbrs.len() ==> !self.found_from(w.drop_first(), #[trigger] nbrs[m], visited.push(i)),
        ensures
            !self.found_from(w, i, visited),
    {
        assert forall|p: Seq<usize>| !self.spells_from(w, i, visited, p) by {
            if self.spells_from(w, i, visited, p) {
                self.lemma_shorten(w, i, visited, p);
                assert(nbrs.contains(p[1]));
                let m = choose|m: int| 0 <= m < nbrs.len() && nbrs[m] == p[1];
                assert(self.found_from(w.drop_first(), nbrs[m], visited.push(i)));
            }
        }
    }

    /// Like `has_word_from`, but on success returns `visited` followed by
    /// the cells of the path found, which is the first in search order.
    #[verifier::rlimit(30)]
    fn get_path_from(&self, word: &Vec<char>, pos: usize, i: usize, visited: &mut Vec<usize>) -> (r:
        Option<Vec<usize>>)
        requires
            self.wf(),
            pos <= word@.len(),
            i < self.chars@.len(),
            !old(visited)@.contains(i),
        ensures
            final(visited)@ == old(visited)@,
            r is Some <==> self.found_from(
                word@.subrange(pos as int, word@.len() as int),
                i,
                old(visited)@,
            ),
            r matches Some(p) ==> {
                &&& old(visited)@.len() <= p@.len()
                &&& p@.subrange(0, old(visited)@.len() as int) == old(visited)@
                &&& pos == word@.len() ==> p@ == old(visited)@
                &&& pos < word@.len() ==> self.spells_from(
                    word@.subrange(pos as int, word@.len() as int),
                    i,
                    old(visited)@,
                    p@.subrange(old(visited)@.len() as int, p@.len() as int),
                )
                &&& pos < word@.len() ==> forall|q: Seq<usize>|
                    #[trigger] self.spells_from(
                        word@.subrange(pos as int, word@.len() as int),
                        i,
                        old(visited)@,
                        q,
                    ) ==> !self.steps_before(
                        q,
                        p@.subrange(old(visited)@.len() as int, p@.len() as int),
                    )
            },
        decreases word@.len() - pos,
    {
        let ghost w = word@.subrange(pos as int, word@.len() as int);
        let ghost v0 = visited@;
        let ghost vlen = visited@.len() as int;
        let len = word.len();
        if pos == len {
            assert(v0.subrange(0, vlen) =~= v0);
            return Some(visited.clone());
        }
        if word[pos] != self.chars[i] {
            proof {
                assert forall|p: Seq<usize>| !self.spells_from(w, i, v0, p) by {
                    if self.spells_from(w, i, v0, p) {
                        assert(self.chars@[p[0] as int] == w[0]);
                    }
                }
            }
            return None;
        }
        visited.push(i);
        if pos + 1 == len {
            let found = visited.clone();
            visited.pop();
            proof {
                assert(v0.push(i).subrange(0, vlen) =~= v0);
                assert(found@.subrange(vlen, found@.len() as int) =~= seq![i]);
                assert(self.spells_from(w, i, v0, seq![i]));
                assert forall|q: Seq<usize>| #[trigger] self.spells_from(w, i, v0, q) implies !self.steps_before(
                    q,
                    seq![i],
                ) by {}
            }
            return Some(found);
        }
        let ghost tail = word@.subrange(pos + 1, word@.len() as int);
        assert(tail =~= w.drop_first());
        assert(v0.push(i).subrange(0, vlen) =~= v0);
        let nbrs = self.get_neighbors(i, visited);
        let mut k: usize = 0;
        while k < nbrs.len()
            invariant
                self.wf(),
                pos + 1 < word@.len(),
                len == word@.len(),
                i < self.chars@.len(),
                visited@ == v0.push(i),
                v0 == old(visited)@,
                v0.push(i).subrange(0, v0.len() as int) == v0,
                vlen == v0.len(),
                !v0.contains(i),
                w == word@.subrange(pos as int, word@.len() as int),
                w.len() >= 2,
                self.chars@[i as int] == w[0],
                tail == word@.subrange(pos + 1, word@.len() as int),
                tail == w.drop_first(),
                forall|m: int|
                    0 <= m < nbrs@.len() ==> (#[trigger] nbrs@[m]) < self.chars@.len() && near(
                        self.size as int,
                        i as int,
                        nbrs@[m] as int,
                    ) && !v0.push(i).contains(nbrs@[m]),
                forall|m: int| 0 <= m < k ==> !self.found_from(tail, #[trigger] nbrs@[m], v0.push(i)),
                forall|a: int, b: int|
                    0 <= a < b < nbrs@.len() ==> step_rank(self.size as int, i as int, nbrs@[a] as int)
                        < step_rank(self.size as int, i as int, nbrs@[b] as int),
                forall|j: usize|
                    j < self.chars@.len() && near(self.size as int, i as int, j as int)
                        && !v0.push(i).contains(j) ==> nbrs@.contains(j),
            decreases nbrs@.len() - k,
        {
            let j = nbrs[k];
            match self.get_path_from(word, pos + 1, j, visited) {
                Some(p) => {
                    proof {
                        self.lemma_path_first(w, i, v0, nbrs@, k as int, p@);
                    }
                    visited.pop();
                    return Some(p);
                },
                None => {},
            }
            k = k + 1;
        }
        proof {
            self.lemma_found_needs_neighbor(w, i, v0, nbrs@);
        }
        visited.pop();
        None
    }

    /// The path from `i` through the first neighbour that succeeds, itself
    /// continued by the first path from there, comes first in search order.
    proof fn lemma_step_first(
        &self,
        w: Seq<char>,
        i: usize,
        visited: Seq<usize>,
        nbrs: Seq<usize>,
        k: int,
        s: Seq<usize>,
    )
        requires
            w.len() >= 2,
            0 <= k < nbrs.len(),
            forall|a: int, b: int|
                0 <= a < b < nbrs.len() ==> step_rank(self.size as int, i as int, nbrs[a] as int)
                    < step_rank(self.size as int, i as int, nbrs[b] as int),
            forall|j: usize|
                j < self.chars@.len() && near(self.size as int, i as int, j as int)
                    && !visited.push(i).contains(j) ==> nbrs.contains(j),
            forall|m: int| 0 <= m < k ==> !self.found_from(w.drop_first(), #[trigger] nbrs[m], visited.push(i)),
            s.len() == w.len(),
            s[0] == i,
            s[1] == nbrs[k],
            forall|q: Seq<usize>|
                #[trigger] self.spells_from(w.drop_first(), nbrs[k], visited.push(i), q)
                    ==> !self.steps_before(q, s.drop_first()),
        ensures
            forall|q: Seq<usize>|
                #[trigger] self.spells_from(w, i, visited, q) ==> !self.steps_before(q, s),
    {
        assert forall|q: Seq<usize>| #[trigger] self.spells_from(w, i, visited, q) implies !self.steps_before(
            q,
            s,
        ) by {
            if self.steps_before(q, s) {
                let t = choose|t: int|
                    1 <= t < q.len() && t < s.len() && q.subrange(0, t) == s.subrange(0, t)
                        && #[trigger] step_rank(self.size as int, q[t - 1] as int, q[t] as int)
                        < step_rank(self.size as int, s[t - 1] as int, s[t] as int);
                assert(q.subrange(0, t)[0] == q[0]);
                assert(q[t - 1] == q.subrange(0, t)[t - 1] && s[t - 1] == s.subrange(0, t)[t - 1]);
                self.lemma_shorten(w, i, visited, q);
                if t == 1 {
                    assert(nbrs.contains(q[1]));
                    let m = choose|m: int| 0 <= m < nbrs.len() && nbrs[m] == q[1];
                    if m > k {
                        assert(step_rank(self.size as int, i as int, nbrs[k] as int) < step_rank(
                            self.size as int,
                            i as int,
                            nbrs[m] as int,
                        ));
                    }
                    assert(self.found_from(w.drop_first(), nbrs[m], visited.push(i)));
                } else {
                    assert(q[1] == q.subrange(0, t)[1] && s[1] == s.subrange(0, t)[1]);
                    let q1 = q.drop_first();
                    let s1 = s.drop_first();
                    assert(q1.subrange(0, t - 1) =~= s1.subrange(0, t - 1)) by {
                        assert forall|x: int| 0 <= x < t - 1 implies q1[x] == s1[x] by {
                            assert(q1[x] == q.subrange(0, t)[x + 1] && s1[x] == s.subrange(0, t)[x + 1]);
                        }
                    }
                    assert(q1[t - 2] == q[t - 1] && q1[t - 1] == q[t]);
                    assert(s1[t - 2] == s[t - 1] && s1[t - 1] == s[t]);
                    assert(self.spells_from(w.drop_first(), nbrs[k], visited.push(i), q1));
                    assert(step_rank(self.size as int, q1[(t - 1) - 1] as int, q1[t - 1] as int)
                        < step_rank(self.size as int, s1[(t - 1) - 1] as int, s1[t - 1] as int));
                    assert(self.steps_before(q1, s1));
                }
            }
        }
    }

    /// The path returned through the `k`-th neighbour is a path from `i`
    /// after `visited`, and the first one in search order.
    proof fn lemma_path_first(
        &self,
        w: Seq<char>,
        i: usize,
        visited: Seq<usize>,
        nbrs: Seq<usize>,
        k: int,
        p: Seq<usize>,
    )
        requires
            w.len() >= 2,
            i < self.chars@.len(),
            self.chars@[i as int] == w[0],
            !visited.contains(i),
            0 <= k < nbrs.len(),
            nbrs[k] < self.chars@.len(),
            near(self.size as int, i as int, nbrs[k] as int),
            !visited.push(i).contains(nbrs[k]),
            forall|a: int, b: int|
                0 <= a < b < nbrs.len() ==> step_rank(self.size as int, i as int, nbrs[a] as int)
                    < step_rank(self.size as int, i as int, nbrs[b] as int),
            forall|j: usize|
                j < self.chars@.len() && near(self.size as int, i as int, j as int)
                    && !visited.push(i).contains(j) ==> nbrs.contains(j),
            forall|m: int| 0 <= m < k ==> !self.found_from(w.drop_first(), #[trigger] nbrs[m], visited.push(i)),
            visited.len() + 1 <= p.len(),
            p.subrange(0, visited.len() + 1int) == visited.push(i),
            self.spells_from(
                w.drop_first(),
                nbrs[k],
                visited.push(i),
                p.subrange(visited.len() + 1int, p.len() as int),
            ),
            forall|q: Seq<usize>|
                #[trigger] self.spells_from(w.drop_first(), nbrs[k], visited.push(i), q)
                    ==> !self.steps_before(q, p.subrange(visited.len() + 1int, p.len() as int)),
        ensures
            self.found_from(w, i, visited),
            visited.len() <= p.len(),
            p.subrange(0, visited.len() as int) == visited,
            self.spells_from(w, i, visited, p.subrange(visited.len() as int, p.len() as int)),
            forall|q: Seq<usize>|
                #[trigger] self.spells_from(w, i, visited, q) ==> !self.steps_before(
                    q,
                    p.subrange(visited.len() as int, p.len() as int),
                ),
    {
        let vlen = visited.len() as int;
        let q = p.subrange(vlen + 1, p.len() as int);
        self.lemma_extend(w, i, visited, nbrs[k], q);
        assert(p.subrange(0, vlen) =~= p.subrange(0, vlen + 1).subrange(0, vlen));
        assert(visited.push(i).subrange(0, vlen) =~= visited);
        assert(p[vlen] == p.subrange(0, vlen + 1)[vlen]);
        let sfx = p.subrange(vlen, p.len() as int);
        assert(sfx =~= seq![i] + q);
        assert(sfx.drop_first() =~= q);
        assert(q[0] == nbrs[k]);
        self.lemma_step_first(w, i, visited, nbrs, k, sfx);
    }

    /// Whether some path spells `word`, taken as it is.
    pub fn has_letters(&self, word: &Vec<char>) -> (r: bool)
        requires
            self.wf(),
        ensures
            r == self.findable(word@),
    {
        if word.len() == 0 {
            proof {
                assert(self.spells(word@, Seq::<usize>::empty()));
            }
            return true;
        }
        assert(word@.subrange(0, word@.len() as int) =~= word@);
        let n = self.chars.len();
        let mut i: usize = 0;
        while i < n
            invariant
                self.wf(),
                n == self.chars@.len(),
                word@.len() > 0,
                word@.subrange(0, word@.len() as int) == word@,
                forall|m: usize| m < i ==> !self.found_from(word@, m, Seq::<usize>::empty()),
            decreases n - i,
        {
            let mut visited: Vec<usize> = Vec::new();
            if self.has_word_from(word, 0, i, &mut visited) {
                proof {
                    self.lemma_found_at_start(word@, i);
                }
                return true;
            }
            i = i + 1;
        }
        proof {
            self.lemma_findable_starts_somewhere(word@);
        }
        false
    }

    proof fn lemma_found_at_start(&self, w: Seq<char>, i: usize)
        requires
            w.len() > 0,
            self.found_from(w, i, Seq::<usize>::empty()),
        ensures
            self.findable(w),
    {
        let p = choose|p: Seq<usize>| self.spells_from(w, i, Seq::<usize>::empty(), p);
        assert(self.spells(w, p));
    }

    proof fn lemma_findable_starts_somewhere(&self, w: Seq<char>)
        requires
            w.len() > 0,
            forall|m: usize| m < self.chars@.len() ==> !self.found_from(w, m, Seq::<usize>::empty()),
        ensures
            !self.findable(w),
    {
        assert forall|p: Seq<usize>| !self.spells(w, p) by {
            if self.spells(w, p) {
                assert(self.spells_from(w, p[0], Seq::<usize>::empty(), p));
                assert(self.found_from(w, p[0], Seq::<usize>::empty()));
            }
        }
    }

    /// A path from the first start cell that succeeds, first in its
    /// neighbour order, comes first in search order.
    proof fn lemma_first_start(&self, w: Seq<char>, i: usize, p: Seq<usize>)
        requires
            w.len() > 0,
            p.len() > 0,
            p[0] == i,
            forall|m: usize| m < i ==> !self.found_from(w, m, Seq::<usize>::empty()),
            forall|q: Seq<usize>|
                #[trigger] self.spells_from(w, i, Seq::<usize>::empty(), q) ==> !self.steps_before(q, p),
        ensures
            forall|q: Seq<usize>| #[trigger] self.spells(w, q) ==> !self.searched_before(q, p),
    {
        assert forall|q: Seq<usize>| #[trigger] self.spells(w, q) implies !self.searched_before(q, p) by {
            assert(self.spells_from(w, q[0], Seq::<usize>::empty(), q));
            assert(self.found_from(w, q[0], Seq::<usize>::empty()));
        }
    }

    /// The first path, in search order, that spells `word` taken as it is.
    pub fn path_of_letters(&self, word: &Vec<char>) -> (r: Option<Vec<usize>>)
        requires
            self.wf(),
        ensures
            r is Some <==> self.findable(word@),
            r matches Some(p) ==> self.spells(word@, p@),
            r matches Some(p) ==> forall|q: Seq<usize>|
                #[trigger] self.spells(word@, q) ==> !self.searched_before(q, p@),
    {
        if word.len() == 0 {
            proof {
                assert(self.spells(word@, Seq::<usize>::empty()));
            }
            return Some(Vec::new());
        }
        assert(word@.subrange(0, word@.len() as int) =~= word@);
        let n = self.chars.len();
        let mut i: usize = 0;
        while i < n
            invariant
                self.wf(),
                n == self.chars@.len(),
                word@.len() > 0,
                word@.subrange(0, word@.len() as int) == word@,
                forall|m: usize| m < i ==> !self.found_from(word@, m, Seq::<usize>::empty()),
            decreases n - i,
        {
            let mut visited: Vec<usize> = Vec::new();
            match self.get_path_from(word, 0, i, &mut visited) {
                Some(p) => {
                    proof {
                        assert(p@.subrange(0, p@.len() as int) =~= p@);
                        self.lemma_found_at_start(word@, i);
                        self.lemma_first_start(word@, i, p@);
                    }
                    return Some(p);
                },
                None => {},
            }
            i = i + 1;
        }
        proof {
            self.lemma_findable_starts_somewhere(word@);
        }
        None
    }

    /// The words of `ws`, in order, that the search finds once normalized,
    /// each with its "qu" restored.
    pub open spec fn words_on_board(&self, ws: Seq<Seq<char>>) -> Seq<Seq<char>>
        decreases ws.len(),
    {
        if ws.len() == 0 {
            Seq::empty()
        } else {
            let prev = self.words_on_board(ws.drop_last());
            if self.findable(normalize(ws.last())) {
                prev.push(expand(ws.last()))
            } else {
                prev
            }
        }
    }

    /// Whether the search finds the word, lowercased and compressed.
    pub fn has_word(&self, word: &str) -> (r: bool)
        requires
            self.wf(),
        ensures
            r == self.findable(normalize(word@)),
    {
        let letters = normalize_word(word);
        self.has_letters(&letters)
    }

    /// The first path, in search order, by which the search finds the word
    /// lowercased and compressed; an error when it does not find it.
    pub fn get_path(&self, word: &String) -> (r: Result<Vec<usize>, String>)
        requires
            self.wf(),
        ensures
            r is Ok <==> self.findable(normalize(word@)),
            r matches Ok(p) ==> self.spells(normalize(word@), p@),
            r matches Ok(p) ==> forall|q: Seq<usize>|
                #[trigger] self.spells(normalize(word@), q) ==> !self.searched_before(q, p@),
            r matches Err(e) ==> e@ == "Word not found"@,
    {
        let letters = normalize_word(word.as_str());
        match self.path_of_letters(&letters) {
            Some(p) => Ok(p),
            None => Err(String::from_str("Word not found")),
        }
    }

    /// Every dictionary word that `has_word` finds, in dictionary order, with
    /// its "qu" restored.
    pub fn find_all_words(&self) -> (r: Vec<String>)
        requires
            self.wf(),
        ensures
            views(r@) == self.words_on_board(views(self.words@)),
    {
        let mut found: Vec<String> = Vec::new();
        let n = self.words.len();
        let mut k: usize = 0;
        while k < n
            invariant
                self.wf(),
                n == self.words@.len(),
                k <= n,
                views(found@) == self.words_on_board(views(self.words@).subrange(0, k as int)),
            decreases n - k,
        {
            let ghost prefix = views(self.words@).subrange(0, k as int + 1);
            assert(prefix.drop_last() =~= views(self.words@).subrange(0, k as int));
            assert(prefix.last() == self.words@[k as int]@);
            let ghost before = found@;
            if self.has_word(self.words[k].as_str()) {
                let e = expand_qu(self.words[k].clone());
                found.push(e);
                assert(views(found@) =~= views(before).push(e@));
            }
            k = k + 1;
        }
        assert(views(self.words@).subrange(0, n as int) =~= views(self.words@));
        found
    }

    /// Whether `word` is one of the dictionary's words.
    fn in_dictionary(&self, word: &String) -> (r: bool)
        ensures
            r == views(self.words@).contains(word@),
    {
        let n = self.words.len();
        let mut k: usize = 0;
        while k < n
            invariant
                n == self.words@.len(),
                forall|m: int| 0 <= m < k ==> self.words@[m]@ != word@,
            decreases n - k,
        {
            if self.words[k] == *word {
                proof {
                    assert(views(self.words@)[k as int] == word@);
                }
                return true;
            }
            k = k + 1;
        }
        proof {
            if views(self.words@).contains(word@) {
                let m = choose|m: int| 0 <= m < n && views(self.words@)[m] == word@;
                assert(self.words@[m]@ == word@);
            }
        }
        false
    }

    /// Accepts a word in the board's form (lowercase and compressed) when it
    /// is long enough, in the dictionary, and found by the search; the first
    /// gate that fails, in that order, is the rejection.
    pub fn check_word(&self, word: &String) -> (r: Result<(), Rejection>)
        requires
            self.wf(),
        ensures
            word@.len() < self.min_len ==> r == Err::<(), Rejection>(Rejection::TooShort),
            word@.len() >= self.min_len && !views(self.words@).contains(word@) ==> r == Err::<
                (),
                Rejection,
            >(Rejection::NotInDictionary),
            word@.len() >= self.min_len && views(self.words@).contains(word@)
                && !self.findable(word@) ==> r == Err::<(), Rejection>(Rejection::NotFound),
            r is Ok <==> word@.len() >= self.min_len && views(self.words@).contains(word@)
                && self.findable(word@),
    {
        if word.as_str().unicode_len() < self.min_len {
            return Err(Rejection::TooShort);
        }
        if !self.in_dictionary(word) {
            return Err(Rejection::NotInDictionary);
        }
        let letters = crate::words::chars_of(word.as_str());
        if !self.has_letters(&letters) {
            return Err(Rejection::NotFound);
        }
        Ok(())
    }
    /// How cell `i` is shown: its letter in upper case ("Qu" for 'q'),
    /// padded with spaces to three columns unless it ends its row.
    pub open spec fn cell_text(&self, i: int) -> Seq<char> {
        let c = self.chars@[i];
        let label = if c == 'q' {
            seq!['Q', 'u']
        } else {
            seq![((c as int) - 32) as char]
        };
        if col(self.size as int, i) < self.size - 1 {
            if c == 'q' {
                label + seq![' ']
            } else {
                label + seq![' ', ' ']
            }
        } else {
            label
        }
    }

    /// The first `n` cells shown in order, each row ended by a newline.
    pub open spec fn board_text(&self, n: int) -> Seq<char>
        decreases n,
    {
        if n <= 0 {
            Seq::empty()
        } else {
            self.board_text(n - 1) + self.cell_text(n - 1) + if col(self.size as int, n - 1)
                == self.size - 1 {
                seq!['\n']
            } else {
                Seq::empty()
            }
        }
    }

    fn cell_chars(&self, i: usize) -> (r: Vec<char>)
        requires
            self.wf(),
            i < self.chars@.len(),
        ensures
            r@ == self.cell_text(i as int),
    {
        let c = self.chars[i];
        let mut out: Vec<char> = Vec::new();
        if c == 'q' {
            out.push('Q');
            out.push('u');
        } else {
            let b: u8 = c as u8 - 32;
            out.push(b as char);
        }
        if i % self.size < self.size - 1 {
            out.push(' ');
            if c != 'q' {
                out.push(' ');
            }
        }
        assert(out@ =~= self.cell_text(i as int));
        out
    }

    /// The text of cell `i` as the board shows it.
    pub fn cell_label(&self, i: usize) -> (r: String)
        requires
            self.wf(),
            i < self.chars@.len(),
        ensures
            r@ == self.cell_text(i as int),
    {
        string_of(&self.cell_chars(i))
    }

    /// The whole board as text, one row per line.
    pub fn display(&self) -> (r: String)
        requires
            self.wf(),
        ensures
            r@ == self.board_text(self.chars@.len() as int),
    {
        let n = self.chars.len();
        let mut out: Vec<char> = Vec::new();
        let mut i: usize = 0;
        while i < n
            invariant
                self.wf(),
                n == self.chars@.len(),
                i <= n,
                out@ == self.board_text(i as int),
            decreases n - i,
        {
            let cell = self.cell_chars(i);
            let ghost before = out@;
            let mut k: usize = 0;
            while k < cell.len()
                invariant
                    out@ == before + cell@.subrange(0, k as int),
                    k <= cell@.len(),
                decreases cell@.len() - k,
            {
                out.push(cell[k]);
                k = k + 1;
                assert(out@ =~= before + cell@.subrange(0, k as int));
            }
            assert(cell@.subrange(0, cell@.len() as int) =~= cell@);
            if i % self.size == self.size - 1 {
                out.push('\n');
                assert(out@ =~= self.board_text(i as int + 1));
            } else {
                assert(out@ =~= self.board_text(i as int + 1));
            }
            i = i + 1;
        }
        string_of(&out)
    }
}

/// `has_word` and `get_path` run the same search on the same normalized
/// word, so one succeeds exactly when the other does: when some path spells
/// it. Any path that spells it makes both succeed, and has one cell of the
/// board per letter, all distinct, each adjacent to the next.
pub proof fn lemma_has_word_agrees_with_get_path(b: Board, w: Seq<char>, p: Seq<usize>)
    requires
        b.wf(),
    ensures
        b.spells(normalize(w), p) ==> {
            &&& b.findable(normalize(w))
            &&& p.len() == normalize(w).len()
            &&& forall|k: int| 0 <= k < p.len() ==> (#[trigger] p[k]) < b.size * b.size
            &&& forall|k: int| 0 <= k < p.len() - 1 ==> b.adjacent(#[trigger] p[k] as int, p[k + 1] as int)
            &&& forall|a: int, c: int| 0 <= a < c < p.len() ==> p[a] != p[c]
        },
{
    if b.spells(normalize(w), p) {
        assert forall|k: int| 0 <= k < p.len() - 1 implies b.adjacent(#[trigger] p[k] as int, p[k + 1] as int) by {
            assert(near(b.size as int, p[k] as int, p[k + 1] as int));
            assert(p[k] != p[k + 1]);
        }
    }
}

/// `find_all_words` gives, with "qu" restored, exactly the dictionary words
/// that `has_word` finds; it repeats none when the dictionary repeats none.
pub proof fn lemma_find_all_words_exact(b: Board, ws: Seq<Seq<char>>)
    ensures
        forall|x: Seq<char>| #[trigger] b.words_on_board(ws).contains(x) <==> exists|m: int|
            0 <= m < ws.len() && b.findable(normalize(ws[m])) && x == expand(#[trigger] ws[m]),
        ws.no_duplicates() ==> b.words_on_board(ws).no_duplicates(),
    decreases ws.len(),
{
    if ws.len() > 0 {
        let prev = b.words_on_board(ws.drop_last());
        let init = ws.drop_last();
        lemma_find_all_words_exact(b, init);
        let last = ws.last();
        assert forall|x: Seq<char>| #[trigger] b.words_on_board(ws).contains(x) <==> exists|m: int|
            0 <= m < ws.len() && b.findable(normalize(ws[m])) && x == expand(#[trigger] ws[m]) by {
            if b.words_on_board(ws).contains(x) {
                let i = choose|i: int| 0 <= i < b.words_on_board(ws).len() && b.words_on_board(ws)[i] == x;
                if i < prev.len() {
                    if b.findable(normalize(last)) {
                        assert(prev.push(expand(last))[i] == prev[i]);
                    }
                    assert(prev.contains(x));
                    let m = choose|m: int| 0 <= m < init.len() && b.findable(normalize(init[m])) && x == expand(#[trigger] init[m]);
                    assert(ws[m] == init[m]);
                } else {
                    assert(ws[ws.len() - 1] == last);
                }
            }
            if exists|m: int| 0 <= m < ws.len() && b.findable(normalize(ws[m])) && x == expand(#[trigger] ws[m]) {
                let m = choose|m: int| 0 <= m < ws.len() && b.findable(normalize(ws[m])) && x == expand(#[trigger] ws[m]);
                if m < init.len() {
                    assert(init[m] == ws[m]);
                    assert(prev.contains(x));
                    let i = choose|i: int| 0 <= i < prev.len() && prev[i] == x;
                    if b.findable(normalize(last)) {
                        assert(prev.push(expand(last))[i] == x);
                    }
                } else {
                    assert(prev.push(expand(last))[prev.len() as int] == x);
                }
            }
        }
        if ws.no_duplicates() {
            assert(init.no_duplicates()) by {
                assert forall|i: int, j: int| 0 <= i < init.len() && 0 <= j < init.len() && i != j implies init[i] != init[j] by {
                    assert(init[i] == ws[i] && init[j] == ws[j]);
                }
            }
            if b.findable(normalize(last)) {
                let r = prev.push(expand(last));
                assert forall|i: int, j: int| 0 <= i < r.len() && 0 <= j < r.len() && i != j implies r[i] != r[j] by {
                    if i < prev.len() && j < prev.len() {
                        assert(r[i] == prev[i] && r[j] == prev[j]);
                    } else if i < prev.len() || j < prev.len() {
                        let k = if i < prev.len() { i } else { j };
                        assert(r[k] == prev[k]);
                        assert(prev.contains(prev[k]));
                        if r[i] == r[j] {
                            let m = choose|m: int| 0 <= m < init.len() && b.findable(normalize(init[m])) && prev[k] == expand(#[trigger] init[m]);
                            lemma_expand_injective(init[m], last);
                            assert(ws[m] == init[m]);
                            assert(ws[ws.len() - 1] == last);
                        }
                    }
                }
            }
        }
    }
}

} // verus!
