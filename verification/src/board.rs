//! The solver's working copy of a grid: the cell values together with the
//! candidate set of every cell, kept exact as digits are written in.

use vstd::prelude::*;
use crate::digits::DigitSet;
use crate::grid::Grid;
use crate::rules::{
    candidates, complete, consistent, empty_cells, empty_count, is_candidate, lemma_complete_iff_no_empty,
    lemma_empty_cells_finite, lemma_fill, well_formed,
};
use crate::counting::{below, lemma_below_end, lemma_below_start, lemma_below_step};
use crate::topology::{
    are_peers, is_cell, lemma_peer_at_is_peer, lemma_peer_is_enumerated, lemma_peer_rank_inverse,
    lemma_peers_symmetric, peer_at, peer_rank, PeerIndex,
};

verus! {

/// Cell values with, for every cell, the digits that may still go there.
///
/// A filled cell has no candidates. The candidates of an empty cell are
/// the digits that none of its peers holds. The board reads the peers of a
/// cell from an index that it shares with every copy made of it.
#[derive(Debug)]
pub struct Board<'a> {
    index: &'a PeerIndex,
    cells: Vec<u8>,
    cands: Vec<DigitSet>,
    empties: usize,
}

impl<'a> View for Board<'a> {
    type V = Seq<u8>;

    closed spec fn view(&self) -> Seq<u8> {
        self.cells@
    }
}

/// The candidates of cell `x` once candidate `d` has been written into cell `i`.
pub proof fn lemma_candidates_after_fill(g: Seq<u8>, i: int, d: int, x: int)
    requires
        g.len() == 81,
        is_candidate(g, i, d),
        is_cell(x),
    ensures
        candidates(g.update(i, d as u8), x) == if x == i {
            Set::<int>::empty()
        } else if are_peers(i, x) {
            candidates(g, x).remove(d)
        } else {
            candidates(g, x)
        },
{
    let h = g.update(i, d as u8);
    if x == i {
        assert(candidates(h, x) =~= Set::<int>::empty());
    } else {
        lemma_peers_symmetric(i, x);
        assert forall|e: int| is_candidate(h, x, e) == (is_candidate(g, x, e) && !(are_peers(i, x)
            && e == d)) by {
            if is_candidate(h, x, e) {
                assert forall|j: int| #[trigger] are_peers(x, j) implies g[j] != e by {
                    assert(h[j] != e);
                }
                if are_peers(i, x) {
                    assert(are_peers(x, i));
                    assert(h[i] != e);
                }
            }
            if is_candidate(g, x, e) && !(are_peers(i, x) && e == d) {
                assert forall|j: int| #[trigger] are_peers(x, j) implies h[j] != e by {
                    assert(g[j] != e);
                }
            }
        }
        if are_peers(i, x) {
            assert(candidates(h, x) =~= candidates(g, x).remove(d));
        } else {
            assert(candidates(h, x) =~= candidates(g, x));
        }
    }
}

impl<'a> Board<'a> {
    /// The cell values are a consistent grid, the candidate sets are exact
    /// and the count of empty cells is right.
    pub closed spec fn wf(&self) -> bool {
        &&& well_formed(self.cells@)
        &&& consistent(self.cells@)
        &&& self.cands@.len() == 81
        &&& forall|i: int| 0 <= i < 81 ==> (#[trigger] self.cands@[i])@ == candidates(self.cells@, i)
        &&& self.empties == empty_count(self.cells@)
    }

    /// A well-formed board holds a well-formed, consistent grid.
    pub proof fn lemma_wf(&self)
        requires
            self.wf(),
        ensures
            well_formed(self@),
            consistent(self@),
    {
    }

    /// The digits that none of the peers of `cell` holds.
    fn free_digits(index: &PeerIndex, cells: &Vec<u8>, cell: usize) -> (free: DigitSet)
        requires
            cells@.len() == 81,
            cell < 81,
        ensures
            forall|d: int|
                free@.contains(d) <==> 1 <= d <= 9 && forall|j: int| #[trigger]
                    are_peers(cell as int, j) ==> cells@[j] != d,
    {
        let mut free = DigitSet::full();
        let mut k: usize = 0;
        while k < 20
            invariant
                k <= 20,
                cell < 81,
                cells@.len() == 81,
                forall|d: int|
                    free@.contains(d) <==> 1 <= d <= 9 && forall|n: int|
                        0 <= n < k ==> cells@[#[trigger] peer_at(cell as int, n)] != d,
            decreases 20 - k,
        {
            let p = index.peer(cell, k);
            let ghost before = free@;
            free = free.remove(cells[p]);
            proof {
                assert forall|d: int| free@.contains(d) <==> 1 <= d <= 9 && forall|n: int|
                    0 <= n < k + 1 ==> cells@[#[trigger] peer_at(cell as int, n)] != d by {
                    if 1 <= d <= 9 && before.contains(d) && d != cells@[p as int] {
                        assert forall|n: int| 0 <= n < k + 1 implies cells@[#[trigger] peer_at(
                            cell as int,
                            n,
                        )] != d by {
                            if n == k {
                            }
                        }
                    }
                    if free@.contains(d) {
                    } else if 1 <= d <= 9 {
                        if before.contains(d) {
                            assert(cells@[peer_at(cell as int, k as int)] == d);
                        } else {
                            let n = choose|n: int|
                                0 <= n < k && cells@[#[trigger] peer_at(cell as int, n)] == d;
                            assert(cells@[peer_at(cell as int, n)] == d);
                        }
                    }
                }
            }
            k = k + 1;
        }
        proof {
            assert forall|d: int|
                free@.contains(d) <==> 1 <= d <= 9 && forall|j: int| #[trigger]
                    are_peers(cell as int, j) ==> cells@[j] != d by {
                if free@.contains(d) {
                    assert forall|j: int| #[trigger] are_peers(cell as int, j) implies cells@[j]
                        != d by {
                        lemma_peer_is_enumerated(cell as int, j);
                        assert(cells@[peer_at(cell as int, peer_rank(cell as int, j))] != d);
                    }
                }
                if 1 <= d <= 9 && forall|j: int| #[trigger]
                    are_peers(cell as int, j) ==> cells@[j] != d {
                    assert forall|n: int| 0 <= n < 20 implies cells@[#[trigger] peer_at(
                        cell as int,
                        n,
                    )] != d by {
                        lemma_peer_at_is_peer(cell as int, n);
                    }
                }
            }
        }
        free
    }

    /// The working copy of a grid, with the candidates of every empty cell
    /// set to the digits that its peers do not hold.
    pub fn new(grid: &Grid, index: &'a PeerIndex) -> (board: Board<'a>)
        ensures
            board.wf(),
            board@ == grid@,
    {
        let given = grid.cells();
        let mut cells: Vec<u8> = Vec::new();
        let mut cands: Vec<DigitSet> = Vec::new();
        let mut empties: usize = 0;
        let mut i: usize = 0;
        proof {
            lemma_below_start(empty_cells(given@), 0);
        }
        while i < 81
            invariant
                i <= 81,
                well_formed(given@),
                cells@.len() == i,
                cands@.len() == i,
                forall|k: int| 0 <= k < i ==> cells@[k] == given@[k],
                forall|k: int| 0 <= k < i ==> (#[trigger] cands@[k])@ == candidates(given@, k),
                below(empty_cells(given@), i as int).finite(),
                empties == below(empty_cells(given@), i as int).len(),
                empties <= i,
            decreases 81 - i,
        {
            let v = given[i];
            let set = if v == 0 {
                Self::free_digits(index, given, i)
            } else {
                DigitSet::empty()
            };
            proof {
                assert(set@ =~= candidates(given@, i as int));
                lemma_below_step(empty_cells(given@), i as int);
            }
            if v == 0 {
                empties = empties + 1;
            }
            cells.push(v);
            cands.push(set);
            i = i + 1;
        }
        proof {
            lemma_below_end(empty_cells(given@), 81);
            assert(cells@ =~= given@);
        }
        Board { index, cells, cands, empties }
    }

    /// The value of cell `cell`: 0 if it is empty, else its digit.
    pub fn value(&self, cell: usize) -> (v: u8)
        requires
            self.wf(),
            cell < 81,
        ensures
            v == self@[cell as int],
            v <= 9,
    {
        self.cells[cell]
    }

    /// The candidates of cell `cell`.
    pub fn candidates(&self, cell: usize) -> (set: DigitSet)
        requires
            self.wf(),
            cell < 81,
        ensures
            set@ == candidates(self@, cell as int),
    {
        self.cands[cell]
    }

    /// How many cells are empty.
    pub fn empty_count(&self) -> (n: usize)
        requires
            self.wf(),
        ensures
            n == empty_count(self@),
            n <= 81,
    {
        proof {
            lemma_empty_cells_finite(self@);
        }
        self.empties
    }

    /// Whether every cell holds a digit.
    pub fn is_complete(&self) -> (b: bool)
        requires
            self.wf(),
        ensures
            b == complete(self@),
    {
        proof {
            lemma_complete_iff_no_empty(self@);
        }
        self.empties == 0
    }

    /// Writes candidate `d` into the empty cell `cell` and takes `d` out of
    /// the candidates of all its peers.
    pub fn place(&mut self, cell: usize, d: u8)
        requires
            old(self).wf(),
            cell < 81,
            is_candidate(old(self)@, cell as int, d as int),
        ensures
            final(self).wf(),
            final(self)@ == old(self)@.update(cell as int, d),
    {
        let ghost g = self.cells@;
        let ghost i = cell as int;
        proof {
            lemma_fill(g, i, d as int);
            lemma_empty_cells_finite(g);
            assert(empty_cells(g).contains(i));
        }
        self.cells.set(cell, d);
        self.cands.set(cell, DigitSet::empty());
        self.empties = self.empties - 1;
        let mut k: usize = 0;
        while k < 20
            invariant
                k <= 20,
                cell < 81,
                i == cell as int,
                g.len() == 81,
                is_candidate(g, i, d as int),
                self.cells@ == g.update(i, d),
                self.cands@.len() == 81,
                self.empties == empty_count(g) - 1,
                forall|x: int|
                    0 <= x < 81 ==> (#[trigger] self.cands@[x])@ == if x == i {
                        Set::<int>::empty()
                    } else if are_peers(i, x) && peer_rank(i, x) < k {
                        candidates(g, x).remove(d as int)
                    } else {
                        candidates(g, x)
                    },
            decreases 20 - k,
        {
            let p = self.index.peer(cell, k);
            let reduced = self.cands[p].remove(d);
            proof {
                lemma_peer_rank_inverse(i, k as int);
            }
            let ghost before = self.cands@;
            self.cands.set(p, reduced);
            proof {
                assert forall|x: int| 0 <= x < 81 implies (#[trigger] self.cands@[x])@ == if x
                    == i {
                    Set::<int>::empty()
                } else if are_peers(i, x) && peer_rank(i, x) < k + 1 {
                    candidates(g, x).remove(d as int)
                } else {
                    candidates(g, x)
                } by {
                    if x == p {
                    } else {
                        assert(self.cands@[x] == before[x]);
                        if are_peers(i, x) && peer_rank(i, x) == k {
                            lemma_peer_is_enumerated(i, x);
                        }
                    }
                }
            }
            k = k + 1;
        }
        proof {
            assert forall|x: int| 0 <= x < 81 implies (#[trigger] self.cands@[x])@ == candidates(
                self.cells@,
                x,
            ) by {
                lemma_candidates_after_fill(g, i, d as int, x);
                if are_peers(i, x) {
                    lemma_peer_is_enumerated(i, x);
                }
            }
        }
    }

    /// A copy of the board, to try a digit on.
    pub fn fork(&self) -> (copy: Board<'a>)
        requires
            self.wf(),
        ensures
            copy.wf(),
            copy@ == self@,
    {
        let cells = self.cells.clone();
        let cands = self.cands.clone();
        proof {
            assert(cells@ =~= self.cells@);
            assert(cands@ =~= self.cands@);
        }
        Board { index: self.index, cells, cands, empties: self.empties }
    }

    /// The grid that the board holds.
    pub fn to_grid(&self) -> (grid: Grid)
        requires
            self.wf(),
        ensures
            grid@ == self@,
    {
        let cells = self.cells.clone();
        proof {
            assert(cells@ =~= self.cells@);
        }
        Grid::from_cells(cells)
    }
}

} // verus!
