//! What a Sudoku grid is and what it means to solve one, over plain
//! sequences of 81 cell values (0 for an empty cell, 1..=9 for a digit).

use vstd::prelude::*;
use crate::topology::{are_peers, is_cell, lemma_peers_symmetric};
use crate::counting::lemma_bounded_set_finite;

verus! {

/// Eighty-one cells, each empty or holding a digit.
pub open spec fn well_formed(g: Seq<u8>) -> bool {
    &&& g.len() == 81
    &&& forall|i: int| 0 <= i < 81 ==> #[trigger] g[i] <= 9
}

/// No digit stands twice in a row, a column or a box.
pub open spec fn consistent(g: Seq<u8>) -> bool {
    forall|i: int, j: int| #[trigger] are_peers(i, j) && g[i] != 0 ==> g[i] != g[j]
}

/// No cell is empty.
pub open spec fn complete(g: Seq<u8>) -> bool {
    forall|i: int| 0 <= i < 81 ==> #[trigger] g[i] != 0
}

/// `s` keeps every digit that `g` holds.
pub open spec fn extends(s: Seq<u8>, g: Seq<u8>) -> bool {
    forall|i: int| 0 <= i < 81 && #[trigger] g[i] != 0 ==> s[i] == g[i]
}

/// `s` is a completion of `g` that obeys the rules.
pub open spec fn is_solution(s: Seq<u8>, g: Seq<u8>) -> bool {
    &&& well_formed(s)
    &&& complete(s)
    &&& consistent(s)
    &&& extends(s, g)
}

/// Digit `d` may still go into the empty cell `i`: no peer of `i` holds it.
pub open spec fn is_candidate(g: Seq<u8>, i: int, d: int) -> bool {
    &&& is_cell(i)
    &&& 1 <= d <= 9
    &&& g[i] == 0
    &&& forall|j: int| #[trigger] are_peers(i, j) ==> g[j] != d
}

/// The candidates of cell `i`; empty for a filled cell.
pub open spec fn candidates(g: Seq<u8>, i: int) -> Set<int> {
    Set::new(|d: int| is_candidate(g, i, d))
}

/// The empty cells of `g`.
pub open spec fn empty_cells(g: Seq<u8>) -> Set<int> {
    Set::new(|i: int| 0 <= i < 81 && g[i] == 0)
}

/// How many cells of `g` are empty.
pub open spec fn empty_count(g: Seq<u8>) -> nat {
    empty_cells(g).len()
}

pub proof fn lemma_candidates_finite(g: Seq<u8>, i: int)
    ensures
        candidates(g, i).finite(),
        candidates(g, i).len() <= 9,
{
    lemma_bounded_set_finite(candidates(g, i), 1, 10);
}

pub proof fn lemma_empty_cells_finite(g: Seq<u8>)
    ensures
        empty_cells(g).finite(),
        empty_count(g) <= 81,
{
    lemma_bounded_set_finite(empty_cells(g), 0, 81);
}

/// A grid without empty cells has an empty count of zero, and conversely.
pub proof fn lemma_complete_iff_no_empty(g: Seq<u8>)
    requires
        g.len() == 81,
    ensures
        complete(g) <==> empty_count(g) == 0,
{
    lemma_empty_cells_finite(g);
    if complete(g) {
        assert(empty_cells(g) =~= Set::<int>::empty());
    }
    if empty_count(g) == 0 {
        assert forall|i: int| 0 <= i < 81 implies #[trigger] g[i] != 0 by {
            if g[i] == 0 {
                assert(empty_cells(g).contains(i));
            }
        }
    }
}

/// Writing a candidate into its cell keeps the grid well formed and
/// consistent, and leaves one empty cell fewer.
pub proof fn lemma_fill(g: Seq<u8>, i: int, d: int)
    requires
        well_formed(g),
        consistent(g),
        is_candidate(g, i, d),
    ensures
        well_formed(g.update(i, d as u8)),
        consistent(g.update(i, d as u8)),
        extends(g.update(i, d as u8), g),
        empty_count(g.update(i, d as u8)) == empty_count(g) - 1,
{
    let h = g.update(i, d as u8);
    assert forall|a: int, b: int| #[trigger] are_peers(a, b) && h[a] != 0 implies h[a] != h[b] by {
        lemma_peers_symmetric(a, b);
    }
    lemma_empty_cells_finite(g);
    assert(empty_cells(g).contains(i));
    assert(empty_cells(h) =~= empty_cells(g).remove(i));
}

/// A solution holds, in each empty cell, one of that cell's candidates.
pub proof fn lemma_solution_picks_candidate(s: Seq<u8>, g: Seq<u8>, i: int)
    requires
        is_solution(s, g),
        is_cell(i),
        g[i] == 0,
    ensures
        is_candidate(g, i, s[i] as int),
{
    let d = s[i];
    assert(s[i] != 0 && s[i] <= 9);
    assert forall|j: int| #[trigger] are_peers(i, j) implies g[j] != d by {
        if g[j] == d {
            assert(s[j] == g[j]);
        }
    }
}

/// The completions of `g` with digit `d` in the empty cell `i` are the
/// completions of `g` with `d` written into `i`.
pub proof fn lemma_solutions_after_fill(s: Seq<u8>, g: Seq<u8>, i: int, d: int)
    requires
        is_cell(i),
        g.len() == 81,
        g[i] == 0,
        1 <= d <= 9,
    ensures
        is_solution(s, g.update(i, d as u8)) <==> is_solution(s, g) && s[i] == d,
{
    let h = g.update(i, d as u8);
    if is_solution(s, h) {
        assert(h[i] != 0);
        assert forall|k: int| 0 <= k < 81 && #[trigger] g[k] != 0 implies s[k] == g[k] by {
            assert(h[k] == g[k]);
        }
    }
    if is_solution(s, g) && s[i] == d {
        assert forall|k: int| 0 <= k < 81 && #[trigger] h[k] != 0 implies s[k] == h[k] by {
            if k != i {
                assert(g[k] == h[k]);
            }
        }
    }
}

/// A complete, consistent grid is its own and only completion.
pub proof fn lemma_complete_is_solved(g: Seq<u8>, s: Seq<u8>)
    requires
        well_formed(g),
        consistent(g),
        complete(g),
    ensures
        is_solution(g, g),
        is_solution(s, g) ==> s == g,
{
    if is_solution(s, g) {
        assert forall|k: int| 0 <= k < 81 implies s[k] == g[k] by {
            assert(g[k] != 0);
        }
        assert(s =~= g);
    }
}

/// Completions pass down: a completion of an extension of `g` completes `g`.
pub proof fn lemma_extends_transitive(s: Seq<u8>, h: Seq<u8>, g: Seq<u8>)
    requires
        extends(s, h),
        extends(h, g),
        h.len() == 81,
    ensures
        extends(s, g),
{
    assert forall|k: int| 0 <= k < 81 && #[trigger] g[k] != 0 implies s[k] == g[k] by {
        assert(h[k] == g[k]);
        assert(h[k] != 0);
    }
}

} // verus!
