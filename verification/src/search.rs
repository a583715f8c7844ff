//! Backtracking search: depth first, on the empty cell with the fewest
//! candidates, trying its candidates in ascending order and propagating
//! after each try.

use vstd::prelude::*;
use crate::board::Board;
use crate::correctness::{describes, lemma_explore_describes, lemma_search_describes};
use crate::deadline::Deadline;
use crate::grid::Grid;
use crate::propagation::{propagate, propagate_model};
use crate::rules::{
    candidates, complete, consistent, empty_count, is_candidate, lemma_fill, well_formed,
};
use crate::soundness::lemma_propagate;

verus! {

/// What a search finds.
pub enum Found {
    /// There is no completion.
    Nothing,
    /// This completion; where uniqueness was asked for, it is the only one.
    One(Seq<u8>),
    /// Uniqueness was asked for and there are at least two completions.
    Several,
}

/// What a search finds, as the caller gets it.
#[derive(Debug)]
pub enum SearchResult {
    /// There is no completion.
    Nothing,
    /// This completion; where uniqueness was asked for, it is the only one.
    One(Grid),
    /// Uniqueness was asked for and there are at least two completions.
    Several,
    /// The time budget ran out before the search was done.
    TimedOut,
}

impl View for SearchResult {
    type V = Option<Found>;

    /// What was found; `None` where the time ran out.
    open spec fn view(&self) -> Option<Found> {
        match self {
            SearchResult::Nothing => Some(Found::Nothing),
            SearchResult::One(g) => Some(Found::One(g@)),
            SearchResult::Several => Some(Found::Several),
            SearchResult::TimedOut => None,
        }
    }
}

/// Cell `c` is the one to branch on: it is empty, no empty cell has fewer
/// candidates, and no empty cell before it has as few.
pub open spec fn is_branch_cell(g: Seq<u8>, c: int) -> bool {
    &&& 0 <= c < 81
    &&& g[c] == 0
    &&& forall|j: int|
        0 <= j < 81 && #[trigger] g[j] == 0 ==> candidates(g, c).len() < candidates(g, j).len() || (
        candidates(g, c).len() == candidates(g, j).len() && c <= j)
}

/// The cell to branch on in a grid that has an empty cell.
pub open spec fn branch_cell(g: Seq<u8>) -> int {
    choose|c: int| is_branch_cell(g, c)
}

/// There is at most one cell to branch on.
pub proof fn lemma_branch_cell_unique(g: Seq<u8>, c: int)
    requires
        is_branch_cell(g, c),
    ensures
        branch_cell(g) == c,
{
    let b = branch_cell(g);
    assert(is_branch_cell(g, b));
    assert(g[b] == 0 && g[c] == 0);
}

/// The search on grid `g`: propagate; a contradiction leaves nothing, a
/// complete grid is the completion, and anything else is branched on.
/// With `unique`, the search goes on after a first completion to tell one
/// completion from several; without, it ends at the first.
pub open spec fn search_model(g: Seq<u8>, unique: bool) -> Found
    decreases empty_count(g), 2int, 0int,
{
    if !(well_formed(g) && consistent(g)) {
        Found::Nothing
    } else {
        match propagate_model(g) {
            None => Found::Nothing,
            Some(p) => {
                if complete(p) {
                    Found::One(p)
                } else {
                    proof {
                        lemma_propagate(g, g);
                    }
                    explore_model(p, unique)
                }
            },
        }
    }
}

/// The search below a propagated grid `p` that still has an empty cell.
pub open spec fn explore_model(p: Seq<u8>, unique: bool) -> Found
    decreases empty_count(p), 1int, 0int,
{
    try_digits(p, branch_cell(p), 1, unique, None)
}

/// The tries of the digits from `d` on in cell `c` of grid `p`, in
/// ascending order, where the digits before `d` have given `found`.
pub open spec fn try_digits(
    p: Seq<u8>,
    c: int,
    d: int,
    unique: bool,
    found: Option<Seq<u8>>,
) -> Found
    decreases empty_count(p), 0int, 10 - d,
{
    if d > 9 {
        match found {
            None => Found::Nothing,
            Some(s) => Found::One(s),
        }
    } else if !(well_formed(p) && consistent(p) && is_candidate(p, c, d)) {
        try_digits(p, c, d + 1, unique, found)
    } else {
        proof {
            lemma_fill(p, c, d);
        }
        match search_model(p.update(c, d as u8), unique) {
            Found::Nothing => try_digits(p, c, d + 1, unique, found),
            Found::One(s) => {
                if !unique {
                    Found::One(s)
                } else if found is Some {
                    Found::Several
                } else {
                    try_digits(p, c, d + 1, unique, Some(s))
                }
            },
            Found::Several => Found::Several,
        }
    }
}

/// The empty cell with the fewest candidates; among several, the first.
pub fn select_cell(board: &Board) -> (cell: usize)
    requires
        board.wf(),
        !complete(board@),
    ensures
        cell < 81,
        is_branch_cell(board@, cell as int),
        cell == branch_cell(board@),
{
    let mut best: usize = 0;
    let mut fewest: usize = 10;
    let mut i: usize = 0;
    while i < 81
        invariant
            i <= 81,
            board.wf(),
            fewest <= 10,
            fewest == 10 ==> forall|j: int| 0 <= j < i ==> #[trigger] board@[j] != 0,
            fewest < 10 ==> best < i && board@[best as int] == 0 && fewest == candidates(
                board@,
                best as int,
            ).len() && forall|j: int|
                0 <= j < i && #[trigger] board@[j] == 0 ==> fewest < candidates(board@, j).len()
                    || (fewest == candidates(board@, j).len() && best <= j),
        decreases 81 - i,
    {
        if board.value(i) == 0 {
            let n = board.candidates(i).len();
            if n < fewest {
                best = i;
                fewest = n;
            }
        }
        i = i + 1;
    }
    proof {
        board.lemma_wf();
        if fewest == 10 {
            assert forall|j: int| 0 <= j < 81 implies #[trigger] board@[j] != 0 by {}
        }
        lemma_branch_cell_unique(board@, best as int);
    }
    best
}

/// Searches below a board that propagation has left with an empty cell.
pub fn explore(board: &Board, unique: bool, deadline: &mut Deadline) -> (r: SearchResult)
    requires
        board.wf(),
        !complete(board@),
        old(deadline).wf(),
    ensures
        match r@ {
            Some(found) => found == explore_model(board@, unique) && describes(
                found,
                board@,
                unique,
            ),
            None => old(deadline).limited(),
        },
        final(deadline).wf(),
        final(deadline).budget() == old(deadline).budget(),
    decreases empty_count(board@), 1int,
{
    proof {
        board.lemma_wf();
        lemma_explore_describes(board@, unique);
    }
    if deadline.expired() {
        return SearchResult::TimedOut;
    }
    let cell = select_cell(board);
    let set = board.candidates(cell);
    let mut found: Option<Grid> = None;
    let mut d: u8 = 1;
    while d <= 9
        invariant
            1 <= d <= 10,
            cell < 81,
            board.wf(),
            well_formed(board@),
            consistent(board@),
            set@ == candidates(board@, cell as int),
            deadline.wf(),
            deadline.budget() == old(deadline).budget(),
            found is Some ==> unique,
            describes(explore_model(board@, unique), board@, unique),
            explore_model(board@, unique) == try_digits(
                board@,
                cell as int,
                d as int,
                unique,
                match found {
                    Some(g) => Some(g@),
                    None => None,
                },
            ),
        decreases 10 - d,
    {
        if set.contains(d) {
            let mut next = board.fork();
            proof {
                lemma_fill(board@, cell as int, d as int);
            }
            next.place(cell, d);
            let sub = search(next, unique, deadline);
            match sub {
                SearchResult::TimedOut => {
                    return SearchResult::TimedOut;
                },
                SearchResult::Several => {
                    return SearchResult::Several;
                },
                SearchResult::Nothing => {},
                SearchResult::One(g) => {
                    if !unique {
                        return SearchResult::One(g);
                    }
                    if found.is_some() {
                        return SearchResult::Several;
                    }
                    found = Some(g);
                },
            }
        }
        d = d + 1;
    }
    match found {
        None => SearchResult::Nothing,
        Some(g) => SearchResult::One(g),
    }
}

/// Propagates on the board and, where that leaves an empty cell, searches.
///
/// What is found is what `search_model` gives, and it describes the
/// completions of the board. Time can only run out where there is a budget
/// and propagation has left an empty cell.
pub fn search(board: Board, unique: bool, deadline: &mut Deadline) -> (r: SearchResult)
    requires
        board.wf(),
        old(deadline).wf(),
    ensures
        match r@ {
            Some(found) => found == search_model(board@, unique) && describes(
                found,
                board@,
                unique,
            ),
            None => old(deadline).limited() && (propagate_model(board@) matches Some(p)
                && !complete(p)),
        },
        final(deadline).wf(),
        final(deadline).budget() == old(deadline).budget(),
    decreases empty_count(board@), 2int,
{
    proof {
        board.lemma_wf();
        lemma_propagate(board@, board@);
        lemma_search_describes(board@, unique);
    }
    match propagate(board) {
        None => SearchResult::Nothing,
        Some(propagated) => {
            if propagated.is_complete() {
                SearchResult::One(propagated.to_grid())
            } else {
                explore(&propagated, unique, deadline)
            }
        },
    }
}

} // verus!
