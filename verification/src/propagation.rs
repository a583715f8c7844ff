//! The candidate propagator: naked singles and hidden singles, repeated
//! until a full pass changes nothing or an empty cell has no candidate left.

use vstd::prelude::*;
use crate::board::Board;
use crate::counting::{
    below, is_least, least, lemma_below_end, lemma_below_start, lemma_below_step,
    lemma_least_unique,
};
use crate::fixpoint::{law_propagation_settles, settled};
use crate::rules::{
    candidates, consistent, empty_count, extends, is_candidate, is_solution, well_formed,
};
use crate::soundness::{keeps, lemma_propagate};
use crate::topology::{unit_cell, unit_member};

verus! {

/// The turn of cell `i` in a pass over the cells: an empty cell without a
/// candidate is a contradiction (`None`); an empty cell with exactly one
/// candidate is filled with it; any other cell is left alone.
pub open spec fn naked_step(g: Seq<u8>, i: int) -> Option<Seq<u8>> {
    if g[i] != 0 {
        Some(g)
    } else if candidates(g, i).len() == 0 {
        None
    } else if candidates(g, i).len() == 1 {
        Some(g.update(i, least(candidates(g, i)) as u8))
    } else {
        Some(g)
    }
}

/// The pass over the cells from cell `i` on, in ascending order, each cell
/// seeing what the cells before it have filled in.
pub open spec fn naked_pass(g: Seq<u8>, i: int) -> Option<Seq<u8>>
    decreases 81 - i,
{
    if i >= 81 {
        Some(g)
    } else {
        match naked_step(g, i) {
            None => None,
            Some(h) => naked_pass(h, i + 1),
        }
    }
}

/// The positions in unit `u` whose cell has `d` as a candidate.
pub open spec fn holders(g: Seq<u8>, u: int, d: int) -> Set<int> {
    Set::new(|k: int| 0 <= k < 9 && is_candidate(g, unit_cell(u, k), d))
}

/// The turn of digit `d` in unit `u`: if exactly one cell of the unit has
/// `d` as a candidate, that cell is filled with `d`.
pub open spec fn hidden_step(g: Seq<u8>, u: int, d: int) -> Seq<u8> {
    if holders(g, u, d).len() == 1 {
        g.update(unit_cell(u, least(holders(g, u, d))), d as u8)
    } else {
        g
    }
}

/// The turns of the digits from `d` on in unit `u`, in ascending order.
pub open spec fn hidden_digits(g: Seq<u8>, u: int, d: int) -> Seq<u8>
    decreases 10 - d,
{
    if d > 9 {
        g
    } else {
        hidden_digits(hidden_step(g, u, d), u, d + 1)
    }
}

/// The pass over the units from unit `u` on: rows, then columns, then boxes.
pub open spec fn hidden_pass(g: Seq<u8>, u: int) -> Seq<u8>
    decreases 27 - u,
{
    if u >= 27 {
        g
    } else {
        hidden_pass(hidden_digits(g, u, 1), u + 1)
    }
}

/// Propagation to a fixpoint: a pass over the cells, then a pass over the
/// units, again and again as long as a round fills at least one cell.
/// `None` stands for a contradiction.
pub open spec fn propagate_model(g: Seq<u8>) -> Option<Seq<u8>>
    decreases empty_count(g),
{
    match naked_pass(g, 0) {
        None => None,
        Some(a) => {
            let b = hidden_pass(a, 0);
            if empty_count(b) < empty_count(g) {
                propagate_model(b)
            } else {
                Some(b)
            }
        },
    }
}

/// What propagation makes of `g` is right: a contradiction only where `g`
/// has no completion, and else a grid that keeps the givens and the
/// completions of `g` and in which nothing is forced any more.
pub open spec fn propagation_is_right(g: Seq<u8>) -> bool {
    match propagate_model(g) {
        None => forall|s: Seq<u8>| !is_solution(s, g),
        Some(p) => settled(p) && extends(p, g) && forall|s: Seq<u8>|
            is_solution(s, g) == is_solution(s, p),
    }
}

/// What propagation makes of a valid grid is right.
pub proof fn lemma_propagation_is_right(g: Seq<u8>)
    requires
        well_formed(g),
        consistent(g),
    ensures
        propagation_is_right(g),
{
    lemma_propagate(g, g);
    match propagate_model(g) {
        None => {
            assert forall|s: Seq<u8>| !is_solution(s, g) by {
                lemma_propagate(g, s);
            }
        },
        Some(p) => {
            assert forall|s: Seq<u8>| is_solution(s, g) == is_solution(s, p) by {
                lemma_propagate(g, s);
                assert(keeps(p, g, s));
            }
            law_propagation_settles(g);
        },
    }
}

/// One pass over the cells. Gives nothing back if it meets an empty cell
/// without a candidate.
pub fn fill_naked_singles<'a>(board: Board<'a>) -> (r: Option<Board<'a>>)
    requires
        board.wf(),
    ensures
        match naked_pass(board@, 0) {
            None => r is None,
            Some(h) => r matches Some(after) && after.wf() && after@ == h,
        },
{
    let mut work = board;
    let mut i: usize = 0;
    while i < 81
        invariant
            i <= 81,
            work.wf(),
            naked_pass(board@, 0) == naked_pass(work@, i as int),
        decreases 81 - i,
    {
        if work.value(i) == 0 {
            let set = work.candidates(i);
            let n = set.len();
            if n == 0 {
                return None;
            } else if n == 1 {
                match set.first() {
                    Some(d) => {
                        proof {
                            lemma_least_unique(candidates(work@, i as int), d as int);
                        }
                        work.place(i, d);
                    },
                    None => {},
                }
            }
        }
        i = i + 1;
    }
    Some(work)
}

/// The position of the only cell of unit `u` that has `d` as a candidate,
/// if there is exactly one such cell.
pub fn lone_holder(board: &Board, u: usize, d: u8) -> (r: Option<usize>)
    requires
        board.wf(),
        u < 27,
        1 <= d <= 9,
    ensures
        match r {
            Some(k) => holders(board@, u as int, d as int).len() == 1 && k == least(
                holders(board@, u as int, d as int),
            ) && k < 9 && is_candidate(board@, unit_cell(u as int, k as int), d as int),
            None => holders(board@, u as int, d as int).len() != 1,
        },
{
    let ghost h = holders(board@, u as int, d as int);
    let mut count: usize = 0;
    let mut first: usize = 0;
    let mut k: usize = 0;
    proof {
        lemma_below_start(h, 0);
    }
    while k < 9
        invariant
            k <= 9,
            u < 27,
            1 <= d <= 9,
            board.wf(),
            h == holders(board@, u as int, d as int),
            below(h, k as int).finite(),
            count == below(h, k as int).len(),
            count <= k,
            count == 0 ==> forall|x: int| x < k ==> !h.contains(x),
            count > 0 ==> first < k && is_least(h, first as int),
        decreases 9 - k,
    {
        let cell = unit_member(u, k);
        proof {
            lemma_below_step(h, k as int);
        }
        if board.candidates(cell).contains(d) {
            if count == 0 {
                first = k;
            }
            count = count + 1;
        }
        k = k + 1;
    }
    proof {
        lemma_below_end(h, 9);
    }
    if count == 1 {
        proof {
            lemma_least_unique(h, first as int);
        }
        Some(first)
    } else {
        None
    }
}

/// One pass over the units.
pub fn fill_hidden_singles<'a>(board: Board<'a>) -> (after: Board<'a>)
    requires
        board.wf(),
    ensures
        after.wf(),
        after@ == hidden_pass(board@, 0),
{
    let mut work = board;
    let mut u: usize = 0;
    while u < 27
        invariant
            u <= 27,
            work.wf(),
            hidden_pass(board@, 0) == hidden_pass(work@, u as int),
        decreases 27 - u,
    {
        let ghost unit_start = work@;
        let mut d: u8 = 1;
        while d <= 9
            invariant
                u < 27,
                1 <= d <= 10,
                work.wf(),
                hidden_digits(unit_start, u as int, 1) == hidden_digits(
                    work@,
                    u as int,
                    d as int,
                ),
            decreases 10 - d,
        {
            match lone_holder(&work, u, d) {
                Some(k) => {
                    let cell = unit_member(u, k);
                    work.place(cell, d);
                },
                None => {},
            }
            d = d + 1;
        }
        u = u + 1;
    }
    work
}

/// Propagates to a fixpoint. Gives nothing back on a contradiction.
///
/// A contradiction shows that the grid has no completion. Otherwise the
/// board that comes back has the completions of the board that went in,
/// keeps every given, and has nothing forced left in it.
pub fn propagate<'a>(board: Board<'a>) -> (r: Option<Board<'a>>)
    requires
        board.wf(),
    ensures
        match propagate_model(board@) {
            None => r is None,
            Some(p) => r matches Some(after) && after.wf() && after@ == p,
        },
        propagation_is_right(board@),
{
    proof {
        board.lemma_wf();
        lemma_propagation_is_right(board@);
    }
    let mut work = board;
    loop
        invariant
            work.wf(),
            propagate_model(board@) == propagate_model(work@),
            propagation_is_right(board@),
        decreases empty_count(work@),
    {
        let before = work.empty_count();
        match fill_naked_singles(work) {
            None => {
                return None;
            },
            Some(filled) => {
                work = fill_hidden_singles(filled);
            },
        }
        if work.empty_count() >= before {
            return Some(work);
        }
    }
}

} // verus!
