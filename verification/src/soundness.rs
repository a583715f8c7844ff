//! Why propagation is safe: every step fills a cell with the only digit
//! that any completion can hold there, so no completion is lost or gained.

use vstd::prelude::*;
use vstd::relations::injective_on;
use vstd::set_lib::{lemma_int_range, lemma_map_size, lemma_subset_equality, set_int_range};
use crate::counting::{is_least, least, lemma_bounded_set_finite, lemma_singleton_members};
use crate::propagation::{
    hidden_digits, hidden_pass, hidden_step, holders, naked_pass, naked_step, propagate_model,
};
use crate::rules::{
    candidates, complete, consistent, empty_count, extends, is_solution,
    lemma_candidates_finite, lemma_extends_transitive, lemma_fill, lemma_solution_picks_candidate,
    lemma_solutions_after_fill, well_formed,
};
use crate::topology::{are_peers, lemma_unit_cells_are_peers, unit_cell};

verus! {

/// `h` is `g` with some more cells filled, it is still a consistent grid,
/// and `s` completes the one exactly if it completes the other.
pub open spec fn keeps(h: Seq<u8>, g: Seq<u8>, s: Seq<u8>) -> bool {
    &&& well_formed(h)
    &&& consistent(h)
    &&& extends(h, g)
    &&& empty_count(h) <= empty_count(g)
    &&& (empty_count(h) == empty_count(g) ==> h == g)
    &&& (is_solution(s, g) <==> is_solution(s, h))
}

/// `keeps` chains.
pub proof fn lemma_keeps_transitive(p: Seq<u8>, h: Seq<u8>, g: Seq<u8>, s: Seq<u8>)
    requires
        keeps(h, g, s),
        keeps(p, h, s),
    ensures
        keeps(p, g, s),
{
    lemma_extends_transitive(p, h, g);
}

/// A set of integers with exactly one member holds its least member.
pub proof fn lemma_singleton_least(c: Set<int>)
    requires
        c.finite(),
        c.len() == 1,
    ensures
        c.contains(least(c)),
        forall|x: int| c.contains(x) ==> x == least(c),
{
    let a = c.choose();
    assert(c.contains(a)) by {
        if c =~= Set::<int>::empty() {
        }
    }
    assert forall|x: int| c.contains(x) implies a == x by {
        lemma_singleton_members(c, a, x);
    }
    assert(is_least(c, a));
    assert(is_least(c, least(c)));
}

/// In a completed consistent grid, every unit holds every digit.
pub proof fn lemma_unit_holds_every_digit(s: Seq<u8>, u: int, d: int)
    requires
        well_formed(s),
        complete(s),
        consistent(s),
        0 <= u < 27,
        1 <= d <= 9,
    ensures
        exists|k: int| 0 <= k < 9 && s[#[trigger] unit_cell(u, k)] == d,
{
    let positions = set_int_range(0, 9);
    let value = |k: int| s[unit_cell(u, k)] as int;
    let values = positions.map(value);
    lemma_int_range(0, 9);
    lemma_int_range(1, 10);
    assert(injective_on(value, positions)) by {
        assert forall|k1: int, k2: int|
            positions.contains(k1) && positions.contains(k2) && #[trigger] value(k1)
                == #[trigger] value(k2) implies k1 == k2 by {
            if k1 != k2 {
                lemma_unit_cells_are_peers(u, k1, k2);
                let a = unit_cell(u, k1);
                let b = unit_cell(u, k2);
                assert(are_peers(a, b));
                assert(s[a] != 0);
            }
        }
    }
    lemma_map_size(positions, values, value);
    assert(values.subset_of(set_int_range(1, 10))) by {
        assert forall|v: int| values.contains(v) implies set_int_range(1, 10).contains(v) by {
            let k = choose|k: int| positions.contains(k) && v == value(k);
            lemma_unit_cells_are_peers(u, k, k);
            let a = unit_cell(u, k);
            assert(s[a] != 0 && s[a] <= 9);
        }
    }
    lemma_subset_equality(values, set_int_range(1, 10));
    assert(values.contains(d));
    let k = choose|k: int| positions.contains(k) && d == value(k);
    assert(0 <= k < 9 && s[unit_cell(u, k)] == d);
}

/// The turn of one cell loses no completion and invents none.
pub proof fn lemma_naked_step(g: Seq<u8>, i: int, s: Seq<u8>)
    requires
        well_formed(g),
        consistent(g),
        0 <= i < 81,
    ensures
        match naked_step(g, i) {
            None => !is_solution(s, g),
            Some(h) => keeps(h, g, s),
        },
{
    if g[i] == 0 {
        let c = candidates(g, i);
        lemma_candidates_finite(g, i);
        if is_solution(s, g) {
            lemma_solution_picks_candidate(s, g, i);
            assert(c.contains(s[i] as int));
        }
        if c.len() == 0 {
        } else if c.len() == 1 {
            lemma_singleton_least(c);
            let d = least(c);
            lemma_fill(g, i, d);
            lemma_solutions_after_fill(s, g, i, d);
        }
    }
}

/// The turn of one digit in one unit loses no completion and invents none.
pub proof fn lemma_hidden_step(g: Seq<u8>, u: int, d: int, s: Seq<u8>)
    requires
        well_formed(g),
        consistent(g),
        0 <= u < 27,
        1 <= d <= 9,
    ensures
        keeps(hidden_step(g, u, d), g, s),
{
    let h = holders(g, u, d);
    lemma_bounded_set_finite(h, 0, 9);
    if h.len() == 1 {
        lemma_singleton_least(h);
        let k = least(h);
        let x = unit_cell(u, k);
        lemma_unit_cells_are_peers(u, k, k);
        lemma_fill(g, x, d);
        lemma_solutions_after_fill(s, g, x, d);
        if is_solution(s, g) {
            lemma_unit_holds_every_digit(s, u, d);
            let k2 = choose|k2: int| 0 <= k2 < 9 && s[#[trigger] unit_cell(u, k2)] == d;
            let y = unit_cell(u, k2);
            lemma_unit_cells_are_peers(u, k, k2);
            if g[y] != 0 {
                assert(s[y] == g[y]);
                assert(k != k2);
                assert(are_peers(x, y));
            } else {
                lemma_solution_picks_candidate(s, g, y);
                assert(h.contains(k2));
            }
            assert(s[x] == d);
        }
    }
}

/// A pass over the cells loses no completion and invents none.
pub proof fn lemma_naked_pass(g: Seq<u8>, i: int, s: Seq<u8>)
    requires
        well_formed(g),
        consistent(g),
        0 <= i <= 81,
    ensures
        match naked_pass(g, i) {
            None => !is_solution(s, g),
            Some(h) => keeps(h, g, s),
        },
    decreases 81 - i,
{
    if i < 81 {
        lemma_naked_step(g, i, s);
        match naked_step(g, i) {
            None => {},
            Some(h) => {
                lemma_naked_pass(h, i + 1, s);
                match naked_pass(h, i + 1) {
                    None => {},
                    Some(p) => {
                        lemma_keeps_transitive(p, h, g, s);
                    },
                }
            },
        }
    }
}

/// The turns of the digits in one unit lose no completion and invent none.
pub proof fn lemma_hidden_digits(g: Seq<u8>, u: int, d: int, s: Seq<u8>)
    requires
        well_formed(g),
        consistent(g),
        0 <= u < 27,
        1 <= d <= 10,
    ensures
        keeps(hidden_digits(g, u, d), g, s),
    decreases 10 - d,
{
    if d <= 9 {
        let h = hidden_step(g, u, d);
        lemma_hidden_step(g, u, d, s);
        lemma_hidden_digits(h, u, d + 1, s);
        lemma_keeps_transitive(hidden_digits(h, u, d + 1), h, g, s);
    }
}

/// A pass over the units loses no completion and invents none.
pub proof fn lemma_hidden_pass(g: Seq<u8>, u: int, s: Seq<u8>)
    requires
        well_formed(g),
        consistent(g),
        0 <= u <= 27,
    ensures
        keeps(hidden_pass(g, u), g, s),
    decreases 27 - u,
{
    if u < 27 {
        let h = hidden_digits(g, u, 1);
        lemma_hidden_digits(g, u, 1, s);
        lemma_hidden_pass(h, u + 1, s);
        lemma_keeps_transitive(hidden_pass(h, u + 1), h, g, s);
    }
}

/// Propagation loses no completion and invents none: a contradiction means
/// that the grid has no completion, and otherwise the propagated grid has
/// exactly the completions of the grid it came from.
pub proof fn lemma_propagate(g: Seq<u8>, s: Seq<u8>)
    requires
        well_formed(g),
        consistent(g),
    ensures
        match propagate_model(g) {
            None => !is_solution(s, g),
            Some(p) => keeps(p, g, s),
        },
    decreases empty_count(g),
{
    lemma_naked_pass(g, 0, s);
    match naked_pass(g, 0) {
        None => {},
        Some(a) => {
            let b = hidden_pass(a, 0);
            lemma_hidden_pass(a, 0, s);
            lemma_keeps_transitive(b, a, g, s);
            if empty_count(b) < empty_count(g) {
                lemma_propagate(b, s);
                match propagate_model(b) {
                    None => {},
                    Some(p) => {
                        lemma_keeps_transitive(p, b, g, s);
                    },
                }
            }
        },
    }
}

} // verus!
