//! Propagation ends at a fixpoint: in the grid it leaves, no cell is a
//! naked single and no digit is a hidden single.

use vstd::prelude::*;
use crate::counting::{least, lemma_bounded_set_finite};
use crate::propagation::{
    hidden_digits, hidden_pass, hidden_step, holders, naked_pass, naked_step, propagate_model,
};
use crate::rules::{candidates, consistent, empty_count, lemma_candidates_finite, well_formed};
use crate::soundness::{
    keeps, lemma_hidden_digits, lemma_hidden_pass, lemma_hidden_step, lemma_naked_pass,
    lemma_naked_step, lemma_propagate, lemma_singleton_least,
};
use crate::topology::unit_cell;

verus! {

/// Nothing is forced in `p`: every empty cell has at least two candidates,
/// and no digit has exactly one cell left in any unit.
pub open spec fn settled(p: Seq<u8>) -> bool {
    &&& forall|i: int| 0 <= i < 81 && p[i] == 0 ==> #[trigger] candidates(p, i).len() >= 2
    &&& forall|u: int, d: int| 0 <= u < 27 && 1 <= d <= 9 ==> #[trigger] holders(p, u, d).len() != 1
}

/// A pass over the cells that gives the grid back has changed nothing on
/// its way: every cell's turn gives the grid back.
proof fn lemma_naked_pass_stable(p: Seq<u8>, i: int, j: int)
    requires
        well_formed(p),
        consistent(p),
        0 <= i <= j < 81,
        naked_pass(p, i) == Some(p),
    ensures
        naked_step(p, j) == Some(p),
    decreases 81 - i,
{
    lemma_naked_step(p, i, p);
    let h = naked_step(p, i)->Some_0;
    lemma_naked_pass(h, i + 1, p);
    assert(keeps(h, p, p) && keeps(p, h, p));
    assert(h == p);
    if i < j {
        lemma_naked_pass_stable(p, i + 1, j);
    }
}

/// The turns of the digits in a unit that give the grid back have changed
/// nothing on their way.
proof fn lemma_hidden_digits_stable(p: Seq<u8>, u: int, d: int, e: int)
    requires
        well_formed(p),
        consistent(p),
        0 <= u < 27,
        1 <= d <= e <= 9,
        hidden_digits(p, u, d) == p,
    ensures
        hidden_step(p, u, e) == p,
    decreases 10 - d,
{
    let h = hidden_step(p, u, d);
    lemma_hidden_step(p, u, d, p);
    lemma_hidden_digits(h, u, d + 1, p);
    assert(keeps(h, p, p) && keeps(p, h, p));
    assert(h == p);
    if d < e {
        lemma_hidden_digits_stable(p, u, d + 1, e);
    }
}

/// A pass over the units that gives the grid back has changed nothing on
/// its way.
proof fn lemma_hidden_pass_stable(p: Seq<u8>, u: int, v: int)
    requires
        well_formed(p),
        consistent(p),
        0 <= u <= v < 27,
        hidden_pass(p, u) == p,
    ensures
        hidden_digits(p, v, 1) == p,
    decreases 27 - u,
{
    let h = hidden_digits(p, u, 1);
    lemma_hidden_digits(p, u, 1, p);
    lemma_hidden_pass(h, u + 1, p);
    assert(keeps(h, p, p) && keeps(p, h, p));
    assert(h == p);
    if u < v {
        lemma_hidden_pass_stable(p, u + 1, v);
    }
}

/// What propagation leaves is left alone by both passes.
pub proof fn lemma_propagated_is_stable(g: Seq<u8>)
    requires
        well_formed(g),
        consistent(g),
        propagate_model(g) is Some,
    ensures
        naked_pass(propagate_model(g)->Some_0, 0) == Some(propagate_model(g)->Some_0),
        hidden_pass(propagate_model(g)->Some_0, 0) == propagate_model(g)->Some_0,
    decreases empty_count(g),
{
    let a = naked_pass(g, 0)->Some_0;
    let b = hidden_pass(a, 0);
    lemma_naked_pass(g, 0, g);
    lemma_hidden_pass(a, 0, g);
    if empty_count(b) < empty_count(g) {
        lemma_propagated_is_stable(b);
    } else {
        assert(keeps(a, g, g) && keeps(b, a, g));
        assert(a == g);
        assert(b == a);
    }
}

/// Propagation ends where nothing is forced any more.
pub proof fn law_propagation_settles(g: Seq<u8>)
    requires
        well_formed(g),
        consistent(g),
        propagate_model(g) is Some,
    ensures
        settled(propagate_model(g)->Some_0),
{
    let p = propagate_model(g)->Some_0;
    lemma_propagated_is_stable(g);
    assert(keeps(p, g, g)) by {
        lemma_propagate(g, g);
    }
    assert forall|i: int| 0 <= i < 81 && p[i] == 0 implies #[trigger] candidates(p, i).len()
        >= 2 by {
        lemma_naked_pass_stable(p, 0, i);
        lemma_candidates_finite(p, i);
        if candidates(p, i).len() == 1 {
            lemma_singleton_least(candidates(p, i));
            assert(p.update(i, least(candidates(p, i)) as u8)[i] != 0);
        }
    }
    assert forall|u: int, d: int| 0 <= u < 27 && 1 <= d <= 9 implies #[trigger] holders(
        p,
        u,
        d,
    ).len() != 1 by {
        lemma_hidden_pass_stable(p, 0, u);
        lemma_hidden_digits_stable(p, u, 1, d);
        let h = holders(p, u, d);
        lemma_bounded_set_finite(h, 0, 9);
        if h.len() == 1 {
            lemma_singleton_least(h);
            let x = unit_cell(u, least(h));
            assert(p[x] == 0);
            assert(p.update(x, d as u8)[x] != 0);
        }
    }
}

} // verus!
