//! Why the search is right: what it finds describes the completions of the
//! grid it was given, all of them and no others.

use vstd::prelude::*;
use crate::propagation::propagate_model;
use crate::rules::{
    candidates, complete, consistent, empty_count, is_candidate, is_solution,
    lemma_complete_is_solved, lemma_fill, lemma_solution_picks_candidate,
    lemma_solutions_after_fill, well_formed,
};
use crate::search::{
    branch_cell, explore_model, is_branch_cell, search_model, try_digits, Found,
};
use crate::soundness::{keeps, lemma_propagate};

verus! {

/// `found` tells the truth about the completions of `g`: nothing means
/// that there is none; one is a completion, and the only one where
/// uniqueness was asked for; several means that uniqueness was asked for
/// and there are two different ones.
pub open spec fn describes(found: Found, g: Seq<u8>, unique: bool) -> bool {
    match found {
        Found::Nothing => forall|s: Seq<u8>| !is_solution(s, g),
        Found::One(s) => is_solution(s, g) && (unique ==> forall|t: Seq<u8>|
            is_solution(t, g) ==> t == s),
        Found::Several => unique && exists|s: Seq<u8>, t: Seq<u8>|
            s != t && is_solution(s, g) && is_solution(t, g),
    }
}

/// What describes the completions of one grid describes those of any grid
/// with the same completions.
pub proof fn lemma_describes_same_completions(found: Found, p: Seq<u8>, g: Seq<u8>, unique: bool)
    requires
        describes(found, p, unique),
        forall|s: Seq<u8>| is_solution(s, g) == is_solution(s, p),
    ensures
        describes(found, g, unique),
{
    match found {
        Found::Several => {
            let (s, t) = choose|s: Seq<u8>, t: Seq<u8>|
                s != t && is_solution(s, p) && is_solution(t, p);
            assert(s != t && is_solution(s, g) && is_solution(t, g));
        },
        _ => {},
    }
}

/// Among the first `n` cells of a grid, the empty cell with the fewest
/// candidates that comes first, or -1 if none of them is empty.
proof fn lemma_best_among(g: Seq<u8>, n: int) -> (c: int)
    requires
        0 <= n <= 81,
    ensures
        c == -1 ==> forall|j: int| 0 <= j < n ==> #[trigger] g[j] != 0,
        c != -1 ==> 0 <= c < n && g[c] == 0 && forall|j: int|
            0 <= j < n && #[trigger] g[j] == 0 ==> candidates(g, c).len() < candidates(g, j).len()
                || (candidates(g, c).len() == candidates(g, j).len() && c <= j),
    decreases n,
{
    if n == 0 {
        -1
    } else {
        let b = lemma_best_among(g, n - 1);
        if g[n - 1] != 0 {
            b
        } else if b == -1 {
            n - 1
        } else if candidates(g, n - 1).len() < candidates(g, b).len() {
            n - 1
        } else {
            b
        }
    }
}

/// A grid with an empty cell has a cell to branch on.
pub proof fn lemma_branch_cell_exists(g: Seq<u8>)
    requires
        !complete(g),
    ensures
        is_branch_cell(g, branch_cell(g)),
{
    let c = lemma_best_among(g, 81);
    assert(is_branch_cell(g, c));
}

/// What the search finds on a valid grid describes its completions.
pub proof fn lemma_search_describes(g: Seq<u8>, unique: bool)
    requires
        well_formed(g),
        consistent(g),
    ensures
        describes(search_model(g, unique), g, unique),
    decreases empty_count(g), 2int, 0int,
{
    match propagate_model(g) {
        None => {
            assert forall|s: Seq<u8>| !is_solution(s, g) by {
                lemma_propagate(g, s);
            }
        },
        Some(p) => {
            assert forall|s: Seq<u8>| keeps(p, g, s) by {
                lemma_propagate(g, s);
            }
            assert(keeps(p, g, g));
            assert forall|s: Seq<u8>| is_solution(s, g) == is_solution(s, p) by {
                assert(keeps(p, g, s));
            }
            if complete(p) {
                assert forall|t: Seq<u8>| is_solution(t, p) implies t == p by {
                    lemma_complete_is_solved(p, t);
                }
                lemma_complete_is_solved(p, p);
                lemma_describes_same_completions(Found::One(p), p, g, unique);
            } else {
                lemma_explore_describes(p, unique);
                lemma_describes_same_completions(explore_model(p, unique), p, g, unique);
            }
        },
    }
}

/// What the search finds below a valid grid with an empty cell describes
/// its completions.
pub proof fn lemma_explore_describes(p: Seq<u8>, unique: bool)
    requires
        well_formed(p),
        consistent(p),
        !complete(p),
    ensures
        describes(explore_model(p, unique), p, unique),
    decreases empty_count(p), 1int, 0int,
{
    lemma_branch_cell_exists(p);
    let c = branch_cell(p);
    assert forall|s: Seq<u8>| is_solution(s, p) implies s[c] >= 1 by {
        assert(s[c] != 0);
    }
    lemma_digits_describe(p, c, 1, unique, None);
}

/// What the tries of the digits from `d` on find, together with what the
/// digits before `d` gave, describes the completions of the grid.
pub proof fn lemma_digits_describe(
    p: Seq<u8>,
    c: int,
    d: int,
    unique: bool,
    found: Option<Seq<u8>>,
)
    requires
        well_formed(p),
        consistent(p),
        0 <= c < 81,
        p[c] == 0,
        1 <= d <= 10,
        found is None ==> forall|s: Seq<u8>| is_solution(s, p) ==> s[c] >= d,
        found matches Some(f) ==> unique && is_solution(f, p) && f[c] < d && forall|t: Seq<u8>|
            is_solution(t, p) && t[c] < d ==> t == f,
    ensures
        describes(try_digits(p, c, d, unique, found), p, unique),
    decreases empty_count(p), 0int, 10 - d,
{
    if d > 9 {
        assert forall|s: Seq<u8>| is_solution(s, p) implies s[c] < d by {
            assert(s[c] <= 9);
        }
    } else if !is_candidate(p, c, d) {
        assert forall|s: Seq<u8>| is_solution(s, p) implies s[c] != d by {
            lemma_solution_picks_candidate(s, p, c);
        }
        lemma_digits_describe(p, c, d + 1, unique, found);
    } else {
        let q = p.update(c, d as u8);
        lemma_fill(p, c, d);
        lemma_search_describes(q, unique);
        assert forall|s: Seq<u8>| is_solution(s, q) == (is_solution(s, p) && s[c] == d) by {
            lemma_solutions_after_fill(s, p, c, d);
        }
        match search_model(q, unique) {
            Found::Nothing => {
                assert forall|s: Seq<u8>| is_solution(s, p) implies s[c] != d by {
                    assert(!is_solution(s, q));
                }
                lemma_digits_describe(p, c, d + 1, unique, found);
            },
            Found::One(s1) => {
                assert(is_solution(s1, q));
                assert(is_solution(s1, p) && s1[c] == d);
                if !unique {
                } else if found is Some {
                    let f = found->Some_0;
                    assert(f != s1);
                    assert(f != s1 && is_solution(f, p) && is_solution(s1, p));
                } else {
                    assert forall|t: Seq<u8>| is_solution(t, p) && t[c] < d + 1 implies t
                        == s1 by {
                        assert(t[c] >= d);
                        assert(is_solution(t, q));
                    }
                    lemma_digits_describe(p, c, d + 1, unique, Some(s1));
                }
            },
            Found::Several => {
                let (s, t) = choose|s: Seq<u8>, t: Seq<u8>|
                    s != t && is_solution(s, q) && is_solution(t, q);
                assert(s != t && is_solution(s, p) && is_solution(t, p));
            },
        }
    }
}

} // verus!
