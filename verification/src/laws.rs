//! What holds of every solve, stated over `solve_model`, the result of a
//! solve that no time limit cuts short.

use vstd::prelude::*;
use crate::correctness::lemma_search_describes;
use crate::grid::{decode, lemma_parsed_is_valid, parse_spec, recognized, GridError};
use crate::propagation::{
    hidden_digits, hidden_pass, hidden_step, holders, naked_pass, propagate_model,
};
use crate::rules::{complete, consistent, is_solution};
use crate::solver::{needs_search, solve_model, verdict_holds, Verdict};
use crate::topology::{lemma_unit_cells_are_peers, unit_cell};

verus! {

/// Every verdict of the model is true of the text.
pub proof fn law_verdict_holds(text: Seq<char>, find_unique_only: bool)
    ensures
        verdict_holds(solve_model(text, find_unique_only), text, find_unique_only),
        !(solve_model(text, find_unique_only) is TimedOut),
{
    if parse_spec(text) is Ok {
        let g = parse_spec(text)->Ok_0;
        lemma_parsed_is_valid(text);
        lemma_search_describes(g, find_unique_only);
    }
}

/// A solved grid obeys the rules in every row, column and box, has no
/// empty cell, and agrees with every given of the puzzle.
pub proof fn law_solved_grid_completes_the_puzzle(text: Seq<char>, find_unique_only: bool)
    requires
        solve_model(text, find_unique_only) is Solved,
    ensures
        parse_spec(text) is Ok,
        is_solution(solve_model(text, find_unique_only)->Solved_0, parse_spec(text)->Ok_0),
{
    law_verdict_holds(text, find_unique_only);
}

/// A puzzle that has a completion is solved, unless uniqueness is asked
/// for and it has another completion as well.
pub proof fn law_solvable_puzzle_is_solved(text: Seq<char>, find_unique_only: bool, s: Seq<u8>)
    requires
        parse_spec(text) is Ok,
        is_solution(s, parse_spec(text)->Ok_0),
        find_unique_only ==> forall|t: Seq<u8>|
            is_solution(t, parse_spec(text)->Ok_0) ==> t == s,
    ensures
        solve_model(text, find_unique_only) is Solved,
        is_solution(solve_model(text, find_unique_only)->Solved_0, parse_spec(text)->Ok_0),
        find_unique_only ==> solve_model(text, find_unique_only) == Verdict::Solved(s),
{
    law_verdict_holds(text, find_unique_only);
    let g = parse_spec(text)->Ok_0;
    match solve_model(text, find_unique_only) {
        Verdict::Unsolvable => {
            assert(!is_solution(s, g));
        },
        Verdict::Ambiguous => {
            let (a, b) = choose|a: Seq<u8>, b: Seq<u8>|
                a != b && is_solution(a, g) && is_solution(b, g);
            assert(a == s && b == s);
        },
        Verdict::Solved(r) => {
            if find_unique_only {
                assert(is_solution(s, g));
            }
        },
        _ => {},
    }
}

/// A puzzle with exactly one completion gets that completion, with the
/// uniqueness check or without it: the result is a function of the text.
pub proof fn law_unique_completion_is_found(text: Seq<char>, s: Seq<u8>)
    requires
        parse_spec(text) is Ok,
        is_solution(s, parse_spec(text)->Ok_0),
        forall|t: Seq<u8>| is_solution(t, parse_spec(text)->Ok_0) ==> t == s,
    ensures
        solve_model(text, true) == Verdict::Solved(s),
        solve_model(text, false) == Verdict::Solved(s),
{
    law_solvable_puzzle_is_solved(text, true, s);
    law_solvable_puzzle_is_solved(text, false, s);
}

/// A puzzle with two different completions is ambiguous where uniqueness
/// is asked for, and solved with one of its completions where it is not.
pub proof fn law_two_completions_are_ambiguous(text: Seq<char>, s: Seq<u8>, t: Seq<u8>)
    requires
        parse_spec(text) is Ok,
        s != t,
        is_solution(s, parse_spec(text)->Ok_0),
        is_solution(t, parse_spec(text)->Ok_0),
    ensures
        solve_model(text, true) == Verdict::Ambiguous,
        solve_model(text, false) is Solved,
        is_solution(solve_model(text, false)->Solved_0, parse_spec(text)->Ok_0),
{
    law_verdict_holds(text, true);
    law_solvable_puzzle_is_solved(text, false, s);
    let g = parse_spec(text)->Ok_0;
    match solve_model(text, true) {
        Verdict::Unsolvable => {
            assert(!is_solution(s, g));
        },
        Verdict::Solved(r) => {
            assert(s == r && t == r);
        },
        _ => {},
    }
}

/// A puzzle without a completion is unsolvable, and only such a puzzle is.
pub proof fn law_unsolvable_means_no_completion(text: Seq<char>, find_unique_only: bool)
    requires
        parse_spec(text) is Ok,
    ensures
        solve_model(text, find_unique_only) == Verdict::Unsolvable <==> forall|s: Seq<u8>|
            !is_solution(s, parse_spec(text)->Ok_0),
{
    law_verdict_holds(text, find_unique_only);
    let g = parse_spec(text)->Ok_0;
    match solve_model(text, find_unique_only) {
        Verdict::Solved(r) => {
            assert(is_solution(r, g));
        },
        Verdict::Ambiguous => {
            let (a, b) = choose|a: Seq<u8>, b: Seq<u8>|
                a != b && is_solution(a, g) && is_solution(b, g);
            assert(is_solution(a, g));
        },
        _ => {},
    }
}

/// A text that is not 81 recognized characters is invalid for its format,
/// whatever else is wrong with it.
pub proof fn law_malformed_text_is_invalid(text: Seq<char>, find_unique_only: bool)
    requires
        !recognized(text),
    ensures
        solve_model(text, find_unique_only) == Verdict::Invalid(GridError::InvalidFormat),
{
}

/// A pass over the cells of a grid without empty cells changes nothing.
proof fn lemma_naked_pass_on_full_grid(g: Seq<u8>, i: int)
    requires
        g.len() == 81,
        complete(g),
        0 <= i <= 81,
    ensures
        naked_pass(g, i) == Some(g),
    decreases 81 - i,
{
    if i < 81 {
        assert(g[i] != 0);
        lemma_naked_pass_on_full_grid(g, i + 1);
    }
}

/// The turns of the digits in a unit of a grid without empty cells change
/// nothing.
proof fn lemma_hidden_digits_on_full_grid(g: Seq<u8>, u: int, d: int)
    requires
        g.len() == 81,
        complete(g),
        0 <= u < 27,
        1 <= d <= 10,
    ensures
        hidden_digits(g, u, d) == g,
    decreases 10 - d,
{
    if d <= 9 {
        assert(holders(g, u, d) =~= Set::<int>::empty()) by {
            assert forall|k: int| !holders(g, u, d).contains(k) by {
                if 0 <= k < 9 {
                    lemma_unit_cells_are_peers(u, k, k);
                    assert(g[unit_cell(u, k)] != 0);
                }
            }
        }
        assert(hidden_step(g, u, d) == g);
        lemma_hidden_digits_on_full_grid(g, u, d + 1);
    }
}

/// A pass over the units of a grid without empty cells changes nothing.
proof fn lemma_hidden_pass_on_full_grid(g: Seq<u8>, u: int)
    requires
        g.len() == 81,
        complete(g),
        0 <= u <= 27,
    ensures
        hidden_pass(g, u) == g,
    decreases 27 - u,
{
    if u < 27 {
        lemma_hidden_digits_on_full_grid(g, u, 1);
        lemma_hidden_pass_on_full_grid(g, u + 1);
    }
}

/// A text without a blank is settled without a search: it is solved, as it
/// stands, exactly if it obeys the rules, and invalid if it does not.
pub proof fn law_full_grid_needs_no_search(text: Seq<char>, find_unique_only: bool)
    requires
        recognized(text),
        complete(decode(text)),
    ensures
        !needs_search(text),
        solve_model(text, find_unique_only) == if consistent(decode(text)) {
            Verdict::Solved(decode(text))
        } else {
            Verdict::Invalid(GridError::InvalidPuzzle)
        },
{
    let g = decode(text);
    if consistent(g) {
        lemma_parsed_is_valid(text);
        lemma_naked_pass_on_full_grid(g, 0);
        lemma_hidden_pass_on_full_grid(g, 0);
        assert(propagate_model(g) == Some(g));
    }
}

} // verus!
