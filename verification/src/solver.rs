//! The solve orchestrator: validate the text, propagate, search where
//! needed, and classify what came of it.

use vstd::prelude::*;
use vstd::string::*;
use crate::board::Board;
use crate::correctness::lemma_search_describes;
use crate::deadline::Deadline;
use crate::grid::{encode, parse_spec, Grid, GridError};
use crate::propagation::propagate_model;
use crate::rules::{complete, is_solution};
use crate::search::{search, search_model, Found, SearchResult};
use crate::topology::PeerIndex;

verus! {

/// What the caller asks of a solve.
#[derive(Clone, Copy, Debug, PartialEq, Eq)]
pub struct SolveOptions {
    /// Tell a puzzle with one completion from a puzzle with several.
    pub find_unique_only: bool,
    /// Give up once this many milliseconds are exceeded; `None` for no limit.
    pub timeout_ms: Option<u64>,
}

impl Default for SolveOptions {
    /// Uniqueness is checked and there is no time limit.
    fn default() -> (options: SolveOptions)
        ensures
            options.find_unique_only,
            options.timeout_ms is None,
    {
        SolveOptions { find_unique_only: true, timeout_ms: None }
    }
}

/// How a solve ended.
#[derive(Debug, PartialEq, Eq)]
pub enum SolveResult {
    /// The completed grid.
    Solved(Grid),
    /// No completion obeys the rules.
    Unsolvable,
    /// Uniqueness was asked for and there is more than one completion.
    Ambiguous,
    /// The text is no puzzle, for this reason.
    Invalid(GridError),
    /// The time budget ran out during the search.
    TimedOut,
}

/// How a solve ended, over plain cell values.
pub enum Verdict {
    /// The cell values of the completed grid.
    Solved(Seq<u8>),
    /// No completion obeys the rules.
    Unsolvable,
    /// Uniqueness was asked for and there is more than one completion.
    Ambiguous,
    /// The text is no puzzle, for this reason.
    Invalid(GridError),
    /// The time budget ran out during the search.
    TimedOut,
}

impl View for SolveResult {
    type V = Verdict;

    open spec fn view(&self) -> Verdict {
        match self {
            SolveResult::Solved(g) => Verdict::Solved(g@),
            SolveResult::Unsolvable => Verdict::Unsolvable,
            SolveResult::Ambiguous => Verdict::Ambiguous,
            SolveResult::Invalid(e) => Verdict::Invalid(*e),
            SolveResult::TimedOut => Verdict::TimedOut,
        }
    }
}

/// The text that a verdict is handed out as: the grid's own text for a
/// solved grid, and a tag for every other verdict.
pub open spec fn verdict_text(v: Verdict) -> Seq<char> {
    match v {
        Verdict::Solved(s) => encode(s),
        Verdict::Unsolvable => "unsolvable"@,
        Verdict::Ambiguous => "ambiguous"@,
        Verdict::Invalid(GridError::InvalidFormat) => "invalid_format"@,
        Verdict::Invalid(GridError::InvalidPuzzle) => "invalid_puzzle"@,
        Verdict::TimedOut => "timed_out"@,
    }
}

impl SolveResult {
    /// The text that the result is handed out as.
    pub fn to_text(&self) -> (text: String)
        ensures
            text@ == verdict_text(self@),
    {
        match self {
            SolveResult::Solved(grid) => grid.serialize(),
            SolveResult::Unsolvable => String::from_str("unsolvable"),
            SolveResult::Ambiguous => String::from_str("ambiguous"),
            SolveResult::Invalid(GridError::InvalidFormat) => String::from_str("invalid_format"),
            SolveResult::Invalid(GridError::InvalidPuzzle) => String::from_str("invalid_puzzle"),
            SolveResult::TimedOut => String::from_str("timed_out"),
        }
    }
}

/// The verdict on what a search found.
pub open spec fn verdict_of(found: Found) -> Verdict {
    match found {
        Found::Nothing => Verdict::Unsolvable,
        Found::One(s) => Verdict::Solved(s),
        Found::Several => Verdict::Ambiguous,
    }
}

/// What a solve without a time limit returns for a text.
pub open spec fn solve_model(text: Seq<char>, find_unique_only: bool) -> Verdict {
    match parse_spec(text) {
        Err(e) => Verdict::Invalid(e),
        Ok(g) => verdict_of(search_model(g, find_unique_only)),
    }
}

/// Whether solving the text takes a search: it is a puzzle, and propagation
/// alone neither completes nor refutes it.
pub open spec fn needs_search(text: Seq<char>) -> bool {
    &&& parse_spec(text) is Ok
    &&& propagate_model(parse_spec(text)->Ok_0) matches Some(p)
    &&& !complete(p)
}

/// The verdict is true of the text: an invalid text does not parse, for
/// the reason given; a solved grid completes the puzzle within the rules,
/// and is its only completion where uniqueness was asked for; an
/// unsolvable puzzle has no completion; an ambiguous one has two; and
/// time can only run out where a search is needed.
pub open spec fn verdict_holds(v: Verdict, text: Seq<char>, find_unique_only: bool) -> bool {
    match v {
        Verdict::Invalid(e) => parse_spec(text) == Err::<Seq<u8>, GridError>(e),
        Verdict::Solved(s) => parse_spec(text) matches Ok(g) && is_solution(s, g) && (
        find_unique_only ==> forall|t: Seq<u8>| is_solution(t, g) ==> t == s),
        Verdict::Unsolvable => parse_spec(text) matches Ok(g) && forall|s: Seq<u8>|
            !is_solution(s, g),
        Verdict::Ambiguous => find_unique_only && (parse_spec(text) matches Ok(g)
            && exists|s: Seq<u8>, t: Seq<u8>| s != t && is_solution(s, g) && is_solution(t, g)),
        Verdict::TimedOut => needs_search(text),
    }
}

/// The result that stands for what a search found on a puzzle.
pub fn classify(found: SearchResult) -> (r: SolveResult)
    ensures
        r@ == match found@ {
            Some(f) => verdict_of(f),
            None => Verdict::TimedOut,
        },
{
    match found {
        SearchResult::Nothing => SolveResult::Unsolvable,
        SearchResult::One(g) => SolveResult::Solved(g),
        SearchResult::Several => SolveResult::Ambiguous,
        SearchResult::TimedOut => SolveResult::TimedOut,
    }
}

/// Solves the puzzle that `input` is the text of, reading peers from an
/// index that the caller keeps, so that many solves can share one.
///
/// The result is the one that `solve_model` gives, whatever the time
/// limit, unless a limit is set and a search is needed: then the result
/// may be `TimedOut` instead. The budget runs from the call on.
pub fn solve_with(index: &PeerIndex, input: &str, options: &SolveOptions) -> (r: SolveResult)
    ensures
        r@ == solve_model(input@, options.find_unique_only) || (r@ == Verdict::TimedOut
            && options.timeout_ms is Some && needs_search(input@)),
        verdict_holds(r@, input@, options.find_unique_only),
{
    let mut deadline = Deadline::start(options.timeout_ms);
    let grid = match Grid::parse(input) {
        Ok(grid) => grid,
        Err(e) => {
            return SolveResult::Invalid(e);
        },
    };
    proof {
        lemma_search_describes(grid@, options.find_unique_only);
    }
    let board = Board::new(&grid, index);
    let found = search(board, options.find_unique_only, &mut deadline);
    classify(found)
}

/// Solves the puzzle that `input` is the text of.
///
/// The result is the one that `solve_model` gives, whatever the time
/// limit, unless a limit is set and a search is needed: then the result
/// may be `TimedOut` instead.
pub fn solve(input: &str, options: &SolveOptions) -> (r: SolveResult)
    ensures
        r@ == solve_model(input@, options.find_unique_only) || (r@ == Verdict::TimedOut
            && options.timeout_ms is Some && needs_search(input@)),
        verdict_holds(r@, input@, options.find_unique_only),
{
    let index = PeerIndex::new();
    solve_with(&index, input, options)
}

} // verus!
