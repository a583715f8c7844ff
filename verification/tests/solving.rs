use sudoku_solver::board::Board;
use sudoku_solver::deadline::Deadline;
use sudoku_solver::grid::{Grid, GridError};
use sudoku_solver::propagation::{
    fill_hidden_singles, fill_naked_singles, lone_holder, propagate,
};
use sudoku_solver::search::{explore, search, select_cell, SearchResult};
use sudoku_solver::solver::{classify, solve, solve_with, SolveOptions, SolveResult};
use sudoku_solver::topology::PeerIndex;

const CLASSIC: &str =
    "53..7....6..195....98....6.8...6...34..8.3..17...2...6.6....28....419..5....8..79";
const CLASSIC_SOLVED: &str =
    "534678912672195348198342567859761423426853791713924856961537284287419635345286179";
const HARD: &str =
    "4.....8.5.3..........7......2.....6.....8.4......1.......6.3.7.5..2.....1.4......";
const HARD_SOLVED: &str =
    "417369825632158947958724316825437169791586432346912758289643571573291684164875293";
const TWO_WAYS: &str =
    "534..8912672195348198342567859..1423426853791713924856961537284287419635345286179";
const FIRST_OF_ALL: &str =
    "123456789456789123789123456231674895875912364694538217317265948542897631968341572";

fn board_of<'a>(index: &'a PeerIndex, text: &str) -> Board<'a> {
    Board::new(&Grid::parse(text).unwrap(), index)
}

fn digits_of(board: &Board, cell: usize) -> Vec<u8> {
    (1..=9).filter(|d| board.candidates(cell).contains(*d)).collect()
}

fn unique() -> SolveOptions {
    SolveOptions { find_unique_only: true, timeout_ms: None }
}

fn first() -> SolveOptions {
    SolveOptions { find_unique_only: false, timeout_ms: None }
}

fn solved(text: &str) -> SolveResult {
    SolveResult::Solved(Grid::parse(text).unwrap())
}

fn obeys_the_rules(text: &str) -> bool {
    let cells: Vec<u8> = text.bytes().map(|b| b - b'0').collect();
    let unit_ok = |unit: Vec<usize>| {
        let mut seen: Vec<u8> = unit.iter().map(|&i| cells[i]).collect();
        seen.sort();
        seen == vec![1, 2, 3, 4, 5, 6, 7, 8, 9]
    };
    cells.len() == 81
        && (0..9).all(|r| unit_ok((0..9).map(|c| r * 9 + c).collect()))
        && (0..9).all(|c| unit_ok((0..9).map(|r| r * 9 + c).collect()))
        && (0..9).all(|b| {
            unit_ok((0..9).map(|k| (b / 3 * 3 + k / 3) * 9 + b % 3 * 3 + k % 3).collect())
        })
}

fn agrees_with(solution: &str, puzzle: &str) -> bool {
    solution
        .chars()
        .zip(puzzle.chars())
        .all(|(s, p)| p == '.' || p == s)
}

#[test]
fn a_new_board_holds_the_grid_and_its_candidates() {
    let index = PeerIndex::new();
    let board = board_of(&index, CLASSIC);
    assert_eq!(board.to_grid().serialize(), CLASSIC);
    assert_eq!(board.empty_count(), 51);
    assert!(!board.is_complete());
    assert_eq!(board.value(0), 5);
    assert_eq!(board.value(2), 0);
    assert_eq!(digits_of(&board, 0), Vec::<u8>::new());
    assert_eq!(digits_of(&board, 2), vec![1, 2, 4]);
    assert_eq!(digits_of(&board, 3), vec![2, 6]);
    assert_eq!(digits_of(&board, 40), vec![5]);
}

#[test]
fn placing_a_digit_takes_it_from_the_peers() {
    let index = PeerIndex::new();
    let mut board = board_of(&index, CLASSIC);
    assert_eq!(digits_of(&board, 11), vec![2, 4, 7]);
    board.place(2, 4);
    assert_eq!(board.value(2), 4);
    assert_eq!(board.empty_count(), 50);
    assert_eq!(digits_of(&board, 2), Vec::<u8>::new());
    assert_eq!(digits_of(&board, 3), vec![2, 6]);
    assert_eq!(digits_of(&board, 11), vec![2, 7]);
    let fresh = Board::new(&board.to_grid(), &index);
    for cell in 0..81 {
        assert_eq!(board.candidates(cell), fresh.candidates(cell));
    }
}

#[test]
fn a_fork_leaves_the_board_alone() {
    let index = PeerIndex::new();
    let board = board_of(&index, CLASSIC);
    let mut copy = board.fork();
    copy.place(40, 5);
    assert_eq!(board.value(40), 0);
    assert_eq!(copy.value(40), 5);
    assert_eq!(board.to_grid().serialize(), CLASSIC);
}

#[test]
fn one_pass_over_the_cells() {
    let index = PeerIndex::new();
    let board = fill_naked_singles(board_of(&index, CLASSIC)).unwrap();
    assert_eq!(
        board.to_grid().serialize(),
        "53..7....6..195....98....6.8...6...34..853..17..92...6.6..37284...419.35....8..79"
    );
}

#[test]
fn one_pass_over_the_units() {
    let index = PeerIndex::new();
    let board = fill_hidden_singles(board_of(&index, CLASSIC));
    assert_eq!(
        board.to_grid().serialize(),
        "53.67891.67.195..819834.5678.9.6..234.68.37917.392.85696..3.284.8.419635....86179"
    );
}

#[test]
fn the_only_cell_of_a_unit_for_a_digit() {
    let index = PeerIndex::new();
    let board = board_of(&index, HARD);
    assert_eq!(lone_holder(&board, 10, 4), Some(5));
    assert_eq!(lone_holder(&board, 21, 4), Some(7));
    assert_eq!(lone_holder(&board, 0, 1), None);
    assert_eq!(lone_holder(&board, 0, 4), None);
}

#[test]
fn propagation_alone_solves_the_classic_puzzle() {
    let index = PeerIndex::new();
    let board = propagate(board_of(&index, CLASSIC)).unwrap();
    assert!(board.is_complete());
    assert_eq!(board.to_grid().serialize(), CLASSIC_SOLVED);
}

#[test]
fn propagation_stops_where_nothing_is_forced() {
    let index = PeerIndex::new();
    let board = propagate(board_of(&index, HARD)).unwrap();
    assert!(!board.is_complete());
    assert_eq!(
        board.to_grid().serialize(),
        "4.....8.5.3..........7......2.....6.....8.4...4..1.......6.3.7.5.32.1...1.4......"
    );
    for cell in 0..81 {
        if board.value(cell) == 0 {
            assert!(board.candidates(cell).len() >= 2);
        }
    }
    for unit in 0..27 {
        for digit in 1..=9 {
            assert_eq!(lone_holder(&board, unit, digit), None);
        }
    }
    let before = board.to_grid();
    let again = propagate(board).unwrap();
    assert_eq!(again.to_grid(), before);
}

#[test]
fn propagation_finds_a_cell_without_candidates() {
    let index = PeerIndex::new();
    let text = format!("12345678.........9{}", ".".repeat(63));
    assert!(propagate(board_of(&index, &text)).is_none());
    assert!(fill_naked_singles(board_of(&index, &text)).is_none());
}

#[test]
fn the_branch_cell_has_the_fewest_candidates_and_comes_first() {
    let index = PeerIndex::new();
    let board = propagate(board_of(&index, HARD)).unwrap();
    let cell = select_cell(&board);
    assert_eq!(cell, 55);
    assert_eq!(digits_of(&board, cell), vec![8, 9]);
    let blank = board_of(&index, &".".repeat(81));
    assert_eq!(select_cell(&blank), 0);
}

#[test]
fn search_finds_the_completion_of_the_hard_puzzle() {
    let index = PeerIndex::new();
    let mut deadline = Deadline::start(None);
    match search(board_of(&index, HARD), true, &mut deadline) {
        SearchResult::One(grid) => assert_eq!(grid.serialize(), HARD_SOLVED),
        other => panic!("{:?}", other),
    }
}

#[test]
fn explore_tells_one_completion_from_two() {
    let index = PeerIndex::new();
    let board = board_of(&index, TWO_WAYS);
    let mut deadline = Deadline::start(None);
    assert!(matches!(explore(&board, true, &mut deadline), SearchResult::Several));
    match explore(&board, false, &mut deadline) {
        SearchResult::One(grid) => assert_eq!(grid.serialize(), CLASSIC_SOLVED),
        other => panic!("{:?}", other),
    }
}

#[test]
fn classify_names_what_was_found() {
    assert_eq!(classify(SearchResult::Nothing), SolveResult::Unsolvable);
    assert_eq!(classify(SearchResult::Several), SolveResult::Ambiguous);
    assert_eq!(classify(SearchResult::TimedOut), SolveResult::TimedOut);
    let grid = Grid::parse(CLASSIC_SOLVED).unwrap();
    assert_eq!(classify(SearchResult::One(grid.clone())), SolveResult::Solved(grid));
}

#[test]
fn a_result_is_handed_out_as_the_grid_text_or_a_tag() {
    assert_eq!(solve(CLASSIC, &unique()).to_text(), CLASSIC_SOLVED);
    assert_eq!(solve(TWO_WAYS, &unique()).to_text(), "ambiguous");
    let text = format!("12345678.........9{}", ".".repeat(63));
    assert_eq!(solve(&text, &unique()).to_text(), "unsolvable");
    assert_eq!(solve("", &unique()).to_text(), "invalid_format");
    let text = format!("5.......5{}", ".".repeat(72));
    assert_eq!(solve(&text, &unique()).to_text(), "invalid_puzzle");
    assert_eq!(SolveResult::TimedOut.to_text(), "timed_out");
}

#[test]
fn default_options_check_uniqueness_without_a_limit() {
    assert_eq!(SolveOptions::default(), unique());
}

#[test]
fn solve_completes_the_classic_puzzle() {
    assert_eq!(solve(CLASSIC, &unique()), solved(CLASSIC_SOLVED));
    assert_eq!(solve(CLASSIC, &first()), solved(CLASSIC_SOLVED));
}

#[test]
fn solve_completes_the_hard_puzzle() {
    assert_eq!(solve(HARD, &unique()), solved(HARD_SOLVED));
    assert_eq!(solve(HARD, &first()), solved(HARD_SOLVED));
}

#[test]
fn solve_completes_a_puzzle_that_takes_many_branches() {
    let puzzle =
        "8..........36......7..9.2...5...7.......457.....1...3...1....68..85...1..9....4..";
    let answer =
        "812753649943682175675491283154237896369845721287169534521974368438526917796318452";
    assert_eq!(solve(puzzle, &unique()), solved(answer));
    assert_eq!(solve(puzzle, &first()), solved(answer));
}

#[test]
fn solve_completes_a_puzzle_of_seventeen_givens_by_propagation() {
    let puzzle =
        "..............3.85..1.2.......5.7.....4...1...9.......5......73..2.1........4...9";
    let answer =
        "987654321246173985351928746128537694634892157795461832519286473472319568863745219";
    let hurried = SolveOptions { find_unique_only: true, timeout_ms: Some(0) };
    assert_eq!(solve(puzzle, &hurried), solved(answer));
}

#[test]
fn a_solution_obeys_the_rules_and_keeps_the_givens() {
    for puzzle in [CLASSIC, HARD, TWO_WAYS] {
        match solve(puzzle, &first()) {
            SolveResult::Solved(grid) => {
                let text = grid.serialize();
                assert!(obeys_the_rules(&text));
                assert!(agrees_with(&text, puzzle));
            }
            other => panic!("{:?}", other),
        }
    }
}

#[test]
fn solve_returns_a_full_valid_grid_as_it_is() {
    assert_eq!(solve(CLASSIC_SOLVED, &unique()), solved(CLASSIC_SOLVED));
    assert_eq!(solve(CLASSIC_SOLVED, &first()), solved(CLASSIC_SOLVED));
    let hurried = SolveOptions { find_unique_only: true, timeout_ms: Some(0) };
    assert_eq!(solve(CLASSIC_SOLVED, &hurried), solved(CLASSIC_SOLVED));
}

#[test]
fn solve_rejects_a_full_grid_that_breaks_the_rules() {
    let text = CLASSIC_SOLVED.replacen('4', "5", 1);
    assert_eq!(solve(&text, &unique()), SolveResult::Invalid(GridError::InvalidPuzzle));
    assert_eq!(solve(&text, &first()), SolveResult::Invalid(GridError::InvalidPuzzle));
}

#[test]
fn solve_twice_gives_the_same_result() {
    for puzzle in [CLASSIC, HARD] {
        assert_eq!(solve(puzzle, &unique()), solve(puzzle, &unique()));
    }
}

#[test]
fn solve_names_a_puzzle_with_two_completions_ambiguous() {
    assert_eq!(solve(TWO_WAYS, &unique()), SolveResult::Ambiguous);
}

#[test]
fn solve_without_the_uniqueness_check_takes_the_first_completion() {
    assert_eq!(solve(TWO_WAYS, &first()), solved(CLASSIC_SOLVED));
}

#[test]
fn two_blank_cells_never_leave_two_completions() {
    let text = format!(".{}.", &CLASSIC_SOLVED[1..80]);
    assert_eq!(solve(&text, &unique()), solved(CLASSIC_SOLVED));
}

#[test]
fn the_empty_grid_is_ambiguous_and_its_first_completion_is_fixed() {
    let blank = ".".repeat(81);
    assert_eq!(solve(&blank, &unique()), SolveResult::Ambiguous);
    assert_eq!(solve(&blank, &first()), solved(FIRST_OF_ALL));
}

#[test]
fn one_given_leaves_the_same_first_completion() {
    let text = format!("1{}", ".".repeat(80));
    assert_eq!(solve(&text, &unique()), SolveResult::Ambiguous);
    assert_eq!(solve(&text, &first()), solved(FIRST_OF_ALL));
}

#[test]
fn solve_names_a_puzzle_without_completion_unsolvable() {
    let text = format!("12345678.........9{}", ".".repeat(63));
    assert_eq!(solve(&text, &unique()), SolveResult::Unsolvable);
    assert_eq!(solve(&text, &first()), SolveResult::Unsolvable);
}

#[test]
fn solve_rejects_a_text_of_the_wrong_length() {
    assert_eq!(solve(&CLASSIC[..80], &unique()), SolveResult::Invalid(GridError::InvalidFormat));
    assert_eq!(solve("", &first()), SolveResult::Invalid(GridError::InvalidFormat));
    let long = format!("{}1", CLASSIC);
    assert_eq!(solve(&long, &unique()), SolveResult::Invalid(GridError::InvalidFormat));
}

#[test]
fn solve_rejects_an_unrecognized_character() {
    let text = CLASSIC.replacen('.', "0", 1);
    assert_eq!(solve(&text, &unique()), SolveResult::Invalid(GridError::InvalidFormat));
    let text = CLASSIC.replacen('.', " ", 1);
    assert_eq!(solve(&text, &first()), SolveResult::Invalid(GridError::InvalidFormat));
}

#[test]
fn solve_rejects_clashing_givens() {
    let text = format!("5.......5{}", ".".repeat(72));
    assert_eq!(solve(&text, &unique()), SolveResult::Invalid(GridError::InvalidPuzzle));
}

#[test]
fn many_solves_share_one_index() {
    let index = PeerIndex::new();
    for puzzle in [CLASSIC, HARD, TWO_WAYS, "x"] {
        for options in [unique(), first()] {
            assert_eq!(solve_with(&index, puzzle, &options), solve(puzzle, &options));
        }
    }
}

#[test]
fn a_spent_budget_ends_a_search_at_once() {
    let hurried = SolveOptions { find_unique_only: true, timeout_ms: Some(0) };
    assert_eq!(solve(HARD, &hurried), SolveResult::TimedOut);
    let hurried = SolveOptions { find_unique_only: false, timeout_ms: Some(0) };
    assert_eq!(solve(&".".repeat(81), &hurried), SolveResult::TimedOut);
}

#[test]
fn a_spent_budget_does_not_matter_without_a_search() {
    let hurried = SolveOptions { find_unique_only: true, timeout_ms: Some(0) };
    assert_eq!(solve(CLASSIC, &hurried), solved(CLASSIC_SOLVED));
    let text = format!("12345678.........9{}", ".".repeat(63));
    assert_eq!(solve(&text, &hurried), SolveResult::Unsolvable);
    assert_eq!(solve("nonsense", &hurried), SolveResult::Invalid(GridError::InvalidFormat));
}

#[test]
fn a_generous_budget_changes_nothing() {
    let patient = SolveOptions { find_unique_only: true, timeout_ms: Some(3_600_000) };
    assert_eq!(solve(HARD, &patient), solved(HARD_SOLVED));
    assert_eq!(solve(TWO_WAYS, &patient), SolveResult::Ambiguous);
}
