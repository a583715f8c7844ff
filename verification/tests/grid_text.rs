use sudoku_solver::grid::{Grid, GridError, BLANK};

const CLASSIC: &str =
    "53..7....6..195....98....6.8...6...34..8.3..17...2...6.6....28....419..5....8..79";

#[test]
fn parse_then_serialize_gives_the_text_back() {
    let grid = Grid::parse(CLASSIC).unwrap();
    assert_eq!(grid.serialize(), CLASSIC);
}

#[test]
fn parse_then_serialize_round_trips_an_empty_grid() {
    let text = ".".repeat(81);
    let grid = Grid::parse(&text).unwrap();
    assert_eq!(grid.serialize(), text);
    assert!(!grid.is_complete());
}

#[test]
fn parse_then_serialize_round_trips_a_full_grid() {
    let text = "534678912672195348198342567859761423426853791713924856961537284287419635345286179";
    let grid = Grid::parse(text).unwrap();
    assert_eq!(grid.serialize(), text);
    assert!(grid.is_complete());
}

#[test]
fn serialize_then_parse_gives_the_grid_back() {
    let grid = Grid::parse(CLASSIC).unwrap();
    let again = Grid::parse(&grid.serialize()).unwrap();
    assert_eq!(again, grid);
}

#[test]
fn parse_reads_cells_row_by_row() {
    let grid = Grid::parse(CLASSIC).unwrap();
    assert_eq!(grid.get(0), 5);
    assert_eq!(grid.get(1), 3);
    assert_eq!(grid.get(2), 0);
    assert_eq!(grid.get(4), 7);
    assert_eq!(grid.get(9), 6);
    assert_eq!(grid.get(80), 9);
    assert_eq!(grid.cells().len(), 81);
}

#[test]
fn parse_rejects_a_short_text() {
    assert_eq!(Grid::parse(&CLASSIC[..80]), Err(GridError::InvalidFormat));
}

#[test]
fn parse_rejects_a_long_text() {
    let text = format!("{}.", CLASSIC);
    assert_eq!(Grid::parse(&text), Err(GridError::InvalidFormat));
}

#[test]
fn parse_rejects_the_empty_text() {
    assert_eq!(Grid::parse(""), Err(GridError::InvalidFormat));
}

#[test]
fn parse_rejects_a_zero() {
    let text = CLASSIC.replacen('.', "0", 1);
    assert_eq!(text.len(), 81);
    assert_eq!(Grid::parse(&text), Err(GridError::InvalidFormat));
}

#[test]
fn parse_rejects_a_letter() {
    let text = CLASSIC.replacen('.', "x", 1);
    assert_eq!(Grid::parse(&text), Err(GridError::InvalidFormat));
}

#[test]
fn parse_counts_characters_not_bytes() {
    let text = CLASSIC.replacen('.', "é", 1);
    assert_eq!(text.chars().count(), 81);
    assert_eq!(Grid::parse(&text), Err(GridError::InvalidFormat));
}

#[test]
fn parse_rejects_a_digit_twice_in_a_row() {
    let text = format!("5.......5{}", ".".repeat(72));
    assert_eq!(Grid::parse(&text), Err(GridError::InvalidPuzzle));
}

#[test]
fn parse_rejects_a_digit_twice_in_a_column() {
    let text = format!("7{}7{}", ".".repeat(71), ".".repeat(8));
    assert_eq!(text.len(), 81);
    assert_eq!(Grid::parse(&text), Err(GridError::InvalidPuzzle));
}

#[test]
fn parse_rejects_a_digit_twice_in_a_box() {
    let text = format!("3.........3{}", ".".repeat(70));
    assert_eq!(text.len(), 81);
    assert_eq!(Grid::parse(&text), Err(GridError::InvalidPuzzle));
}

#[test]
fn parse_checks_the_format_before_the_rules() {
    let text = format!("5.......5x{}", ".".repeat(71));
    assert_eq!(text.len(), 81);
    assert_eq!(Grid::parse(&text), Err(GridError::InvalidFormat));
}

#[test]
fn blank_marker_is_a_dot() {
    assert_eq!(BLANK, '.');
}

#[test]
fn a_clone_is_the_same_grid() {
    let grid = Grid::parse(CLASSIC).unwrap();
    assert_eq!(grid.clone(), grid);
}
