use sudoku_solver::deadline::{budget_exceeded, Deadline, CHECK_INTERVAL};
use sudoku_solver::digits::DigitSet;
use sudoku_solver::topology::{
    box_index, col, is_peer, peer, peers_of, row, unit_member, PeerIndex, CELLS, PEERS, UNITS,
};

#[test]
fn rows_columns_and_boxes_of_some_cells() {
    assert_eq!((row(0), col(0), box_index(0)), (0, 0, 0));
    assert_eq!((row(40), col(40), box_index(40)), (4, 4, 4));
    assert_eq!((row(80), col(80), box_index(80)), (8, 8, 8));
    assert_eq!((row(33), col(33), box_index(33)), (3, 6, 5));
    assert_eq!((row(57), col(57), box_index(57)), (6, 3, 7));
}

#[test]
fn peers_of_the_first_cell() {
    assert_eq!(
        peers_of(0),
        vec![1, 2, 3, 4, 5, 6, 7, 8, 9, 18, 27, 36, 45, 54, 63, 72, 10, 11, 19, 20]
    );
}

#[test]
fn peers_of_the_middle_cell() {
    assert_eq!(
        peers_of(40),
        vec![36, 37, 38, 39, 41, 42, 43, 44, 4, 13, 22, 31, 49, 58, 67, 76, 30, 32, 48, 50]
    );
}

#[test]
fn peers_of_the_last_cell() {
    assert_eq!(
        peers_of(80),
        vec![72, 73, 74, 75, 76, 77, 78, 79, 8, 17, 26, 35, 44, 53, 62, 71, 60, 61, 69, 70]
    );
}

#[test]
fn every_cell_has_twenty_distinct_peers() {
    assert_eq!((CELLS, PEERS, UNITS), (81, 20, 27));
    for cell in 0..CELLS {
        let mut peers = peers_of(cell);
        assert_eq!(peers.len(), PEERS);
        for k in 0..PEERS {
            assert_eq!(peers[k], peer(cell, k));
        }
        peers.sort();
        peers.dedup();
        assert_eq!(peers.len(), PEERS);
        assert!(!peers.contains(&cell));
    }
}

#[test]
fn the_index_holds_the_peers_of_every_cell() {
    let index = PeerIndex::new();
    for cell in 0..CELLS {
        assert_eq!(index.peers_of(cell), &peers_of(cell));
        for k in 0..PEERS {
            assert_eq!(index.peer(cell, k), peer(cell, k));
        }
    }
}

#[test]
fn peers_are_the_cells_that_share_a_row_a_column_or_a_box() {
    for a in 0..CELLS {
        let peers = peers_of(a);
        for b in 0..CELLS {
            let shares = a != b
                && (row(a) == row(b) || col(a) == col(b) || box_index(a) == box_index(b));
            assert_eq!(peers.contains(&b), shares);
            assert_eq!(is_peer(a, b), shares);
        }
    }
}

#[test]
fn the_peer_relation_is_symmetric() {
    for a in 0..CELLS {
        for b in 0..CELLS {
            assert_eq!(peers_of(a).contains(&b), peers_of(b).contains(&a));
        }
    }
}

#[test]
fn no_cell_outside_the_grid_is_a_peer() {
    assert!(!is_peer(0, 81));
    assert!(!is_peer(81, 0));
    assert!(!is_peer(5, 5));
}

#[test]
fn units_are_rows_then_columns_then_boxes() {
    let cells = |u: usize| (0..9).map(|k| unit_member(u, k)).collect::<Vec<usize>>();
    assert_eq!(cells(0), vec![0, 1, 2, 3, 4, 5, 6, 7, 8]);
    assert_eq!(cells(8), vec![72, 73, 74, 75, 76, 77, 78, 79, 80]);
    assert_eq!(cells(9), vec![0, 9, 18, 27, 36, 45, 54, 63, 72]);
    assert_eq!(cells(17), vec![8, 17, 26, 35, 44, 53, 62, 71, 80]);
    assert_eq!(cells(18), vec![0, 1, 2, 9, 10, 11, 18, 19, 20]);
    assert_eq!(cells(22), vec![30, 31, 32, 39, 40, 41, 48, 49, 50]);
    assert_eq!(cells(26), vec![60, 61, 62, 69, 70, 71, 78, 79, 80]);
}

#[test]
fn the_cells_of_a_unit_are_peers_of_each_other() {
    for u in 0..UNITS {
        for k1 in 0..9 {
            for k2 in 0..9 {
                assert_eq!(is_peer(unit_member(u, k1), unit_member(u, k2)), k1 != k2);
            }
        }
    }
}

#[test]
fn the_empty_digit_set() {
    let set = DigitSet::empty();
    assert_eq!(set.len(), 0);
    assert!(set.is_empty());
    assert_eq!(set.first(), None);
    for d in 0..=20 {
        assert!(!set.contains(d));
    }
}

#[test]
fn the_full_digit_set() {
    let set = DigitSet::full();
    assert_eq!(set.len(), 9);
    assert!(!set.is_empty());
    assert_eq!(set.first(), Some(1));
    assert!(!set.contains(0));
    for d in 1..=9 {
        assert!(set.contains(d));
    }
    assert!(!set.contains(10));
    assert!(!set.contains(200));
}

#[test]
fn removing_digits_from_a_set() {
    let set = DigitSet::full().remove(1).remove(5).remove(9);
    assert_eq!(set.len(), 6);
    assert_eq!(set.first(), Some(2));
    assert!(!set.contains(5));
    assert!(set.contains(4));
    assert_eq!(set.remove(5), set);
    assert_eq!(set.remove(0), set);
    assert_eq!(set.remove(12), set);
}

#[test]
fn inserting_digits_into_a_set() {
    let set = DigitSet::empty().insert(7).insert(3);
    assert_eq!(set.len(), 2);
    assert_eq!(set.first(), Some(3));
    assert!(set.contains(7));
    assert_eq!(set.insert(7), set);
    assert_eq!(set.insert(0), set);
    assert_eq!(set.insert(10), set);
    assert_eq!(set.remove(3).remove(7), DigitSet::empty());
}

#[test]
fn a_budget_is_exceeded_only_past_its_last_nanosecond() {
    assert!(!budget_exceeded(0, 0));
    assert!(budget_exceeded(1, 0));
    assert!(!budget_exceeded(999_999, 1));
    assert!(!budget_exceeded(1_000_000, 1));
    assert!(budget_exceeded(1_000_001, 1));
    assert!(!budget_exceeded(u64::MAX as u128 * 1_000_000, u64::MAX));
    assert!(budget_exceeded(u64::MAX as u128 * 1_000_000 + 1, u64::MAX));
    assert!(budget_exceeded(u128::MAX, u64::MAX));
}

#[test]
fn without_a_budget_the_deadline_never_expires() {
    let mut deadline = Deadline::start(None);
    for _ in 0..(3 * CHECK_INTERVAL) {
        assert!(!deadline.expired());
    }
}

#[test]
fn a_generous_budget_does_not_expire_at_once() {
    let mut deadline = Deadline::start(Some(3_600_000));
    for _ in 0..(3 * CHECK_INTERVAL) {
        assert!(!deadline.expired());
    }
}
