use sudoku_core::board::Board;
use sudoku_core::grid::is_legal_move;

fn board_with(cells: &[(usize, u8)]) -> Board {
    let mut b = Board::new();
    for &(i, v) in cells {
        b.set_value(i, v);
    }
    b
}

#[test]
fn new_board_is_empty_and_legal() {
    let b = Board::new();
    for i in 0..81 {
        assert_eq!(b.value(i), 0);
        assert!(b.is_legal(i));
    }
    assert!(!b.is_solving());
}

#[test]
fn lone_value_is_legal() {
    let mut b = Board::new();
    let changed = b.set_value(40, 7);
    assert_eq!(b.value(40), 7);
    assert!(b.is_legal(40));
    assert_eq!(changed, vec![40]);
}

#[test]
fn row_conflict_flags_both_cells() {
    // One cell set to 5 and a same-row peer also set to 5: both illegal.
    let b = board_with(&[(0, 5), (8, 5)]);
    assert!(!b.is_legal(0));
    assert!(!b.is_legal(8));
    for i in 1..8 {
        assert!(b.is_legal(i));
    }
}

#[test]
fn conflict_rejects_solve_request() {
    let mut b = board_with(&[(0, 5), (8, 5)]);
    let snapshot = b.request_solve();
    assert!(snapshot.is_none());
    assert!(!b.is_solving());
}

#[test]
fn is_legal_move_detects_row_col_box_conflicts() {
    let mut cells = vec![0u8; 81];
    cells[0] = 5;
    // Same row.
    assert!(!is_legal_move(&cells, 8, 5));
    // Same column.
    assert!(!is_legal_move(&cells, 72, 5));
    // Same box.
    assert!(!is_legal_move(&cells, 10, 5));
    // Unrelated cell.
    assert!(is_legal_move(&cells, 40, 5));
    // With the same-row peer also holding 5, both cells' own values are
    // illegal moves.
    cells[8] = 5;
    assert!(!is_legal_move(&cells, 0, 5));
    assert!(!is_legal_move(&cells, 8, 5));
    // A different value beside the 5 is fine.
    assert!(is_legal_move(&cells, 1, 6));
    // An empty value is always legal, even next to another empty cell.
    assert!(is_legal_move(&cells, 1, 0));
}

#[test]
fn conflicting_pair_reported_in_changed_list() {
    let mut b = Board::new();
    let first = b.set_value(0, 5);
    assert_eq!(first, vec![0]);
    // The second 5 flips both cells' flags: the edited cell and its peer.
    let second = b.set_value(8, 5);
    assert!(second.contains(&8));
    assert!(second.contains(&0));
    assert_eq!(second.len(), 2);
}

#[test]
fn clearing_sole_conflict_source_restores_two_peers() {
    // Cell 0 conflicts with its row peer 8 and its column peer 72; the two
    // peers do not conflict with each other.
    let mut b = board_with(&[(0, 5), (8, 5), (72, 5)]);
    assert!(!b.is_legal(0));
    assert!(!b.is_legal(8));
    assert!(!b.is_legal(72));
    let changed = b.set_value(0, 0);
    assert!(b.is_legal(0));
    assert!(b.is_legal(8));
    assert!(b.is_legal(72));
    assert!(changed.contains(&0));
    assert!(changed.contains(&8));
    assert!(changed.contains(&72));
    assert_eq!(changed.len(), 3);
}

#[test]
fn overwriting_conflict_updates_flags() {
    let mut b = board_with(&[(0, 5), (8, 5)]);
    // Replacing the 5 at cell 8 by a 6 resolves the conflict at both ends.
    let changed = b.set_value(8, 6);
    assert!(b.is_legal(0));
    assert!(b.is_legal(8));
    assert!(changed.contains(&0));
    assert!(changed.contains(&8));
}

#[test]
fn replace_all_rederives_legality() {
    let mut b = Board::new();
    let mut cells = vec![0u8; 81];
    cells[3] = 9;
    cells[30] = 9;  // same column as cell 3
    b.replace_all(&cells);
    assert_eq!(b.value(3), 9);
    assert_eq!(b.value(30), 9);
    assert!(!b.is_legal(3));
    assert!(!b.is_legal(30));
    assert!(b.is_legal(0));
}

#[test]
fn solve_request_snapshots_and_completion_applies() {
    let mut b = board_with(&[(0, 1), (1, 2)]);
    let snapshot = b.request_solve().expect("conflict-free board accepts a solve request");
    assert!(b.is_solving());
    assert_eq!(snapshot.len(), 81);
    assert_eq!(snapshot[0], 1);
    assert_eq!(snapshot[1], 2);
    // A second request while solving is rejected.
    assert!(b.request_solve().is_none());
    assert!(b.is_solving());
    // The completion message applies the carried board verbatim.
    let mut solution = snapshot.clone();
    solution[2] = 3;
    b.complete_solve(&solution);
    assert!(!b.is_solving());
    assert_eq!(b.value(0), 1);
    assert_eq!(b.value(1), 2);
    assert_eq!(b.value(2), 3);
}
