use sudoku_core::solver::solve;

/// Checks at runtime that `b` is a fully solved grid: every row, column and
/// 3x3 box holds each of 1..=9 exactly once.
fn is_solved_grid(b: &[u8]) -> bool {
    if b.len() != 81 {
        return false;
    }
    for unit in 0..9 {
        let mut row_seen = [false; 10];
        let mut col_seen = [false; 10];
        let mut box_seen = [false; 10];
        for k in 0..9 {
            let row_v = b[unit * 9 + k] as usize;
            let col_v = b[k * 9 + unit] as usize;
            let box_v = b[((unit / 3) * 3 + k / 3) * 9 + (unit % 3) * 3 + k % 3] as usize;
            if row_v < 1 || row_v > 9 || row_seen[row_v] {
                return false;
            }
            if col_v < 1 || col_v > 9 || col_seen[col_v] {
                return false;
            }
            if box_v < 1 || box_v > 9 || box_seen[box_v] {
                return false;
            }
            row_seen[row_v] = true;
            col_seen[col_v] = true;
            box_seen[box_v] = true;
        }
    }
    true
}

/// A canonical complete grid: cell (r, c) holds (r * 3 + r / 3 + c) % 9 + 1.
fn complete_grid() -> Vec<u8> {
    let mut b = vec![0u8; 81];
    for r in 0..9 {
        for c in 0..9 {
            b[r * 9 + c] = ((r * 3 + r / 3 + c) % 9 + 1) as u8;
        }
    }
    b
}

#[test]
fn empty_board_solves_to_valid_grid() {
    let mut board = vec![0u8; 81];
    assert!(solve(&mut board));
    assert!(is_solved_grid(&board));
}

#[test]
fn solver_is_deterministic() {
    let mut first = vec![0u8; 81];
    first[0] = 4;
    first[22] = 7;
    let mut second = first.clone();
    let r1 = solve(&mut first);
    let r2 = solve(&mut second);
    assert_eq!(r1, r2);
    assert_eq!(first, second);
}

#[test]
fn solver_keeps_given_cells() {
    let mut board = vec![0u8; 81];
    board[0] = 4;
    board[40] = 8;
    board[80] = 2;
    assert!(solve(&mut board));
    assert!(is_solved_grid(&board));
    assert_eq!(board[0], 4);
    assert_eq!(board[40], 8);
    assert_eq!(board[80], 2);
}

#[test]
fn single_empty_cell_gets_its_unique_value() {
    let mut board = complete_grid();
    assert!(is_solved_grid(&board));
    let expected = board[47];
    board[47] = 0;
    assert!(solve(&mut board));
    assert_eq!(board[47], expected);
    assert!(is_solved_grid(&board));
}

#[test]
fn unsatisfiable_board_fails_and_is_left_unchanged() {
    // Cell 0 is empty while its row peers hold 2..=9 and a column peer holds
    // 1: no candidate is legal for the first empty cell.
    let mut board = vec![0u8; 81];
    for c in 1..9 {
        board[c] = (c + 1) as u8;
    }
    board[9] = 1;
    let given = board.clone();
    assert!(!solve(&mut board));
    assert_eq!(board, given);
}

#[test]
fn full_grid_reports_success_without_change() {
    let mut board = complete_grid();
    let given = board.clone();
    assert!(solve(&mut board));
    assert_eq!(board, given);
}
