use sudoku_core::codec::first_line;
use sudoku_core::codec::load;
use sudoku_core::codec::save;

fn sample_board() -> Vec<u8> {
    let mut b = vec![0u8; 81];
    b[0] = 5;
    b[10] = 3;
    b[80] = 9;
    b
}

#[test]
fn save_writes_one_digit_per_cell() {
    let line = save(&vec![0u8; 81]);
    assert_eq!(line.len(), 81);
    assert!(line.iter().all(|&ch| ch == b'0'));
    let line = save(&sample_board());
    assert_eq!(line.len(), 81);
    assert_eq!(line[0], b'5');
    assert_eq!(line[10], b'3');
    assert_eq!(line[80], b'9');
    assert_eq!(line[1], b'0');
}

#[test]
fn load_after_save_reproduces_board() {
    let board = sample_board();
    let loaded = load(&save(&board)).expect("a saved line always loads");
    assert_eq!(loaded, board);
    let full: Vec<u8> = (0..81).map(|i| ((i * 7) % 10) as u8).collect();
    let loaded = load(&save(&full)).expect("a saved line always loads");
    assert_eq!(loaded, full);
}

#[test]
fn load_rejects_short_line() {
    assert!(load(&vec![b'0'; 80]).is_none());
    assert!(load(&Vec::new()).is_none());
}

#[test]
fn load_rejects_non_digit() {
    let mut line = vec![b'0'; 81];
    line[17] = b'x';
    assert!(load(&line).is_none());
}

#[test]
fn load_ignores_bytes_after_the_first_81() {
    let mut line = vec![b'0'; 90];
    line[3] = b'7';
    line[85] = b'x';
    let loaded = load(&line).expect("the first 81 digits decide");
    assert_eq!(loaded.len(), 81);
    assert_eq!(loaded[3], 7);
}

#[test]
fn first_line_stops_at_line_feed() {
    let mut text = vec![b'1'; 81];
    text.push(b'\n');
    text.extend_from_slice(&[b'2'; 40]);
    let line = first_line(&text);
    assert_eq!(line, vec![b'1'; 81]);
    let no_newline = vec![b'3'; 5];
    assert_eq!(first_line(&no_newline), no_newline);
    let leading_newline = vec![b'\n', b'4'];
    assert!(first_line(&leading_newline).is_empty());
}
