use minesolver::board::GameBoard;
use minesolver::color::push_number;
use minesolver::render::{frame, push_cursor};

fn board(rows: &[&[u8]]) -> GameBoard {
    GameBoard::from_mines(rows.iter().map(|r| r.iter().map(|&m| m != 0).collect()).collect())
        .unwrap()
}

#[test]
fn push_number_writes_decimal() {
    let mut buffer = Vec::new();
    push_number(&mut buffer, 0);
    buffer.push(b' ');
    push_number(&mut buffer, 9);
    buffer.push(b' ');
    push_number(&mut buffer, 10);
    buffer.push(b' ');
    push_number(&mut buffer, 1234567890123);
    buffer.push(b' ');
    push_number(&mut buffer, u128::MAX);
    assert_eq!(buffer, format!("0 9 10 1234567890123 {}", u128::MAX).into_bytes());
}

#[test]
fn push_cursor_writes_row_then_column() {
    let mut buffer = b"ab".to_vec();
    push_cursor(&mut buffer, 12, 0);
    assert_eq!(buffer, b"ab\x1b[12;0H".to_vec());
}

#[test]
fn frame_of_small_board() {
    assert_eq!(frame(2, 1), b"\x1b[0;0H+-----+\n|     |\n+-----+\n".to_vec());
    assert_eq!(frame(0, 0), b"\x1b[0;0H+-+\n+-+\n".to_vec());
    assert_eq!(frame(1, 2), b"\x1b[0;0H+---+\n|   |\n|   |\n+---+\n".to_vec());
}

#[test]
fn display_of_unrevealed_cell_only_moves() {
    let b = board(&[&[0, 0, 0], &[0, 1, 0], &[0, 0, 0]]);
    assert_eq!(b.display(1, 2), b"\x1b[4;4H".to_vec());
    assert_eq!(b.display(0, 0), b"\x1b[2;2H".to_vec());
}

#[test]
fn display_of_revealed_cells() {
    let mut b = board(&[&[0, 0, 0, 0], &[0, 1, 0, 0], &[0, 0, 0, 0]]);
    b.query(1, 1);
    b.query(0, 0);
    b.query(3, 2);
    assert_eq!(
        b.display(1, 1),
        b"\x1b[3;4H\x1b[38;2;0;255;0m* \x1b[38;2;255;255;255m".to_vec()
    );
    assert_eq!(
        b.display(0, 0),
        b"\x1b[2;2H\x1b[38;2;221;208;122m1 \x1b[38;2;255;255;255m".to_vec()
    );
    assert_eq!(b.display(3, 2), b"\x1b[4;8H_ ".to_vec());
}

#[test]
fn display_of_count_eight() {
    let mut b = board(&[&[1, 1, 1], &[1, 0, 1], &[1, 1, 1]]);
    b.query(1, 1);
    assert_eq!(
        b.display(1, 1),
        b"\x1b[3;4H\x1b[38;2;255;0;0m8 \x1b[38;2;255;255;255m".to_vec()
    );
}

#[test]
fn reset_write_head_parks_below_the_frame() {
    let b = board(&[&[0, 0, 0], &[0, 1, 0], &[0, 0, 0]]);
    assert_eq!(b.reset_write_head(), b"\x1b[5;0H".to_vec());
}

#[test]
fn draw_puts_text_at_the_cell() {
    let b = board(&[&[0, 0, 0], &[0, 1, 0], &[0, 0, 0]]);
    assert_eq!(b.draw(2, 0, &b"ab".to_vec()), b"\x1b[2;6Hab".to_vec());
    assert_eq!(b.draw(0, 1, &Vec::new()), b"\x1b[3;2H".to_vec());
}
