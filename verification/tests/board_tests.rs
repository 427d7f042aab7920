use minesolver::board::{GameBoard, Outcome};
use minesolver::color::Color;
use minesolver::prng::Prng;

fn board(rows: &[&[u8]]) -> GameBoard {
    GameBoard::from_mines(rows.iter().map(|r| r.iter().map(|&m| m != 0).collect()).collect())
        .unwrap()
}

fn xorshift(mut s: u64) -> u64 {
    s ^= s << 13;
    s ^= s >> 7;
    s ^= s << 17;
    s
}

#[test]
fn prng_next_is_xorshift() {
    let mut rng = Prng(1);
    assert_eq!(rng.next(), 1082269761);
    assert_eq!(rng.0, 1082269761);
    let second = rng.next();
    assert_eq!(second, xorshift(1082269761));
    assert_eq!(second, 1152992998833853505);
}

#[test]
fn prng_next_from_session_seed() {
    let mut rng = Prng(23841421);
    let mut s = 23841421u64;
    for _ in 0..100 {
        s = xorshift(s);
        assert_eq!(rng.next(), s);
    }
}

#[test]
fn prng_zero_stays_zero() {
    let mut rng = Prng(0);
    assert_eq!(rng.next(), 0);
}

#[test]
fn from_mines_counts_neighbours() {
    let b = board(&[&[0, 0, 0], &[0, 1, 0], &[0, 0, 0]]);
    assert_eq!(b.width, 3);
    assert_eq!(b.height, 3);
    assert_eq!(b.remaining, 9);
    assert_eq!(b.count.rows, vec![vec![1, 1, 1], vec![1, 0, 1], vec![1, 1, 1]]);
    assert_eq!(b.revealed.rows, vec![vec![false; 3]; 3]);
}

#[test]
fn from_mines_counts_all_eight() {
    let b = board(&[&[1, 1, 1], &[1, 0, 1], &[1, 1, 1]]);
    assert_eq!(b.count.rows[1][1], 8);
    assert_eq!(b.count.rows[0][0], 2);
    assert_eq!(b.count.rows[0][1], 4);
}

#[test]
fn from_mines_refuses_ragged_rows() {
    assert!(GameBoard::from_mines(vec![vec![false, true], vec![false]]).is_none());
}

#[test]
fn new_draws_one_number_per_cell() {
    let b = GameBoard::new(7, 5, Prng(23841421));
    let mut s = 23841421u64;
    for y in 0..5 {
        for x in 0..7 {
            s = xorshift(s);
            assert_eq!(b.mine.rows[y][x], s & 0b11111 <= 6, "cell {x}, {y}");
        }
    }
    assert_eq!(b.remaining, 35);
    for y in 0..5usize {
        for x in 0..7usize {
            let mut n = 0;
            for dy in [-1i64, 0, 1] {
                for dx in [-1i64, 0, 1] {
                    let (nx, ny) = (x as i64 + dx, y as i64 + dy);
                    if (dx, dy) != (0, 0) && nx >= 0 && ny >= 0 && nx < 7 && ny < 5 {
                        n += b.mine.rows[ny as usize][nx as usize] as u8;
                    }
                }
            }
            assert_eq!(b.count.rows[y][x], n);
            assert!(!b.revealed.rows[y][x]);
        }
    }
}

#[test]
fn new_empty_board() {
    let b = GameBoard::new(0, 0, Prng(5));
    assert_eq!(b.remaining, 0);
    assert!(!b.has_start());
    assert!(b.all_cells().is_empty());
}

#[test]
fn query_reveals_once() {
    let mut b = board(&[&[0, 1], &[0, 0]]);
    assert_eq!(b.query(0, 0), Outcome::Safe(1));
    assert_eq!(b.remaining, 3);
    assert!(b.revealed.rows[0][0]);
    assert_eq!(b.query(0, 0), Outcome::Safe(1));
    assert_eq!(b.remaining, 3);
    assert_eq!(b.query(1, 0), Outcome::Mine);
    assert_eq!(b.remaining, 2);
    assert_eq!(b.revealed.rows, vec![vec![true, true], vec![false, false]]);
}

#[test]
fn reveal_matching_assumption() {
    let mut b = board(&[&[0, 1], &[0, 0]]);
    assert!(b.confirms(1, 0, true));
    assert_eq!(b.test(1, 0, true), Outcome::Mine);
    assert!(b.confirms(1, 1, false));
    assert_eq!(b.test(1, 1, false), Outcome::Safe(1));
    assert_eq!(b.remaining, 2);
}

/// A reveal as a caller makes it: the assumption is tested first, and
/// the reveal is made only where the board confirms it.
fn guarded(b: &mut GameBoard, x: usize, y: usize, mine: bool) -> Option<Outcome> {
    if b.confirms(x, y, mine) {
        Some(b.test(x, y, mine))
    } else {
        None
    }
}

#[test]
fn reveal_on_a_wrong_assumption_commits_nothing() {
    let mut b = board(&[&[0, 1], &[0, 0]]);
    assert!(!b.confirms(1, 0, false));
    assert_eq!(guarded(&mut b, 1, 0, false), None);
    assert_eq!(b.remaining, 4);
    assert_eq!(b.revealed.rows, vec![vec![false, false], vec![false, false]]);
    assert!(!b.confirms(0, 1, true));
    assert_eq!(guarded(&mut b, 0, 1, true), None);
    assert_eq!(b.remaining, 4);
    assert_eq!(b.revealed.rows, vec![vec![false, false], vec![false, false]]);
    assert_eq!(guarded(&mut b, 0, 1, false), Some(Outcome::Safe(1)));
    assert_eq!(b.remaining, 3);
}

#[test]
fn reveal_of_the_one_safe_cell_as_a_mine_is_refused() {
    let mut b = board(&[&[0]]);
    assert!(!b.confirms(0, 0, true));
    assert_eq!(guarded(&mut b, 0, 0, true), None);
    assert!(!b.revealed.rows[0][0]);
    assert_eq!(b.remaining, 1);
}

#[test]
fn all_cells_row_by_row() {
    let b = board(&[&[0, 0, 0], &[0, 0, 0]]);
    assert_eq!(b.all_cells(), vec![(0, 0), (1, 0), (2, 0), (0, 1), (1, 1), (2, 1)]);
}

#[test]
fn initial_looks_after_the_first_row_first() {
    let b = board(&[&[0, 0, 0], &[0, 0, 0]]);
    assert!(b.has_start());
    assert_eq!(b.initial(), (0, 1));
    let b = board(&[&[0, 0, 0, 0], &[0, 0, 0, 0], &[0, 0, 0, 1]]);
    assert!(b.has_start());
    assert_eq!(b.initial(), (0, 1));
}

#[test]
fn initial_falls_back_on_the_first_row() {
    let single = board(&[&[0, 0, 0]]);
    assert!(single.has_start());
    assert_eq!(single.initial(), (0, 0));
    // below the first row every cell has a mine next to it or holds one
    let b = board(&[&[0, 0, 0], &[0, 0, 0], &[1, 1, 1]]);
    assert!(b.has_start());
    assert_eq!(b.initial(), (0, 0));
    let b = board(&[&[1, 0, 0], &[0, 0, 0], &[0, 1, 0]]);
    assert!(b.has_start());
    assert_eq!(b.initial(), (2, 0));
}

#[test]
fn initial_is_first_zero_count_safe_cell() {
    let b = board(&[&[0, 0, 0, 0], &[1, 0, 0, 0], &[0, 0, 0, 0], &[0, 0, 0, 0]]);
    assert!(b.has_start());
    assert_eq!(b.initial(), (2, 1));
    let none = board(&[&[0, 0, 0], &[0, 1, 0], &[0, 0, 0]]);
    assert!(!none.has_start());
}

#[test]
fn count_to_color_table() {
    assert_eq!(GameBoard::count_to_color(1), Color(221, 208, 122));
    assert_eq!(GameBoard::count_to_color(2), Color(224, 177, 89));
    assert_eq!(GameBoard::count_to_color(3), Color(226, 161, 70));
    assert_eq!(GameBoard::count_to_color(4), Color(229, 129, 48));
    assert_eq!(GameBoard::count_to_color(5), Color(232, 102, 32));
    assert_eq!(GameBoard::count_to_color(6), Color(234, 69, 18));
    assert_eq!(GameBoard::count_to_color(7), Color(247, 25, 4));
    assert_eq!(GameBoard::count_to_color(8), Color(255, 0, 0));
    assert_eq!(GameBoard::count_to_color(0), Color(255, 255, 255));
    assert_eq!(GameBoard::count_to_color(9), Color(255, 255, 255));
}

#[test]
fn color_write_is_ansi_sequence() {
    let mut buffer = Vec::new();
    Color(221, 208, 122).write(&mut buffer);
    assert_eq!(buffer, b"\x1b[38;2;221;208;122m".to_vec());
    let mut buffer = b"x".to_vec();
    Color(0, 7, 40).write(&mut buffer);
    assert_eq!(buffer, b"x\x1b[38;2;0;7;40m".to_vec());
    let mut buffer = Vec::new();
    Color(255, 100, 99).write(&mut buffer);
    assert_eq!(buffer, b"\x1b[38;2;255;100;99m".to_vec());
}

#[test]
fn color_set_writes_only_on_change() {
    let mut current = Color(255, 255, 255);
    let mut buffer = Vec::new();
    current.set(&mut buffer, Color(255, 255, 255));
    assert!(buffer.is_empty());
    current.set(&mut buffer, Color(0, 255, 0));
    assert_eq!(current, Color(0, 255, 0));
    assert_eq!(buffer, b"\x1b[38;2;0;255;0m".to_vec());
    current.set(&mut buffer, Color(0, 255, 0));
    assert_eq!(buffer, b"\x1b[38;2;0;255;0m".to_vec());
}
