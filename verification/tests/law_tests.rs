use minesolver::board::GameBoard;
use minesolver::borders::extract_borders;
use minesolver::driver::play;
use minesolver::prng::Prng;
use minesolver::propagation::make_guess;
use minesolver::search::check_consistent;
use minesolver::session::{MineState, Session};

fn neighbours(x: usize, y: usize, w: usize, h: usize) -> Vec<(usize, usize)> {
    let mut r = Vec::new();
    for dy in [-1i64, 0, 1] {
        for dx in [-1i64, 0, 1] {
            let (nx, ny) = (x as i64 + dx, y as i64 + dy);
            if (dx, dy) != (0, 0) && nx >= 0 && ny >= 0 && (nx as usize) < w && (ny as usize) < h {
                r.push((nx as usize, ny as usize));
            }
        }
    }
    r
}

/// Whether the border can be filled in, its first cell as given, so that
/// every constraint next to one of its cells can be met.
fn can_be_filled(s: &Session, border: &[(usize, usize)], first: bool) -> bool {
    let (w, h) = (s.mines.width, s.mines.height);
    let n = border.len();
    'fill: for bits in 0..(1u32 << n) {
        if (bits & 1 == 1) != first {
            continue;
        }
        let chosen = |c: (usize, usize)| {
            border.iter().position(|&b| b == c).map(|p| bits >> p & 1 == 1)
        };
        for &(bx, by) in border {
            for (cx, cy) in neighbours(bx, by, w, h) {
                if let Some(k) = s.constraints.rows[cy][cx] {
                    let mut mines = 0;
                    let mut unknown = 0;
                    for (ex, ey) in neighbours(cx, cy, w, h) {
                        match (s.mines.rows[ey][ex], chosen((ex, ey))) {
                            (MineState::KnownMine, _) => mines += 1,
                            (MineState::Unknown, Some(true)) => mines += 1,
                            (MineState::Unknown, None) => unknown += 1,
                            _ => {}
                        }
                    }
                    if !(mines <= k.count && k.count <= mines + unknown) {
                        continue 'fill;
                    }
                }
            }
        }
        return true;
    }
    false
}

/// Reveals the truth of a few cells chosen by the generator.
fn partly_revealed(seed: u64, w: usize, h: usize) -> (GameBoard, Session) {
    let mut b = GameBoard::new(w, h, Prng(seed));
    let mut s = Session::new(w, h);
    let mut rng = Prng(seed ^ 0x9e3779b97f4a7c15);
    for _ in 0..(w * h / 3) {
        let x = (rng.next() % w as u64) as usize;
        let y = (rng.next() % h as u64) as usize;
        if s.state(x, y) == Some(MineState::Unknown) {
            let mine = b.mine.rows[y][x];
            make_guess(&mut b, &mut s, x, y, mine);
        }
    }
    (b, s)
}

#[test]
fn search_agrees_with_trying_every_filling() {
    let mut compared = 0;
    for seed in 1..60u64 {
        let (_, mut s) = partly_revealed(seed * 104729, 6, 5);
        for border in extract_borders(&s) {
            if border.len() > 12 {
                continue;
            }
            for turn in 0..border.len() {
                let mut rot = border.clone();
                rot.rotate_left(turn);
                for first in [false, true] {
                    let found = check_consistent(&mut s, 0, &rot, first);
                    assert_eq!(found, can_be_filled(&s, &rot, first), "seed {seed}");
                    compared += 1;
                }
            }
        }
    }
    assert!(compared > 200);
}

#[test]
fn search_does_not_depend_on_the_order_of_the_rest() {
    for seed in 1..40u64 {
        let (_, mut s) = partly_revealed(seed * 7907, 6, 5);
        for border in extract_borders(&s) {
            if border.len() < 3 || border.len() > 12 {
                continue;
            }
            let mut other = border.clone();
            other[1..].reverse();
            for first in [false, true] {
                assert_eq!(
                    check_consistent(&mut s, 0, &border, first),
                    check_consistent(&mut s, 0, &other, first)
                );
            }
        }
    }
}

/// Deduces by another route: cells are tried from the last to the first,
/// each with its own border turned to begin with it, one reveal at a time.
fn solve_backwards(mut b: GameBoard, start: (usize, usize)) -> (GameBoard, Session) {
    let mut s = Session::new(b.width, b.height);
    make_guess(&mut b, &mut s, start.0, start.1, false);
    'round: loop {
        let borders = extract_borders(&s);
        for border in borders.iter().rev() {
            for turn in (0..border.len()).rev() {
                let mut rot = border.clone();
                rot.rotate_left(turn);
                let (x, y) = rot[0];
                if !check_consistent(&mut s, 0, &rot, false) {
                    make_guess(&mut b, &mut s, x, y, true);
                    continue 'round;
                }
                if !check_consistent(&mut s, 0, &rot, true) {
                    make_guess(&mut b, &mut s, x, y, false);
                    continue 'round;
                }
            }
        }
        return (b, s);
    }
}

#[test]
fn deduction_comes_to_rest_at_one_place() {
    let mut played = 0;
    for seed in 1..120u64 {
        let board = GameBoard::new(7, 6, Prng(seed * 15485863));
        let twin = GameBoard::new(7, 6, Prng(seed * 15485863));
        if extract_borders(&Session::new(7, 6)).len() != 0 {
            panic!("a blank session has no frontier");
        }
        if !board.has_start() {
            continue;
        }
        let start = board.initial();
        let report = play(board);
        let (b2, s2) = solve_backwards(twin, start);
        assert_eq!(report.session.mines.rows, s2.mines.rows, "seed {seed}");
        assert_eq!(report.session.constraints.rows, s2.constraints.rows);
        assert_eq!(report.board.revealed.rows, b2.revealed.rows);
        assert_eq!(report.board.remaining, b2.remaining);
        played += 1;
    }
    assert!(played > 20);
}

#[test]
fn borders_begin_with_their_first_cell() {
    for seed in 1..40u64 {
        let (_, s) = partly_revealed(seed * 6151, 7, 6);
        let borders = extract_borders(&s);
        for (i, border) in borders.iter().enumerate() {
            let key = |c: &(usize, usize)| (c.1, c.0);
            assert!(border.iter().all(|c| key(&border[0]) <= key(c)));
            if i > 0 {
                let before = &borders[i - 1];
                assert!(before.len() <= border.len());
                if before.len() == border.len() {
                    assert!(key(&before[0]) < key(&border[0]));
                }
            }
        }
    }
}
