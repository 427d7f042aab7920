use minesolver::board::{GameBoard, Outcome};
use minesolver::borders::{extract_borders, is_frontier};
use minesolver::constraint::Constraint;
use minesolver::driver::{play, solve_border, step};
use minesolver::prng::Prng;
use minesolver::propagation::{make_guess, propagate, settle_cell};
use minesolver::search::check_consistent;
use minesolver::session::{MineState, Session};

fn board(rows: &[&[u8]]) -> GameBoard {
    GameBoard::from_mines(rows.iter().map(|r| r.iter().map(|&m| m != 0).collect()).collect())
        .unwrap()
}

fn sorted(mut cells: Vec<(usize, usize)>) -> Vec<(usize, usize)> {
    cells.sort();
    cells
}

fn snapshot(s: &Session) -> (Vec<Vec<MineState>>, Vec<Vec<Option<Constraint>>>) {
    (s.mines.rows.clone(), s.constraints.rows.clone())
}

fn assert_in_step(b: &GameBoard, s: &Session) {
    for y in 0..b.height {
        for x in 0..b.width {
            let state = s.mines.rows[y][x];
            assert_eq!(state != MineState::Unknown, b.revealed.rows[y][x]);
            match state {
                MineState::KnownMine => assert!(b.mine.rows[y][x]),
                MineState::KnownSafe => assert!(!b.mine.rows[y][x]),
                MineState::Unknown => {}
            }
            match s.constraints.rows[y][x] {
                Some(k) => {
                    assert_eq!(state, MineState::KnownSafe);
                    assert_eq!(k.count as u8, b.count.rows[y][x]);
                    assert!(k.mines <= k.count && k.count <= k.mines + k.unknown);
                    let (m, u) = s.census(x, y);
                    assert_eq!((k.mines, k.unknown), (m, u));
                }
                None => assert_ne!(state, MineState::KnownSafe),
            }
        }
    }
    let unknown = s.mines.rows.iter().flatten().filter(|&&m| m == MineState::Unknown).count();
    assert_eq!(b.remaining, unknown);
}

#[test]
fn session_new_knows_nothing() {
    let s = Session::new(3, 2);
    assert_eq!(s.mines.rows, vec![vec![MineState::Unknown; 3]; 2]);
    assert_eq!(s.constraints.rows, vec![vec![None; 3]; 2]);
    assert_eq!(s.state(2, 1), Some(MineState::Unknown));
    assert_eq!(s.state(3, 1), None);
    assert_eq!(s.constraint(0, 0), None);
    assert_eq!(s.census(1, 1), (0, 5));
    assert_eq!(s.census(0, 0), (0, 3));
}

#[test]
fn make_guess_safe_creates_constraint() {
    let mut b = board(&[&[0, 0, 0], &[0, 1, 0], &[0, 0, 0]]);
    let mut s = Session::new(3, 3);
    assert_eq!(make_guess(&mut b, &mut s, 0, 0, false), Outcome::Safe(1));
    assert_eq!(s.state(0, 0), Some(MineState::KnownSafe));
    assert_eq!(s.constraint(0, 0), Some(Constraint::new(1, 0, 3)));
    assert_eq!(b.remaining, 8);
    assert_in_step(&b, &s);
}

#[test]
fn make_guess_mine_updates_neighbours() {
    let mut b = board(&[&[0, 0, 0], &[0, 1, 0], &[0, 0, 0]]);
    let mut s = Session::new(3, 3);
    make_guess(&mut b, &mut s, 0, 0, false);
    make_guess(&mut b, &mut s, 1, 0, false);
    assert_eq!(s.constraint(0, 0), Some(Constraint::new(1, 0, 2)));
    assert_eq!(s.constraint(1, 0), Some(Constraint::new(1, 0, 4)));
    assert_eq!(make_guess(&mut b, &mut s, 1, 1, true), Outcome::Mine);
    assert_eq!(s.state(1, 1), Some(MineState::KnownMine));
    assert_eq!(s.constraint(1, 1), None);
    assert_eq!(s.constraint(0, 0), Some(Constraint::new(1, 1, 1)));
    assert_eq!(s.constraint(1, 0), Some(Constraint::new(1, 1, 3)));
    assert_in_step(&b, &s);
}

#[test]
fn make_guess_counts_known_neighbours_at_creation() {
    let mut b = board(&[&[1, 0], &[0, 0]]);
    let mut s = Session::new(2, 2);
    make_guess(&mut b, &mut s, 0, 0, true);
    make_guess(&mut b, &mut s, 1, 0, false);
    assert_eq!(make_guess(&mut b, &mut s, 1, 1, false), Outcome::Safe(1));
    assert_eq!(s.constraint(1, 1), Some(Constraint::new(1, 1, 1)));
    assert_in_step(&b, &s);
}

#[test]
fn commit_on_a_wrong_assumption_is_stopped_by_the_test() {
    let mut b = board(&[&[0, 0, 0], &[0, 1, 0], &[0, 0, 0]]);
    let mut s = Session::new(3, 3);
    make_guess(&mut b, &mut s, 0, 0, false);
    let before = snapshot(&s);
    let revealed = b.revealed.rows.clone();
    for (x, y, guess) in [(1, 1, false), (2, 2, true)] {
        if b.confirms(x, y, guess) {
            make_guess(&mut b, &mut s, x, y, guess);
        }
    }
    assert_eq!(snapshot(&s), before);
    assert_eq!(b.revealed.rows, revealed);
    assert_eq!(b.remaining, 8);
}

#[test]
fn check_consistent_past_the_end_is_true() {
    let mut s = Session::new(2, 2);
    assert!(check_consistent(&mut s, 0, &[], true));
    assert!(check_consistent(&mut s, 3, &[(0, 0)], false));
}

#[test]
fn check_consistent_determined_cell_must_agree() {
    let mut b = board(&[&[1, 0], &[0, 0]]);
    let mut s = Session::new(2, 2);
    make_guess(&mut b, &mut s, 0, 0, true);
    make_guess(&mut b, &mut s, 1, 1, false);
    assert!(check_consistent(&mut s, 0, &[(0, 0)], true));
    assert!(!check_consistent(&mut s, 0, &[(0, 0)], false));
    assert!(check_consistent(&mut s, 0, &[(1, 1)], false));
    assert!(!check_consistent(&mut s, 0, &[(1, 1)], true));
}

#[test]
fn check_consistent_leaves_no_trace() {
    let mut b = board(&[&[1, 0, 1], &[0, 0, 0], &[0, 0, 0]]);
    let mut s = Session::new(3, 3);
    for (x, y) in [(0, 2), (1, 2), (2, 2), (0, 1), (1, 1), (2, 1)] {
        make_guess(&mut b, &mut s, x, y, false);
    }
    let before = snapshot(&s);
    let border = [(0, 0), (1, 0), (2, 0)];
    for start in 0..3 {
        let mut rot = border.to_vec();
        rot.rotate_left(start);
        for polarity in [false, true] {
            let _ = check_consistent(&mut s, 0, &rot, polarity);
            assert_eq!(snapshot(&s), before);
            let _ = check_consistent(&mut s, 1, &rot, polarity);
            assert_eq!(snapshot(&s), before);
        }
    }
}

#[test]
fn check_consistent_one_two_one_pattern() {
    let mut b = board(&[&[1, 0, 1], &[0, 0, 0], &[0, 0, 0]]);
    let mut s = Session::new(3, 3);
    for (x, y) in [(0, 2), (1, 2), (2, 2), (0, 1), (1, 1), (2, 1)] {
        make_guess(&mut b, &mut s, x, y, false);
    }
    assert_eq!(s.constraint(0, 1), Some(Constraint::new(1, 0, 2)));
    assert_eq!(s.constraint(1, 1), Some(Constraint::new(2, 0, 3)));
    let border = [(0, 0), (1, 0), (2, 0)];
    assert!(check_consistent(&mut s, 0, &border, true));
    assert!(!check_consistent(&mut s, 0, &border, false));
    let border = [(1, 0), (2, 0), (0, 0)];
    assert!(!check_consistent(&mut s, 0, &border, true));
    assert!(check_consistent(&mut s, 0, &border, false));
    let border = [(2, 0), (0, 0), (1, 0)];
    assert!(check_consistent(&mut s, 0, &border, true));
    assert!(!check_consistent(&mut s, 0, &border, false));
}

#[test]
fn check_consistent_prunes_on_first_violation() {
    let mut b = board(&[&[0, 0], &[0, 0]]);
    let mut s = Session::new(2, 2);
    make_guess(&mut b, &mut s, 0, 0, false);
    assert!(!check_consistent(&mut s, 0, &[(1, 0), (0, 1), (1, 1)], true));
    assert!(check_consistent(&mut s, 0, &[(1, 0), (0, 1), (1, 1)], false));
}

#[test]
fn check_consistent_stops_at_determined_cell() {
    let mut b = board(&[&[0, 1, 0], &[0, 0, 0]]);
    let mut s = Session::new(3, 2);
    make_guess(&mut b, &mut s, 1, 1, false);
    make_guess(&mut b, &mut s, 1, 0, true);
    assert_eq!(s.constraint(1, 1), Some(Constraint::new(1, 1, 4)));
    // the cells after the determined one are not looked at
    assert!(check_consistent(&mut s, 0, &[(0, 0), (1, 0), (2, 0)], false));
    assert!(!check_consistent(&mut s, 0, &[(0, 0), (2, 0)], true));
}

#[test]
fn centre_mine_with_two_opposite_corners() {
    let mut b = board(&[&[0, 0, 0], &[0, 1, 0], &[0, 0, 0]]);
    let mut s = Session::new(3, 3);
    assert_eq!(make_guess(&mut b, &mut s, 0, 0, false), Outcome::Safe(1));
    assert_eq!(make_guess(&mut b, &mut s, 2, 2, false), Outcome::Safe(1));
    let borders = extract_borders(&s);
    assert_eq!(borders.len(), 1);
    assert_eq!(borders[0][0], (1, 0));
    assert_eq!(sorted(borders[0].clone()), vec![(0, 1), (1, 0), (1, 1), (1, 2), (2, 1)]);
    // Each corner needs one mine among three cells. A safe centre leaves
    // room for one mine beside each corner, so nothing is refuted.
    let centre_first = [(1, 1), (2, 1), (1, 2), (1, 0), (0, 1)];
    assert!(check_consistent(&mut s, 0, &centre_first, false));
    assert!(check_consistent(&mut s, 0, &centre_first, true));
    assert_eq!(s.state(1, 1), Some(MineState::Unknown));
}

#[test]
fn centre_mine_forced_once_a_corner_is_boxed_in() {
    let mut b = board(&[&[0, 0, 0], &[0, 1, 0], &[0, 0, 0]]);
    let mut s = Session::new(3, 3);
    make_guess(&mut b, &mut s, 0, 0, false);
    make_guess(&mut b, &mut s, 2, 2, false);
    make_guess(&mut b, &mut s, 1, 0, false);
    make_guess(&mut b, &mut s, 0, 1, false);
    let mut borders = extract_borders(&s);
    assert_eq!(borders.len(), 1);
    let border = borders.pop().unwrap();
    assert!(border.contains(&(1, 1)));
    let mut centre_first = vec![(1, 1)];
    centre_first.extend(border.iter().copied().filter(|&c| c != (1, 1)));
    assert!(!check_consistent(&mut s, 0, &centre_first, false));
    assert!(check_consistent(&mut s, 0, &centre_first, true));
    let (found, searches) = solve_border(&mut b, &mut s, &centre_first);
    assert_eq!(found[0], (1, 1));
    assert!(searches >= 2);
    assert_eq!(s.state(1, 1), Some(MineState::KnownMine));
    assert_in_step(&b, &s);
}

#[test]
fn settle_cell_commits_on_saturated_safe() {
    let mut b = board(&[&[0, 0], &[0, 0]]);
    let mut s = Session::new(2, 2);
    make_guess(&mut b, &mut s, 0, 0, false);
    assert_eq!(settle_cell(&mut b, &mut s, 1, 1), true);
    assert_eq!(s.state(1, 1), Some(MineState::KnownSafe));
    assert_in_step(&b, &s);
}

#[test]
fn settle_cell_commits_on_saturated_mined() {
    let mut b = board(&[&[0, 1], &[0, 0]]);
    let mut s = Session::new(2, 2);
    make_guess(&mut b, &mut s, 0, 0, false);
    make_guess(&mut b, &mut s, 0, 1, false);
    make_guess(&mut b, &mut s, 1, 1, false);
    assert_eq!(s.constraint(0, 0), Some(Constraint::new(1, 0, 1)));
    assert_eq!(settle_cell(&mut b, &mut s, 1, 0), true);
    assert_eq!(s.state(1, 0), Some(MineState::KnownMine));
    assert_in_step(&b, &s);
}

#[test]
fn settle_cell_leaves_undecided_cell_alone() {
    let mut b = board(&[&[0, 1], &[0, 0]]);
    let mut s = Session::new(2, 2);
    make_guess(&mut b, &mut s, 0, 0, false);
    let before = snapshot(&s);
    assert_eq!(settle_cell(&mut b, &mut s, 1, 0), false);
    assert_eq!(settle_cell(&mut b, &mut s, 1, 1), false);
    assert_eq!(snapshot(&s), before);
    assert_eq!(b.remaining, 3);
}

#[test]
fn propagate_sweeps_row_by_row() {
    let mut b = board(&[&[0, 0, 0], &[0, 0, 0], &[0, 0, 1]]);
    let mut s = Session::new(3, 3);
    make_guess(&mut b, &mut s, 0, 0, false);
    let run = propagate(&mut b, &mut s);
    // what a commit reveals decides the cells that the sweep comes to later
    assert_eq!(run, vec![(1, 0), (2, 0), (0, 1), (1, 1), (2, 1), (0, 2), (1, 2), (2, 2)]);
    assert_eq!(s.state(2, 2), Some(MineState::KnownMine));
    assert_eq!(b.remaining, 0);
    assert_in_step(&b, &s);
    let run = propagate(&mut b, &mut s);
    assert!(run.is_empty());
}

#[test]
fn propagate_needs_another_sweep_for_cells_behind_it() {
    let mut b = board(&[&[0, 0, 0], &[0, 0, 0], &[0, 0, 0]]);
    let mut s = Session::new(3, 3);
    make_guess(&mut b, &mut s, 2, 2, false);
    let run = propagate(&mut b, &mut s);
    assert_eq!(run, vec![(1, 1), (2, 1), (0, 2), (1, 2)]);
    assert_in_step(&b, &s);
    let run = propagate(&mut b, &mut s);
    assert_eq!(run, vec![(0, 0), (1, 0), (2, 0), (0, 1)]);
    let run = propagate(&mut b, &mut s);
    assert!(run.is_empty());
    assert_eq!(b.remaining, 0);
    assert_in_step(&b, &s);
}

#[test]
fn propagation_is_confluent() {
    // The same board swept in two different orders ends in the same state.
    let layout: &[&[u8]] = &[&[0, 0, 0, 1], &[0, 0, 0, 0], &[1, 0, 0, 0], &[0, 0, 0, 0]];
    let mut b1 = board(layout);
    let mut s1 = Session::new(4, 4);
    make_guess(&mut b1, &mut s1, 1, 1, false);
    while !propagate(&mut b1, &mut s1).is_empty() {}
    let mut b2 = board(layout);
    let mut s2 = Session::new(4, 4);
    make_guess(&mut b2, &mut s2, 1, 1, false);
    loop {
        let mut progress = false;
        for x in (0..4).rev() {
            for y in (0..4).rev() {
                if s2.state(x, y) == Some(MineState::Unknown)
                    && settle_cell(&mut b2, &mut s2, x, y)
                {
                    progress = true;
                }
            }
        }
        if !progress {
            break;
        }
    }
    assert_eq!(snapshot(&s1), snapshot(&s2));
    assert_eq!(b1.revealed.rows, b2.revealed.rows);
    assert_eq!(b1.remaining, b2.remaining);
}

#[test]
fn frontier_needs_unknown_cell_and_constraint() {
    let mut b = board(&[&[0, 1, 0, 0], &[0, 0, 0, 0]]);
    let mut s = Session::new(4, 2);
    make_guess(&mut b, &mut s, 0, 0, false);
    assert!(!is_frontier(&s, 0, 0));
    assert!(is_frontier(&s, 1, 0));
    assert!(is_frontier(&s, 0, 1));
    assert!(is_frontier(&s, 1, 1));
    assert!(!is_frontier(&s, 2, 0));
    assert!(!is_frontier(&s, 3, 1));
    assert!(!is_frontier(&s, 4, 0));
}

#[test]
fn borders_are_a_partition_sorted_by_size() {
    // two constraints far apart: two borders
    let mut b = board(&[
        &[0, 1, 0, 0, 0, 0, 0],
        &[0, 0, 0, 0, 0, 0, 1],
        &[0, 0, 0, 0, 0, 0, 0],
    ]);
    let mut s = Session::new(7, 3);
    make_guess(&mut b, &mut s, 1, 1, false);
    make_guess(&mut b, &mut s, 6, 2, false);
    let borders = extract_borders(&s);
    assert_eq!(borders.len(), 2);
    assert_eq!(borders[0][0], (5, 1));
    assert_eq!(sorted(borders[0].clone()), vec![(5, 1), (5, 2), (6, 1)]);
    assert_eq!(borders[1].len(), 8);
    assert_eq!(borders[1][0], (0, 0));
    let mut seen = std::collections::HashSet::new();
    for border in &borders {
        for &c in border {
            assert!(is_frontier(&s, c.0, c.1));
            assert!(seen.insert(c));
        }
    }
    for y in 0..3 {
        for x in 0..7 {
            assert_eq!(is_frontier(&s, x, y), seen.contains(&(x, y)));
        }
    }
}

#[test]
fn borders_join_through_shared_constraints() {
    // (0,1) and (2,1) do not touch, but both touch the constraint at (1,0)
    let mut b = board(&[&[0, 0, 0], &[1, 0, 0]]);
    let mut s = Session::new(3, 2);
    make_guess(&mut b, &mut s, 1, 0, false);
    let borders = extract_borders(&s);
    assert_eq!(borders.len(), 1);
    assert_eq!(borders[0][0], (0, 0));
    assert_eq!(sorted(borders[0].clone()), vec![(0, 0), (0, 1), (1, 1), (2, 0), (2, 1)]);
}

#[test]
fn borders_leave_out_cells_without_constraint() {
    let mut b = board(&[&[0], &[1], &[0], &[0], &[0]]);
    let mut s = Session::new(1, 5);
    make_guess(&mut b, &mut s, 0, 3, false);
    make_guess(&mut b, &mut s, 0, 2, false);
    let borders = extract_borders(&s);
    // (0, 0) touches no constraint and is in no border
    assert_eq!(borders, vec![vec![(0, 1)], vec![(0, 4)]]);
    let empty = extract_borders(&Session::new(3, 3));
    assert!(empty.is_empty());
}

#[test]
fn solve_border_rotates_through_every_cell() {
    let mut b = board(&[&[1, 0, 1], &[0, 0, 0], &[0, 0, 0]]);
    let mut s = Session::new(3, 3);
    for (x, y) in [(0, 2), (1, 2), (2, 2), (0, 1), (1, 1), (2, 1)] {
        make_guess(&mut b, &mut s, x, y, false);
    }
    let border = vec![(0, 0), (1, 0), (2, 0)];
    let (found, searches) = solve_border(&mut b, &mut s, &border);
    assert_eq!(found, vec![(0, 0), (1, 0), (2, 0)]);
    // (0,0): mine holds, safe refuted; (1,0): mine refuted; (2,0): as (0,0)
    assert_eq!(searches, 5);
    assert_eq!(s.state(0, 0), Some(MineState::KnownMine));
    assert_eq!(s.state(1, 0), Some(MineState::KnownSafe));
    assert_eq!(s.state(2, 0), Some(MineState::KnownMine));
    assert_eq!(b.remaining, 0);
    assert_in_step(&b, &s);
}

#[test]
fn solve_border_without_verdict_changes_nothing() {
    let mut b = board(&[&[1, 0], &[0, 0], &[0, 0]]);
    let mut s = Session::new(2, 3);
    for (x, y) in [(0, 2), (1, 2), (0, 1), (1, 1)] {
        make_guess(&mut b, &mut s, x, y, false);
    }
    let before = snapshot(&s);
    let border = vec![(0, 0), (1, 0)];
    let (found, searches) = solve_border(&mut b, &mut s, &border);
    assert!(found.is_empty());
    assert_eq!(searches, 4);
    assert_eq!(snapshot(&s), before);
    assert_eq!(b.remaining, 2);
    let (found, searches) = solve_border(&mut b, &mut s, &Vec::new());
    assert!(found.is_empty());
    assert_eq!(searches, 0);
}

#[test]
fn step_prefers_propagation() {
    // a border of one cell whose only constraint is saturated
    let mut b = board(&[&[0], &[0]]);
    let mut s = Session::new(1, 2);
    make_guess(&mut b, &mut s, 0, 1, false);
    assert_eq!(extract_borders(&s), vec![vec![(0, 0)]]);
    let p = step(&mut b, &mut s);
    assert_eq!(p.resolved, vec![(0, 0)]);
    assert_eq!(p.searches, 0);
    assert!(p.borders.is_empty());
    assert_eq!(s.state(0, 0), Some(MineState::KnownSafe));
    let p = step(&mut b, &mut s);
    assert!(p.resolved.is_empty());
    assert_eq!(p.searches, 0);
    assert!(p.borders.is_empty());
}

#[test]
fn step_searches_when_propagation_stalls() {
    let mut b = board(&[&[1, 0, 1], &[0, 0, 0], &[0, 0, 0]]);
    let mut s = Session::new(3, 3);
    for (x, y) in [(0, 2), (1, 2), (2, 2), (0, 1), (1, 1), (2, 1)] {
        make_guess(&mut b, &mut s, x, y, false);
    }
    let p = step(&mut b, &mut s);
    assert_eq!(p.borders, vec![vec![(0, 0), (2, 0), (1, 0)]]);
    assert_eq!(p.resolved, vec![(0, 0), (2, 0), (1, 0)]);
    // both corners: a mine holds and a safe cell is refuted; the middle
    // cell: a mine is refuted at once
    assert_eq!(p.searches, 5);
    assert_in_step(&b, &s);
}

#[test]
fn play_three_clear_cells_without_search() {
    let b = board(&[&[0], &[0], &[0]]);
    let report = play(b);
    assert_eq!(report.resolved, vec![(0, 1), (0, 0), (0, 2)]);
    assert_eq!(report.searches, 0);
    assert_eq!(report.board.remaining, 0);
    assert_eq!(report.session.mines.rows, vec![vec![MineState::KnownSafe]; 3]);
    assert_eq!(
        report.session.constraints.rows,
        vec![vec![Some(Constraint::new(0, 0, 0))]; 3]
    );
    assert!(report.borders.is_empty());
    assert_in_step(&report.board, &report.session);
}

#[test]
fn play_one_row_of_clear_cells_without_search() {
    let b = board(&[&[0, 0, 0]]);
    let report = play(b);
    assert_eq!(report.resolved, vec![(0, 0), (1, 0), (2, 0)]);
    assert_eq!(report.searches, 0);
    assert_eq!(report.board.remaining, 0);
    assert_eq!(report.session.mines.rows, vec![vec![MineState::KnownSafe; 3]]);
    assert_eq!(report.board.revealed.rows, vec![vec![true; 3]]);
    assert!(report.borders.is_empty());
    assert_in_step(&report.board, &report.session);
}

#[test]
fn play_starts_in_the_first_row_where_it_must() {
    let b = board(&[&[1, 0, 0], &[0, 0, 0], &[0, 1, 0]]);
    let report = play(b);
    assert_eq!(report.resolved[0], (2, 0));
    assert_eq!(report.session.state(2, 0), Some(MineState::KnownSafe));
    assert_in_step(&report.board, &report.session);
}

#[test]
fn play_settles_a_border_of_one_cell_by_propagation() {
    let b = board(&[&[0], &[0]]);
    let report = play(b);
    assert_eq!(report.resolved, vec![(0, 1), (0, 0)]);
    assert_eq!(report.searches, 0);
    assert_eq!(report.board.remaining, 0);
}

#[test]
fn play_needs_a_cell_to_start_from() {
    let b = board(&[&[0, 0, 0], &[0, 1, 0], &[0, 0, 0]]);
    assert!(!b.has_start());
    let b = board(&[&[1]]);
    assert!(!b.has_start());
    let b = board(&[&[0]]);
    assert!(b.has_start());
    let report = play(b);
    assert_eq!(report.resolved, vec![(0, 0)]);
    assert_eq!(report.board.remaining, 0);
}

#[test]
fn play_solves_one_two_one_by_search() {
    let b = board(&[&[1, 0, 1], &[0, 0, 0], &[0, 0, 0]]);
    let report = play(b);
    assert_eq!(report.board.remaining, 0);
    assert_eq!(report.resolved.len(), 9);
    assert_eq!(report.resolved[0], (0, 2));
    assert!(report.searches > 0);
    assert_eq!(
        report.session.mines.rows[0],
        vec![MineState::KnownMine, MineState::KnownSafe, MineState::KnownMine]
    );
    assert!(report.borders.is_empty());
    assert_in_step(&report.board, &report.session);
}

#[test]
fn play_leaves_a_coin_flip_undetermined() {
    let b = board(&[&[1, 0], &[0, 0], &[0, 0]]);
    let report = play(b);
    assert_eq!(report.board.remaining, 2);
    assert_eq!(report.resolved, vec![(0, 2), (0, 1), (1, 1), (1, 2)]);
    assert_eq!(report.borders, vec![vec![(0, 0), (1, 0)]]);
    assert_eq!(report.searches, 4);
    assert_eq!(report.session.state(0, 0), Some(MineState::Unknown));
    assert_eq!(report.session.state(1, 0), Some(MineState::Unknown));
    assert_in_step(&report.board, &report.session);
}

#[test]
fn play_leaves_cells_behind_a_mine_alone() {
    let b = board(&[&[0], &[1], &[0], &[0], &[0]]);
    let report = play(b);
    assert_eq!(report.resolved, vec![(0, 3), (0, 2), (0, 4), (0, 1)]);
    assert_eq!(report.session.state(0, 1), Some(MineState::KnownMine));
    assert_eq!(report.session.state(0, 0), Some(MineState::Unknown));
    assert_eq!(report.board.remaining, 1);
    assert!(report.borders.is_empty());
    assert_eq!(report.searches, 0);
}

#[test]
fn play_random_boards_stay_sound() {
    for seed in 1..40u64 {
        let b = GameBoard::new(9, 7, Prng(seed * 7919));
        let mines = b.mine.rows.clone();
        let total = b.remaining;
        if !b.has_start() {
            continue;
        }
        let report = play(b);
        assert_in_step(&report.board, &report.session);
        assert_eq!(report.board.mine.rows, mines);
        assert_eq!(report.board.remaining + report.resolved.len(), total);
        let mut seen = std::collections::HashSet::new();
        for c in &report.resolved {
            assert!(seen.insert(*c));
        }
        // at rest: another round finds nothing
        let mut board = report.board;
        let mut session = report.session;
        let p = step(&mut board, &mut session);
        assert!(p.resolved.is_empty());
        assert_eq!(p.borders, report.borders);
    }
}
