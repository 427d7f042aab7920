//! Committing a proven cell, and the propagation sweep that commits every
//! cell decided by a saturated constraint next to it.

use vstd::prelude::*;
use crate::board::{GameBoard, Outcome};
use crate::constraint::Constraint;
use crate::grid::{candidate, cell, lemma_dir_of, lemma_tally_range, nbr, surrounding};
use crate::session::{Knowledge, MineState, Session};
use crate::truth::{in_step, lemma_saturated_decides};

verus! {

/// Commits what was proved of the undetermined cell at `(x, y)`: reveals
/// it on the board on the assumption `expected_mine`, records its state,
/// gives a safe cell its constraint and brings the constraints around it
/// in step. The assumption is the caller's to make sure of: the board
/// holds at the cell what is assumed.
pub fn make_guess(
    board: &mut GameBoard,
    session: &mut Session,
    x: usize,
    y: usize,
    expected_mine: bool,
) -> (outcome: Outcome)
    requires
        old(board).wf(),
        old(session).wf(),
        old(session)@.width == old(board).width,
        old(session)@.height == old(board).height,
        old(session)@.has(cell((x, y))),
        old(session)@.states[cell((x, y))] == MineState::Unknown,
        old(board).mine.at(cell((x, y))) == expected_mine,
    ensures
        final(board).wf(),
        final(session).wf(),
        outcome == old(board).truth(cell((x, y))),
        final(board).reveals(old(board), cell((x, y))),
        final(session)@ == old(session)@.commit(cell((x, y)), outcome),
        in_step(old(session)@, old(board)) ==> in_step(final(session)@, final(board)),
{
    let ghost c = cell((x, y));
    let outcome = board.test(x, y, expected_mine);
    assert(!old(session)@.counts.contains_key(c));
    let _ = session.mark(x, y, expected_mine);
    match outcome {
        Outcome::Safe(count) => {
            let ghost mid = *session;
            proof {
                lemma_tally_range(crate::board::marked(old(board).mine), c, 8);
                assert(old(board).count.at(c) == old(board).mines_around(c));
            }
            let (mine_count, unknown) = session.census(x, y);
            session.constraints.set(x, y, Some(Constraint::new(count as i8, mine_count, unknown)));
            proof {
                let target = old(session)@.commit(c, outcome);
                assert(session@.states =~= mid@.states);
                assert(session@.states =~= target.states);
                assert(session@.counts =~= target.counts);
                assert(session@ == target);
                assert forall|d: (int, int)| session.mines.has(d) implies #[trigger] session.booked(
                    d,
                ) by {
                    assert(mid.booked(d));
                }
            }
        },
        Outcome::Mine => {},
    }
    proof {
        if in_step(old(session)@, old(board)) {
            crate::truth::lemma_count_range(old(board));
            lemma_commit_in_step(old(session)@, old(board), board, c);
        }
    }
    outcome
}

/// The constraint at `n` is saturated: its undetermined neighbours are all
/// safe, or all mines.
pub open spec fn saturated(k: Knowledge, n: (int, int)) -> bool {
    let m = k.around(n, MineState::KnownMine);
    k.counts[n] == m || k.counts[n] == m + k.around(n, MineState::Unknown)
}

/// `c` is an undetermined cell next to a saturated constraint, which
/// decides it.
pub open spec fn forced(k: Knowledge, c: (int, int)) -> bool {
    &&& k.has(c)
    &&& k.states[c] == MineState::Unknown
    &&& exists|i: int|
        0 <= i < 8 && k.counts.contains_key(#[trigger] nbr(c, i)) && saturated(k, nbr(c, i))
}

/// No cell is decided by a saturated constraint: propagation has nothing
/// left to do.
pub open spec fn closed(k: Knowledge) -> bool {
    forall|c: (int, int)| !#[trigger] forced(k, c)
}

/// The knowledge after the cells of `run` were revealed on board `b`, one
/// after the other.
pub open spec fn after(k: Knowledge, b: &GameBoard, run: Seq<(usize, usize)>) -> Knowledge
    decreases run.len(),
{
    if run.len() == 0 {
        k
    } else {
        let c = cell(run.last());
        after(k, b, run.drop_last()).commit(c, b.truth(c))
    }
}

/// Each cell of `run` was decided by a saturated constraint at the moment
/// it was revealed.
pub open spec fn is_run(k: Knowledge, b: &GameBoard, run: Seq<(usize, usize)>) -> bool
    decreases run.len(),
{
    run.len() == 0 || (is_run(k, b, run.drop_last()) && forced(
        after(k, b, run.drop_last()),
        cell(run.last()),
    ))
}

/// The cells committed by a sweep that has visited the rows above `y` and
/// the first `x` cells of row `y`, in order: a cell is committed when, with
/// the earlier commits known, it is decided by a saturated constraint.
pub open spec fn swept(k: Knowledge, b: &GameBoard, y: int, x: int) -> Seq<(usize, usize)>
    decreases y, x,
{
    if x > 0 {
        let log = swept(k, b, y, x - 1);
        if forced(after(k, b, log), (x - 1, y)) {
            log.push(((x - 1) as usize, y as usize))
        } else {
            log
        }
    } else if y > 0 {
        swept(k, b, y - 1, k.width)
    } else {
        Seq::empty()
    }
}

/// Revealing an undetermined cell keeps the solver in step with its
/// board.
pub proof fn lemma_commit_in_step(
    k: Knowledge,
    b: &GameBoard,
    b2: &GameBoard,
    c: (int, int),
)
    requires
        k.wf(),
        in_step(k, b),
        k.has(c),
        k.states[c] == MineState::Unknown,
        b2.reveals(b, c),
        b.shaped(),
        forall|d: (int, int)| b.has(d) ==> b.count.at(d) <= 8,
    ensures
        k.commit(c, b.truth(c)).wf(),
        in_step(k.commit(c, b.truth(c)), b2),
{
    let k2 = k.commit(c, b.truth(c));
    assert forall|d: (int, int)| k2.has(d) <==> #[trigger] k2.states.contains_key(d) by {
        assert(k.has(d) <==> k.states.contains_key(d));
    }
    assert(b.has(c));
    assert(b.count.at(c) <= 8);
    assert forall|d: (int, int)| #[trigger] k2.counts.contains_key(d) implies k2.has(d)
        && k2.states[d] == MineState::KnownSafe && 0 <= k2.counts[d] <= 8 by {
        if d != c {
            assert(k.counts.contains_key(d));
        }
    }
    assert forall|d: (int, int)|
        k2.has(d) implies (#[trigger] k2.states[d] != MineState::Unknown) == b2.revealed.at(d) by {
        if d != c {
            assert((k.states[d] != MineState::Unknown) == b.revealed.at(d));
        }
    }
}

/// Looks at the constraints around the undetermined cell at `(x, y)`, in
/// direction order, and commits the cell on the evidence of the first
/// saturated one. Says whether the cell was committed.
pub fn settle_cell(board: &mut GameBoard, session: &mut Session, x: usize, y: usize) -> (done: bool)
    requires
        old(board).wf(),
        old(session).wf(),
        in_step(old(session)@, old(board)),
        old(session)@.has(cell((x, y))),
        old(session)@.states[cell((x, y))] == MineState::Unknown,
    ensures
        final(board).wf(),
        final(session).wf(),
        in_step(final(session)@, final(board)),
        done == forced(old(session)@, cell((x, y))),
        done ==> final(board).reveals(old(board), cell((x, y))),
        done ==> final(session)@ == old(session)@.commit(
            cell((x, y)),
            old(board).truth(cell((x, y))),
        ),
        !done ==> *final(board) == *old(board) && *final(session) == *old(session),
{
    let ghost c = cell((x, y));
    let ghost k = session@;
    let around = surrounding(x, y);
    let mut i: usize = 0;
    while i < 8
        invariant
            0 <= i <= 8,
            c == cell((x, y)),
            k == session@,
            *board == *old(board),
            *session == *old(session),
            board.wf(),
            session.wf(),
            in_step(k, board),
            k.has(c),
            k.states[c] == MineState::Unknown,
            forall|j: int| 0 <= j < 8 ==> around[j] == candidate(x, y, j),
            forall|j: int|
                0 <= j < i && k.counts.contains_key(#[trigger] nbr(c, j)) ==> !saturated(
                    k,
                    nbr(c, j),
                ),
        decreases 8 - i,
    {
        let (nx, ny) = around[i];
        let ghost n = nbr(c, i as int);
        match session.constraint(nx, ny) {
            Some(constraint) => {
                assert(cell((nx, ny)) == n);
                assert(session.booked(n));
                assert(k.counts.contains_key(n));
                let safe = constraint.remaining_safe();
                let mined = constraint.remaining_mines();
                if safe || mined {
                    proof {
                        lemma_dir_of(n, c);
                        lemma_dir_of(c, n);
                        lemma_saturated_decides(k, board, n, c);
                        assert(saturated(k, n));
                        assert(forced(k, c));
                    }
                    let _ = make_guess(board, session, x, y, !safe);
                    return true;
                }
            },
            None => {
                assert(!k.counts.contains_key(n));
            },
        }
        i += 1;
    }
    false
}

/// One propagation sweep: visits every cell row by row and commits each
/// undetermined cell that a saturated constraint next to it decides at
/// that moment. Returns the cells committed, in order. What a saturated
/// constraint decides is what the board holds, so every commit is made
/// on a true assumption.
pub fn propagate(board: &mut GameBoard, session: &mut Session) -> (run: Vec<(usize, usize)>)
    requires
        old(board).wf(),
        old(session).wf(),
        in_step(old(session)@, old(board)),
    ensures
        final(board).wf(),
        final(session).wf(),
        in_step(final(session)@, final(board)),
        final(board).mine == old(board).mine,
        final(board).count == old(board).count,
        final(board).width == old(board).width,
        final(board).height == old(board).height,
        run@ == swept(old(session)@, old(board), old(board).height as int, 0),
        is_run(old(session)@, old(board), run@),
        final(session)@ == after(old(session)@, old(board), run@),
        final(board).remaining + run@.len() == old(board).remaining,
        run@.len() == 0 ==> closed(final(session)@),
{
    let ghost b0 = *board;
    let ghost k0 = session@;
    let width = board.width;
    let height = board.height;
    let mut run: Vec<(usize, usize)> = Vec::new();
    let mut y: usize = 0;
    while y < height
        invariant
            0 <= y <= height,
            width == b0.width,
            height == b0.height,
            b0 == *old(board),
            k0 == old(session)@,
            k0.width == width,
            board.wf(),
            session.wf(),
            in_step(session@, board),
            board.mine == b0.mine,
            board.count == b0.count,
            board.width == b0.width,
            board.height == b0.height,
            is_run(k0, &b0, run@),
            run@ == swept(k0, &b0, y as int, 0),
            session@ == after(k0, &b0, run@),
            board.remaining + run@.len() == b0.remaining,
            run@.len() == 0 ==> forall|c: (int, int)| c.1 < y ==> !#[trigger] forced(session@, c),
        decreases height - y,
    {
        let mut x: usize = 0;
        while x < width
            invariant
                0 <= y < height,
                0 <= x <= width,
                width == b0.width,
                height == b0.height,
                b0 == *old(board),
                k0 == old(session)@,
                k0.width == width,
                board.wf(),
                session.wf(),
                in_step(session@, board),
                board.mine == b0.mine,
                board.count == b0.count,
                board.width == b0.width,
                board.height == b0.height,
                is_run(k0, &b0, run@),
                run@ == swept(k0, &b0, y as int, x as int),
                session@ == after(k0, &b0, run@),
                board.remaining + run@.len() == b0.remaining,
                run@.len() == 0 ==> forall|c: (int, int)|
                    c.1 < y || (c.1 == y && c.0 < x) ==> !#[trigger] forced(session@, c),
            decreases width - x,
        {
            let ghost c = cell((x, y));
            let ghost k = session@;
            let ghost b = *board;
            assert(k.states.contains_key(c));
            if let MineState::Unknown = *session.mines.index_2d(x, y) {
                if settle_cell(board, session, x, y) {
                    let ghost before = run@;
                    run.push((x, y));
                    proof {
                        assert(run@.drop_last() =~= before);
                        assert(b.truth(c) == b0.truth(c));
                    }
                }
            }
            x += 1;
        }
        proof {
            assert(swept(k0, &b0, y + 1, 0) == swept(k0, &b0, y as int, k0.width));
        }
        y += 1;
    }
    run
}

} // verus!
