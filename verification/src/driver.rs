//! The driver: proves cells border by border with the consistency search,
//! and runs sweeps and border passes until neither finds anything.

use vstd::prelude::*;
use crate::board::{start_before, GameBoard};
use crate::borders::{
    are_borders, extract_borders, frontier, in_border, is_partition, undetermined,
};
use crate::grid::cell;
use crate::laws::{
    justified, lemma_after_concat, lemma_after_shape, lemma_deduced_empty,
    lemma_deduced_is_justified, lemma_justified_concat, lemma_run_is_justified, lemma_run_split,
    lemma_run_starts_open,
};
use crate::propagation::{after, closed, is_run, make_guess, propagate, swept};
use crate::search::{check_consistent, consistent};
use crate::session::{Knowledge, MineState, Session};
use crate::truth::{in_step, lemma_blank_in_step, lemma_truth_is_consistent};

verus! {

/// The border turned so that the cell at position `r` comes first.
pub open spec fn rotate(border: Seq<(usize, usize)>, r: int) -> Seq<(usize, usize)> {
    border.subrange(r, border.len() as int) + border.subrange(0, r)
}

/// Where the cell at position `j` of the turned border was before.
pub open spec fn turned_from(len: int, r: int, j: int) -> int {
    if j < len - r {
        r + j
    } else {
        j - (len - r)
    }
}

/// A turned border lists the same cells, as often, beginning with the one
/// at position `r`.
pub proof fn lemma_rotate(border: Seq<(usize, usize)>, r: int)
    requires
        0 <= r < border.len(),
    ensures
        rotate(border, r).len() == border.len(),
        rotate(border, r)[0] == border[r],
        forall|j: int|
            0 <= j < border.len() ==> #[trigger] rotate(border, r)[j] == border[turned_from(
                border.len() as int,
                r,
                j,
            )],
        forall|c: (int, int)| in_border(rotate(border, r), c) <==> in_border(border, c),
        (forall|i: int, j: int|
            0 <= i < j < border.len() ==> #[trigger] border[i] != #[trigger] border[j])
            ==> forall|i: int, j: int|
            0 <= i < j < border.len() ==> #[trigger] rotate(border, r)[i] != #[trigger] rotate(
                border,
                r,
            )[j],
{
    let rot = rotate(border, r);
    let n = border.len() as int;
    assert forall|c: (int, int)| in_border(rot, c) implies in_border(border, c) by {
        let j = choose|j: int| 0 <= j < rot.len() && cell(#[trigger] rot[j]) == c;
        assert(cell(border[turned_from(n, r, j)]) == c);
    }
    assert forall|c: (int, int)| in_border(border, c) implies in_border(rot, c) by {
        let o = choose|o: int| 0 <= o < border.len() && cell(#[trigger] border[o]) == c;
        let j = if o >= r { o - r } else { o + (n - r) };
        assert(cell(rot[j]) == c);
    }
    if forall|i: int, j: int|
        0 <= i < j < border.len() ==> #[trigger] border[i] != #[trigger] border[j] {
        assert forall|i: int, j: int| 0 <= i < j < border.len() implies #[trigger] rot[i]
            != #[trigger] rot[j] by {
            let oi = turned_from(n, r, i);
            let oj = turned_from(n, r, j);
            if oi < oj {
                assert(border[oi] != border[oj]);
            } else {
                assert(border[oj] != border[oi]);
            }
        }
    }
}

/// What the search proves of the first cell of `border`: `Some(false)`
/// where a mine there is refuted, so the cell is safe; `Some(true)` where
/// a mine is possible and a safe cell is refuted; `None` where the cell is
/// already determined or neither supposition is refuted.
pub open spec fn verdict(k: Knowledge, border: Seq<(usize, usize)>) -> Option<bool> {
    if border.len() == 0 || !undetermined(k, cell(border[0])) {
        None
    } else if !consistent(k, border, 0, true) {
        Some(false)
    } else if !consistent(k, border, 0, false) {
        Some(true)
    } else {
        None
    }
}

/// How many searches it takes to reach the verdict on the first cell of
/// `border`.
pub open spec fn searches_for(k: Knowledge, border: Seq<(usize, usize)>) -> int {
    if border.len() == 0 || !undetermined(k, cell(border[0])) {
        0
    } else if !consistent(k, border, 0, true) {
        1
    } else {
        2
    }
}

/// The cells proved and revealed in the first `r` turns of a pass over
/// `border`, in order. Each turn asks for the verdict on the cell that
/// comes first, with what the earlier turns revealed already known.
pub open spec fn deduced(k: Knowledge, b: &GameBoard, border: Seq<(usize, usize)>, r: int) -> Seq<
    (usize, usize),
>
    decreases r,
{
    if r <= 0 {
        Seq::empty()
    } else {
        let log = deduced(k, b, border, r - 1);
        let rot = rotate(border, r - 1);
        if verdict(after(k, b, log), rot) is Some {
            log.push(rot[0])
        } else {
            log
        }
    }
}

/// The number of searches made in the first `r` turns of a pass over
/// `border`.
pub open spec fn searched(k: Knowledge, b: &GameBoard, border: Seq<(usize, usize)>, r: int) -> int
    decreases r,
{
    if r <= 0 {
        0
    } else {
        searched(k, b, border, r - 1) + searches_for(
            after(k, b, deduced(k, b, border, r - 1)),
            rotate(border, r - 1),
        )
    }
}

/// A count kept in a `usize`, which stops at the largest value.
pub open spec fn capped(n: int) -> int {
    if n > usize::MAX {
        usize::MAX as int
    } else {
        n
    }
}

/// Adds to a count of searches without passing the largest value.
fn count_up(count: usize, Ghost(total): Ghost<int>, more: usize, Ghost(step): Ghost<int>) -> (r:
    usize)
    requires
        count == capped(total),
        more == capped(step),
        0 <= total,
        0 <= step,
    ensures
        r == capped(total + step),
{
    if count > usize::MAX - more {
        usize::MAX
    } else {
        count + more
    }
}

/// A copy of a list of cells.
fn copy_cells(cells: &Vec<(usize, usize)>) -> (r: Vec<(usize, usize)>)
    ensures
        r@ == cells@,
{
    let mut r: Vec<(usize, usize)> = Vec::new();
    let mut i: usize = 0;
    while i < cells.len()
        invariant
            0 <= i <= cells@.len(),
            r@ == cells@.subrange(0, i as int),
        decreases cells@.len() - i,
    {
        r.push(cells[i]);
        proof {
            assert(r@ =~= cells@.subrange(0, i + 1));
        }
        i += 1;
    }
    proof {
        assert(r@ =~= cells@);
    }
    r
}

/// The searches of a pass are counted from zero up.
pub proof fn lemma_searched_range(k: Knowledge, b: &GameBoard, border: Seq<(usize, usize)>, r: int)
    ensures
        0 <= searched(k, b, border, r),
    decreases r,
{
    if r > 0 {
        lemma_searched_range(k, b, border, r - 1);
    }
}

/// One pass over a border: as many turns as the border has cells. Each
/// turn takes the cell that comes first; if it is undetermined and the
/// search refutes one supposition about it, the cell is revealed with the
/// other. The border is then turned by one cell, on a copy: the caller's
/// list stays as it is. Returns the cells revealed, in order, and the
/// number of searches made, which stops at the largest `usize`.
pub fn solve_border(
    board: &mut GameBoard,
    session: &mut Session,
    border: &Vec<(usize, usize)>,
) -> (r: (Vec<(usize, usize)>, usize))
    requires
        old(board).wf(),
        old(session).wf(),
        in_step(old(session)@, old(board)),
        forall|j: int| 0 <= j < border@.len() ==> old(session)@.has(cell(#[trigger] border@[j])),
    ensures
        final(board).wf(),
        final(session).wf(),
        in_step(final(session)@, final(board)),
        final(board).mine == old(board).mine,
        final(board).count == old(board).count,
        final(board).width == old(board).width,
        final(board).height == old(board).height,
        r.0@ == deduced(old(session)@, old(board), border@, border@.len() as int),
        r.1 == capped(searched(old(session)@, old(board), border@, border@.len() as int)),
        final(session)@ == after(old(session)@, old(board), r.0@),
        final(board).remaining + r.0@.len() == old(board).remaining,
{
    let ghost b0 = *board;
    let ghost k0 = session@;
    let ghost ring = border@;
    let n = border.len();
    let mut border = copy_cells(border);
    let mut log: Vec<(usize, usize)> = Vec::new();
    let mut searches: usize = 0;
    let mut r: usize = 0;
    proof {
        assert(rotate(ring, 0) =~= ring);
    }
    while r < n
        invariant
            0 <= r <= n,
            n == ring.len(),
            b0 == *old(board),
            k0 == old(session)@,
            border@ == rotate(ring, r as int),
            board.wf(),
            session.wf(),
            in_step(session@, board),
            board.mine == b0.mine,
            board.count == b0.count,
            board.width == b0.width,
            board.height == b0.height,
            forall|j: int| 0 <= j < ring.len() ==> session@.has(cell(#[trigger] ring[j])),
            log@ == deduced(k0, &b0, ring, r as int),
            searches == capped(searched(k0, &b0, ring, r as int)),
            0 <= searched(k0, &b0, ring, r as int),
            session@ == after(k0, &b0, log@),
            board.remaining + log@.len() == b0.remaining,
        decreases n - r,
    {
        let ghost k = session@;
        let ghost rot = border@;
        let ghost total = searched(k0, &b0, ring, r as int);
        let (x, y) = border[0];
        let ghost c = cell((x, y));
        proof {
            assert(rot[0] == ring[r as int]);
            assert forall|j: int| 0 <= j < rot.len() implies k.has(cell(#[trigger] rot[j])) by {
                if j < n - r {
                    assert(rot[j] == ring[r + j]);
                } else {
                    assert(rot[j] == ring[j - (n - r)]);
                }
            }
            assert(k.states.contains_key(c));
        }
        if let MineState::Unknown = *session.mines.index_2d(x, y) {
            let mut polarity: Option<bool> = None;
            if !check_consistent(session, 0, border.as_slice(), true) {
                polarity = Some(false);
                searches = count_up(searches, Ghost(total), 1, Ghost(1));
            } else {
                if !check_consistent(session, 0, border.as_slice(), false) {
                    polarity = Some(true);
                }
                searches = count_up(searches, Ghost(total), 2, Ghost(2));
            }
            assert(polarity == verdict(k, rot));
            if let Some(mine) = polarity {
                proof {
                    lemma_truth_is_consistent(k, board, rot, 0);
                }
                let ghost b = *board;
                let _ = make_guess(board, session, x, y, mine);
                proof {
                    assert(b.truth(c) == b0.truth(c));
                }
                let ghost before = log@;
                log.push((x, y));
                proof {
                    assert(log@.drop_last() =~= before);
                }
            }
        } else {
            assert(verdict(k, rot) is None);
        }
        let first = border.remove(0);
        border.push(first);
        proof {
            assert(border@ =~= rotate(ring, r + 1));
        }
        r += 1;
    }
    (log, searches)
}

/// The cells proved and revealed by passes over the first `i` borders, in
/// order, each pass starting from what the passes before it revealed.
pub open spec fn passes(k: Knowledge, b: &GameBoard, borders: Seq<Vec<(usize, usize)>>, i: int) -> Seq<
    (usize, usize),
>
    decreases i,
{
    if i <= 0 {
        Seq::empty()
    } else {
        let log = passes(k, b, borders, i - 1);
        log + deduced(after(k, b, log), b, borders[i - 1]@, borders[i - 1]@.len() as int)
    }
}

/// The number of searches made by passes over the first `i` borders.
pub open spec fn pass_searches(
    k: Knowledge,
    b: &GameBoard,
    borders: Seq<Vec<(usize, usize)>>,
    i: int,
) -> int
    decreases i,
{
    if i <= 0 {
        0
    } else {
        pass_searches(k, b, borders, i - 1) + searched(
            after(k, b, passes(k, b, borders, i - 1)),
            b,
            borders[i - 1]@,
            borders[i - 1]@.len() as int,
        )
    }
}

/// Nothing is left to deduce: no cell is decided by a saturated
/// constraint, and the search has no verdict on any cell of any border.
pub open spec fn at_rest(k: Knowledge, borders: Seq<Vec<(usize, usize)>>) -> bool {
    &&& closed(k)
    &&& are_borders(k, borders)
    &&& forall|i: int, t: int|
        0 <= i < borders.len() && 0 <= t < borders[i]@.len() ==> verdict(
            k,
            #[trigger] rotate(borders[i]@, t),
        ) is None
}

/// Passes that commit nothing found no verdict in any border.
pub proof fn lemma_passes_empty(
    k: Knowledge,
    b: &GameBoard,
    borders: Seq<Vec<(usize, usize)>>,
    i: int,
)
    requires
        0 <= i <= borders.len(),
        passes(k, b, borders, i).len() == 0,
    ensures
        forall|i2: int, t: int|
            0 <= i2 < i && 0 <= t < borders[i2]@.len() ==> verdict(
                k,
                #[trigger] rotate(borders[i2]@, t),
            ) is None,
    decreases i,
{
    if i > 0 {
        let log = passes(k, b, borders, i - 1);
        assert(log.len() == 0);
        assert(log =~= Seq::empty());
        lemma_passes_empty(k, b, borders, i - 1);
        lemma_deduced_empty(k, b, borders[i - 1]@, borders[i - 1]@.len() as int);
    }
}

/// What one round of the driver did.
pub struct Progress {
    /// The cells revealed, in order.
    pub resolved: Vec<(usize, usize)>,
    /// The number of searches made, stopping at the largest `usize`.
    pub searches: usize,
    /// The borders that were passed over; none where the sweep sufficed.
    pub borders: Vec<Vec<(usize, usize)>>,
}

/// One round of the driver. A propagation sweep comes first; if it
/// commits anything the round ends there, without a single search. Only
/// when no cell is decided by a saturated constraint are the borders
/// extracted and passed over, one after the other, smallest first. A round
/// that reveals nothing leaves the solver at rest.
pub fn step(board: &mut GameBoard, session: &mut Session) -> (p: Progress)
    requires
        old(board).wf(),
        old(session).wf(),
        in_step(old(session)@, old(board)),
    ensures
        final(board).wf(),
        final(session).wf(),
        in_step(final(session)@, final(board)),
        final(board).mine == old(board).mine,
        final(board).count == old(board).count,
        final(board).width == old(board).width,
        final(board).height == old(board).height,
        final(session)@ == after(old(session)@, old(board), p.resolved@),
        final(board).remaining + p.resolved@.len() == old(board).remaining,
        justified(old(session)@, old(board), p.resolved@),
        if closed(old(session)@) {
            &&& are_borders(old(session)@, p.borders@)
            &&& p.resolved@ == passes(
                old(session)@,
                old(board),
                p.borders@,
                p.borders@.len() as int,
            )
            &&& p.searches == capped(
                pass_searches(old(session)@, old(board), p.borders@, p.borders@.len() as int),
            )
        } else {
            &&& p.resolved@ == swept(old(session)@, old(board), old(board).height as int, 0)
            &&& p.resolved@.len() > 0
            &&& p.searches == 0
            &&& p.borders@.len() == 0
        },
        p.resolved@.len() == 0 ==> at_rest(final(session)@, p.borders@),
{
    let ghost b0 = *board;
    let ghost k0 = session@;
    let run = propagate(board, session);
    if run.len() > 0 {
        proof {
            lemma_run_starts_open(k0, &b0, run@);
            lemma_run_is_justified(k0, &b0, run@);
        }
        return Progress { resolved: run, searches: 0, borders: Vec::new() };
    }
    assert(session@ == k0);
    let borders = extract_borders(session);
    let mut resolved: Vec<(usize, usize)> = Vec::new();
    let mut searches: usize = 0;
    let mut i: usize = 0;
    while i < borders.len()
        invariant
            0 <= i <= borders@.len(),
            b0 == *old(board),
            k0 == old(session)@,
            k0.wf(),
            closed(k0),
            is_partition(k0, borders@),
            board.wf(),
            session.wf(),
            in_step(session@, board),
            board.mine == b0.mine,
            board.count == b0.count,
            board.width == b0.width,
            board.height == b0.height,
            resolved@ == passes(k0, &b0, borders@, i as int),
            searches == capped(pass_searches(k0, &b0, borders@, i as int)),
            0 <= pass_searches(k0, &b0, borders@, i as int),
            session@ == after(k0, &b0, resolved@),
            justified(k0, &b0, resolved@),
            board.remaining + resolved@.len() == b0.remaining,
        decreases borders@.len() - i,
    {
        let ghost k = session@;
        let ghost b = *board;
        let ghost total = pass_searches(k0, &b0, borders@, i as int);
        let ghost before = resolved@;
        let ghost ring = borders@[i as int]@;
        proof {
            lemma_after_shape(k0, &b0, resolved@);
            assert forall|j: int| 0 <= j < ring.len() implies k.has(cell(#[trigger] ring[j])) by {
                assert(frontier(k0, cell(borders@[i as int]@[j])));
            }
            lemma_searched_range(k, &b0, ring, ring.len() as int);
            lemma_deduced_is_justified(k, &b0, ring, ring.len() as int);
        }
        let (mut log, n) = solve_border(board, session, &borders[i]);
        proof {
            lemma_same_layout(k, &b, &b0, ring, ring.len() as int);
            lemma_after_concat(k0, &b0, before, log@);
            lemma_justified_concat(k0, &b0, before, log@);
            lemma_after_same_layout(k, &b, &b0, log@);
        }
        searches = count_up(
            searches,
            Ghost(total),
            n,
            Ghost(searched(k, &b0, ring, ring.len() as int)),
        );
        resolved.append(&mut log);
        i += 1;
    }
    proof {
        if resolved@.len() == 0 {
            lemma_passes_empty(k0, &b0, borders@, borders@.len() as int);
        }
    }
    Progress { resolved, searches, borders }
}

/// What a pass finds depends on the board through its layout only.
pub proof fn lemma_same_layout(
    k: Knowledge,
    b1: &GameBoard,
    b2: &GameBoard,
    border: Seq<(usize, usize)>,
    r: int,
)
    requires
        b1.mine == b2.mine,
        b1.count == b2.count,
    ensures
        deduced(k, b1, border, r) == deduced(k, b2, border, r),
        searched(k, b1, border, r) == searched(k, b2, border, r),
    decreases r,
{
    if r > 0 {
        lemma_same_layout(k, b1, b2, border, r - 1);
        lemma_after_same_layout(k, b1, b2, deduced(k, b1, border, r - 1));
    }
}

/// What reveals lead to depends on the board through its layout only.
pub proof fn lemma_after_same_layout(
    k: Knowledge,
    b1: &GameBoard,
    b2: &GameBoard,
    log: Seq<(usize, usize)>,
)
    requires
        b1.mine == b2.mine,
        b1.count == b2.count,
    ensures
        after(k, b1, log) == after(k, b2, log),
    decreases log.len(),
{
    if log.len() > 0 {
        lemma_after_same_layout(k, b1, b2, log.drop_last());
    }
}

/// How a session ended.
pub struct Report {
    /// The board, with every proved cell revealed.
    pub board: GameBoard,
    /// What the solver knows at the end.
    pub session: Session,
    /// The cells revealed, in order, the starting cell first.
    pub resolved: Vec<(usize, usize)>,
    /// The borders of what is left undetermined; the search has no verdict
    /// on any of their cells.
    pub borders: Vec<Vec<(usize, usize)>>,
    /// The number of searches made, stopping at the largest `usize`.
    pub searches: usize,
}

/// What a round reveals from the knowledge `k`: what the sweep commits
/// where a saturated constraint decides a cell, else what the passes over
/// `borders` prove.
pub open spec fn round_log(k: Knowledge, b: &GameBoard, borders: Seq<Vec<(usize, usize)>>) -> Seq<
    (usize, usize),
> {
    if closed(k) {
        passes(k, b, borders, borders.len() as int)
    } else {
        swept(k, b, b.height as int, 0)
    }
}

/// The number of searches that a round makes from the knowledge `k`: none
/// where the sweep commits, else those of the passes over `borders`.
pub open spec fn round_searches(k: Knowledge, b: &GameBoard, borders: Seq<Vec<(usize, usize)>>) -> int {
    if closed(k) {
        pass_searches(k, b, borders, borders.len() as int)
    } else {
        0
    }
}

/// The cells revealed by the first `n` rounds, in order; `rounds` holds
/// the borders passed over in each round.
pub open spec fn rounds_log(
    k: Knowledge,
    b: &GameBoard,
    rounds: Seq<Seq<Vec<(usize, usize)>>>,
    n: int,
) -> Seq<(usize, usize)>
    decreases n,
{
    if n <= 0 {
        Seq::empty()
    } else {
        let log = rounds_log(k, b, rounds, n - 1);
        log + round_log(after(k, b, log), b, rounds[n - 1])
    }
}

/// The number of searches made in the first `n` rounds.
pub open spec fn rounds_searches(
    k: Knowledge,
    b: &GameBoard,
    rounds: Seq<Seq<Vec<(usize, usize)>>>,
    n: int,
) -> int
    decreases n,
{
    if n <= 0 {
        0
    } else {
        rounds_searches(k, b, rounds, n - 1) + round_searches(
            after(k, b, rounds_log(k, b, rounds, n - 1)),
            b,
            rounds[n - 1],
        )
    }
}

/// What is known when round `i` begins.
pub open spec fn round_start(
    k: Knowledge,
    b: &GameBoard,
    rounds: Seq<Seq<Vec<(usize, usize)>>>,
    i: int,
) -> Knowledge {
    after(k, b, rounds_log(k, b, rounds, i))
}

/// Round `i` passes over the borders of what is known when it begins, or
/// over none where the sweep has something to commit.
pub open spec fn round_fits(
    k: Knowledge,
    b: &GameBoard,
    rounds: Seq<Seq<Vec<(usize, usize)>>>,
    i: int,
) -> bool {
    if closed(round_start(k, b, rounds, i)) {
        are_borders(round_start(k, b, rounds, i), rounds[i])
    } else {
        rounds[i].len() == 0
    }
}

/// Round `i` reveals a cell.
pub open spec fn round_reveals(
    k: Knowledge,
    b: &GameBoard,
    rounds: Seq<Seq<Vec<(usize, usize)>>>,
    i: int,
) -> bool {
    round_log(round_start(k, b, rounds, i), b, rounds[i]).len() > 0
}

/// `rounds` are the rounds of a whole session from the knowledge `k`: each
/// passes over the borders of its moment, each but the last reveals a
/// cell, and the last reveals none.
pub open spec fn is_session(k: Knowledge, b: &GameBoard, rounds: Seq<Seq<Vec<(usize, usize)>>>) -> bool {
    &&& rounds.len() > 0
    &&& forall|i: int| 0 <= i < rounds.len() ==> #[trigger] round_fits(k, b, rounds, i)
    &&& forall|i: int|
        0 <= i < rounds.len() ==> (#[trigger] round_reveals(k, b, rounds, i) <==> i < rounds.len()
            - 1)
}

/// A session from the knowledge `k` revealed the cells of `log`, made
/// `searches` searches, counted up to the largest `usize`, and passed over
/// `borders` in its last round.
pub open spec fn told(
    k: Knowledge,
    b: &GameBoard,
    log: Seq<(usize, usize)>,
    searches: int,
    borders: Seq<Vec<(usize, usize)>>,
) -> bool {
    exists|rounds: Seq<Seq<Vec<(usize, usize)>>>|
        {
            &&& #[trigger] is_session(k, b, rounds)
            &&& log == rounds_log(k, b, rounds, rounds.len() as int)
            &&& searches == capped(rounds_searches(k, b, rounds, rounds.len() as int))
            &&& borders == rounds.last()
        }
}

/// What the passes over borders find depends on the board through its
/// layout only.
pub proof fn lemma_passes_same_layout(
    k: Knowledge,
    b1: &GameBoard,
    b2: &GameBoard,
    borders: Seq<Vec<(usize, usize)>>,
    i: int,
)
    requires
        b1.mine == b2.mine,
        b1.count == b2.count,
    ensures
        passes(k, b1, borders, i) == passes(k, b2, borders, i),
        pass_searches(k, b1, borders, i) == pass_searches(k, b2, borders, i),
        0 <= pass_searches(k, b1, borders, i),
    decreases i,
{
    if i > 0 {
        lemma_passes_same_layout(k, b1, b2, borders, i - 1);
        let log = passes(k, b1, borders, i - 1);
        lemma_after_same_layout(k, b1, b2, log);
        lemma_same_layout(
            after(k, b1, log),
            b1,
            b2,
            borders[i - 1]@,
            borders[i - 1]@.len() as int,
        );
        lemma_searched_range(after(k, b1, log), b1, borders[i - 1]@, borders[i - 1]@.len() as int);
    }
}

/// What a sweep commits depends on the board through its layout only.
pub proof fn lemma_swept_same_layout(k: Knowledge, b1: &GameBoard, b2: &GameBoard, y: int, x: int)
    requires
        b1.mine == b2.mine,
        b1.count == b2.count,
    ensures
        swept(k, b1, y, x) == swept(k, b2, y, x),
    decreases y, x,
{
    if x > 0 {
        lemma_swept_same_layout(k, b1, b2, y, x - 1);
        lemma_after_same_layout(k, b1, b2, swept(k, b1, y, x - 1));
    } else if y > 0 {
        lemma_swept_same_layout(k, b1, b2, y - 1, k.width);
    }
}

/// What the first rounds reveal does not depend on the rounds that follow
/// them.
pub proof fn lemma_rounds_prefix(
    k: Knowledge,
    b: &GameBoard,
    r1: Seq<Seq<Vec<(usize, usize)>>>,
    r2: Seq<Seq<Vec<(usize, usize)>>>,
    n: int,
)
    requires
        n <= r1.len(),
        n <= r2.len(),
        forall|i: int| 0 <= i < n ==> r1[i] == r2[i],
    ensures
        rounds_log(k, b, r1, n) == rounds_log(k, b, r2, n),
        rounds_searches(k, b, r1, n) == rounds_searches(k, b, r2, n),
        0 <= rounds_searches(k, b, r1, n),
    decreases n,
{
    if n > 0 {
        lemma_rounds_prefix(k, b, r1, r2, n - 1);
        lemma_passes_same_layout(
            after(k, b, rounds_log(k, b, r1, n - 1)),
            b,
            b,
            r1[n - 1],
            r1[n - 1].len() as int,
        );
    }
}

/// One more round, after rounds that each revealed a cell, leaves them as
/// they were and adds what it reveals and the searches it makes.
pub proof fn lemma_round_added(
    k: Knowledge,
    b: &GameBoard,
    rounds: Seq<Seq<Vec<(usize, usize)>>>,
    borders: Seq<Vec<(usize, usize)>>,
)
    requires
        forall|i: int| 0 <= i < rounds.len() ==> #[trigger] round_fits(k, b, rounds, i),
        forall|i: int| 0 <= i < rounds.len() ==> #[trigger] round_reveals(k, b, rounds, i),
        if closed(round_start(k, b, rounds, rounds.len() as int)) {
            are_borders(round_start(k, b, rounds, rounds.len() as int), borders)
        } else {
            borders.len() == 0
        },
    ensures
        rounds_log(k, b, rounds.push(borders), rounds.len() as int + 1) == rounds_log(
            k,
            b,
            rounds,
            rounds.len() as int,
        ) + round_log(round_start(k, b, rounds, rounds.len() as int), b, borders),
        rounds_searches(k, b, rounds.push(borders), rounds.len() as int + 1) == rounds_searches(
            k,
            b,
            rounds,
            rounds.len() as int,
        ) + round_searches(round_start(k, b, rounds, rounds.len() as int), b, borders),
        0 <= rounds_searches(k, b, rounds, rounds.len() as int),
        0 <= round_searches(round_start(k, b, rounds, rounds.len() as int), b, borders),
        forall|i: int|
            0 <= i < rounds.len() + 1 ==> #[trigger] round_fits(k, b, rounds.push(borders), i),
        forall|i: int|
            0 <= i < rounds.len() + 1 ==> (#[trigger] round_reveals(k, b, rounds.push(borders), i)
                <==> i < rounds.len() || round_log(
                round_start(k, b, rounds, rounds.len() as int),
                b,
                borders,
            ).len() > 0),
{
    let more = rounds.push(borders);
    let n = rounds.len() as int;
    lemma_rounds_prefix(k, b, rounds, more, n);
    lemma_passes_same_layout(round_start(k, b, rounds, n), b, b, borders, borders.len() as int);
    assert(more[n] == borders);
    assert forall|i: int| 0 <= i < n + 1 implies #[trigger] round_fits(k, b, more, i) by {
        if i < n {
            lemma_rounds_prefix(k, b, rounds, more, i);
            assert(round_fits(k, b, rounds, i));
        }
    }
    assert forall|i: int| 0 <= i < n + 1 implies (#[trigger] round_reveals(k, b, more, i) <==> i
        < n || round_log(round_start(k, b, rounds, n), b, borders).len() > 0) by {
        if i < n {
            lemma_rounds_prefix(k, b, rounds, more, i);
            assert(round_reveals(k, b, rounds, i));
        }
    }
}

/// Plays a board that has a cell to start from to the end, by deduction
/// alone. The starting cell holds no mine and has none around it; the
/// cells after the first row are looked at first for one, and the first
/// row last. From there, rounds of sweeps
/// and border passes follow each other until a round reveals nothing, and
/// the searches of all rounds are counted. Every cell revealed after the
/// first was proved at the moment it was revealed, and at the end the
/// solver is at rest. Together the two fix what is known at the end,
/// whatever the order of the reveals: see `lemma_rest_is_unique`. Where
/// saturated constraints decided every reveal, the only searches are
/// those of the last round, which found nothing. Each round but the last
/// reveals a cell, so there are no more rounds than cells.
pub fn play(board: GameBoard) -> (report: Report)
    requires
        board.wf(),
        board.untouched(),
        board.can_start(),
    ensures
        report.board.wf(),
        report.session.wf(),
        in_step(report.session@, &report.board),
        report.board.mine == board.mine,
        report.board.count == board.count,
        report.board.width == board.width,
        report.board.height == board.height,
        report.board.remaining + report.resolved@.len() == board.remaining,
        report.resolved@.len() > 0,
        board.is_start(cell(report.resolved@[0])),
        forall|c: (int, int)| #[trigger]
            board.is_start(c) ==> !start_before(c, cell(report.resolved@[0])),
        report.session@ == after(
            Knowledge::blank(board.width as int, board.height as int),
            &board,
            report.resolved@,
        ),
        justified(started(&board, report.resolved@), &board, report.resolved@.skip(1)),
        told(
            started(&board, report.resolved@),
            &board,
            report.resolved@.skip(1),
            report.searches as int,
            report.borders@,
        ),
        is_run(started(&board, report.resolved@), &board, report.resolved@.skip(1))
            ==> report.searches == capped(
            pass_searches(report.session@, &board, report.borders@, report.borders@.len() as int),
        ),
        at_rest(report.session@, report.borders@),
{
    let ghost b0 = board;
    let ghost blank = Knowledge::blank(board.width as int, board.height as int);
    let mut board = board;
    let (x, y) = board.initial();
    let mut session = Session::new(board.width, board.height);
    proof {
        lemma_blank_in_step(&board);
    }
    let _ = make_guess(&mut board, &mut session, x, y, false);
    let ghost first = seq![(x, y)];
    let ghost k1 = session@;
    proof {
        assert(first.drop_last() =~= Seq::empty());
        assert(first.last() == (x, y));
        assert(after(blank, &b0, first.drop_last()) == blank);
        assert(k1 == after(blank, &b0, first));
    }
    let mut resolved: Vec<(usize, usize)> = Vec::new();
    resolved.push((x, y));
    let mut searches: usize = 0;
    let mut borders: Vec<Vec<(usize, usize)>> = Vec::new();
    let mut done = false;
    let ghost mut rest: Seq<(usize, usize)> = Seq::empty();
    let ghost mut rounds: Seq<Seq<Vec<(usize, usize)>>> = Seq::empty();
    proof {
        assert(resolved@ =~= first + rest);
    }
    while !done
        invariant
            board.wf(),
            session.wf(),
            in_step(session@, &board),
            board.mine == b0.mine,
            board.count == b0.count,
            board.width == b0.width,
            board.height == b0.height,
            first == seq![(x, y)],
            resolved@ == first + rest,
            k1 == after(blank, &b0, first),
            session@ == after(k1, &b0, rest),
            justified(k1, &b0, rest),
            board.remaining + resolved@.len() == b0.remaining,
            done ==> at_rest(session@, borders@),
            rest == rounds_log(k1, &b0, rounds, rounds.len() as int),
            searches == capped(rounds_searches(k1, &b0, rounds, rounds.len() as int)),
            0 <= rounds_searches(k1, &b0, rounds, rounds.len() as int),
            forall|i: int| 0 <= i < rounds.len() ==> #[trigger] round_fits(k1, &b0, rounds, i),
            forall|i: int|
                0 <= i < rounds.len() ==> (#[trigger] round_reveals(k1, &b0, rounds, i) <==> !done
                    || i < rounds.len() - 1),
            done ==> rounds.len() > 0 && borders@ == rounds.last(),
            is_run(k1, &b0, rest) ==> searches == if done {
                capped(pass_searches(session@, &b0, borders@, borders@.len() as int))
            } else {
                0
            },
        decreases board.remaining, if done { 0int } else { 1int },
    {
        let ghost k = session@;
        let ghost b = board;
        let ghost total = rounds_searches(k1, &b0, rounds, rounds.len() as int);
        let ghost before = rounds;
        let p = step(&mut board, &mut session);
        let Progress { resolved: mut found, searches: n, borders: passed } = p;
        proof {
            lemma_after_same_layout(k, &b, &b0, found@);
            lemma_justified_same_layout(k, &b, &b0, found@);
            lemma_after_concat(k1, &b0, rest, found@);
            lemma_justified_concat(k1, &b0, rest, found@);
            lemma_passes_same_layout(k, &b, &b0, passed@, passed@.len() as int);
            lemma_swept_same_layout(k, &b, &b0, b0.height as int, 0);
            assert(found@ == round_log(k, &b0, passed@));
            assert(n == capped(round_searches(k, &b0, passed@)));
            lemma_round_added(k1, &b0, before, passed@);
            rounds = rounds.push(passed@);
            if is_run(k1, &b0, rest + found@) {
                lemma_run_split(k1, &b0, rest, found@);
                if found@.len() > 0 {
                    lemma_run_starts_open(k, &b0, found@);
                }
            }
        }
        searches = count_up(
            searches,
            Ghost(total),
            n,
            Ghost(round_searches(k, &b0, passed@)),
        );
        if found.len() == 0 {
            proof {
                assert(rest + found@ =~= rest);
            }
            borders = passed;
            done = true;
        } else {
            proof {
                rest = rest + found@;
                assert(resolved@ + found@ =~= first + rest);
            }
            resolved.append(&mut found);
        }
    }
    proof {
        lemma_after_concat(blank, &b0, first, rest);
        assert(resolved@.subrange(0, 1) =~= first);
        assert(resolved@.skip(1) =~= rest);
        assert(started(&b0, resolved@) == k1);
        assert(is_session(k1, &b0, rounds));
        assert(told(k1, &b0, rest, searches as int, borders@));
    }
    Report { board, session, resolved, borders, searches }
}

/// What is known once the first cell of `log` has been revealed on a
/// board of which nothing was known.
pub open spec fn started(b: &GameBoard, log: Seq<(usize, usize)>) -> Knowledge {
    after(Knowledge::blank(b.width as int, b.height as int), b, log.subrange(0, 1))
}

/// Whether reveals were proved depends on the board through its layout
/// only.
pub proof fn lemma_justified_same_layout(
    k: Knowledge,
    b1: &GameBoard,
    b2: &GameBoard,
    log: Seq<(usize, usize)>,
)
    requires
        b1.mine == b2.mine,
        b1.count == b2.count,
    ensures
        justified(k, b1, log) == justified(k, b2, log),
    decreases log.len(),
{
    if log.len() > 0 {
        lemma_justified_same_layout(k, b1, b2, log.drop_last());
        lemma_after_same_layout(k, b1, b2, log.drop_last());
    }
}

} // verus!
