//! What holds of the deductions as a whole: every commit is proved, the
//! knowledge stays true of the board, and propagation reaches the same end
//! whatever order it takes.

use vstd::prelude::*;
use crate::board::GameBoard;
use crate::borders::{frontier, undetermined};
use crate::driver::{at_rest, deduced, lemma_rotate, rotate, turned_from, verdict};
use crate::grid::{
    cell, cell_set, lemma_cell_set, lemma_dir_of, lemma_tally_le, lemma_tally_split, nbr,
};
use crate::propagation::{after, closed, forced, is_run, saturated};
use crate::search::consistent;
use crate::session::{in_state, polarity, Knowledge, MineState};
use crate::solutions::{extendable, lemma_consistent_iff_extendable};
use crate::truth::{faithful, lemma_sound_bounds, maybe_mine};

verus! {

/// The cell `c` is undetermined and the search refutes one supposition
/// about it, along some list of cells that starts with `c`.
pub open spec fn provable(k: Knowledge, c: (int, int)) -> bool {
    undetermined(k, c) && exists|border: Seq<(usize, usize)>, mine: bool|
        border.len() > 0 && cell(border[0]) == c && (forall|j: int|
            0 <= j < border.len() ==> k.has(cell(#[trigger] border[j]))) && !#[trigger] consistent(
            k,
            border,
            0,
            mine,
        )
}

/// Each cell of `log` was provable at the moment it was revealed.
pub open spec fn justified(k: Knowledge, b: &GameBoard, log: Seq<(usize, usize)>) -> bool
    decreases log.len(),
{
    log.len() == 0 || (justified(k, b, log.drop_last()) && provable(
        after(k, b, log.drop_last()),
        cell(log.last()),
    ))
}

/// `k2` determines every cell that `k` determines.
pub open spec fn knows_more(k2: Knowledge, k: Knowledge) -> bool {
    &&& k2.width == k.width
    &&& k2.height == k.height
    &&& forall|c: (int, int)|
        k.has(c) && #[trigger] k.states[c] != MineState::Unknown ==> k2.states[c]
            != MineState::Unknown
}

/// Reveals do not change the shape of the board.
pub proof fn lemma_after_shape(k: Knowledge, b: &GameBoard, log: Seq<(usize, usize)>)
    ensures
        after(k, b, log).width == k.width,
        after(k, b, log).height == k.height,
    decreases log.len(),
{
    if log.len() > 0 {
        lemma_after_shape(k, b, log.drop_last());
    }
}

/// Revealing two lists of cells one after the other is revealing the two
/// joined.
pub proof fn lemma_after_concat(
    k: Knowledge,
    b: &GameBoard,
    s: Seq<(usize, usize)>,
    t: Seq<(usize, usize)>,
)
    ensures
        after(k, b, s + t) == after(after(k, b, s), b, t),
    decreases t.len(),
{
    if t.len() == 0 {
        assert(s + t =~= s);
    } else {
        lemma_after_concat(k, b, s, t.drop_last());
        assert((s + t).drop_last() =~= s + t.drop_last());
        assert((s + t).last() == t.last());
    }
}

/// Two lists of proved reveals, the second from where the first ends, make
/// one list of proved reveals.
pub proof fn lemma_justified_concat(
    k: Knowledge,
    b: &GameBoard,
    s: Seq<(usize, usize)>,
    t: Seq<(usize, usize)>,
)
    requires
        justified(k, b, s),
        justified(after(k, b, s), b, t),
    ensures
        justified(k, b, s + t),
    decreases t.len(),
{
    if t.len() == 0 {
        assert(s + t =~= s);
    } else {
        lemma_justified_concat(k, b, s, t.drop_last());
        lemma_after_concat(k, b, s, t.drop_last());
        assert((s + t).drop_last() =~= s + t.drop_last());
        assert((s + t).last() == t.last());
    }
}

/// A cell decided by a saturated constraint is provable: the search on
/// that cell alone refutes the supposition that the constraint excludes.
pub proof fn lemma_forced_is_provable(k: Knowledge, c: (int, int))
    requires
        k.width <= usize::MAX,
        k.height <= usize::MAX,
        forced(k, c),
    ensures
        provable(k, c),
{
    let i = choose|i: int|
        0 <= i < 8 && k.counts.contains_key(#[trigger] nbr(c, i)) && saturated(k, nbr(c, i));
    let n = nbr(c, i);
    let mine = k.counts[n] == k.around(n, MineState::KnownMine);
    let border = seq![(c.0 as usize, c.1 as usize)];
    let k2 = k.with_state(c, polarity(mine));
    lemma_dir_of(c, n);
    lemma_dir_of(n, c);
    k.lemma_around_with_state(c, polarity(mine), n, MineState::KnownMine);
    k.lemma_around_with_state(c, polarity(mine), n, MineState::Unknown);
    assert(k2.counts.contains_key(nbr(c, i)) && !k2.satisfied(nbr(c, i)));
    assert(!k2.valid_around(c));
    assert(cell(border[0]) == c);
    assert(!consistent(k, border, 0, mine));
}

/// A sweep commits proved cells only.
pub proof fn lemma_run_is_justified(k: Knowledge, b: &GameBoard, run: Seq<(usize, usize)>)
    requires
        k.width <= usize::MAX,
        k.height <= usize::MAX,
        is_run(k, b, run),
    ensures
        justified(k, b, run),
    decreases run.len(),
{
    if run.len() > 0 {
        lemma_run_is_justified(k, b, run.drop_last());
        lemma_after_shape(k, b, run.drop_last());
        lemma_forced_is_provable(after(k, b, run.drop_last()), cell(run.last()));
    }
}

/// A run in two parts is a run to the end of the first part, and a run
/// from there.
pub proof fn lemma_run_split(
    k: Knowledge,
    b: &GameBoard,
    s: Seq<(usize, usize)>,
    t: Seq<(usize, usize)>,
)
    requires
        is_run(k, b, s + t),
    ensures
        is_run(k, b, s),
        is_run(after(k, b, s), b, t),
    decreases t.len(),
{
    if t.len() == 0 {
        assert(s + t =~= s);
    } else {
        assert((s + t).drop_last() =~= s + t.drop_last());
        assert((s + t).last() == t.last());
        lemma_run_split(k, b, s, t.drop_last());
        lemma_after_concat(k, b, s, t.drop_last());
    }
}

/// A run that commits anything starts from knowledge that propagation has
/// not exhausted.
pub proof fn lemma_run_starts_open(k: Knowledge, b: &GameBoard, run: Seq<(usize, usize)>)
    requires
        is_run(k, b, run),
        run.len() > 0,
    ensures
        forced(k, cell(run[0])),
        !closed(k),
    decreases run.len(),
{
    if run.len() > 1 {
        lemma_run_starts_open(k, b, run.drop_last());
        assert(run.drop_last()[0] == run[0]);
    } else {
        assert(run.drop_last() =~= Seq::empty());
    }
}

/// A pass over a border commits proved cells only.
pub proof fn lemma_deduced_is_justified(
    k: Knowledge,
    b: &GameBoard,
    border: Seq<(usize, usize)>,
    r: int,
)
    requires
        0 <= r <= border.len(),
        forall|j: int| 0 <= j < border.len() ==> k.has(cell(#[trigger] border[j])),
    ensures
        justified(k, b, deduced(k, b, border, r)),
    decreases r,
{
    if r > 0 {
        lemma_deduced_is_justified(k, b, border, r - 1);
        let log = deduced(k, b, border, r - 1);
        let rot = rotate(border, r - 1);
        let k2 = after(k, b, log);
        lemma_after_shape(k, b, log);
        if verdict(k2, rot) is Some {
            let mine = !verdict(k2, rot).unwrap();
            assert forall|j: int| 0 <= j < rot.len() implies k2.has(cell(#[trigger] rot[j])) by {
                if j < border.len() - (r - 1) {
                    assert(rot[j] == border[(r - 1) + j]);
                } else {
                    assert(rot[j] == border[j - (border.len() - (r - 1))]);
                }
            }
            assert(!consistent(k2, rot, 0, mine));
            assert(provable(k2, cell(rot[0])));
            assert(log.push(rot[0]).drop_last() =~= log);
        }
    }
}

/// A pass that commits nothing found no verdict at any turn.
pub proof fn lemma_deduced_empty(k: Knowledge, b: &GameBoard, border: Seq<(usize, usize)>, r: int)
    requires
        0 <= r,
        deduced(k, b, border, r).len() == 0,
    ensures
        forall|t: int| 0 <= t < r ==> verdict(k, #[trigger] rotate(border, t)) is None,
    decreases r,
{
    if r > 0 {
        let log = deduced(k, b, border, r - 1);
        assert(log.len() == 0);
        assert(log =~= Seq::empty());
        lemma_deduced_empty(k, b, border, r - 1);
    }
}

/// What was known before stays known, and true, after a reveal of an
/// undetermined cell.
pub proof fn lemma_commit_faithful(k: Knowledge, b: &GameBoard, c: (int, int))
    requires
        k.wf(),
        b.wf(),
        faithful(k, b),
        undetermined(k, c),
    ensures
        k.commit(c, b.truth(c)).wf(),
        faithful(k.commit(c, b.truth(c)), b),
        knows_more(k.commit(c, b.truth(c)), k),
{
    let k2 = k.commit(c, b.truth(c));
    crate::truth::lemma_count_range(b);
    assert(b.has(c));
    assert(b.count.at(c) <= 8);
    assert forall|d: (int, int)| k2.has(d) <==> #[trigger] k2.states.contains_key(d) by {
        assert(k.has(d) <==> k.states.contains_key(d));
    }
    assert forall|d: (int, int)| #[trigger] k2.counts.contains_key(d) implies k2.has(d)
        && k2.states[d] == MineState::KnownSafe && 0 <= k2.counts[d] <= 8 by {
        if d != c {
            assert(k.counts.contains_key(d));
        }
    }
}

/// Reveals that were proved keep the knowledge well-formed and faithful,
/// and only add to it.
pub proof fn lemma_log_faithful(k: Knowledge, b: &GameBoard, log: Seq<(usize, usize)>)
    requires
        k.wf(),
        b.wf(),
        faithful(k, b),
        justified(k, b, log),
    ensures
        after(k, b, log).wf(),
        faithful(after(k, b, log), b),
        knows_more(after(k, b, log), k),
    decreases log.len(),
{
    if log.len() > 0 {
        lemma_log_faithful(k, b, log.drop_last());
        let prev = after(k, b, log.drop_last());
        lemma_commit_faithful(prev, b, cell(log.last()));
        assert forall|c: (int, int)|
            k.has(c) && #[trigger] k.states[c] != MineState::Unknown implies after(
            k,
            b,
            log,
        ).states[c] != MineState::Unknown by {
            assert(prev.states[c] != MineState::Unknown);
        }
    }
}

/// A run of forced commits keeps the knowledge well-formed and faithful,
/// and only adds to it.
pub proof fn lemma_run_faithful(k: Knowledge, b: &GameBoard, run: Seq<(usize, usize)>)
    requires
        k.wf(),
        b.wf(),
        faithful(k, b),
        is_run(k, b, run),
    ensures
        after(k, b, run).wf(),
        faithful(after(k, b, run), b),
        knows_more(after(k, b, run), k),
{
    lemma_run_is_justified(k, b, run);
    lemma_log_faithful(k, b, run);
}

/// A cell that a saturated constraint decides stays decided by it for as
/// long as the cell is undetermined, whatever else becomes known.
pub proof fn lemma_forced_persists(k: Knowledge, k2: Knowledge, b: &GameBoard, c: (int, int))
    requires
        k.wf(),
        k2.wf(),
        b.wf(),
        faithful(k, b),
        faithful(k2, b),
        knows_more(k2, k),
        forced(k, c),
        k2.states[c] == MineState::Unknown,
    ensures
        forced(k2, c),
{
    let i = choose|i: int|
        0 <= i < 8 && k.counts.contains_key(#[trigger] nbr(c, i)) && saturated(k, nbr(c, i));
    let n = nbr(c, i);
    assert(k.states[n] == MineState::KnownSafe);
    assert(k2.states[n] != MineState::Unknown);
    assert(k2.states[n] == MineState::KnownSafe);
    assert(k2.counts.contains_key(n));
    let pm = in_state(k.width, k.height, k.states, MineState::KnownMine);
    let pm2 = in_state(k2.width, k2.height, k2.states, MineState::KnownMine);
    let pu = in_state(k.width, k.height, k.states, MineState::Unknown);
    let pu2 = in_state(k2.width, k2.height, k2.states, MineState::Unknown);
    lemma_sound_bounds(k2, b, n);
    lemma_sound_bounds(k, b, n);
    if k.counts[n] == k.around(n, MineState::KnownMine) {
        assert forall|j: int| 0 <= j < 8 && pm(#[trigger] nbr(n, j)) implies pm2(nbr(n, j)) by {
            let e = nbr(n, j);
            assert(k.states[e] != MineState::Unknown);
            assert(k2.states[e] != MineState::Unknown);
        }
        lemma_tally_le(pm, pm2, n, 8);
    } else {
        let e1 = maybe_mine(k);
        let e2 = maybe_mine(k2);
        assert forall|j: int| 0 <= j < 8 && e2(#[trigger] nbr(n, j)) implies e1(nbr(n, j)) by {
            let e = nbr(n, j);
            if k.states[e] == MineState::KnownSafe {
                assert(k.states[e] != MineState::Unknown);
                assert(k2.states[e] != MineState::Unknown);
            }
        }
        lemma_tally_le(e2, e1, n, 8);
        assert forall|j: int| 0 <= j < 8 implies crate::grid::ind(e1(#[trigger] nbr(n, j)))
            == crate::grid::ind(pm(nbr(n, j))) + crate::grid::ind(pu(nbr(n, j))) by {
            assert(k.has(nbr(n, j)) <==> k.states.contains_key(nbr(n, j)));
        }
        lemma_tally_split(e1, pm, pu, n, 8);
        assert forall|j: int| 0 <= j < 8 implies crate::grid::ind(e2(#[trigger] nbr(n, j)))
            == crate::grid::ind(pm2(nbr(n, j))) + crate::grid::ind(pu2(nbr(n, j))) by {
            assert(k2.has(nbr(n, j)) <==> k2.states.contains_key(nbr(n, j)));
        }
        lemma_tally_split(e2, pm2, pu2, n, 8);
    }
    assert(k2.counts.contains_key(nbr(c, i)) && saturated(k2, nbr(c, i)));
}

/// Knowledge that propagation has exhausted contains every run of forced
/// commits that starts below it.
pub proof fn lemma_run_within(
    k: Knowledge,
    b: &GameBoard,
    run: Seq<(usize, usize)>,
    k2: Knowledge,
)
    requires
        k.wf(),
        k2.wf(),
        b.wf(),
        faithful(k, b),
        faithful(k2, b),
        is_run(k, b, run),
        knows_more(k2, k),
        closed(k2),
    ensures
        knows_more(k2, after(k, b, run)),
    decreases run.len(),
{
    if run.len() > 0 {
        let prev = after(k, b, run.drop_last());
        let c = cell(run.last());
        lemma_run_within(k, b, run.drop_last(), k2);
        lemma_run_faithful(k, b, run.drop_last());
        if k2.states[c] == MineState::Unknown {
            lemma_forced_persists(prev, k2, b, c);
            assert(false);
        }
        assert forall|d: (int, int)|
            after(k, b, run).has(d) && #[trigger] after(k, b, run).states[d]
                != MineState::Unknown implies k2.states[d] != MineState::Unknown by {
            if d != c {
                assert(prev.states[d] != MineState::Unknown);
            }
        }
    }
}

/// Faithful knowledge of one board is decided by which cells it
/// determines.
pub proof fn lemma_faithful_equal(k1: Knowledge, k2: Knowledge, b: &GameBoard)
    requires
        k1.wf(),
        k2.wf(),
        faithful(k1, b),
        faithful(k2, b),
        knows_more(k1, k2),
        knows_more(k2, k1),
    ensures
        k1 == k2,
{
    assert forall|c: (int, int)| k1.states.contains_key(c) implies k1.states[c] == k2.states[c] by {
        assert(k1.has(c));
        if k1.states[c] != MineState::Unknown {
            assert(k2.states[c] != MineState::Unknown);
        }
        if k2.states[c] != MineState::Unknown {
            assert(k1.states[c] != MineState::Unknown);
        }
    }
    assert forall|c: (int, int)| k1.states.contains_key(c) == k2.states.contains_key(c) by {
        assert(k1.has(c) <==> k1.states.contains_key(c));
        assert(k2.has(c) <==> k2.states.contains_key(c));
    }
    assert(k1.states =~= k2.states);
    assert forall|c: (int, int)| k1.counts.contains_key(c) == k2.counts.contains_key(c) by {
        if k1.counts.contains_key(c) {
            assert(k2.states[c] == MineState::KnownSafe);
        }
        if k2.counts.contains_key(c) {
            assert(k1.states[c] == MineState::KnownSafe);
        }
    }
    assert(k1.counts =~= k2.counts);
}

/// Propagation is confluent. Take two runs of commits from the same
/// knowledge, each cell decided by a saturated constraint at the moment it
/// is committed, in whatever order the cells are visited; if both go on
/// until no cell is decided any more, they end with the same knowledge.
pub proof fn lemma_propagation_confluent(
    k: Knowledge,
    b: &GameBoard,
    run1: Seq<(usize, usize)>,
    run2: Seq<(usize, usize)>,
)
    requires
        k.wf(),
        b.wf(),
        faithful(k, b),
        is_run(k, b, run1),
        is_run(k, b, run2),
        closed(after(k, b, run1)),
        closed(after(k, b, run2)),
    ensures
        after(k, b, run1) == after(k, b, run2),
{
    let k1 = after(k, b, run1);
    let k2 = after(k, b, run2);
    lemma_run_faithful(k, b, run1);
    lemma_run_faithful(k, b, run2);
    lemma_run_within(k, b, run1, k2);
    lemma_run_within(k, b, run2, k1);
    lemma_faithful_equal(k1, k2, b);
}

/// A solver at rest has left undetermined only what is undetermined: for
/// every cell of every border, a mine and a safe cell can both be carried
/// on to the whole border without breaking a constraint.
pub proof fn lemma_at_rest_is_undecided(
    k: Knowledge,
    borders: Seq<Vec<(usize, usize)>>,
    i: int,
    t: int,
)
    requires
        k.wf(),
        at_rest(k, borders),
        0 <= i < borders.len(),
        0 <= t < borders[i]@.len(),
    ensures
        extendable(k, rotate(borders[i]@, t), 0, true),
        extendable(k, rotate(borders[i]@, t), 0, false),
{
    let border = borders[i]@;
    let rot = rotate(border, t);
    let n = border.len() as int;
    lemma_rotate(border, t);
    assert forall|j: int| 0 <= j < rot.len() implies undetermined(k, cell(#[trigger] rot[j])) by {
        assert(frontier(k, cell(borders[i]@[turned_from(n, t, j)])));
    }
    assert forall|j1: int, j2: int| 0 <= j1 < j2 < border.len() implies #[trigger] border[j1]
        != #[trigger] border[j2] by {
        assert(borders[i]@[j1] == border[j1]);
        assert(borders[i]@[j2] == border[j2]);
    }
    assert(verdict(k, rot) is None);
    lemma_consistent_iff_extendable(k, rot, 0, true);
    lemma_consistent_iff_extendable(k, rot, 0, false);
}

/// The cells of which nothing is known.
pub open spec fn unknown_cells(k: Knowledge) -> Set<(int, int)> {
    Set::new(|c: (int, int)| undetermined(k, c))
}

/// Deduction ends. Every proved reveal takes one cell out of the
/// undetermined ones, of which there are finitely many, so a list of
/// proved reveals is no longer than the board has cells: rounds that each
/// reveal something cannot go on for ever.
pub proof fn lemma_reveals_are_bounded(k: Knowledge, b: &GameBoard, log: Seq<(usize, usize)>)
    requires
        k.wf(),
        justified(k, b, log),
    ensures
        unknown_cells(k).finite(),
        unknown_cells(after(k, b, log)).finite(),
        unknown_cells(after(k, b, log)).len() + log.len() == unknown_cells(k).len(),
        log.len() <= k.width * k.height,
    decreases log.len(),
{
    let all = cell_set(k.width, k.height);
    lemma_cell_set(k.width, k.height);
    assert(unknown_cells(k).subset_of(all));
    vstd::set_lib::lemma_len_subset(unknown_cells(k), all);
    if log.len() > 0 {
        lemma_reveals_are_bounded(k, b, log.drop_last());
        lemma_after_shape(k, b, log.drop_last());
        let prev = after(k, b, log.drop_last());
        let c = cell(log.last());
        assert(unknown_cells(prev).contains(c));
        assert(unknown_cells(after(k, b, log)) =~= unknown_cells(prev).remove(c));
    }
}

} // verus!
