//! How what the solver knows relates to the board it is solving, and what
//! follows from that relation.

use vstd::prelude::*;
use crate::board::{marked, GameBoard};
use crate::grid::{
    adjacent, cell, lemma_dir_of, lemma_tally_change, lemma_tally_le, lemma_tally_split, nbr,
};
use crate::search::consistent;
use crate::session::{in_state, polarity, Knowledge, MineState, Session};

verus! {

/// What is known is true of the board: a cell held to be a mine is one, a
/// cell held to be safe is safe, and every constraint declares the number
/// that the board shows.
pub open spec fn sound(k: Knowledge, b: &GameBoard) -> bool {
    &&& k.width == b.width
    &&& k.height == b.height
    &&& forall|c: (int, int)|
        k.has(c) && #[trigger] k.states[c] == MineState::KnownMine ==> b.mine.at(c)
    &&& forall|c: (int, int)|
        k.has(c) && #[trigger] k.states[c] == MineState::KnownSafe ==> !b.mine.at(c)
    &&& forall|c: (int, int)| #[trigger] k.counts.contains_key(c) ==> k.counts[c] == b.count.at(c)
}

/// The knowledge is sound, and every cell known to be safe carries its
/// constraint: this is what reveals alone lead to.
pub open spec fn faithful(k: Knowledge, b: &GameBoard) -> bool {
    &&& sound(k, b)
    &&& forall|c: (int, int)|
        k.has(c) && #[trigger] k.states[c] == MineState::KnownSafe ==> k.counts.contains_key(c)
}

/// The knowledge is that of a solver between two commits on this board:
/// it is faithful, and the determined cells are exactly the revealed ones.
pub open spec fn in_step(k: Knowledge, b: &GameBoard) -> bool {
    &&& faithful(k, b)
    &&& forall|c: (int, int)|
        k.has(c) ==> (#[trigger] k.states[c] != MineState::Unknown) == b.revealed.at(c)
}

/// The predicate "is a cell of the rectangle and is a confirmed mine or
/// undetermined", for tallies.
pub open spec fn maybe_mine(k: Knowledge) -> spec_fn((int, int)) -> bool {
    |c: (int, int)| k.has(c) && k.states[c] != MineState::KnownSafe
}

/// Around any cell, the board's mines lie between the confirmed mines and
/// the confirmed mines together with the undetermined cells.
pub proof fn lemma_sound_bounds(k: Knowledge, b: &GameBoard, n: (int, int))
    requires
        k.wf(),
        b.wf(),
        sound(k, b),
    ensures
        k.around(n, MineState::KnownMine) <= b.mines_around(n),
        b.mines_around(n) <= k.around(n, MineState::KnownMine) + k.around(n, MineState::Unknown),
{
    let pm = in_state(k.width, k.height, k.states, MineState::KnownMine);
    let pu = in_state(k.width, k.height, k.states, MineState::Unknown);
    let either = maybe_mine(k);
    let t = marked(b.mine);
    assert forall|i: int| 0 <= i < 8 && pm(#[trigger] nbr(n, i)) implies t(nbr(n, i)) by {}
    lemma_tally_le(pm, t, n, 8);
    assert forall|i: int| 0 <= i < 8 && t(#[trigger] nbr(n, i)) implies either(nbr(n, i)) by {
        assert(k.states.contains_key(nbr(n, i)));
    }
    lemma_tally_le(t, either, n, 8);
    lemma_tally_split(either, pm, pu, n, 8);
}

/// Sound knowledge of a well-formed board breaks no constraint.
pub proof fn lemma_sound_is_valid(k: Knowledge, b: &GameBoard)
    requires
        k.wf(),
        b.wf(),
        sound(k, b),
    ensures
        k.all_valid(),
{
    assert forall|n: (int, int)| #[trigger] k.counts.contains_key(n) implies k.satisfied(n) by {
        lemma_sound_bounds(k, b, n);
    }
}

/// In a session whose knowledge is sound, every constraint as stored has
/// its confirmed mines within its count, and its count within reach of the
/// undetermined neighbours.
pub proof fn lemma_constraints_hold(s: &Session, b: &GameBoard)
    requires
        s.wf(),
        b.wf(),
        sound(s@, b),
    ensures
        forall|c: (int, int)|
            s.constraints.has(c) ==> (#[trigger] s.constraints.at(c) matches Some(k)
                ==> k.is_valid()),
{
    lemma_sound_is_valid(s@, b);
    assert forall|c: (int, int)| s.constraints.has(c) implies (#[trigger] s.constraints.at(
        c,
    ) matches Some(k) ==> k.is_valid()) by {
        if s.constraints.at(c) is Some {
            assert(s@.counts.contains_key(c));
            assert(s.booked(c));
            assert(s@.satisfied(c));
        }
    }
}

/// Supposing of an undetermined cell what the board holds there keeps the
/// knowledge sound.
pub proof fn lemma_sound_with_truth(k: Knowledge, b: &GameBoard, c: (int, int))
    requires
        k.wf(),
        sound(k, b),
        k.has(c),
        k.states[c] == MineState::Unknown,
    ensures
        k.with_state(c, polarity(b.mine.at(c))).wf(),
        sound(k.with_state(c, polarity(b.mine.at(c))), b),
{
    let k2 = k.with_state(c, polarity(b.mine.at(c)));
    assert forall|d: (int, int)| k2.has(d) <==> #[trigger] k2.states.contains_key(d) by {
        assert(k.has(d) <==> k.states.contains_key(d));
    }
}

/// The board's own layout always passes the consistency search: from
/// sound knowledge, supposing of the cell at `idx` what the board holds
/// there is consistent. So a supposition that the search refutes is false
/// of the board.
pub proof fn lemma_truth_is_consistent(
    k: Knowledge,
    b: &GameBoard,
    border: Seq<(usize, usize)>,
    idx: int,
)
    requires
        k.wf(),
        b.wf(),
        sound(k, b),
        0 <= idx < border.len(),
        forall|i: int| idx <= i < border.len() ==> k.has(cell(#[trigger] border[i])),
    ensures
        consistent(k, border, idx, b.mine.at(cell(border[idx]))),
    decreases border.len() - idx,
{
    let c = cell(border[idx]);
    let t = b.mine.at(c);
    assert(k.has(c));
    if k.states[c] == MineState::Unknown {
        let k2 = k.with_state(c, polarity(t));
        lemma_sound_with_truth(k, b, c);
        lemma_sound_is_valid(k2, b);
        assert(k2.valid_around(c));
        if idx + 1 < border.len() {
            lemma_truth_is_consistent(k2, b, border, idx + 1);
        } else {
            assert(consistent(k2, border, idx + 1, false));
        }
        assert(consistent(k2, border, idx + 1, false) || consistent(k2, border, idx + 1, true));
    }
}

/// A saturated constraint decides its undetermined neighbours: where sound
/// knowledge has all the mines of the constraint at `n` confirmed, the
/// undetermined cell `c` next to it holds no mine; where the constraint
/// needs every undetermined neighbour, `c` holds one.
pub proof fn lemma_saturated_decides(k: Knowledge, b: &GameBoard, n: (int, int), c: (int, int))
    requires
        k.wf(),
        b.wf(),
        sound(k, b),
        k.counts.contains_key(n),
        adjacent(n, c),
        k.has(c),
        k.states[c] == MineState::Unknown,
    ensures
        k.counts[n] == k.around(n, MineState::KnownMine) ==> !b.mine.at(c),
        k.counts[n] == k.around(n, MineState::KnownMine) + k.around(n, MineState::Unknown)
            ==> b.mine.at(c),
{
    let pm = in_state(k.width, k.height, k.states, MineState::KnownMine);
    let pu = in_state(k.width, k.height, k.states, MineState::Unknown);
    let either = maybe_mine(k);
    let t = marked(b.mine);
    lemma_dir_of(n, c);
    lemma_sound_bounds(k, b, n);
    if b.mine.at(c) {
        // Without `c` the board's mines around `n` still cover the confirmed ones.
        let t2 = |e: (int, int)| t(e) && e != c;
        assert forall|e: (int, int)| e != c implies #[trigger] t2(e) == t(e) by {}
        lemma_tally_change(t2, t, n, c, 8);
        assert forall|i: int| 0 <= i < 8 && pm(#[trigger] nbr(n, i)) implies t2(nbr(n, i)) by {}
        lemma_tally_le(pm, t2, n, 8);
    } else {
        // Without `c` the cells that may hold a mine still cover the board's mines.
        let e2 = |e: (int, int)| either(e) && e != c;
        assert forall|e: (int, int)| e != c implies #[trigger] e2(e) == either(e) by {}
        lemma_tally_change(e2, either, n, c, 8);
        assert forall|i: int| 0 <= i < 8 && t(#[trigger] nbr(n, i)) implies e2(nbr(n, i)) by {
            assert(k.states.contains_key(nbr(n, i)));
        }
        lemma_tally_le(t, e2, n, 8);
        lemma_tally_split(either, pm, pu, n, 8);
    }
}


/// No cell of a well-formed board shows more than eight.
pub proof fn lemma_count_range(b: &GameBoard)
    requires
        b.wf(),
    ensures
        forall|d: (int, int)| b.has(d) ==> #[trigger] b.count.at(d) <= 8,
{
    assert forall|d: (int, int)| b.has(d) implies #[trigger] b.count.at(d) <= 8 by {
        crate::grid::lemma_tally_range(marked(b.mine), d, 8);
    }
}

/// A solver that knows nothing is in step with a board on which nothing
/// has been revealed.
pub proof fn lemma_blank_in_step(b: &GameBoard)
    requires
        b.shaped(),
        b.untouched(),
    ensures
        in_step(Knowledge::blank(b.width as int, b.height as int), b),
        Knowledge::blank(b.width as int, b.height as int).wf(),
{
}

} // verus!
