//! The backtracking consistency search: can a supposition about one cell
//! of a border be carried on through the cells that follow it?

use vstd::prelude::*;
use crate::grid::cell;
use crate::session::{polarity, Knowledge, MineState, Session};
use crate::solutions::{extendable, lemma_consistent_iff_extendable, open_from};

verus! {

/// Whether the supposition "the cell at position `idx` of `border` has the
/// polarity `set_mine`" can be carried on.
///
/// Past the end of the border there is nothing left to suppose. A cell
/// that is already determined bears the supposition exactly when it agrees
/// with it, and ends the search. An undetermined cell takes the
/// supposition; every constraint around it must then still be satisfiable,
/// and the next cell of the border must bear one of the two polarities on
/// top of it.
pub open spec fn consistent(
    k: Knowledge,
    border: Seq<(usize, usize)>,
    idx: int,
    set_mine: bool,
) -> bool
    decreases border.len() - idx,
{
    if idx < 0 || idx >= border.len() {
        true
    } else {
        let c = cell(border[idx]);
        match k.states[c] {
            MineState::KnownMine => set_mine,
            MineState::KnownSafe => !set_mine,
            MineState::Unknown => {
                let k2 = k.with_state(c, polarity(set_mine));
                k2.valid_around(c) && (consistent(k2, border, idx + 1, false) || consistent(
                    k2,
                    border,
                    idx + 1,
                    true,
                ))
            },
        }
    }
}

/// Decides `consistent` for the session's knowledge by trying the
/// supposition out on the session itself and taking every step back: when
/// the search returns, each cell has the state and the constraint that it
/// had before. Where the cells from `idx` on are undetermined and each
/// listed once, the answer says whether the supposition can be carried on
/// to all of them without breaking a constraint.
pub fn check_consistent(
    session: &mut Session,
    idx: usize,
    border: &[(usize, usize)],
    set_mine: bool,
) -> (ok: bool)
    requires
        old(session).wf(),
        forall|i: int|
            idx <= i < border@.len() ==> old(session)@.has(cell(#[trigger] border@[i])),
    ensures
        final(session).wf(),
        final(session)@ == old(session)@,
        final(session).same(old(session)),
        ok == consistent(old(session)@, border@, idx as int, set_mine),
        idx < border@.len() && open_from(old(session)@, border@, idx as int) ==> ok == extendable(
            old(session)@,
            border@,
            idx as int,
            set_mine,
        ),
    decreases border@.len() - idx,
{
    if idx >= border.len() {
        proof {
            session.lemma_view_decides(old(session));
        }
        return true;
    }
    let (x, y) = border[idx];
    let ghost c = cell((x, y));
    let ghost k = session@;
    assert(k.has(cell(border@[idx as int])));
    assert(k.states.contains_key(c));
    match *session.mines.index_2d(x, y) {
        MineState::KnownMine => {
            proof {
                session.lemma_view_decides(old(session));
            }
            return set_mine;
        },
        MineState::KnownSafe => {
            proof {
                session.lemma_view_decides(old(session));
            }
            return !set_mine;
        },
        MineState::Unknown => {},
    }
    let valid = session.mark(x, y, set_mine);
    let ghost k2 = session@;
    let mut ok = false;
    if valid {
        if check_consistent(session, idx + 1, border, false) {
            ok = true;
        } else if check_consistent(session, idx + 1, border, true) {
            ok = true;
        }
    }
    assert(session@ == k2);
    session.unmark(x, y, set_mine);
    proof {
        assert(session@.states =~= k.states);
        assert(session@ == k);
        session.lemma_view_decides(old(session));
        if open_from(k, border@, idx as int) {
            lemma_consistent_iff_extendable(k, border@, idx as int, set_mine);
        }
    }
    ok
}

} // verus!
