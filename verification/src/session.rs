//! What the solver knows: the state of every cell and the constraint of
//! every revealed safe cell, kept in step with each other.

use vstd::prelude::*;
use crate::board::Outcome;
use crate::constraint::Constraint;
use crate::grid::{
    adjacent, candidate, cell, dir_of, ind, lemma_dir_of, lemma_tally_change, lemma_tally_range,
    nbr, surrounding, tally, Grid,
};

verus! {

/// What is known of one cell.
#[derive(Clone, Copy, Debug, PartialEq, Eq, Structural)]
pub enum MineState {
    Unknown,
    KnownMine,
    KnownSafe,
}

/// The state that stands for a polarity.
pub open spec fn polarity(mine: bool) -> MineState {
    if mine {
        MineState::KnownMine
    } else {
        MineState::KnownSafe
    }
}

/// The predicate "is a cell of the rectangle and has state `s`", for
/// tallies.
pub open spec fn in_state(
    width: int,
    height: int,
    states: Map<(int, int), MineState>,
    s: MineState,
) -> spec_fn((int, int)) -> bool {
    |c: (int, int)| 0 <= c.0 < width && 0 <= c.1 < height && states[c] == s
}

/// The mathematical content of a session: the state of every cell, and the
/// declared mine count of every cell that carries a constraint. How many
/// mines are confirmed around a constrained cell, and how many of its
/// neighbours are undetermined, follows from the states.
pub struct Knowledge {
    pub width: int,
    pub height: int,
    pub states: Map<(int, int), MineState>,
    pub counts: Map<(int, int), int>,
}

impl Knowledge {
    /// `c` is a cell of the board.
    pub open spec fn has(self, c: (int, int)) -> bool {
        0 <= c.0 < self.width && 0 <= c.1 < self.height
    }

    /// The number of neighbours of `c` in state `s`.
    pub open spec fn around(self, c: (int, int), s: MineState) -> int {
        tally(in_state(self.width, self.height, self.states, s), c, 8)
    }

    /// The board has a shape that coordinates can address, every cell of it
    /// has a state, and only cells known to be safe carry a constraint,
    /// with a count that eight neighbours can hold.
    pub open spec fn wf(self) -> bool {
        &&& 0 <= self.width <= usize::MAX
        &&& 0 <= self.height <= usize::MAX
        &&& forall|c: (int, int)| self.has(c) <==> #[trigger] self.states.contains_key(c)
        &&& forall|c: (int, int)| #[trigger]
            self.counts.contains_key(c) ==> {
                &&& self.has(c)
                &&& self.states[c] == MineState::KnownSafe
                &&& 0 <= self.counts[c] <= 8
            }
    }

    /// The constraint at `n` can still be met: the confirmed mines around
    /// `n` do not exceed its count, and the undetermined neighbours can
    /// make up the difference.
    pub open spec fn satisfied(self, n: (int, int)) -> bool {
        let m = self.around(n, MineState::KnownMine);
        m <= self.counts[n] <= m + self.around(n, MineState::Unknown)
    }

    /// Every constraint around `c` can still be met.
    pub open spec fn valid_around(self, c: (int, int)) -> bool {
        forall|i: int|
            0 <= i < 8 && self.counts.contains_key(#[trigger] nbr(c, i)) ==> self.satisfied(
                nbr(c, i),
            )
    }

    /// Every constraint on the board can still be met.
    pub open spec fn all_valid(self) -> bool {
        forall|n: (int, int)| #[trigger] self.counts.contains_key(n) ==> self.satisfied(n)
    }

    /// The same knowledge with cell `c` put in state `s`.
    pub open spec fn with_state(self, c: (int, int), s: MineState) -> Knowledge {
        Knowledge { states: self.states.insert(c, s), ..self }
    }

    /// The knowledge after `c` was revealed with the given outcome.
    pub open spec fn commit(self, c: (int, int), outcome: Outcome) -> Knowledge {
        match outcome {
            Outcome::Mine => self.with_state(c, MineState::KnownMine),
            Outcome::Safe(n) => Knowledge {
                states: self.states.insert(c, MineState::KnownSafe),
                counts: self.counts.insert(c, n as int),
                ..self
            },
        }
    }

    /// A board of the given shape of which nothing is known.
    pub open spec fn blank(width: int, height: int) -> Knowledge {
        Knowledge {
            width,
            height,
            states: Map::new(
                |c: (int, int)| 0 <= c.0 < width && 0 <= c.1 < height,
                |c: (int, int)| MineState::Unknown,
            ),
            counts: Map::empty(),
        }
    }

    /// Putting `c` in a new state changes the tallies around the cells
    /// adjacent to `c`, by what `c` contributes, and no others.
    pub proof fn lemma_around_with_state(self, c: (int, int), s_new: MineState, n: (int, int), s: MineState)
        requires
            self.has(c),
        ensures
            self.with_state(c, s_new).around(n, s) == self.around(n, s) + if adjacent(n, c) {
                ind(s_new == s) - ind(self.states[c] == s)
            } else {
                0
            },
            0 <= self.around(n, s) <= 8,
    {
        let p = in_state(self.width, self.height, self.states, s);
        let q = in_state(self.width, self.height, self.states.insert(c, s_new), s);
        assert forall|e: (int, int)| e != c implies #[trigger] p(e) == q(e) by {}
        lemma_tally_change(p, q, n, c, 8);
        lemma_dir_of(n, c);
        lemma_tally_range(p, n, 8);
    }
}

/// The solver's working state for one board.
pub struct Session {
    pub mines: Grid<MineState>,
    pub constraints: Grid<Option<Constraint>>,
}

impl View for Session {
    type V = Knowledge;

    open spec fn view(&self) -> Knowledge {
        Knowledge {
            width: self.mines.width as int,
            height: self.mines.height as int,
            states: Map::new(|c: (int, int)| self.mines.has(c), |c: (int, int)| self.mines.at(c)),
            counts: Map::new(
                |c: (int, int)| self.constraints.has(c) && self.constraints.at(c) is Some,
                |c: (int, int)| self.constraints.at(c).unwrap().count as int,
            ),
        }
    }
}

/// The constraint `k` after a neighbour moved between undetermined and the
/// polarity `mine`: `delta` is 1 for a move out of undetermined and -1 for
/// the move back.
pub open spec fn bumped(k: Option<Constraint>, mine: bool, delta: int) -> Option<Constraint> {
    match k {
        Some(k) => Some(
            Constraint {
                count: k.count,
                mines: (k.mines + if mine { delta } else { 0 }) as i8,
                unknown: (k.unknown - delta) as i8,
            },
        ),
        None => None,
    }
}

impl Session {
    /// Both grids are rectangles of the same shape.
    pub open spec fn shaped(&self) -> bool {
        &&& self.mines.wf()
        &&& self.constraints.wf()
        &&& self.mines.width == self.constraints.width
        &&& self.mines.height == self.constraints.height
    }

    /// The constraint at `c`, if there is one, holds the tallies of the
    /// states around `c`.
    pub open spec fn booked(&self, c: (int, int)) -> bool {
        self.constraints.at(c) matches Some(k) ==> {
            &&& k.mines == self@.around(c, MineState::KnownMine)
            &&& k.unknown == self@.around(c, MineState::Unknown)
        }
    }

    /// The grids are in step: every constraint sits on a cell known to be
    /// safe and holds the tallies of the states around it.
    pub open spec fn wf(&self) -> bool {
        &&& self.shaped()
        &&& self@.wf()
        &&& forall|c: (int, int)| self.mines.has(c) ==> #[trigger] self.booked(c)
    }

    /// Both sessions hold the same state and the same constraint in every
    /// cell.
    pub open spec fn same(&self, other: &Session) -> bool {
        self.mines.same(&other.mines) && self.constraints.same(&other.constraints)
    }

    /// Two sessions in step that stand for the same knowledge hold the
    /// same values cell by cell.
    pub proof fn lemma_view_decides(&self, other: &Session)
        requires
            self.wf(),
            other.wf(),
            self@ == other@,
        ensures
            self.same(other),
    {
        assert forall|d: (int, int)| self.mines.has(d) implies #[trigger] self.mines.at(d)
            == other.mines.at(d) by {
            assert(self@.states.contains_key(d));
            assert(other@.states.contains_key(d));
            assert(other.mines.has(d));
            assert(self@.states[d] == self.mines.at(d));
            assert(other@.states[d] == other.mines.at(d));
        }
        assert forall|d: (int, int)| self.constraints.has(d) implies #[trigger] self.constraints.at(
            d,
        ) == other.constraints.at(d) by {
            assert(self@.counts.contains_key(d) == other@.counts.contains_key(d));
            assert(self.booked(d));
            assert(other.booked(d));
            if self@.counts.contains_key(d) {
                assert(self@.counts[d] == other@.counts[d]);
            }
        }
    }

    /// A session for a board of the given shape, with every cell
    /// undetermined.
    pub fn new(width: usize, height: usize) -> (s: Session)
        ensures
            s.wf(),
            s@ == Knowledge::blank(width as int, height as int),
    {
        let s = Session {
            mines: Grid::new(width, height, MineState::Unknown),
            constraints: Grid::new(width, height, None),
        };
        proof {
            assert(s@.states =~= Knowledge::blank(width as int, height as int).states);
            assert(s@.counts =~= Knowledge::blank(width as int, height as int).counts);
        }
        s
    }

    /// The state of the cell at `(x, y)`; `None` off the board.
    pub fn state(&self, x: usize, y: usize) -> (r: Option<MineState>)
        requires
            self.shaped(),
        ensures
            r == if self@.has(cell((x, y))) {
                Some(self@.states[cell((x, y))])
            } else {
                None
            },
    {
        match self.mines.get_2d(x, y) {
            Some(s) => Some(*s),
            None => None,
        }
    }

    /// The constraint on the cell at `(x, y)`; `None` where there is none,
    /// and off the board.
    pub fn constraint(&self, x: usize, y: usize) -> (r: Option<Constraint>)
        requires
            self.shaped(),
        ensures
            r == if self@.has(cell((x, y))) {
                self.constraints.at(cell((x, y)))
            } else {
                None
            },
    {
        match self.constraints.get_2d(x, y) {
            Some(k) => *k,
            None => None,
        }
    }

    /// Counts the confirmed mines and the undetermined cells around
    /// `(x, y)`.
    pub fn census(&self, x: usize, y: usize) -> (r: (i8, i8))
        requires
            self.shaped(),
        ensures
            r.0 == self@.around(cell((x, y)), MineState::KnownMine),
            r.1 == self@.around(cell((x, y)), MineState::Unknown),
    {
        let ghost c = cell((x, y));
        let ghost pm = in_state(self@.width, self@.height, self@.states, MineState::KnownMine);
        let ghost pu = in_state(self@.width, self@.height, self@.states, MineState::Unknown);
        let around = surrounding(x, y);
        let mut mine_count: i8 = 0;
        let mut unknown: i8 = 0;
        let mut i: usize = 0;
        while i < 8
            invariant
                0 <= i <= 8,
                self.shaped(),
                c == cell((x, y)),
                pm == in_state(self@.width, self@.height, self@.states, MineState::KnownMine),
                pu == in_state(self@.width, self@.height, self@.states, MineState::Unknown),
                forall|j: int| 0 <= j < 8 ==> around[j] == candidate(x, y, j),
                mine_count == tally(pm, c, i as int),
                unknown == tally(pu, c, i as int),
            decreases 8 - i,
        {
            let (nx, ny) = around[i];
            proof {
                lemma_tally_range(pm, c, i as int);
                lemma_tally_range(pu, c, i as int);
                assert(tally(pm, c, i + 1) == tally(pm, c, i as int) + ind(pm(nbr(c, i as int))));
                assert(tally(pu, c, i + 1) == tally(pu, c, i as int) + ind(pu(nbr(c, i as int))));
            }
            match self.mines.get_2d(nx, ny) {
                Some(m) => {
                    assert(cell((nx, ny)) == nbr(c, i as int));
                    match *m {
                        MineState::KnownMine => {
                            mine_count = mine_count + 1;
                        },
                        MineState::KnownSafe => {},
                        MineState::Unknown => {
                            unknown = unknown + 1;
                        },
                    }
                },
                None => {
                    assert(!self@.has(nbr(c, i as int)));
                },
            }
            i += 1;
        }
        (mine_count, unknown)
    }

    /// Moves the cell at `(x, y)` between undetermined and the polarity
    /// `mine` and brings the constraints around it in step: `forward`
    /// takes the cell out of undetermined, otherwise it is put back. Says
    /// whether every constraint around the cell can still be met.
    fn transfer(&mut self, x: usize, y: usize, mine: bool, forward: bool) -> (valid: bool)
        requires
            old(self).wf(),
            old(self)@.has(cell((x, y))),
            !old(self)@.counts.contains_key(cell((x, y))),
            old(self)@.states[cell((x, y))] == if forward {
                MineState::Unknown
            } else {
                polarity(mine)
            },
        ensures
            final(self).wf(),
            final(self)@ == old(self)@.with_state(
                cell((x, y)),
                if forward {
                    polarity(mine)
                } else {
                    MineState::Unknown
                },
            ),
            valid == final(self)@.valid_around(cell((x, y))),
    {
        let ghost c = cell((x, y));
        let ghost before = *self;
        let ghost delta: int = if forward { 1 } else { -1 };
        let target = if forward {
            if mine {
                MineState::KnownMine
            } else {
                MineState::KnownSafe
            }
        } else {
            MineState::Unknown
        };
        let ghost after = before@.with_state(c, target);
        self.mines.set(x, y, target);
        let around = surrounding(x, y);
        let mut valid = true;
        let mut i: usize = 0;
        while i < 8
            invariant
                0 <= i <= 8,
                before.wf(),
                before@.has(c),
                c == cell((x, y)),
                delta == if forward { 1int } else { -1int },
                self.shaped(),
                self.mines.same_but(&before.mines, c),
                self.mines.at(c) == target,
                before@.states[c] == if forward { MineState::Unknown } else { polarity(mine) },
                target == if forward { polarity(mine) } else { MineState::Unknown },
                !before@.counts.contains_key(c),
                forall|j: int| 0 <= j < 8 ==> around[j] == candidate(x, y, j),
                forall|d: (int, int)|
                    self.constraints.has(d) ==> #[trigger] self.constraints.at(d) == if adjacent(c, d)
                        && dir_of(c, d) < i {
                        bumped(before.constraints.at(d), mine, delta)
                    } else {
                        before.constraints.at(d)
                    },
                valid == forall|j: int|
                    0 <= j < i && before@.counts.contains_key(#[trigger] nbr(c, j)) ==> bumped(
                        before.constraints.at(nbr(c, j)),
                        mine,
                        delta,
                    ).unwrap().is_valid(),
            decreases 8 - i,
        {
            let (nx, ny) = around[i];
            let ghost n = nbr(c, i as int);
            proof {
                lemma_dir_of(c, n);
            }
            if nx < self.constraints.width && ny < self.constraints.height {
                assert(cell((nx, ny)) == n);
                match *self.constraints.index_2d(nx, ny) {
                    Some(k) => {
                        proof {
                            assert(before.booked(n));
                            before@.lemma_around_with_state(c, target, n, MineState::KnownMine);
                            before@.lemma_around_with_state(c, target, n, MineState::Unknown);
                        }
                        let mut k2 = k;
                        if forward {
                            if mine {
                                k2.add_mine(1);
                            } else {
                                k2.add_safe(1);
                            }
                        } else {
                            if mine {
                                k2.add_mine(-1);
                            } else {
                                k2.add_safe(-1);
                            }
                        }
                        self.constraints.set(nx, ny, Some(k2));
                        valid = valid && k2.valid();
                        assert(Some(k2) == bumped(before.constraints.at(n), mine, delta));
                    },
                    None => {},
                }
            } else {
                assert(!before@.has(n));
            }
            i += 1;
            proof {
                assert forall|d: (int, int)| self.constraints.has(d) implies #[trigger] self.constraints.at(d)
                    == if adjacent(c, d) && dir_of(c, d) < i {
                    bumped(before.constraints.at(d), mine, delta)
                } else {
                    before.constraints.at(d)
                } by {
                    lemma_dir_of(c, d);
                }
            }
        }
        proof {
            assert(self@.states =~= after.states);
            assert(self@.counts =~= after.counts) by {
                assert forall|d: (int, int)| self@.counts.contains_key(d)
                    == after.counts.contains_key(d) by {
                    lemma_dir_of(c, d);
                }
                assert forall|d: (int, int)| self@.counts.contains_key(d) implies self@.counts[d]
                    == after.counts[d] by {
                    lemma_dir_of(c, d);
                }
            }
            assert(self@ == after);
            assert forall|d: (int, int)| self.mines.has(d) implies #[trigger] self.booked(d) by {
                lemma_dir_of(c, d);
                assert(before.booked(d));
                before@.lemma_around_with_state(c, target, d, MineState::KnownMine);
                before@.lemma_around_with_state(c, target, d, MineState::Unknown);
            }
            assert forall|j: int|
                0 <= j < 8 && self@.counts.contains_key(
                    #[trigger] nbr(c, j),
                ) implies (self@.satisfied(nbr(c, j)) <==> bumped(
                before.constraints.at(nbr(c, j)),
                mine,
                delta,
            ).unwrap().is_valid()) by {
                let n = nbr(c, j);
                lemma_dir_of(c, n);
                assert(self.booked(n));
            }
        }
        valid
    }

    /// Supposes that the undetermined cell at `(x, y)` has the polarity
    /// `mine`, and says whether every constraint around it can still be
    /// met.
    pub fn mark(&mut self, x: usize, y: usize, mine: bool) -> (valid: bool)
        requires
            old(self).wf(),
            old(self)@.has(cell((x, y))),
            old(self)@.states[cell((x, y))] == MineState::Unknown,
        ensures
            final(self).wf(),
            final(self)@ == old(self)@.with_state(cell((x, y)), polarity(mine)),
            valid == final(self)@.valid_around(cell((x, y))),
    {
        self.transfer(x, y, mine, true)
    }

    /// Takes back a supposition made by `mark`: the cell at `(x, y)`, which
    /// has the polarity `mine` and no constraint, is undetermined again.
    pub fn unmark(&mut self, x: usize, y: usize, mine: bool)
        requires
            old(self).wf(),
            old(self)@.has(cell((x, y))),
            old(self)@.states[cell((x, y))] == polarity(mine),
            !old(self)@.counts.contains_key(cell((x, y))),
        ensures
            final(self).wf(),
            final(self)@ == old(self)@.with_state(cell((x, y)), MineState::Unknown),
    {
        let _ = self.transfer(x, y, mine, false);
    }
}

} // verus!
