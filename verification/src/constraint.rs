//! The obligation that a revealed safe cell puts on its neighbourhood.

use vstd::prelude::*;

verus! {

/// What a revealed safe cell says about its eight neighbours: how many of
/// them are mines, how many of those are already confirmed, and how many
/// neighbours are still undetermined.
#[derive(Clone, Copy, Debug, PartialEq, Eq, Structural)]
pub struct Constraint {
    pub count: i8,
    pub mines: i8,
    pub unknown: i8,
}

impl Constraint {
    /// The confirmed mines do not exceed the declared count, and the
    /// undetermined neighbours can still make up the difference.
    pub open spec fn is_valid(self) -> bool {
        self.mines <= self.count <= self.mines + self.unknown
    }

    /// Every declared mine is confirmed: what is undetermined is safe.
    pub open spec fn is_saturated_safe(self) -> bool {
        self.count == self.mines
    }

    /// Every undetermined neighbour is needed to reach the declared count.
    pub open spec fn is_saturated_mined(self) -> bool {
        self.count == self.mines + self.unknown
    }

    pub fn new(count: i8, mines: i8, unknown: i8) -> (c: Self)
        ensures
            c == (Constraint { count, mines, unknown }),
    {
        Self { count, mines, unknown }
    }

    pub fn valid(self) -> (r: bool)
        ensures
            r == self.is_valid(),
    {
        let count: i16 = self.count as i16;
        let mines: i16 = self.mines as i16;
        let unknown: i16 = self.unknown as i16;
        mines <= count && count <= mines + unknown
    }

    pub fn remaining_safe(self) -> (r: bool)
        ensures
            r == self.is_saturated_safe(),
    {
        self.count == self.mines
    }

    pub fn remaining_mines(self) -> (r: bool)
        ensures
            r == self.is_saturated_mined(),
    {
        let count: i16 = self.count as i16;
        let mines: i16 = self.mines as i16;
        let unknown: i16 = self.unknown as i16;
        count == mines + unknown
    }

    /// Moves `delta` neighbours from undetermined to confirmed mine; a
    /// negative `delta` takes the move back.
    pub fn add_mine(&mut self, delta: i8)
        requires
            i8::MIN <= old(self).mines + delta <= i8::MAX,
            i8::MIN <= old(self).unknown - delta <= i8::MAX,
        ensures
            final(self).count == old(self).count,
            final(self).mines == old(self).mines + delta,
            final(self).unknown == old(self).unknown - delta,
    {
        self.mines = self.mines + delta;
        self.unknown = self.unknown - delta;
    }

    /// Moves `delta` neighbours from undetermined to known safe; a negative
    /// `delta` takes the move back.
    pub fn add_safe(&mut self, delta: i8)
        requires
            i8::MIN <= old(self).unknown - delta <= i8::MAX,
        ensures
            final(self).count == old(self).count,
            final(self).mines == old(self).mines,
            final(self).unknown == old(self).unknown - delta,
    {
        self.unknown = self.unknown - delta;
    }
}

} // verus!
