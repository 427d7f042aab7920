//! The board that is being solved: where the mines lie, what each cell
//! shows, and what has been revealed so far.

use vstd::prelude::*;
use crate::color::Color;
use crate::grid::{
    candidate, cell, cell_set, ind, lemma_cell_set, lemma_mark, lemma_tally_range,
    lemma_unmarked_finite, nbr, surrounding, tally, unmarked, Grid,
};
use crate::prng::{nth_draw, Prng};

verus! {

/// What a reveal reports: a mine, or a safe cell with the number of mines
/// among its neighbours.
#[derive(Clone, Copy, Debug, PartialEq, Eq, Structural)]
pub enum Outcome {
    Mine,
    Safe(u8),
}

/// Position of cell `c` when a grid of the given width is listed row by row.
pub open spec fn row_major(width: int, c: (int, int)) -> int {
    c.1 * width + c.0
}

/// `a` comes before `b` when cells are listed row by row.
pub open spec fn precedes(a: (int, int), b: (int, int)) -> bool {
    a.1 < b.1 || (a.1 == b.1 && a.0 < b.0)
}

/// `a` is looked at before `b` when a starting cell is chosen: the cells
/// after the first row come first, row by row, and the first row last.
pub open spec fn start_before(a: (int, int), b: (int, int)) -> bool {
    if (a.1 >= 1) == (b.1 >= 1) {
        precedes(a, b)
    } else {
        a.1 >= 1
    }
}

/// The predicate "is a cell of `g` and is marked in it", for tallies.
pub open spec fn marked(g: Grid<bool>) -> spec_fn((int, int)) -> bool {
    |c: (int, int)| g.has(c) && g.at(c)
}

/// The colour in which a count is shown: from pale yellow for one to red
/// for eight, white for anything else.
pub open spec fn count_color(count: u8) -> Color {
    match count {
        1 => Color(221, 208, 122),
        2 => Color(224, 177, 89),
        3 => Color(226, 161, 70),
        4 => Color(229, 129, 48),
        5 => Color(232, 102, 32),
        6 => Color(234, 69, 18),
        7 => Color(247, 25, 4),
        8 => Color(255, 0, 0),
        _ => Color(255, 255, 255),
    }
}

/// Whether a number drawn from the generator puts a mine in a cell: its
/// five low bits are at most six.
pub open spec fn draws_mine(v: u64) -> bool {
    v & 0b11111 <= 6
}

/// A board: the mines, the number that each cell shows, which cells have
/// been revealed, and how many have not.
pub struct GameBoard {
    pub mine: Grid<bool>,
    pub count: Grid<u8>,
    pub revealed: Grid<bool>,
    pub width: usize,
    pub height: usize,
    pub remaining: usize,
}

impl GameBoard {
    /// `c` is a cell of the board.
    pub open spec fn has(&self, c: (int, int)) -> bool {
        0 <= c.0 < self.width && 0 <= c.1 < self.height
    }

    /// The number of mines among the neighbours of `c`.
    pub open spec fn mines_around(&self, c: (int, int)) -> int {
        tally(marked(self.mine), c, 8)
    }

    /// The cells that have not been revealed.
    pub open spec fn unrevealed(&self) -> Set<(int, int)> {
        unmarked(self.revealed)
    }

    /// The three grids have the board's shape.
    pub open spec fn shaped(&self) -> bool {
        &&& self.mine.wf()
        &&& self.count.wf()
        &&& self.revealed.wf()
        &&& self.mine.width == self.width
        &&& self.mine.height == self.height
        &&& self.count.width == self.width
        &&& self.count.height == self.height
        &&& self.revealed.width == self.width
        &&& self.revealed.height == self.height
    }

    /// The board is rectangular, every cell shows the number of mines
    /// around it, and `remaining` is the number of unrevealed cells.
    pub open spec fn wf(&self) -> bool {
        &&& self.shaped()
        &&& forall|c: (int, int)| self.has(c) ==> #[trigger] self.count.at(c) == self.mines_around(c)
        &&& self.remaining == self.unrevealed().len()
    }

    /// What revealing `c` reports.
    pub open spec fn truth(&self, c: (int, int)) -> Outcome {
        if self.mine.at(c) {
            Outcome::Mine
        } else {
            Outcome::Safe(self.count.at(c))
        }
    }

    /// This board is `before` with the cell `c` revealed: the layout is the
    /// same, `c` is marked, and `remaining` went down if `c` was new.
    pub open spec fn reveals(&self, before: &GameBoard, c: (int, int)) -> bool {
        &&& self.width == before.width
        &&& self.height == before.height
        &&& self.mine == before.mine
        &&& self.count == before.count
        &&& self.revealed.same_but(&before.revealed, c)
        &&& self.revealed.at(c)
        &&& self.remaining == before.remaining - ind(!before.revealed.at(c))
    }

    /// A cell the solver may start from: no mine, and no mine around it.
    pub open spec fn is_start(&self, c: (int, int)) -> bool {
        self.has(c) && self.count.at(c) == 0 && !self.mine.at(c)
    }

    /// The board has a cell to start from.
    pub open spec fn can_start(&self) -> bool {
        exists|c: (int, int)| self.is_start(c)
    }

    /// Nothing on the board has been revealed.
    pub open spec fn untouched(&self) -> bool {
        forall|c: (int, int)| self.has(c) ==> !#[trigger] self.revealed.at(c)
    }

    /// A board with the given mines, nothing revealed.
    pub fn from_layout(mine: Grid<bool>) -> (board: GameBoard)
        requires
            mine.wf(),
            mine.width * mine.height <= usize::MAX,
        ensures
            board.wf(),
            board.mine == mine,
            board.width == mine.width,
            board.height == mine.height,
            board.remaining == mine.width * mine.height,
            board.untouched(),
    {
        let width = mine.width;
        let height = mine.height;
        let mut count: Grid<u8> = Grid::new(width, height, 0);
        let mut y: usize = 0;
        while y < height
            invariant
                0 <= y <= height,
                mine.wf(),
                count.wf(),
                width == mine.width,
                height == mine.height,
                count.width == width,
                count.height == height,
                forall|c: (int, int)|
                    mine.has(c) && c.1 < y ==> #[trigger] count.at(c) == tally(marked(mine), c, 8),
            decreases height - y,
        {
            let mut x: usize = 0;
            while x < width
                invariant
                    0 <= y < height,
                    0 <= x <= width,
                    mine.wf(),
                    count.wf(),
                    width == mine.width,
                    height == mine.height,
                    count.width == width,
                    count.height == height,
                    forall|c: (int, int)|
                        mine.has(c) && (c.1 < y || (c.1 == y && c.0 < x)) ==> #[trigger] count.at(c)
                            == tally(marked(mine), c, 8),
                decreases width - x,
            {
                let n = count_around(&mine, x, y);
                count.set(x, y, n);
                x += 1;
            }
            y += 1;
        }
        let revealed: Grid<bool> = Grid::new(width, height, false);
        proof {
            lemma_cell_set(width as int, height as int);
            assert(unmarked(revealed) =~= cell_set(width as int, height as int));
        }
        GameBoard { mine, count, revealed, width, height, remaining: width * height }
    }

    /// A board with mines where `rows` says so, nothing revealed; `None`
    /// where the rows differ in length or the board has more cells than can
    /// be counted.
    pub fn from_mines(rows: Vec<Vec<bool>>) -> (r: Option<GameBoard>)
        ensures
            match r {
                Some(board) => {
                    &&& board.wf()
                    &&& board.mine.rows == rows
                    &&& board.height == rows@.len()
                    &&& board.width == if rows@.len() > 0 {
                        rows@[0]@.len()
                    } else {
                        0
                    }
                    &&& board.untouched()
                },
                None => {
                    ||| exists|y: int|
                        0 <= y < rows@.len() && (#[trigger] rows@[y])@.len() != rows@[0]@.len()
                    ||| rows@.len() > 0 && rows@[0]@.len() * rows@.len() > usize::MAX
                },
            },
    {
        match Grid::from_rows(rows) {
            Some(mine) => match mine.width.checked_mul(mine.height) {
                Some(_) => Some(GameBoard::from_layout(mine)),
                None => None,
            },
            None => None,
        }
    }

    /// Lays out a board from the generator: one number is drawn per cell,
    /// row by row, and the cell gets a mine where the five low bits of its
    /// number are at most six.
    pub fn new(width: usize, height: usize, rng: Prng) -> (board: GameBoard)
        requires
            width * height <= usize::MAX,
        ensures
            board.wf(),
            board.width == width,
            board.height == height,
            board.remaining == width * height,
            board.untouched(),
            forall|c: (int, int)|
                board.has(c) ==> #[trigger] board.mine.at(c) == draws_mine(
                    nth_draw(rng.0, row_major(width as int, c) + 1),
                ),
    {
        let ghost seed = rng.0;
        let mut rng = rng;
        let mut mine: Grid<bool> = Grid::new(width, height, false);
        let ghost mut drawn: int = 0;
        let mut y: usize = 0;
        while y < height
            invariant
                0 <= y <= height,
                mine.wf(),
                mine.width == width,
                mine.height == height,
                drawn == y * width,
                rng.0 == nth_draw(seed, drawn),
                forall|c: (int, int)|
                    mine.has(c) && c.1 < y ==> #[trigger] mine.at(c) == draws_mine(
                        nth_draw(seed, row_major(width as int, c) + 1),
                    ),
            decreases height - y,
        {
            let mut x: usize = 0;
            while x < width
                invariant
                    0 <= y < height,
                    0 <= x <= width,
                    mine.wf(),
                    mine.width == width,
                    mine.height == height,
                    drawn == y * width + x,
                    rng.0 == nth_draw(seed, drawn),
                    forall|c: (int, int)|
                        mine.has(c) && (c.1 < y || (c.1 == y && c.0 < x)) ==> #[trigger] mine.at(c)
                            == draws_mine(nth_draw(seed, row_major(width as int, c) + 1)),
                decreases width - x,
            {
                let v = rng.next();
                proof {
                    lemma_row_major(width as int, y as int);
                    assert(v == nth_draw(seed, drawn + 1));
                    drawn = drawn + 1;
                }
                mine.set(x, y, v & 0b11111 <= 6);
                x += 1;
            }
            proof {
                lemma_row_major(width as int, y as int);
            }
            y += 1;
        }
        GameBoard::from_layout(mine)
    }

    /// Marks `(x, y)` as revealed and reports what it holds. A cell that was
    /// revealed before reports the same again and is not counted twice.
    pub fn query(&mut self, x: usize, y: usize) -> (r: Outcome)
        requires
            old(self).wf(),
            old(self).has(cell((x, y))),
        ensures
            final(self).wf(),
            final(self).reveals(old(self), cell((x, y))),
            r == old(self).truth(cell((x, y))),
    {
        let ghost c = cell((x, y));
        if !*self.revealed.index_2d(x, y) {
            proof {
                lemma_unmarked_finite(self.revealed);
                assert(self.unrevealed().contains(c));
            }
            self.remaining = self.remaining - 1;
            self.revealed.set(x, y, true);
            proof {
                lemma_mark(old(self).revealed, self.revealed, c);
            }
        } else {
            proof {
                assert(self.unrevealed() =~= old(self).unrevealed());
            }
        }
        if *self.mine.index_2d(x, y) {
            Outcome::Mine
        } else {
            Outcome::Safe(*self.count.index_2d(x, y))
        }
    }

    /// Whether the board holds at `(x, y)` what `mine` assumes: the test to
    /// make before a reveal on that assumption.
    pub fn confirms(&self, x: usize, y: usize, mine: bool) -> (r: bool)
        requires
            self.shaped(),
            self.has(cell((x, y))),
        ensures
            r == (self.mine.at(cell((x, y))) == mine),
    {
        *self.mine.index_2d(x, y) == mine
    }

    /// Reveals `(x, y)` on the assumption `mine`, which the caller has
    /// made sure of: the board holds there what is assumed.
    pub fn test(&mut self, x: usize, y: usize, mine: bool) -> (r: Outcome)
        requires
            old(self).wf(),
            old(self).has(cell((x, y))),
            old(self).mine.at(cell((x, y))) == mine,
        ensures
            final(self).wf(),
            final(self).reveals(old(self), cell((x, y))),
            r == old(self).truth(cell((x, y))),
            (r is Mine) == mine,
    {
        self.query(x, y)
    }

    /// The colour in which a count is shown.
    pub fn count_to_color(count: u8) -> (c: Color)
        ensures
            c == count_color(count),
    {
        match count {
            1 => Color(221, 208, 122),
            2 => Color(224, 177, 89),
            3 => Color(226, 161, 70),
            4 => Color(229, 129, 48),
            5 => Color(232, 102, 32),
            6 => Color(234, 69, 18),
            7 => Color(247, 25, 4),
            8 => Color(255, 0, 0),
            _ => Color(255, 255, 255),
        }
    }

    /// Every coordinate of the board, row by row.
    pub fn all_cells(&self) -> (r: Vec<(usize, usize)>)
        ensures
            r@.len() == self.width * self.height,
            forall|c: (int, int)|
                self.has(c) ==> {
                    &&& 0 <= #[trigger] row_major(self.width as int, c) < r@.len()
                    &&& cell(r@[row_major(self.width as int, c)]) == c
                },
    {
        let mut r: Vec<(usize, usize)> = Vec::new();
        let mut y: usize = 0;
        while y < self.height
            invariant
                y <= self.height,
                r@.len() == y * self.width,
                forall|c: (int, int)|
                    self.has(c) && c.1 < y ==> {
                        &&& 0 <= #[trigger] row_major(self.width as int, c) < r@.len()
                        &&& cell(r@[row_major(self.width as int, c)]) == c
                    },
            decreases self.height - y,
        {
            let mut x: usize = 0;
            while x < self.width
                invariant
                    y < self.height,
                    x <= self.width,
                    r@.len() == y * self.width + x,
                    forall|c: (int, int)|
                        self.has(c) && (c.1 < y || (c.1 == y && c.0 < x)) ==> {
                            &&& 0 <= #[trigger] row_major(self.width as int, c) < r@.len()
                            &&& cell(r@[row_major(self.width as int, c)]) == c
                        },
                decreases self.width - x,
            {
                proof {
                    lemma_row_major(self.width as int, y as int);
                }
                r.push((x, y));
                x += 1;
            }
            proof {
                lemma_row_major(self.width as int, y as int);
            }
            y += 1;
        }
        proof {
            lemma_row_major(self.width as int, y as int);
        }
        r
    }

    /// Looks for a cell to start from. The cells after the first row are
    /// looked at first, row by row, and the first row last; the first cell
    /// found that holds no mine and has none around it is returned.
    fn find_start(&self) -> (r: Option<(usize, usize)>)
        requires
            self.shaped(),
        ensures
            match r {
                Some(s) => {
                    &&& self.is_start(cell(s))
                    &&& forall|c: (int, int)| #[trigger]
                        self.is_start(c) ==> !start_before(c, cell(s))
                },
                None => forall|c: (int, int)| !#[trigger] self.is_start(c),
            },
    {
        if self.height == 0 {
            return None;
        }
        let mut y: usize = 1;
        while y < self.height
            invariant
                self.shaped(),
                1 <= y <= self.height,
                forall|c: (int, int)| #[trigger] self.is_start(c) && c.1 >= 1 ==> c.1 >= y,
            decreases self.height - y,
        {
            let mut x: usize = 0;
            while x < self.width
                invariant
                    self.shaped(),
                    1 <= y < self.height,
                    x <= self.width,
                    forall|c: (int, int)|
                        #[trigger] self.is_start(c) && c.1 >= 1 ==> c.1 > y || (c.1 == y && c.0
                            >= x),
                decreases self.width - x,
            {
                if *self.count.index_2d(x, y) == 0 && !*self.mine.index_2d(x, y) {
                    return Some((x, y));
                }
                x += 1;
            }
            y += 1;
        }
        let mut x: usize = 0;
        while x < self.width
            invariant
                self.shaped(),
                0 < self.height,
                x <= self.width,
                forall|c: (int, int)| #[trigger] self.is_start(c) ==> c.1 == 0 && c.0 >= x,
            decreases self.width - x,
        {
            if *self.count.index_2d(x, 0) == 0 && !*self.mine.index_2d(x, 0) {
                return Some((x, 0));
            }
            x += 1;
        }
        None
    }

    /// Whether the board has a cell to start from.
    pub fn has_start(&self) -> (r: bool)
        requires
            self.shaped(),
        ensures
            r == self.can_start(),
    {
        let found = self.find_start();
        proof {
            if let Some(s) = found {
                assert(self.is_start(cell(s)));
            }
        }
        found.is_some()
    }

    /// The cell to start from, on a board that has one: a cell that holds
    /// no mine and has none around it. The cells after the first row are
    /// looked at first, row by row, and the first row last; the first cell
    /// found is returned.
    pub fn initial(&self) -> (r: (usize, usize))
        requires
            self.shaped(),
            self.can_start(),
        ensures
            self.is_start(cell(r)),
            forall|c: (int, int)| #[trigger] self.is_start(c) ==> !start_before(c, cell(r)),
    {
        match self.find_start() {
            Some(start) => start,
            None => {
                proof {
                    let c = choose|c: (int, int)| self.is_start(c);
                    assert(self.is_start(c));
                }
                (0, 0)
            },
        }
    }
}

/// Counts the marked cells around `(x, y)`.
pub fn count_around(mine: &Grid<bool>, x: usize, y: usize) -> (r: u8)
    requires
        mine.wf(),
    ensures
        r == tally(marked(*mine), cell((x, y)), 8),
{
    let ghost c = cell((x, y));
    let ghost p = marked(*mine);
    let around = surrounding(x, y);
    let mut count: u8 = 0;
    let mut i: usize = 0;
    while i < 8
        invariant
            0 <= i <= 8,
            mine.wf(),
            c == cell((x, y)),
            p == marked(*mine),
            forall|j: int| 0 <= j < 8 ==> around[j] == candidate(x, y, j),
            count == tally(p, c, i as int),
        decreases 8 - i,
    {
        let (nx, ny) = around[i];
        proof {
            lemma_tally_range(p, c, i as int);
            assert(tally(p, c, i + 1) == tally(p, c, i as int) + ind(p(nbr(c, i as int))));
        }
        match mine.get_2d(nx, ny) {
            Some(m) => {
                assert(cell((nx, ny)) == nbr(c, i as int));
                if *m {
                    count = count + 1;
                }
            },
            None => {
                assert(!mine.has(nbr(c, i as int)));
            },
        }
        i += 1;
    }
    count
}

/// Row `y` of a grid of width `w` starts at position `y * w`, and its
/// cells follow one by one.
pub proof fn lemma_row_major(w: int, y: int)
    requires
        0 <= w,
        0 <= y,
    ensures
        (y + 1) * w == y * w + w,
        0 <= y * w,
        y * w == w * y,
        forall|x: int| #[trigger] row_major(w, (x, y)) == y * w + x,
{
    assert((y + 1) * w == y * w + w) by (nonlinear_arith);
    assert(y * w == w * y) by (nonlinear_arith);
    assert(0 <= y * w) by (nonlinear_arith)
        requires
            0 <= w,
            0 <= y,
    ;
}

} // verus!
