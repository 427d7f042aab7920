//! Grid addressing: the eight neighbour directions of a cell and a
//! rectangular, bounds-checked store of cells in row-major order.

use vstd::prelude::*;

verus! {

/// Horizontal step of neighbour direction `i`, for `i` in `0..8`.
pub open spec fn dx(i: int) -> int {
    if i == 0 || i == 3 || i == 5 {
        1
    } else if i == 1 || i == 6 {
        0
    } else {
        -1
    }
}

/// Vertical step of neighbour direction `i`, for `i` in `0..8`.
pub open spec fn dy(i: int) -> int {
    if i < 3 {
        1
    } else if i < 5 {
        0
    } else {
        -1
    }
}

/// The cell reached from `c` by one step in direction `i`.
pub open spec fn nbr(c: (int, int), i: int) -> (int, int) {
    (c.0 + dx(i), c.1 + dy(i))
}

/// Two distinct cells that touch by an edge or a corner.
pub open spec fn adjacent(a: (int, int), b: (int, int)) -> bool {
    a != b && -1 <= a.0 - b.0 <= 1 && -1 <= a.1 - b.1 <= 1
}

/// The direction `i` with `nbr(c, i) == d`, for a cell `d` adjacent to `c`.
pub open spec fn dir_of(c: (int, int), d: (int, int)) -> int {
    let ddx = d.0 - c.0;
    let ddy = d.1 - c.1;
    if ddy == 1 {
        1 - ddx
    } else if ddy == 0 {
        if ddx == 1 {
            3
        } else {
            4
        }
    } else {
        6 - ddx
    }
}

/// `dir_of` inverts `nbr` on the eight directions.
pub proof fn lemma_dir_of(c: (int, int), d: (int, int))
    ensures
        adjacent(c, d) ==> 0 <= dir_of(c, d) < 8 && nbr(c, dir_of(c, d)) == d,
        adjacent(c, d) == adjacent(d, c),
        forall|i: int| 0 <= i < 8 ==> (nbr(c, i) == d <==> adjacent(c, d) && dir_of(c, d) == i),
{
}

/// A coordinate taken as a mathematical integer pair.
pub open spec fn cell(c: (usize, usize)) -> (int, int) {
    (c.0 as int, c.1 as int)
}

/// One coordinate moved by `d`; a move that leaves `0..usize::MAX` lands on
/// `usize::MAX`, which no grid has as an index.
pub open spec fn shifted(a: usize, d: int) -> usize {
    if 0 <= a + d < usize::MAX {
        (a + d) as usize
    } else {
        usize::MAX
    }
}

/// The candidate neighbour of `(x, y)` in direction `i`. A candidate off
/// the low or high end of the coordinate range has `usize::MAX` in that
/// place, so a bounds test rejects it.
pub open spec fn candidate(x: usize, y: usize, i: int) -> (usize, usize) {
    (shifted(x, dx(i)), shifted(y, dy(i)))
}

/// The eight candidate neighbours of `(x, y)`, in direction order.
pub fn surrounding(x: usize, y: usize) -> (r: [(usize, usize); 8])
    ensures
        forall|i: int| 0 <= i < 8 ==> r[i] == candidate(x, y, i),
{
    let xp: usize = if x < usize::MAX { x + 1 } else { usize::MAX };
    let xm: usize = if x > 0 { x - 1 } else { usize::MAX };
    let yp: usize = if y < usize::MAX { y + 1 } else { usize::MAX };
    let ym: usize = if y > 0 { y - 1 } else { usize::MAX };
    [(xp, yp), (x, yp), (xm, yp), (xp, y), (xm, y), (xp, ym), (x, ym), (xm, ym)]
}

/// One for a true statement, zero for a false one.
pub open spec fn ind(b: bool) -> int {
    if b {
        1
    } else {
        0
    }
}

/// How many of the first `n` neighbour directions of `c` lead to a cell
/// that satisfies `p`.
pub open spec fn tally(p: spec_fn((int, int)) -> bool, c: (int, int), n: int) -> int
    decreases n,
{
    if n <= 0 {
        0
    } else {
        tally(p, c, n - 1) + ind(p(nbr(c, n - 1)))
    }
}

/// A tally over `n` directions lies between zero and `n`.
pub proof fn lemma_tally_range(p: spec_fn((int, int)) -> bool, c: (int, int), n: int)
    requires
        0 <= n,
    ensures
        0 <= tally(p, c, n) <= n,
    decreases n,
{
    if n > 0 {
        lemma_tally_range(p, c, n - 1);
    }
}

/// A tally does not shrink when the predicate is weakened.
pub proof fn lemma_tally_le(
    p: spec_fn((int, int)) -> bool,
    q: spec_fn((int, int)) -> bool,
    c: (int, int),
    n: int,
)
    requires
        forall|i: int| 0 <= i < n && p(#[trigger] nbr(c, i)) ==> q(nbr(c, i)),
    ensures
        tally(p, c, n) <= tally(q, c, n),
    decreases n,
{
    if n > 0 {
        lemma_tally_le(p, q, c, n - 1);
        assert(p(nbr(c, n - 1)) ==> q(nbr(c, n - 1)));
    }
}

/// Where `p` holds exactly when one of the exclusive `q` and `r` does, its
/// tally is the sum of theirs.
pub proof fn lemma_tally_split(
    p: spec_fn((int, int)) -> bool,
    q: spec_fn((int, int)) -> bool,
    r: spec_fn((int, int)) -> bool,
    c: (int, int),
    n: int,
)
    requires
        forall|i: int|
            0 <= i < n ==> ind(p(#[trigger] nbr(c, i))) == ind(q(nbr(c, i))) + ind(r(nbr(c, i))),
    ensures
        tally(p, c, n) == tally(q, c, n) + tally(r, c, n),
    decreases n,
{
    if n > 0 {
        lemma_tally_split(p, q, r, c, n - 1);
        assert(ind(p(nbr(c, n - 1))) == ind(q(nbr(c, n - 1))) + ind(r(nbr(c, n - 1))));
    }
}

/// Predicates that agree on the cells around `c` have the same tally
/// there.
pub proof fn lemma_tally_same(
    p: spec_fn((int, int)) -> bool,
    q: spec_fn((int, int)) -> bool,
    c: (int, int),
    n: int,
)
    requires
        forall|i: int| 0 <= i < n ==> p(#[trigger] nbr(c, i)) == q(nbr(c, i)),
    ensures
        tally(p, c, n) == tally(q, c, n),
    decreases n,
{
    if n > 0 {
        lemma_tally_same(p, q, c, n - 1);
        assert(p(nbr(c, n - 1)) == q(nbr(c, n - 1)));
    }
}

/// Two predicates that differ at most at the cell `d` have tallies that
/// differ only where `d` is among the directions counted, and then by what
/// `d` itself contributes.
pub proof fn lemma_tally_change(
    p: spec_fn((int, int)) -> bool,
    q: spec_fn((int, int)) -> bool,
    c: (int, int),
    d: (int, int),
    n: int,
)
    requires
        0 <= n <= 8,
        forall|e: (int, int)| e != d ==> #[trigger] p(e) == q(e),
    ensures
        tally(q, c, n) == tally(p, c, n) + if adjacent(c, d) && dir_of(c, d) < n {
            ind(q(d)) - ind(p(d))
        } else {
            0
        },
    decreases n,
{
    if n > 0 {
        lemma_tally_change(p, q, c, d, n - 1);
        lemma_dir_of(c, d);
        let e = nbr(c, n - 1);
        if e != d {
            assert(p(e) == q(e));
        }
    }
}

/// A rectangle of cells stored row by row.
pub struct Grid<T> {
    pub width: usize,
    pub height: usize,
    pub rows: Vec<Vec<T>>,
}

impl<T> Grid<T> {
    /// Every row is present and has the grid's width.
    pub open spec fn wf(&self) -> bool {
        &&& self.rows.len() == self.height
        &&& forall|y: int| 0 <= y < self.height ==> (#[trigger] self.rows[y]).len() == self.width
    }

    /// `c` is a cell of the grid.
    pub open spec fn has(&self, c: (int, int)) -> bool {
        0 <= c.0 < self.width && 0 <= c.1 < self.height
    }

    /// The value stored at cell `c`.
    pub open spec fn at(&self, c: (int, int)) -> T
        recommends
            self.has(c),
    {
        self.rows[c.1][c.0]
    }

    /// The value at `c`, or `None` off the grid.
    pub open spec fn lookup(&self, c: (int, int)) -> Option<T> {
        if self.has(c) {
            Some(self.at(c))
        } else {
            None
        }
    }

    /// Both grids have the same shape and agree on every cell but `c`.
    pub open spec fn same_but(&self, other: &Grid<T>, c: (int, int)) -> bool {
        &&& self.width == other.width
        &&& self.height == other.height
        &&& forall|d: (int, int)| self.has(d) && d != c ==> #[trigger] self.at(d) == other.at(d)
    }

    /// Both grids have the same shape and agree on every cell.
    pub open spec fn same(&self, other: &Grid<T>) -> bool {
        &&& self.width == other.width
        &&& self.height == other.height
        &&& forall|d: (int, int)| self.has(d) ==> #[trigger] self.at(d) == other.at(d)
    }

    /// Reads the cell at `(x, y)`; `None` when it lies off the grid.
    pub fn get_2d(&self, x: usize, y: usize) -> (r: Option<&T>)
        requires
            self.wf(),
        ensures
            r == match self.lookup(cell((x, y))) {
                Some(v) => Some(&v),
                None => None,
            },
    {
        if y < self.height && x < self.width {
            Some(&self.rows[y][x])
        } else {
            None
        }
    }

    /// Reads the cell at `(x, y)`, which the caller knows to be on the grid.
    pub fn index_2d(&self, x: usize, y: usize) -> (r: &T)
        requires
            self.wf(),
            self.has(cell((x, y))),
        ensures
            *r == self.at(cell((x, y))),
    {
        &self.rows[y][x]
    }

    /// Hands out the cell at `(x, y)` for writing; the grid keeps its shape
    /// and every other cell.
    pub fn index_2d_mut(&mut self, x: usize, y: usize) -> (r: &mut T)
        requires
            old(self).wf(),
            old(self).has(cell((x, y))),
        ensures
            *r == old(self).at(cell((x, y))),
            final(self).wf(),
            final(self).same_but(old(self), cell((x, y))),
            final(self).at(cell((x, y))) == *final(r),
    {
        &mut self.rows[y][x]
    }

    /// Hands out the cell at `(x, y)` for writing, or `None` off the grid,
    /// in which case the grid is left as it was.
    pub fn get_2d_mut(&mut self, x: usize, y: usize) -> (r: Option<&mut T>)
        requires
            old(self).wf(),
        ensures
            r is Some <==> old(self).has(cell((x, y))),
            final(self).wf(),
            final(self).same_but(old(self), cell((x, y))),
            match r {
                Some(p) => *p == old(self).at(cell((x, y))) && final(self).at(cell((x, y))) == *final(p),
                None => final(self).same(old(self)),
            },
    {
        if y < self.height && x < self.width {
            Some(&mut self.rows[y][x])
        } else {
            None
        }
    }
}

impl<T> Grid<T> {
    /// Takes rows as a grid. The width is the length of the first row;
    /// rows of another length are refused.
    pub fn from_rows(rows: Vec<Vec<T>>) -> (r: Option<Grid<T>>)
        ensures
            match r {
                Some(g) => {
                    &&& g.wf()
                    &&& g.rows == rows
                    &&& g.width == if rows@.len() > 0 {
                        rows@[0]@.len()
                    } else {
                        0
                    }
                },
                None => exists|y: int| 0 <= y < rows@.len() && (#[trigger] rows@[y])@.len() != rows@[0]@.len(),
            },
    {
        let height = rows.len();
        let width = if height > 0 {
            rows[0].len()
        } else {
            0
        };
        let mut y: usize = 0;
        while y < height
            invariant
                0 <= y <= height,
                height == rows@.len(),
                height > 0 ==> width == rows@[0]@.len(),
                forall|j: int| 0 <= j < y ==> (#[trigger] rows@[j])@.len() == width,
            decreases height - y,
        {
            if rows[y].len() != width {
                return None;
            }
            y += 1;
        }
        Some(Grid { width, height, rows })
    }
}

impl<T: Copy> Grid<T> {
    /// A grid of the given shape with `fill` in every cell.
    pub fn new(width: usize, height: usize, fill: T) -> (g: Grid<T>)
        ensures
            g.wf(),
            g.width == width,
            g.height == height,
            forall|c: (int, int)| g.has(c) ==> #[trigger] g.at(c) == fill,
    {
        let mut rows: Vec<Vec<T>> = Vec::new();
        let mut y: usize = 0;
        while y < height
            invariant
                y <= height,
                rows.len() == y,
                forall|j: int| 0 <= j < y ==> (#[trigger] rows[j]).len() == width,
                forall|j: int, i: int| 0 <= j < y && 0 <= i < width ==> #[trigger] rows[j][i] == fill,
            decreases height - y,
        {
            let mut row: Vec<T> = Vec::new();
            let mut x: usize = 0;
            while x < width
                invariant
                    x <= width,
                    row.len() == x,
                    forall|i: int| 0 <= i < x ==> #[trigger] row[i] == fill,
                decreases width - x,
            {
                row.push(fill);
                x += 1;
            }
            rows.push(row);
            y += 1;
        }
        Grid { width, height, rows }
    }

    /// Overwrites the cell at `(x, y)`, which the caller knows to be on the
    /// grid.
    pub fn set(&mut self, x: usize, y: usize, value: T)
        requires
            old(self).wf(),
            old(self).has(cell((x, y))),
        ensures
            final(self).wf(),
            final(self).same_but(old(self), cell((x, y))),
            final(self).at(cell((x, y))) == value,
    {
        self.rows[y][x] = value;
    }
}

/// The cells of a `w` by `h` rectangle.
pub open spec fn cell_set(w: int, h: int) -> Set<(int, int)> {
    Set::new(|c: (int, int)| 0 <= c.0 < w && 0 <= c.1 < h)
}

/// The first `w` cells of row `y`.
pub open spec fn row_set(w: int, y: int) -> Set<(int, int)> {
    Set::new(|c: (int, int)| 0 <= c.0 < w && c.1 == y)
}

proof fn lemma_row_set(w: int, y: int)
    requires
        0 <= w,
    ensures
        row_set(w, y).finite(),
        row_set(w, y).len() == w,
    decreases w,
{
    if w == 0 {
        assert(row_set(w, y) =~= Set::empty());
    } else {
        lemma_row_set(w - 1, y);
        assert(row_set(w, y) =~= row_set(w - 1, y).insert((w - 1, y)));
    }
}

/// A rectangle of cells is a finite set of `w * h` cells.
pub proof fn lemma_cell_set(w: int, h: int)
    requires
        0 <= w,
        0 <= h,
    ensures
        cell_set(w, h).finite(),
        cell_set(w, h).len() == w * h,
    decreases h,
{
    if h == 0 {
        assert(cell_set(w, h) =~= Set::empty());
        assert(w * h == 0) by (nonlinear_arith)
            requires
                h == 0,
        ;
    } else {
        lemma_cell_set(w, h - 1);
        lemma_row_set(w, h - 1);
        let below = cell_set(w, h - 1);
        let row = row_set(w, h - 1);
        assert(cell_set(w, h) =~= below.union(row));
        assert(below.disjoint(row));
        vstd::set_lib::lemma_set_disjoint_lens(below, row);
        assert(w * h == w * (h - 1) + w) by (nonlinear_arith);
    }
}

/// The cells of `g` that are not marked.
pub open spec fn unmarked(g: Grid<bool>) -> Set<(int, int)> {
    Set::new(|c: (int, int)| g.has(c) && !g.at(c))
}

/// The unmarked cells are finitely many, at most the whole grid.
pub proof fn lemma_unmarked_finite(g: Grid<bool>)
    ensures
        unmarked(g).finite(),
        unmarked(g).len() <= g.width * g.height,
{
    let all = cell_set(g.width as int, g.height as int);
    lemma_cell_set(g.width as int, g.height as int);
    assert(unmarked(g).subset_of(all));
    vstd::set_lib::lemma_len_subset(unmarked(g), all);
}

/// Marking one unmarked cell leaves one unmarked cell fewer.
pub proof fn lemma_mark(g: Grid<bool>, g2: Grid<bool>, c: (int, int))
    requires
        g.has(c),
        !g.at(c),
        g2.same_but(&g, c),
        g2.at(c),
    ensures
        unmarked(g2) == unmarked(g).remove(c),
        unmarked(g2).len() + 1 == unmarked(g).len(),
        unmarked(g2).finite(),
{
    lemma_unmarked_finite(g);
    assert(unmarked(g).contains(c));
    assert(unmarked(g2) =~= unmarked(g).remove(c));
}

} // verus!
