//! Border extraction: the undetermined cells that touch a constraint,
//! split into the clusters that shared constraints hold together.

use vstd::prelude::*;
use crate::board::precedes;
use crate::grid::{
    adjacent, candidate, cell, dir_of, lemma_dir_of, lemma_mark, lemma_unmarked_finite, nbr,
    surrounding, unmarked, Grid,
};
use crate::session::{Knowledge, MineState, Session};

verus! {

/// `c` is a cell of the board of which nothing is known yet.
pub open spec fn undetermined(k: Knowledge, c: (int, int)) -> bool {
    k.has(c) && k.states[c] == MineState::Unknown
}

/// `c` is an undetermined cell next to at least one constraint.
pub open spec fn frontier(k: Knowledge, c: (int, int)) -> bool {
    undetermined(k, c) && exists|i: int| 0 <= i < 8 && k.counts.contains_key(#[trigger] nbr(c, i))
}

/// `a` and `b` are undetermined cells next to one and the same constraint.
pub open spec fn linked(k: Knowledge, a: (int, int), b: (int, int)) -> bool {
    undetermined(k, a) && undetermined(k, b) && exists|n: (int, int)| #[trigger]
        k.counts.contains_key(n) && adjacent(n, a) && adjacent(n, b)
}

/// A chain of `n` links leads from `a` to `b`.
pub open spec fn chained(k: Knowledge, a: (int, int), b: (int, int), n: nat) -> bool
    decreases n,
{
    if n == 0 {
        a == b
    } else {
        exists|m: (int, int)| #[trigger] linked(k, m, b) && chained(k, a, m, (n - 1) as nat)
    }
}

/// Some chain of links leads from `a` to `b`.
pub open spec fn joined(k: Knowledge, a: (int, int), b: (int, int)) -> bool {
    exists|n: nat| #[trigger] chained(k, a, b, n)
}

/// One more link makes a longer chain.
pub proof fn lemma_joined_step(k: Knowledge, a: (int, int), m: (int, int), b: (int, int))
    requires
        joined(k, a, m),
        linked(k, m, b),
    ensures
        joined(k, a, b),
{
    let n = choose|n: nat| #[trigger] chained(k, a, m, n);
    assert(chained(k, a, b, n + 1));
}

/// `c` is one of the cells listed in `border`.
pub open spec fn in_border(border: Seq<(usize, usize)>, c: (int, int)) -> bool {
    exists|j: int| 0 <= j < border.len() && cell(#[trigger] border[j]) == c
}

/// No marked cell is linked to an unmarked one.
pub open spec fn link_closed(k: Knowledge, marks: Grid<bool>) -> bool {
    forall|a: (int, int), b: (int, int)|
        marks.at(a) && #[trigger] linked(k, a, b) ==> marks.at(b)
}

/// What holds while a border grows from its seed: the marks are those set
/// before plus the border's cells; the border lists frontier cells that
/// were not marked before, each once; what waits on the stack is in the
/// border; and a chain of links leads from the seed to every cell.
pub open spec fn growing(
    k: Knowledge,
    before: Grid<bool>,
    marks: Grid<bool>,
    border: Seq<(usize, usize)>,
    stack: Seq<(usize, usize)>,
) -> bool {
    &&& marks.wf()
    &&& before.wf()
    &&& marks.width == k.width
    &&& marks.height == k.height
    &&& before.width == k.width
    &&& before.height == k.height
    &&& forall|c: (int, int)|
        k.has(c) ==> #[trigger] marks.at(c) == (before.at(c) || in_border(border, c))
    &&& forall|j: int|
        0 <= j < border.len() ==> frontier(k, cell(#[trigger] border[j])) && !before.at(
            cell(border[j]),
        )
    &&& forall|j1: int, j2: int|
        0 <= j1 < j2 < border.len() ==> #[trigger] border[j1] != #[trigger] border[j2]
    &&& forall|s: int| 0 <= s < stack.len() ==> in_border(border, cell(#[trigger] stack[s]))
    &&& forall|j: int|
        0 <= j < border.len() ==> joined(k, cell(border[0]), cell(#[trigger] border[j]))
}

/// A place off every board, for "no cell".
pub open spec fn nowhere() -> (int, int) {
    (-1, -1)
}

/// Every border cell other than `u` that no longer waits on the stack has
/// all the cells linked to it in the border.
pub open spec fn settled(
    k: Knowledge,
    border: Seq<(usize, usize)>,
    stack: Seq<(usize, usize)>,
    u: (int, int),
) -> bool {
    forall|j: int, b: (int, int)|
        0 <= j < border.len() && cell(#[trigger] border[j]) != u && !in_border(
            stack,
            cell(border[j]),
        ) && #[trigger] linked(k, cell(border[j]), b) ==> in_border(border, b)
}

/// `s` continues `t`: it starts with the elements of `t`.
pub open spec fn extends(s: Seq<(usize, usize)>, t: Seq<(usize, usize)>) -> bool {
    t.len() <= s.len() && forall|j: int| 0 <= j < t.len() ==> #[trigger] s[j] == t[j]
}

/// A cell listed in a sequence is listed in every continuation of it.
pub proof fn lemma_in_border_extends(s: Seq<(usize, usize)>, t: Seq<(usize, usize)>, c: (int, int))
    requires
        extends(s, t),
        in_border(t, c),
    ensures
        in_border(s, c),
{
    let j = choose|j: int| 0 <= j < t.len() && cell(#[trigger] t[j]) == c;
    assert(cell(s[j]) == c);
}

/// Whether the cell at `(x, y)` is undetermined and next to a constraint.
pub fn is_frontier(session: &Session, x: usize, y: usize) -> (r: bool)
    requires
        session.wf(),
    ensures
        r == frontier(session@, cell((x, y))),
{
    let ghost c = cell((x, y));
    let ghost k = session@;
    match session.state(x, y) {
        Some(MineState::Unknown) => {},
        _ => {
            return false;
        },
    }
    let around = surrounding(x, y);
    let mut i: usize = 0;
    while i < 8
        invariant
            0 <= i <= 8,
            session.wf(),
            k == session@,
            c == cell((x, y)),
            undetermined(k, c),
            forall|j: int| 0 <= j < 8 ==> around[j] == candidate(x, y, j),
            forall|j: int| 0 <= j < i ==> !k.counts.contains_key(#[trigger] nbr(c, j)),
        decreases 8 - i,
    {
        let (nx, ny) = around[i];
        if session.constraint(nx, ny).is_some() {
            assert(cell((nx, ny)) == nbr(c, i as int));
            assert(k.counts.contains_key(nbr(c, i as int)));
            return true;
        }
        assert(!k.counts.contains_key(nbr(c, i as int)));
        i += 1;
    }
    false
}

/// Takes into the border every undetermined cell around the constrained
/// cell `(nx, ny)` that is not marked yet. The constrained cell lies next
/// to `u`, a cell of the border.
fn visit_around(
    session: &Session,
    marks: &mut Grid<bool>,
    border: &mut Vec<(usize, usize)>,
    stack: &mut Vec<(usize, usize)>,
    Ghost(before): Ghost<Grid<bool>>,
    Ghost(u): Ghost<(int, int)>,
    nx: usize,
    ny: usize,
)
    requires
        session.wf(),
        growing(session@, before, *old(marks), old(border)@, old(stack)@),
        settled(session@, old(border)@, old(stack)@, u),
        link_closed(session@, before),
        in_border(old(border)@, u),
        session@.counts.contains_key(cell((nx, ny))),
        adjacent(cell((nx, ny)), u),
    ensures
        growing(session@, before, *final(marks), final(border)@, final(stack)@),
        settled(session@, final(border)@, final(stack)@, u),
        extends(final(border)@, old(border)@),
        extends(final(stack)@, old(stack)@),
        unmarked(*final(marks)).len() + final(stack)@.len() == unmarked(*old(marks)).len() + old(
            stack,
        )@.len(),
        forall|j: int|
            0 <= j < 8 && undetermined(session@, #[trigger] nbr(cell((nx, ny)), j)) ==> in_border(
                final(border)@,
                nbr(cell((nx, ny)), j),
            ),
{
    let ghost k = session@;
    let ghost n = cell((nx, ny));
    let around = surrounding(nx, ny);
    let mut j: usize = 0;
    while j < 8
        invariant
            0 <= j <= 8,
            session.wf(),
            k == session@,
            n == cell((nx, ny)),
            k.counts.contains_key(n),
            adjacent(n, u),
            growing(k, before, *marks, border@, stack@),
            settled(k, border@, stack@, u),
            link_closed(k, before),
            in_border(border@, u),
            extends(border@, old(border)@),
            extends(stack@, old(stack)@),
            unmarked(*marks).len() + stack@.len() == unmarked(*old(marks)).len() + old(stack)@.len(),
            forall|i: int| 0 <= i < 8 ==> around[i] == candidate(nx, ny, i),
            forall|i: int|
                0 <= i < j && undetermined(k, #[trigger] nbr(n, i)) ==> in_border(
                    border@,
                    nbr(n, i),
                ),
        decreases 8 - j,
    {
        let (vx, vy) = around[j];
        let ghost v = nbr(n, j as int);
        proof {
            lemma_dir_of(n, v);
        }
        if let Some(MineState::Unknown) = session.state(vx, vy) {
            assert(cell((vx, vy)) == v);
            assert(undetermined(k, v));
            if !*marks.index_2d(vx, vy) {
                let ghost marks0 = *marks;
                let ghost border0 = border@;
                let ghost stack0 = stack@;
                marks.set(vx, vy, true);
                border.push((vx, vy));
                stack.push((vx, vy));
                proof {
                    lemma_mark(marks0, *marks, v);
                    assert(cell(border@[border0.len() as int]) == v);
                    assert(cell(stack@[stack0.len() as int]) == v);
                    assert(extends(border@, border0));
                    assert(extends(stack@, stack0));
                    assert(!in_border(border0, v));
                    assert(frontier(k, v)) by {
                        lemma_dir_of(v, n);
                        assert(k.counts.contains_key(nbr(v, dir_of(v, n))));
                    }
                    assert forall|c: (int, int)| k.has(c) implies #[trigger] marks.at(c) == (
                    before.at(c) || in_border(border@, c)) by {
                        if c == v {
                        } else {
                            assert(marks.at(c) == marks0.at(c));
                            if in_border(border0, c) {
                                lemma_in_border_extends(border@, border0, c);
                            }
                            if in_border(border@, c) {
                                let i = choose|i: int|
                                    0 <= i < border@.len() && cell(#[trigger] border@[i]) == c;
                                assert(cell(border0[i]) == c);
                            }
                        }
                    }
                    assert forall|s: int| 0 <= s < stack@.len() implies in_border(
                        border@,
                        cell(#[trigger] stack@[s]),
                    ) by {
                        if s < stack0.len() {
                            assert(in_border(border0, cell(stack0[s])));
                            lemma_in_border_extends(border@, border0, cell(stack0[s]));
                        }
                    }
                    assert forall|i: int, b: (int, int)|
                        0 <= i < border@.len() && cell(#[trigger] border@[i]) != u && !in_border(
                            stack@,
                            cell(border@[i]),
                        ) && #[trigger] linked(k, cell(border@[i]), b) implies in_border(
                        border@,
                        b,
                    ) by {
                        if i < border0.len() {
                            let a = cell(border0[i]);
                            if in_border(stack0, a) {
                                lemma_in_border_extends(stack@, stack0, a);
                            }
                            assert(in_border(border0, b));
                            lemma_in_border_extends(border@, border0, b);
                        }
                    }
                    lemma_in_border_extends(border@, border0, u);
                    assert forall|i: int| 0 <= i < border@.len() implies joined(
                        k,
                        cell(border@[0]),
                        cell(#[trigger] border@[i]),
                    ) by {
                        let i0 = choose|i: int|
                            0 <= i < border0.len() && cell(#[trigger] border0[i]) == u;
                        assert(border@[0] == border0[0]);
                        if i < border0.len() {
                            assert(joined(k, cell(border0[0]), cell(border0[i])));
                        } else {
                            assert(joined(k, cell(border0[0]), cell(border0[i0])));
                            assert(frontier(k, cell(border0[i0])));
                            assert(k.counts.contains_key(n) && adjacent(n, u) && adjacent(n, v));
                            assert(linked(k, u, v));
                            lemma_joined_step(k, cell(border0[0]), u, v);
                        }
                    }
                    assert forall|i: int|
                        0 <= i < j + 1 && undetermined(k, #[trigger] nbr(n, i)) implies in_border(
                        border@,
                        nbr(n, i),
                    ) by {
                        if i < j {
                            lemma_in_border_extends(border@, border0, nbr(n, i));
                        }
                    }
                }
            } else {
                proof {
                    // A cell marked before this border began would have
                    // drawn `u` in with it.
                    assert(linked(k, v, u)) by {
                        let i0 = choose|i: int|
                            0 <= i < border@.len() && cell(#[trigger] border@[i]) == u;
                        assert(frontier(k, cell(border@[i0])));
                        assert(k.counts.contains_key(n) && adjacent(n, v) && adjacent(n, u));
                    }
                    if before.at(v) {
                        assert(before.at(u));
                        let i0 = choose|i: int|
                            0 <= i < border@.len() && cell(#[trigger] border@[i]) == u;
                        assert(!before.at(cell(border@[i0])));
                    }
                    assert(marks.at(v));
                    assert(in_border(border@, v));
                }
            }
        } else {
            assert(!undetermined(k, v));
        }
        j += 1;
    }
}

/// Takes into the border every undetermined cell that shares a constraint
/// with the border cell `(ux, uy)` and is not marked yet.
fn expand(
    session: &Session,
    marks: &mut Grid<bool>,
    border: &mut Vec<(usize, usize)>,
    stack: &mut Vec<(usize, usize)>,
    Ghost(before): Ghost<Grid<bool>>,
    ux: usize,
    uy: usize,
)
    requires
        session.wf(),
        growing(session@, before, *old(marks), old(border)@, old(stack)@),
        settled(session@, old(border)@, old(stack)@, cell((ux, uy))),
        link_closed(session@, before),
        in_border(old(border)@, cell((ux, uy))),
    ensures
        growing(session@, before, *final(marks), final(border)@, final(stack)@),
        settled(session@, final(border)@, final(stack)@, nowhere()),
        extends(final(border)@, old(border)@),
        extends(final(stack)@, old(stack)@),
        unmarked(*final(marks)).len() + final(stack)@.len() == unmarked(*old(marks)).len() + old(
            stack,
        )@.len(),
{
    let ghost k = session@;
    let ghost u = cell((ux, uy));
    let around = surrounding(ux, uy);
    let mut i: usize = 0;
    while i < 8
        invariant
            0 <= i <= 8,
            session.wf(),
            k == session@,
            u == cell((ux, uy)),
            growing(k, before, *marks, border@, stack@),
            settled(k, border@, stack@, u),
            link_closed(k, before),
            in_border(border@, u),
            extends(border@, old(border)@),
            extends(stack@, old(stack)@),
            unmarked(*marks).len() + stack@.len() == unmarked(*old(marks)).len() + old(stack)@.len(),
            forall|j: int| 0 <= j < 8 ==> around[j] == candidate(ux, uy, j),
            forall|i2: int, j: int|
                0 <= i2 < i && 0 <= j < 8 && k.counts.contains_key(#[trigger] nbr(u, i2))
                    && undetermined(k, #[trigger] nbr(nbr(u, i2), j)) ==> in_border(
                    border@,
                    nbr(nbr(u, i2), j),
                ),
        decreases 8 - i,
    {
        let (nx, ny) = around[i];
        let ghost n = nbr(u, i as int);
        let ghost border0 = border@;
        proof {
            lemma_dir_of(u, n);
            lemma_dir_of(n, u);
        }
        if session.constraint(nx, ny).is_some() {
            assert(cell((nx, ny)) == n);
            assert(k.counts.contains_key(n));
            visit_around(session, marks, border, stack, Ghost(before), Ghost(u), nx, ny);
            proof {
                lemma_in_border_extends(border@, border0, u);
                assert forall|i2: int, j: int|
                    0 <= i2 < i + 1 && 0 <= j < 8 && k.counts.contains_key(#[trigger] nbr(u, i2))
                        && undetermined(k, #[trigger] nbr(nbr(u, i2), j)) implies in_border(
                    border@,
                    nbr(nbr(u, i2), j),
                ) by {
                    if i2 < i {
                        lemma_in_border_extends(border@, border0, nbr(nbr(u, i2), j));
                    }
                }
            }
        } else {
            assert(!k.counts.contains_key(n));
        }
        i += 1;
    }
    proof {
        assert forall|j: int, b: (int, int)|
            0 <= j < border@.len() && cell(#[trigger] border@[j]) != nowhere() && !in_border(
                stack@,
                cell(border@[j]),
            ) && #[trigger] linked(k, cell(border@[j]), b) implies in_border(border@, b) by {
            let a = cell(border@[j]);
            if a == u {
                let n = choose|n: (int, int)| #[trigger]
                    k.counts.contains_key(n) && adjacent(n, a) && adjacent(n, b);
                lemma_dir_of(u, n);
                lemma_dir_of(n, u);
                lemma_dir_of(n, b);
                let i2 = dir_of(u, n);
                let j2 = dir_of(n, b);
                assert(nbr(u, i2) == n);
                assert(nbr(nbr(u, i2), j2) == b);
            }
        }
    }
}

/// Grows the border of the frontier cell `(x, y)`: the cell itself and
/// every undetermined cell that a chain of shared constraints joins to it.
/// Each cell taken is marked.
fn grow_border(session: &Session, marks: &mut Grid<bool>, x: usize, y: usize) -> (border: Vec<
    (usize, usize),
>)
    requires
        session.wf(),
        old(marks).wf(),
        old(marks).width == session@.width,
        old(marks).height == session@.height,
        frontier(session@, cell((x, y))),
        !old(marks).at(cell((x, y))),
        link_closed(session@, *old(marks)),
    ensures
        growing(session@, *old(marks), *final(marks), border@, Seq::empty()),
        settled(session@, border@, Seq::empty(), nowhere()),
        link_closed(session@, *final(marks)),
        border@.len() > 0,
        border@[0] == (x, y),
{
    let ghost k = session@;
    let ghost before = *marks;
    let ghost seed = cell((x, y));
    let mut border: Vec<(usize, usize)> = Vec::new();
    let mut stack: Vec<(usize, usize)> = Vec::new();
    marks.set(x, y, true);
    border.push((x, y));
    stack.push((x, y));
    proof {
        assert(cell(border@[0]) == seed);
        assert(cell(stack@[0]) == seed);
        assert forall|c: (int, int)| k.has(c) implies #[trigger] marks.at(c) == (before.at(c)
            || in_border(border@, c)) by {
            if c != seed {
                assert(marks.at(c) == before.at(c));
                if in_border(border@, c) {
                    let i = choose|i: int| 0 <= i < border@.len() && cell(#[trigger] border@[i]) == c;
                }
            }
        }
        assert(in_border(border@, cell(stack@[0])));
        assert(in_border(stack@, seed));
        assert(chained(k, seed, seed, 0));
        lemma_unmarked_finite(*marks);
    }
    while stack.len() > 0
        invariant
            session.wf(),
            k == session@,
            before == *old(marks),
            growing(k, before, *marks, border@, stack@),
            settled(k, border@, stack@, nowhere()),
            link_closed(k, before),
            border@.len() > 0,
            border@[0] == (x, y),
            unmarked(*marks).finite(),
        decreases unmarked(*marks).len() + stack@.len(),
    {
        let ghost stack0 = stack@;
        let (ux, uy) = stack.pop().unwrap();
        let ghost u = cell((ux, uy));
        proof {
            assert(stack0[stack0.len() - 1] == (ux, uy));
            assert(in_border(border@, u));
            assert(extends(stack0, stack@));
            assert forall|j: int, b: (int, int)|
                0 <= j < border@.len() && cell(#[trigger] border@[j]) != u && !in_border(
                    stack@,
                    cell(border@[j]),
                ) && #[trigger] linked(k, cell(border@[j]), b) implies in_border(border@, b) by {
                let a = cell(border@[j]);
                if in_border(stack0, a) {
                    let s = choose|s: int| 0 <= s < stack0.len() && cell(#[trigger] stack0[s]) == a;
                    assert(s < stack@.len());
                    assert(cell(stack@[s]) == a);
                }
            }
        }
        expand(session, marks, &mut border, &mut stack, Ghost(before), ux, uy);
        proof {
            lemma_unmarked_finite(*marks);
        }
    }
    proof {
        assert(stack@ =~= Seq::empty());
        assert forall|a: (int, int), b: (int, int)|
            marks.at(a) && #[trigger] linked(k, a, b) implies marks.at(b) by {
            if before.at(a) {
                assert(before.at(b));
            } else {
                let j = choose|j: int| 0 <= j < border@.len() && cell(#[trigger] border@[j]) == a;
                assert(!in_border(stack@, a));
                assert(in_border(border@, b));
            }
        }
    }
    border
}

/// The borders split the frontier: they list frontier cells only, every
/// frontier cell is listed, no cell is listed twice, and no constraint
/// has cells of two different borders next to it.
pub open spec fn is_partition(k: Knowledge, borders: Seq<Vec<(usize, usize)>>) -> bool {
    &&& forall|i: int, j: int|
        0 <= i < borders.len() && 0 <= j < borders[i]@.len() ==> frontier(
            k,
            cell(#[trigger] borders[i]@[j]),
        )
    &&& forall|c: (int, int)| #[trigger]
        frontier(k, c) ==> exists|i: int|
            0 <= i < borders.len() && in_border(#[trigger] borders[i]@, c)
    &&& forall|i1: int, j1: int, i2: int, j2: int|
        0 <= i1 < borders.len() && 0 <= j1 < borders[i1]@.len() && 0 <= i2 < borders.len() && 0
            <= j2 < borders[i2]@.len() && #[trigger] borders[i1]@[j1]
            == #[trigger] borders[i2]@[j2] ==> i1 == i2 && j1 == j2
    &&& forall|n: (int, int), i1: int, j1: int, i2: int, j2: int|
        #![trigger k.counts.contains_key(n), borders[i1]@[j1], borders[i2]@[j2]]
        k.counts.contains_key(n) && 0 <= i1 < borders.len() && 0 <= j1 < borders[i1]@.len() && 0
            <= i2 < borders.len() && 0 <= j2 < borders[i2]@.len() && adjacent(
            n,
            cell(borders[i1]@[j1]),
        ) && adjacent(n, cell(borders[i2]@[j2])) ==> i1 == i2
}

/// Every border holds with it each cell that is linked to one of its own.
pub open spec fn link_complete(k: Knowledge, borders: Seq<Vec<(usize, usize)>>) -> bool {
    forall|i: int, j: int, b: (int, int)|
        0 <= i < borders.len() && 0 <= j < borders[i]@.len() && #[trigger] linked(
            k,
            cell(#[trigger] borders[i]@[j]),
            b,
        ) ==> in_border(borders[i]@, b)
}

/// Every border hangs together: a chain of links leads from its first cell
/// to each of its cells.
pub open spec fn each_joined(k: Knowledge, borders: Seq<Vec<(usize, usize)>>) -> bool {
    forall|i: int, j: int|
        0 <= i < borders.len() && 0 <= j < borders[i]@.len() ==> joined(
            k,
            cell(borders[i]@[0]),
            cell(#[trigger] borders[i]@[j]),
        )
}

/// Every border begins with the first of its cells in row-by-row order,
/// and of two borders of one size the one that begins earlier comes first.
pub open spec fn seed_ordered(borders: Seq<Vec<(usize, usize)>>) -> bool {
    &&& forall|i: int, j: int|
        0 <= i < borders.len() && 0 < j < borders[i]@.len() ==> precedes(
            cell(borders[i]@[0]),
            cell(#[trigger] borders[i]@[j]),
        )
    &&& forall|i1: int, i2: int|
        0 <= i1 < i2 < borders.len() && (#[trigger] borders[i1])@.len() == (
        #[trigger] borders[i2])@.len() ==> precedes(cell(borders[i1]@[0]), cell(borders[i2]@[0]))
}

/// No border is empty, and a smaller border comes before a larger one.
pub open spec fn sorted_by_size(borders: Seq<Vec<(usize, usize)>>) -> bool {
    &&& forall|i: int| 0 <= i < borders.len() ==> (#[trigger] borders[i])@.len() > 0
    &&& forall|i1: int, i2: int|
        0 <= i1 < i2 < borders.len() ==> (#[trigger] borders[i1])@.len() <= (
        #[trigger] borders[i2])@.len()
}

/// `borders` are the borders of the knowledge `k`: they split the
/// frontier; each is one cluster of it, whole and hanging together; a
/// smaller one comes before a larger one; and each begins with the first
/// of its cells in row-by-row order, which also orders borders of one
/// size.
pub open spec fn are_borders(k: Knowledge, borders: Seq<Vec<(usize, usize)>>) -> bool {
    &&& is_partition(k, borders)
    &&& link_complete(k, borders)
    &&& each_joined(k, borders)
    &&& sorted_by_size(borders)
    &&& seed_ordered(borders)
}

/// What holds of the borders found so far: the marked cells are exactly
/// the cells listed, each listed once and each a frontier cell, and every
/// border is complete under links.
pub open spec fn clustered(k: Knowledge, marks: Grid<bool>, borders: Seq<Vec<(usize, usize)>>) -> bool {
    &&& marks.wf()
    &&& marks.width == k.width
    &&& marks.height == k.height
    &&& link_closed(k, marks)
    &&& forall|i: int, j: int|
        0 <= i < borders.len() && 0 <= j < borders[i]@.len() ==> frontier(
            k,
            cell(#[trigger] borders[i]@[j]),
        ) && marks.at(cell(borders[i]@[j]))
    &&& forall|c: (int, int)|
        k.has(c) && #[trigger] marks.at(c) ==> exists|i: int|
            0 <= i < borders.len() && in_border(#[trigger] borders[i]@, c)
    &&& forall|i1: int, j1: int, i2: int, j2: int|
        0 <= i1 < borders.len() && 0 <= j1 < borders[i1]@.len() && 0 <= i2 < borders.len() && 0
            <= j2 < borders[i2]@.len() && #[trigger] borders[i1]@[j1]
            == #[trigger] borders[i2]@[j2] ==> i1 == i2 && j1 == j2
    &&& link_complete(k, borders)
    &&& each_joined(k, borders)
}

/// A border grown from an unmarked seed joins the borders found before
/// it, at any place in their list.
proof fn lemma_clustered_insert(
    k: Knowledge,
    marks: Grid<bool>,
    marks2: Grid<bool>,
    borders: Seq<Vec<(usize, usize)>>,
    p: int,
    border: Vec<(usize, usize)>,
)
    requires
        clustered(k, marks, borders),
        growing(k, marks, marks2, border@, Seq::empty()),
        settled(k, border@, Seq::empty(), nowhere()),
        link_closed(k, marks2),
        0 <= p <= borders.len(),
    ensures
        clustered(k, marks2, borders.insert(p, border)),
{
    let bs = borders.insert(p, border);
    borders.insert_ensures(p, border);
    let src = |i: int| if i < p { i } else { i - 1 };
    assert forall|i: int| 0 <= i < bs.len() && i != p implies 0 <= src(i) < borders.len()
        && #[trigger] bs[i] == borders[src(i)] by {
        if i > p {
            assert(bs[(i - 1) + 1] == borders[i - 1]);
        }
    }
    assert forall|i: int, j: int| 0 <= i < bs.len() && 0 <= j < bs[i]@.len() implies frontier(
        k,
        cell(#[trigger] bs[i]@[j]),
    ) && marks2.at(cell(bs[i]@[j])) by {
        if i == p {
            assert(in_border(border@, cell(border@[j])));
        } else {
            assert(bs[i] == borders[src(i)]);
            let c = cell(borders[src(i)]@[j]);
            assert(marks.at(c));
            assert(marks2.at(c) == (marks.at(c) || in_border(border@, c)));
        }
    }
    assert forall|c: (int, int)| k.has(c) && #[trigger] marks2.at(c) implies exists|i: int|
        0 <= i < bs.len() && in_border(#[trigger] bs[i]@, c) by {
        assert(marks2.at(c) == (marks.at(c) || in_border(border@, c)));
        if marks.at(c) {
            let i = choose|i: int| 0 <= i < borders.len() && in_border(#[trigger] borders[i]@, c);
            if i < p {
                assert(bs[i] == borders[i]);
                assert(in_border(bs[i]@, c));
            } else {
                assert(bs[i + 1] == borders[i]);
                assert(in_border(bs[i + 1]@, c));
            }
        } else {
            assert(in_border(bs[p]@, c));
        }
    }
    assert forall|i1: int, j1: int, i2: int, j2: int|
        0 <= i1 < bs.len() && 0 <= j1 < bs[i1]@.len() && 0 <= i2 < bs.len() && 0 <= j2
            < bs[i2]@.len() && #[trigger] bs[i1]@[j1] == #[trigger] bs[i2]@[j2] implies i1 == i2
        && j1 == j2 by {
        if i1 == p && i2 == p {
            if j1 < j2 {
                assert(border@[j1] != border@[j2]);
            } else if j2 < j1 {
                assert(border@[j2] != border@[j1]);
            }
        } else if i1 == p {
            assert(bs[i2] == borders[src(i2)]);
            assert(marks.at(cell(borders[src(i2)]@[j2])));
            assert(!marks.at(cell(border@[j1])));
        } else if i2 == p {
            assert(bs[i1] == borders[src(i1)]);
            assert(marks.at(cell(borders[src(i1)]@[j1])));
            assert(!marks.at(cell(border@[j2])));
        } else {
            assert(bs[i1] == borders[src(i1)]);
            assert(bs[i2] == borders[src(i2)]);
            assert(borders[src(i1)]@[j1] == borders[src(i2)]@[j2]);
        }
    }
    assert forall|i: int, j: int| 0 <= i < bs.len() && 0 <= j < bs[i]@.len() implies joined(
        k,
        cell(bs[i]@[0]),
        cell(#[trigger] bs[i]@[j]),
    ) by {
        if i != p {
            assert(bs[i] == borders[src(i)]);
            assert(joined(k, cell(borders[src(i)]@[0]), cell(borders[src(i)]@[j])));
        }
    }
    assert forall|i: int, j: int, b: (int, int)|
        0 <= i < bs.len() && 0 <= j < bs[i]@.len() && #[trigger] linked(
            k,
            cell(#[trigger] bs[i]@[j]),
            b,
        ) implies in_border(bs[i]@, b) by {
        if i == p {
            assert(!in_border(Seq::<(usize, usize)>::empty(), cell(border@[j])));
            assert(frontier(k, cell(border@[j])));
        } else {
            assert(bs[i] == borders[src(i)]);
            assert(linked(k, cell(borders[src(i)]@[j]), b));
        }
    }
}

/// Borders that list the whole frontier, each cell once, and are complete
/// under links split the frontier.
proof fn lemma_clustered_is_partition(
    k: Knowledge,
    marks: Grid<bool>,
    borders: Seq<Vec<(usize, usize)>>,
)
    requires
        clustered(k, marks, borders),
        forall|c: (int, int)| #[trigger] frontier(k, c) ==> marks.at(c),
    ensures
        is_partition(k, borders),
{
    assert forall|c: (int, int)| #[trigger] frontier(k, c) implies exists|i: int|
        0 <= i < borders.len() && in_border(#[trigger] borders[i]@, c) by {
        assert(marks.at(c));
    }
    assert forall|n: (int, int), i1: int, j1: int, i2: int, j2: int|
        #![trigger k.counts.contains_key(n), borders[i1]@[j1], borders[i2]@[j2]]
        k.counts.contains_key(n) && 0 <= i1 < borders.len() && 0 <= j1 < borders[i1]@.len() && 0
            <= i2 < borders.len() && 0 <= j2 < borders[i2]@.len() && adjacent(
            n,
            cell(borders[i1]@[j1]),
        ) && adjacent(n, cell(borders[i2]@[j2])) implies i1 == i2 by {
        let a = cell(borders[i1]@[j1]);
        let b = cell(borders[i2]@[j2]);
        assert(frontier(k, a));
        assert(frontier(k, b));
        assert(linked(k, a, b));
        assert(in_border(borders[i1]@, b));
        let j = choose|j: int| 0 <= j < borders[i1]@.len() && cell(#[trigger] borders[i1]@[j]) == b;
        assert(borders[i1]@[j] == borders[i2]@[j2]);
    }
}

/// The border begins with a cell that comes before `c` in row-by-row
/// order.
pub open spec fn seed_before(border: Vec<(usize, usize)>, c: (int, int)) -> bool {
    precedes(cell(border@[0]), c)
}

/// A border whose first cell comes after the first cells of all the others
/// and before the rest of its own keeps the list in order when it goes in
/// behind the borders that are no larger.
proof fn lemma_insert_keeps_order(
    borders: Seq<Vec<(usize, usize)>>,
    p: int,
    border: Vec<(usize, usize)>,
)
    requires
        sorted_by_size(borders),
        seed_ordered(borders),
        0 <= p <= borders.len(),
        border@.len() > 0,
        forall|i: int| 0 <= i < p ==> (#[trigger] borders[i])@.len() <= border@.len(),
        forall|i: int| p <= i < borders.len() ==> (#[trigger] borders[i])@.len() > border@.len(),
        forall|i: int|
            0 <= i < borders.len() ==> #[trigger] seed_before(borders[i], cell(border@[0])),
        forall|j: int|
            0 < j < border@.len() ==> precedes(cell(border@[0]), cell(#[trigger] border@[j])),
    ensures
        sorted_by_size(borders.insert(p, border)),
        seed_ordered(borders.insert(p, border)),
        forall|i: int, c: (int, int)|
            0 <= i < borders.len() + 1 && precedes(cell(border@[0]), c) ==> #[trigger] seed_before(
                borders.insert(p, border)[i],
                c,
            ),
{
    let bs = borders.insert(p, border);
    borders.insert_ensures(p, border);
    let src = |i: int| if i < p { i } else { i - 1 };
    assert forall|i: int| 0 <= i < bs.len() && i != p implies 0 <= src(i) < borders.len()
        && #[trigger] bs[i] == borders[src(i)] by {
        if i > p {
            assert(bs[(i - 1) + 1] == borders[i - 1]);
        }
    }
    assert forall|i: int| 0 <= i < bs.len() implies (#[trigger] bs[i])@.len() > 0 by {
        if i != p {
            assert(bs[i] == borders[src(i)]);
        }
    }
    assert forall|i1: int, i2: int| 0 <= i1 < i2 < bs.len() implies (#[trigger] bs[i1])@.len() <= (
    #[trigger] bs[i2])@.len() by {
        if i1 != p {
            assert(bs[i1] == borders[src(i1)]);
        }
        if i2 != p {
            assert(bs[i2] == borders[src(i2)]);
        }
    }
    assert forall|i: int, j: int| 0 <= i < bs.len() && 0 < j < bs[i]@.len() implies precedes(
        cell(bs[i]@[0]),
        cell(#[trigger] bs[i]@[j]),
    ) by {
        if i != p {
            assert(bs[i] == borders[src(i)]);
            assert(precedes(cell(borders[src(i)]@[0]), cell(borders[src(i)]@[j])));
        }
    }
    assert forall|i1: int, i2: int|
        0 <= i1 < i2 < bs.len() && (#[trigger] bs[i1])@.len() == (
        #[trigger] bs[i2])@.len() implies precedes(cell(bs[i1]@[0]), cell(bs[i2]@[0])) by {
        if i1 != p {
            assert(bs[i1] == borders[src(i1)]);
            assert(seed_before(borders[src(i1)], cell(border@[0])));
        }
        if i2 != p {
            assert(bs[i2] == borders[src(i2)]);
        }
    }
    assert forall|i: int, c: (int, int)|
        0 <= i < borders.len() + 1 && precedes(cell(border@[0]), c) implies #[trigger] seed_before(
        bs[i],
        c,
    ) by {
        if i != p {
            assert(bs[i] == borders[src(i)]);
            assert(seed_before(borders[src(i)], cell(border@[0])));
        }
    }
}

/// Where a border of `size` cells goes among borders sorted by size: after
/// every border that is no larger.
fn insertion_point(borders: &Vec<Vec<(usize, usize)>>, size: usize) -> (p: usize)
    requires
        sorted_by_size(borders@),
    ensures
        p <= borders@.len(),
        forall|i: int| 0 <= i < p ==> (#[trigger] borders@[i])@.len() <= size,
        forall|i: int| p <= i < borders@.len() ==> (#[trigger] borders@[i])@.len() > size,
{
    let mut p: usize = 0;
    while p < borders.len() && borders[p].len() <= size
        invariant
            p <= borders@.len(),
            forall|i: int| 0 <= i < p ==> (#[trigger] borders@[i])@.len() <= size,
        decreases borders@.len() - p,
    {
        p += 1;
    }
    p
}

/// Splits the frontier of the session into its borders. Cells are scanned
/// row by row; each frontier cell not yet in a border seeds a new one,
/// which takes in every cell that shared constraints join to the seed.
/// So each border is one cluster of the frontier, whole and nothing more.
/// The borders come out sorted by size, smallest first.
pub fn extract_borders(session: &Session) -> (borders: Vec<Vec<(usize, usize)>>)
    requires
        session.wf(),
    ensures
        are_borders(session@, borders@),
{
    let ghost k = session@;
    let width = session.mines.width;
    let height = session.mines.height;
    let mut marks: Grid<bool> = Grid::new(width, height, false);
    let mut borders: Vec<Vec<(usize, usize)>> = Vec::new();
    let mut y: usize = 0;
    while y < height
        invariant
            0 <= y <= height,
            session.wf(),
            k == session@,
            width == k.width,
            height == k.height,
            clustered(k, marks, borders@),
            sorted_by_size(borders@),
            seed_ordered(borders@),
            forall|i: int|
                0 <= i < borders@.len() ==> #[trigger] seed_before(borders@[i], (0, y as int)),
            forall|c: (int, int)| #[trigger] frontier(k, c) && c.1 < y ==> marks.at(c),
        decreases height - y,
    {
        let mut x: usize = 0;
        while x < width
            invariant
                0 <= y < height,
                0 <= x <= width,
                session.wf(),
                k == session@,
                width == k.width,
                height == k.height,
                clustered(k, marks, borders@),
                sorted_by_size(borders@),
                seed_ordered(borders@),
                forall|i: int|
                    0 <= i < borders@.len() ==> #[trigger] seed_before(
                        borders@[i],
                        (x as int, y as int),
                    ),
                forall|c: (int, int)| #[trigger]
                    frontier(k, c) && (c.1 < y || (c.1 == y && c.0 < x)) ==> marks.at(c),
            decreases width - x,
        {
            if !*marks.index_2d(x, y) && is_frontier(session, x, y) {
                let ghost marks0 = marks;
                let ghost borders0 = borders@;
                let border = grow_border(session, &mut marks, x, y);
                let ghost border0 = border@;
                let p = insertion_point(&borders, border.len());
                proof {
                    lemma_clustered_insert(k, marks0, marks, borders0, p as int, border);
                    assert(in_border(border@, cell(border@[0])));
                    assert forall|j: int| 0 < j < border@.len() implies precedes(
                        cell(border@[0]),
                        cell(#[trigger] border@[j]),
                    ) by {
                        let c = cell(border@[j]);
                        assert(frontier(k, c) && !marks0.at(c));
                        assert(border@[0] != border@[j]);
                    }
                    lemma_insert_keeps_order(borders0, p as int, border);
                }
                borders.insert(p, border);
                proof {
                    assert forall|c: (int, int)| #[trigger]
                        frontier(k, c) && (c.1 < y || (c.1 == y && c.0 < x + 1)) implies marks.at(
                        c,
                    ) by {
                        assert(marks.at(c) == (marks0.at(c) || in_border(border0, c)));
                    }
                    assert forall|i: int| 0 <= i < borders@.len() implies #[trigger] seed_before(
                        borders@[i],
                        (x + 1, y as int),
                    ) by {
                        assert(precedes(cell(border0[0]), (x + 1, y as int)));
                    }
                }
            } else {
                proof {
                    assert forall|i: int| 0 <= i < borders@.len() implies #[trigger] seed_before(
                        borders@[i],
                        (x + 1, y as int),
                    ) by {
                        assert(seed_before(borders@[i], (x as int, y as int)));
                    }
                }
            }
            x += 1;
        }
        proof {
            assert forall|i: int| 0 <= i < borders@.len() implies #[trigger] seed_before(
                borders@[i],
                (0, y + 1),
            ) by {
                assert(seed_before(borders@[i], (x as int, y as int)));
            }
        }
        y += 1;
    }
    proof {
        lemma_clustered_is_partition(k, marks, borders@);
    }
    borders
}

} // verus!
