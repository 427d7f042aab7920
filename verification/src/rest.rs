//! Where deduction ends. A solver at rest has left nothing that could be
//! proved, and every way of deducing from the same knowledge comes to
//! rest at the same place.

use vstd::prelude::*;
use crate::board::GameBoard;
use crate::borders::{frontier, in_border, linked, undetermined};
use crate::driver::{at_rest, lemma_rotate, rotate, turned_from, verdict};
use crate::grid::{
    adjacent, cell, dir_of, ind, lemma_dir_of, lemma_tally_le, lemma_tally_same,
    lemma_tally_split, nbr,
};
use crate::search::consistent;
use crate::session::{in_state, polarity, Knowledge, MineState};
use crate::solutions::{
    lemma_consistent_iff_extendable, lemma_supposed, lemma_with_state_wf, meets, open_from,
    supposed,
};
use crate::laws::{justified, knows_more, lemma_faithful_equal, lemma_log_faithful};
use crate::propagation::after;
use crate::truth::{faithful, lemma_sound_is_valid, maybe_mine};

verus! {

/// The knowledge `k` with every undetermined cell decided as `g` says, a
/// mine where `g` is true.
pub open spec fn completed(k: Knowledge, g: spec_fn((int, int)) -> bool) -> Knowledge {
    Knowledge {
        states: Map::new(
            |c: (int, int)| k.has(c),
            |c: (int, int)|
                if k.states[c] == MineState::Unknown {
                    polarity(g(c))
                } else {
                    k.states[c]
                },
        ),
        ..k
    }
}

/// `g` is a solution of `k`: with every undetermined cell decided as `g`
/// says, every constraint is met.
pub open spec fn solves(k: Knowledge, g: spec_fn((int, int)) -> bool) -> bool {
    completed(k, g).all_valid()
}

/// `k2` has the shape of `k` and keeps the state of every cell that `k`
/// determines.
pub open spec fn fills(k2: Knowledge, k: Knowledge) -> bool {
    &&& k2.width == k.width
    &&& k2.height == k.height
    &&& forall|c: (int, int)|
        k.has(c) && #[trigger] k.states[c] != MineState::Unknown ==> k2.states[c] == k.states[c]
}

/// Determining more cells can only tighten a constraint: one that can be
/// met with more cells determined could be met before.
pub proof fn lemma_fills_tightens(k: Knowledge, k2: Knowledge, n: (int, int))
    requires
        fills(k2, k),
        k2.counts[n] == k.counts[n],
    ensures
        k2.satisfied(n) ==> k.satisfied(n),
{
    let pm = in_state(k.width, k.height, k.states, MineState::KnownMine);
    let pu = in_state(k.width, k.height, k.states, MineState::Unknown);
    let pm2 = in_state(k2.width, k2.height, k2.states, MineState::KnownMine);
    let pu2 = in_state(k2.width, k2.height, k2.states, MineState::Unknown);
    let e1 = maybe_mine(k);
    let e2 = maybe_mine(k2);
    assert forall|j: int| 0 <= j < 8 && pm(#[trigger] nbr(n, j)) implies pm2(nbr(n, j)) by {
        assert(k.states[nbr(n, j)] != MineState::Unknown);
    }
    lemma_tally_le(pm, pm2, n, 8);
    assert forall|j: int| 0 <= j < 8 && e2(#[trigger] nbr(n, j)) implies e1(nbr(n, j)) by {
        if k.states[nbr(n, j)] == MineState::KnownSafe {
            assert(k.states[nbr(n, j)] != MineState::Unknown);
        }
    }
    lemma_tally_le(e2, e1, n, 8);
    assert forall|j: int| 0 <= j < 8 implies ind(e1(#[trigger] nbr(n, j))) == ind(pm(nbr(n, j)))
        + ind(pu(nbr(n, j))) by {}
    lemma_tally_split(e1, pm, pu, n, 8);
    assert forall|j: int| 0 <= j < 8 implies ind(e2(#[trigger] nbr(n, j))) == ind(pm2(nbr(n, j)))
        + ind(pu2(nbr(n, j))) by {}
    lemma_tally_split(e2, pm2, pu2, n, 8);
}

/// Knowledge whose cells around `n` have the same states gives the
/// constraint at `n` the same tallies.
pub proof fn lemma_same_around(k: Knowledge, k2: Knowledge, n: (int, int))
    requires
        k2.width == k.width,
        k2.height == k.height,
        forall|j: int| 0 <= j < 8 && k.has(#[trigger] nbr(n, j)) ==> k2.states[nbr(n, j)]
            == k.states[nbr(n, j)],
    ensures
        k2.around(n, MineState::KnownMine) == k.around(n, MineState::KnownMine),
        k2.around(n, MineState::Unknown) == k.around(n, MineState::Unknown),
{
    lemma_tally_same(
        in_state(k.width, k.height, k.states, MineState::KnownMine),
        in_state(k2.width, k2.height, k2.states, MineState::KnownMine),
        n,
        8,
    );
    lemma_tally_same(
        in_state(k.width, k.height, k.states, MineState::Unknown),
        in_state(k2.width, k2.height, k2.states, MineState::Unknown),
        n,
        8,
    );
}

/// The search cannot refute what a solution says. Where `g` is a solution
/// of `k` and the cell at `idx` is undetermined, supposing of that cell
/// what `g` says of it is consistent, whatever cells follow in the list.
pub proof fn lemma_solution_passes(
    k: Knowledge,
    border: Seq<(usize, usize)>,
    idx: int,
    g: spec_fn((int, int)) -> bool,
)
    requires
        k.wf(),
        0 <= idx < border.len(),
        forall|i: int| idx <= i < border.len() ==> k.has(cell(#[trigger] border[i])),
        undetermined(k, cell(border[idx])),
        solves(k, g),
    ensures
        consistent(k, border, idx, g(cell(border[idx]))),
    decreases border.len() - idx,
{
    let c = cell(border[idx]);
    let h = g(c);
    let k2 = k.with_state(c, polarity(h));
    let full = completed(k, g);
    lemma_with_state_wf(k, c, polarity(h));
    assert(completed(k2, g).states =~= full.states);
    assert(completed(k2, g) == full);
    assert forall|i: int| 0 <= i < 8 && k2.counts.contains_key(#[trigger] nbr(c, i)) implies k2.satisfied(
        nbr(c, i),
    ) by {
        let n = nbr(c, i);
        assert(full.counts.contains_key(n));
        assert(full.satisfied(n));
        assert forall|d: (int, int)|
            k2.has(d) && #[trigger] k2.states[d] != MineState::Unknown implies full.states[d]
            == k2.states[d] by {}
        lemma_fills_tightens(k2, full, n);
    }
    assert(k2.valid_around(c));
    if idx + 1 < border.len() {
        let c2 = cell(border[idx + 1]);
        assert(k2.has(c2));
        if undetermined(k2, c2) {
            lemma_solution_passes(k2, border, idx + 1, g);
        } else {
            assert(consistent(k2, border, idx + 1, k2.states[c2] == MineState::KnownMine));
        }
    } else {
        assert(consistent(k2, border, idx + 1, false));
    }
    assert(consistent(k2, border, idx + 1, false) || consistent(k2, border, idx + 1, true));
}

/// The place of the cell `c` in `border`.
pub open spec fn place(border: Seq<(usize, usize)>, c: (int, int)) -> int {
    choose|p: int| 0 <= p < border.len() && cell(#[trigger] border[p]) == c
}

/// What `g` says, but of the cells of `border` what `a` says of them.
pub open spec fn overlaid(
    g: spec_fn((int, int)) -> bool,
    border: Seq<(usize, usize)>,
    a: Seq<bool>,
) -> spec_fn((int, int)) -> bool {
    |c: (int, int)|
        if in_border(border, c) {
            a[place(border, c)]
        } else {
            g(c)
        }
}

/// With the undetermined cells decided as `g` says, every constraint next
/// to a cell of the first `m` borders is met.
pub open spec fn solves_upto(
    k: Knowledge,
    borders: Seq<Vec<(usize, usize)>>,
    m: int,
    g: spec_fn((int, int)) -> bool,
) -> bool {
    forall|j: int, p: int, d: int|
        0 <= j < m && 0 <= p < borders[j]@.len() && 0 <= d < 8 && k.counts.contains_key(
            #[trigger] nbr(cell(borders[j]@[p]), d),
        ) ==> completed(k, g).satisfied(nbr(cell(borders[j]@[p]), d))
}

/// A constraint whose undetermined neighbours are all left as they were
/// is met as before.
proof fn lemma_solves_elsewhere(
    k: Knowledge,
    border: Seq<(usize, usize)>,
    other: Seq<(usize, usize)>,
    cn: (int, int),
    g0: spec_fn((int, int)) -> bool,
    g: spec_fn((int, int)) -> bool,
)
    requires
        forall|e: (int, int)| adjacent(cn, e) && undetermined(k, e) ==> in_border(border, e),
        forall|e: (int, int)| in_border(border, e) ==> !in_border(other, e),
        forall|e: (int, int)| !in_border(other, e) ==> g(e) == g0(e),
        completed(k, g0).satisfied(cn),
    ensures
        completed(k, g).satisfied(cn),
{
    let before = completed(k, g0);
    assert forall|i: int| 0 <= i < 8 && before.has(#[trigger] nbr(cn, i)) implies completed(
        k,
        g,
    ).states[nbr(cn, i)] == before.states[nbr(cn, i)] by {
        let e = nbr(cn, i);
        lemma_dir_of(cn, e);
        if undetermined(k, e) {
            assert(in_border(border, e));
            assert(g(e) == g0(e));
        }
    }
    lemma_same_around(before, completed(k, g), cn);
}

/// A constraint whose undetermined neighbours are all in a border is met
/// by a solution that decides the border's cells as a way of supposing
/// them that meets every constraint next to them.
proof fn lemma_solves_here(
    k: Knowledge,
    rot: Seq<(usize, usize)>,
    a: Seq<bool>,
    p: int,
    cn: (int, int),
    g: spec_fn((int, int)) -> bool,
)
    requires
        k.wf(),
        open_from(k, rot, 0),
        a.len() == rot.len(),
        meets(supposed(k, rot, a, 0, rot.len() as int), rot, 0, rot.len() as int),
        0 <= p < rot.len(),
        adjacent(cell(rot[p]), cn),
        k.counts.contains_key(cn),
        forall|e: (int, int)| adjacent(cn, e) && undetermined(k, e) ==> in_border(rot, e),
        forall|e: (int, int)| in_border(rot, e) ==> g(e) == a[place(rot, e)],
    ensures
        completed(k, g).satisfied(cn),
{
    let n = rot.len() as int;
    let filled = supposed(k, rot, a, 0, n);
    lemma_supposed(k, rot, a, 0, n);
    lemma_dir_of(cell(rot[p]), cn);
    assert(filled.valid_around(cell(rot[p])));
    assert(filled.counts.contains_key(nbr(cell(rot[p]), dir_of(cell(rot[p]), cn))));
    assert(filled.satisfied(cn));
    assert forall|i: int| 0 <= i < 8 && filled.has(#[trigger] nbr(cn, i)) implies completed(
        k,
        g,
    ).states[nbr(cn, i)] == filled.states[nbr(cn, i)] by {
        let e = nbr(cn, i);
        lemma_dir_of(cn, e);
        if undetermined(k, e) {
            assert(in_border(rot, e));
            let q = place(rot, e);
            assert(filled.states[cell(rot[q])] == polarity(a[q]));
        } else {
            assert forall|q: int| 0 <= q < n implies cell(#[trigger] rot[q]) != e by {
                assert(undetermined(k, cell(rot[q])));
            }
            assert(filled.states[e] == k.states[e]);
        }
    }
    lemma_same_around(filled, completed(k, g), cn);
}

/// At rest, the cells of one border can be supposed so that every
/// constraint next to them is met, with the cell `c`, if it is in the
/// border, supposed as `h` says. Returns the border turned so that the
/// search would begin with `c`, and the suppositions in that order.
proof fn lemma_border_solvable(
    k: Knowledge,
    borders: Seq<Vec<(usize, usize)>>,
    i: int,
    c: (int, int),
    h: bool,
) -> (r: (Seq<(usize, usize)>, Seq<bool>))
    requires
        k.wf(),
        at_rest(k, borders),
        0 <= i < borders.len(),
    ensures
        open_from(k, r.0, 0),
        r.1.len() == r.0.len(),
        r.0.len() == borders[i]@.len(),
        meets(supposed(k, r.0, r.1, 0, r.0.len() as int), r.0, 0, r.0.len() as int),
        forall|e: (int, int)| in_border(r.0, e) <==> in_border(borders[i]@, e),
        in_border(borders[i]@, c) ==> cell(r.0[0]) == c && r.1[0] == h,
{
    let border = borders[i]@;
    let n = border.len() as int;
    let t = if in_border(border, c) { place(border, c) } else { 0 };
    let pol = if in_border(border, c) { h } else { true };
    let rot = rotate(border, t);
    assert(frontier(k, cell(borders[i]@[0])));
    lemma_rotate(border, t);
    assert forall|j1: int, j2: int| 0 <= j1 < j2 < border.len() implies #[trigger] border[j1]
        != #[trigger] border[j2] by {
        assert(borders[i]@[j1] == border[j1]);
        assert(borders[i]@[j2] == border[j2]);
    }
    assert forall|j: int| 0 <= j < rot.len() implies undetermined(k, cell(#[trigger] rot[j])) by {
        assert(frontier(k, cell(borders[i]@[turned_from(n, t, j)])));
    }
    assert(verdict(k, rotate(borders[i]@, t)) is None);
    lemma_consistent_iff_extendable(k, rot, 0, pol);
    let a = choose|a: Seq<bool>|
        a.len() == rot.len() && a[0] == pol && meets(
            #[trigger] supposed(k, rot, a, 0, rot.len() as int),
            rot,
            0,
            rot.len() as int,
        );
    (rot, a)
}

/// At rest, the first `m` borders can be decided together so that every
/// constraint next to them is met, with the cell `c`, if it is in one of
/// them, decided as `h` says.
pub proof fn lemma_borders_solvable(
    k: Knowledge,
    borders: Seq<Vec<(usize, usize)>>,
    c: (int, int),
    h: bool,
    m: int,
) -> (g: spec_fn((int, int)) -> bool)
    requires
        k.wf(),
        at_rest(k, borders),
        0 <= m <= borders.len(),
    ensures
        solves_upto(k, borders, m, g),
        forall|j: int| 0 <= j < m && in_border(#[trigger] borders[j]@, c) ==> g(c) == h,
    decreases m,
{
    if m == 0 {
        |d: (int, int)| h
    } else {
        let g0 = lemma_borders_solvable(k, borders, c, h, m - 1);
        let (rot, a) = lemma_border_solvable(k, borders, m - 1, c, h);
        let g = overlaid(g0, rot, a);
        assert forall|j: int, p: int, d: int|
            0 <= j < m && 0 <= p < borders[j]@.len() && 0 <= d < 8 && k.counts.contains_key(
                #[trigger] nbr(cell(borders[j]@[p]), d),
            ) implies completed(k, g).satisfied(nbr(cell(borders[j]@[p]), d)) by {
            let x = cell(borders[j]@[p]);
            let cn = nbr(x, d);
            lemma_dir_of(x, cn);
            assert(frontier(k, x));
            assert forall|e: (int, int)| adjacent(cn, e) && undetermined(k, e) implies in_border(
                borders[j]@,
                e,
            ) by {
                assert(k.counts.contains_key(cn) && adjacent(cn, x) && adjacent(cn, e));
                assert(linked(k, x, e));
            }
            if j < m - 1 {
                assert forall|e: (int, int)| in_border(borders[j]@, e) implies !in_border(
                    rot,
                    e,
                ) by {
                    if in_border(borders[m - 1]@, e) {
                        let q = choose|q: int|
                            0 <= q < borders[j]@.len() && cell(#[trigger] borders[j]@[q]) == e;
                        let q2 = choose|q2: int|
                            0 <= q2 < borders[m - 1]@.len() && cell(
                                #[trigger] borders[m - 1]@[q2],
                            ) == e;
                        assert(borders[j]@[q] == borders[m - 1]@[q2]);
                    }
                }
                assert(completed(k, g0).satisfied(cn));
                lemma_solves_elsewhere(k, borders[j]@, rot, cn, g0, g);
            } else {
                assert(in_border(borders[m - 1]@, x));
                assert(in_border(rot, x));
                let spot = place(rot, x);
                assert(0 <= spot < rot.len() && cell(rot[spot]) == x);
                lemma_solves_here(k, rot, a, spot, cn, g);
            }
        }
        assert forall|j: int| 0 <= j < m && in_border(#[trigger] borders[j]@, c) implies g(c)
            == h by {
            if in_border(borders[m - 1]@, c) {
                let q = place(rot, c);
                if q != 0 {
                    assert(rot[0] != rot[q]);
                }
            } else {
                assert(j < m - 1);
                assert(g0(c) == h);
            }
        }
        g
    }
}

/// At rest, any undetermined cell can be decided either way. Whatever `h`
/// says of the cell `c`, the knowledge has a solution that says the same.
pub proof fn lemma_at_rest_has_solution(
    k: Knowledge,
    borders: Seq<Vec<(usize, usize)>>,
    c: (int, int),
    h: bool,
) -> (g: spec_fn((int, int)) -> bool)
    requires
        k.wf(),
        k.all_valid(),
        at_rest(k, borders),
        undetermined(k, c),
    ensures
        solves(k, g),
        g(c) == h,
{
    let g1 = lemma_borders_solvable(k, borders, c, h, borders.len() as int);
    let g = |d: (int, int)| if d == c { h } else { g1(d) };
    let full = completed(k, g);
    assert(g1(c) == h || !frontier(k, c)) by {
        if frontier(k, c) {
            let j = choose|j: int| 0 <= j < borders.len() && in_border(#[trigger] borders[j]@, c);
            assert(g1(c) == h);
        }
    }
    assert forall|n: (int, int)| #[trigger] full.counts.contains_key(n) implies full.satisfied(
        n,
    ) by {
        assert(k.counts.contains_key(n));
        if exists|i: int| 0 <= i < 8 && undetermined(k, #[trigger] nbr(n, i)) {
            let i = choose|i: int| 0 <= i < 8 && undetermined(k, #[trigger] nbr(n, i));
            let e = nbr(n, i);
            lemma_dir_of(n, e);
            lemma_dir_of(e, n);
            assert(k.counts.contains_key(nbr(e, dir_of(e, n))));
            assert(frontier(k, e));
            let j = choose|j: int| 0 <= j < borders.len() && in_border(#[trigger] borders[j]@, e);
            let p = choose|p: int| 0 <= p < borders[j]@.len() && cell(#[trigger] borders[j]@[p]) == e;
            assert(k.counts.contains_key(nbr(cell(borders[j]@[p]), dir_of(e, n))));
            assert(completed(k, g1).satisfied(n));
            assert forall|i2: int|
                0 <= i2 < 8 && full.has(#[trigger] nbr(n, i2)) implies full.states[nbr(n, i2)]
                == completed(k, g1).states[nbr(n, i2)] by {
                let e2 = nbr(n, i2);
                if e2 == c && undetermined(k, c) {
                    lemma_dir_of(n, c);
                    lemma_dir_of(c, n);
                    assert(k.counts.contains_key(nbr(c, dir_of(c, n))));
                    assert(frontier(k, c));
                }
            }
            lemma_same_around(completed(k, g1), full, n);
        } else {
            assert forall|i2: int|
                0 <= i2 < 8 && k.has(#[trigger] nbr(n, i2)) implies full.states[nbr(n, i2)]
                == k.states[nbr(n, i2)] by {
                assert(!undetermined(k, nbr(n, i2)));
            }
            lemma_same_around(k, full, n);
            assert(k.satisfied(n));
        }
    }
    g
}

/// A solver at rest has nothing left that could be proved, by any list of
/// cells: whatever is provable from less knowledge of the same board is
/// determined in the knowledge at rest.
pub proof fn lemma_rest_holds_all(
    k: Knowledge,
    b: &GameBoard,
    log: Seq<(usize, usize)>,
    k2: Knowledge,
    borders: Seq<Vec<(usize, usize)>>,
)
    requires
        k.wf(),
        k2.wf(),
        b.wf(),
        faithful(k, b),
        faithful(k2, b),
        justified(k, b, log),
        knows_more(k2, k),
        at_rest(k2, borders),
    ensures
        knows_more(k2, after(k, b, log)),
    decreases log.len(),
{
    if log.len() > 0 {
        let prev = after(k, b, log.drop_last());
        let c = cell(log.last());
        lemma_rest_holds_all(k, b, log.drop_last(), k2, borders);
        lemma_log_faithful(k, b, log.drop_last());
        if k2.states[c] == MineState::Unknown {
            let (border, h) = choose|border: Seq<(usize, usize)>, h: bool|
                border.len() > 0 && cell(border[0]) == c && (forall|j: int|
                    0 <= j < border.len() ==> prev.has(cell(#[trigger] border[j])))
                    && !#[trigger] consistent(prev, border, 0, h);
            lemma_sound_is_valid(k2, b);
            let g = lemma_at_rest_has_solution(k2, borders, c, h);
            // the same solution, read from what `prev` knows
            let g2 = |d: (int, int)|
                if k2.states[d] == MineState::Unknown {
                    g(d)
                } else {
                    k2.states[d] == MineState::KnownMine
                };
            let full = completed(k2, g);
            let full2 = completed(prev, g2);
            assert forall|d: (int, int)| full2.states.contains_key(d) implies full2.states[d]
                == full.states[d] by {
                assert(prev.has(d));
                if prev.states[d] != MineState::Unknown {
                    assert(k2.states[d] != MineState::Unknown);
                }
            }
            assert(full2.states =~= full.states);
            assert forall|n: (int, int)| #[trigger] full2.counts.contains_key(n) implies full2.satisfied(
                n,
            ) by {
                assert(prev.counts.contains_key(n));
                assert(prev.states[n] == MineState::KnownSafe);
                assert(k2.states[n] != MineState::Unknown);
                assert(k2.counts.contains_key(n));
                assert(full.counts.contains_key(n));
                assert(full.satisfied(n));
            }
            lemma_solution_passes(prev, border, 0, g2);
            assert(false);
        }
        assert forall|d: (int, int)|
            after(k, b, log).has(d) && #[trigger] after(k, b, log).states[d]
                != MineState::Unknown implies k2.states[d] != MineState::Unknown by {
            if d != c {
                assert(prev.states[d] != MineState::Unknown);
            }
        }
    }
}

/// Deduction comes to rest at one place. Take two lists of reveals from
/// the same faithful knowledge of a board, each reveal proved at the
/// moment it was made, in whatever order and by whatever lists of cells;
/// if both end with the solver at rest, they end with the same knowledge.
pub proof fn lemma_rest_is_unique(
    k: Knowledge,
    b: &GameBoard,
    log1: Seq<(usize, usize)>,
    borders1: Seq<Vec<(usize, usize)>>,
    log2: Seq<(usize, usize)>,
    borders2: Seq<Vec<(usize, usize)>>,
)
    requires
        k.wf(),
        b.wf(),
        faithful(k, b),
        justified(k, b, log1),
        justified(k, b, log2),
        at_rest(after(k, b, log1), borders1),
        at_rest(after(k, b, log2), borders2),
    ensures
        after(k, b, log1) == after(k, b, log2),
{
    let k1 = after(k, b, log1);
    let k2 = after(k, b, log2);
    lemma_log_faithful(k, b, log1);
    lemma_log_faithful(k, b, log2);
    lemma_rest_holds_all(k, b, log1, k2, borders2);
    lemma_rest_holds_all(k, b, log2, k1, borders1);
    lemma_faithful_equal(k1, k2, b);
}

} // verus!
