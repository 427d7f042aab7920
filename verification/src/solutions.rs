//! What the consistency search decides, said without the search: whether a
//! supposition about one cell can be carried on to all the cells that
//! follow it in the border without breaking a constraint.

use vstd::prelude::*;
use crate::borders::undetermined;
use crate::grid::{adjacent, cell, lemma_dir_of, nbr};
use crate::search::consistent;
use crate::session::{polarity, Knowledge, MineState};

verus! {

/// The knowledge `k` with the cells at positions `from..to` of `border`
/// supposed to be what `a` says of them, a mine where `a` is true.
pub open spec fn supposed(
    k: Knowledge,
    border: Seq<(usize, usize)>,
    a: Seq<bool>,
    from: int,
    to: int,
) -> Knowledge
    decreases to - from,
{
    if to <= from {
        k
    } else {
        supposed(k, border, a, from, to - 1).with_state(cell(border[to - 1]), polarity(a[to - 1]))
    }
}

/// The cells of `border` from position `from` on are undetermined cells of
/// the board, each listed once.
pub open spec fn open_from(k: Knowledge, border: Seq<(usize, usize)>, from: int) -> bool {
    &&& forall|i: int| from <= i < border.len() ==> undetermined(k, cell(#[trigger] border[i]))
    &&& forall|i: int, j: int|
        from <= i < j < border.len() ==> #[trigger] border[i] != #[trigger] border[j]
}

/// Every constraint next to one of the cells at positions `from..to` of
/// `border` can be met.
pub open spec fn meets(k: Knowledge, border: Seq<(usize, usize)>, from: int, to: int) -> bool {
    forall|i: int| from <= i < to ==> k.valid_around(cell(#[trigger] border[i]))
}

/// The supposition that the cell at `idx` has the polarity `set_mine` can
/// be carried on: there is a way to suppose all the cells from `idx` on,
/// that one as given, with which every constraint next to them can be met.
pub open spec fn extendable(
    k: Knowledge,
    border: Seq<(usize, usize)>,
    idx: int,
    set_mine: bool,
) -> bool {
    exists|a: Seq<bool>|
        a.len() == border.len() && a[idx] == set_mine && meets(
            #[trigger] supposed(k, border, a, idx, border.len() as int),
            border,
            idx,
            border.len() as int,
        )
}

/// The knowledge right after the cell at position `t` was supposed, with
/// those from `from` on before it.
pub open spec fn through(
    k: Knowledge,
    border: Seq<(usize, usize)>,
    a: Seq<bool>,
    from: int,
    t: int,
) -> Knowledge {
    supposed(k, border, a, from, t + 1)
}

/// Each constraint was met along the way: right after the cell at each
/// position `from..to` was supposed, with those before it, every
/// constraint next to that cell could be met.
pub open spec fn met_along(
    k: Knowledge,
    border: Seq<(usize, usize)>,
    a: Seq<bool>,
    from: int,
    to: int,
) -> bool {
    forall|t: int|
        from <= t < to ==> (#[trigger] through(k, border, a, from, t)).valid_around(
            cell(border[t]),
        )
}

/// Putting a cell without a constraint in another state keeps the
/// knowledge well-formed.
pub proof fn lemma_with_state_wf(k: Knowledge, c: (int, int), s: MineState)
    requires
        k.wf(),
        k.has(c),
        !k.counts.contains_key(c),
    ensures
        k.with_state(c, s).wf(),
{
    let k2 = k.with_state(c, s);
    assert forall|d: (int, int)| k2.has(d) <==> #[trigger] k2.states.contains_key(d) by {
        assert(k.has(d) <==> k.states.contains_key(d));
    }
    assert forall|d: (int, int)| #[trigger] k2.counts.contains_key(d) implies k2.has(d)
        && k2.states[d] == MineState::KnownSafe && 0 <= k2.counts[d] <= 8 by {
        assert(k.counts.contains_key(d));
    }
}

/// Supposing cells changes nothing but the states of those cells.
pub proof fn lemma_supposed(
    k: Knowledge,
    border: Seq<(usize, usize)>,
    a: Seq<bool>,
    from: int,
    to: int,
)
    requires
        k.wf(),
        0 <= from <= to <= border.len(),
        a.len() == border.len(),
        open_from(k, border, from),
    ensures
        supposed(k, border, a, from, to).wf(),
        supposed(k, border, a, from, to).width == k.width,
        supposed(k, border, a, from, to).height == k.height,
        supposed(k, border, a, from, to).counts == k.counts,
        forall|c: (int, int)|
            (forall|t: int| from <= t < to ==> cell(#[trigger] border[t]) != c) ==> #[trigger] supposed(
                k,
                border,
                a,
                from,
                to,
            ).states[c] == k.states[c],
        forall|t: int|
            from <= t < to ==> supposed(k, border, a, from, to).states[cell(#[trigger] border[t])]
                == polarity(a[t]),
    decreases to - from,
{
    if to > from {
        lemma_supposed(k, border, a, from, to - 1);
        let prev = supposed(k, border, a, from, to - 1);
        let c = cell(border[to - 1]);
        assert(undetermined(k, c));
        assert(prev.states[c] == k.states[c]) by {
            assert forall|t: int| from <= t < to - 1 implies cell(#[trigger] border[t]) != c by {
                assert(border[t] != border[to - 1]);
            }
        }
        lemma_with_state_wf(prev, c, polarity(a[to - 1]));
        let next = supposed(k, border, a, from, to);
        assert forall|t: int| from <= t < to implies next.states[cell(#[trigger] border[t])]
            == polarity(a[t]) by {
            if t < to - 1 {
                assert(border[t] != border[to - 1]);
            }
        }
    }
}

/// Supposing from the front or from the back comes to the same.
pub proof fn lemma_supposed_front(
    k: Knowledge,
    border: Seq<(usize, usize)>,
    a: Seq<bool>,
    from: int,
    to: int,
)
    requires
        from < to,
    ensures
        supposed(k, border, a, from, to) == supposed(
            k.with_state(cell(border[from]), polarity(a[from])),
            border,
            a,
            from + 1,
            to,
        ),
    decreases to - from,
{
    if to > from + 1 {
        lemma_supposed_front(k, border, a, from, to - 1);
    } else {
        assert(supposed(k, border, a, from, from) == k);
    }
}

/// What is supposed of the cells at `from..to` depends on `a` at those
/// positions only.
pub proof fn lemma_supposed_agree(
    k: Knowledge,
    border: Seq<(usize, usize)>,
    a: Seq<bool>,
    b: Seq<bool>,
    from: int,
    to: int,
)
    requires
        forall|t: int| from <= t < to ==> a[t] == b[t],
    ensures
        supposed(k, border, a, from, to) == supposed(k, border, b, from, to),
    decreases to - from,
{
    if to > from {
        lemma_supposed_agree(k, border, a, b, from, to - 1);
    }
}

/// Taking an undetermined cell out of doubt can only tighten a
/// constraint: what can be met afterwards could be met before. A
/// constraint that is not next to the cell is not touched.
pub proof fn lemma_suppose_tightens(k: Knowledge, c: (int, int), mine: bool, n: (int, int))
    requires
        undetermined(k, c),
    ensures
        k.with_state(c, polarity(mine)).satisfied(n) ==> k.satisfied(n),
        !adjacent(n, c) ==> k.with_state(c, polarity(mine)).satisfied(n) == k.satisfied(n),
{
    k.lemma_around_with_state(c, polarity(mine), n, MineState::KnownMine);
    k.lemma_around_with_state(c, polarity(mine), n, MineState::Unknown);
}

/// Meeting every constraint along the way is the same as meeting every
/// constraint at the end.
pub proof fn lemma_met_along_iff_meets(
    k: Knowledge,
    border: Seq<(usize, usize)>,
    a: Seq<bool>,
    from: int,
    to: int,
)
    requires
        k.wf(),
        0 <= from <= to <= border.len(),
        a.len() == border.len(),
        open_from(k, border, from),
    ensures
        met_along(k, border, a, from, to) <==> meets(
            supposed(k, border, a, from, to),
            border,
            from,
            to,
        ),
    decreases to - from,
{
    if to > from {
        lemma_met_along_iff_meets(k, border, a, from, to - 1);
        lemma_supposed(k, border, a, from, to - 1);
        let prev = supposed(k, border, a, from, to - 1);
        let next = supposed(k, border, a, from, to);
        let c = cell(border[to - 1]);
        assert(undetermined(prev, c)) by {
            assert(undetermined(k, c));
            assert forall|t: int| from <= t < to - 1 implies cell(#[trigger] border[t]) != c by {
                assert(border[t] != border[to - 1]);
            }
        }
        assert(next.counts == prev.counts);
        if met_along(k, border, a, from, to) {
            assert(met_along(k, border, a, from, to - 1));
            assert(through(k, border, a, from, to - 1).valid_around(c));
            assert forall|i: int| from <= i < to implies next.valid_around(
                cell(#[trigger] border[i]),
            ) by {
                if i < to - 1 {
                    let ci = cell(border[i]);
                    assert(prev.valid_around(ci));
                    assert forall|d: int|
                        0 <= d < 8 && next.counts.contains_key(
                            #[trigger] nbr(ci, d),
                        ) implies next.satisfied(nbr(ci, d)) by {
                        let n = nbr(ci, d);
                        lemma_suppose_tightens(prev, c, a[to - 1], n);
                        if adjacent(n, c) {
                            lemma_dir_of(c, n);
                            assert(nbr(c, crate::grid::dir_of(c, n)) == n);
                        }
                    }
                }
            }
        }
        if meets(next, border, from, to) {
            assert(next.valid_around(cell(border[to - 1])));
            assert forall|i: int| from <= i < to - 1 implies prev.valid_around(
                cell(#[trigger] border[i]),
            ) by {
                let ci = cell(border[i]);
                assert(next.valid_around(ci));
                assert forall|d: int|
                    0 <= d < 8 && prev.counts.contains_key(
                        #[trigger] nbr(ci, d),
                    ) implies prev.satisfied(nbr(ci, d)) by {
                    lemma_suppose_tightens(prev, c, a[to - 1], nbr(ci, d));
                }
            }
            assert forall|t: int| from <= t < to implies (#[trigger] through(
                k,
                border,
                a,
                from,
                t,
            )).valid_around(cell(border[t])) by {
                if t == to - 1 {
                    assert(through(k, border, a, from, t) == next);
                }
            }
        }
    }
}

/// The search finds a supposition consistent exactly when every
/// constraint can be met along some way of supposing the cells that
/// follow.
pub proof fn lemma_consistent_iff_met_along(
    k: Knowledge,
    border: Seq<(usize, usize)>,
    idx: int,
    set_mine: bool,
)
    requires
        k.wf(),
        0 <= idx < border.len(),
        open_from(k, border, idx),
    ensures
        consistent(k, border, idx, set_mine) <==> exists|a: Seq<bool>|
            a.len() == border.len() && a[idx] == set_mine && #[trigger] met_along(
                k,
                border,
                a,
                idx,
                border.len() as int,
            ),
    decreases border.len() - idx,
{
    let len = border.len() as int;
    let c = cell(border[idx]);
    let k2 = k.with_state(c, polarity(set_mine));
    assert(undetermined(k, c));
    lemma_with_state_wf(k, c, polarity(set_mine));
    assert(open_from(k2, border, idx + 1)) by {
        assert forall|i: int| idx + 1 <= i < border.len() implies undetermined(
            k2,
            cell(#[trigger] border[i]),
        ) by {
            assert(border[idx] != border[i]);
            assert(undetermined(k, cell(border[i])));
        }
    }
    // what `met_along` says at `idx` and after it
    assert forall|a: Seq<bool>| a.len() == border.len() && a[idx] == set_mine implies (met_along(
        k,
        border,
        a,
        idx,
        len,
    ) <==> k2.valid_around(c) && met_along(k2, border, a, idx + 1, len)) by {
        assert(supposed(k, border, a, idx, idx) == k);
        assert(through(k, border, a, idx, idx) == k2);
        assert forall|t: int| idx + 1 <= t < len implies #[trigger] through(k, border, a, idx, t)
            == through(k2, border, a, idx + 1, t) by {
            lemma_supposed_front(k, border, a, idx, t + 1);
        }
        if met_along(k, border, a, idx, len) {
            assert(through(k, border, a, idx, idx).valid_around(cell(border[idx])));
            assert forall|t: int| idx + 1 <= t < len implies (#[trigger] through(
                k2,
                border,
                a,
                idx + 1,
                t,
            )).valid_around(cell(border[t])) by {
                assert(through(k, border, a, idx, t).valid_around(cell(border[t])));
            }
        }
        if k2.valid_around(c) && met_along(k2, border, a, idx + 1, len) {
            assert forall|t: int| idx <= t < len implies (#[trigger] through(
                k,
                border,
                a,
                idx,
                t,
            )).valid_around(cell(border[t])) by {
                if t > idx {
                    assert(through(k2, border, a, idx + 1, t).valid_around(cell(border[t])));
                }
            }
        }
    }
    if idx + 1 < len {
        lemma_consistent_iff_met_along(k2, border, idx + 1, false);
        lemma_consistent_iff_met_along(k2, border, idx + 1, true);
    }
    if consistent(k, border, idx, set_mine) {
        assert(k2.valid_around(c));
        if idx + 1 < len {
            let next = consistent(k2, border, idx + 1, true);
            assert(consistent(k2, border, idx + 1, next));
            let a2 = choose|a: Seq<bool>|
                a.len() == border.len() && a[idx + 1] == next && #[trigger] met_along(
                    k2,
                    border,
                    a,
                    idx + 1,
                    len,
                );
            let a = a2.update(idx, set_mine);
            assert forall|t: int| idx + 1 <= t < len implies (#[trigger] through(
                k2,
                border,
                a,
                idx + 1,
                t,
            )).valid_around(cell(border[t])) by {
                lemma_supposed_agree(k2, border, a, a2, idx + 1, t + 1);
                assert(through(k2, border, a2, idx + 1, t).valid_around(cell(border[t])));
            }
            assert(met_along(k2, border, a, idx + 1, len));
            assert(a.len() == border.len() && a[idx] == set_mine);
            assert(met_along(k, border, a, idx, len));
        } else {
            let a = Seq::new(border.len(), |i: int| set_mine);
            assert(met_along(k2, border, a, idx + 1, len));
            assert(a.len() == border.len() && a[idx] == set_mine);
            assert(met_along(k, border, a, idx, len));
        }
    }
    if exists|a: Seq<bool>|
        a.len() == border.len() && a[idx] == set_mine && #[trigger] met_along(
            k,
            border,
            a,
            idx,
            len,
        ) {
        let a = choose|a: Seq<bool>|
            a.len() == border.len() && a[idx] == set_mine && #[trigger] met_along(
                k,
                border,
                a,
                idx,
                len,
            );
        assert(k2.valid_around(c) && met_along(k2, border, a, idx + 1, len));
        if idx + 1 < len {
            assert(consistent(k2, border, idx + 1, a[idx + 1]));
        } else {
            assert(consistent(k2, border, idx + 1, false));
        }
        assert(consistent(k, border, idx, set_mine));
    }
}

/// What the search decides. Of undetermined cells, each listed once, the
/// search finds the supposition about the cell at `idx` consistent exactly
/// when it can be carried on: when the cells from `idx` on can all be
/// supposed, that one as given, so that every constraint next to them can
/// be met.
pub proof fn lemma_consistent_iff_extendable(
    k: Knowledge,
    border: Seq<(usize, usize)>,
    idx: int,
    set_mine: bool,
)
    requires
        k.wf(),
        0 <= idx < border.len(),
        open_from(k, border, idx),
    ensures
        consistent(k, border, idx, set_mine) <==> extendable(k, border, idx, set_mine),
{
    let len = border.len() as int;
    lemma_consistent_iff_met_along(k, border, idx, set_mine);
    assert forall|a: Seq<bool>| a.len() == border.len() implies (met_along(k, border, a, idx, len)
        <==> meets(#[trigger] supposed(k, border, a, idx, len), border, idx, len)) by {
        lemma_met_along_iff_meets(k, border, a, idx, len);
    }
    if consistent(k, border, idx, set_mine) {
        let a = choose|a: Seq<bool>|
            a.len() == border.len() && a[idx] == set_mine && #[trigger] met_along(
                k,
                border,
                a,
                idx,
                len,
            );
        assert(meets(supposed(k, border, a, idx, len), border, idx, len));
    }
    if extendable(k, border, idx, set_mine) {
        let a = choose|a: Seq<bool>|
            a.len() == border.len() && a[idx] == set_mine && meets(
                #[trigger] supposed(k, border, a, idx, len),
                border,
                idx,
                len,
            );
        assert(met_along(k, border, a, idx, len));
    }
}

} // verus!
