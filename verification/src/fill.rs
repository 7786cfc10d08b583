use vstd::prelude::*;

use crate::array::{flat_index, lemma_index_bounds, lemma_index_onto};
use crate::cell::Cell;
use crate::count::{count_eq, lemma_count_mono};
use crate::region::{cell_at, on_grid};
use crate::Grid;

verus! {

/// `new` has the shape of `old` and differs from it only where `old` was empty
/// and `new` holds a colour: a solving step only ever fills in empty cells.
pub open spec fn only_fills(old: Grid, new: Grid) -> bool {
    &&& new.rows == old.rows
    &&& new.cols == old.cols
    &&& forall|r: int, c: int|
        #![trigger new.at(r, c)]
        old.contains_pos(r, c) ==> new.at(r, c) == old.at(r, c) || (old.at(r, c) == Cell::Empty
            && new.at(r, c) != Cell::Empty)
}

/// Some cell that was empty in `old` holds a colour in `new`.
pub open spec fn fills_some(old: Grid, new: Grid) -> bool {
    exists|r: int, c: int|
        old.contains_pos(r, c) && old.at(r, c) == Cell::Empty && #[trigger] new.at(r, c)
            != Cell::Empty
}

/// The number of empty cells.
pub open spec fn empty_count(g: Grid) -> nat {
    count_eq(g.data@, Cell::Empty)
}

/// Doing nothing only fills.
pub proof fn lemma_only_fills_refl(g: Grid)
    ensures
        only_fills(g, g),
{
}

/// Steps that only fill compose, and a fill made by either is made by both.
pub proof fn lemma_only_fills_trans(a: Grid, b: Grid, c: Grid)
    requires
        only_fills(a, b),
        only_fills(b, c),
    ensures
        only_fills(a, c),
        fills_some(a, b) ==> fills_some(a, c),
        fills_some(b, c) ==> fills_some(a, c),
{
    assert forall|r: int, cc: int|
        #![trigger c.at(r, cc)]
        a.contains_pos(r, cc) implies c.at(r, cc) == a.at(r, cc) || (a.at(r, cc) == Cell::Empty
        && c.at(r, cc) != Cell::Empty) by {
        assert(b.at(r, cc) == a.at(r, cc) || b.at(r, cc) != Cell::Empty);
    }
    if fills_some(a, b) {
        let (r, cc) = choose|r: int, cc: int|
            a.contains_pos(r, cc) && a.at(r, cc) == Cell::Empty && #[trigger] b.at(r, cc)
                != Cell::Empty;
        assert(c.at(r, cc) != Cell::Empty);
    }
    if fills_some(b, c) {
        let (r, cc) = choose|r: int, cc: int|
            b.contains_pos(r, cc) && b.at(r, cc) == Cell::Empty && #[trigger] c.at(r, cc)
                != Cell::Empty;
        assert(a.at(r, cc) == Cell::Empty);
    }
}

/// Filling in cells never adds an empty cell, and filling one in removes one.
pub proof fn lemma_fill_count(old: Grid, new: Grid)
    requires
        old.wf(),
        new.wf(),
        only_fills(old, new),
    ensures
        empty_count(new) <= empty_count(old),
        fills_some(old, new) ==> empty_count(new) < empty_count(old),
{
    let n = old.data@.len();
    assert forall|i: int| 0 <= i < new.data@.len() && new.data@[i] == Cell::Empty implies old.data@[i]
        == Cell::Empty by {
        lemma_index_onto(old.rows as int, old.cols as int, i);
        let r = i / (old.cols as int);
        let c = i % (old.cols as int);
        assert(new.at(r, c) == new.data@[i]);
    }
    lemma_count_mono(old.data@, new.data@, Cell::Empty);
    if fills_some(old, new) {
        let (r, c) = choose|r: int, c: int|
            old.contains_pos(r, c) && old.at(r, c) == Cell::Empty && #[trigger] new.at(r, c)
                != Cell::Empty;
        lemma_index_bounds(old.rows as int, old.cols as int, r, c);
        let i = flat_index(old.cols as int, r, c);
        assert(0 <= i < new.data@.len() && old.data@[i] == Cell::Empty && new.data@[i] != Cell::Empty);
    }
}

} // verus!

verus! {

/// `ch` lists, each once, the cells where `new` differs from `old`, each with
/// its new colour; every one of them was empty in `old`.
pub open spec fn lists_fills(old: Grid, new: Grid, ch: Seq<(usize, usize, Cell)>) -> bool {
    &&& forall|j: int|
        #![trigger ch[j]]
        0 <= j < ch.len() ==> old.contains_pos(ch[j].0 as int, ch[j].1 as int) && old.at(
            ch[j].0 as int,
            ch[j].1 as int,
        ) == Cell::Empty && new.at(ch[j].0 as int, ch[j].1 as int) == ch[j].2 && ch[j].2
            != Cell::Empty
    &&& forall|i: int, j: int|
        #![trigger ch[i], ch[j]]
        0 <= i < j < ch.len() ==> ch[i].0 != ch[j].0 || ch[i].1 != ch[j].1
    &&& forall|r: int, c: int|
        #![trigger new.at(r, c)]
        old.contains_pos(r, c) && new.at(r, c) != old.at(r, c) ==> exists|j: int|
            0 <= j < ch.len() && ch[j].0 == r && #[trigger] ch[j].1 == c
}

/// Writing one more colour into an empty cell keeps `new` a filling of `g0`
/// whose changes `ch` lists.
pub proof fn lemma_fill_cell(g0: Grid, gb: Grid, g1: Grid, ch: Seq<(usize, usize, Cell)>, p0: (int, int))
    requires
        gb.wf(),
        only_fills(g0, gb),
        ch.len() > 0,
        lists_fills(g0, gb, ch.drop_last()),
        ch.last().0 as int == p0.0,
        ch.last().1 as int == p0.1,
        ch.last().2 != Cell::Empty,
        p0.0 >= 0,
        p0.1 >= 0,
        on_grid(gb, p0),
        cell_at(gb, p0) == Cell::Empty,
        g0.at(p0.0, p0.1) == Cell::Empty,
        g1.rows == gb.rows,
        g1.cols == gb.cols,
        g1.at(p0.0, p0.1) == ch.last().2,
        forall|r2: int, c2: int|
            #![trigger g1.at(r2, c2)]
            gb.contains_pos(r2, c2) && (r2 != p0.0 || c2 != p0.1) ==> g1.at(r2, c2) == gb.at(r2, c2),
    ensures
        only_fills(g0, g1),
        lists_fills(g0, g1, ch),
{
    let old_ch = ch.drop_last();
    assert forall|r: int, c: int|
        #![trigger g1.at(r, c)]
        g0.contains_pos(r, c) implies g1.at(r, c) == g0.at(r, c) || (g0.at(r, c) == Cell::Empty
        && g1.at(r, c) != Cell::Empty) by {
        if r != p0.0 || c != p0.1 {
            assert(gb.at(r, c) == g0.at(r, c) || (g0.at(r, c) == Cell::Empty && gb.at(r, c) != Cell::Empty));
        }
    }
    assert forall|j: int|
        #![trigger ch[j]]
        0 <= j < ch.len() implies g0.contains_pos(ch[j].0 as int, ch[j].1 as int) && g0.at(
        ch[j].0 as int,
        ch[j].1 as int,
    ) == Cell::Empty && g1.at(ch[j].0 as int, ch[j].1 as int) == ch[j].2 && ch[j].2 != Cell::Empty by {
        if j < ch.len() - 1 {
            assert(ch[j] == old_ch[j]);
            let e = old_ch[j];
            assert(gb.at(e.0 as int, e.1 as int) == e.2);
            if e.0 as int == p0.0 && e.1 as int == p0.1 {
                assert(false);
            }
        }
    }
    assert forall|i: int, j: int|
        #![trigger ch[i], ch[j]]
        0 <= i < j < ch.len() implies ch[i].0 != ch[j].0 || ch[i].1 != ch[j].1 by {
        assert(ch[i] == old_ch[i]);
        if j < ch.len() - 1 {
            assert(ch[j] == old_ch[j]);
            assert(old_ch[i].0 != old_ch[j].0 || old_ch[i].1 != old_ch[j].1);
        } else {
            let e = old_ch[i];
            assert(gb.at(e.0 as int, e.1 as int) == e.2);
        }
    }
    assert forall|r: int, c: int|
        #![trigger g1.at(r, c)]
        g0.contains_pos(r, c) && g1.at(r, c) != g0.at(r, c) implies exists|j: int|
        0 <= j < ch.len() && ch[j].0 == r && #[trigger] ch[j].1 == c by {
        if r == p0.0 && c == p0.1 {
            assert(ch[ch.len() - 1].1 == c);
        } else {
            assert(gb.at(r, c) != g0.at(r, c));
            let j = choose|j: int| 0 <= j < old_ch.len() && old_ch[j].0 == r && #[trigger] old_ch[j].1 == c;
            assert(ch[j] == old_ch[j]);
        }
    }
}

} // verus!
