use vstd::prelude::*;

use crate::array::{flat_index, lemma_index_bounds, lemma_index_injective, lemma_index_onto};
use crate::cell::Cell;
use crate::fill::lists_fills;
use crate::solve_path::{
    extends, lemma_extends_one, lemma_extends_recorded, lemma_extends_trans, recorded, SolvePath,
    SolveStep,
};
use crate::Grid;

verus! {

/// The index in the cells of a grid with `cols` columns of the cell that a
/// change (row, col, colour) names.
pub open spec fn change_index(cols: int, e: (usize, usize, Cell)) -> int {
    e.0 * cols + e.1
}

/// The cells after the first `n` changes of `ch`, each (row, col, colour).
pub open spec fn apply_changes(cells: Seq<Cell>, cols: int, ch: Seq<(usize, usize, Cell)>, n: int) -> Seq<Cell>
    decreases n,
{
    if n <= 0 || n > ch.len() {
        cells
    } else {
        apply_changes(cells, cols, ch, n - 1).update(change_index(cols, ch[n - 1]), ch[n - 1].2)
    }
}

/// What a step writes into the cells of a grid with `cols` columns: the colour
/// of each cell it names.
pub open spec fn step_effect(cols: int, cells: Seq<Cell>, step: SolveStep) -> Seq<Cell> {
    match step {
        SolveStep::ApplySolid2x2(r, c, cell) => cells.update(r * cols + c, cell),
        SolveStep::ApplyCheckerboard2x2(r, c, cell) => cells.update(r * cols + c, cell),
        SolveStep::ApplyBorder(ch) => apply_changes(cells, cols, ch@, ch@.len() as int),
        SolveStep::ApplyConnectivity(ch) => apply_changes(cells, cols, ch@, ch@.len() as int),
        SolveStep::ApplyPbc(r, c, cell, _) => cells.update(r * cols + c, cell),
    }
}

/// The cells after `steps`, one after another.
pub open spec fn replay(cols: int, cells: Seq<Cell>, steps: Seq<SolveStep>) -> Seq<Cell>
    decreases steps.len(),
{
    if steps.len() == 0 {
        cells
    } else {
        step_effect(cols, replay(cols, cells, steps.drop_last()), steps.last())
    }
}

/// `p1` extends `p0`, and the steps added, replayed on the cells of `g0`, give
/// the cells of `g1`.
pub open spec fn replays(p0: Option<SolvePath>, p1: Option<SolvePath>, g0: Grid, g1: Grid) -> bool {
    &&& extends(p0, p1)
    &&& (p0 matches Some(v) ==> replay(g0.cols as int, g0.data@, p1->0@.skip(v@.len() as int)) == g1.data@)
}

/// Replaying two lists of steps one after the other is replaying them joined.
pub proof fn lemma_replay_concat(cols: int, cells: Seq<Cell>, s1: Seq<SolveStep>, s2: Seq<SolveStep>)
    ensures
        replay(cols, cells, s1 + s2) == replay(cols, replay(cols, cells, s1), s2),
    decreases s2.len(),
{
    if s2.len() == 0 {
        assert(s1 + s2 =~= s1);
    } else {
        assert((s1 + s2).drop_last() =~= s1 + s2.drop_last());
        assert((s1 + s2).last() == s2.last());
        lemma_replay_concat(cols, cells, s1, s2.drop_last());
    }
}

/// One step replayed is its effect.
pub proof fn lemma_replay_one(cols: int, cells: Seq<Cell>, step: SolveStep)
    ensures
        replay(cols, cells, seq![step]) == step_effect(cols, cells, step),
{
    let s = seq![step];
    assert(s.drop_last() =~= Seq::<SolveStep>::empty());
    assert(replay(cols, cells, s.drop_last()) == cells);
    assert(s.last() == step);
}

/// Nothing recorded and nothing changed.
pub proof fn lemma_replays_same(p: Option<SolvePath>, g: Grid)
    ensures
        replays(p, p, g, g),
{
    lemma_extends_one(p, p);
    if let Some(v) = p {
        assert(v@.skip(v@.len() as int) =~= Seq::<SolveStep>::empty());
    }
}

/// The steps recorded, replayed on the cells of `g0`, give those of `g1`.
pub proof fn lemma_replays_recorded(
    p0: Option<SolvePath>,
    p1: Option<SolvePath>,
    g0: Grid,
    g1: Grid,
    s: Seq<SolveStep>,
)
    requires
        recorded(p0, p1, s),
        replay(g0.cols as int, g0.data@, s) == g1.data@,
    ensures
        replays(p0, p1, g0, g1),
{
    lemma_extends_recorded(p0, p1, s);
    if let Some(v) = p0 {
        assert(p1->0@.skip(v@.len() as int) =~= s);
    }
}

/// Replays compose.
pub proof fn lemma_replays_trans(
    p0: Option<SolvePath>,
    p1: Option<SolvePath>,
    p2: Option<SolvePath>,
    g0: Grid,
    g1: Grid,
    g2: Grid,
)
    requires
        replays(p0, p1, g0, g1),
        replays(p1, p2, g1, g2),
        g1.cols == g0.cols,
    ensures
        replays(p0, p2, g0, g2),
{
    lemma_extends_trans(p0, p1, p2);
    if let Some(v0) = p0 {
        let v1 = p1->0@;
        let v2 = p2->0@;
        let n0 = v0@.len() as int;
        let n1 = v1.len() as int;
        assert(v2.skip(n0) =~= v1.skip(n0) + v2.skip(n1)) by {
            assert forall|i: int| 0 <= i < v2.len() - n0 implies v2.skip(n0)[i] == (v1.skip(n0) + v2.skip(
                n1,
            ))[i] by {
                if i < n1 - n0 {
                    assert(v2.take(n1)[n0 + i] == v1[n0 + i]);
                }
            }
        }
        lemma_replay_concat(g0.cols as int, g0.data@, v1.skip(n0), v2.skip(n1));
    }
}

/// Writing changes that name cells inside `cells` keeps its length.
proof fn lemma_apply_changes_len(cells: Seq<Cell>, cols: int, ch: Seq<(usize, usize, Cell)>, n: int)
    requires
        0 <= n <= ch.len(),
        forall|j: int| 0 <= j < n ==> 0 <= #[trigger] change_index(cols, ch[j]) < cells.len(),
    ensures
        apply_changes(cells, cols, ch, n).len() == cells.len(),
    decreases n,
{
    if n > 0 {
        lemma_apply_changes_len(cells, cols, ch, n - 1);
    }
}

/// Writing the changes `ch` over `cells`: an index no change names keeps its
/// value, and an index takes the colour of the last change naming it.
proof fn lemma_apply_changes_at(cells: Seq<Cell>, cols: int, ch: Seq<(usize, usize, Cell)>, n: int, i: int)
    requires
        0 <= n <= ch.len(),
        forall|j: int| 0 <= j < n ==> 0 <= #[trigger] change_index(cols, ch[j]) < cells.len(),
        0 <= i < cells.len(),
    ensures
        (forall|j: int| 0 <= j < n ==> #[trigger] change_index(cols, ch[j]) != i) ==> apply_changes(
            cells,
            cols,
            ch,
            n,
        )[i] == cells[i],
        forall|j: int|
            0 <= j < n && #[trigger] change_index(cols, ch[j]) == i && (forall|j2: int|
                j < j2 < n ==> #[trigger] change_index(cols, ch[j2]) != i) ==> apply_changes(cells, cols, ch, n)[i]
                == ch[j].2,
    decreases n,
{
    if n > 0 {
        lemma_apply_changes_at(cells, cols, ch, n - 1, i);
        lemma_apply_changes_len(cells, cols, ch, n - 1);
        assert forall|j: int|
            0 <= j < n && #[trigger] change_index(cols, ch[j]) == i && (forall|j2: int|
                j < j2 < n ==> #[trigger] change_index(cols, ch[j2]) != i) implies apply_changes(cells, cols, ch, n)[i]
            == ch[j].2 by {
            if j < n - 1 {
                assert(change_index(cols, ch[n - 1]) != i);
            }
        }
    }
}

/// Writing the changes that `ch` lists from `old` to `new` over the cells of
/// `old` gives the cells of `new`.
pub proof fn lemma_changes_replay(old: Grid, new: Grid, ch: Seq<(usize, usize, Cell)>)
    requires
        old.wf(),
        new.wf(),
        new.rows == old.rows,
        new.cols == old.cols,
        lists_fills(old, new, ch),
    ensures
        apply_changes(old.data@, old.cols as int, ch, ch.len() as int) == new.data@,
{
    let cols = old.cols as int;
    let rows = old.rows as int;
    let n = ch.len() as int;
    assert forall|j: int| 0 <= j < n implies 0 <= #[trigger] change_index(cols, ch[j]) < old.data@.len() by {
        lemma_index_bounds(rows, cols, ch[j].0 as int, ch[j].1 as int);
    }
    let res = apply_changes(old.data@, cols, ch, n);
    lemma_apply_changes_len(old.data@, cols, ch, n);
    assert forall|i: int| 0 <= i < old.data@.len() implies res[i] == new.data@[i] by {
        lemma_apply_changes_at(old.data@, cols, ch, n, i);
        lemma_index_onto(rows, cols, i);
        let r = i / cols;
        let c = i % cols;
        assert(flat_index(cols, r, c) == i);
        if new.at(r, c) != old.at(r, c) {
            let j = choose|j: int| 0 <= j < n && ch[j].0 == r && #[trigger] ch[j].1 == c;
            assert(change_index(cols, ch[j]) == i);
            assert forall|j2: int| j < j2 < n implies #[trigger] change_index(cols, ch[j2]) != i by {
                if change_index(cols, ch[j2]) == i {
                    lemma_index_injective(cols, ch[j2].0 as int, ch[j2].1 as int, r, c);
                }
            }
        } else {
            assert forall|j: int| 0 <= j < n implies #[trigger] change_index(cols, ch[j]) != i by {
                if change_index(cols, ch[j]) == i {
                    lemma_index_injective(cols, ch[j].0 as int, ch[j].1 as int, r, c);
                }
            }
        }
    }
    assert(res =~= new.data@);
}

} // verus!
