use vstd::prelude::*;

use crate::array::{flat_index, lemma_index_bounds, lemma_index_injective, lemma_index_onto};
use crate::cell::{opposite, Cell};
use crate::ext::CellExt;
use crate::fill::{fills_some, only_fills};
use crate::replay::{lemma_replays_recorded, replay, replays};
use crate::rules::{has_2x2_violation, rule_check, solves, violates_2x2, window_in_grid, RuleCheck};
use crate::solve_path::{record, recorded, SolvePath, SolveStep};
use crate::Grid;

verus! {

/// What the 2x2 rule deduces from the block with top-left corner (r, c):
/// (row, col, colour, solid). Where the two cells of one diagonal hold the same
/// colour and one cell of the other diagonal is empty while its partner is
/// filled, the empty cell takes the colour opposite to its partner (else the
/// block would be solid or a checkerboard); `solid` tells which of the two it avoids.
pub open spec fn window_report(g: Grid, r: int, c: int) -> Option<(int, int, Cell, bool)> {
    let c0 = g.at(r, c);
    let c1 = g.at(r, c + 1);
    let c2 = g.at(r + 1, c);
    let c3 = g.at(r + 1, c + 1);
    if c1 == c2 && c1 != Cell::Empty {
        if c0 == Cell::Empty && c3 != Cell::Empty {
            Some((r, c, opposite(c3), c1 == c3))
        } else if c3 == Cell::Empty && c0 != Cell::Empty {
            Some((r + 1, c + 1, opposite(c0), c1 == c0))
        } else {
            None
        }
    } else if c0 == c3 && c0 != Cell::Empty {
        if c1 == Cell::Empty && c2 != Cell::Empty {
            Some((r, c + 1, opposite(c2), c0 == c2))
        } else if c2 == Cell::Empty && c1 != Cell::Empty {
            Some((r + 1, c, opposite(c1), c0 == c1))
        } else {
            None
        }
    } else {
        None
    }
}

/// The value as a sequence of one element, or none.
pub open spec fn opt_seq<A>(o: Option<A>) -> Seq<A> {
    match o {
        Some(a) => seq![a],
        None => Seq::empty(),
    }
}

/// The deductions of the blocks (r, 0), ..., (r, n - 1), in that order.
pub open spec fn row_reports(g: Grid, r: int, n: int) -> Seq<(int, int, Cell, bool)>
    decreases n,
{
    if n <= 0 {
        Seq::empty()
    } else {
        row_reports(g, r, n - 1) + opt_seq(window_report(g, r, n - 1))
    }
}

/// The deductions of all blocks in rows 0, ..., m - 1, row by row.
pub open spec fn reports_upto(g: Grid, m: int) -> Seq<(int, int, Cell, bool)>
    decreases m,
{
    if m <= 0 {
        Seq::empty()
    } else {
        reports_upto(g, m - 1) + row_reports(g, m - 1, g.cols - 1)
    }
}

/// The deductions of every 2x2 block of the grid, row by row.
pub open spec fn reports_2x2(g: Grid) -> Seq<(int, int, Cell, bool)> {
    reports_upto(g, g.rows - 1)
}

/// The colour of the last deduction for (r, c), if any.
pub open spec fn last_fill(reps: Seq<(int, int, Cell, bool)>, r: int, c: int) -> Option<Cell>
    decreases reps.len(),
{
    if reps.len() == 0 {
        None
    } else if reps.last().0 == r && reps.last().1 == c {
        Some(reps.last().2)
    } else {
        last_fill(reps.drop_last(), r, c)
    }
}

/// The cell (r, c) after all deductions of the 2x2 rule have been written.
pub open spec fn after_2x2(g: Grid, r: int, c: int) -> Cell {
    match last_fill(reports_2x2(g), r, c) {
        Some(v) => v,
        None => g.at(r, c),
    }
}

/// The solve step recording a deduction.
pub open spec fn report_step(rep: (int, int, Cell, bool)) -> SolveStep {
    if rep.3 {
        SolveStep::ApplySolid2x2(rep.0 as usize, rep.1 as usize, rep.2)
    } else {
        SolveStep::ApplyCheckerboard2x2(rep.0 as usize, rep.1 as usize, rep.2)
    }
}

/// The solve steps recording the deductions, in order.
pub open spec fn report_steps(reps: Seq<(int, int, Cell, bool)>) -> Seq<SolveStep> {
    reps.map_values(|rep: (int, int, Cell, bool)| report_step(rep))
}

/// A deduction names an empty cell of the grid and a colour.
pub open spec fn valid_report(g: Grid, rep: (int, int, Cell, bool)) -> bool {
    &&& g.contains_pos(rep.0, rep.1)
    &&& g.at(rep.0, rep.1) == Cell::Empty
    &&& rep.2 != Cell::Empty
}

proof fn lemma_last_fill_valid(g: Grid, reps: Seq<(int, int, Cell, bool)>, r: int, c: int)
    requires
        forall|j: int| 0 <= j < reps.len() ==> valid_report(g, #[trigger] reps[j]),
    ensures
        last_fill(reps, r, c) matches Some(v) ==> g.contains_pos(r, c) && g.at(r, c) == Cell::Empty
            && v != Cell::Empty,
    decreases reps.len(),
{
    if reps.len() > 0 {
        assert(valid_report(g, reps[reps.len() - 1]));
        let rest = reps.drop_last();
        assert forall|j: int| 0 <= j < rest.len() implies valid_report(g, #[trigger] rest[j]) by {
            assert(rest[j] == reps[j]);
        }
        lemma_last_fill_valid(g, rest, r, c);
    }
}

/// Replaying the steps of valid deductions keeps the length of the cells.
proof fn lemma_replay_reports_len(g: Grid, reps: Seq<(int, int, Cell, bool)>)
    requires
        g.wf(),
        forall|j: int| 0 <= j < reps.len() ==> valid_report(g, #[trigger] reps[j]),
    ensures
        replay(g.cols as int, g.data@, report_steps(reps)).len() == g.data@.len(),
    decreases reps.len(),
{
    if reps.len() > 0 {
        let rest = reps.drop_last();
        assert forall|j: int| 0 <= j < rest.len() implies valid_report(g, #[trigger] rest[j]) by {
            assert(rest[j] == reps[j]);
        }
        lemma_replay_reports_len(g, rest);
        assert(report_steps(reps).drop_last() =~= report_steps(rest));
        let e = reps.last();
        assert(valid_report(g, reps[reps.len() - 1]));
        lemma_index_bounds(g.rows as int, g.cols as int, e.0, e.1);
    } else {
        assert(report_steps(reps) =~= Seq::<SolveStep>::empty());
    }
}

/// Replaying the steps of valid deductions one after another leaves at each
/// cell the last deduction for it, or the cell as it was.
proof fn lemma_replay_reports(g: Grid, reps: Seq<(int, int, Cell, bool)>, i: int)
    requires
        g.wf(),
        forall|j: int| 0 <= j < reps.len() ==> valid_report(g, #[trigger] reps[j]),
        0 <= i < g.data@.len(),
    ensures
        replay(g.cols as int, g.data@, report_steps(reps))[i] == match last_fill(
            reps,
            i / g.cols as int,
            i % g.cols as int,
        ) {
            Some(v) => v,
            None => g.data@[i],
        },
    decreases reps.len(),
{
    let cols = g.cols as int;
    lemma_index_onto(g.rows as int, cols, i);
    if reps.len() > 0 {
        let rest = reps.drop_last();
        assert forall|j: int| 0 <= j < rest.len() implies valid_report(g, #[trigger] rest[j]) by {
            assert(rest[j] == reps[j]);
        }
        lemma_replay_reports(g, rest, i);
        lemma_replay_reports_len(g, rest);
        assert(report_steps(reps).drop_last() =~= report_steps(rest));
        let e = reps.last();
        assert(valid_report(g, reps[reps.len() - 1]));
        lemma_index_bounds(g.rows as int, cols, e.0, e.1);
        let k = flat_index(cols, e.0, e.1);
        if k == i {
            lemma_index_injective(cols, e.0, e.1, i / cols, i % cols);
        } else {
            assert(!(e.0 == i / cols && e.1 == i % cols));
        }
    } else {
        assert(report_steps(reps) =~= Seq::<SolveStep>::empty());
    }
}

/// Applies the 2x2 rule to every 2x2 block at once: each deduction is made from
/// the grid as it was on entry, and where two deductions name one cell the later
/// one (row by row) is written. Returns whether any deduction was made.
pub fn apply(grid: &mut Grid, path: &mut Option<SolvePath>) -> (res: bool)
    requires
        old(grid).wf(),
    ensures
        final(grid).wf(),
        final(grid).rows == old(grid).rows,
        final(grid).cols == old(grid).cols,
        forall|r: int, c: int|
            #![trigger final(grid).at(r, c)]
            old(grid).contains_pos(r, c) ==> final(grid).at(r, c) == after_2x2(*old(grid), r, c),
        res == (reports_2x2(*old(grid)).len() > 0),
        recorded(*old(path), *final(path), report_steps(reports_2x2(*old(grid)))),
        replays(*old(path), *final(path), *old(grid), *final(grid)),
        !res ==> *final(path) == *old(path),
        only_fills(*old(grid), *final(grid)),
        res == fills_some(*old(grid), *final(grid)),
        !res ==> *final(grid) == *old(grid),
{
    let ghost g = *grid;
    let ghost path0 = *path;
    let mut made_progress = false;
    let mut next = grid.copy();
    let rows = grid.rows();
    let cols = grid.cols();
    let ghost mut reps: Seq<(int, int, Cell, bool)> = Seq::empty();
    proof {
        crate::solve_path::lemma_recorded_none(*path);
        assert(report_steps(reps) =~= Seq::<SolveStep>::empty());
    }
    let mut r: usize = 0;
    while r + 1 < rows
        invariant
            g == *old(grid),
            g.wf(),
            *grid == g,
            path0 == *old(path),
            rows == g.rows,
            cols == g.cols,
            r <= rows,
            r == 0 || r + 1 <= rows,
            next.wf(),
            next.rows == g.rows,
            next.cols == g.cols,
            reps == reports_upto(g, r as int),
            forall|rr: int, cc: int|
                #![trigger next.at(rr, cc)]
                g.contains_pos(rr, cc) ==> next.at(rr, cc) == match last_fill(reps, rr, cc) {
                    Some(v) => v,
                    None => g.at(rr, cc),
                },
            made_progress == (reps.len() > 0),
            !made_progress ==> *path == path0,
            recorded(path0, *path, report_steps(reps)),
            forall|j: int| 0 <= j < reps.len() ==> valid_report(g, #[trigger] reps[j]),
        decreases rows - r,
    {
        let mut c: usize = 0;
        while c + 1 < cols
            invariant
                g == *old(grid),
                g.wf(),
                *grid == g,
                path0 == *old(path),
                rows == g.rows,
                cols == g.cols,
                r + 1 < rows,
                c <= cols,
                c == 0 || c + 1 <= cols,
                next.wf(),
                next.rows == g.rows,
                next.cols == g.cols,
                reps == reports_upto(g, r as int) + row_reports(g, r as int, c as int),
                forall|rr: int, cc: int|
                    #![trigger next.at(rr, cc)]
                    g.contains_pos(rr, cc) ==> next.at(rr, cc) == match last_fill(reps, rr, cc) {
                        Some(v) => v,
                        None => g.at(rr, cc),
                    },
                made_progress == (reps.len() > 0),
                !made_progress ==> *path == path0,
            !made_progress ==> *path == path0,
                recorded(path0, *path, report_steps(reps)),
                forall|j: int| 0 <= j < reps.len() ==> valid_report(g, #[trigger] reps[j]),
            decreases cols - c,
        {
            let c0 = grid.get(r, c);
            let c1 = grid.get(r, c + 1);
            let c2 = grid.get(r + 1, c);
            let c3 = grid.get(r + 1, c + 1);
            let mut rep: Option<(usize, usize, Cell, bool)> = None;
            if c1 == c2 && !c1.empty() {
                if c0.empty() && !c3.empty() {
                    rep = Some((r, c, c3.inv(), c1 == c3));
                } else if c3.empty() && !c0.empty() {
                    rep = Some((r + 1, c + 1, c0.inv(), c1 == c0));
                }
            } else if c0 == c3 && !c0.empty() {
                if c1.empty() && !c2.empty() {
                    rep = Some((r, c + 1, c2.inv(), c0 == c2));
                } else if c2.empty() && !c1.empty() {
                    rep = Some((r + 1, c, c1.inv(), c0 == c1));
                }
            }
            let ghost wr = window_report(g, r as int, c as int);
            proof {
                assert(row_reports(g, r as int, c + 1) == row_reports(g, r as int, c as int) + opt_seq(
                    wr,
                ));
                assert(reports_upto(g, r as int) + row_reports(g, r as int, c + 1) =~= reps + opt_seq(
                    wr,
                ));
            }
            match rep {
                Some((rr, cc, color, solid)) => {
                    let ghost e = (rr as int, cc as int, color, solid);
                    proof {
                        assert(wr == Some(e));
                    }
                    next.set(rr, cc, color);
                    made_progress = true;
                    let step = if solid {
                        SolveStep::ApplySolid2x2(rr, cc, color)
                    } else {
                        SolveStep::ApplyCheckerboard2x2(rr, cc, color)
                    };
                    let ghost old_path = *path;
                    record(path, step);
                    proof {
                        let reps2 = reps.push(e);
                        assert(reps2 =~= reps + opt_seq(wr));
                        assert(reps2.drop_last() =~= reps);
                        assert(report_steps(reps2) =~= report_steps(reps) + seq![step]);
                        crate::solve_path::lemma_recorded_trans(
                            path0,
                            old_path,
                            *path,
                            report_steps(reps),
                            seq![step],
                        );
                        assert forall|j: int| 0 <= j < reps2.len() implies valid_report(g, #[trigger] reps2[j]) by {
                            if j < reps.len() {
                                assert(reps2[j] == reps[j]);
                            }
                        }
                        reps = reps2;
                    }
                },
                None => {
                    proof {
                        assert(wr is None);
                        assert(reps + opt_seq(wr) =~= reps);
                    }
                },
            }
            c = c + 1;
        }
        proof {
            assert(row_reports(g, r as int, c as int) == row_reports(g, r as int, cols - 1));
            assert(reports_upto(g, r + 1) == reports_upto(g, r as int) + row_reports(
                g,
                r as int,
                cols - 1,
            ));
        }
        r = r + 1;
    }
    proof {
        assert(reports_upto(g, r as int) == reports_2x2(g));
        assert forall|rr: int, cc: int|
            #![trigger next.at(rr, cc)]
            g.contains_pos(rr, cc) implies next.at(rr, cc) == g.at(rr, cc) || (g.at(rr, cc)
            == Cell::Empty && next.at(rr, cc) != Cell::Empty) by {
            lemma_last_fill_valid(g, reps, rr, cc);
        }
        if reps.len() > 0 {
            let e = reps.last();
            assert(valid_report(g, reps[reps.len() - 1]));
            assert(last_fill(reps, e.0, e.1) == Some(e.2));
            assert(next.at(e.0, e.1) != Cell::Empty);
        }
        lemma_replay_reports_len(g, reps);
        assert forall|i: int| 0 <= i < g.data@.len() implies replay(g.cols as int, g.data@, report_steps(reps))[i]
            == next.data@[i] by {
            lemma_replay_reports(g, reps, i);
            lemma_index_onto(g.rows as int, g.cols as int, i);
            assert(next.at(i / g.cols as int, i % g.cols as int) == next.data@[i]);
        }
        assert(replay(g.cols as int, g.data@, report_steps(reps)) =~= next.data@);
        if !made_progress {
            assert(report_steps(reps) =~= Seq::<SolveStep>::empty());
        }
    }
    if made_progress {
        *grid = next;
    }
    proof {
        lemma_replays_recorded(path0, *path, g, *grid, report_steps(reps));
    }
    made_progress
}

/// A deduction of the 2x2 rule holds in every solution: with the other three
/// cells of the block as they are, the opposite choice would make the block
/// solid or a checkerboard.
pub proof fn lemma_window_forced(g: Grid, sol: Grid, r: int, c: int)
    requires
        g.wf(),
        window_in_grid(g, r, c),
        window_report(g, r, c) is Some,
        solves(g, sol),
    ensures
        ({
            let rep = window_report(g, r, c)->0;
            sol.at(rep.0, rep.1) == rep.2
        }),
{
    let rep = window_report(g, r, c)->0;
    assert(g.contains_pos(r, c) && g.contains_pos(r, c + 1) && g.contains_pos(r + 1, c)
        && g.contains_pos(r + 1, c + 1));
    assert(sol.at(r, c) != Cell::Empty && sol.at(r, c + 1) != Cell::Empty && sol.at(r + 1, c) != Cell::Empty
        && sol.at(r + 1, c + 1) != Cell::Empty) by {
        assert(!crate::rules::has_empty(sol)) by {
            if crate::rules::has_empty(sol) {
                assert(rule_check(sol) != RuleCheck::Solved);
            }
        }
        assert(crate::region::cell_at(sol, (r, c)) != Cell::Empty);
        assert(crate::region::cell_at(sol, (r, c + 1)) != Cell::Empty);
        assert(crate::region::cell_at(sol, (r + 1, c)) != Cell::Empty);
        assert(crate::region::cell_at(sol, (r + 1, c + 1)) != Cell::Empty);
    }
    assert(!violates_2x2(sol, r, c)) by {
        if violates_2x2(sol, r, c) {
            assert(window_in_grid(sol, r, c));
            assert(has_2x2_violation(sol));
        }
    }
}

/// Every deduction in `reps` (a run of block deductions of `g`) holds in `sol`.
spec fn reports_hold(sol: Grid, reps: Seq<(int, int, Cell, bool)>) -> bool {
    forall|j: int| 0 <= j < reps.len() ==> sol.at(#[trigger] reps[j].0, reps[j].1) == reps[j].2
}

proof fn lemma_row_reports_hold(g: Grid, sol: Grid, r: int, n: int)
    requires
        g.wf(),
        solves(g, sol),
        0 <= r,
        r + 1 < g.rows,
        n <= g.cols - 1,
    ensures
        reports_hold(sol, row_reports(g, r, n)),
    decreases n,
{
    if n > 0 {
        lemma_row_reports_hold(g, sol, r, n - 1);
        let rest = row_reports(g, r, n - 1);
        let all = row_reports(g, r, n);
        if window_report(g, r, n - 1) is Some {
            lemma_window_forced(g, sol, r, n - 1);
        }
        assert forall|j: int| 0 <= j < all.len() implies sol.at(#[trigger] all[j].0, all[j].1) == all[j].2 by {
            if j < rest.len() {
                assert(all[j] == rest[j]);
            }
        }
    }
}

proof fn lemma_reports_upto_hold(g: Grid, sol: Grid, m: int)
    requires
        g.wf(),
        solves(g, sol),
        m <= g.rows - 1,
    ensures
        reports_hold(sol, reports_upto(g, m)),
    decreases m,
{
    if m > 0 {
        lemma_reports_upto_hold(g, sol, m - 1);
        lemma_row_reports_hold(g, sol, m - 1, g.cols - 1);
        let a = reports_upto(g, m - 1);
        let b = row_reports(g, m - 1, g.cols - 1);
        let all = reports_upto(g, m);
        assert(all == a + b);
        assert forall|j: int| 0 <= j < all.len() implies sol.at(#[trigger] all[j].0, all[j].1) == all[j].2 by {
            if j < a.len() {
                assert(all[j] == a[j]);
            } else {
                assert(all[j] == b[j - a.len()]);
            }
        }
    }
}

proof fn lemma_last_fill_holds(sol: Grid, reps: Seq<(int, int, Cell, bool)>, r: int, c: int)
    requires
        reports_hold(sol, reps),
    ensures
        last_fill(reps, r, c) matches Some(v) ==> sol.at(r, c) == v,
    decreases reps.len(),
{
    if reps.len() > 0 {
        let rest = reps.drop_last();
        assert(sol.at(reps[reps.len() - 1].0, reps[reps.len() - 1].1) == reps[reps.len() - 1].2);
        assert forall|j: int| 0 <= j < rest.len() implies sol.at(#[trigger] rest[j].0, rest[j].1) == rest[j].2 by {
            assert(rest[j] == reps[j]);
        }
        lemma_last_fill_holds(sol, rest, r, c);
    }
}

/// The 2x2 rule keeps every solution: a solution of `g` is a solution of the
/// grid the rule leaves.
pub proof fn lemma_2x2_keeps_solutions(g: Grid, next: Grid, sol: Grid)
    requires
        g.wf(),
        next.rows == g.rows,
        next.cols == g.cols,
        forall|r: int, c: int|
            #![trigger next.at(r, c)]
            g.contains_pos(r, c) ==> next.at(r, c) == after_2x2(g, r, c),
        solves(g, sol),
    ensures
        solves(next, sol),
{
    lemma_reports_upto_hold(g, sol, g.rows - 1);
    assert forall|r: int, c: int|
        #![trigger sol.at(r, c)]
        next.contains_pos(r, c) implies sol.at(r, c) == next.at(r, c) || (next.at(r, c) == Cell::Empty
        && sol.at(r, c) != Cell::Empty) by {
        lemma_last_fill_holds(sol, reports_2x2(g), r, c);
        assert(sol.at(r, c) == g.at(r, c) || (g.at(r, c) == Cell::Empty && sol.at(r, c) != Cell::Empty));
    }
}

/// The cell at `p` of `g`, with the cell `x` taken to hold `k` instead.
pub open spec fn cell_with(g: Grid, x: (int, int), k: Cell, p: (int, int)) -> Cell {
    if p == x {
        k
    } else {
        g.at(p.0, p.1)
    }
}

/// `x` is one of the four cells of the 2x2 block with top-left corner (r, c).
pub open spec fn in_block(r: int, c: int, x: (int, int)) -> bool {
    (x.0 == r || x.0 == r + 1) && (x.1 == c || x.1 == c + 1)
}

/// The cells of the block at (r, c) other than `x` are filled.
pub open spec fn others_filled(g: Grid, r: int, c: int, x: (int, int)) -> bool {
    &&& ((r, c) != x ==> g.at(r, c) != Cell::Empty)
    &&& ((r, c + 1) != x ==> g.at(r, c + 1) != Cell::Empty)
    &&& ((r + 1, c) != x ==> g.at(r + 1, c) != Cell::Empty)
    &&& ((r + 1, c + 1) != x ==> g.at(r + 1, c + 1) != Cell::Empty)
}

/// With `x` holding `k`, the block at (r, c) is solid or a checkerboard: its
/// diagonals each hold one colour.
pub open spec fn block_bad_with(g: Grid, r: int, c: int, x: (int, int), k: Cell) -> bool {
    let a = cell_with(g, x, k, (r, c));
    let b = cell_with(g, x, k, (r, c + 1));
    let d = cell_with(g, x, k, (r + 1, c));
    let e = cell_with(g, x, k, (r + 1, c + 1));
    a != Cell::Empty && b != Cell::Empty && a == e && b == d
}

/// With `x` holding `k`, all four cells of the block at (r, c) hold `k`.
pub open spec fn block_solid_with(g: Grid, r: int, c: int, x: (int, int), k: Cell) -> bool {
    &&& cell_with(g, x, k, (r, c)) == k
    &&& cell_with(g, x, k, (r, c + 1)) == k
    &&& cell_with(g, x, k, (r + 1, c)) == k
    &&& cell_with(g, x, k, (r + 1, c + 1)) == k
}

/// What a block deduces, in terms of the block itself: a deduction names the
/// one empty cell of a block whose other cells are filled and which the
/// opposite colour would make solid or a checkerboard; and every such cell is
/// deduced.
proof fn lemma_window_report_meaning(g: Grid, r: int, c: int)
    ensures
        forall|x: (int, int), k: Cell|
            #![trigger block_bad_with(g, r, c, x, k)]
            in_block(r, c, x) && g.at(x.0, x.1) == Cell::Empty && others_filled(g, r, c, x) && block_bad_with(
                g,
                r,
                c,
                x,
                k,
            ) ==> window_report(g, r, c) == Some((x.0, x.1, opposite(k), block_solid_with(g, r, c, x, k))),
        window_report(g, r, c) matches Some(e) ==> {
            let x = (e.0, e.1);
            &&& in_block(r, c, x)
            &&& g.at(x.0, x.1) == Cell::Empty
            &&& others_filled(g, r, c, x)
            &&& e.2 != Cell::Empty
            &&& block_bad_with(g, r, c, x, opposite(e.2))
            &&& e.3 == block_solid_with(g, r, c, x, opposite(e.2))
        },
{
}

/// The deductions of the blocks of row `r` up to column `n` are those of
/// the blocks (r, 0), ..., (r, n - 1).
proof fn lemma_row_reports_members(g: Grid, r: int, n: int)
    ensures
        forall|cc: int| #![trigger window_report(g, r, cc)] 0 <= cc < n && window_report(g, r, cc) is Some
            ==> row_reports(g, r, n).contains(window_report(g, r, cc)->0),
        forall|j: int|
            #![trigger row_reports(g, r, n)[j]]
            0 <= j < row_reports(g, r, n).len() ==> exists|cc: int|
                0 <= cc < n && #[trigger] window_report(g, r, cc) == Some(row_reports(g, r, n)[j]),
    decreases n,
{
    if n > 0 {
        lemma_row_reports_members(g, r, n - 1);
        let a = row_reports(g, r, n - 1);
        let all = row_reports(g, r, n);
        assert(all == a + opt_seq(window_report(g, r, n - 1)));
        assert forall|cc: int| #![trigger window_report(g, r, cc)] 0 <= cc < n && window_report(g, r, cc) is Some
            implies all.contains(window_report(g, r, cc)->0) by {
            if cc < n - 1 {
                let j = choose|j: int| 0 <= j < a.len() && a[j] == window_report(g, r, cc)->0;
                assert(all[j] == a[j]);
            } else {
                assert(all[a.len() as int] == window_report(g, r, cc)->0);
            }
        }
        assert forall|j: int| #![trigger all[j]] 0 <= j < all.len() implies exists|cc: int|
            0 <= cc < n && #[trigger] window_report(g, r, cc) == Some(all[j]) by {
            if j < a.len() {
                assert(all[j] == a[j]);
                let cc = choose|cc: int| 0 <= cc < n - 1 && #[trigger] window_report(g, r, cc) == Some(a[j]);
                assert(0 <= cc < n && window_report(g, r, cc) == Some(all[j]));
            } else {
                assert(window_report(g, r, n - 1) == Some(all[j]));
            }
        }
    }
}

/// The deductions of rows 0, ..., m - 1 are those of their blocks.
proof fn lemma_reports_upto_members(g: Grid, m: int)
    ensures
        forall|rr: int, cc: int|
            #![trigger window_report(g, rr, cc)]
            0 <= rr < m && 0 <= cc < g.cols - 1 && window_report(g, rr, cc) is Some ==> reports_upto(
                g,
                m,
            ).contains(window_report(g, rr, cc)->0),
        forall|j: int|
            #![trigger reports_upto(g, m)[j]]
            0 <= j < reports_upto(g, m).len() ==> exists|rr: int, cc: int|
                0 <= rr < m && 0 <= cc < g.cols - 1 && #[trigger] window_report(g, rr, cc) == Some(
                    reports_upto(g, m)[j],
                ),
    decreases m,
{
    if m > 0 {
        lemma_reports_upto_members(g, m - 1);
        lemma_row_reports_members(g, m - 1, g.cols - 1);
        let a = reports_upto(g, m - 1);
        let b = row_reports(g, m - 1, g.cols - 1);
        let all = reports_upto(g, m);
        assert(all == a + b);
        assert forall|rr: int, cc: int|
            #![trigger window_report(g, rr, cc)]
            0 <= rr < m && 0 <= cc < g.cols - 1 && window_report(g, rr, cc) is Some implies all.contains(
                window_report(g, rr, cc)->0,
            ) by {
            if rr < m - 1 {
                let j = choose|j: int| 0 <= j < a.len() && a[j] == window_report(g, rr, cc)->0;
                assert(all[j] == a[j]);
            } else {
                let j = choose|j: int| 0 <= j < b.len() && b[j] == window_report(g, rr, cc)->0;
                assert(all[a.len() + j] == b[j]);
            }
        }
        assert forall|j: int| #![trigger all[j]] 0 <= j < all.len() implies exists|rr: int, cc: int|
            0 <= rr < m && 0 <= cc < g.cols - 1 && #[trigger] window_report(g, rr, cc) == Some(all[j]) by {
            if j < a.len() {
                assert(all[j] == a[j]);
                assert(a[j] == reports_upto(g, m - 1)[j]);
                let (rr, cc) = choose|rr: int, cc: int|
                    0 <= rr < m - 1 && 0 <= cc < g.cols - 1 && #[trigger] window_report(g, rr, cc) == Some(
                        reports_upto(g, m - 1)[j],
                    );
                assert(0 <= rr < m && 0 <= cc < g.cols - 1 && window_report(g, rr, cc) == Some(all[j]));
            } else {
                let jb = j - a.len();
                assert(all[j] == b[jb]);
                assert(b[jb] == row_reports(g, m - 1, g.cols - 1)[jb]);
                let cc = choose|cc: int|
                    0 <= cc < g.cols - 1 && #[trigger] window_report(g, m - 1, cc) == Some(
                        row_reports(g, m - 1, g.cols - 1)[jb],
                    );
                assert(0 <= m - 1 < m && 0 <= cc < g.cols - 1 && window_report(g, m - 1, cc) == Some(all[j]));
            }
        }
    }
}

/// A cell named by some deduction has a last deduction, whose colour is that
/// of one of the deductions naming it.
proof fn lemma_last_fill_some(reps: Seq<(int, int, Cell, bool)>, j: int)
    requires
        0 <= j < reps.len(),
    ensures
        last_fill(reps, reps[j].0, reps[j].1) matches Some(v) && exists|i: int|
            0 <= i < reps.len() && #[trigger] reps[i].0 == reps[j].0 && reps[i].1 == reps[j].1 && reps[i].2 == v,
    decreases reps.len(),
{
    let l = reps.len() - 1;
    if !(reps[l].0 == reps[j].0 && reps[l].1 == reps[j].1) {
        let rest = reps.drop_last();
        assert(rest[j] == reps[j]);
        lemma_last_fill_some(rest, j);
        let v = last_fill(rest, reps[j].0, reps[j].1)->0;
        let i = choose|i: int|
            0 <= i < rest.len() && #[trigger] rest[i].0 == rest[j].0 && rest[i].1 == rest[j].1 && rest[i].2 == v;
        assert(reps[i] == rest[i]);
    } else {
        assert(reps[l].0 == reps[j].0);
    }
}

/// Completeness of the 2x2 rule: whenever three cells of a 2x2 block are
/// filled and a colour `k` of the fourth would make the block solid or a
/// checkerboard, the rule deduces the other colour for that cell (recording a
/// solid-block step exactly when `k` would make the block solid), so the pass
/// reports progress and the cell is filled afterwards.
pub proof fn lemma_2x2_complete(g: Grid, r: int, c: int, x: (int, int), k: Cell)
    requires
        g.wf(),
        window_in_grid(g, r, c),
        in_block(r, c, x),
        g.at(x.0, x.1) == Cell::Empty,
        others_filled(g, r, c, x),
        block_bad_with(g, r, c, x, k),
    ensures
        reports_2x2(g).contains((x.0, x.1, opposite(k), block_solid_with(g, r, c, x, k))),
        report_steps(reports_2x2(g)).contains(
            if block_solid_with(g, r, c, x, k) {
                SolveStep::ApplySolid2x2(x.0 as usize, x.1 as usize, opposite(k))
            } else {
                SolveStep::ApplyCheckerboard2x2(x.0 as usize, x.1 as usize, opposite(k))
            },
        ),
        reports_2x2(g).len() > 0,
        after_2x2(g, x.0, x.1) != Cell::Empty,
{
    lemma_window_report_meaning(g, r, c);
    assert(block_bad_with(g, r, c, x, k));
    let e = (x.0, x.1, opposite(k), block_solid_with(g, r, c, x, k));
    assert(window_report(g, r, c) == Some(e));
    lemma_reports_upto_members(g, g.rows - 1);
    let reps = reports_2x2(g);
    assert(reps.contains(e));
    let j = choose|j: int| 0 <= j < reps.len() && reps[j] == e;
    assert(report_steps(reps)[j] == report_step(e));
    lemma_last_fill_some(reps, j);
    let v = last_fill(reps, x.0, x.1)->0;
    let i = choose|i: int| 0 <= i < reps.len() && #[trigger] reps[i].0 == reps[j].0 && reps[i].1 == reps[j].1
        && reps[i].2 == v;
    assert(reps[i] == reports_upto(g, g.rows - 1)[i]);
    let (rr, cc) = choose|rr: int, cc: int|
        0 <= rr < g.rows - 1 && 0 <= cc < g.cols - 1 && #[trigger] window_report(g, rr, cc) == Some(
            reports_upto(g, g.rows - 1)[i],
        );
    lemma_window_report_meaning(g, rr, cc);
}

/// Soundness of the 2x2 rule: every deduction names the empty cell of a 2x2
/// block of the grid whose other three cells are filled, and a colour whose
/// opposite would make that block solid or a checkerboard (a solid-block
/// deduction exactly when it would make it solid).
pub proof fn lemma_2x2_sound(g: Grid, j: int)
    requires
        g.wf(),
        0 <= j < reports_2x2(g).len(),
    ensures
        ({
            let e = reports_2x2(g)[j];
            let x = (e.0, e.1);
            &&& e.2 != Cell::Empty
            &&& g.at(x.0, x.1) == Cell::Empty
            &&& exists|r: int, c: int|
                #![trigger block_bad_with(g, r, c, x, opposite(e.2))]
                window_in_grid(g, r, c) && in_block(r, c, x) && others_filled(g, r, c, x) && block_bad_with(
                    g,
                    r,
                    c,
                    x,
                    opposite(e.2),
                ) && e.3 == block_solid_with(g, r, c, x, opposite(e.2))
        }),
{
    lemma_reports_upto_members(g, g.rows - 1);
    let reps = reports_2x2(g);
    assert(reps[j] == reports_upto(g, g.rows - 1)[j]);
    let (rr, cc) = choose|rr: int, cc: int|
        0 <= rr < g.rows - 1 && 0 <= cc < g.cols - 1 && #[trigger] window_report(g, rr, cc) == Some(
            reports_upto(g, g.rows - 1)[j],
        );
    lemma_window_report_meaning(g, rr, cc);
    let e = reps[j];
    assert(window_in_grid(g, rr, cc));
    assert(block_bad_with(g, rr, cc, (e.0, e.1), opposite(e.2)));
}

/// What the pass leaves of a cell: a cell that no deduction names keeps its
/// value, and a cell that some deduction names takes the colour of one of the
/// deductions naming it (the colour they all give, when they agree).
pub proof fn lemma_2x2_result(g: Grid, x: (int, int))
    ensures
        (forall|j: int|
            0 <= j < reports_2x2(g).len() ==> !(#[trigger] reports_2x2(g)[j].0 == x.0 && reports_2x2(g)[j].1
                == x.1)) ==> after_2x2(g, x.0, x.1) == g.at(x.0, x.1),
        (exists|j: int|
            0 <= j < reports_2x2(g).len() && #[trigger] reports_2x2(g)[j].0 == x.0 && reports_2x2(g)[j].1 == x.1)
            ==> exists|i: int|
            0 <= i < reports_2x2(g).len() && #[trigger] reports_2x2(g)[i].0 == x.0 && reports_2x2(g)[i].1 == x.1
                && reports_2x2(g)[i].2 == after_2x2(g, x.0, x.1),
{
    let reps = reports_2x2(g);
    if exists|j: int| 0 <= j < reps.len() && #[trigger] reps[j].0 == x.0 && reps[j].1 == x.1 {
        let j = choose|j: int| 0 <= j < reps.len() && #[trigger] reps[j].0 == x.0 && reps[j].1 == x.1;
        lemma_last_fill_some(reps, j);
    } else {
        lemma_last_fill_none(reps, x);
    }
}

proof fn lemma_last_fill_none(reps: Seq<(int, int, Cell, bool)>, x: (int, int))
    requires
        forall|j: int| 0 <= j < reps.len() ==> !(#[trigger] reps[j].0 == x.0 && reps[j].1 == x.1),
    ensures
        last_fill(reps, x.0, x.1) is None,
    decreases reps.len(),
{
    if reps.len() > 0 {
        let rest = reps.drop_last();
        assert forall|j: int| 0 <= j < rest.len() implies !(#[trigger] rest[j].0 == x.0 && rest[j].1 == x.1) by {
            assert(rest[j] == reps[j]);
        }
        assert(!(reps[reps.len() - 1].0 == x.0 && reps[reps.len() - 1].1 == x.1));
        lemma_last_fill_none(rest, x);
    }
}

/// The blocks of row `r` before column `n` that deduce something, in order.
spec fn row_blocks(g: Grid, r: int, n: int) -> Seq<(int, int)>
    decreases n,
{
    if n <= 0 {
        Seq::empty()
    } else {
        row_blocks(g, r, n - 1) + (if window_report(g, r, n - 1) is Some {
            seq![(r, n - 1)]
        } else {
            Seq::empty()
        })
    }
}

/// The blocks of rows before `m` that deduce something, row by row.
spec fn blocks_upto(g: Grid, m: int) -> Seq<(int, int)>
    decreases m,
{
    if m <= 0 {
        Seq::empty()
    } else {
        blocks_upto(g, m - 1) + row_blocks(g, m - 1, g.cols - 1)
    }
}

/// `bs` lists, for each deduction of `reps`, a block of the grid that makes
/// it, the blocks in strictly increasing row-major order, all in rows before
/// `m` (and, for `row`, in row `row` before column `n`).
spec fn blocks_match(g: Grid, reps: Seq<(int, int, Cell, bool)>, bs: Seq<(int, int)>, m: int) -> bool {
    &&& bs.len() == reps.len()
    &&& forall|j: int|
        #![trigger bs[j]]
        0 <= j < bs.len() ==> window_in_grid(g, bs[j].0, bs[j].1) && bs[j].0 < m && window_report(
            g,
            bs[j].0,
            bs[j].1,
        ) == Some(reps[j])
    &&& forall|i: int, j: int|
        #![trigger bs[i], bs[j]]
        0 <= i < j < bs.len() ==> bs[i].0 < bs[j].0 || (bs[i].0 == bs[j].0 && bs[i].1 < bs[j].1)
}

proof fn lemma_row_blocks(g: Grid, r: int, n: int)
    requires
        0 <= r,
        r + 1 < g.rows,
        n <= g.cols - 1,
    ensures
        blocks_match(g, row_reports(g, r, n), row_blocks(g, r, n), r + 1),
        forall|j: int| #![trigger row_blocks(g, r, n)[j]] 0 <= j < row_blocks(g, r, n).len() ==> row_blocks(
            g,
            r,
            n,
        )[j].0 == r && row_blocks(g, r, n)[j].1 < n,
    decreases n,
{
    if n > 0 {
        lemma_row_blocks(g, r, n - 1);
        let a = row_blocks(g, r, n - 1);
        let all = row_blocks(g, r, n);
        let ra = row_reports(g, r, n - 1);
        let rall = row_reports(g, r, n);
        assert forall|j: int| #![trigger all[j]] 0 <= j < all.len() implies window_in_grid(g, all[j].0, all[j].1)
            && all[j].0 < r + 1 && window_report(g, all[j].0, all[j].1) == Some(rall[j]) && all[j].0 == r
            && all[j].1 < n by {
            if j < a.len() {
                assert(all[j] == a[j]);
                assert(rall[j] == ra[j]);
            }
        }
        assert forall|i: int, j: int| #![trigger all[i], all[j]] 0 <= i < j < all.len() implies all[i].0
            < all[j].0 || (all[i].0 == all[j].0 && all[i].1 < all[j].1) by {
            assert(all[i] == a[i]);
            if j < a.len() {
                assert(all[j] == a[j]);
            }
        }
    }
}

proof fn lemma_blocks_upto(g: Grid, m: int)
    requires
        m <= g.rows - 1,
    ensures
        blocks_match(g, reports_upto(g, m), blocks_upto(g, m), m),
    decreases m,
{
    if m > 0 {
        lemma_blocks_upto(g, m - 1);
        lemma_row_blocks(g, m - 1, g.cols - 1);
        let a = blocks_upto(g, m - 1);
        let b = row_blocks(g, m - 1, g.cols - 1);
        let all = blocks_upto(g, m);
        let ra = reports_upto(g, m - 1);
        let rb = row_reports(g, m - 1, g.cols - 1);
        let rall = reports_upto(g, m);
        assert forall|j: int| #![trigger all[j]] 0 <= j < all.len() implies window_in_grid(g, all[j].0, all[j].1)
            && all[j].0 < m && window_report(g, all[j].0, all[j].1) == Some(rall[j]) by {
            if j < a.len() {
                assert(all[j] == a[j]);
                assert(rall[j] == ra[j]);
            } else {
                assert(all[j] == b[j - a.len()]);
                assert(rall[j] == rb[j - a.len()]);
            }
        }
        assert forall|i: int, j: int| #![trigger all[i], all[j]] 0 <= i < j < all.len() implies all[i].0
            < all[j].0 || (all[i].0 == all[j].0 && all[i].1 < all[j].1) by {
            if j < a.len() {
                assert(all[i] == a[i] && all[j] == a[j]);
            } else if i < a.len() {
                assert(all[i] == a[i] && all[j] == b[j - a.len()]);
            } else {
                assert(all[i] == b[i - a.len()] && all[j] == b[j - a.len()]);
            }
        }
    }
}

/// The deductions come block by block, in row-major order of the blocks that
/// make them (blocks whose other three cells are filled and which the opposite
/// of the deduced colour would make solid or a checkerboard), one per block: the steps are recorded, and later deductions
/// written over earlier ones, in that order.
pub proof fn lemma_2x2_order(g: Grid)
    requires
        g.wf(),
    ensures
        exists|bs: Seq<(int, int)>|
            #![trigger bs.len()]
            bs.len() == reports_2x2(g).len() && (forall|j: int|
                #![trigger bs[j]]
                0 <= j < bs.len() ==> window_in_grid(g, bs[j].0, bs[j].1) && in_block(
                    bs[j].0,
                    bs[j].1,
                    (reports_2x2(g)[j].0, reports_2x2(g)[j].1),
                ) && others_filled(g, bs[j].0, bs[j].1, (reports_2x2(g)[j].0, reports_2x2(g)[j].1))
                    && block_bad_with(
                    g,
                    bs[j].0,
                    bs[j].1,
                    (reports_2x2(g)[j].0, reports_2x2(g)[j].1),
                    opposite(reports_2x2(g)[j].2),
                )) && (forall|i: int, j: int|
                #![trigger bs[i], bs[j]]
                0 <= i < j < bs.len() ==> bs[i].0 < bs[j].0 || (bs[i].0 == bs[j].0 && bs[i].1 < bs[j].1)),
{
    lemma_blocks_upto(g, g.rows - 1);
    let bs = blocks_upto(g, g.rows - 1);
    let reps = reports_2x2(g);
    assert forall|j: int| #![trigger bs[j]] 0 <= j < bs.len() implies window_in_grid(g, bs[j].0, bs[j].1)
        && in_block(bs[j].0, bs[j].1, (reps[j].0, reps[j].1)) && others_filled(
        g,
        bs[j].0,
        bs[j].1,
        (reps[j].0, reps[j].1),
    ) && block_bad_with(g, bs[j].0, bs[j].1, (reps[j].0, reps[j].1), opposite(reps[j].2)) by {
        lemma_window_report_meaning(g, bs[j].0, bs[j].1);
    }
    assert(bs.len() == reports_2x2(g).len());
}

} // verus!
