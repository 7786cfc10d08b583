use vstd::prelude::*;

use crate::apply_2x2;
use crate::apply_border;
use crate::apply_connectivity;
use crate::apply_pbc;
use crate::cell::Cell;
use crate::fill::{empty_count, fills_some, lemma_fill_count, lemma_only_fills_refl, lemma_only_fills_trans, only_fills};
use crate::region::{cell_at, on_grid};
use crate::rules::{self, has_empty, rule_check, solves, RuleCheck};
use crate::replay::{lemma_replays_same, lemma_replays_trans, replays};
use crate::solve_path::{
    extends, lemma_extends_one, lemma_extends_recorded, lemma_extends_trans, recorded, SolvePath, SolveStep,
};
use crate::Grid;

verus! {

/// What the solver made of a puzzle.
#[derive(Debug)]
pub enum SolveResult {
    /// The rules found a contradiction.
    NoSolutions,
    /// The deductions ran out before the grid was filled in.
    Partial(Grid),
    /// A grid that satisfies the rules.
    Solved(Grid),
}

/// One solving step: what the first of the 2x2, border and connectivity
/// passes that fills anything leaves of `g`, or else what proof by
/// contradiction, five rounds deep, leaves of it.
#[verifier::opaque]
pub open spec fn solve_step(g: Grid, new: Grid) -> bool {
    exists|m: Grid|
        #[trigger] apply_pbc::deduce_once(g, m) && (if fills_some(g, m) {
            new == m
        } else {
            apply_pbc::pbc_result(g, new, 5)
        })
}

/// A round of deductions from `g` to `m`, and what follows it, make a
/// solving step.
proof fn lemma_solve_step(g: Grid, m: Grid, new: Grid)
    requires
        apply_pbc::deduce_once(g, m),
        fills_some(g, m) ==> new == m,
        !fills_some(g, m) ==> apply_pbc::pbc_result(g, new, 5),
    ensures
        solve_step(g, new),
{
    reveal(solve_step);
}

/// `res` is what the solver makes of `g` in at most `n` further steps: the
/// solved grid, or no solutions, when the rules say so; otherwise one solving
/// step and on from its result, or `Partial` with that result when the step
/// fills nothing.
pub open spec fn solve_outcome(g: Grid, res: SolveResult, n: nat) -> bool
    decreases n,
{
    match rule_check(g) {
        RuleCheck::Solved => res == SolveResult::Solved(g),
        RuleCheck::Contradiction => res is NoSolutions,
        RuleCheck::Unsolved => exists|m: Grid|
            #[trigger] solve_step(g, m) && (if fills_some(g, m) {
                n > 0 && solve_outcome(m, res, (n - 1) as nat)
            } else {
                res == SolveResult::Partial(m)
            }),
    }
}

/// `s` is what one solving step from `g` to `new` records: the steps of the
/// first of the 2x2, border and connectivity rules that fills anything; else
/// the one proof-by-contradiction step, five rounds deep, when it fills a
/// cell; else nothing.
#[verifier::opaque]
pub open spec fn step_record(g: Grid, new: Grid, s: Seq<SolveStep>) -> bool {
    exists|m: Grid|
        #[trigger] apply_pbc::deduce_once(g, m) && if fills_some(g, m) {
            new == m && apply_pbc::once_steps(g, m, s)
        } else if fills_some(g, new) {
            s.len() == 1 && apply_pbc::pbc_step(s[0], g, new, 5)
        } else {
            s.len() == 0
        }
}

/// `s` is what the solver records from `g` on in at most `n` further steps:
/// nothing once the rules find the grid solved or contradictory; otherwise
/// what one solving step records, followed, when the step fills anything, by
/// what is recorded from its result on.
#[verifier::opaque]
pub open spec fn solve_record(g: Grid, n: nat, s: Seq<SolveStep>) -> bool
    decreases n,
{
    if rule_check(g) == RuleCheck::Unsolved {
        exists|m: Grid, s1: Seq<SolveStep>|
            #[trigger] solve_step(g, m) && #[trigger] step_record(g, m, s1) && s1.len() <= s.len()
                && s.take(s1.len() as int) == s1 && (if fills_some(g, m) {
                n > 0 && solve_record(m, (n - 1) as nat, s.skip(s1.len() as int))
            } else {
                s.len() == s1.len()
            })
    } else {
        s.len() == 0
    }
}

/// More steps to spare change nothing that is recorded.
proof fn lemma_record_more(g: Grid, s: Seq<SolveStep>, n1: nat, n2: nat)
    requires
        solve_record(g, n1, s),
        n1 <= n2,
    ensures
        solve_record(g, n2, s),
    decreases n1,
{
    reveal(solve_record);
    if rule_check(g) == RuleCheck::Unsolved {
        let (m, s1) = choose|m: Grid, s1: Seq<SolveStep>|
            #[trigger] solve_step(g, m) && #[trigger] step_record(g, m, s1) && s1.len() <= s.len()
                && s.take(s1.len() as int) == s1 && (if fills_some(g, m) {
                n1 > 0 && solve_record(m, (n1 - 1) as nat, s.skip(s1.len() as int))
            } else {
                s.len() == s1.len()
            });
        if fills_some(g, m) {
            lemma_record_more(m, s.skip(s1.len() as int), (n1 - 1) as nat, (n2 - 1) as nat);
        }
        assert(solve_step(g, m) && step_record(g, m, s1));
    }
}

/// A solving step that fills something, followed by what is recorded from
/// its result on.
proof fn lemma_record_then(g: Grid, m: Grid, n: nat, s1: Seq<SolveStep>, s: Seq<SolveStep>)
    requires
        rule_check(g) == RuleCheck::Unsolved,
        solve_step(g, m),
        step_record(g, m, s1),
        fills_some(g, m),
        n > 0,
        solve_record(m, (n - 1) as nat, s),
    ensures
        solve_record(g, n, s1 + s),
{
    reveal(solve_record);
    assert((s1 + s).take(s1.len() as int) =~= s1);
    assert((s1 + s).skip(s1.len() as int) =~= s);
}

/// A solving step that fills nothing ends what is recorded.
proof fn lemma_record_last(g: Grid, m: Grid, n: nat, s1: Seq<SolveStep>)
    requires
        rule_check(g) == RuleCheck::Unsolved,
        solve_step(g, m),
        step_record(g, m, s1),
        !fills_some(g, m),
    ensures
        solve_record(g, n, s1),
{
    reveal(solve_record);
    assert(s1.take(s1.len() as int) =~= s1);
    assert(solve_step(g, m) && step_record(g, m, s1) && s1.len() <= s1.len() && s1.take(s1.len() as int) == s1
        && !fills_some(g, m));
}

/// One of the 2x2, border and connectivity rules filled something and
/// recorded `s`.
proof fn lemma_step_deduced(g: Grid, m: Grid, s: Seq<SolveStep>)
    requires
        apply_pbc::deduce_once(g, m),
        fills_some(g, m),
        apply_pbc::once_steps(g, m, s),
    ensures
        step_record(g, m, s),
{
    reveal(step_record);
}

/// None of the 2x2, border and connectivity rules filled anything, and proof
/// by contradiction went from `g` to `new`, recording `s`.
proof fn lemma_step_pbc(g: Grid, new: Grid, s: Seq<SolveStep>)
    requires
        apply_pbc::deduce_once(g, g),
        fills_some(g, new) ==> s.len() == 1 && apply_pbc::pbc_step(s[0], g, new, 5),
        !fills_some(g, new) ==> s.len() == 0,
    ensures
        step_record(g, new, s),
{
    reveal(step_record);
    assert(!fills_some(g, g));
}

/// More steps to spare change no outcome.
proof fn lemma_outcome_more(g: Grid, res: SolveResult, n1: nat, n2: nat)
    requires
        solve_outcome(g, res, n1),
        n1 <= n2,
    ensures
        solve_outcome(g, res, n2),
    decreases n1,
{
    if rule_check(g) == RuleCheck::Unsolved {
        let m = choose|m: Grid|
            #[trigger] solve_step(g, m) && (if fills_some(g, m) {
                n1 > 0 && solve_outcome(m, res, (n1 - 1) as nat)
            } else {
                res == SolveResult::Partial(m)
            });
        if fills_some(g, m) {
            lemma_outcome_more(m, res, (n1 - 1) as nat, (n2 - 1) as nat);
        }
        assert(solve_step(g, m));
    }
}

/// After a solving step from `g` to `m` that filled something and recorded
/// `s1`, what is recorded from `m` on extends what is recorded from `g0` on.
proof fn lemma_record_advance(g0: Grid, g: Grid, m: Grid, sp: Seq<SolveStep>, s1: Seq<SolveStep>)
    requires
        rule_check(g) == RuleCheck::Unsolved,
        solve_step(g, m),
        step_record(g, m, s1),
        fills_some(g, m),
        empty_count(m) < empty_count(g),
        forall|s: Seq<SolveStep>|
            #[trigger] solve_record(g, empty_count(g), s) ==> solve_record(g0, empty_count(g0), sp + s),
    ensures
        forall|s: Seq<SolveStep>|
            #[trigger] solve_record(m, empty_count(m), s) ==> solve_record(g0, empty_count(g0), (sp + s1) + s),
{
    assert forall|s: Seq<SolveStep>| #[trigger] solve_record(m, empty_count(m), s) implies solve_record(
        g0,
        empty_count(g0),
        (sp + s1) + s,
    ) by {
        lemma_record_more(m, s, empty_count(m), (empty_count(g) - 1) as nat);
        lemma_record_then(g, m, empty_count(g), s1, s);
        assert(sp + (s1 + s) =~= (sp + s1) + s);
    }
}

/// Once the rules find `g` solved or contradictory, what is recorded from
/// `g0` on is what was recorded so far.
proof fn lemma_record_done(g0: Grid, g: Grid, sp: Seq<SolveStep>)
    requires
        rule_check(g) != RuleCheck::Unsolved,
        forall|s: Seq<SolveStep>|
            #[trigger] solve_record(g, empty_count(g), s) ==> solve_record(g0, empty_count(g0), sp + s),
    ensures
        solve_record(g0, empty_count(g0), sp),
{
    reveal(solve_record);
    assert(solve_record(g, empty_count(g), Seq::empty()));
    assert(sp + Seq::<SolveStep>::empty() =~= sp);
}

/// The 2x2 rule filled something of `g0` and recorded its steps.
proof fn lemma_solve_2x2(g0: Grid, g: Grid, p0: Option<SolvePath>, p: Option<SolvePath>)
    requires
        g.wf(),
        g.rows == g0.rows,
        g.cols == g0.cols,
        forall|r: int, c: int|
            #![trigger g.at(r, c)]
            g0.contains_pos(r, c) ==> g.at(r, c) == apply_2x2::after_2x2(g0, r, c),
        apply_2x2::reports_2x2(g0).len() > 0,
        fills_some(g0, g),
        recorded(p0, p, apply_2x2::report_steps(apply_2x2::reports_2x2(g0))),
    ensures
        apply_pbc::deduce_once(g0, g),
        exists|s: Seq<SolveStep>| #[trigger] step_record(g0, g, s) && recorded(p0, p, s),
{
    let st = apply_2x2::report_steps(apply_2x2::reports_2x2(g0));
    assert(apply_pbc::deduce_once(g0, g));
    assert(apply_pbc::once_steps(g0, g, st)) by {
        reveal(apply_pbc::once_steps);
    }
    lemma_step_deduced(g0, g, st);
}

/// The border rule filled something of `g0` and recorded one step.
proof fn lemma_solve_border(g0: Grid, g: Grid, p0: Option<SolvePath>, p: Option<SolvePath>)
    requires
        g.wf(),
        g.rows == g0.rows,
        g.cols == g0.cols,
        forall|r: int, c: int|
            #![trigger g.at(r, c)]
            g0.contains_pos(r, c) ==> g.at(r, c) == apply_border::after_border(g0, r, c),
        apply_2x2::reports_2x2(g0).len() == 0,
        apply_border::border_progress(apply_border::border_cells(g0)),
        fills_some(g0, g),
        crate::solve_path::recorded_one(p0, p, |st: SolveStep| apply_border::border_step(st, g0, g)),
    ensures
        apply_pbc::deduce_once(g0, g),
        p0 is Some ==> exists|s: Seq<SolveStep>| #[trigger] step_record(g0, g, s) && recorded(p0, p, s),
{
    assert(apply_pbc::deduce_once(g0, g));
    if let Some(v) = p0 {
        let st = seq![p->0@.last()];
        assert(p->0@ =~= v@ + st);
        assert(apply_pbc::once_steps(g0, g, st)) by {
            reveal(apply_pbc::once_steps);
        }
        lemma_step_deduced(g0, g, st);
    }
}

/// The connectivity passes filled something of `g0` and recorded their steps.
proof fn lemma_solve_connectivity(g0: Grid, g: Grid, p0: Option<SolvePath>, p: Option<SolvePath>)
    requires
        g.wf(),
        g.rows == g0.rows,
        g.cols == g0.cols,
        apply_2x2::reports_2x2(g0).len() == 0,
        !apply_border::border_progress(apply_border::border_cells(g0)),
        fills_some(g0, g),
        exists|gb: Grid, gw: Grid, s: Seq<SolveStep>|
            #[trigger] apply_connectivity::connectivity_passes(g0, gb, gw, g)
                && apply_connectivity::connectivity_steps(g0, gb, gw, g, s) && #[trigger] recorded(p0, p, s),
    ensures
        apply_pbc::deduce_once(g0, g),
        exists|s: Seq<SolveStep>| #[trigger] step_record(g0, g, s) && recorded(p0, p, s),
{
    let (gb, gw, st) = choose|gb: Grid, gw: Grid, s: Seq<SolveStep>|
        #[trigger] apply_connectivity::connectivity_passes(g0, gb, gw, g)
            && apply_connectivity::connectivity_steps(g0, gb, gw, g, s) && #[trigger] recorded(p0, p, s);
    assert(apply_pbc::deduce_once(g0, g));
    assert(apply_pbc::once_steps(g0, g, st)) by {
        reveal(apply_pbc::once_steps);
    }
    lemma_step_deduced(g0, g, st);
}

/// What proof by contradiction recorded on its way from `g0` to `g`: one step
/// when it filled a cell, else nothing.
proof fn lemma_solve_pbc(g0: Grid, g: Grid, p0: Option<SolvePath>, p: Option<SolvePath>, res: bool) -> (st: Seq<
    SolveStep,
>)
    requires
        p0 is Some,
        res ==> crate::solve_path::recorded_one(
            p0,
            p,
            |st: SolveStep| apply_pbc::pbc_step(st, g0, g, 5),
        ),
        !res ==> p == p0,
    ensures
        recorded(p0, p, st),
        res ==> st.len() == 1 && apply_pbc::pbc_step(st[0], g0, g, 5),
        !res ==> st.len() == 0,
{
    let v = p0->0;
    if res {
        let st = seq![p->0@.last()];
        assert(p->0@ =~= v@ + st);
        st
    } else {
        let st = Seq::<SolveStep>::empty();
        assert(v@ + st =~= v@);
        st
    }
}

/// The first rule that fills in anything: 2x2, border, connectivity, then
/// proof by contradiction (five rounds deep).
fn apply_solve(grid: &mut Grid, path: &mut Option<SolvePath>) -> (res: bool)
    requires
        old(grid).wf(),
        old(grid).rows >= 1,
        old(grid).cols >= 1,
    ensures
        solve_step(*old(grid), *final(grid)),
        final(grid).wf(),
        final(grid).rows == old(grid).rows,
        final(grid).cols == old(grid).cols,
        only_fills(*old(grid), *final(grid)),
        res == fills_some(*old(grid), *final(grid)),
        !res ==> apply_2x2::reports_2x2(*old(grid)).len() == 0,
        !res ==> !apply_border::border_progress(apply_border::border_cells(*old(grid))),
        extends(*old(path), *final(path)),
        replays(*old(path), *final(path), *old(grid), *final(grid)),
        !res ==> *final(grid) == *old(grid),
        !res ==> *final(path) == *old(path),
        *old(path) is Some ==> exists|s: Seq<SolveStep>|
            #[trigger] step_record(*old(grid), *final(grid), s) && recorded(*old(path), *final(path), s),
{
    let ghost g0 = *grid;
    let ghost p0 = *path;
    if apply_2x2::apply(grid, path) {
        proof {
            lemma_extends_recorded(p0, *path, apply_2x2::report_steps(apply_2x2::reports_2x2(g0)));
            lemma_solve_2x2(g0, *grid, p0, *path);
            lemma_solve_step(g0, *grid, *grid);
        }
        return true;
    }
    let ghost g1 = *grid;
    let ghost p1 = *path;
    proof {
        lemma_extends_recorded(p0, p1, apply_2x2::report_steps(apply_2x2::reports_2x2(g0)));
    }
    if apply_border::apply(grid, path) {
        proof {
            lemma_only_fills_trans(g0, g1, *grid);
            lemma_extends_one(p1, *path);
            lemma_extends_trans(p0, p1, *path);
            lemma_replays_trans(p0, p1, *path, g0, g1, *grid);
            lemma_solve_border(g1, *grid, p1, *path);
            lemma_solve_step(g0, *grid, *grid);
        }
        return true;
    }
    let ghost g2 = *grid;
    let ghost p2 = *path;
    proof {
        lemma_only_fills_trans(g0, g1, g2);
        lemma_extends_one(p1, p2);
        lemma_extends_trans(p0, p1, p2);
        lemma_replays_trans(p0, p1, p2, g0, g1, g2);
        assert(apply_border::border_cells(g1) == apply_border::border_cells(g0));
    }
    if apply_connectivity::apply(grid, path) {
        proof {
            lemma_only_fills_trans(g0, g2, *grid);
            lemma_extends_trans(p0, p2, *path);
            lemma_replays_trans(p0, p2, *path, g0, g2, *grid);
            lemma_solve_connectivity(g2, *grid, p2, *path);
            lemma_solve_step(g0, *grid, *grid);
        }
        return true;
    }
    let ghost g3 = *grid;
    let ghost p3 = *path;
    proof {
        lemma_only_fills_trans(g0, g2, g3);
        lemma_extends_trans(p0, p2, p3);
        lemma_replays_trans(p0, p2, p3, g0, g2, g3);
        assert(apply_pbc::deduce_once(g0, g3));
    }
    let res = apply_pbc::apply(grid, path, 5);
    proof {
        lemma_only_fills_trans(g0, g3, *grid);
        lemma_extends_one(p3, *path);
        lemma_extends_trans(p0, p3, *path);
        lemma_replays_trans(p0, p3, *path, g0, g3, *grid);
        if fills_some(g0, *grid) && !res {
            let (r, c) = choose|r: int, c: int|
                g0.contains_pos(r, c) && g0.at(r, c) == Cell::Empty && #[trigger] grid.at(r, c)
                    != Cell::Empty;
            assert(g1.at(r, c) == Cell::Empty);
            assert(g2.at(r, c) == Cell::Empty);
            assert(g3.at(r, c) == Cell::Empty);
        }
        assert(!fills_some(g0, g3));
        lemma_solve_step(g0, g3, *grid);
        if p0 is Some {
            let st = lemma_solve_pbc(g3, *grid, p3, *path, res);
            lemma_step_pbc(g3, *grid, st);
        }
    }
    res
}

/// Solves a puzzle: while the rules leave the grid unsolved, applies the first
/// rule that fills in anything. Each step is appended to `path`, if given.
pub fn solve(grid: Grid, path: &mut Option<SolvePath>) -> (res: SolveResult)
    requires
        grid.wf(),
    ensures
        solve_outcome(grid, res, empty_count(grid)),
        match res {
            SolveResult::Solved(g) => solves(grid, g),
            SolveResult::Partial(g) => g.wf() && only_fills(grid, g) && rule_check(g)
                == RuleCheck::Unsolved && apply_2x2::reports_2x2(g).len() == 0
                && !apply_border::border_progress(apply_border::border_cells(g)),
            SolveResult::NoSolutions => exists|g: Grid|
                g.wf() && #[trigger] only_fills(grid, g) && rule_check(g) == RuleCheck::Contradiction,
        },
        extends(*old(path), *final(path)),
        match res {
            SolveResult::Solved(g) => replays(*old(path), *final(path), grid, g),
            SolveResult::Partial(g) => replays(*old(path), *final(path), grid, g),
            SolveResult::NoSolutions => exists|g: Grid|
                #[trigger] replays(*old(path), *final(path), grid, g) && g.wf() && only_fills(grid, g)
                    && rule_check(g) == RuleCheck::Contradiction,
        },
        *old(path) is Some ==> exists|s: Seq<SolveStep>|
            #[trigger] solve_record(grid, empty_count(grid), s) && recorded(*old(path), *final(path), s),
{
    let ghost g0 = grid;
    let ghost p0 = *path;
    let ghost mut sp: Seq<SolveStep> = Seq::empty();
    let mut cur = grid;
    proof {
        crate::solve_path::lemma_recorded_none(p0);
        assert forall|s: Seq<SolveStep>| #[trigger] solve_record(g0, empty_count(g0), s) implies solve_record(
            g0,
            empty_count(g0),
            sp + s,
        ) by {
            assert(sp + s =~= s);
        }
        lemma_only_fills_refl(g0);
        lemma_extends_one(p0, p0);
        lemma_replays_same(p0, g0);
    }
    loop
        invariant
            cur.wf(),
            g0.wf(),
            g0 == grid,
            only_fills(g0, cur),
            p0 == *old(path),
            extends(p0, *path),
            replays(p0, *path, g0, cur),
            cur.cols == g0.cols,
            empty_count(cur) <= empty_count(g0),
            forall|res: SolveResult|
                #[trigger] solve_outcome(cur, res, empty_count(cur)) ==> solve_outcome(g0, res, empty_count(g0)),
            p0 is Some ==> recorded(p0, *path, sp),
            p0 is Some ==> forall|s: Seq<SolveStep>|
                #[trigger] solve_record(cur, empty_count(cur), s) ==> solve_record(g0, empty_count(g0), sp + s),
        decreases empty_count(cur),
    {
        match rules::check(&cur) {
            RuleCheck::Unsolved => {
                proof {
                    assert(has_empty(cur));
                    let p = choose|p: (int, int)| on_grid(cur, p) && #[trigger] cell_at(cur, p) == Cell::Empty;
                }
                let ghost gb = cur;
                let ghost pb = *path;
                if apply_solve(&mut cur, path) {
                    proof {
                        lemma_only_fills_trans(g0, gb, cur);
                        lemma_extends_trans(p0, pb, *path);
                        lemma_replays_trans(p0, pb, *path, g0, gb, cur);
                        lemma_fill_count(gb, cur);
                        assert forall|res: SolveResult|
                            #[trigger] solve_outcome(cur, res, empty_count(cur)) implies solve_outcome(
                            g0,
                            res,
                            empty_count(g0),
                        ) by {
                            lemma_outcome_more(cur, res, empty_count(cur), (empty_count(gb) - 1) as nat);
                            assert(solve_step(gb, cur));
                            assert(solve_outcome(gb, res, empty_count(gb)));
                        }
                        if p0 is Some {
                            let s1 = choose|s: Seq<SolveStep>| #[trigger] step_record(gb, cur, s) && recorded(pb, *path, s);
                            lemma_record_advance(g0, gb, cur, sp, s1);
                            crate::solve_path::lemma_recorded_trans(p0, pb, *path, sp, s1);
                            sp = sp + s1;
                        }
                    }
                    continue;
                } else {
                    proof {
                        lemma_only_fills_trans(g0, gb, cur);
                        lemma_extends_trans(p0, pb, *path);
                        lemma_replays_trans(p0, pb, *path, g0, gb, cur);
                        let res = SolveResult::Partial(cur);
                        assert(solve_step(gb, cur));
                        assert(solve_outcome(gb, res, empty_count(gb)));
                        if p0 is Some {
                            let s1 = choose|s: Seq<SolveStep>| #[trigger] step_record(gb, cur, s) && recorded(pb, *path, s);
                            lemma_record_last(gb, cur, empty_count(gb), s1);
                            crate::solve_path::lemma_recorded_trans(p0, pb, *path, sp, s1);
                            assert(solve_record(g0, empty_count(g0), sp + s1));
                        }
                    }
                    return SolveResult::Partial(cur);
                }
            },
            RuleCheck::Solved => {
                proof {
                    assert(solve_outcome(cur, SolveResult::Solved(cur), empty_count(cur)));
                    if p0 is Some {
                        lemma_record_done(g0, cur, sp);
                    }
                }
                return SolveResult::Solved(cur);
            },
            RuleCheck::Contradiction => {
                proof {
                    assert(only_fills(g0, cur));
                    assert(solve_outcome(cur, SolveResult::NoSolutions, empty_count(cur)));
                    assert(replays(p0, *path, g0, cur));
                    if p0 is Some {
                        lemma_record_done(g0, cur, sp);
                    }
                }
                return SolveResult::NoSolutions;
            },
        }
    }
}

} // verus!
