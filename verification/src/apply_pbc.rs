use vstd::prelude::*;

use crate::apply_2x2;
use crate::apply_border;
use crate::apply_connectivity;
use crate::array::{flat_index, in_bounds, lemma_flat_order, lemma_index_bounds, lemma_index_injective, lemma_index_onto};
use crate::cell::{opposite, Cell};
use crate::ext::CellExt;
use crate::fill::{fills_some, lemma_only_fills_trans, only_fills};
use crate::rules::{self, rule_check, RuleCheck};
use crate::replay::{
    lemma_replay_one, lemma_replays_recorded, lemma_replays_same, lemma_replays_trans, replay, replays,
    step_effect,
};
use crate::solve_path::{
    extends, lemma_extends_one, lemma_extends_trans, recorded, recorded_one, record, SolvePath, SolveStep,
};
use crate::Grid;

verus! {

/// `new` is `old` with exactly the empty cell (r, c) given a colour.
pub open spec fn fills_one(old: Grid, new: Grid, r: int, c: int) -> bool {
    &&& new.rows == old.rows
    &&& new.cols == old.cols
    &&& old.contains_pos(r, c)
    &&& old.at(r, c) == Cell::Empty
    &&& (new.at(r, c) == Cell::Black || new.at(r, c) == Cell::White)
    &&& forall|r2: int, c2: int|
        #![trigger new.at(r2, c2)]
        old.contains_pos(r2, c2) && (r2 != r || c2 != c) ==> new.at(r2, c2) == old.at(r2, c2)
}

/// One round of the deductions made under a hypothesis: what the first of the
/// 2x2, border and connectivity passes that fills anything leaves of `g` (the
/// connectivity passes leave `g` as it is when they fill nothing).
pub open spec fn deduce_once(g: Grid, new: Grid) -> bool {
    &&& new.wf()
    &&& new.rows == g.rows
    &&& new.cols == g.cols
    &&& if apply_2x2::reports_2x2(g).len() > 0 {
        forall|r: int, c: int|
            #![trigger new.at(r, c)]
            g.contains_pos(r, c) ==> new.at(r, c) == apply_2x2::after_2x2(g, r, c)
    } else if apply_border::border_progress(apply_border::border_cells(g)) {
        forall|r: int, c: int|
            #![trigger new.at(r, c)]
            g.contains_pos(r, c) ==> new.at(r, c) == apply_border::after_border(g, r, c)
    } else {
        exists|gb: Grid, gw: Grid| #[trigger] apply_connectivity::connectivity_passes(g, gb, gw, new)
    }
}

/// `new` is what up to `d` rounds of deductions leave of `g`, stopping after
/// the first round that fills nothing.
pub open spec fn deduce_rounds(g: Grid, new: Grid, d: nat) -> bool
    decreases d,
{
    if d == 0 {
        new == g
    } else {
        exists|m: Grid|
            #[trigger] deduce_once(g, m) && (if fills_some(g, m) {
                deduce_rounds(m, new, (d - 1) as nat)
            } else {
                new == m
            })
    }
}

/// `s` is what one round of deductions from `g` to `new` records: the 2x2
/// rule's steps, or the one step of the border rule, or the steps of the
/// connectivity passes, whichever rule the round applies.
#[verifier::opaque]
pub open spec fn once_steps(g: Grid, new: Grid, s: Seq<SolveStep>) -> bool {
    if apply_2x2::reports_2x2(g).len() > 0 {
        s == apply_2x2::report_steps(apply_2x2::reports_2x2(g))
    } else if apply_border::border_progress(apply_border::border_cells(g)) {
        s.len() == 1 && apply_border::border_step(s[0], g, new)
    } else {
        exists|gb: Grid, gw: Grid|
            #[trigger] apply_connectivity::connectivity_passes(g, gb, gw, new)
                && apply_connectivity::connectivity_steps(g, gb, gw, new, s)
    }
}

/// `new` and `s` are what up to `d` rounds of deductions leave of `g` and
/// record, stopping after the first round that fills nothing.
pub open spec fn deduce_record(g: Grid, new: Grid, d: nat, s: Seq<SolveStep>) -> bool
    decreases d,
{
    if d == 0 {
        new == g && s.len() == 0
    } else {
        exists|m: Grid, s1: Seq<SolveStep>|
            #[trigger] deduce_once(g, m) && #[trigger] once_steps(g, m, s1) && s1.len() <= s.len() && s.take(
                s1.len() as int,
            ) == s1 && (if fills_some(g, m) {
                deduce_record(m, new, (d - 1) as nat, s.skip(s1.len() as int))
            } else {
                new == m && s.len() == s1.len()
            })
    }
}

/// A round that fills something, followed by further rounds.
proof fn lemma_record_step(g: Grid, m: Grid, h: Grid, d: nat, s1: Seq<SolveStep>, s: Seq<SolveStep>)
    requires
        deduce_once(g, m),
        once_steps(g, m, s1),
        fills_some(g, m),
        d > 0,
        deduce_record(m, h, (d - 1) as nat, s),
    ensures
        deduce_record(g, h, d, s1 + s),
{
    assert((s1 + s).take(s1.len() as int) =~= s1);
    assert((s1 + s).skip(s1.len() as int) =~= s);
}

/// Further rounds after one that filled something extend what the rounds
/// from `g0` give and record.
#[verifier::rlimit(40)]
proof fn lemma_rounds_advance(
    g0: Grid,
    g1: Grid,
    m: Grid,
    d: nat,
    rem: nat,
    rem2: nat,
    sp: Seq<SolveStep>,
    s1: Seq<SolveStep>,
    some: bool,
)
    requires
        deduce_once(g1, m),
        fills_some(g1, m),
        rem > 0,
        rem2 == rem - 1,
        forall|h: Grid| #[trigger] deduce_rounds(g1, h, rem) ==> deduce_rounds(g0, h, d),
        some ==> once_steps(g1, m, s1),
        some ==> forall|h: Grid, s: Seq<SolveStep>|
            #[trigger] deduce_record(g1, h, rem, s) ==> deduce_record(g0, h, d, sp + s),
    ensures
        forall|h: Grid| #[trigger] deduce_rounds(m, h, rem2) ==> deduce_rounds(g0, h, d),
        some ==> forall|h: Grid, s: Seq<SolveStep>|
            #[trigger] deduce_record(m, h, rem2, s) ==> deduce_record(g0, h, d, (sp + s1) + s),
{
    assert forall|h: Grid| #[trigger] deduce_rounds(m, h, rem2) implies deduce_rounds(g0, h, d) by {
        lemma_rounds_step(g1, m, h, rem, rem2);
    }
    if some {
        assert forall|h: Grid, s: Seq<SolveStep>|
            #[trigger] deduce_record(m, h, rem2, s) implies deduce_record(g0, h, d, (sp + s1) + s) by {
            lemma_record_step(g1, m, h, rem, s1, s);
            assert(sp + (s1 + s) =~= (sp + s1) + s);
        }
    }
}

/// A round that fills something, followed by further rounds.
proof fn lemma_rounds_step(g: Grid, m: Grid, h: Grid, rem: nat, rem2: nat)
    requires
        deduce_once(g, m),
        fills_some(g, m),
        rem > 0,
        rem2 == rem - 1,
        deduce_rounds(m, h, rem2),
    ensures
        deduce_rounds(g, h, rem),
{
}

/// With no rounds left, what the rounds from `g0` give and record is where
/// they stand.
proof fn lemma_rounds_end(g0: Grid, g: Grid, d: nat, rem: nat, sp: Seq<SolveStep>, some: bool)
    requires
        rem == 0,
        forall|h: Grid| #[trigger] deduce_rounds(g, h, rem) ==> deduce_rounds(g0, h, d),
        some ==> forall|h: Grid, s: Seq<SolveStep>|
            #[trigger] deduce_record(g, h, rem, s) ==> deduce_record(g0, h, d, sp + s),
    ensures
        deduce_rounds(g0, g, d),
        some ==> deduce_record(g0, g, d, sp),
{
    assert(deduce_rounds(g, g, rem));
    if some {
        assert(deduce_record(g, g, rem, Seq::empty()));
        assert(sp + Seq::<SolveStep>::empty() =~= sp);
    }
}

/// A round that fills nothing ends the rounds.
proof fn lemma_record_stop(g: Grid, m: Grid, d: nat, s1: Seq<SolveStep>)
    requires
        deduce_once(g, m),
        once_steps(g, m, s1),
        !fills_some(g, m),
        d > 0,
    ensures
        deduce_record(g, m, d, s1),
{
    assert(s1.take(s1.len() as int) =~= s1);
}

/// `h0` is `g` with the cell (r, c) holding `k`.
pub open spec fn hypothesis(g: Grid, r: int, c: int, k: Cell, h0: Grid) -> bool {
    &&& h0.wf()
    &&& h0.rows == g.rows
    &&& h0.cols == g.cols
    &&& h0.at(r, c) == k
    &&& forall|r2: int, c2: int|
        #![trigger h0.at(r2, c2)]
        g.contains_pos(r2, c2) && (r2 != r || c2 != c) ==> h0.at(r2, c2) == g.at(r2, c2)
}

/// Giving the cell (r, c) of `g` the colour `k` and making up to `depth`
/// rounds of deductions leads to a grid that the rules reject.
pub open spec fn refuted(g: Grid, r: int, c: int, k: Cell, depth: nat) -> bool {
    exists|h0: Grid, h: Grid|
        hypothesis(g, r, c, k, h0) && #[trigger] deduce_rounds(h0, h, depth) && rule_check(h)
            == RuleCheck::Contradiction
}

/// Giving the cell (r, c) of `g` the colour `k` and making up to `depth`
/// rounds of deductions leads to a grid that the rules do not reject.
pub open spec fn survives(g: Grid, r: int, c: int, k: Cell, depth: nat) -> bool {
    exists|h0: Grid, h: Grid|
        hypothesis(g, r, c, k, h0) && #[trigger] deduce_rounds(h0, h, depth) && rule_check(h)
            != RuleCheck::Contradiction
}

/// (r2, c2) comes before (r, c) in row-major order.
pub open spec fn before(r2: int, c2: int, r: int, c: int) -> bool {
    r2 < r || (r2 == r && c2 < c)
}

/// Both hypotheses at every empty cell of `g` that `stop` admits survive.
pub open spec fn all_survive(g: Grid, depth: nat, stop: spec_fn(int, int) -> bool) -> bool {
    forall|r2: int, c2: int|
        #![trigger g.at(r2, c2)]
        g.contains_pos(r2, c2) && g.at(r2, c2) == Cell::Empty && stop(r2, c2) ==> survives(
            g,
            r2,
            c2,
            Cell::White,
            depth,
        ) && survives(g, r2, c2, Cell::Black, depth)
}

/// What proof by contradiction leaves of `g`: the first empty cell in
/// row-major order, and for it the first colour (black, then white), whose
/// opposite is refuted takes that colour; when there is none, `g` stays as
/// it is.
pub open spec fn pbc_result(g: Grid, new: Grid, depth: nat) -> bool {
    ||| exists|r: int, c: int|
        #[trigger] fills_one(g, new, r, c) && refuted(g, r, c, opposite(new.at(r, c)), depth) && (new.at(r, c)
            == Cell::White ==> survives(g, r, c, Cell::White, depth)) && all_survive(
            g,
            depth,
            |r2: int, c2: int| before(r2, c2, r, c),
        )
    ||| new == g && all_survive(g, depth, |r2: int, c2: int| true)
}

/// A proof-by-contradiction step that records the cell filled from `old` to
/// `new`, and, as its steps, what the rounds of deductions under the refuted
/// hypothesis recorded on their way to the grid that the rules reject.
#[verifier::opaque]
pub open spec fn pbc_step(step: SolveStep, old: Grid, new: Grid, depth: nat) -> bool {
    step matches SolveStep::ApplyPbc(r, c, color, steps) && fills_one(old, new, r as int, c as int)
        && new.at(r as int, c as int) == color && exists|h0: Grid, h: Grid|
        hypothesis(old, r as int, c as int, opposite(color), h0) && #[trigger] deduce_rounds(h0, h, depth)
            && rule_check(h) == RuleCheck::Contradiction && deduce_record(h0, h, depth, steps@)
}

/// One round of the deductions used under a hypothesis: the first of the 2x2,
/// border and connectivity rules that fills in anything.
fn apply_pbc_deductions_once(grid: &mut Grid, path: &mut Option<SolvePath>) -> (res: bool)
    requires
        old(grid).wf(),
        old(grid).rows >= 1,
        old(grid).cols >= 1,
    ensures
        deduce_once(*old(grid), *final(grid)),
        only_fills(*old(grid), *final(grid)),
        res == fills_some(*old(grid), *final(grid)),
        !res ==> *final(grid) == *old(grid),
        extends(*old(path), *final(path)),
        replays(*old(path), *final(path), *old(grid), *final(grid)),
        !res ==> *final(path) == *old(path),
        *old(path) is Some ==> exists|s: Seq<SolveStep>|
            #[trigger] once_steps(*old(grid), *final(grid), s) && recorded(*old(path), *final(path), s),
{
    let ghost g0 = *grid;
    let ghost p0 = *path;
    if apply_2x2::apply(grid, path) {
        proof {
            crate::solve_path::lemma_extends_recorded(p0, *path, apply_2x2::report_steps(apply_2x2::reports_2x2(g0)));
            assert(once_steps(g0, *grid, apply_2x2::report_steps(apply_2x2::reports_2x2(g0)))) by {
                reveal(once_steps);
            }
        }
        return true;
    }
    let ghost g1 = *grid;
    let ghost p1 = *path;
    proof {
        crate::solve_path::lemma_extends_recorded(p0, p1, apply_2x2::report_steps(apply_2x2::reports_2x2(g0)));
    }
    if apply_border::apply(grid, path) {
        proof {
            lemma_only_fills_trans(g0, g1, *grid);
            lemma_extends_one(p1, *path);
            lemma_extends_trans(p0, p1, *path);
            lemma_replays_trans(p0, p1, *path, g0, g1, *grid);
            if let Some(v) = p0 {
                let st = seq![path->0@.last()];
                assert(path->0@ =~= v@ + st);
                assert(once_steps(g0, *grid, st)) by {
                    reveal(once_steps);
                }
            }
        }
        return true;
    }
    let ghost g2 = *grid;
    let ghost p2 = *path;
    proof {
        lemma_only_fills_trans(g0, g1, g2);
        lemma_extends_one(p1, p2);
        lemma_extends_trans(p0, p1, p2);
        lemma_replays_trans(p0, p1, p2, g0, g1, g2);
    }
    let res = apply_connectivity::apply(grid, path);
    proof {
        lemma_only_fills_trans(g0, g2, *grid);
        lemma_extends_trans(p0, p2, *path);
        lemma_replays_trans(p0, p2, *path, g0, g2, *grid);
        let (gb, gw, st) = choose|gb: Grid, gw: Grid, s: Seq<SolveStep>|
            #[trigger] apply_connectivity::connectivity_passes(g2, gb, gw, *grid)
                && apply_connectivity::connectivity_steps(g2, gb, gw, *grid, s) && #[trigger] recorded(p2, *path, s);
        assert(once_steps(g0, *grid, st)) by {
            reveal(once_steps);
        }
        if fills_some(g0, *grid) && !res {
            let (r, c) = choose|r: int, c: int|
                g0.contains_pos(r, c) && g0.at(r, c) == Cell::Empty && #[trigger] grid.at(r, c)
                    != Cell::Empty;
            assert(g1.at(r, c) == Cell::Empty);
            assert(g2.at(r, c) == Cell::Empty);
        }
    }
    res
}

/// Up to `depth` rounds of deductions, stopping after the first round that
/// fills in nothing.
#[verifier::rlimit(80)]
fn apply_pbc_deductions(grid: &mut Grid, path: &mut Option<SolvePath>, depth: usize)
    requires
        old(grid).wf(),
        old(grid).rows >= 1,
        old(grid).cols >= 1,
    ensures
        final(grid).wf(),
        deduce_rounds(*old(grid), *final(grid), depth as nat),
        final(grid).rows == old(grid).rows,
        final(grid).cols == old(grid).cols,
        only_fills(*old(grid), *final(grid)),
        extends(*old(path), *final(path)),
        replays(*old(path), *final(path), *old(grid), *final(grid)),
        depth == 0 ==> *final(grid) == *old(grid) && *final(path) == *old(path),
        *old(path) is Some ==> exists|s: Seq<SolveStep>|
            #[trigger] deduce_record(*old(grid), *final(grid), depth as nat, s) && recorded(
                *old(path),
                *final(path),
                s,
            ),
{
    let ghost g0 = *grid;
    let ghost p0 = *path;
    let ghost mut sp: Seq<SolveStep> = Seq::empty();
    proof {
        crate::fill::lemma_only_fills_refl(g0);
        lemma_extends_one(p0, p0);
        lemma_replays_same(p0, g0);
        crate::solve_path::lemma_recorded_none(p0);
    }
    let mut k: usize = 0;
    loop
        invariant
            g0 == *old(grid),
            p0 == *old(path),
            grid.wf(),
            grid.rows == g0.rows,
            grid.cols == g0.cols,
            g0.rows >= 1,
            g0.cols >= 1,
            only_fills(g0, *grid),
            extends(p0, *path),
            replays(p0, *path, g0, *grid),
            k <= depth,
            forall|h: Grid|
                #[trigger] deduce_rounds(*grid, h, (depth - k) as nat) ==> deduce_rounds(g0, h, depth as nat),
            k == 0 ==> *grid == g0 && *path == p0,
            p0 is Some ==> recorded(p0, *path, sp),
            p0 is Some ==> forall|h: Grid, s: Seq<SolveStep>|
                #[trigger] deduce_record(*grid, h, (depth - k) as nat, s) ==> deduce_record(g0, h, depth as nat, sp + s),
        ensures
            grid.wf(),
            grid.rows == g0.rows,
            grid.cols == g0.cols,
            only_fills(g0, *grid),
            extends(p0, *path),
            replays(p0, *path, g0, *grid),
            deduce_rounds(g0, *grid, depth as nat),
            depth == 0 ==> *grid == g0 && *path == p0,
            p0 is Some ==> exists|s: Seq<SolveStep>|
                #[trigger] deduce_record(g0, *grid, depth as nat, s) && recorded(p0, *path, s),
        decreases depth - k,
    {
        if k >= depth {
            proof {
                lemma_rounds_end(g0, *grid, depth as nat, (depth - k) as nat, sp, p0 is Some);
            }
            break;
        }
        let ghost g1 = *grid;
        let ghost p1 = *path;
        let progress = apply_pbc_deductions_once(grid, path);
        proof {
            lemma_only_fills_trans(g0, g1, *grid);
            lemma_extends_trans(p0, p1, *path);
            lemma_replays_trans(p0, p1, *path, g0, g1, *grid);
        }
        let ghost s1: Seq<SolveStep> = if p0 is Some {
            choose|s: Seq<SolveStep>| #[trigger] once_steps(g1, *grid, s) && recorded(p1, *path, s)
        } else {
            Seq::empty()
        };
        if !progress {
            proof {
                assert(deduce_once(g1, *grid));
                assert(deduce_rounds(g1, *grid, (depth - k) as nat));
                if p0 is Some {
                    lemma_record_stop(g1, *grid, (depth - k) as nat, s1);
                    assert(deduce_record(g0, *grid, depth as nat, sp + s1));
                    crate::solve_path::lemma_recorded_trans(p0, p1, *path, sp, s1);
                }
            }
            break;
        }
        proof {
            assert forall|h: Grid| #[trigger] deduce_rounds(*grid, h, (depth - k - 1) as nat) implies deduce_rounds(
                g0,
                h,
                depth as nat,
            ) by {
                assert(deduce_once(g1, *grid));
                assert(deduce_rounds(g1, h, (depth - k) as nat));
            }
            lemma_rounds_advance(g0, g1, *grid, depth as nat, (depth - k) as nat, (depth - k - 1) as nat, sp, s1, p0 is Some);
            if p0 is Some {
                crate::solve_path::lemma_recorded_trans(p0, p1, *path, sp, s1);
            }
            sp = sp + s1;
        }
        k = k + 1;
    }
}

/// What holds when the hypothesis `opposite(color)` at (r, c), tried as the
/// `ci`-th colour at flat index `i`, is refuted and the cell is written.
proof fn lemma_pbc_found(
    g: Grid,
    new: Grid,
    r: int,
    c: int,
    color: Cell,
    depth: nat,
    h0: Grid,
    h: Grid,
    step: SolveStep,
    ci: int,
    cols: int,
    i: int,
)
    requires
        g.wf(),
        new.wf(),
        new.rows == g.rows,
        new.cols == g.cols,
        cols == g.cols,
        in_bounds(g.rows as int, g.cols as int, r, c),
        g.at(r, c) == Cell::Empty,
        new.data@ == g.data@.update(flat_index(cols, r, c), color),
        new.at(r, c) == color,
        forall|r2: int, c2: int|
            #![trigger new.at(r2, c2)]
            g.contains_pos(r2, c2) && (r2 != r || c2 != c) ==> new.at(r2, c2) == g.at(r2, c2),
        ci == 0 ==> color == Cell::Black,
        ci == 1 ==> color == Cell::White,
        0 <= ci < 2,
        hypothesis(g, r, c, opposite(color), h0),
        deduce_rounds(h0, h, depth),
        rule_check(h) == RuleCheck::Contradiction,
        step matches SolveStep::ApplyPbc(rr, cc, col, v) && rr == r && cc == c && col == color && deduce_record(
            h0,
            h,
            depth,
            v@,
        ),
        ci >= 1 ==> survives(g, r, c, Cell::White, depth),
        flat_index(cols, r, c) == i,
        forall|r2: int, c2: int|
            #![trigger g.at(r2, c2)]
            g.contains_pos(r2, c2) && g.at(r2, c2) == Cell::Empty && flat_index(cols, r2, c2) < i
                ==> survives(g, r2, c2, Cell::White, depth) && survives(g, r2, c2, Cell::Black, depth),
    ensures
        pbc_result(g, new, depth),
        pbc_step(step, g, new, depth),
        step_effect(cols, g.data@, step) == new.data@,
        only_fills(g, new),
        fills_some(g, new),
{
    assert(opposite(new.at(r, c)) == opposite(color));
    assert(refuted(g, r, c, opposite(new.at(r, c)), depth));
    assert(fills_one(g, new, r, c));
    assert(pbc_step(step, g, new, depth)) by {
        reveal(pbc_step);
    }
    assert(step_effect(cols, g.data@, step) =~= new.data@);
    assert(new.at(r, c) != g.at(r, c));
    assert(all_survive(g, depth, |r2: int, c2: int| before(r2, c2, r, c))) by {
        assert forall|r2: int, c2: int|
            #![trigger g.at(r2, c2)]
            g.contains_pos(r2, c2) && g.at(r2, c2) == Cell::Empty && before(r2, c2, r, c) implies survives(
            g,
            r2,
            c2,
            Cell::White,
            depth,
        ) && survives(g, r2, c2, Cell::Black, depth) by {
            lemma_flat_order(cols, r2, c2, r, c);
        }
    }
    assert(pbc_result(g, new, depth));
}

/// Proof by contradiction: for each empty cell in row-major order, and for each
/// colour (black first), the cell is given the opposite colour and up to
/// `depth` rounds of deductions are made; if the rules then find a
/// contradiction, the cell must hold the colour, which is written, and the
/// deductions made under the hypothesis are recorded. Returns whether a cell
/// was filled; at most one is.
#[verifier::rlimit(80)]
pub fn apply(grid: &mut Grid, path: &mut Option<SolvePath>, depth: usize) -> (res: bool)
    requires
        old(grid).wf(),
    ensures
        final(grid).wf(),
        pbc_result(*old(grid), *final(grid), depth as nat),
        final(grid).rows == old(grid).rows,
        final(grid).cols == old(grid).cols,
        only_fills(*old(grid), *final(grid)),
        res == fills_some(*old(grid), *final(grid)),
        !res ==> *final(grid) == *old(grid),
        res ==> recorded_one(
            *old(path),
            *final(path),
            |st: SolveStep| pbc_step(st, *old(grid), *final(grid), depth as nat),
        ),
        !res ==> *final(path) == *old(path),
        replays(*old(path), *final(path), *old(grid), *final(grid)),
{
    let ghost g = *grid;
    let n = grid.len();
    let cols = grid.cols();
    let mut i: usize = 0;
    while i < n
        invariant
            grid.wf(),
            *grid == *old(grid),
            g == *old(grid),
            *path == *old(path),
            n == grid.data@.len(),
            cols == grid.cols,
            i <= n,
            forall|r2: int, c2: int|
                #![trigger g.at(r2, c2)]
                g.contains_pos(r2, c2) && g.at(r2, c2) == Cell::Empty && flat_index(cols as int, r2, c2) < i
                    ==> survives(g, r2, c2, Cell::White, depth as nat) && survives(
                    g,
                    r2,
                    c2,
                    Cell::Black,
                    depth as nat,
                ),
        decreases n - i,
    {
        proof {
            lemma_index_onto(grid.rows as int, grid.cols as int, i as int);
        }
        let r = i / cols;
        let c = i % cols;
        let ghost fi = flat_index(cols as int, r as int, c as int);
        if !grid.get(r, c).empty() {
            proof {
                assert forall|r2: int, c2: int|
                    #![trigger g.at(r2, c2)]
                    g.contains_pos(r2, c2) && g.at(r2, c2) == Cell::Empty && flat_index(cols as int, r2, c2) < i
                        + 1 implies survives(g, r2, c2, Cell::White, depth as nat) && survives(
                    g,
                    r2,
                    c2,
                    Cell::Black,
                    depth as nat,
                ) by {
                    if flat_index(cols as int, r2, c2) == i {
                        lemma_index_injective(cols as int, r2, c2, r as int, c as int);
                    }
                }
            }
            i = i + 1;
            continue;
        }
        let colors = [Cell::Black, Cell::White];
        let mut ci: usize = 0;
        while ci < 2
            invariant
                grid.wf(),
                *grid == *old(grid),
                g == *old(grid),
                *path == *old(path),
                in_bounds(grid.rows as int, grid.cols as int, r as int, c as int),
                grid.at(r as int, c as int) == Cell::Empty,
                colors@ == seq![Cell::Black, Cell::White],
                ci <= 2,
                ci >= 1 ==> survives(g, r as int, c as int, Cell::White, depth as nat),
                ci >= 2 ==> survives(g, r as int, c as int, Cell::Black, depth as nat),
                cols == grid.cols,
                flat_index(cols as int, r as int, c as int) == i,
                forall|r2: int, c2: int|
                    #![trigger g.at(r2, c2)]
                    g.contains_pos(r2, c2) && g.at(r2, c2) == Cell::Empty && flat_index(cols as int, r2, c2) < i
                        ==> survives(g, r2, c2, Cell::White, depth as nat) && survives(
                        g,
                        r2,
                        c2,
                        Cell::Black,
                        depth as nat,
                    ),
            decreases 2 - ci,
        {
            let color = colors[ci];
            let mut hyppath: Option<SolvePath> = Some(Vec::new());
            let mut hyp = grid.copy();
            hyp.set(r, c, color.inv());
            let ghost h0 = hyp;
            let ghost hp0 = hyppath;
            proof {
                assert(hypothesis(g, r as int, c as int, opposite(color), h0));
            }
            apply_pbc_deductions(&mut hyp, &mut hyppath, depth);
            if rules::check(&hyp) == RuleCheck::Contradiction {
                let steps = match hyppath {
                    Some(v) => v,
                    None => Vec::new(),
                };
                proof {
                    let st = choose|st: Seq<SolveStep>|
                        #[trigger] deduce_record(h0, hyp, depth as nat, st) && recorded(hp0, hyppath, st);
                    assert(steps@ =~= st);
                }
                let ghost p0 = *path;
                grid.set(r, c, color);
                let step = SolveStep::ApplyPbc(r, c, color, steps);
                proof {
                    lemma_pbc_found(g, *grid, r as int, c as int, color, depth as nat, h0, hyp, step, ci as int, cols as int, i as int);
                }
                record(path, step);
                proof {
                    if let Some(v) = p0 {
                        assert(path->0@ =~= v@ + seq![step]);
                        assert(path->0@.drop_last() =~= v@);
                    }
                    lemma_replay_one(g.cols as int, g.data@, step);
                    lemma_replays_recorded(p0, *path, g, *grid, seq![step]);
                }
                return true;
            }
            proof {
                assert(survives(g, r as int, c as int, opposite(color), depth as nat));
            }
            ci = ci + 1;
        }
        proof {
            assert forall|r2: int, c2: int|
                #![trigger g.at(r2, c2)]
                g.contains_pos(r2, c2) && g.at(r2, c2) == Cell::Empty && flat_index(cols as int, r2, c2) < i + 1 implies survives(
                g,
                r2,
                c2,
                Cell::White,
                depth as nat,
            ) && survives(g, r2, c2, Cell::Black, depth as nat) by {
                if flat_index(cols as int, r2, c2) == i {
                    lemma_index_injective(cols as int, r2, c2, r as int, c as int);
                }
            }
        }
        i = i + 1;
    }
    proof {
        assert(all_survive(g, depth as nat, |r2: int, c2: int| true)) by {
            assert forall|r2: int, c2: int|
                #![trigger g.at(r2, c2)]
                g.contains_pos(r2, c2) && g.at(r2, c2) == Cell::Empty implies survives(
                g,
                r2,
                c2,
                Cell::White,
                depth as nat,
            ) && survives(g, r2, c2, Cell::Black, depth as nat) by {
                lemma_index_bounds(g.rows as int, g.cols as int, r2, c2);
            }
        }
        lemma_replays_same(*path, g);
    }
    false
}

} // verus!
