use vstd::prelude::*;

use crate::array::{flat_index, lemma_index_bounds, Array2};
use crate::cell::Cell;
use crate::count::{count_eq, lemma_count_mono, lemma_count_update};
use crate::ext::{ArrayExt, CellExt};
use crate::region::{
    adjacent, adjacent_cells, cell_at, closed_region, connected, lemma_reachable_refl,
    lemma_reachable_step, lemma_reachable_symm, lemma_reachable_trans, on_grid, reachable, upos,
};
use crate::fill::only_fills;
use crate::Grid;

verus! {

/// The verdict of the rules on a grid.
#[derive(Copy, Clone, Debug, PartialEq, Eq, Structural)]
pub enum RuleCheck {
    Unsolved,
    Solved,
    Contradiction,
}

/// The 2x2 block with top-left corner (r, c) is solid or a checkerboard:
/// both forbidden by the rules.
pub open spec fn violates_2x2(g: Grid, r: int, c: int) -> bool {
    let c0 = g.at(r, c);
    let c1 = g.at(r, c + 1);
    let c2 = g.at(r + 1, c);
    let c3 = g.at(r + 1, c + 1);
    c0 != Cell::Empty && c1 != Cell::Empty && c0 == c3 && c1 == c2
}

/// The 2x2 block with top-left corner (r, c) lies in the grid.
pub open spec fn window_in_grid(g: Grid, r: int, c: int) -> bool {
    0 <= r && r + 1 < g.rows && 0 <= c && c + 1 < g.cols
}

/// Some 2x2 block of the grid is solid or a checkerboard.
pub open spec fn has_2x2_violation(g: Grid) -> bool {
    exists|r: int, c: int| window_in_grid(g, r, c) && #[trigger] violates_2x2(g, r, c)
}

/// Some cell of the grid is empty.
pub open spec fn has_empty(g: Grid) -> bool {
    exists|p: (int, int)| on_grid(g, p) && #[trigger] cell_at(g, p) == Cell::Empty
}

/// What the rules say of a grid: a forbidden 2x2 block is a contradiction; else
/// an empty cell leaves it unsolved; else it is solved exactly when the black
/// cells form one region and the white cells form one region.
pub open spec fn rule_check(g: Grid) -> RuleCheck {
    if has_2x2_violation(g) {
        RuleCheck::Contradiction
    } else if has_empty(g) {
        RuleCheck::Unsolved
    } else if connected(g, Cell::Black) && connected(g, Cell::White) {
        RuleCheck::Solved
    } else {
        RuleCheck::Contradiction
    }
}

/// What the regions say of a grid, 2x2 blocks aside: an empty cell leaves it
/// unsolved; else it is solved exactly when the black cells form one region
/// and the white cells form one region, and contradictory otherwise.
pub open spec fn region_verdict(g: Grid) -> RuleCheck {
    if has_empty(g) {
        RuleCheck::Unsolved
    } else if connected(g, Cell::Black) && connected(g, Cell::White) {
        RuleCheck::Solved
    } else {
        RuleCheck::Contradiction
    }
}

/// `sol` is a solution of the puzzle `g`: it fills in the empty cells of `g`
/// and the rules accept it.
pub open spec fn solves(g: Grid, sol: Grid) -> bool {
    &&& sol.wf()
    &&& only_fills(g, sol)
    &&& rule_check(sol) == RuleCheck::Solved
}

/// In a solved grid the cells of each colour form one region and no cell is
/// empty.
pub proof fn connected_parts(g: Grid)
    requires
        rule_check(g) == RuleCheck::Solved,
    ensures
        connected(g, Cell::Black),
        connected(g, Cell::White),
        !has_empty(g),
        !has_2x2_violation(g),
{
}

/// A grid the rules reject has no solution: a forbidden 2x2 block of filled
/// cells stays in every way of filling the grid in, and a full grid is its own
/// only filling.
pub proof fn lemma_contradiction_unsolvable(g: Grid, sol: Grid)
    requires
        rule_check(g) == RuleCheck::Contradiction,
    ensures
        !solves(g, sol),
{
    if solves(g, sol) {
        connected_parts(sol);
        if has_2x2_violation(g) {
            let (r, c) = choose|r: int, c: int| window_in_grid(g, r, c) && #[trigger] violates_2x2(g, r, c);
            assert(sol.at(r, c) == g.at(r, c));
            assert(sol.at(r, c + 1) == g.at(r, c + 1));
            assert(sol.at(r + 1, c) == g.at(r + 1, c));
            assert(sol.at(r + 1, c + 1) == g.at(r + 1, c + 1));
            assert(violates_2x2(sol, r, c) && window_in_grid(sol, r, c));
        } else {
            assert forall|p: (int, int)| on_grid(g, p) implies #[trigger] cell_at(sol, p) == cell_at(g, p) by {
                assert(sol.at(p.0, p.1) == g.at(p.0, p.1) || g.at(p.0, p.1) == Cell::Empty);
                if g.at(p.0, p.1) == Cell::Empty {
                    assert(cell_at(g, p) == Cell::Empty);
                }
            }
            crate::region::lemma_connected_same(g, sol, Cell::Black);
            crate::region::lemma_connected_same(g, sol, Cell::White);
        }
    }
}

/// Position `p` is marked in `v`.
pub open spec fn is_vis(v: Array2<bool>, p: (int, int)) -> bool {
    v.at(p.0, p.1)
}

struct RuleChecker<'g> {
    grid: &'g Grid,
    visited: Array2<bool>,
    visited_black: bool,
    visited_white: bool,
}

/// The visited cells of colour `k` are exactly the cells of colour `k` that can
/// be reached from `root`, when `flag`; there are none when `!flag`.
spec fn colour_visited(g: Grid, visited: Array2<bool>, k: Cell, flag: bool, root: (int, int)) -> bool {
    &&& flag ==> on_grid(g, root) && cell_at(g, root) == k
    &&& forall|p: (int, int)|
        #![trigger is_vis(visited, p)]
        on_grid(g, p) && cell_at(g, p) == k ==> (is_vis(visited, p) <==> (flag && reachable(
            g,
            k,
            root,
            p,
        )))
}

impl<'g> RuleChecker<'g> {
    spec fn wf(&self) -> bool {
        &&& self.grid.wf()
        &&& self.visited.wf()
        &&& self.visited.rows == self.grid.rows
        &&& self.visited.cols == self.grid.cols
    }

    fn new(grid: &'g Grid) -> (res: RuleChecker<'g>)
        requires
            grid.wf(),
        ensures
            res.wf(),
            res.grid == grid,
            !res.visited_black,
            !res.visited_white,
            forall|i: int| 0 <= i < res.visited.data@.len() ==> !res.visited.data@[i],
    {
        let visited = grid.dup_filled(false);
        RuleChecker { grid, visited, visited_black: false, visited_white: false }
    }

    fn dfs(&mut self, x0: (usize, usize), color: Cell)
        requires
            old(self).wf(),
            on_grid(*old(self).grid, upos(x0)),
            cell_at(*old(self).grid, upos(x0)) == color,
            !is_vis(old(self).visited, upos(x0)),
        ensures
            final(self).wf(),
            final(self).grid == old(self).grid,
            final(self).visited_black == old(self).visited_black,
            final(self).visited_white == old(self).visited_white,
            is_vis(final(self).visited, upos(x0)),
            forall|i: int|
                0 <= i < old(self).visited.data@.len() && #[trigger] old(self).visited.data@[i]
                    ==> final(self).visited.data@[i],
            forall|p: (int, int)|
                on_grid(*old(self).grid, p) && #[trigger] is_vis(final(self).visited, p) && !is_vis(old(self).visited, p) ==> cell_at(
                    *old(self).grid,
                    p,
                ) == color && reachable(*old(self).grid, color, upos(x0), p),
            forall|p: (int, int), q: (int, int)|
                #![trigger is_vis(final(self).visited, p), is_vis(final(self).visited, q)]
                on_grid(*old(self).grid, p) && on_grid(*old(self).grid, q) && is_vis(final(self).visited, p)
                    && !is_vis(old(self).visited, p) && adjacent(p, q) && cell_at(*old(self).grid, q) == color
                    ==> is_vis(final(self).visited, q),
        decreases count_eq(old(self).visited.data@, false),
    {
        let ghost g = *self.grid;
        let ghost v0 = self.visited;
        let ghost p0 = upos(x0);
        proof {
            lemma_index_bounds(g.rows as int, g.cols as int, p0.0, p0.1);
            lemma_count_update(v0.data@, flat_index(g.cols as int, p0.0, p0.1), true, false);
            lemma_reachable_refl(g, color, p0);
        }
        self.visited.set(x0.0, x0.1, true);
        let nb = adjacent_cells(self.grid.rows, self.grid.cols, x0.0, x0.1);
        let mut k: usize = 0;
        while k < nb.len()
            invariant
                self.wf(),
                *self.grid == g,
                self.visited_black == old(self).visited_black,
                self.visited_white == old(self).visited_white,
                v0 == old(self).visited,
                v0.wf(),
                v0.rows == g.rows,
                v0.cols == g.cols,
                g == *old(self).grid,
                on_grid(g, p0),
                p0 == upos(x0),
                cell_at(g, p0) == color,
                !is_vis(v0, p0),
                is_vis(self.visited, p0),
                0 <= k <= nb@.len(),
                count_eq(self.visited.data@, false) < count_eq(v0.data@, false),
                forall|j: int|
                    0 <= j < nb@.len() ==> on_grid(g, upos(#[trigger] nb@[j])) && adjacent(
                        p0,
                        upos(nb@[j]),
                    ),
                forall|a: usize, b: usize|
                    on_grid(g, (a as int, b as int)) && adjacent(p0, (a as int, b as int))
                        ==> #[trigger] nb@.contains((a, b)),
                forall|j: int|
                    0 <= j < k ==> is_vis(self.visited, upos(#[trigger] nb@[j])) || cell_at(g, upos(nb@[j]))
                        != color,
                forall|i: int|
                    0 <= i < v0.data@.len() && #[trigger] v0.data@[i] ==> self.visited.data@[i],
                forall|p: (int, int)|
                    on_grid(g, p) && #[trigger] is_vis(self.visited, p) && !is_vis(v0, p) ==> cell_at(g, p)
                        == color && reachable(g, color, p0, p),
                forall|p: (int, int), q: (int, int)|
                    #![trigger is_vis(self.visited, p), is_vis(self.visited, q)]
                    on_grid(g, p) && on_grid(g, q) && is_vis(self.visited, p) && !is_vis(v0, p) && p != p0
                        && adjacent(p, q) && cell_at(g, q) == color ==> is_vis(self.visited, q),
            decreases nb@.len() - k,
        {
            let x1 = nb[k];
            proof {
                assert(on_grid(g, upos(x1)));
            }
            if !self.visited.get(x1.0, x1.1) && self.grid.get(x1.0, x1.1) == color {
                let ghost v1 = self.visited;
                self.dfs(x1, color);
                proof {
                    assert forall|i: int|
                        0 <= i < v0.data@.len() && #[trigger] v0.data@[i] implies self.visited.data@[i] by {
                        assert(v1.data@[i]);
                    }
                    lemma_count_mono(v1.data@, self.visited.data@, false);
                    assert(reachable(g, color, p0, upos(x1))) by {
                        lemma_reachable_step(g, color, p0, p0, upos(x1));
                    }
                    assert forall|p: (int, int)|
                        on_grid(g, p) && #[trigger] is_vis(self.visited, p) && !is_vis(v0, p) implies cell_at(g, p)
                        == color && reachable(g, color, p0, p) by {
                        lemma_index_bounds(g.rows as int, g.cols as int, p.0, p.1);
                        if is_vis(v1, p) {
                        } else {
                            lemma_reachable_trans(g, color, p0, upos(x1), p);
                        }
                    }
                    assert forall|p: (int, int), q: (int, int)|
                        #![trigger is_vis(self.visited, p), is_vis(self.visited, q)]
                        on_grid(g, p) && on_grid(g, q) && is_vis(self.visited, p) && !is_vis(v0, p) && p != p0
                            && adjacent(p, q) && cell_at(g, q) == color implies is_vis(self.visited, q) by {
                        lemma_index_bounds(g.rows as int, g.cols as int, p.0, p.1);
                        lemma_index_bounds(g.rows as int, g.cols as int, q.0, q.1);
                        if is_vis(v1, p) {
                            assert(is_vis(v1, q));
                        }
                    }
                    assert forall|j: int|
                        0 <= j < k + 1 implies is_vis(self.visited, upos(#[trigger] nb@[j])) || cell_at(g, upos(nb@[j]))
                        != color by {
                        let pj = upos(nb@[j]);
                        lemma_index_bounds(g.rows as int, g.cols as int, pj.0, pj.1);
                        if j < k && is_vis(v1, pj) {
                        }
                    }
                }
            }
            k = k + 1;
        }
        proof {
            assert forall|p: (int, int), q: (int, int)|
                #![trigger is_vis(self.visited, p), is_vis(self.visited, q)]
                on_grid(g, p) && on_grid(g, q) && is_vis(self.visited, p) && !is_vis(v0, p) && adjacent(p, q)
                    && cell_at(g, q) == color implies is_vis(self.visited, q) by {
                if p == p0 {
                    assert(nb@.contains((q.0 as usize, q.1 as usize)));
                    let j = choose|j: int| 0 <= j < nb@.len() && nb@[j] == (q.0 as usize, q.1 as usize);
                    assert(upos(nb@[j]) == q);
                }
            }
        }
    }

    #[verifier::rlimit(30)]
    fn dfs_all(&mut self) -> (res: RuleCheck)
        requires
            old(self).wf(),
            !old(self).visited_black,
            !old(self).visited_white,
            forall|i: int| 0 <= i < old(self).visited.data@.len() ==> !old(self).visited.data@[i],
        ensures
            res == region_verdict(*old(self).grid),
    {
        let ghost g = *self.grid;
        let ghost mut bb: (int, int) = (0, 0);
        let ghost mut ww: (int, int) = (0, 0);
        let rows = self.grid.rows();
        let cols = self.grid.cols();
        proof {
            assert forall|p: (int, int)| on_grid(g, p) implies !#[trigger] is_vis(self.visited, p) by {
                lemma_index_bounds(g.rows as int, g.cols as int, p.0, p.1);
            }
        }
        let mut r: usize = 0;
        while r < rows
            invariant
                self.wf(),
                *self.grid == g,
                g == *old(self).grid,
                rows == g.rows,
                cols == g.cols,
                r <= rows,
                forall|p: (int, int)|
                    on_grid(g, p) && #[trigger] is_vis(self.visited, p) ==> cell_at(g, p) != Cell::Empty,
                colour_visited(g, self.visited, Cell::Black, self.visited_black, bb),
                colour_visited(g, self.visited, Cell::White, self.visited_white, ww),
                forall|p: (int, int)|
                    on_grid(g, p) && p.0 < r ==> #[trigger] cell_at(g, p) != Cell::Empty && (cell_at(
                        g,
                        p,
                    ) == Cell::Black ==> self.visited_black) && (cell_at(g, p) == Cell::White
                        ==> self.visited_white),
            decreases rows - r,
        {
            let mut c: usize = 0;
            while c < cols
                invariant
                    self.wf(),
                    *self.grid == g,
                    g == *old(self).grid,
                        rows == g.rows,
                    cols == g.cols,
                    r < rows,
                    c <= cols,
                        forall|p: (int, int)|
                        on_grid(g, p) && #[trigger] is_vis(self.visited, p) ==> cell_at(g, p) != Cell::Empty,
                    colour_visited(g, self.visited, Cell::Black, self.visited_black, bb),
                    colour_visited(g, self.visited, Cell::White, self.visited_white, ww),
                    forall|p: (int, int)|
                        on_grid(g, p) && (p.0 < r || (p.0 == r && p.1 < c)) ==> #[trigger] cell_at(g, p)
                            != Cell::Empty && (cell_at(g, p) == Cell::Black ==> self.visited_black) && (
                        cell_at(g, p) == Cell::White ==> self.visited_white),
                decreases cols - c,
            {
                let ghost x = (r as int, c as int);
                if self.visited.get(r, c) {
                    proof {
                        assert(is_vis(self.visited, x));
                        assert(cell_at(g, x) != Cell::Empty);
                    }
                    c = c + 1;
                    continue;
                }
                let color = self.grid.get(r, c);
                if color == Cell::Empty {
                    proof {
                        assert(cell_at(g, x) == Cell::Empty);
                        assert(has_empty(g));
                        assert(region_verdict(g) == RuleCheck::Unsolved);
                        assert(g == *old(self).grid);
                    }
                    return RuleCheck::Unsolved;
                }
                let visited_color = match color {
                    Cell::Black => self.visited_black,
                    _ => self.visited_white,
                };
                if !visited_color {
                    let ghost vb = self.visited;
                    if color == Cell::Black {
                        self.visited_black = true;
                    } else {
                        self.visited_white = true;
                    }
                    assert(self.visited == vb);
                    self.dfs((r, c), color);
                    proof {
                        self.lemma_after_dfs(vb, color, x, bb, ww);
                        if color == Cell::Black {
                            bb = x;
                        } else {
                            ww = x;
                        }
                    }
                }
                c = c + 1;
            }
            r = r + 1;
        }
        proof {
            assert(!has_empty(g));
        }
        let mut r: usize = 0;
        while r < rows
            invariant
                self.wf(),
                *self.grid == g,
                g == *old(self).grid,
                rows == g.rows,
                cols == g.cols,
                r <= rows,
                forall|p: (int, int)| on_grid(g, p) && p.0 < r ==> #[trigger] is_vis(self.visited, p),
                forall|p: (int, int)|
                    on_grid(g, p) ==> #[trigger] cell_at(g, p) != Cell::Empty && (cell_at(g, p)
                        == Cell::Black ==> self.visited_black) && (cell_at(g, p) == Cell::White
                        ==> self.visited_white),
                colour_visited(g, self.visited, Cell::Black, self.visited_black, bb),
                colour_visited(g, self.visited, Cell::White, self.visited_white, ww),
            decreases rows - r,
        {
            let mut c: usize = 0;
            while c < cols
                invariant
                    self.wf(),
                    *self.grid == g,
                    g == *old(self).grid,
                        rows == g.rows,
                    cols == g.cols,
                    r < rows,
                    c <= cols,
                    forall|p: (int, int)|
                        on_grid(g, p) && (p.0 < r || (p.0 == r && p.1 < c)) ==> #[trigger] is_vis(self.visited, p),
                    forall|p: (int, int)|
                        on_grid(g, p) ==> #[trigger] cell_at(g, p) != Cell::Empty && (cell_at(g, p)
                            == Cell::Black ==> self.visited_black) && (cell_at(g, p) == Cell::White
                            ==> self.visited_white),
                    colour_visited(g, self.visited, Cell::Black, self.visited_black, bb),
                    colour_visited(g, self.visited, Cell::White, self.visited_white, ww),
                decreases cols - c,
            {
                if !self.visited.get(r, c) {
                    proof {
                        let x = (r as int, c as int);
                        assert(!is_vis(self.visited, x));
                        assert(cell_at(g, x) != Cell::Empty);
                        if cell_at(g, x) == Cell::Black {
                            assert(!connected(g, Cell::Black)) by {
                                assert(cell_at(g, bb) == Cell::Black);
                            }
                        } else {
                            assert(!connected(g, Cell::White)) by {
                                assert(cell_at(g, ww) == Cell::White);
                            }
                        }
                    }
                    return RuleCheck::Contradiction;
                }
                c = c + 1;
            }
            r = r + 1;
        }
        proof {
            self.lemma_all_visited_connected(Cell::Black, self.visited_black, bb);
            self.lemma_all_visited_connected(Cell::White, self.visited_white, ww);
        }
        RuleCheck::Solved
    }

    proof fn lemma_all_visited_connected(&self, k: Cell, flag: bool, root: (int, int))
        requires
            self.wf(),
            colour_visited(*self.grid, self.visited, k, flag, root),
            forall|p: (int, int)| on_grid(*self.grid, p) ==> #[trigger] is_vis(self.visited, p),
        ensures
            connected(*self.grid, k),
    {
        let g = *self.grid;
        assert forall|a: (int, int), b: (int, int)|
            #![trigger cell_at(g, a), cell_at(g, b)]
            on_grid(g, a) && on_grid(g, b) && cell_at(g, a) == k && cell_at(g, b) == k implies reachable(
            g,
            k,
            a,
            b,
        ) by {
            assert(is_vis(self.visited, a));
            assert(is_vis(self.visited, b));
            assert(reachable(g, k, root, a));
            assert(reachable(g, k, root, b));
            lemma_reachable_symm(g, k, root, a);
            lemma_reachable_trans(g, k, a, root, b);
        }
    }

    proof fn lemma_after_dfs(
        &self,
        vb: Array2<bool>,
        color: Cell,
        x: (int, int),
        bb: (int, int),
        ww: (int, int),
    )
        requires
            self.wf(),
            vb.wf(),
            vb.rows == self.grid.rows,
            vb.cols == self.grid.cols,
            color == Cell::Black || color == Cell::White,
            on_grid(*self.grid, x),
            cell_at(*self.grid, x) == color,
            is_vis(self.visited, x),
            forall|p: (int, int)|
                on_grid(*self.grid, p) && #[trigger] is_vis(vb, p) ==> cell_at(*self.grid, p)
                    != Cell::Empty,
            color == Cell::Black ==> self.visited_black && colour_visited(
                *self.grid,
                vb,
                Cell::Black,
                false,
                bb,
            ) && colour_visited(*self.grid, vb, Cell::White, self.visited_white, ww),
            color == Cell::White ==> self.visited_white && colour_visited(
                *self.grid,
                vb,
                Cell::White,
                false,
                ww,
            ) && colour_visited(*self.grid, vb, Cell::Black, self.visited_black, bb),
            forall|i: int| 0 <= i < vb.data@.len() && #[trigger] vb.data@[i] ==> self.visited.data@[i],
            forall|p: (int, int)|
                on_grid(*self.grid, p) && #[trigger] is_vis(self.visited, p) && !is_vis(vb, p) ==> cell_at(
                    *self.grid,
                    p,
                ) == color && reachable(*self.grid, color, x, p),
            forall|p: (int, int), q: (int, int)|
                #![trigger is_vis(self.visited, p), is_vis(self.visited, q)]
                on_grid(*self.grid, p) && on_grid(*self.grid, q) && is_vis(self.visited, p) && !is_vis(vb, p)
                    && adjacent(p, q) && cell_at(*self.grid, q) == color ==> is_vis(self.visited, q),
        ensures
            forall|p: (int, int)|
                on_grid(*self.grid, p) && #[trigger] is_vis(self.visited, p) ==> cell_at(*self.grid, p)
                    != Cell::Empty,
            color == Cell::Black ==> colour_visited(*self.grid, self.visited, Cell::Black, true, x)
                && colour_visited(*self.grid, self.visited, Cell::White, self.visited_white, ww),
            color == Cell::White ==> colour_visited(*self.grid, self.visited, Cell::White, true, x)
                && colour_visited(*self.grid, self.visited, Cell::Black, self.visited_black, bb),
    {
        let g = *self.grid;
        let other = if color == Cell::Black {
            Cell::White
        } else {
            Cell::Black
        };
        let (oflag, oroot) = if color == Cell::Black {
            (self.visited_white, ww)
        } else {
            (self.visited_black, bb)
        };
        assert forall|p: (int, int)|
            on_grid(g, p) && #[trigger] is_vis(self.visited, p) implies cell_at(g, p) != Cell::Empty by {
            lemma_index_bounds(g.rows as int, g.cols as int, p.0, p.1);
        }
        // the visited cells of `color` form exactly the region of `x`
        let s = Set::new(|p: (int, int)| on_grid(g, p) && is_vis(self.visited, p) && cell_at(g, p) == color);
        assert forall|p: (int, int), q: (int, int)|
            #![trigger s.contains(p), s.contains(q)]
            s.contains(p) && on_grid(g, q) && adjacent(p, q) && cell_at(g, q) == color implies s.contains(
            q,
        ) by {
            lemma_index_bounds(g.rows as int, g.cols as int, p.0, p.1);
            assert(!is_vis(vb, p));
            assert(is_vis(self.visited, q));
        }
        assert(closed_region(g, color, s));
        assert forall|p: (int, int)|
            #![trigger is_vis(self.visited, p)]
            on_grid(g, p) && cell_at(g, p) == color implies (is_vis(self.visited, p) <==> (true
                && reachable(g, color, x, p))) by {
            lemma_index_bounds(g.rows as int, g.cols as int, p.0, p.1);
            if is_vis(self.visited, p) {
                assert(!is_vis(vb, p));
            }
            if reachable(g, color, x, p) {
                assert(s.contains(x));
                assert(s.contains(p));
            }
        }
        assert forall|p: (int, int)|
            #![trigger is_vis(self.visited, p)]
            on_grid(g, p) && cell_at(g, p) == other implies (is_vis(self.visited, p) <==> (oflag
                && reachable(g, other, oroot, p))) by {
            lemma_index_bounds(g.rows as int, g.cols as int, p.0, p.1);
            assert(is_vis(vb, p) ==> is_vis(self.visited, p));
            assert(is_vis(self.visited, p) ==> is_vis(vb, p));
        }
    }

    fn check_2x2(&self) -> (res: Option<RuleCheck>)
        requires
            self.wf(),
        ensures
            res is Some <==> has_2x2_violation(*self.grid),
            res matches Some(v) ==> v == RuleCheck::Contradiction,
    {
        let rows = self.grid.rows();
        let cols = self.grid.cols();
        let ghost g = *self.grid;
        let mut r: usize = 0;
        while r + 1 < rows
            invariant
                self.wf(),
                g == *self.grid,
                rows == g.rows,
                cols == g.cols,
                r <= rows,
                forall|r2: int, c2: int|
                    window_in_grid(g, r2, c2) && r2 < r ==> !#[trigger] violates_2x2(g, r2, c2),
            decreases rows - r,
        {
            let mut c: usize = 0;
            while c + 1 < cols
                invariant
                    self.wf(),
                    g == *self.grid,
                    rows == g.rows,
                    cols == g.cols,
                    r + 1 < rows,
                    c <= cols,
                    forall|r2: int, c2: int|
                        window_in_grid(g, r2, c2) && (r2 < r || (r2 == r && c2 < c))
                            ==> !#[trigger] violates_2x2(g, r2, c2),
                decreases cols - c,
            {
                let c0 = self.grid.get(r, c);
                let c1 = self.grid.get(r, c + 1);
                let c2 = self.grid.get(r + 1, c);
                let c3 = self.grid.get(r + 1, c + 1);
                if !(c0.empty() || c1.empty()) {
                    // matches both solid 2x2 and checkerboard
                    if c0 == c3 && c1 == c2 {
                        proof {
                            assert(violates_2x2(g, r as int, c as int));
                        }
                        return Some(RuleCheck::Contradiction);
                    }
                }
                c = c + 1;
            }
            r = r + 1;
        }
        None
    }

    fn check(self) -> (res: RuleCheck)
        requires
            self.wf(),
            !self.visited_black,
            !self.visited_white,
            forall|i: int| 0 <= i < self.visited.data@.len() ==> !self.visited.data@[i],
        ensures
            res == rule_check(*self.grid),
    {
        let mut this = self;
        match this.check_2x2() {
            Some(v) => v,
            None => this.dfs_all(),
        }
    }
}

/// Judges a grid by the rules of yin-yang.
pub fn check(grid: &Grid) -> (res: RuleCheck)
    requires
        grid.wf(),
    ensures
        res == rule_check(*grid),
{
    RuleChecker::new(grid).check()
}

} // verus!
