use vstd::prelude::*;

use crate::array::{flat_index, lemma_index_bounds, Array2};
use crate::cell::{opposite, Cell};
use crate::count::{count_eq, lemma_count_mono, lemma_count_update};
use crate::ext::ArrayExt;
use crate::fill::{fills_some, lemma_fill_cell, lists_fills, only_fills};
use crate::region::{
    adjacent, adjacent_cells, cell_at, lemma_reachable_refl, lemma_reachable_step,
    lemma_reachable_symm, lemma_reachable_trans, on_grid, reachable, upos,
};
use crate::rules::{connected_parts, is_vis, solves};
use crate::solve_path::{recorded_one, SolvePath, SolveStep};
use crate::Grid;

verus! {

/// `p` is an empty cell of `g` next to a cell `q` that holds `k`.
pub open spec fn borders(g: Grid, p: (int, int), q: (int, int), k: Cell) -> bool {
    &&& on_grid(g, p)
    &&& on_grid(g, q)
    &&& cell_at(g, p) == Cell::Empty
    &&& adjacent(p, q)
    &&& cell_at(g, q) == k
}

/// The region of empty cells round `a` lies next to a cell holding `k`.
pub open spec fn touches(g: Grid, a: (int, int), k: Cell) -> bool {
    exists|p: (int, int), q: (int, int)|
        reachable(g, Cell::Empty, a, p) && #[trigger] borders(g, p, q, k)
}

/// The one colour that the region of empty cells round `a` lies next to;
/// `Empty` where it lies next to both colours or to neither.
pub open spec fn lone_colour(g: Grid, a: (int, int)) -> Cell {
    if touches(g, a, Cell::Black) && !touches(g, a, Cell::White) {
        Cell::Black
    } else if touches(g, a, Cell::White) && !touches(g, a, Cell::Black) {
        Cell::White
    } else {
        Cell::Empty
    }
}

/// The top-left cell is empty and its region lies next to one colour only.
pub open spec fn corner_floods(g: Grid) -> bool {
    &&& on_grid(g, (0, 0))
    &&& cell_at(g, (0, 0)) == Cell::Empty
    &&& lone_colour(g, (0, 0)) != Cell::Empty
}

/// What the isolation rule leaves at `p`. A coloured cell keeps its colour. An
/// empty cell takes the lone colour of its region; except that when the region
/// of the top-left cell has a lone colour, every empty cell of the grid takes
/// that colour (the regions are told apart by their first cell, and a cell not
/// yet reached counts as belonging to the region of the top-left cell).
pub open spec fn isolation_result(g: Grid, p: (int, int)) -> Cell {
    if cell_at(g, p) != Cell::Empty {
        cell_at(g, p)
    } else if corner_floods(g) {
        lone_colour(g, (0, 0))
    } else {
        lone_colour(g, p)
    }
}

/// `a` comes before `b` in row-major order.
pub open spec fn row_before(a: (int, int), b: (int, int)) -> bool {
    a.0 < b.0 || (a.0 == b.0 && a.1 < b.1)
}

/// The position named by a listed change.
pub open spec fn entry_pos(e: (usize, usize, Cell)) -> (int, int) {
    (e.0 as int, e.1 as int)
}

/// `f` is the first cell, in row-major order, of the region of empty cells
/// round `p`.
pub open spec fn region_first(g: Grid, p: (int, int), f: (int, int)) -> bool {
    &&& reachable(g, Cell::Empty, p, f)
    &&& forall|q: (int, int)| #[trigger] reachable(g, Cell::Empty, p, q) ==> !row_before(q, f)
}

/// The first cell, in row-major order, of the region of empty cells round
/// `p`, where `p` is an empty cell of the grid.
pub open spec fn first_of_region(g: Grid, p: (int, int)) -> (int, int) {
    choose|f: (int, int)| region_first(g, p, f)
}

/// The order in which the isolation rule lists the cells it fills: region by
/// region, the regions in the row-major order of their first cells, and the
/// cells of each region in row-major order; all of them in row-major order
/// when the region of the top-left cell floods the grid.
pub open spec fn isolation_order(g: Grid, ch: Seq<(usize, usize, Cell)>) -> bool {
    if corner_floods(g) {
        forall|i: int, j: int|
            #![trigger ch[i], ch[j]]
            0 <= i < j < ch.len() ==> row_before(entry_pos(ch[i]), entry_pos(ch[j]))
    } else {
        &&& forall|i: int|
            #![trigger ch[i]]
            0 <= i < ch.len() ==> region_first(g, entry_pos(ch[i]), first_of_region(g, entry_pos(ch[i])))
        &&& forall|i: int, j: int|
            #![trigger ch[i], ch[j]]
            0 <= i < j < ch.len() ==> {
                let fi = first_of_region(g, entry_pos(ch[i]));
                let fj = first_of_region(g, entry_pos(ch[j]));
                row_before(fi, fj) || (fi == fj && row_before(entry_pos(ch[i]), entry_pos(ch[j])))
            }
    }
}

/// A step of the isolation rule: it lists the cells filled from `old` to
/// `new`, in the order that [`isolation_order`] states.
pub open spec fn isolation_step(step: SolveStep, old: Grid, new: Grid) -> bool {
    step matches SolveStep::ApplyConnectivity(ch) && lists_fills(old, new, ch@) && isolation_order(old, ch@)
}

/// `s` is what the isolation rule from `a` to `b` records: one step listing
/// the cells it filled when it fills any, and nothing otherwise.
pub open spec fn isolation_record(s: Seq<SolveStep>, a: Grid, b: Grid) -> bool {
    if fills_some(a, b) {
        s.len() == 1 && isolation_step(s[0], a, b)
    } else {
        s.len() == 0
    }
}

/// A region has one first cell.
proof fn lemma_region_first_unique(g: Grid, p: (int, int), f1: (int, int), f2: (int, int))
    requires
        region_first(g, p, f1),
        region_first(g, p, f2),
    ensures
        f1 == f2,
{
    assert(!row_before(f2, f1));
    assert(!row_before(f1, f2));
}

/// A cell reached from `a` through empty cells is `a` or an empty cell of
/// the grid.
proof fn lemma_reachable_on_grid(g: Grid, a: (int, int), q: (int, int))
    requires
        reachable(g, Cell::Empty, a, q),
    ensures
        q == a || (on_grid(g, q) && cell_at(g, q) == Cell::Empty),
{
    let s = Set::new(|p: (int, int)| p == a || (on_grid(g, p) && cell_at(g, p) == Cell::Empty));
    assert(crate::region::closed_region(g, Cell::Empty, s));
    assert(s.contains(a));
}

/// Cells in the same region of empty cells lie next to the same colours.
pub proof fn lemma_touches_region(g: Grid, a: (int, int), b: (int, int), k: Cell)
    requires
        on_grid(g, a),
        cell_at(g, a) == Cell::Empty,
        reachable(g, Cell::Empty, a, b),
    ensures
        touches(g, a, k) == touches(g, b, k),
        lone_colour(g, a) == lone_colour(g, b),
{
    assert forall|kk: Cell| touches(g, b, kk) implies touches(g, a, kk) by {
        let (p, q) = choose|p: (int, int), q: (int, int)|
            reachable(g, Cell::Empty, b, p) && #[trigger] borders(g, p, q, kk);
        lemma_reachable_trans(g, Cell::Empty, a, b, p);
        assert(borders(g, p, q, kk));
    }
    assert forall|kk: Cell| touches(g, a, kk) implies touches(g, b, kk) by {
        let (p, q) = choose|p: (int, int), q: (int, int)|
            reachable(g, Cell::Empty, a, p) && #[trigger] borders(g, p, q, kk);
        lemma_reachable_symm(g, Cell::Empty, a, b);
        lemma_reachable_trans(g, Cell::Empty, b, a, p);
        assert(borders(g, p, q, kk));
    }
}

/// An empty cell whose region lies next to one colour only holds that colour in
/// every solution, where the grid holds a cell of the other colour: a cell of
/// the other colour inside the region could not be joined to it.
pub proof fn lemma_lone_colour_forced(g: Grid, sol: Grid, p: (int, int), w: (int, int))
    requires
        g.wf(),
        on_grid(g, p),
        cell_at(g, p) == Cell::Empty,
        lone_colour(g, p) != Cell::Empty,
        on_grid(g, w),
        cell_at(g, w) == opposite(lone_colour(g, p)),
        solves(g, sol),
    ensures
        cell_at(sol, p) == lone_colour(g, p),
{
    let k = lone_colour(g, p);
    let o = opposite(k);
    connected_parts(sol);
    assert(sol.at(p.0, p.1) == g.at(p.0, p.1) || g.at(p.0, p.1) == Cell::Empty);
    assert(sol.at(w.0, w.1) == g.at(w.0, w.1));
    assert(cell_at(sol, p) != Cell::Empty) by {
        if cell_at(sol, p) == Cell::Empty {
            assert(crate::rules::has_empty(sol));
        }
    }
    if cell_at(sol, p) != k {
        assert(cell_at(sol, p) == o);
        assert(cell_at(sol, w) == o);
        assert(on_grid(sol, p) && on_grid(sol, w));
        assert(crate::region::connected(sol, o));
        assert(reachable(sol, o, p, w));
        let s = Set::new(|q: (int, int)| on_grid(g, q) && reachable(g, Cell::Empty, p, q));
        assert forall|a: (int, int), b: (int, int)|
            #![trigger s.contains(a), s.contains(b)]
            s.contains(a) && on_grid(sol, b) && adjacent(a, b) && cell_at(sol, b) == o implies s.contains(b) by {
            assert(sol.at(b.0, b.1) == g.at(b.0, b.1) || g.at(b.0, b.1) == Cell::Empty);
            if cell_at(g, b) == Cell::Empty {
                lemma_reachable_step(g, Cell::Empty, p, a, b);
            } else {
                assert(cell_at(g, a) == Cell::Empty) by {
                    if a != p {
                        lemma_reachable_empty(g, p, a);
                    }
                }
                assert(borders(g, a, b, o));
                lemma_reachable_refl(g, Cell::Empty, a);
                assert(touches(g, a, o));
                lemma_touches_region(g, p, a, o);
            }
        }
        assert(crate::region::closed_region(sol, o, s));
        lemma_reachable_refl(g, Cell::Empty, p);
        assert(s.contains(p));
        assert(s.contains(w));
        assert(cell_at(g, w) == Cell::Empty) by {
            if w != p {
                lemma_reachable_empty(g, p, w);
            }
        }
    }
}

/// A cell reached from `a` through empty cells, other than `a`, is empty.
proof fn lemma_reachable_empty(g: Grid, a: (int, int), b: (int, int))
    requires
        reachable(g, Cell::Empty, a, b),
        b != a,
    ensures
        cell_at(g, b) == Cell::Empty,
{
    let s = Set::new(|q: (int, int)| q == a || cell_at(g, q) == Cell::Empty);
    assert(crate::region::closed_region(g, Cell::Empty, s));
    assert(s.contains(a));
}

/// The isolation rule keeps every solution where the grid holds cells of both
/// colours and the region of the top-left cell does not flood the grid.
pub proof fn lemma_isolation_keeps_solutions(g: Grid, next: Grid, sol: Grid, bk: (int, int), wh: (int, int))
    requires
        g.wf(),
        next.rows == g.rows,
        next.cols == g.cols,
        forall|p: (int, int)| on_grid(g, p) ==> #[trigger] cell_at(next, p) == isolation_result(g, p),
        !corner_floods(g),
        on_grid(g, bk),
        cell_at(g, bk) == Cell::Black,
        on_grid(g, wh),
        cell_at(g, wh) == Cell::White,
        solves(g, sol),
    ensures
        solves(next, sol),
{
    assert forall|r: int, c: int|
        #![trigger sol.at(r, c)]
        next.contains_pos(r, c) implies sol.at(r, c) == next.at(r, c) || (next.at(r, c) == Cell::Empty
        && sol.at(r, c) != Cell::Empty) by {
        let p = (r, c);
        assert(cell_at(next, p) == isolation_result(g, p));
        assert(sol.at(r, c) == g.at(r, c) || (g.at(r, c) == Cell::Empty && sol.at(r, c) != Cell::Empty));
        if cell_at(g, p) == Cell::Empty && lone_colour(g, p) != Cell::Empty {
            if lone_colour(g, p) == Cell::Black {
                lemma_lone_colour_forced(g, sol, p, wh);
            } else {
                lemma_lone_colour_forced(g, sol, p, bk);
            }
        }
    }
}

/// The bit for black cells is set in a record of the colours met.
spec fn black_bit(v: u8) -> bool {
    v == 1 || v == 3
}

/// The bit for white cells is set in a record of the colours met.
spec fn white_bit(v: u8) -> bool {
    v == 2 || v == 3
}

/// The colour that a record of the colours met names alone, if any.
spec fn record_colour(v: u8) -> Cell {
    if v == 1 {
        Cell::Black
    } else if v == 2 {
        Cell::White
    } else {
        Cell::Empty
    }
}

proof fn lemma_bits(v: u8)
    requires
        v <= 3,
    ensures
        (v | 1u8) <= 3,
        (v | 2u8) <= 3,
        black_bit(v | 1u8),
        white_bit(v | 1u8) == white_bit(v),
        white_bit(v | 2u8),
        black_bit(v | 2u8) == black_bit(v),
{
    assert(0u8 | 1u8 == 1u8) by (bit_vector);
    assert(1u8 | 1u8 == 1u8) by (bit_vector);
    assert(2u8 | 1u8 == 3u8) by (bit_vector);
    assert(3u8 | 1u8 == 3u8) by (bit_vector);
    assert(0u8 | 2u8 == 2u8) by (bit_vector);
    assert(1u8 | 2u8 == 3u8) by (bit_vector);
    assert(2u8 | 2u8 == 2u8) by (bit_vector);
    assert(3u8 | 2u8 == 3u8) by (bit_vector);
}

/// A position of `g` that the row-major scan has passed before (r, c).
spec fn scanned(p: (int, int), r: int, c: int) -> bool {
    p.0 < r || (p.0 == r && p.1 < c)
}

/// The marked cells of `v` are empty in `g0`, and no empty cell of `g0` next to
/// a marked cell is unmarked.
spec fn closed_marks(g0: Grid, v: Array2<bool>) -> bool {
    &&& forall|p: (int, int)| on_grid(g0, p) && #[trigger] is_vis(v, p) ==> cell_at(g0, p) == Cell::Empty
    &&& forall|p: (int, int), q: (int, int)|
        #![trigger is_vis(v, p), is_vis(v, q)]
        on_grid(g0, p) && on_grid(g0, q) && is_vis(v, p) && adjacent(p, q) && cell_at(g0, q)
            == Cell::Empty ==> is_vis(v, q)
}

/// `cur` agrees with `g0` outside the cells marked in `vb`.
spec fn agrees_outside(g0: Grid, cur: Grid, vb: Array2<bool>) -> bool {
    &&& g0.wf()
    &&& cur.wf()
    &&& g0.rows == cur.rows
    &&& g0.cols == cur.cols
    &&& vb.wf()
    &&& vb.rows == g0.rows
    &&& vb.cols == g0.cols
    &&& forall|p: (int, int)| on_grid(g0, p) && !is_vis(vb, p) ==> #[trigger] cell_at(cur, p) == cell_at(g0, p)
}

spec fn root_at(a: Array2<(usize, usize)>, p: (int, int)) -> (usize, usize) {
    a.at(p.0, p.1)
}

spec fn record_at(a: Array2<u8>, p: (int, int)) -> u8 {
    a.at(p.0, p.1)
}

struct Isolation {
    changed: Vec<(usize, usize, Cell)>,
    visited: Array2<bool>,
    reaches: Array2<u8>,
    roots: Array2<(usize, usize)>,
}

impl Isolation {
    spec fn wf(&self, grid: Grid) -> bool {
        &&& grid.wf()
        &&& self.visited.wf()
        &&& self.reaches.wf()
        &&& self.roots.wf()
        &&& self.visited.rows == grid.rows && self.visited.cols == grid.cols
        &&& self.reaches.rows == grid.rows && self.reaches.cols == grid.cols
        &&& self.roots.rows == grid.rows && self.roots.cols == grid.cols
    }

    spec fn fills_ok(&self, g0: Grid, grid: Grid) -> bool {
        &&& only_fills(g0, grid)
        &&& lists_fills(g0, grid, self.changed@)
        &&& self.changed@.len() == 0 ==> grid == g0
    }

    fn new(grid: &Grid) -> (res: Isolation)
        requires
            grid.wf(),
        ensures
            res.wf(*grid),
            res.changed@.len() == 0,
            forall|i: int| 0 <= i < res.visited.data@.len() ==> !res.visited.data@[i],
            forall|i: int| 0 <= i < res.reaches.data@.len() ==> res.reaches.data@[i] == 0,
            forall|i: int| 0 <= i < res.roots.data@.len() ==> res.roots.data@[i] == (0usize, 0usize),
    {
        let visited = grid.dup_filled(false);
        let reaches = grid.dup_filled(0u8);
        let roots = grid.dup_filled((0usize, 0usize));
        Isolation { changed: Vec::new(), visited, reaches, roots }
    }


    /// Gives every empty cell whose root is `root` the colour recorded at
    /// `root`, where exactly one colour was recorded there.
    fn apply(&mut self, grid: &mut Grid, root: (usize, usize), Ghost(g0): Ghost<Grid>)
        requires
            old(self).wf(*old(grid)),
            old(self).fills_ok(g0, *old(grid)),
            on_grid(*old(grid), upos(root)),
        ensures
            final(self).wf(*final(grid)),
            final(self).fills_ok(g0, *final(grid)),
            final(self).visited == old(self).visited,
            final(self).roots == old(self).roots,
            final(self).reaches == old(self).reaches,
            final(self).changed@.len() >= old(self).changed@.len(),
            forall|i: int|
                0 <= i < old(self).changed@.len() ==> #[trigger] final(self).changed@[i] == old(self).changed@[i],
            forall|i: int|
                #![trigger final(self).changed@[i]]
                old(self).changed@.len() <= i < final(self).changed@.len() ==> on_grid(
                    *old(grid),
                    entry_pos(final(self).changed@[i]),
                ) && cell_at(*old(grid), entry_pos(final(self).changed@[i])) == Cell::Empty && root_at(
                    old(self).roots,
                    entry_pos(final(self).changed@[i]),
                ) == root && record_colour(record_at(old(self).reaches, upos(root))) != Cell::Empty,
            forall|i: int, j: int|
                #![trigger final(self).changed@[i], final(self).changed@[j]]
                old(self).changed@.len() <= i < j < final(self).changed@.len() ==> row_before(
                    entry_pos(final(self).changed@[i]),
                    entry_pos(final(self).changed@[j]),
                ),
            final(grid).rows == old(grid).rows,
            final(grid).cols == old(grid).cols,
            forall|p: (int, int)|
                on_grid(*old(grid), p) ==> #[trigger] cell_at(*final(grid), p) == (if record_colour(
                    record_at(old(self).reaches, upos(root)),
                ) != Cell::Empty && cell_at(*old(grid), p) == Cell::Empty && root_at(old(self).roots, p)
                    == root {
                    record_colour(record_at(old(self).reaches, upos(root)))
                } else {
                    cell_at(*old(grid), p)
                }),
    {
        let ghost gin = *grid;
        let ghost ch0 = self.changed@;
        let color = match self.reaches.get(root.0, root.1) {
            0x01 => Cell::Black,
            0x02 => Cell::White,
            _ => return ,
        };
        proof {
            assert(color == record_colour(record_at(self.reaches, upos(root))));
        }
        let rows = grid.rows();
        let cols = grid.cols();
        let mut r: usize = 0;
        while r < rows
            invariant
                self.wf(*grid),
                self.fills_ok(g0, *grid),
                self.visited == old(self).visited,
                self.roots == old(self).roots,
                self.reaches == old(self).reaches,
                self.changed@.len() >= old(self).changed@.len(),
                gin == *old(grid),
                grid.rows == gin.rows,
                grid.cols == gin.cols,
                rows == grid.rows,
                cols == grid.cols,
                color != Cell::Empty,
                color == record_colour(record_at(self.reaches, upos(root))),
                r <= rows,
                forall|i: int| 0 <= i < ch0.len() ==> #[trigger] self.changed@[i] == ch0[i],
                ch0 == old(self).changed@,
                forall|i: int|
                    #![trigger self.changed@[i]]
                    ch0.len() <= i < self.changed@.len() ==> on_grid(gin, entry_pos(self.changed@[i]))
                        && cell_at(gin, entry_pos(self.changed@[i])) == Cell::Empty && root_at(
                        self.roots,
                        entry_pos(self.changed@[i]),
                    ) == root && scanned(entry_pos(self.changed@[i]), r as int, 0),
                forall|i: int, j: int|
                    #![trigger self.changed@[i], self.changed@[j]]
                    ch0.len() <= i < j < self.changed@.len() ==> row_before(
                        entry_pos(self.changed@[i]),
                        entry_pos(self.changed@[j]),
                    ),
                forall|p: (int, int)|
                    on_grid(gin, p) ==> #[trigger] cell_at(*grid, p) == (if scanned(p, r as int, 0)
                        && cell_at(gin, p) == Cell::Empty && root_at(self.roots, p) == root {
                        color
                    } else {
                        cell_at(gin, p)
                    }),
            decreases rows - r,
        {
            let mut c: usize = 0;
            while c < cols
                invariant
                    self.wf(*grid),
                    self.fills_ok(g0, *grid),
                    self.visited == old(self).visited,
                    self.roots == old(self).roots,
                    self.reaches == old(self).reaches,
                    self.changed@.len() >= old(self).changed@.len(),
                    gin == *old(grid),
                    grid.rows == gin.rows,
                    grid.cols == gin.cols,
                    rows == grid.rows,
                    cols == grid.cols,
                    color != Cell::Empty,
                    color == record_colour(record_at(self.reaches, upos(root))),
                    r < rows,
                    c <= cols,
                    forall|i: int| 0 <= i < ch0.len() ==> #[trigger] self.changed@[i] == ch0[i],
                    ch0 == old(self).changed@,
                    forall|i: int|
                        #![trigger self.changed@[i]]
                        ch0.len() <= i < self.changed@.len() ==> on_grid(gin, entry_pos(self.changed@[i]))
                            && cell_at(gin, entry_pos(self.changed@[i])) == Cell::Empty && root_at(
                            self.roots,
                            entry_pos(self.changed@[i]),
                        ) == root && scanned(entry_pos(self.changed@[i]), r as int, c as int),
                    forall|i: int, j: int|
                        #![trigger self.changed@[i], self.changed@[j]]
                        ch0.len() <= i < j < self.changed@.len() ==> row_before(
                            entry_pos(self.changed@[i]),
                            entry_pos(self.changed@[j]),
                        ),
                    forall|p: (int, int)|
                        on_grid(gin, p) ==> #[trigger] cell_at(*grid, p) == (if scanned(p, r as int, c as int)
                            && cell_at(gin, p) == Cell::Empty && root_at(self.roots, p) == root {
                            color
                        } else {
                            cell_at(gin, p)
                        }),
                decreases cols - c,
            {
                let ghost x = (r as int, c as int);
                let rt = self.roots.get(r, c);
                if grid.get(r, c) == Cell::Empty && rt.0 == root.0 && rt.1 == root.1 {
                    let ghost gb = *grid;
                    proof {
                        assert(cell_at(gb, x) == cell_at(gin, x));
                        assert(g0.at(r as int, c as int) == Cell::Empty);
                    }
                    grid.set(r, c, color);
                    let ghost chb = self.changed@;
                    self.changed.push((r, c, color));
                    proof {
                        assert(self.changed@.drop_last() =~= chb);
                        assert forall|i: int| 0 <= i < ch0.len() implies #[trigger] self.changed@[i] == ch0[i] by {
                            assert(self.changed@[i] == chb[i]);
                        }
                        assert forall|i: int|
                            #![trigger self.changed@[i]]
                            ch0.len() <= i < self.changed@.len() implies on_grid(gin, entry_pos(self.changed@[i]))
                                && cell_at(gin, entry_pos(self.changed@[i])) == Cell::Empty && root_at(
                                self.roots,
                                entry_pos(self.changed@[i]),
                            ) == root && scanned(entry_pos(self.changed@[i]), r as int, c + 1) by {
                            if i < chb.len() {
                                assert(self.changed@[i] == chb[i]);
                            } else {
                                assert(entry_pos(self.changed@[i]) == x);
                            }
                        }
                        assert forall|i: int, j: int|
                            #![trigger self.changed@[i], self.changed@[j]]
                            ch0.len() <= i < j < self.changed@.len() implies row_before(
                                entry_pos(self.changed@[i]),
                                entry_pos(self.changed@[j]),
                            ) by {
                            assert(self.changed@[i] == chb[i]);
                            if j < chb.len() {
                                assert(self.changed@[j] == chb[j]);
                            }
                        }
                        lemma_fill_cell(g0, gb, *grid, self.changed@, (r as int, c as int));
                        assert forall|p: (int, int)|
                            on_grid(gin, p) implies #[trigger] cell_at(*grid, p) == (if scanned(
                            p,
                            r as int,
                            c + 1,
                        ) && cell_at(gin, p) == Cell::Empty && root_at(self.roots, p) == root {
                            color
                        } else {
                            cell_at(gin, p)
                        }) by {
                            if p != x {
                                assert(cell_at(*grid, p) == cell_at(gb, p));
                            }
                        }
                    }
                } else {
                    proof {
                        assert forall|p: (int, int)|
                            on_grid(gin, p) implies #[trigger] cell_at(*grid, p) == (if scanned(
                            p,
                            r as int,
                            c + 1,
                        ) && cell_at(gin, p) == Cell::Empty && root_at(self.roots, p) == root {
                            color
                        } else {
                            cell_at(gin, p)
                        }) by {
                            if p == x {
                                assert(cell_at(*grid, p) == cell_at(gin, p));
                            }
                        }
                    }
                }
                c = c + 1;
            }
            r = r + 1;
        }
    }

    /// Where the scan of `dfs_all` stands at (r, c). Once the top-left cell's
    /// region has flooded the grid, `cur` is final. Otherwise the marked cells
    /// are the regions of the empty cells scanned so far, they hold their final
    /// colours, every other cell is as in `g0`, unmarked cells carry the initial
    /// root and record, and marked cells carry a root already scanned.
    spec fn scan_inv(&self, g0: Grid, cur: Grid, r: int, c: int) -> bool {
        if corner_floods(g0) && scanned((0, 0), r, c) {
            forall|p: (int, int)| on_grid(g0, p) ==> #[trigger] cell_at(cur, p) == isolation_result(g0, p)
        } else {
            &&& closed_marks(g0, self.visited)
            &&& forall|p: (int, int)|
                on_grid(g0, p) ==> #[trigger] cell_at(cur, p) == (if is_vis(self.visited, p) {
                    isolation_result(g0, p)
                } else {
                    cell_at(g0, p)
                })
            &&& forall|p: (int, int)|
                on_grid(g0, p) && scanned(p, r, c) && cell_at(g0, p) == Cell::Empty ==> #[trigger] is_vis(
                    self.visited,
                    p,
                )
            &&& forall|p: (int, int)|
                on_grid(g0, p) && !is_vis(self.visited, p) ==> #[trigger] root_at(self.roots, p) == (
                0usize,
                0usize,
            ) && record_at(self.reaches, p) == 0
            &&& forall|p: (int, int)|
                on_grid(g0, p) && #[trigger] is_vis(self.visited, p) ==> scanned(
                    upos(root_at(self.roots, p)),
                    r,
                    c,
                )
        }
    }

    /// Marks the region of empty cells round `x0`, records `root` as the root of
    /// each cell it marks, and records at `root` the colours next to them.
    fn dfs(
        &mut self,
        grid: &Grid,
        x0: (usize, usize),
        root: (usize, usize),
        Ghost(g0): Ghost<Grid>,
        Ghost(vb): Ghost<Array2<bool>>,
    )
        requires
            old(self).wf(*grid),
            agrees_outside(g0, *grid, vb),
            closed_marks(g0, vb),
            forall|p: (int, int)| on_grid(g0, p) && #[trigger] is_vis(vb, p) ==> is_vis(old(self).visited, p),
            forall|p: (int, int)|
                on_grid(g0, p) && #[trigger] is_vis(old(self).visited, p) ==> cell_at(g0, p) == Cell::Empty,
            on_grid(*grid, upos(x0)),
            on_grid(*grid, upos(root)),
            !is_vis(old(self).visited, upos(x0)),
            cell_at(g0, upos(x0)) == Cell::Empty,
            record_at(old(self).reaches, upos(root)) <= 3,
        ensures
            final(self).wf(*grid),
            final(self).changed == old(self).changed,
            is_vis(final(self).visited, upos(x0)),
            forall|i: int|
                0 <= i < old(self).visited.data@.len() && #[trigger] old(self).visited.data@[i]
                    ==> final(self).visited.data@[i],
            forall|p: (int, int)|
                on_grid(g0, p) && #[trigger] is_vis(old(self).visited, p) ==> is_vis(final(self).visited, p),
            forall|p: (int, int)|
                on_grid(g0, p) && #[trigger] is_vis(final(self).visited, p) ==> cell_at(g0, p) == Cell::Empty,
            forall|p: (int, int)|
                on_grid(g0, p) && #[trigger] is_vis(final(self).visited, p) && !is_vis(old(self).visited, p)
                    ==> reachable(g0, Cell::Empty, upos(x0), p) && root_at(final(self).roots, p) == root,
            forall|p: (int, int), q: (int, int)|
                #![trigger is_vis(final(self).visited, p), is_vis(final(self).visited, q)]
                on_grid(g0, p) && on_grid(g0, q) && is_vis(final(self).visited, p) && !is_vis(
                    old(self).visited,
                    p,
                ) && adjacent(p, q) && cell_at(g0, q) == Cell::Empty ==> is_vis(final(self).visited, q),
            forall|p: (int, int)|
                on_grid(g0, p) && !(is_vis(final(self).visited, p) && !is_vis(old(self).visited, p))
                    ==> #[trigger] root_at(final(self).roots, p) == root_at(old(self).roots, p),
            forall|p: (int, int)|
                on_grid(g0, p) && p != upos(root) ==> #[trigger] record_at(final(self).reaches, p)
                    == record_at(old(self).reaches, p),
            record_at(final(self).reaches, upos(root)) <= 3,
            black_bit(record_at(old(self).reaches, upos(root))) ==> black_bit(
                record_at(final(self).reaches, upos(root)),
            ),
            white_bit(record_at(old(self).reaches, upos(root))) ==> white_bit(
                record_at(final(self).reaches, upos(root)),
            ),
            black_bit(record_at(final(self).reaches, upos(root))) ==> black_bit(
                record_at(old(self).reaches, upos(root)),
            ) || touches(g0, upos(x0), Cell::Black),
            white_bit(record_at(final(self).reaches, upos(root))) ==> white_bit(
                record_at(old(self).reaches, upos(root)),
            ) || touches(g0, upos(x0), Cell::White),
            forall|p: (int, int), q: (int, int)|
                #![trigger is_vis(final(self).visited, p), borders(g0, p, q, Cell::Black)]
                is_vis(final(self).visited, p) && !is_vis(old(self).visited, p) && borders(
                    g0,
                    p,
                    q,
                    Cell::Black,
                ) ==> black_bit(record_at(final(self).reaches, upos(root))),
            forall|p: (int, int), q: (int, int)|
                #![trigger is_vis(final(self).visited, p), borders(g0, p, q, Cell::White)]
                is_vis(final(self).visited, p) && !is_vis(old(self).visited, p) && borders(
                    g0,
                    p,
                    q,
                    Cell::White,
                ) ==> white_bit(record_at(final(self).reaches, upos(root))),
        decreases count_eq(old(self).visited.data@, false),
    {
        let ghost v0 = self.visited;
        let ghost rt0 = self.roots;
        let ghost re0 = self.reaches;
        let ghost p0 = upos(x0);
        let ghost pr = upos(root);
        proof {
            lemma_index_bounds(grid.rows as int, grid.cols as int, p0.0, p0.1);
            lemma_count_update(v0.data@, flat_index(grid.cols as int, p0.0, p0.1), true, false);
            lemma_reachable_refl(g0, Cell::Empty, p0);
        }
        self.visited.set(x0.0, x0.1, true);
        self.roots.set(x0.0, x0.1, root);
        proof {
            assert forall|p: (int, int)| on_grid(g0, p) && p != p0 implies #[trigger] is_vis(self.visited, p)
                == is_vis(v0, p) && root_at(self.roots, p) == root_at(rt0, p) by {
                assert(self.visited.at(p.0, p.1) == v0.at(p.0, p.1));
                assert(self.roots.at(p.0, p.1) == rt0.at(p.0, p.1));
            }
            assert forall|p: (int, int)| on_grid(g0, p) && p != p0 implies #[trigger] root_at(self.roots, p)
                == root_at(rt0, p) by {
                assert(is_vis(self.visited, p) == is_vis(v0, p));
            }
            assert(root_at(self.roots, p0) == root);
        }
        let nb = adjacent_cells(grid.rows, grid.cols, x0.0, x0.1);
        let mut k: usize = 0;
        while k < nb.len()
            invariant
                self.wf(*grid),
                self.changed == old(self).changed,
                forall|p: (int, int)| on_grid(g0, p) && #[trigger] is_vis(v0, p) ==> is_vis(self.visited, p),
                v0 == old(self).visited,
                rt0 == old(self).roots,
                re0 == old(self).reaches,
                agrees_outside(g0, *grid, vb),
                closed_marks(g0, vb),
                forall|p: (int, int)| on_grid(g0, p) && #[trigger] is_vis(vb, p) ==> is_vis(v0, p),
                v0.wf(),
                v0.rows == g0.rows,
                v0.cols == g0.cols,
                rt0.wf(),
                rt0.rows == g0.rows,
                rt0.cols == g0.cols,
                re0.wf(),
                re0.rows == g0.rows,
                re0.cols == g0.cols,
                p0 == upos(x0),
                pr == upos(root),
                on_grid(g0, p0),
                on_grid(g0, pr),
                cell_at(g0, p0) == Cell::Empty,
                !is_vis(v0, p0),
                is_vis(self.visited, p0),
                0 <= k <= nb@.len(),
                count_eq(self.visited.data@, false) < count_eq(v0.data@, false),
                forall|j: int|
                    0 <= j < nb@.len() ==> on_grid(g0, upos(#[trigger] nb@[j])) && adjacent(p0, upos(nb@[j])),
                forall|a: usize, b: usize|
                    on_grid(g0, (a as int, b as int)) && adjacent(p0, (a as int, b as int))
                        ==> #[trigger] nb@.contains((a, b)),
                forall|i: int|
                    0 <= i < v0.data@.len() && #[trigger] v0.data@[i] ==> self.visited.data@[i],
                forall|p: (int, int)|
                    on_grid(g0, p) && #[trigger] is_vis(self.visited, p) ==> cell_at(g0, p) == Cell::Empty,
                forall|p: (int, int)|
                    on_grid(g0, p) && #[trigger] is_vis(self.visited, p) && !is_vis(v0, p) ==> reachable(
                        g0,
                        Cell::Empty,
                        p0,
                        p,
                    ) && root_at(self.roots, p) == root,
                forall|p: (int, int), q: (int, int)|
                    #![trigger is_vis(self.visited, p), is_vis(self.visited, q)]
                    on_grid(g0, p) && on_grid(g0, q) && is_vis(self.visited, p) && !is_vis(v0, p) && p != p0
                        && adjacent(p, q) && cell_at(g0, q) == Cell::Empty ==> is_vis(self.visited, q),
                forall|j: int|
                    0 <= j < k && cell_at(g0, upos(#[trigger] nb@[j])) == Cell::Empty ==> is_vis(
                        self.visited,
                        upos(nb@[j]),
                    ),
                forall|p: (int, int)|
                    on_grid(g0, p) && !(is_vis(self.visited, p) && !is_vis(v0, p))
                        ==> #[trigger] root_at(self.roots, p) == root_at(rt0, p),
                forall|p: (int, int)|
                    on_grid(g0, p) && p != pr ==> #[trigger] record_at(self.reaches, p) == record_at(re0, p),
                record_at(re0, pr) <= 3,
                record_at(self.reaches, pr) <= 3,
                black_bit(record_at(re0, pr)) ==> black_bit(record_at(self.reaches, pr)),
                white_bit(record_at(re0, pr)) ==> white_bit(record_at(self.reaches, pr)),
                black_bit(record_at(self.reaches, pr)) ==> black_bit(record_at(re0, pr)) || touches(
                    g0,
                    p0,
                    Cell::Black,
                ),
                white_bit(record_at(self.reaches, pr)) ==> white_bit(record_at(re0, pr)) || touches(
                    g0,
                    p0,
                    Cell::White,
                ),
                forall|p: (int, int), q: (int, int)|
                    #![trigger is_vis(self.visited, p), borders(g0, p, q, Cell::Black)]
                    is_vis(self.visited, p) && !is_vis(v0, p) && p != p0 && borders(g0, p, q, Cell::Black)
                        ==> black_bit(record_at(self.reaches, pr)),
                forall|p: (int, int), q: (int, int)|
                    #![trigger is_vis(self.visited, p), borders(g0, p, q, Cell::White)]
                    is_vis(self.visited, p) && !is_vis(v0, p) && p != p0 && borders(g0, p, q, Cell::White)
                        ==> white_bit(record_at(self.reaches, pr)),
                forall|j: int|
                    0 <= j < k && cell_at(g0, upos(#[trigger] nb@[j])) == Cell::Black ==> black_bit(
                        record_at(self.reaches, pr),
                    ),
                forall|j: int|
                    0 <= j < k && cell_at(g0, upos(#[trigger] nb@[j])) == Cell::White ==> white_bit(
                        record_at(self.reaches, pr),
                    ),
            decreases nb@.len() - k,
        {
            let x1 = nb[k];
            let ghost p1 = upos(x1);
            proof {
                assert(on_grid(g0, p1) && adjacent(p0, p1));
                if is_vis(vb, p1) {
                    assert(adjacent(p1, p0));
                    assert(is_vis(vb, p0));
                    assert(is_vis(v0, p0));
                }
                assert(cell_at(*grid, p1) == cell_at(g0, p1));
            }
            match grid.get(x1.0, x1.1) {
                Cell::Empty => {
                    if !self.visited.get(x1.0, x1.1) {
                        let ghost v1 = self.visited;
                        proof {
                            assert forall|p: (int, int)| on_grid(g0, p) && #[trigger] is_vis(vb, p) implies is_vis(
                                self.visited,
                                p,
                            ) by {
                                assert(is_vis(v0, p));
                            }
                        }
                        let ghost rt1 = self.roots;
                        let ghost re1 = self.reaches;
                        self.dfs(grid, x1, root, Ghost(g0), Ghost(vb));
                        proof {
                            assert forall|i: int|
                                0 <= i < v0.data@.len() && #[trigger] v0.data@[i] implies self.visited.data@[i] by {
                                assert(v1.data@[i]);
                            }
                            lemma_index_bounds(g0.rows as int, g0.cols as int, p0.0, p0.1);
                            assert(v1.data@[flat_index(g0.cols as int, p0.0, p0.1)]);
                            lemma_count_mono(v1.data@, self.visited.data@, false);
                            assert forall|p: (int, int)| on_grid(g0, p) && #[trigger] is_vis(v0, p) implies is_vis(
                                self.visited,
                                p,
                            ) by {
                                assert(is_vis(v1, p));
                            }
                            lemma_reachable_step(g0, Cell::Empty, p0, p0, p1);
                            assert forall|p: (int, int)|
                                on_grid(g0, p) && #[trigger] is_vis(self.visited, p) && !is_vis(v0, p) implies reachable(
                                g0,
                                Cell::Empty,
                                p0,
                                p,
                            ) && root_at(self.roots, p) == root by {
                                lemma_index_bounds(g0.rows as int, g0.cols as int, p.0, p.1);
                                if is_vis(v1, p) {
                                    assert(root_at(self.roots, p) == root_at(rt1, p));
                                } else {
                                    lemma_reachable_trans(g0, Cell::Empty, p0, p1, p);
                                }
                            }
                            assert forall|p: (int, int), q: (int, int)|
                                #![trigger is_vis(self.visited, p), is_vis(self.visited, q)]
                                on_grid(g0, p) && on_grid(g0, q) && is_vis(self.visited, p) && !is_vis(v0, p)
                                    && p != p0 && adjacent(p, q) && cell_at(g0, q) == Cell::Empty implies is_vis(
                                self.visited,
                                q,
                            ) by {
                                lemma_index_bounds(g0.rows as int, g0.cols as int, p.0, p.1);
                                lemma_index_bounds(g0.rows as int, g0.cols as int, q.0, q.1);
                                if is_vis(v1, p) {
                                    assert(is_vis(v1, q));
                                }
                            }
                            assert forall|j: int|
                                0 <= j < k + 1 && cell_at(g0, upos(#[trigger] nb@[j])) == Cell::Empty implies is_vis(
                                self.visited,
                                upos(nb@[j]),
                            ) by {
                                let pj = upos(nb@[j]);
                                lemma_index_bounds(g0.rows as int, g0.cols as int, pj.0, pj.1);
                                if j < k {
                                    assert(is_vis(v1, pj));
                                }
                            }
                            assert forall|p: (int, int)|
                                on_grid(g0, p) && !(is_vis(self.visited, p) && !is_vis(v0, p)) implies #[trigger] root_at(
                                self.roots,
                                p,
                            ) == root_at(rt0, p) by {
                                lemma_index_bounds(g0.rows as int, g0.cols as int, p.0, p.1);
                                assert(root_at(self.roots, p) == root_at(rt1, p));
                            }
                            assert forall|p: (int, int)|
                                on_grid(g0, p) && p != pr implies #[trigger] record_at(self.reaches, p) == record_at(
                                re0,
                                p,
                            ) by {
                                assert(record_at(self.reaches, p) == record_at(re1, p));
                            }
                            if touches(g0, p1, Cell::Black) {
                                let (p, q) = choose|p: (int, int), q: (int, int)|
                                    reachable(g0, Cell::Empty, p1, p) && #[trigger] borders(g0, p, q, Cell::Black);
                                lemma_reachable_trans(g0, Cell::Empty, p0, p1, p);
                                assert(borders(g0, p, q, Cell::Black));
                            }
                            if touches(g0, p1, Cell::White) {
                                let (p, q) = choose|p: (int, int), q: (int, int)|
                                    reachable(g0, Cell::Empty, p1, p) && #[trigger] borders(g0, p, q, Cell::White);
                                lemma_reachable_trans(g0, Cell::Empty, p0, p1, p);
                                assert(borders(g0, p, q, Cell::White));
                            }
                            assert forall|p: (int, int), q: (int, int)|
                                #![trigger is_vis(self.visited, p), borders(g0, p, q, Cell::Black)]
                                is_vis(self.visited, p) && !is_vis(v0, p) && p != p0 && borders(g0, p, q, Cell::Black)
                                    implies black_bit(record_at(self.reaches, pr)) by {
                                lemma_index_bounds(g0.rows as int, g0.cols as int, p.0, p.1);
                                if is_vis(v1, p) {
                                    assert(black_bit(record_at(re1, pr)));
                                }
                            }
                            assert forall|p: (int, int), q: (int, int)|
                                #![trigger is_vis(self.visited, p), borders(g0, p, q, Cell::White)]
                                is_vis(self.visited, p) && !is_vis(v0, p) && p != p0 && borders(g0, p, q, Cell::White)
                                    implies white_bit(record_at(self.reaches, pr)) by {
                                lemma_index_bounds(g0.rows as int, g0.cols as int, p.0, p.1);
                                if is_vis(v1, p) {
                                    assert(white_bit(record_at(re1, pr)));
                                }
                            }
                            assert forall|j: int|
                                0 <= j < k + 1 && cell_at(g0, upos(#[trigger] nb@[j])) == Cell::Black implies black_bit(
                                record_at(self.reaches, pr),
                            ) by {
                                if j < k {
                                    assert(black_bit(record_at(re1, pr)));
                                }
                            }
                            assert forall|j: int|
                                0 <= j < k + 1 && cell_at(g0, upos(#[trigger] nb@[j])) == Cell::White implies white_bit(
                                record_at(self.reaches, pr),
                            ) by {
                                if j < k {
                                    assert(white_bit(record_at(re1, pr)));
                                }
                            }
                        }
                    }
                },
                Cell::Black => {
                    let b = self.reaches.get(root.0, root.1);
                    let ghost re1 = self.reaches;
                    proof {
                        lemma_bits(b);
                    }
                    self.reaches.set(root.0, root.1, b | 0x01);
                    proof {
                        assert(borders(g0, p0, p1, Cell::Black));
                        assert(touches(g0, p0, Cell::Black));
                        assert(record_at(self.reaches, pr) == b | 0x01);
                        assert forall|p: (int, int)|
                            on_grid(g0, p) && p != pr implies #[trigger] record_at(self.reaches, p)
                            == record_at(re0, p) by {
                            assert(self.reaches.at(p.0, p.1) == re1.at(p.0, p.1));
                            assert(record_at(re1, p) == record_at(re0, p));
                        }
                    }
                },
                Cell::White => {
                    let b = self.reaches.get(root.0, root.1);
                    let ghost re1 = self.reaches;
                    proof {
                        lemma_bits(b);
                    }
                    self.reaches.set(root.0, root.1, b | 0x02);
                    proof {
                        assert(borders(g0, p0, p1, Cell::White));
                        assert(touches(g0, p0, Cell::White));
                        assert(record_at(self.reaches, pr) == b | 0x02);
                        assert forall|p: (int, int)|
                            on_grid(g0, p) && p != pr implies #[trigger] record_at(self.reaches, p)
                            == record_at(re0, p) by {
                            assert(self.reaches.at(p.0, p.1) == re1.at(p.0, p.1));
                            assert(record_at(re1, p) == record_at(re0, p));
                        }
                    }
                },
            }
            k = k + 1;
        }
        proof {
            assert forall|p: (int, int), q: (int, int)|
                #![trigger is_vis(self.visited, p), is_vis(self.visited, q)]
                on_grid(g0, p) && on_grid(g0, q) && is_vis(self.visited, p) && !is_vis(v0, p) && adjacent(p, q)
                    && cell_at(g0, q) == Cell::Empty implies is_vis(self.visited, q) by {
                if p == p0 {
                    assert(nb@.contains((q.0 as usize, q.1 as usize)));
                    let j = choose|j: int| 0 <= j < nb@.len() && nb@[j] == (q.0 as usize, q.1 as usize);
                    assert(upos(nb@[j]) == q);
                }
            }
            assert forall|p: (int, int), q: (int, int)|
                #![trigger is_vis(self.visited, p), borders(g0, p, q, Cell::Black)]
                is_vis(self.visited, p) && !is_vis(v0, p) && borders(g0, p, q, Cell::Black) implies black_bit(
                record_at(self.reaches, pr),
            ) by {
                if p == p0 {
                    assert(nb@.contains((q.0 as usize, q.1 as usize)));
                    let j = choose|j: int| 0 <= j < nb@.len() && nb@[j] == (q.0 as usize, q.1 as usize);
                    assert(upos(nb@[j]) == q);
                }
            }
            assert forall|p: (int, int), q: (int, int)|
                #![trigger is_vis(self.visited, p), borders(g0, p, q, Cell::White)]
                is_vis(self.visited, p) && !is_vis(v0, p) && borders(g0, p, q, Cell::White) implies white_bit(
                record_at(self.reaches, pr),
            ) by {
                if p == p0 {
                    assert(nb@.contains((q.0 as usize, q.1 as usize)));
                    let j = choose|j: int| 0 <= j < nb@.len() && nb@[j] == (q.0 as usize, q.1 as usize);
                    assert(upos(nb@[j]) == q);
                }
            }
        }
    }

    /// Scans the cells row by row; from each empty cell not yet marked, marks
    /// its region and fills it in where it lies next to one colour only.
    #[verifier::rlimit(60)]
    fn dfs_all(&mut self, grid: &mut Grid, Ghost(g0): Ghost<Grid>)
        requires
            old(self).wf(*old(grid)),
            old(self).fills_ok(g0, *old(grid)),
            *old(grid) == g0,
            forall|i: int| 0 <= i < old(self).visited.data@.len() ==> !old(self).visited.data@[i],
            forall|i: int| 0 <= i < old(self).reaches.data@.len() ==> old(self).reaches.data@[i] == 0,
            forall|i: int|
                0 <= i < old(self).roots.data@.len() ==> old(self).roots.data@[i] == (0usize, 0usize),
        ensures
            final(self).wf(*final(grid)),
            final(self).fills_ok(g0, *final(grid)),
            final(grid).rows == old(grid).rows,
            final(grid).cols == old(grid).cols,
            forall|p: (int, int)|
                on_grid(g0, p) ==> #[trigger] cell_at(*final(grid), p) == isolation_result(g0, p),
            isolation_order(g0, final(self).changed@),
    {
        let rows = grid.rows();
        let cols = grid.cols();
        proof {
            assert forall|p: (int, int)| on_grid(g0, p) implies !#[trigger] is_vis(self.visited, p)
                && root_at(self.roots, p) == (0usize, 0usize) && record_at(self.reaches, p) == 0 by {
                lemma_index_bounds(g0.rows as int, g0.cols as int, p.0, p.1);
            }
            assert(self.scan_inv(g0, *grid, 0, 0));
            assert(order_inv(g0, self.changed@, self.roots, self.visited, 0, 0));
        }
        let mut r: usize = 0;
        while r < rows
            invariant
                self.wf(*grid),
                self.fills_ok(g0, *grid),
                g0.wf(),
                grid.rows == g0.rows,
                grid.cols == g0.cols,
                rows == grid.rows,
                cols == grid.cols,
                r <= rows,
                self.scan_inv(g0, *grid, r as int, 0),
                order_inv(g0, self.changed@, self.roots, self.visited, r as int, 0),
            decreases rows - r,
        {
            let mut c: usize = 0;
            while c < cols
                invariant
                    self.wf(*grid),
                    self.fills_ok(g0, *grid),
                    g0.wf(),
                    grid.rows == g0.rows,
                    grid.cols == g0.cols,
                    rows == grid.rows,
                    cols == grid.cols,
                    r < rows,
                    c <= cols,
                    self.scan_inv(g0, *grid, r as int, c as int),
                    order_inv(g0, self.changed@, self.roots, self.visited, r as int, c as int),
                decreases cols - c,
            {
                let ghost x = (r as int, c as int);
                if !self.visited.get(r, c) && grid.get(r, c) == Cell::Empty {
                    let ghost vb = self.visited;
                    let ghost rtb = self.roots;
                    let ghost reb = self.reaches;
                    let ghost cur = *grid;
                    let ghost chb = self.changed@;
                    proof {
                        self.lemma_ready(g0, cur, x);
                    }
                    self.dfs(grid, (r, c), (r, c), Ghost(g0), Ghost(vb));
                    proof {
                        self.lemma_region_marked(g0, vb, reb, x);
                    }
                    let ghost va = self.visited;
                    let ghost rta = self.roots;
                    let ghost rea = self.reaches;
                    self.apply(grid, (r, c), Ghost(g0));
                    proof {
                        lemma_scan_step(g0, cur, *grid, vb, rtb, va, rta, rea, x);
                        lemma_order_step(g0, cur, chb, self.changed@, vb, rtb, va, rta, rea, x, (r, c));
                        assert forall|p: (int, int)| on_grid(g0, p) && !is_vis(va, p) implies #[trigger] root_at(
                            rta,
                            p,
                        ) == (0usize, 0usize) && record_at(rea, p) == 0 by {
                            assert(!is_vis(vb, p));
                            assert(record_at(rea, p) == record_at(reb, p));
                            assert(root_at(rtb, p) == (0usize, 0usize));
                        }
                        assert(self.visited == va && self.roots == rta && self.reaches == rea);
                        assert(self.scan_inv(g0, *grid, r as int, c + 1));
                    }
                } else {
                    proof {
                        lemma_order_skip(g0, self.changed@, self.roots, self.visited, x);
                        if !(corner_floods(g0) && scanned((0, 0), x.0, x.1)) {
                            if corner_floods(g0) && scanned((0, 0), x.0, x.1 + 1) {
                                assert(x == (0int, 0int));
                                assert(!is_vis(self.visited, x));
                            }
                            assert forall|p: (int, int)|
                                on_grid(g0, p) && scanned(p, x.0, x.1 + 1) && cell_at(g0, p) == Cell::Empty implies #[trigger] is_vis(
                                self.visited,
                                p,
                            ) by {
                                if p == x {
                                    assert(cell_at(*grid, p) == (if is_vis(self.visited, p) {
                                        isolation_result(g0, p)
                                    } else {
                                        cell_at(g0, p)
                                    }));
                                }
                            }
                        }
                    }
                }
                c = c + 1;
            }
            proof {
                if !(corner_floods(g0) && scanned((0, 0), r as int, cols as int)) {
                    assert forall|p: (int, int)|
                        on_grid(g0, p) && scanned(p, r + 1, 0) && cell_at(g0, p) == Cell::Empty implies #[trigger] is_vis(
                        self.visited,
                        p,
                    ) by {
                        assert(scanned(p, r as int, cols as int));
                    }
                }
            }
            proof {
                lemma_order_row(g0, self.changed@, self.roots, self.visited, r as int);
            }
            r = r + 1;
        }
        proof {
            lemma_order_end(g0, self.changed@, self.roots, self.visited, rows as int);
            if !(corner_floods(g0) && scanned((0, 0), rows as int, 0)) {
                assert forall|p: (int, int)| on_grid(g0, p) implies #[trigger] cell_at(*grid, p) == isolation_result(
                    g0,
                    p,
                ) by {
                    assert(scanned(p, rows as int, 0));
                    if cell_at(g0, p) == Cell::Empty {
                        assert(is_vis(self.visited, p));
                    } else if is_vis(self.visited, p) {
                        assert(cell_at(g0, p) == Cell::Empty);
                    }
                }
            }
        }
    }

    /// At an empty, unmarked cell `x` of the scan, the state is the ordinary
    /// one, and `dfs` may start there.
    proof fn lemma_ready(&self, g0: Grid, cur: Grid, x: (int, int))
        requires
            self.wf(cur),
            g0.wf(),
            cur.rows == g0.rows,
            cur.cols == g0.cols,
            self.scan_inv(g0, cur, x.0, x.1),
            on_grid(g0, x),
            !is_vis(self.visited, x),
            cell_at(cur, x) == Cell::Empty,
        ensures
            !(corner_floods(g0) && scanned((0, 0), x.0, x.1)),
            agrees_outside(g0, cur, self.visited),
            closed_marks(g0, self.visited),
            cell_at(g0, x) == Cell::Empty,
            record_at(self.reaches, x) == 0,
    {
        if corner_floods(g0) && scanned((0, 0), x.0, x.1) {
            assert(cell_at(cur, x) == isolation_result(g0, x));
        }
        assert(root_at(self.roots, x) == (0usize, 0usize));
        assert(cell_at(cur, x) == (if is_vis(self.visited, x) {
            isolation_result(g0, x)
        } else {
            cell_at(g0, x)
        }));
        assert forall|p: (int, int)| on_grid(g0, p) && !is_vis(self.visited, p) implies #[trigger] cell_at(cur, p)
            == cell_at(g0, p) by {
            assert(cell_at(cur, p) == (if is_vis(self.visited, p) {
                isolation_result(g0, p)
            } else {
                cell_at(g0, p)
            }));
        }
    }

    /// After `dfs` from an unmarked empty cell `x` over closed marks `vb`: the
    /// newly marked cells are the region of `x`, and the record at `x` names
    /// the lone colour of that region.
    proof fn lemma_region_marked(&self, g0: Grid, vb: Array2<bool>, reb: Array2<u8>, x: (int, int))
        requires
            g0.wf(),
            vb.wf(),
            vb.rows == g0.rows,
            vb.cols == g0.cols,
            self.visited.wf(),
            self.visited.rows == g0.rows,
            self.visited.cols == g0.cols,
            closed_marks(g0, vb),
            on_grid(g0, x),
            cell_at(g0, x) == Cell::Empty,
            !is_vis(vb, x),
            is_vis(self.visited, x),
            record_at(reb, x) == 0,
            record_at(self.reaches, x) <= 3,
            forall|p: (int, int)|
                on_grid(g0, p) && #[trigger] is_vis(self.visited, p) ==> cell_at(g0, p) == Cell::Empty,
            forall|p: (int, int)|
                on_grid(g0, p) && #[trigger] is_vis(self.visited, p) && !is_vis(vb, p) ==> reachable(
                    g0,
                    Cell::Empty,
                    x,
                    p,
                ),
            forall|p: (int, int), q: (int, int)|
                #![trigger is_vis(self.visited, p), is_vis(self.visited, q)]
                on_grid(g0, p) && on_grid(g0, q) && is_vis(self.visited, p) && !is_vis(vb, p) && adjacent(p, q)
                    && cell_at(g0, q) == Cell::Empty ==> is_vis(self.visited, q),
            black_bit(record_at(self.reaches, x)) ==> black_bit(record_at(reb, x)) || touches(
                g0,
                x,
                Cell::Black,
            ),
            white_bit(record_at(self.reaches, x)) ==> white_bit(record_at(reb, x)) || touches(
                g0,
                x,
                Cell::White,
            ),
            forall|p: (int, int), q: (int, int)|
                #![trigger is_vis(self.visited, p), borders(g0, p, q, Cell::Black)]
                is_vis(self.visited, p) && !is_vis(vb, p) && borders(g0, p, q, Cell::Black) ==> black_bit(
                    record_at(self.reaches, x),
                ),
            forall|p: (int, int), q: (int, int)|
                #![trigger is_vis(self.visited, p), borders(g0, p, q, Cell::White)]
                is_vis(self.visited, p) && !is_vis(vb, p) && borders(g0, p, q, Cell::White) ==> white_bit(
                    record_at(self.reaches, x),
                ),
        ensures
            forall|p: (int, int)|
                on_grid(g0, p) ==> (#[trigger] is_vis(self.visited, p) && !is_vis(vb, p) <==> reachable(
                    g0,
                    Cell::Empty,
                    x,
                    p,
                )),
            record_colour(record_at(self.reaches, x)) == lone_colour(g0, x),
    {
        let v = self.visited;
        let s = Set::new(|p: (int, int)| on_grid(g0, p) && is_vis(v, p) && !is_vis(vb, p));
        assert forall|p: (int, int), q: (int, int)|
            #![trigger s.contains(p), s.contains(q)]
            s.contains(p) && on_grid(g0, q) && adjacent(p, q) && cell_at(g0, q) == Cell::Empty implies s.contains(
            q,
        ) by {
            assert(is_vis(v, q));
            if is_vis(vb, q) {
                assert(adjacent(q, p));
                assert(cell_at(g0, p) == Cell::Empty);
                assert(is_vis(vb, p));
            }
        }
        assert(crate::region::closed_region(g0, Cell::Empty, s));
        assert(s.contains(x));
        assert forall|p: (int, int)|
            on_grid(g0, p) implies (#[trigger] is_vis(self.visited, p) && !is_vis(vb, p) <==> reachable(
            g0,
            Cell::Empty,
            x,
            p,
        )) by {
            if reachable(g0, Cell::Empty, x, p) {
                assert(s.contains(p));
            }
        }
        if touches(g0, x, Cell::Black) {
            let (p, q) = choose|p: (int, int), q: (int, int)|
                reachable(g0, Cell::Empty, x, p) && #[trigger] borders(g0, p, q, Cell::Black);
            assert(s.contains(p));
            assert(is_vis(self.visited, p));
        }
        if touches(g0, x, Cell::White) {
            let (p, q) = choose|p: (int, int), q: (int, int)|
                reachable(g0, Cell::Empty, x, p) && #[trigger] borders(g0, p, q, Cell::White);
            assert(s.contains(p));
            assert(is_vis(self.visited, p));
        }
    }
}

/// The listed change at `p` comes before the one at `q` by the roots
/// recorded for them, then by position.
spec fn key_before(roots: Array2<(usize, usize)>, p: (int, int), q: (int, int)) -> bool {
    let a = upos(root_at(roots, p));
    let b = upos(root_at(roots, q));
    row_before(a, b) || (a == b && row_before(p, q))
}

/// How the changes listed so far stand when the scan of `dfs_all` is at
/// (r, c): once the top-left cell's region has flooded the grid, in
/// row-major order; otherwise each at a marked cell whose recorded root is
/// the first cell of its region and was scanned already, in the order of
/// their roots and then of their positions.
spec fn order_inv(
    g0: Grid,
    ch: Seq<(usize, usize, Cell)>,
    roots: Array2<(usize, usize)>,
    v: Array2<bool>,
    r: int,
    c: int,
) -> bool {
    if corner_floods(g0) && scanned((0, 0), r, c) {
        forall|i: int, j: int|
            #![trigger ch[i], ch[j]]
            0 <= i < j < ch.len() ==> row_before(entry_pos(ch[i]), entry_pos(ch[j]))
    } else {
        &&& forall|i: int|
            #![trigger ch[i]]
            0 <= i < ch.len() ==> on_grid(g0, entry_pos(ch[i])) && is_vis(v, entry_pos(ch[i])) && region_first(
                g0,
                entry_pos(ch[i]),
                upos(root_at(roots, entry_pos(ch[i]))),
            ) && scanned(upos(root_at(roots, entry_pos(ch[i]))), r, c)
        &&& forall|i: int, j: int|
            #![trigger ch[i], ch[j]]
            0 <= i < j < ch.len() ==> key_before(roots, entry_pos(ch[i]), entry_pos(ch[j]))
    }
}

/// A cell scanned before the first unmarked cell `x` of its region cannot be
/// in that region: `x` is the first cell of its region.
proof fn lemma_first_of_region(g0: Grid, vb: Array2<bool>, x: (int, int))
    requires
        g0.wf(),
        on_grid(g0, x),
        cell_at(g0, x) == Cell::Empty,
        !is_vis(vb, x),
        closed_marks(g0, vb),
        forall|p: (int, int)|
            on_grid(g0, p) && scanned(p, x.0, x.1) && cell_at(g0, p) == Cell::Empty ==> #[trigger] is_vis(vb, p),
    ensures
        region_first(g0, x, x),
{
    lemma_reachable_refl(g0, Cell::Empty, x);
    assert forall|q: (int, int)| #[trigger] reachable(g0, Cell::Empty, x, q) implies !row_before(q, x) by {
        if row_before(q, x) {
            lemma_reachable_on_grid(g0, x, q);
            assert(scanned(q, x.0, x.1));
            assert(is_vis(vb, q));
            lemma_reachable_symm(g0, Cell::Empty, x, q);
            let s = Set::new(|p: (int, int)| on_grid(g0, p) && is_vis(vb, p));
            assert(crate::region::closed_region(g0, Cell::Empty, s)) by {
                assert forall|p: (int, int), p2: (int, int)|
                    #![trigger s.contains(p), s.contains(p2)]
                    s.contains(p) && on_grid(g0, p2) && adjacent(p, p2) && cell_at(g0, p2) == Cell::Empty implies s.contains(
                    p2,
                ) by {
                    assert(is_vis(vb, p2));
                }
            }
            assert(s.contains(q));
            assert(s.contains(x));
        }
    }
}

/// Every cell of the region of `x` has `x` as its first cell, when `x` is.
proof fn lemma_region_first_member(g0: Grid, x: (int, int), e: (int, int))
    requires
        on_grid(g0, x),
        cell_at(g0, x) == Cell::Empty,
        region_first(g0, x, x),
        reachable(g0, Cell::Empty, x, e),
    ensures
        region_first(g0, e, x),
{
    lemma_reachable_symm(g0, Cell::Empty, x, e);
    assert forall|q: (int, int)| #[trigger] reachable(g0, Cell::Empty, e, q) implies !row_before(q, x) by {
        lemma_reachable_trans(g0, Cell::Empty, x, e, q);
    }
}

/// At the end of the scan, the order kept by `order_inv` is the one that
/// `isolation_order` states.
proof fn lemma_order_end(g0: Grid, ch: Seq<(usize, usize, Cell)>, roots: Array2<(usize, usize)>, v: Array2<bool>, rows: int)
    requires
        g0.rows == rows,
        order_inv(g0, ch, roots, v, rows, 0),
    ensures
        isolation_order(g0, ch),
{
    if corner_floods(g0) {
        assert(on_grid(g0, (0, 0)));
        assert(scanned((0, 0), rows, 0));
    } else {
        assert forall|i: int| #![trigger ch[i]] 0 <= i < ch.len() implies first_of_region(g0, entry_pos(ch[i]))
            == upos(root_at(roots, entry_pos(ch[i]))) && region_first(
            g0,
            entry_pos(ch[i]),
            first_of_region(g0, entry_pos(ch[i])),
        ) by {
            let p = entry_pos(ch[i]);
            assert(region_first(g0, p, upos(root_at(roots, p))));
            lemma_region_first_unique(g0, p, first_of_region(g0, p), upos(root_at(roots, p)));
        }
        assert forall|i: int, j: int| #![trigger ch[i], ch[j]] 0 <= i < j < ch.len() implies {
            let fi = first_of_region(g0, entry_pos(ch[i]));
            let fj = first_of_region(g0, entry_pos(ch[j]));
            row_before(fi, fj) || (fi == fj && row_before(entry_pos(ch[i]), entry_pos(ch[j])))
        } by {
            assert(key_before(roots, entry_pos(ch[i]), entry_pos(ch[j])));
        }
    }
}

/// The scan moves past a cell it does not start from: the order kept stays.
proof fn lemma_order_skip(
    g0: Grid,
    ch: Seq<(usize, usize, Cell)>,
    roots: Array2<(usize, usize)>,
    v: Array2<bool>,
    x: (int, int),
)
    requires
        order_inv(g0, ch, roots, v, x.0, x.1),
    ensures
        order_inv(g0, ch, roots, v, x.0, x.1 + 1),
{
    if corner_floods(g0) && scanned((0, 0), x.0, x.1 + 1) && !scanned((0, 0), x.0, x.1) {
        if ch.len() > 0 {
            assert(scanned(upos(root_at(roots, entry_pos(ch[0]))), x.0, x.1));
        }
    }
}

/// The scan moves on to the next row: the order kept stays.
proof fn lemma_order_row(
    g0: Grid,
    ch: Seq<(usize, usize, Cell)>,
    roots: Array2<(usize, usize)>,
    v: Array2<bool>,
    r: int,
)
    requires
        r >= 0,
        order_inv(g0, ch, roots, v, r, g0.cols as int),
    ensures
        order_inv(g0, ch, roots, v, r + 1, 0),
{
    if corner_floods(g0) {
        assert(on_grid(g0, (0, 0)));
    }
}

/// After marking the region of `x` and filling it in, which appends to `chb`
/// the cells of the region in row-major order, the order kept by
/// `order_inv` holds one cell further on.
proof fn lemma_order_step(
    g0: Grid,
    cur: Grid,
    chb: Seq<(usize, usize, Cell)>,
    cha: Seq<(usize, usize, Cell)>,
    vb: Array2<bool>,
    rtb: Array2<(usize, usize)>,
    va: Array2<bool>,
    rta: Array2<(usize, usize)>,
    rea: Array2<u8>,
    x: (int, int),
    root: (usize, usize),
)
    requires
        g0.wf(),
        cur.rows == g0.rows,
        cur.cols == g0.cols,
        upos(root) == x,
        on_grid(g0, x),
        x.0 >= 0,
        x.1 >= 0,
        cell_at(g0, x) == Cell::Empty,
        !is_vis(vb, x),
        !(corner_floods(g0) && scanned((0, 0), x.0, x.1)),
        closed_marks(g0, vb),
        forall|p: (int, int)|
            on_grid(g0, p) && scanned(p, x.0, x.1) && cell_at(g0, p) == Cell::Empty ==> #[trigger] is_vis(vb, p),
        forall|p: (int, int)|
            on_grid(g0, p) && !is_vis(vb, p) ==> #[trigger] root_at(rtb, p) == (0usize, 0usize),
        forall|p: (int, int)|
            on_grid(g0, p) && #[trigger] is_vis(vb, p) ==> scanned(upos(root_at(rtb, p)), x.0, x.1),
        forall|p: (int, int)| on_grid(g0, p) && #[trigger] is_vis(vb, p) ==> is_vis(va, p),
        forall|p: (int, int)|
            on_grid(g0, p) ==> (#[trigger] is_vis(va, p) && !is_vis(vb, p) <==> reachable(
                g0,
                Cell::Empty,
                x,
                p,
            )),
        forall|p: (int, int)|
            on_grid(g0, p) && #[trigger] is_vis(va, p) && !is_vis(vb, p) ==> root_at(rta, p) == (
            x.0 as usize,
            x.1 as usize,
        ),
        forall|p: (int, int)|
            on_grid(g0, p) && !(is_vis(va, p) && !is_vis(vb, p)) ==> #[trigger] root_at(rta, p) == root_at(
                rtb,
                p,
            ),
        record_colour(record_at(rea, x)) == lone_colour(g0, x),
        order_inv(g0, chb, rtb, vb, x.0, x.1),
        cha.len() >= chb.len(),
        forall|i: int| 0 <= i < chb.len() ==> #[trigger] cha[i] == chb[i],
        forall|i: int|
            #![trigger cha[i]]
            chb.len() <= i < cha.len() ==> on_grid(cur, entry_pos(cha[i])) && cell_at(cur, entry_pos(cha[i]))
                == Cell::Empty && root_at(rta, entry_pos(cha[i])) == root && record_colour(
                record_at(rea, upos(root)),
            ) != Cell::Empty,
        forall|i: int, j: int|
            #![trigger cha[i], cha[j]]
            chb.len() <= i < j < cha.len() ==> row_before(entry_pos(cha[i]), entry_pos(cha[j])),
    ensures
        order_inv(g0, cha, rta, va, x.0, x.1 + 1),
{
    let ux = root;
    assert(root == (x.0 as usize, x.1 as usize));
    if chb.len() > 0 && x == (0int, 0int) {
        assert(scanned(upos(root_at(rtb, entry_pos(chb[0]))), x.0, x.1));
    }
    if corner_floods(g0) && scanned((0, 0), x.0, x.1 + 1) {
        assert(x == (0int, 0int));
        assert(chb.len() == 0);
    } else {
        lemma_first_of_region(g0, vb, x);
        assert forall|i: int|
            #![trigger cha[i]]
            0 <= i < cha.len() implies on_grid(g0, entry_pos(cha[i])) && is_vis(va, entry_pos(cha[i]))
                && region_first(g0, entry_pos(cha[i]), upos(root_at(rta, entry_pos(cha[i])))) && scanned(
                upos(root_at(rta, entry_pos(cha[i]))),
                x.0,
                x.1 + 1,
            ) by {
            let e = entry_pos(cha[i]);
            if i < chb.len() {
                assert(cha[i] == chb[i]);
                assert(is_vis(vb, e));
                assert(root_at(rta, e) == root_at(rtb, e));
            } else {
                if !is_vis(va, e) {
                    assert(root_at(rta, e) == root_at(rtb, e));
                    assert(!is_vis(vb, e));
                    assert(x == (0int, 0int));
                    assert(corner_floods(g0));
                    assert(false);
                }
                if is_vis(vb, e) {
                    assert(root_at(rta, e) == root_at(rtb, e));
                    assert(scanned(upos(root_at(rtb, e)), x.0, x.1));
                    assert(false);
                }
                assert(reachable(g0, Cell::Empty, x, e));
                lemma_region_first_member(g0, x, e);
            }
        }
        assert forall|i: int, j: int|
            #![trigger cha[i], cha[j]]
            0 <= i < j < cha.len() implies key_before(rta, entry_pos(cha[i]), entry_pos(cha[j])) by {
            let e = entry_pos(cha[i]);
            let f = entry_pos(cha[j]);
            if j < chb.len() {
                assert(cha[i] == chb[i]);
                assert(cha[j] == chb[j]);
                assert(key_before(rtb, e, f));
                assert(is_vis(vb, e) && is_vis(vb, f));
                assert(root_at(rta, e) == root_at(rtb, e));
                assert(root_at(rta, f) == root_at(rtb, f));
            } else if i < chb.len() {
                assert(cha[i] == chb[i]);
                assert(is_vis(vb, e));
                assert(root_at(rta, e) == root_at(rtb, e));
                assert(scanned(upos(root_at(rtb, e)), x.0, x.1));
            }
        }
    }
}

/// After marking the region of `x` (from `vb` to `va`) and filling it in
/// (from `cur` to `fin`), the scan invariant holds one cell further on.
proof fn lemma_scan_step(
    g0: Grid,
    cur: Grid,
    fin: Grid,
    vb: Array2<bool>,
    rtb: Array2<(usize, usize)>,
    va: Array2<bool>,
    rta: Array2<(usize, usize)>,
    rea: Array2<u8>,
    x: (int, int),
)
    requires
        g0.wf(),
        cur.rows == g0.rows,
        cur.cols == g0.cols,
        on_grid(g0, x),
        x.0 >= 0,
        x.1 >= 0,
        cell_at(g0, x) == Cell::Empty,
        !is_vis(vb, x),
        is_vis(va, x),
        !(corner_floods(g0) && scanned((0, 0), x.0, x.1)),
        closed_marks(g0, vb),
        forall|p: (int, int)|
            on_grid(g0, p) ==> #[trigger] cell_at(cur, p) == (if is_vis(vb, p) {
                isolation_result(g0, p)
            } else {
                cell_at(g0, p)
            }),
        forall|p: (int, int)|
            on_grid(g0, p) && scanned(p, x.0, x.1) && cell_at(g0, p) == Cell::Empty ==> #[trigger] is_vis(vb, p),
        forall|p: (int, int)|
            on_grid(g0, p) && !is_vis(vb, p) ==> #[trigger] root_at(rtb, p) == (0usize, 0usize),
        forall|p: (int, int)|
            on_grid(g0, p) && #[trigger] is_vis(vb, p) ==> scanned(upos(root_at(rtb, p)), x.0, x.1),
        forall|p: (int, int)| on_grid(g0, p) && #[trigger] is_vis(vb, p) ==> is_vis(va, p),
        forall|p: (int, int)|
            on_grid(g0, p) && #[trigger] is_vis(va, p) ==> cell_at(g0, p) == Cell::Empty,
        forall|p: (int, int)|
            on_grid(g0, p) ==> (#[trigger] is_vis(va, p) && !is_vis(vb, p) <==> reachable(
                g0,
                Cell::Empty,
                x,
                p,
            )),
        forall|p: (int, int)|
            on_grid(g0, p) && #[trigger] is_vis(va, p) && !is_vis(vb, p) ==> root_at(rta, p) == (
            x.0 as usize,
            x.1 as usize,
        ),
        forall|p: (int, int)|
            on_grid(g0, p) && !(is_vis(va, p) && !is_vis(vb, p)) ==> #[trigger] root_at(rta, p) == root_at(
                rtb,
                p,
            ),
        forall|p: (int, int), q: (int, int)|
            #![trigger is_vis(va, p), is_vis(va, q)]
            on_grid(g0, p) && on_grid(g0, q) && is_vis(va, p) && !is_vis(vb, p) && adjacent(p, q)
                && cell_at(g0, q) == Cell::Empty ==> is_vis(va, q),
        record_colour(record_at(rea, x)) == lone_colour(g0, x),
        fin.rows == g0.rows,
        fin.cols == g0.cols,
        forall|p: (int, int)|
            on_grid(g0, p) ==> #[trigger] cell_at(fin, p) == (if record_colour(record_at(rea, x))
                != Cell::Empty && cell_at(cur, p) == Cell::Empty && root_at(rta, p) == (
                x.0 as usize,
                x.1 as usize,
            ) {
                record_colour(record_at(rea, x))
            } else {
                cell_at(cur, p)
            }),
    ensures
        if corner_floods(g0) && scanned((0, 0), x.0, x.1 + 1) {
            forall|p: (int, int)| on_grid(g0, p) ==> #[trigger] cell_at(fin, p) == isolation_result(g0, p)
        } else {
            &&& closed_marks(g0, va)
            &&& forall|p: (int, int)|
                on_grid(g0, p) ==> #[trigger] cell_at(fin, p) == (if is_vis(va, p) {
                    isolation_result(g0, p)
                } else {
                    cell_at(g0, p)
                })
            &&& forall|p: (int, int)|
                on_grid(g0, p) && scanned(p, x.0, x.1 + 1) && cell_at(g0, p) == Cell::Empty
                    ==> #[trigger] is_vis(va, p)
            &&& forall|p: (int, int)|
                on_grid(g0, p) && !is_vis(va, p) ==> #[trigger] root_at(rta, p) == (0usize, 0usize)
            &&& forall|p: (int, int)|
                on_grid(g0, p) && #[trigger] is_vis(va, p) ==> scanned(upos(root_at(rta, p)), x.0, x.1 + 1)
        },
{
    let col = record_colour(record_at(rea, x));
    let ux = (x.0 as usize, x.1 as usize);
    assert(upos(ux) == x);
    if corner_floods(g0) && scanned((0, 0), x.0, x.1 + 1) {
        assert(x == (0int, 0int));
        assert forall|p: (int, int)| on_grid(g0, p) implies #[trigger] cell_at(fin, p) == isolation_result(g0, p) by {
            assert(!is_vis(vb, p)) by {
                if is_vis(vb, p) {
                    assert(scanned(upos(root_at(rtb, p)), x.0, x.1));
                }
            }
            assert(cell_at(cur, p) == cell_at(g0, p));
            assert(root_at(rta, p) == ux);
        }
    } else {
        assert(!corner_floods(g0)) by {
            assert(scanned((0, 0), x.0, x.1 + 1));
        }
        assert forall|p: (int, int), q: (int, int)|
            #![trigger is_vis(va, p), is_vis(va, q)]
            on_grid(g0, p) && on_grid(g0, q) && is_vis(va, p) && adjacent(p, q) && cell_at(g0, q)
                == Cell::Empty implies is_vis(va, q) by {
            if is_vis(vb, p) {
                assert(is_vis(vb, q));
            }
        }
        assert forall|p: (int, int)|
            on_grid(g0, p) implies #[trigger] cell_at(fin, p) == (if is_vis(va, p) {
                isolation_result(g0, p)
            } else {
                cell_at(g0, p)
            }) by {
            if is_vis(vb, p) {
                assert(scanned(upos(root_at(rtb, p)), x.0, x.1));
                assert(root_at(rta, p) != ux);
            } else if is_vis(va, p) {
                assert(reachable(g0, Cell::Empty, x, p));
                lemma_touches_region(g0, x, p, Cell::Black);
                assert(cell_at(cur, p) == Cell::Empty);
            } else {
                assert(root_at(rta, p) == (0usize, 0usize));
                if x == (0int, 0int) {
                    assert(lone_colour(g0, (0, 0)) == Cell::Empty);
                } else {
                    assert(ux != (0usize, 0usize));
                }
            }
        }
        assert forall|p: (int, int)|
            on_grid(g0, p) && scanned(p, x.0, x.1 + 1) && cell_at(g0, p) == Cell::Empty implies #[trigger] is_vis(
            va,
            p,
        ) by {
            if p != x {
                assert(is_vis(vb, p));
            }
        }
        assert forall|p: (int, int)|
            on_grid(g0, p) && #[trigger] is_vis(va, p) implies scanned(upos(root_at(rta, p)), x.0, x.1 + 1) by {
            if is_vis(vb, p) {
                assert(scanned(upos(root_at(rtb, p)), x.0, x.1));
            }
        }
    }
}

/// Fills each region of empty cells that lies next to cells of one colour only
/// with that colour (see [`isolation_result`]). Returns whether any cell was
/// filled.
pub fn apply_isolation(grid: &mut Grid, path: &mut Option<SolvePath>) -> (res: bool)
    requires
        old(grid).wf(),
    ensures
        final(grid).wf(),
        final(grid).rows == old(grid).rows,
        final(grid).cols == old(grid).cols,
        forall|p: (int, int)|
            on_grid(*old(grid), p) ==> #[trigger] cell_at(*final(grid), p) == isolation_result(*old(grid), p),
        only_fills(*old(grid), *final(grid)),
        res == fills_some(*old(grid), *final(grid)),
        res ==> recorded_one(
            *old(path),
            *final(path),
            |s: SolveStep| isolation_step(s, *old(grid), *final(grid)),
        ),
        !res ==> *final(path) == *old(path),
        !res ==> *final(grid) == *old(grid),
        crate::replay::replays(*old(path), *final(path), *old(grid), *final(grid)),
        exists|s: Seq<SolveStep>|
            #[trigger] isolation_record(s, *old(grid), *final(grid)) && crate::solve_path::recorded(
                *old(path),
                *final(path),
                s,
            ),
{
    let ghost g0 = *grid;
    let mut iso = Isolation::new(grid);
    proof {
        assert(lists_fills(g0, *grid, iso.changed@));
    }
    iso.dfs_all(grid, Ghost(g0));
    let changed = iso.changed;
    let made_progress = changed.len() > 0;
    proof {
        if made_progress {
            let e = changed@[0];
            assert(g0.at(e.0 as int, e.1 as int) == Cell::Empty);
            assert(grid.at(e.0 as int, e.1 as int) != Cell::Empty);
        }
        if fills_some(g0, *grid) {
            let (r, c) = choose|r: int, c: int|
                g0.contains_pos(r, c) && g0.at(r, c) == Cell::Empty && #[trigger] grid.at(r, c)
                    != Cell::Empty;
            assert(grid.at(r, c) != g0.at(r, c));
        }
    }
    if made_progress {
        let ghost p0 = *path;
        let step = SolveStep::ApplyConnectivity(changed);
        proof {
            assert(isolation_step(step, g0, *grid));
        }
        proof {
            crate::replay::lemma_changes_replay(g0, *grid, changed@);
            crate::replay::lemma_replay_one(g0.cols as int, g0.data@, step);
        }
        crate::solve_path::record(path, step);
        proof {
            if let Some(v) = p0 {
                assert(path->0@ =~= v@ + seq![step]);
                assert(path->0@.drop_last() =~= v@);
            }
            crate::replay::lemma_replays_recorded(p0, *path, g0, *grid, seq![step]);
            assert(isolation_record(seq![step], g0, *grid));
        }
    } else {
        proof {
            crate::replay::lemma_replays_same(*path, *grid);
            crate::solve_path::lemma_recorded_none(*path);
            assert(isolation_record(Seq::empty(), g0, *grid));
        }
    }
    made_progress
}

} // verus!
