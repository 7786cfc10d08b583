use vstd::prelude::*;

use crate::array::{flat_index, lemma_index_bounds, Array2};
use crate::cell::{opposite, Cell};
use crate::count::{count_eq, lemma_count_all, lemma_count_bound, lemma_count_mono, lemma_count_update};
use crate::ext::{ArrayExt, CellExt};
use crate::fill::{fills_some, lists_fills, only_fills};
use crate::region::{adjacent, adjacent_cells, cell_at, on_grid, upos};
use crate::rules::{connected_parts, is_vis, solves};
use crate::isolation::{corner_floods, isolation_result};
use crate::solve_path::{recorded_one, SolvePath, SolveStep};
use crate::Grid;

verus! {

/// The cells that changed carry `color`.
pub open spec fn fills_with(old: Grid, new: Grid, color: Cell) -> bool {
    forall|r: int, c: int|
        #![trigger new.at(r, c)]
        old.contains_pos(r, c) && new.at(r, c) != old.at(r, c) ==> new.at(r, c) == color
}

/// What the cut-cell pass for colour `k` leaves at `p` of `g`: an empty cut
/// cell takes the colour; every other cell keeps its contents.
pub open spec fn cut_fill(g: Grid, k: Cell, p: (int, int)) -> Cell {
    if cell_at(g, p) == Cell::Empty && cut_cell(g, k, p) {
        k
    } else {
        cell_at(g, p)
    }
}

/// The three passes of the connectivity rules, from `old` through `gb` (the
/// black cut cells of `old` filled) and `gw` (the white cut cells of `gb`
/// filled) to `new` (the isolated regions of `gw` filled, as
/// [`isolation_result`] says).
pub open spec fn connectivity_passes(old: Grid, gb: Grid, gw: Grid, new: Grid) -> bool {
    &&& gb.wf()
    &&& gb.rows == old.rows
    &&& gb.cols == old.cols
    &&& forall|p: (int, int)| on_grid(old, p) ==> #[trigger] cell_at(gb, p) == cut_fill(old, Cell::Black, p)
    &&& gw.wf()
    &&& gw.rows == gb.rows
    &&& gw.cols == gb.cols
    &&& forall|p: (int, int)| on_grid(gb, p) ==> #[trigger] cell_at(gw, p) == cut_fill(gb, Cell::White, p)
    &&& new.rows == gw.rows
    &&& new.cols == gw.cols
    &&& forall|p: (int, int)| on_grid(gw, p) ==> #[trigger] cell_at(new, p) == isolation_result(gw, p)
}

/// `s` is what one connectivity pass from `a` to `b` records: one step listing
/// the cells it filled when it fills any, and nothing otherwise.
pub open spec fn pass_record(s: Seq<SolveStep>, a: Grid, b: Grid) -> bool {
    if fills_some(a, b) {
        s.len() == 1 && connectivity_step(s[0], a, b)
    } else {
        s.len() == 0
    }
}

/// `s` is what the three connectivity passes from `old` through `gb` and `gw`
/// to `new` record: the record of the black pass, then of the white pass, then
/// of the pass over isolated regions.
pub open spec fn connectivity_steps(old: Grid, gb: Grid, gw: Grid, new: Grid, s: Seq<SolveStep>) -> bool {
    exists|s1: Seq<SolveStep>, s2: Seq<SolveStep>, s3: Seq<SolveStep>|
        #[trigger] pass_record(s1, old, gb) && #[trigger] pass_record(s2, gb, gw)
            && #[trigger] crate::isolation::isolation_record(s3, gw, new) && s == s1 + s2 + s3
}

/// A connectivity step that lists the cells filled from `old` to `new`.
pub open spec fn connectivity_step(step: SolveStep, old: Grid, new: Grid) -> bool {
    step matches SolveStep::ApplyConnectivity(ch) && lists_fills(old, new, ch@)
}


/// A path between cells of colour `k` may step on `p`: `p` does not hold the
/// opposite colour, and it is not the cell `x` to be avoided, if any.
pub open spec fn open_cell(g: Grid, k: Cell, x: Option<(int, int)>, p: (int, int)) -> bool {
    cell_at(g, p) != opposite(k) && x != Some(p)
}

/// `s` is closed under stepping to an adjacent open cell.
pub open spec fn closed_open(g: Grid, k: Cell, x: Option<(int, int)>, s: Set<(int, int)>) -> bool {
    forall|p: (int, int), q: (int, int)|
        #![trigger s.contains(p), s.contains(q)]
        s.contains(p) && on_grid(g, q) && adjacent(p, q) && open_cell(g, k, x, q) ==> s.contains(q)
}

/// `b` can be reached from `a` by steps between adjacent open cells: `b` lies
/// in every closed set round `a`.
pub open spec fn joined(g: Grid, k: Cell, x: Option<(int, int)>, a: (int, int), b: (int, int)) -> bool {
    forall|s: Set<(int, int)>| #[trigger] closed_open(g, k, x, s) && s.contains(a) ==> s.contains(b)
}

/// `x` is a cut cell for colour `k`: two cells of colour `k` are joined by a
/// path that never steps on the opposite colour, and every such path from the
/// second back to the first steps on `x`.
pub open spec fn cut_cell(g: Grid, k: Cell, x: (int, int)) -> bool {
    exists|a: (int, int), b: (int, int)|
        on_grid(g, a) && on_grid(g, b) && cell_at(g, a) == k && cell_at(g, b) == k
            && #[trigger] joined(g, k, None, a, b) && !joined(g, k, Some(x), b, a)
}

/// Every cell is joined to itself.
pub proof fn lemma_joined_refl(g: Grid, k: Cell, x: Option<(int, int)>, a: (int, int))
    ensures
        joined(g, k, x, a, a),
{
}

/// A step to an adjacent open cell extends a path.
pub proof fn lemma_joined_step(
    g: Grid,
    k: Cell,
    x: Option<(int, int)>,
    a: (int, int),
    p: (int, int),
    q: (int, int),
)
    requires
        joined(g, k, x, a, p),
        on_grid(g, q),
        adjacent(p, q),
        open_cell(g, k, x, q),
    ensures
        joined(g, k, x, a, q),
{
    assert forall|s: Set<(int, int)>| #[trigger] closed_open(g, k, x, s) && s.contains(a) implies s.contains(q) by {
        assert(s.contains(p));
    }
}

/// Paths compose.
pub proof fn lemma_joined_trans(
    g: Grid,
    k: Cell,
    x: Option<(int, int)>,
    a: (int, int),
    b: (int, int),
    c: (int, int),
)
    requires
        joined(g, k, x, a, b),
        joined(g, k, x, b, c),
    ensures
        joined(g, k, x, a, c),
{
    assert forall|s: Set<(int, int)>| #[trigger] closed_open(g, k, x, s) && s.contains(a) implies s.contains(c) by {
        assert(s.contains(b));
    }
}

/// A cell that can be reached from `a` is `a` itself or an open cell.
pub proof fn lemma_joined_open(g: Grid, k: Cell, x: Option<(int, int)>, a: (int, int), b: (int, int))
    requires
        joined(g, k, x, a, b),
    ensures
        b == a || open_cell(g, k, x, b),
{
    let s = Set::new(|p: (int, int)| p == a || open_cell(g, k, x, p));
    assert(closed_open(g, k, x, s));
    assert(s.contains(a));
}

/// A cut cell for a colour holds that colour in every solution: the cells of
/// that colour in a solution form one region, so a path of them joins the two
/// cells that the cut cell parts, and that path must step on it.
pub proof fn lemma_cut_cell_forced(g: Grid, sol: Grid, k: Cell, x: (int, int))
    requires
        g.wf(),
        k == Cell::Black || k == Cell::White,
        on_grid(g, x),
        cut_cell(g, k, x),
        solves(g, sol),
    ensures
        cell_at(sol, x) == k,
{
    let (a, b) = choose|a: (int, int), b: (int, int)|
        on_grid(g, a) && on_grid(g, b) && cell_at(g, a) == k && cell_at(g, b) == k
            && #[trigger] joined(g, k, None, a, b) && !joined(g, k, Some(x), b, a);
    assert(sol.at(a.0, a.1) == g.at(a.0, a.1));
    assert(sol.at(b.0, b.1) == g.at(b.0, b.1));
    connected_parts(sol);
    assert(cell_at(sol, a) == k && cell_at(sol, b) == k);
    assert(on_grid(sol, a) && on_grid(sol, b));
    assert(crate::region::connected(sol, k));
    assert(crate::region::reachable(sol, k, b, a));
    if cell_at(sol, x) != k {
        assert forall|s: Set<(int, int)>| #[trigger] closed_open(g, k, Some(x), s) && s.contains(b) implies s.contains(
            a,
        ) by {
            assert forall|p: (int, int), q: (int, int)|
                #![trigger s.contains(p), s.contains(q)]
                s.contains(p) && on_grid(sol, q) && adjacent(p, q) && cell_at(sol, q) == k implies s.contains(q) by {
                assert(sol.at(q.0, q.1) == g.at(q.0, q.1) || g.at(q.0, q.1) == Cell::Empty);
                assert(open_cell(g, k, Some(x), q));
            }
            assert(crate::region::closed_region(sol, k, s));
        }
        assert(joined(g, k, Some(x), b, a));
    }
}

/// The cut-cell pass for a colour keeps every solution: a solution of `g` is a
/// solution of the grid the pass leaves.
pub proof fn lemma_cut_pass_keeps_solutions(g: Grid, next: Grid, k: Cell, sol: Grid)
    requires
        g.wf(),
        k == Cell::Black || k == Cell::White,
        next.rows == g.rows,
        next.cols == g.cols,
        forall|p: (int, int)| on_grid(g, p) ==> #[trigger] cell_at(next, p) == cut_fill(g, k, p),
        solves(g, sol),
    ensures
        solves(next, sol),
{
    assert forall|r: int, c: int|
        #![trigger sol.at(r, c)]
        next.contains_pos(r, c) implies sol.at(r, c) == next.at(r, c) || (next.at(r, c) == Cell::Empty
        && sol.at(r, c) != Cell::Empty) by {
        assert(sol.at(r, c) == g.at(r, c) || (g.at(r, c) == Cell::Empty && sol.at(r, c) != Cell::Empty));
        assert(cell_at(next, (r, c)) == cut_fill(g, k, (r, c)));
        if next.at(r, c) != g.at(r, c) {
            lemma_cut_cell_forced(g, sol, k, (r, c));
        }
    }
}

/// The connectivity rules keep every solution of a grid that holds cells of
/// both colours, as long as the region of the top-left cell does not flood the
/// grid that the cut-cell passes leave.
pub proof fn lemma_connectivity_keeps_solutions(
    old: Grid,
    gb: Grid,
    gw: Grid,
    new: Grid,
    sol: Grid,
    bk: (int, int),
    wh: (int, int),
)
    requires
        old.wf(),
        connectivity_passes(old, gb, gw, new),
        !corner_floods(gw),
        on_grid(old, bk),
        cell_at(old, bk) == Cell::Black,
        on_grid(old, wh),
        cell_at(old, wh) == Cell::White,
        solves(old, sol),
    ensures
        solves(new, sol),
{
    lemma_cut_pass_keeps_solutions(old, gb, Cell::Black, sol);
    lemma_cut_pass_keeps_solutions(gb, gw, Cell::White, sol);
    assert(cell_at(gb, bk) == cut_fill(old, Cell::Black, bk));
    assert(cell_at(gb, wh) == cut_fill(old, Cell::Black, wh));
    assert(cell_at(gw, bk) == cut_fill(gb, Cell::White, bk));
    assert(cell_at(gw, wh) == cut_fill(gb, Cell::White, wh));
    crate::isolation::lemma_isolation_keeps_solutions(gw, new, sol, bk, wh);
}

/// `s` is closed under steps to an adjacent cell of `ok`.
pub open spec fn closed_in(g: Grid, ok: Set<(int, int)>, s: Set<(int, int)>) -> bool {
    forall|p: (int, int), q: (int, int)|
        #![trigger s.contains(p), s.contains(q)]
        s.contains(p) && on_grid(g, q) && adjacent(p, q) && ok.contains(q) ==> s.contains(q)
}

/// `b` can be reached from `a` by steps to adjacent cells of `ok`.
pub open spec fn linked(g: Grid, ok: Set<(int, int)>, a: (int, int), b: (int, int)) -> bool {
    forall|s: Set<(int, int)>| #[trigger] closed_in(g, ok, s) && s.contains(a) ==> s.contains(b)
}

/// The cells of `g` that do not hold the opposite colour of `k`, less those of `d`.
pub open spec fn open_minus(g: Grid, k: Cell, d: Set<(int, int)>) -> Set<(int, int)> {
    Set::new(|q: (int, int)| on_grid(g, q) && cell_at(g, q) != opposite(k) && !d.contains(q))
}

/// Every cell is linked to itself.
pub proof fn lemma_linked_refl(g: Grid, ok: Set<(int, int)>, a: (int, int))
    ensures
        linked(g, ok, a, a),
{
}

/// A step to an adjacent cell of `ok` extends a link.
pub proof fn lemma_linked_step(g: Grid, ok: Set<(int, int)>, a: (int, int), p: (int, int), q: (int, int))
    requires
        linked(g, ok, a, p),
        on_grid(g, q),
        adjacent(p, q),
        ok.contains(q),
    ensures
        linked(g, ok, a, q),
{
    assert forall|s: Set<(int, int)>| #[trigger] closed_in(g, ok, s) && s.contains(a) implies s.contains(q) by {
        assert(s.contains(p));
    }
}

/// Links compose.
pub proof fn lemma_linked_trans(g: Grid, ok: Set<(int, int)>, a: (int, int), b: (int, int), c: (int, int))
    requires
        linked(g, ok, a, b),
        linked(g, ok, b, c),
    ensures
        linked(g, ok, a, c),
{
    assert forall|s: Set<(int, int)>| #[trigger] closed_in(g, ok, s) && s.contains(a) implies s.contains(c) by {
        assert(s.contains(b));
    }
}

/// Allowing more cells keeps every link.
pub proof fn lemma_linked_mono(g: Grid, ok1: Set<(int, int)>, ok2: Set<(int, int)>, a: (int, int), b: (int, int))
    requires
        linked(g, ok1, a, b),
        ok1.subset_of(ok2),
    ensures
        linked(g, ok2, a, b),
{
    assert forall|s: Set<(int, int)>| #[trigger] closed_in(g, ok2, s) && s.contains(a) implies s.contains(b) by {
        assert(closed_in(g, ok1, s));
    }
}

/// A link that starts on an allowed cell runs both ways.
pub proof fn lemma_linked_symm(g: Grid, ok: Set<(int, int)>, a: (int, int), b: (int, int))
    requires
        linked(g, ok, a, b),
        on_grid(g, a),
        ok.contains(a),
    ensures
        linked(g, ok, b, a),
{
    assert forall|s: Set<(int, int)>| #[trigger] closed_in(g, ok, s) && s.contains(b) implies s.contains(a) by {
        if !s.contains(a) {
            let t = Set::new(|p: (int, int)| on_grid(g, p) && ok.contains(p) && !s.contains(p));
            assert forall|p: (int, int), q: (int, int)|
                #![trigger t.contains(p), t.contains(q)]
                t.contains(p) && on_grid(g, q) && adjacent(p, q) && ok.contains(q) implies t.contains(q) by {
                if s.contains(q) {
                    assert(adjacent(q, p));
                    assert(s.contains(p));
                }
            }
            assert(closed_in(g, ok, t));
            assert(t.contains(a));
            assert(t.contains(b));
        }
    }
}

/// A link through allowed cells that are all open and avoid `x` is a path of
/// [`joined`] avoiding `x`.
pub proof fn lemma_linked_joined(
    g: Grid,
    ok: Set<(int, int)>,
    k: Cell,
    x: Option<(int, int)>,
    a: (int, int),
    b: (int, int),
)
    requires
        linked(g, ok, a, b),
        forall|q: (int, int)| on_grid(g, q) && #[trigger] ok.contains(q) ==> open_cell(g, k, x, q),
    ensures
        joined(g, k, x, a, b),
{
    assert forall|s: Set<(int, int)>| #[trigger] closed_open(g, k, x, s) && s.contains(a) implies s.contains(b) by {
        assert(closed_in(g, ok, s));
    }
}

/// A path of [`joined`] is a link through any set that holds every open cell.
pub proof fn lemma_joined_linked(
    g: Grid,
    ok: Set<(int, int)>,
    k: Cell,
    x: Option<(int, int)>,
    a: (int, int),
    b: (int, int),
)
    requires
        joined(g, k, x, a, b),
        forall|q: (int, int)| on_grid(g, q) && open_cell(g, k, x, q) ==> #[trigger] ok.contains(q),
    ensures
        linked(g, ok, a, b),
{
    assert forall|s: Set<(int, int)>| #[trigger] closed_in(g, ok, s) && s.contains(a) implies s.contains(b) by {
        assert(closed_open(g, k, x, s));
    }
}

/// A path from an open cell can be walked back.
pub proof fn lemma_joined_symm(g: Grid, k: Cell, x: Option<(int, int)>, a: (int, int), b: (int, int))
    requires
        joined(g, k, x, a, b),
        on_grid(g, a),
        open_cell(g, k, x, a),
    ensures
        joined(g, k, x, b, a),
{
    let ok = Set::new(|q: (int, int)| on_grid(g, q) && open_cell(g, k, x, q));
    lemma_joined_linked(g, ok, k, x, a, b);
    lemma_linked_symm(g, ok, a, b);
    lemma_linked_joined(g, ok, k, x, b, a);
}

/// `s1` grows out of `s0`: visited cells keep their times and trees, cells
/// visited since come later, returned searches keep their records, their
/// cells keep their contents, and cells reached since come from cells not yet
/// returned in `s0`.
spec fn grows(s0: Connectivity, s1: Connectivity, g0: Grid, c0: Grid, c1: Grid) -> bool {
    &&& s1.color == s0.color
    &&& s1.tin_next >= s0.tin_next
    &&& forall|u: (int, int)|
        on_grid(g0, u) && #[trigger] is_vis(s0.visited, u) ==> is_vis(s1.visited, u) && at2(s1.tin, u) == at2(
            s0.tin,
            u,
        ) && s1.tree@[u] == s0.tree@[u]
    &&& forall|u: (int, int)|
        on_grid(g0, u) && #[trigger] is_vis(s1.visited, u) && !is_vis(s0.visited, u) ==> at2(s1.tin, u)
            >= s0.tin_next
    &&& forall|u: (int, int)|
        #[trigger] s0.fin(u) ==> s1.fin(u) && s1.out@[u] == s0.out@[u] && s1.span@[u] == s0.span@[u] && at2(
            s1.low,
            u,
        ) == at2(s0.low, u) && at2(s1.has, u) == at2(s0.has, u) && cell_at(c1, u) == cell_at(c0, u)
    &&& forall|c: (int, int)|
        #[trigger] s0.par@.dom().contains(c) ==> s1.par@.dom().contains(c) && s1.par@[c] == s0.par@[c]
    &&& forall|c: (int, int)|
        #[trigger] s1.par@.dom().contains(c) && !s0.par@.dom().contains(c) ==> !s0.fin(s1.par@[c]) && (on_grid(
            g0,
            c,
        ) ==> !is_vis(s0.visited, c))
}

/// The facts of a returned search survive growth, given links for the cells
/// visited since.
proof fn lemma_fin_frame(s0: Connectivity, s1: Connectivity, g0: Grid, c0: Grid, c1: Grid, v: (int, int))
    requires
        s0.fin(v),
        s0.fin_facts(g0, c0, v),
        grows(s0, s1, g0, c0, c1),
        forall|u: (int, int)|
            on_grid(g0, u) && #[trigger] is_vis(s1.visited, u) && !is_vis(s0.visited, u) && s1.tree@[u]
                == s0.tree@[v] ==> linked(g0, open_minus(g0, s0.color, s0.span@[v]), s0.tree@[v], u),
    ensures
        s1.fin_facts(g0, c1, v),
{
    reveal(Connectivity::fin_facts);
    let sp = s0.span@[v];
    assert(sp.contains(v));
    assert(is_vis(s0.visited, v) || !on_grid(g0, v));
    assert forall|u: (int, int)|
        #![trigger sp.contains(u)]
        sp.contains(u) <==> (on_grid(g0, u) && is_vis(s1.visited, u) && at2(s1.tin, v) <= at2(s1.tin, u)
            < s1.out@[v]) by {
        if on_grid(g0, u) && is_vis(s1.visited, u) && !is_vis(s0.visited, u) {
            assert(at2(s1.tin, u) >= s0.tin_next);
        }
    }
    assert forall|u: (int, int)|
        #![trigger sp.contains(u)]
        sp.contains(u) ==> s1.fin(u) && s1.tree@[u] == s1.tree@[v] && linked(g0, sp, v, u) by {
        if sp.contains(u) {
            assert(s0.fin(u));
        }
    }
    if at2(s0.low, v) != g0.data@.len() {
        let (y, z) = choose|y: (int, int), z: (int, int)|
            #![trigger sp.contains(y), at2(s0.tin, z)]
            sp.contains(y) && on_grid(g0, z) && is_vis(s0.visited, z) && adjacent(y, z) && at2(s0.tin, z)
                == at2(s0.low, v);
        assert(at2(s1.tin, z) == at2(s1.low, v));
        assert(sp.contains(y) && on_grid(g0, z) && is_vis(s1.visited, z) && adjacent(y, z));
    }
    assert forall|u: (int, int)|
        #![trigger sp.contains(u)]
        sp.contains(u) && u != v implies exists|c: (int, int)|
            #![trigger s1.span@[c].contains(u)]
            on_grid(g0, c) && s1.par@.dom().contains(c) && s1.par@[c] == v && s1.fin(c) && s1.span@[c].contains(
                u,
            ) by {
        let c = choose|c: (int, int)|
            #![trigger s0.span@[c].contains(u)]
            on_grid(g0, c) && s0.par@.dom().contains(c) && s0.par@[c] == v && s0.fin(c) && s0.span@[c].contains(u);
        assert(s1.span@[c].contains(u));
    }
    assert forall|c: (int, int)|
        #![trigger s1.par@[c]]
        on_grid(g0, c) && s1.par@.dom().contains(c) && s1.par@[c] == v implies sp.contains(c) by {
        if !s0.par@.dom().contains(c) {
            assert(!s0.fin(s1.par@[c]));
        }
    }
    if s1.par@.dom().contains(v) && cell_at(g0, v) == Cell::Empty && cell_at(c1, v) == Cell::Empty {
        assert(s0.par@.dom().contains(v));
        assert forall|c: (int, int)|
            #![trigger s1.par@[c]]
            on_grid(g0, c) && is_vis(s1.visited, c) && s1.par@.dom().contains(c) && s1.par@[c] == v && s1.fin(
                c,
            ) implies !(at2(s1.low, c) >= at2(s1.tin, v) && at2(s1.has, c)) by {
            if !s0.par@.dom().contains(c) {
                assert(!s0.fin(s1.par@[c]));
            }
            assert(s0.par@[c] == v);
            assert(sp.contains(c));
            assert(s0.fin(c));
        }
    }
    assert forall|u: (int, int)|
        #![trigger is_vis(s1.visited, u), s1.tree@[u]]
        on_grid(g0, u) && is_vis(s1.visited, u) && s1.tree@[u] == s1.tree@[v] && !sp.contains(u) implies linked(
            g0,
            open_minus(g0, s1.color, sp),
            s1.tree@[v],
            u,
        ) by {
        if is_vis(s0.visited, u) {
            assert(s0.tree@[u] == s0.tree@[v]);
        }
    }
}

proof fn lemma_grows_trans(
    s0: Connectivity,
    s1: Connectivity,
    s2: Connectivity,
    g0: Grid,
    c0: Grid,
    c1: Grid,
    c2: Grid,
)
    requires
        grows(s0, s1, g0, c0, c1),
        grows(s1, s2, g0, c1, c2),
    ensures
        grows(s0, s2, g0, c0, c2),
{
    assert forall|u: (int, int)|
        on_grid(g0, u) && #[trigger] is_vis(s2.visited, u) && !is_vis(s0.visited, u) implies at2(s2.tin, u)
        >= s0.tin_next by {
        if is_vis(s1.visited, u) {
            assert(at2(s1.tin, u) >= s0.tin_next);
        }
    }
    assert forall|c: (int, int)|
        #[trigger] s2.par@.dom().contains(c) && !s0.par@.dom().contains(c) implies !s0.fin(s2.par@[c]) && (
        on_grid(g0, c) ==> !is_vis(s0.visited, c)) by {
        if s1.par@.dom().contains(c) {
            assert(s2.par@[c] == s1.par@[c]);
        } else {
            if s0.fin(s2.par@[c]) {
                assert(s1.fin(s2.par@[c]));
            }
            if on_grid(g0, c) && is_vis(s0.visited, c) {
                assert(is_vis(s1.visited, c));
            }
        }
    }
}

/// A change confined to the contents, low value and flag of one cell `p0`
/// whose search has not returned keeps the forest.
proof fn lemma_small_change(
    s0: Connectivity,
    s1: Connectivity,
    g0: Grid,
    c0: Grid,
    c1: Grid,
    a: (int, int),
    p0: (int, int),
)
    requires
        s0.forest(g0, c0, a),
        !s0.fin(p0),
        s1.color == s0.color,
        s1.visited == s0.visited,
        s1.tin == s0.tin,
        s1.tin_next == s0.tin_next,
        s1.par == s0.par,
        s1.tree == s0.tree,
        s1.out == s0.out,
        s1.span == s0.span,
        forall|u: (int, int)|
            on_grid(g0, u) && u != p0 ==> #[trigger] at2(s1.low, u) == at2(s0.low, u) && at2(s1.has, u) == at2(
                s0.has,
                u,
            ) && cell_at(c1, u) == cell_at(c0, u),
    ensures
        s1.forest(g0, c1, a),
        grows(s0, s1, g0, c0, c1),
{
    s0.lemma_forest_parts(g0, c0, a);
    assert(s1.tree@ == s0.tree@ && s1.par@ == s0.par@ && s1.out@ == s0.out@ && s1.span@ == s0.span@);
    assert(s1.base_facts(g0)) by {
        reveal(Connectivity::base_facts);
        assert(s0.base_facts(g0));
        let k = s1.color;
        assert(forall|u: (int, int)|
            on_grid(g0, u) && #[trigger] is_vis(s1.visited, u) ==> cell_at(g0, u) != opposite(k)
                && s1.tree@.dom().contains(u) && on_grid(g0, s1.tree@[u]) && is_vis(
                s1.visited,
                s1.tree@[u],
            ) && cell_at(g0, s1.tree@[u]) == k);
        assert(forall|u: (int, int)|
            on_grid(g0, u) && #[trigger] is_vis(s1.visited, u) && s1.par@.dom().contains(u) ==> on_grid(
                g0,
                s1.par@[u],
            ) && is_vis(s1.visited, s1.par@[u]) && at2(s1.tin, s1.par@[u]) < at2(s1.tin, u));
        assert forall|u: (int, int)| #[trigger] s1.fin(u) implies on_grid(g0, u) && is_vis(s1.visited, u) by {
            assert(s0.fin(u));
        }
        assert(forall|c: (int, int)|
            #[trigger] s1.par@.dom().contains(c) ==> on_grid(g0, c) && is_vis(s1.visited, c));
    }
    assert(grows(s0, s1, g0, c0, c1)) by {
        assert(s1.tin_next >= s0.tin_next);
        assert(forall|u: (int, int)|
            on_grid(g0, u) && #[trigger] is_vis(s0.visited, u) ==> is_vis(s1.visited, u) && at2(s1.tin, u) == at2(
                s0.tin,
                u,
            ) && s1.tree@[u] == s0.tree@[u]);
        assert(forall|u: (int, int)|
            #[trigger] s0.fin(u) ==> s1.fin(u) && s1.out@[u] == s0.out@[u] && s1.span@[u] == s0.span@[u]);
        assert forall|u: (int, int)| #[trigger] s0.fin(u) implies at2(s1.low, u) == at2(s0.low, u) && at2(
            s1.has,
            u,
        ) == at2(s0.has, u) && cell_at(c1, u) == cell_at(c0, u) by {
            s0.lemma_fin_vis(g0, u);
            assert(u != p0);
            assert(at2(s1.low, u) == at2(s0.low, u));
        }
    }
    assert forall|v: (int, int)| on_grid(g0, v) && #[trigger] s1.fin(v) implies s1.fin_facts(g0, c1, v) by {
        lemma_fin_frame(s0, s1, g0, c0, c1, v);
    }
    assert forall|u: (int, int)|
        on_grid(g0, u) && #[trigger] is_vis(s1.visited, u) && s1.tree@[u] == a implies linked(
        g0,
        s1.tree_cells(g0, a),
        a,
        u,
    ) by {
        assert(s1.tree_cells(g0, a) =~= s0.tree_cells(g0, a));
    }
    s1.lemma_forest_build(g0, c1, a);
}

/// Visiting a new cell `p0` of the tree of `a`, reached from `up` (or starting
/// that tree), keeps the forest.
#[verifier::rlimit(40)]
proof fn lemma_entry(
    s0: Connectivity,
    s1: Connectivity,
    g0: Grid,
    cur: Grid,
    p0: (int, int),
    up: Option<(int, int)>,
    a: (int, int),
)
    requires
        s0.forest(g0, cur, a),
        s0.times_ok(g0),
        on_grid(g0, p0),
        !is_vis(s0.visited, p0),
        cell_at(g0, p0) != opposite(s0.color),
        on_grid(g0, a),
        cell_at(g0, a) == s0.color,
        up matches Some(u) ==> on_grid(g0, u) && is_vis(s0.visited, u) && !s0.fin(u) && s0.tree@[u] == a
            && adjacent(u, p0),
        up is None ==> a == p0 && forall|u: (int, int)|
            on_grid(g0, u) && #[trigger] is_vis(s0.visited, u) ==> s0.fin(u) && s0.tree@[u] != a,
        s1.color == s0.color,
        is_vis(s1.visited, p0),
        forall|u: (int, int)|
            on_grid(g0, u) && u != p0 ==> #[trigger] is_vis(s1.visited, u) == is_vis(s0.visited, u) && at2(
                s1.tin,
                u,
            ) == at2(s0.tin, u) && at2(s1.has, u) == at2(s0.has, u),
        at2(s1.tin, p0) == s0.tin_next,
        s1.tin_next == s0.tin_next + 1,
        s1.low == s0.low,
        s1.tree@ == s0.tree@.insert(p0, a),
        up matches Some(u) ==> s1.par@ == s0.par@.insert(p0, u),
        up is None ==> s1.par@ == s0.par@,
        s1.out@ == s0.out@,
        s1.span@ == s0.span@,
    ensures
        s1.forest(g0, cur, a),
        grows(s0, s1, g0, cur, cur),
{
    let k = s0.color;
    s0.lemma_forest_parts(g0, cur, a);
    assert(!s0.par@.dom().contains(p0)) by {
        reveal(Connectivity::base_facts);
    }
    assert(!s0.fin(p0)) by {
        reveal(Connectivity::base_facts);
    }
    assert(s1.base_facts(g0)) by {
        reveal(Connectivity::base_facts);
        if let Some(u) = up {
            assert(is_vis(s0.visited, s0.tree@[u]));
            assert(at2(s0.tin, u) < s0.tin_next);
        }
        assert forall|u: (int, int)|
            on_grid(g0, u) && #[trigger] is_vis(s1.visited, u) implies cell_at(g0, u) != opposite(k)
            && s1.tree@.dom().contains(u) && on_grid(g0, s1.tree@[u]) && is_vis(s1.visited, s1.tree@[u])
            && cell_at(g0, s1.tree@[u]) == k by {
            if u != p0 {
                assert(is_vis(s0.visited, u));
                assert(is_vis(s0.visited, s0.tree@[u]));
            }
        }
        assert forall|u: (int, int)|
            on_grid(g0, u) && #[trigger] is_vis(s1.visited, u) && s1.par@.dom().contains(u) implies on_grid(
            g0,
            s1.par@[u],
        ) && is_vis(s1.visited, s1.par@[u]) && at2(s1.tin, s1.par@[u]) < at2(s1.tin, u) by {
            if u != p0 {
                assert(is_vis(s0.visited, u));
                assert(s0.par@.dom().contains(u));
                assert(is_vis(s0.visited, s0.par@[u]));
            }
        }
        assert forall|u: (int, int)| #[trigger] s1.fin(u) implies on_grid(g0, u) && is_vis(s1.visited, u) by {
            assert(s0.fin(u));
        }
        assert forall|c: (int, int)| #[trigger] s1.par@.dom().contains(c) implies on_grid(g0, c) && is_vis(
            s1.visited,
            c,
        ) by {
            if c != p0 {
                assert(s0.par@.dom().contains(c));
            }
        }
        assert forall|u: (int, int)|
            on_grid(g0, u) && #[trigger] is_vis(s1.visited, u) && !s1.par@.dom().contains(u) implies s1.tree@[u]
            == u by {
            if u != p0 {
                assert(is_vis(s0.visited, u));
                assert(!s0.par@.dom().contains(u));
            }
        }
    }
    assert(grows(s0, s1, g0, cur, cur)) by {
        assert forall|u: (int, int)|
            on_grid(g0, u) && #[trigger] is_vis(s0.visited, u) implies is_vis(s1.visited, u) && at2(s1.tin, u)
            == at2(s0.tin, u) && s1.tree@[u] == s0.tree@[u] by {
            assert(u != p0);
            assert(is_vis(s1.visited, u) == is_vis(s0.visited, u));
            assert(at2(s1.tin, u) == at2(s0.tin, u));
        }
        assert forall|u: (int, int)|
            on_grid(g0, u) && #[trigger] is_vis(s1.visited, u) && !is_vis(s0.visited, u) implies at2(s1.tin, u)
            >= s0.tin_next by {
            assert(u == p0);
        }
        assert forall|u: (int, int)| #[trigger] s0.fin(u) implies s1.fin(u) && s1.out@[u] == s0.out@[u]
            && s1.span@[u] == s0.span@[u] && at2(s1.low, u) == at2(s0.low, u) && at2(s1.has, u) == at2(s0.has, u)
            && cell_at(cur, u) == cell_at(cur, u) by {
            reveal(Connectivity::base_facts);
            assert(u != p0);
        }
        assert forall|c: (int, int)| #[trigger] s0.par@.dom().contains(c) implies s1.par@.dom().contains(c)
            && s1.par@[c] == s0.par@[c] by {
            assert(c != p0);
        }
    }
    assert forall|v: (int, int)| on_grid(g0, v) && #[trigger] s1.fin(v) implies s1.fin_facts(g0, cur, v) by {
        assert(s0.fin(v));
        s0.lemma_unpack(g0, cur, v);
        assert forall|u: (int, int)|
            on_grid(g0, u) && #[trigger] is_vis(s1.visited, u) && !is_vis(s0.visited, u) && s1.tree@[u]
                == s0.tree@[v] implies linked(g0, open_minus(g0, s0.color, s0.span@[v]), s0.tree@[v], u) by {
            assert(u == p0);
            reveal(Connectivity::base_facts);
            if let Some(w) = up {
                assert(!s0.span@[v].contains(w));
                assert(linked(g0, open_minus(g0, s0.color, s0.span@[v]), s0.tree@[v], w));
                assert(!s0.span@[v].contains(p0));
                lemma_linked_step(g0, open_minus(g0, s0.color, s0.span@[v]), s0.tree@[v], w, p0);
            } else {
                assert(is_vis(s0.visited, v));
            }
        }
        lemma_fin_frame(s0, s1, g0, cur, cur, v);
    }
    assert forall|u: (int, int)|
        on_grid(g0, u) && #[trigger] is_vis(s1.visited, u) && !s1.fin(u) implies s1.tree@[u] == a by {
        if u != p0 {
            assert(is_vis(s0.visited, u));
        }
    }
    let tc0 = s0.tree_cells(g0, a);
    let tc1 = s1.tree_cells(g0, a);
    assert(tc0.subset_of(tc1)) by {
        assert forall|u: (int, int)| tc0.contains(u) implies tc1.contains(u) by {
            assert(u != p0);
        }
    }
    assert(tc1.contains(p0));
    assert forall|u: (int, int)|
        on_grid(g0, u) && #[trigger] is_vis(s1.visited, u) && s1.tree@[u] == a implies linked(g0, tc1, a, u) by {
        if u != p0 {
            assert(tc0.contains(u));
            lemma_linked_mono(g0, tc0, tc1, a, u);
        } else if let Some(w) = up {
            assert(tc0.contains(w));
            lemma_linked_mono(g0, tc0, tc1, a, w);
            lemma_linked_step(g0, tc1, a, w, p0);
        } else {
            lemma_linked_refl(g0, tc1, a);
        }
    }
    assert forall|u: (int, int), q: (int, int)|
        #![trigger is_vis(s1.visited, u), is_vis(s1.visited, q)]
        on_grid(g0, u) && on_grid(g0, q) && is_vis(s1.visited, u) && s1.tree@[u] != a && adjacent(u, q)
            && cell_at(g0, q) != opposite(s1.color) implies is_vis(s1.visited, q) && s1.tree@[q] == s1.tree@[u] by {
        assert(u != p0);
        assert(is_vis(s0.visited, u));
        assert(is_vis(s0.visited, q));
        assert(q != p0);
    }
    s1.lemma_forest_build(g0, cur, a);
}

/// The facts of the search at `p0` when it returns.
#[verifier::rlimit(40)]
proof fn lemma_exit_facts(
    s1: Connectivity,
    s2: Connectivity,
    g0: Grid,
    cur: Grid,
    p0: (int, int),
    t0: int,
    a: (int, int),
    tc0: Set<(int, int)>,
)
    requires
        s1.base_facts(g0),
        s1.progress(g0, cur, p0, t0, a, tc0),
        s1.times_ok(g0),
        on_grid(g0, p0),
        is_vis(s1.visited, p0),
        !s1.fin(p0),
        s1.tree@[p0] == a,
        at2(s1.tin, p0) == t0,
        s2.color == s1.color,
        s2.visited == s1.visited,
        s2.tin == s1.tin,
        s2.tin_next == s1.tin_next,
        s2.low == s1.low,
        s2.has == s1.has,
        s2.par@ == s1.par@,
        s2.tree@ == s1.tree@,
        s2.out@ == s1.out@.insert(p0, s1.tin_next as int),
        s2.span@ == s1.span@.insert(p0, s1.newly_set(g0, t0)),
    ensures
        s2.fin_facts(g0, cur, p0),
{
    let k = s1.color;
    s1.lemma_progress_parts(g0, cur, p0, t0, a, tc0);
    let n = s1.newly_set(g0, t0);
    reveal(Connectivity::fin_facts);
    assert(n.contains(p0));
    assert(s2.span@[p0] == n);
    assert forall|u: (int, int)|
        #![trigger n.contains(u)]
        n.contains(u) <==> (on_grid(g0, u) && is_vis(s2.visited, u) && at2(s2.tin, p0) <= at2(s2.tin, u)
            < s2.out@[p0]) by {
    }
    assert forall|u: (int, int)|
        #![trigger n.contains(u)]
        n.contains(u) ==> s2.fin(u) && s2.tree@[u] == s2.tree@[p0] && linked(g0, n, p0, u) by {
        if n.contains(u) && u != p0 {
            assert(s1.fin(u));
        }
    }
    if at2(s2.low, p0) != g0.data@.len() {
        let (y, z) = choose|y: (int, int), z: (int, int)|
            #![trigger n.contains(y), at2(s1.tin, z)]
            n.contains(y) && on_grid(g0, z) && is_vis(s1.visited, z) && adjacent(y, z) && at2(s1.tin, z) == at2(
                s1.low,
                p0,
            );
        assert(n.contains(y) && on_grid(g0, z) && is_vis(s2.visited, z) && adjacent(y, z) && at2(s2.tin, z)
            == at2(s2.low, p0));
    }
    assert forall|u: (int, int)|
        #![trigger n.contains(u)]
        n.contains(u) && u != p0 implies exists|c: (int, int)|
            #![trigger s2.span@[c].contains(u)]
            on_grid(g0, c) && s2.par@.dom().contains(c) && s2.par@[c] == p0 && s2.fin(c) && s2.span@[c].contains(
                u,
            ) by {
        let c = choose|c: (int, int)|
            #![trigger s1.span@[c].contains(u)]
            on_grid(g0, c) && s1.par@.dom().contains(c) && s1.par@[c] == p0 && s1.fin(c) && s1.span@[c].contains(
                u,
            );
        assert(c != p0);
        assert(s2.span@[c].contains(u));
    }
    if s2.par@.dom().contains(p0) && cell_at(g0, p0) == Cell::Empty && cell_at(cur, p0) == Cell::Empty {
        assert forall|c: (int, int)|
            #![trigger s2.par@[c]]
            on_grid(g0, c) && is_vis(s2.visited, c) && s2.par@.dom().contains(c) && s2.par@[c] == p0 && s2.fin(
                c,
            ) implies !(at2(s2.low, c) >= at2(s2.tin, p0) && at2(s2.has, c)) by {
            assert(n.contains(c));
            if c == p0 {
                reveal(Connectivity::base_facts);
                assert(at2(s1.tin, s1.par@[p0]) < at2(s1.tin, p0));
            }
            assert(s1.fin(c));
        }
    }
    let om = open_minus(g0, k, n);
    assert(tc0.subset_of(om)) by {
        assert forall|w: (int, int)| tc0.contains(w) implies om.contains(w) by {
            reveal(Connectivity::base_facts);
            assert(is_vis(s1.visited, w));
        }
    }
    assert forall|u: (int, int)|
        #![trigger is_vis(s2.visited, u), s2.tree@[u]]
        on_grid(g0, u) && is_vis(s2.visited, u) && s2.tree@[u] == s2.tree@[p0] && !n.contains(u) implies linked(
        g0,
        om,
        s2.tree@[p0],
        u,
    ) by {
        assert(tc0.contains(u));
        lemma_linked_mono(g0, tc0, om, a, u);
    }
}

/// Returning from the search at `p0` records its span and keeps the forest.
proof fn lemma_exit(
    s1: Connectivity,
    s2: Connectivity,
    g0: Grid,
    cur: Grid,
    p0: (int, int),
    t0: int,
    a: (int, int),
    tc0: Set<(int, int)>,
)
    requires
        s1.forest(g0, cur, a),
        s1.progress(g0, cur, p0, t0, a, tc0),
        s1.times_ok(g0),
        on_grid(g0, p0),
        is_vis(s1.visited, p0),
        !s1.fin(p0),
        s1.tree@[p0] == a,
        at2(s1.tin, p0) == t0,
        s2.color == s1.color,
        s2.visited == s1.visited,
        s2.tin == s1.tin,
        s2.tin_next == s1.tin_next,
        s2.low == s1.low,
        s2.has == s1.has,
        s2.par@ == s1.par@,
        s2.tree@ == s1.tree@,
        s2.out@ == s1.out@.insert(p0, s1.tin_next as int),
        s2.span@ == s1.span@.insert(p0, s1.newly_set(g0, t0)),
    ensures
        s2.forest(g0, cur, a),
        grows(s1, s2, g0, cur, cur),
        s2.fin(p0),
        s2.span@[p0] == s2.newly_set(g0, t0),
{
    s1.lemma_forest_parts(g0, cur, a);
    assert(s2.newly_set(g0, t0) =~= s1.newly_set(g0, t0));
    assert(s2.base_facts(g0)) by {
        reveal(Connectivity::base_facts);
        assert forall|u: (int, int)| #[trigger] s2.fin(u) implies on_grid(g0, u) && is_vis(s2.visited, u) by {
            if u != p0 {
                assert(s1.fin(u));
            }
        }
    }
    assert(grows(s1, s2, g0, cur, cur)) by {
        assert forall|u: (int, int)| #[trigger] s1.fin(u) implies s2.fin(u) && s2.out@[u] == s1.out@[u]
            && s2.span@[u] == s1.span@[u] && at2(s2.low, u) == at2(s1.low, u) && at2(s2.has, u) == at2(s1.has, u)
            && cell_at(cur, u) == cell_at(cur, u) by {
            assert(u != p0);
        }
    }
    assert forall|v: (int, int)| on_grid(g0, v) && #[trigger] s2.fin(v) implies s2.fin_facts(g0, cur, v) by {
        if v != p0 {
            assert(s1.fin(v));
            lemma_fin_frame(s1, s2, g0, cur, cur, v);
        } else {
            lemma_exit_facts(s1, s2, g0, cur, p0, t0, a, tc0);
        }
    }
    assert forall|u: (int, int)|
        on_grid(g0, u) && #[trigger] is_vis(s2.visited, u) && !s2.fin(u) implies s2.tree@[u] == a by {
        assert(!s1.fin(u));
    }
    assert(s2.tree_cells(g0, a) =~= s1.tree_cells(g0, a));
    s2.lemma_forest_build(g0, cur, a);
}

/// A child `p1` of `p0` has returned and `p0` has taken in its low value and
/// flag: the states before the call (`sb`), after it (`sc`) and after the
/// update (`sd`).
#[verifier::opaque]
spec fn child_step(
    sb: Connectivity,
    sc: Connectivity,
    sd: Connectivity,
    g0: Grid,
    cb: Grid,
    cc: Grid,
    cd: Grid,
    p0: (int, int),
    p1: (int, int),
    t0: int,
    a: (int, int),
    tc0: Set<(int, int)>,
) -> bool {
    &&& sb.forest(g0, cb, a)
    &&& sb.progress(g0, cb, p0, t0, a, tc0)
    &&& sb.times_ok(g0)
    &&& on_grid(g0, p0)
    &&& is_vis(sb.visited, p0)
    &&& !sb.fin(p0)
    &&& at2(sb.tin, p0) == t0
    &&& sb.tin_next > t0
    &&& on_grid(g0, p1)
    &&& adjacent(p0, p1)
    &&& !is_vis(sb.visited, p1)
    &&& sc.forest(g0, cc, a)
    &&& grows(sb, sc, g0, cb, cc)
    &&& sc.fin(p1)
    &&& sc.tree@[p1] == a
    &&& sc.par@.dom().contains(p1)
    &&& sc.par@[p1] == p0
    &&& sc.span@[p1] == sc.newly_set(g0, sb.tin_next as int)
    &&& forall|c: (int, int)|
            #[trigger] sc.par@.dom().contains(c) && !sb.par@.dom().contains(c) && c != p1 ==> !is_vis(
                sb.visited,
                sc.par@[c],
            )
    &&& at2(sc.low, p0) == at2(sb.low, p0)
    &&& at2(sc.has, p0) == at2(sb.has, p0)
    &&& cell_at(cc, p0) == cell_at(cb, p0)
    &&& sd.color == sc.color
    &&& sd.visited == sc.visited
    &&& sd.tin == sc.tin
    &&& sd.tin_next == sc.tin_next
    &&& sd.par@ == sc.par@
    &&& sd.tree@ == sc.tree@
    &&& sd.out@ == sc.out@
    &&& sd.span@ == sc.span@
    &&& at2(sd.low, p0) == (if at2(sc.low, p1) < at2(sc.low, p0) {
            at2(sc.low, p1)
        } else {
            at2(sc.low, p0)
        })
    &&& at2(sd.has, p0) == (at2(sc.has, p0) || at2(sc.has, p1))
    &&& forall|u: (int, int)|
            on_grid(g0, u) && u != p0 ==> #[trigger] at2(sd.low, u) == at2(sc.low, u) && at2(sd.has, u) == at2(
                sc.has,
                u,
            )
    &&& forall|u: (int, int)| on_grid(g0, u) && u != p0 ==> #[trigger] cell_at(cd, u) == cell_at(cc, u)
    &&& cell_at(cd, p0) == cell_at(cc, p0) || cell_at(cd, p0) == sd.color
    &&& (sd.par@.dom().contains(p0) && cell_at(g0, p0) == Cell::Empty && cell_at(cd, p0) == Cell::Empty) ==> !(
        at2(sd.low, p1) >= t0 && at2(sd.has, p1))
}

/// How the cells visited since `t0` split after a child `p1` of `p0` returns.
proof fn lemma_child_split(
    sb: Connectivity,
    sc: Connectivity,
    sd: Connectivity,
    g0: Grid,
    cb: Grid,
    cc: Grid,
    cd: Grid,
    p0: (int, int),
    p1: (int, int),
    t0: int,
    a: (int, int),
    tc0: Set<(int, int)>,
)
    requires
        child_step(sb, sc, sd, g0, cb, cc, cd, p0, p1, t0, a, tc0),
    ensures
        forall|u: (int, int)|
            #[trigger] sd.newly_set(g0, t0).contains(u) <==> sb.newly_set(g0, t0).contains(u) || sc.span@[p1].contains(u),
        forall|u: (int, int)| #[trigger] sb.newly_set(g0, t0).contains(u) ==> is_vis(sb.visited, u),
        forall|u: (int, int)| #[trigger] sc.span@[p1].contains(u) ==> !is_vis(sb.visited, u),
        sc.fin_facts(g0, cc, p1),
        sb.base_facts(g0),
        sc.base_facts(g0),
{
    reveal(child_step);
    sb.lemma_forest_parts(g0, cb, a);
    sc.lemma_forest_parts(g0, cc, a);
    assert(sc.fin_facts(g0, cc, p1));
    sc.lemma_unpack(g0, cc, p1);
    let nb = sb.newly_set(g0, t0);
    let nd = sd.newly_set(g0, t0);
    let nc = sc.span@[p1];
    assert forall|u: (int, int)| #[trigger] nd.contains(u) <==> nb.contains(u) || nc.contains(u) by {
        if on_grid(g0, u) && is_vis(sb.visited, u) {
            assert(at2(sb.tin, u) < sb.tin_next);
            assert(is_vis(sc.visited, u));
        }
        if on_grid(g0, u) && is_vis(sc.visited, u) && !is_vis(sb.visited, u) {
            assert(at2(sc.tin, u) >= sb.tin_next);
        }
    }
    assert forall|u: (int, int)| #[trigger] nc.contains(u) implies !is_vis(sb.visited, u) by {
        if on_grid(g0, u) && is_vis(sb.visited, u) {
            assert(at2(sb.tin, u) < sb.tin_next);
        }
    }
}

/// The returned cells and links after a child returns.
#[verifier::rlimit(40)]
proof fn lemma_child_links(
    sb: Connectivity,
    sc: Connectivity,
    sd: Connectivity,
    g0: Grid,
    cb: Grid,
    cc: Grid,
    cd: Grid,
    p0: (int, int),
    p1: (int, int),
    t0: int,
    a: (int, int),
    tc0: Set<(int, int)>,
)
    requires
        child_step(sb, sc, sd, g0, cb, cc, cd, p0, p1, t0, a, tc0),
    ensures
        forall|u: (int, int)|
            #![trigger sd.newly_set(g0, t0).contains(u)]
            sd.newly_set(g0, t0).contains(u) && u != p0 ==> sd.fin(u) && sd.tree@[u] == a,
        forall|u: (int, int)|
            #![trigger sd.newly_set(g0, t0).contains(u)]
            sd.newly_set(g0, t0).contains(u) ==> linked(g0, sd.newly_set(g0, t0), p0, u),
{
    reveal(child_step);
    let k = sb.color;
    sb.lemma_progress_parts(g0, cb, p0, t0, a, tc0);
    lemma_child_split(sb, sc, sd, g0, cb, cc, cd, p0, p1, t0, a, tc0);
    sc.lemma_unpack(g0, cc, p1);
    let nb = sb.newly_set(g0, t0);
    let nd = sd.newly_set(g0, t0);
    let nc = sc.span@[p1];
    assert(sd.span@[p1] == nc);
    assert(nc.contains(p1));
    assert(nd.contains(p1));
    assert(nb.contains(p0));
    // the cells visited since `t0`, other than `p0`, have returned
    assert forall|u: (int, int)| #![trigger nd.contains(u)] nd.contains(u) && u != p0 implies sd.fin(u)
        && sd.tree@[u] == a by {
        if nb.contains(u) {
            assert(sb.fin(u));
            assert(sc.fin(u));
            assert(is_vis(sb.visited, u));
        } else {
            assert(sc.fin(u));
        }
    }
    // links
    lemma_linked_refl(g0, nd, p0);
    lemma_linked_step(g0, nd, p0, p0, p1);
    assert forall|u: (int, int)| #![trigger nd.contains(u)] nd.contains(u) implies linked(g0, nd, p0, u) by {
        if nb.contains(u) {
            lemma_linked_mono(g0, nb, nd, p0, u);
        } else {
            lemma_linked_mono(g0, nc, nd, p1, u);
            lemma_linked_trans(g0, nd, p0, p1, u);
        }
    }
}

/// The low value and flag after a child returns.
#[verifier::rlimit(40)]
proof fn lemma_child_low(
    sb: Connectivity,
    sc: Connectivity,
    sd: Connectivity,
    g0: Grid,
    cb: Grid,
    cc: Grid,
    cd: Grid,
    p0: (int, int),
    p1: (int, int),
    t0: int,
    a: (int, int),
    tc0: Set<(int, int)>,
)
    requires
        child_step(sb, sc, sd, g0, cb, cc, cd, p0, p1, t0, a, tc0),
    ensures
        at2(sd.low, p0) == g0.data@.len() || exists|y: (int, int), z: (int, int)|
            #![trigger sd.newly_set(g0, t0).contains(y), at2(sd.tin, z)]
            sd.newly_set(g0, t0).contains(y) && on_grid(g0, z) && is_vis(sd.visited, z) && adjacent(y, z) && at2(
                sd.tin,
                z,
            ) == at2(sd.low, p0),
        at2(sd.has, p0) <==> exists|u: (int, int)|
            #[trigger] sd.newly_set(g0, t0).contains(u) && cell_at(g0, u) == sd.color,
{
    reveal(child_step);
    let k = sb.color;
    sb.lemma_progress_parts(g0, cb, p0, t0, a, tc0);
    lemma_child_split(sb, sc, sd, g0, cb, cc, cd, p0, p1, t0, a, tc0);
    sc.lemma_unpack(g0, cc, p1);
    let nb = sb.newly_set(g0, t0);
    let nd = sd.newly_set(g0, t0);
    let nc = sc.span@[p1];
    assert(sd.span@[p1] == nc);
    assert(nc.contains(p1));
    assert(nd.contains(p1));
    assert(nb.contains(p0));
    // low value
    if at2(sd.low, p0) != g0.data@.len() {
        if at2(sd.low, p0) == at2(sb.low, p0) {
            let (y, z) = choose|y: (int, int), z: (int, int)|
                #![trigger nb.contains(y), at2(sb.tin, z)]
                nb.contains(y) && on_grid(g0, z) && is_vis(sb.visited, z) && adjacent(y, z) && at2(sb.tin, z)
                    == at2(sb.low, p0);
            assert(nd.contains(y) && on_grid(g0, z) && is_vis(sd.visited, z) && adjacent(y, z) && at2(sd.tin, z)
                == at2(sd.low, p0));
        } else {
            assert(at2(sd.low, p0) == at2(sc.low, p1));
            let (y, z) = choose|y: (int, int), z: (int, int)|
                #![trigger nc.contains(y), at2(sc.tin, z)]
                nc.contains(y) && on_grid(g0, z) && is_vis(sc.visited, z) && adjacent(y, z) && at2(sc.tin, z)
                    == at2(sc.low, p1);
            assert(nd.contains(y) && on_grid(g0, z) && is_vis(sd.visited, z) && adjacent(y, z) && at2(sd.tin, z)
                == at2(sd.low, p0));
        }
    }
    // flag
    if at2(sd.has, p0) {
        if at2(sb.has, p0) {
            let u = choose|u: (int, int)| #[trigger] nb.contains(u) && cell_at(g0, u) == k;
            assert(nd.contains(u));
        } else {
            let u = choose|u: (int, int)| #[trigger] nc.contains(u) && cell_at(g0, u) == k;
            assert(nd.contains(u));
        }
    }
    if exists|u: (int, int)| #[trigger] nd.contains(u) && cell_at(g0, u) == k {
        let u = choose|u: (int, int)| #[trigger] nd.contains(u) && cell_at(g0, u) == k;
        if nb.contains(u) {
            assert(at2(sb.has, p0));
        } else {
            assert(nc.contains(u));
            assert(at2(sc.has, p1));
        }
    }
}

/// The children, the record and the earlier cells after a child returns.
#[verifier::rlimit(80)]
proof fn lemma_child_kids(
    sb: Connectivity,
    sc: Connectivity,
    sd: Connectivity,
    g0: Grid,
    cb: Grid,
    cc: Grid,
    cd: Grid,
    p0: (int, int),
    p1: (int, int),
    t0: int,
    a: (int, int),
    tc0: Set<(int, int)>,
)
    requires
        child_step(sb, sc, sd, g0, cb, cc, cd, p0, p1, t0, a, tc0),
    ensures
        forall|u: (int, int)|
            #![trigger sd.newly_set(g0, t0).contains(u)]
            sd.newly_set(g0, t0).contains(u) && u != p0 ==> exists|c: (int, int)|
                #![trigger sd.span@[c].contains(u)]
                on_grid(g0, c) && sd.par@.dom().contains(c) && sd.par@[c] == p0 && sd.fin(c)
                    && sd.span@[c].contains(u),
        (sd.par@.dom().contains(p0) && cell_at(g0, p0) == Cell::Empty && cell_at(cd, p0) == Cell::Empty)
            ==> forall|c: (int, int)|
            #![trigger sd.par@[c]]
            on_grid(g0, c) && is_vis(sd.visited, c) && sd.par@.dom().contains(c) && sd.par@[c] == p0 && sd.fin(c)
                ==> !(at2(sd.low, c) >= at2(sd.tin, p0) && at2(sd.has, c)),
        forall|c: (int, int)|
            #![trigger sd.par@[c]]
            on_grid(g0, c) && sd.par@.dom().contains(c) && sd.par@[c] == p0 ==> sd.newly_set(g0, t0).contains(c),
        forall|u: (int, int)|
            #![trigger tc0.contains(u)]
            tc0.contains(u) ==> linked(g0, tc0, a, u) && on_grid(g0, u) && is_vis(sd.visited, u) && at2(sd.tin, u)
                < t0,
        forall|u: (int, int)|
            on_grid(g0, u) && #[trigger] is_vis(sd.visited, u) && sd.tree@[u] == a && at2(sd.tin, u) < t0
                ==> tc0.contains(u),
{
    reveal(child_step);
    let k = sb.color;
    sb.lemma_progress_parts(g0, cb, p0, t0, a, tc0);
    lemma_child_split(sb, sc, sd, g0, cb, cc, cd, p0, p1, t0, a, tc0);
    sc.lemma_unpack(g0, cc, p1);
    let nb = sb.newly_set(g0, t0);
    let nd = sd.newly_set(g0, t0);
    let nc = sc.span@[p1];
    assert(sd.span@[p1] == nc);
    assert(nc.contains(p1));
    assert(nd.contains(p1));
    assert(nb.contains(p0));
    // children
    assert forall|u: (int, int)|
        #![trigger nd.contains(u)]
        nd.contains(u) && u != p0 implies exists|c: (int, int)|
            #![trigger sd.span@[c].contains(u)]
            on_grid(g0, c) && sd.par@.dom().contains(c) && sd.par@[c] == p0 && sd.fin(c) && sd.span@[c].contains(
                u,
            ) by {
        if nb.contains(u) {
            let c = choose|c: (int, int)|
                #![trigger sb.span@[c].contains(u)]
                on_grid(g0, c) && sb.par@.dom().contains(c) && sb.par@[c] == p0 && sb.fin(c)
                    && sb.span@[c].contains(u);
            assert(sc.fin(c));
            assert(sd.span@[c].contains(u));
        } else {
            assert(sd.span@[p1].contains(u));
        }
    }
    assert forall|c: (int, int)|
        #![trigger sd.par@[c]]
        on_grid(g0, c) && sd.par@.dom().contains(c) && sd.par@[c] == p0 implies nd.contains(c) by {
        if sb.par@.dom().contains(c) {
            assert(sb.par@[c] == p0);
            assert(nb.contains(c));
        } else if c != p1 {
            assert(!is_vis(sb.visited, sc.par@[c]));
        }
    }
    if sd.par@.dom().contains(p0) && cell_at(g0, p0) == Cell::Empty && cell_at(cd, p0) == Cell::Empty {
        assert(sb.par@.dom().contains(p0)) by {
            if !sb.par@.dom().contains(p0) {
                assert(sc.par@.dom().contains(p0));
                assert(!is_vis(sb.visited, p0));
            }
        }
        sc.lemma_base_at(g0, p0);
        assert forall|c: (int, int)|
            #![trigger sd.par@[c]]
            on_grid(g0, c) && is_vis(sd.visited, c) && sd.par@.dom().contains(c) && sd.par@[c] == p0 && sd.fin(c) implies !(
            at2(sd.low, c) >= at2(sd.tin, p0) && at2(sd.has, c)) by {
            if c != p1 {
                assert(c != p0);
                if sb.par@.dom().contains(c) {
                    assert(sb.par@[c] == p0);
                    assert(nb.contains(c));
                    assert(sb.fin(c));
                    assert(is_vis(sb.visited, c));
                } else {
                    assert(!is_vis(sb.visited, sc.par@[c]));
                }
            }
        }
    }
    // the cells of the tree visited before `p0`
    assert forall|u: (int, int)|
        #![trigger tc0.contains(u)]
        tc0.contains(u) implies linked(g0, tc0, a, u) && on_grid(g0, u) && is_vis(sd.visited, u) && at2(sd.tin, u)
        < t0 by {
        assert(is_vis(sb.visited, u));
    }
    assert forall|u: (int, int)|
        on_grid(g0, u) && #[trigger] is_vis(sd.visited, u) && sd.tree@[u] == a && at2(sd.tin, u) < t0 implies tc0.contains(
        u,
    ) by {
        if !is_vis(sb.visited, u) {
            assert(at2(sc.tin, u) >= sb.tin_next);
        } else {
            assert(sb.tree@[u] == a);
        }
    }
}

/// After the search returns from a child `p1` of `p0`, and `p0` takes the
/// child's low value and flag into its own, the search from `p0` has come a
/// step further.
proof fn lemma_child_progress(
    sb: Connectivity,
    sc: Connectivity,
    sd: Connectivity,
    g0: Grid,
    cb: Grid,
    cc: Grid,
    cd: Grid,
    p0: (int, int),
    p1: (int, int),
    t0: int,
    a: (int, int),
    tc0: Set<(int, int)>,
)
    requires
        child_step(sb, sc, sd, g0, cb, cc, cd, p0, p1, t0, a, tc0),
    ensures
        sd.progress(g0, cd, p0, t0, a, tc0),
{
    lemma_child_links(sb, sc, sd, g0, cb, cc, cd, p0, p1, t0, a, tc0);
    lemma_child_low(sb, sc, sd, g0, cb, cc, cd, p0, p1, t0, a, tc0);
    lemma_child_kids(sb, sc, sd, g0, cb, cc, cd, p0, p1, t0, a, tc0);
    assert(sd.progress(g0, cd, p0, t0, a, tc0)) by {
        reveal(Connectivity::progress);
    }
}

/// After `p0` takes the visit time of a visited neighbour `p1` into its low
/// value, the search from `p0` has come no less far.
proof fn lemma_low_progress(
    sb: Connectivity,
    sd: Connectivity,
    g0: Grid,
    cur: Grid,
    p0: (int, int),
    p1: (int, int),
    t0: int,
    a: (int, int),
    tc0: Set<(int, int)>,
)
    requires
        sb.base_facts(g0),
        sb.progress(g0, cur, p0, t0, a, tc0),
        on_grid(g0, p0),
        is_vis(sb.visited, p0),
        at2(sb.tin, p0) == t0,
        on_grid(g0, p1),
        is_vis(sb.visited, p1),
        adjacent(p0, p1),
        sd.color == sb.color,
        sd.visited == sb.visited,
        sd.tin == sb.tin,
        sd.tin_next == sb.tin_next,
        sd.has == sb.has,
        sd.par@ == sb.par@,
        sd.tree@ == sb.tree@,
        sd.out@ == sb.out@,
        sd.span@ == sb.span@,
        at2(sd.low, p0) == (if at2(sb.tin, p1) < at2(sb.low, p0) {
            at2(sb.tin, p1)
        } else {
            at2(sb.low, p0)
        }),
        forall|u: (int, int)| on_grid(g0, u) && u != p0 ==> #[trigger] at2(sd.low, u) == at2(sb.low, u),
    ensures
        sd.progress(g0, cur, p0, t0, a, tc0),
{
    sb.lemma_progress_parts(g0, cur, p0, t0, a, tc0);
    let n = sb.newly_set(g0, t0);
    assert(sd.newly_set(g0, t0) =~= n);
    assert(n.contains(p0));
    reveal(Connectivity::progress);
    assert forall|u: (int, int)| #![trigger n.contains(u)] n.contains(u) && u != p0 implies sd.fin(u)
        && sd.tree@[u] == a by {
        assert(sb.fin(u));
    }
    if at2(sd.low, p0) != g0.data@.len() && at2(sd.low, p0) == at2(sb.low, p0) {
        let (y, z) = choose|y: (int, int), z: (int, int)|
            #![trigger n.contains(y), at2(sb.tin, z)]
            n.contains(y) && on_grid(g0, z) && is_vis(sb.visited, z) && adjacent(y, z) && at2(sb.tin, z) == at2(
                sb.low,
                p0,
            );
        assert(n.contains(y) && on_grid(g0, z) && is_vis(sd.visited, z) && adjacent(y, z) && at2(sd.tin, z)
            == at2(sd.low, p0));
    }
    if at2(sd.low, p0) != g0.data@.len() && at2(sd.low, p0) != at2(sb.low, p0) {
        assert(n.contains(p0) && on_grid(g0, p1) && is_vis(sd.visited, p1) && adjacent(p0, p1) && at2(sd.tin, p1)
            == at2(sd.low, p0));
    }
    assert forall|u: (int, int)|
        #![trigger n.contains(u)]
        n.contains(u) && u != p0 implies exists|c: (int, int)|
            #![trigger sd.span@[c].contains(u)]
            on_grid(g0, c) && sd.par@.dom().contains(c) && sd.par@[c] == p0 && sd.fin(c) && sd.span@[c].contains(
                u,
            ) by {
        let c = choose|c: (int, int)|
            #![trigger sb.span@[c].contains(u)]
            on_grid(g0, c) && sb.par@.dom().contains(c) && sb.par@[c] == p0 && sb.fin(c) && sb.span@[c].contains(
                u,
            );
        assert(sd.fin(c));
    }
    if sd.par@.dom().contains(p0) && cell_at(g0, p0) == Cell::Empty && cell_at(cur, p0) == Cell::Empty {
        assert forall|c: (int, int)|
            #![trigger sd.par@[c]]
            on_grid(g0, c) && is_vis(sd.visited, c) && sd.par@.dom().contains(c) && sd.par@[c] == p0 && sd.fin(c) implies !(
            at2(sd.low, c) >= at2(sd.tin, p0) && at2(sd.has, c)) by {
            sb.lemma_base_at(g0, c);
            assert(c != p0);
            assert(sb.fin(c));
        }
    }
    assert forall|u: (int, int)|
        on_grid(g0, u) && #[trigger] is_vis(sd.visited, u) && sd.tree@[u] == a && at2(sd.tin, u) < t0 implies tc0.contains(
        u,
    ) by {
        assert(is_vis(sb.visited, u));
    }
}

/// At the start of the search from a new cell `p0`, nothing but `p0` itself
/// has been visited since.
proof fn lemma_start_progress(
    s0: Connectivity,
    s1: Connectivity,
    g0: Grid,
    cur: Grid,
    p0: (int, int),
    up: Option<(int, int)>,
    a: (int, int),
)
    requires
        s0.forest(g0, cur, a),
        s0.times_ok(g0),
        s1.base_facts(g0),
        on_grid(g0, p0),
        !is_vis(s0.visited, p0),
        s1.color == s0.color,
        is_vis(s1.visited, p0),
        forall|u: (int, int)|
            on_grid(g0, u) && u != p0 ==> #[trigger] is_vis(s1.visited, u) == is_vis(s0.visited, u) && at2(
                s1.tin,
                u,
            ) == at2(s0.tin, u),
        at2(s1.tin, p0) == s0.tin_next,
        s1.tin_next == s0.tin_next + 1,
        s1.tree@ == s0.tree@.insert(p0, a),
        up matches Some(u) ==> s1.par@ == s0.par@.insert(p0, u) && u != p0,
        up is None ==> s1.par@ == s0.par@,
        s1.out@ == s0.out@,
        s1.span@ == s0.span@,
        at2(s1.low, p0) == g0.data@.len(),
        at2(s1.has, p0) == (cell_at(g0, p0) == s1.color),
    ensures
        s1.progress(g0, cur, p0, s0.tin_next as int, a, s0.tree_cells(g0, a)),
{
    let t0 = s0.tin_next as int;
    let tc0 = s0.tree_cells(g0, a);
    let n = s1.newly_set(g0, t0);
    s0.lemma_forest_parts(g0, cur, a);
    assert forall|u: (int, int)| n.contains(u) <==> u == p0 by {
        if on_grid(g0, u) && u != p0 && is_vis(s1.visited, u) {
            assert(at2(s0.tin, u) < s0.tin_next);
        }
    }
    assert forall|c: (int, int)|
        on_grid(g0, c) && #[trigger] s1.par@.dom().contains(c) implies s1.par@[c] != p0 by {
        reveal(Connectivity::base_facts);
        if c != p0 {
            assert(s0.par@.dom().contains(c));
            assert(is_vis(s0.visited, s0.par@[c]));
        } else if up is None {
            assert(s0.par@.dom().contains(p0));
        }
    }
    lemma_linked_refl(g0, n, p0);
    reveal(Connectivity::progress);
    assert forall|u: (int, int)| #![trigger n.contains(u)] n.contains(u) implies linked(g0, n, p0, u) by {
    }
    if at2(s1.has, p0) {
        assert(n.contains(p0));
    }
    assert forall|u: (int, int)|
        #![trigger tc0.contains(u)]
        tc0.contains(u) implies linked(g0, tc0, a, u) && on_grid(g0, u) && is_vis(s1.visited, u) && at2(s1.tin, u)
        < t0 by {
        assert(u != p0);
    }
    assert forall|u: (int, int)|
        on_grid(g0, u) && #[trigger] is_vis(s1.visited, u) && s1.tree@[u] == a && at2(s1.tin, u) < t0 implies tc0.contains(
        u,
    ) by {
        assert(u != p0);
    }
}

/// The ghost records of the search from `p0`, entered from `uo` and visited at
/// time `t0` in the tree of `a`, while it runs: measured against the state `s0`
/// and grid `c0` at its entry, with `tc0` the cells of the tree visited before it.
#[verifier::opaque]
spec fn running(
    s: Connectivity,
    s0: Connectivity,
    g0: Grid,
    c0: Grid,
    cur: Grid,
    p0: (int, int),
    uo: Option<(int, int)>,
    t0: int,
    a: (int, int),
    tc0: Set<(int, int)>,
) -> bool {
    &&& s.forest(g0, cur, a)
    &&& s.progress(g0, cur, p0, t0, a, tc0)
    &&& grows(s0, s, g0, c0, cur)
    &&& !s.fin(p0)
    &&& s.tree@[p0] == a
    &&& (uo matches Some(u) ==> s.par@.dom().contains(p0) && s.par@[p0] == u)
    &&& (uo is None ==> !s.par@.dom().contains(p0))
    &&& forall|c: (int, int)|
        #[trigger] s.par@.dom().contains(c) && !s0.par@.dom().contains(c) && c != p0 ==> !is_vis(
            s0.visited,
            s.par@[c],
        )
    &&& forall|u: (int, int)|
        #[trigger] s.fin(u) && !s0.fin(u) ==> on_grid(g0, u) && is_vis(s.visited, u) && !is_vis(s0.visited, u)
    &&& forall|u: (int, int)|
        on_grid(g0, u) && !(is_vis(s.visited, u) && !is_vis(s0.visited, u)) ==> #[trigger] cell_at(cur, u)
            == cell_at(c0, u)
    &&& forall|u: (int, int)|
        on_grid(g0, u) && !is_vis(s.visited, u) ==> #[trigger] at2(s.low, u) == g0.data@.len()
}

/// What a running search at `p0` hands to the search of a new neighbour.
proof fn lemma_run_call(
    s: Connectivity,
    s0: Connectivity,
    g0: Grid,
    c0: Grid,
    cur: Grid,
    p0: (int, int),
    uo: Option<(int, int)>,
    t0: int,
    a: (int, int),
    tc0: Set<(int, int)>,
)
    requires
        running(s, s0, g0, c0, cur, p0, uo, t0, a, tc0),
    ensures
        s.forest(g0, cur, a),
        !s.fin(p0),
        s.tree@[p0] == a,
        forall|u: (int, int)| on_grid(g0, u) && !is_vis(s.visited, u) ==> #[trigger] at2(s.low, u) == g0.data@.len(),
{
    reveal(running);
}

/// Entering the search at `p0` starts its records.
proof fn lemma_run_start(
    s0: Connectivity,
    s1: Connectivity,
    g0: Grid,
    c0: Grid,
    p0: (int, int),
    uo: Option<(int, int)>,
    a: (int, int),
)
    requires
        s0.forest(g0, c0, a),
        s0.times_ok(g0),
        on_grid(g0, p0),
        !is_vis(s0.visited, p0),
        cell_at(g0, p0) != opposite(s0.color),
        on_grid(g0, a),
        cell_at(g0, a) == s0.color,
        uo matches Some(u) ==> on_grid(g0, u) && is_vis(s0.visited, u) && !s0.fin(u) && s0.tree@[u] == a
            && adjacent(u, p0),
        uo is None ==> a == p0 && forall|u: (int, int)|
            on_grid(g0, u) && #[trigger] is_vis(s0.visited, u) ==> s0.fin(u) && s0.tree@[u] != a,
        forall|u: (int, int)| on_grid(g0, u) && !is_vis(s0.visited, u) ==> #[trigger] at2(s0.low, u) == g0.data@.len(),
        s1.color == s0.color,
        is_vis(s1.visited, p0),
        forall|u: (int, int)|
            on_grid(g0, u) && u != p0 ==> #[trigger] is_vis(s1.visited, u) == is_vis(s0.visited, u) && at2(
                s1.tin,
                u,
            ) == at2(s0.tin, u) && at2(s1.has, u) == at2(s0.has, u),
        at2(s1.tin, p0) == s0.tin_next,
        s1.tin_next == s0.tin_next + 1,
        s1.low == s0.low,
        s1.tree@ == s0.tree@.insert(p0, a),
        uo matches Some(u) ==> s1.par@ == s0.par@.insert(p0, u),
        uo is None ==> s1.par@ == s0.par@,
        s1.out@ == s0.out@,
        s1.span@ == s0.span@,
        at2(s1.has, p0) == (cell_at(g0, p0) == s1.color),
    ensures
        running(s1, s0, g0, c0, c0, p0, uo, s0.tin_next as int, a, s0.tree_cells(g0, a)),
{
    s0.lemma_forest_parts(g0, c0, a);
    assert(!s0.fin(p0) && !s0.par@.dom().contains(p0)) by {
        reveal(Connectivity::base_facts);
    }
    if let Some(u) = uo {
        assert(u != p0);
    }
    lemma_entry(s0, s1, g0, c0, p0, uo, a);
    s1.lemma_forest_parts(g0, c0, a);
    lemma_start_progress(s0, s1, g0, c0, p0, uo, a);
    reveal(running);
    assert forall|u: (int, int)|
        on_grid(g0, u) && !is_vis(s1.visited, u) implies #[trigger] at2(s1.low, u) == g0.data@.len() by {
        assert(u != p0);
    }
}

/// Taking the visit time of a visited neighbour `p1` into the low value of
/// `p0` keeps the records of the running search.
proof fn lemma_run_low(
    sb: Connectivity,
    sd: Connectivity,
    s0: Connectivity,
    g0: Grid,
    c0: Grid,
    cur: Grid,
    p0: (int, int),
    p1: (int, int),
    uo: Option<(int, int)>,
    t0: int,
    a: (int, int),
    tc0: Set<(int, int)>,
)
    requires
        running(sb, s0, g0, c0, cur, p0, uo, t0, a, tc0),
        on_grid(g0, p0),
        is_vis(sb.visited, p0),
        at2(sb.tin, p0) == t0,
        on_grid(g0, p1),
        is_vis(sb.visited, p1),
        adjacent(p0, p1),
        sd.color == sb.color,
        sd.visited == sb.visited,
        sd.tin == sb.tin,
        sd.tin_next == sb.tin_next,
        sd.has == sb.has,
        sd.par@ == sb.par@,
        sd.tree@ == sb.tree@,
        sd.out@ == sb.out@,
        sd.span@ == sb.span@,
        at2(sd.low, p0) == (if at2(sb.tin, p1) < at2(sb.low, p0) {
            at2(sb.tin, p1)
        } else {
            at2(sb.low, p0)
        }),
        forall|u: (int, int)| on_grid(g0, u) && u != p0 ==> #[trigger] at2(sd.low, u) == at2(sb.low, u),
    ensures
        running(sd, s0, g0, c0, cur, p0, uo, t0, a, tc0),
{
    reveal(running);
    sb.lemma_forest_parts(g0, cur, a);
    lemma_low_progress(sb, sd, g0, cur, p0, p1, t0, a, tc0);
    lemma_small_change(sb, sd, g0, cur, cur, a, p0);
    lemma_grows_trans(s0, sb, sd, g0, c0, cur, cur);
    assert forall|u: (int, int)|
        on_grid(g0, u) && !is_vis(sd.visited, u) implies #[trigger] at2(sd.low, u) == g0.data@.len() by {
        assert(u != p0);
        assert(at2(sb.low, u) == g0.data@.len());
    }
    assert forall|u: (int, int)|
        #[trigger] sd.fin(u) && !s0.fin(u) implies on_grid(g0, u) && is_vis(sd.visited, u) && !is_vis(
        s0.visited,
        u,
    ) by {
        assert(sb.fin(u));
    }
}

/// After the search of a new neighbour `p1` returns (state `sc`, grid `cc`)
/// and `p0` takes in its low value and flag, filling `p0` where the rule says
/// so (state `sd`, grid `cd`), the records of the search at `p0` still hold.
#[verifier::rlimit(40)]
proof fn lemma_run_child(
    sb: Connectivity,
    sc: Connectivity,
    sd: Connectivity,
    s0: Connectivity,
    g0: Grid,
    c0: Grid,
    cb: Grid,
    cc: Grid,
    cd: Grid,
    p0: (int, int),
    p1: (int, int),
    uo: Option<(int, int)>,
    t0: int,
    a: (int, int),
    tc0: Set<(int, int)>,
)
    requires
        running(sb, s0, g0, c0, cb, p0, uo, t0, a, tc0),
        sb.times_ok(g0),
        on_grid(g0, p0),
        is_vis(sb.visited, p0),
        !is_vis(s0.visited, p0),
        at2(sb.tin, p0) == t0,
        sb.tin_next > t0,
        on_grid(g0, p1),
        adjacent(p0, p1),
        !is_vis(sb.visited, p1),
        sc.forest(g0, cc, a),
        grows(sb, sc, g0, cb, cc),
        sc.fin(p1),
        sc.tree@[p1] == a,
        sc.par@.dom().contains(p1),
        sc.par@[p1] == p0,
        sc.span@[p1] == sc.newly_set(g0, sb.tin_next as int),
        forall|c: (int, int)|
            #[trigger] sc.par@.dom().contains(c) && !sb.par@.dom().contains(c) && c != p1 ==> !is_vis(
                sb.visited,
                sc.par@[c],
            ),
        forall|u: (int, int)|
            #[trigger] sc.fin(u) && !sb.fin(u) ==> on_grid(g0, u) && is_vis(sc.visited, u) && !is_vis(
                sb.visited,
                u,
            ),
        forall|u: (int, int)|
            on_grid(g0, u) && !(is_vis(sc.visited, u) && !is_vis(sb.visited, u)) ==> #[trigger] cell_at(cc, u)
                == cell_at(cb, u),
        forall|u: (int, int)|
            on_grid(g0, u) && !(is_vis(sc.visited, u) && !is_vis(sb.visited, u)) ==> #[trigger] at2(sc.tin, u)
                == at2(sb.tin, u) && at2(sc.low, u) == at2(sb.low, u) && at2(sc.has, u) == at2(sb.has, u),
        sd.color == sc.color,
        sd.visited == sc.visited,
        sd.tin == sc.tin,
        sd.tin_next == sc.tin_next,
        sd.par@ == sc.par@,
        sd.tree@ == sc.tree@,
        sd.out@ == sc.out@,
        sd.span@ == sc.span@,
        at2(sd.low, p0) == (if at2(sc.low, p1) < at2(sc.low, p0) {
            at2(sc.low, p1)
        } else {
            at2(sc.low, p0)
        }),
        at2(sd.has, p0) == (at2(sc.has, p0) || at2(sc.has, p1)),
        forall|u: (int, int)|
            on_grid(g0, u) && u != p0 ==> #[trigger] at2(sd.low, u) == at2(sc.low, u) && at2(sd.has, u) == at2(
                sc.has,
                u,
            ),
        forall|u: (int, int)| on_grid(g0, u) && u != p0 ==> #[trigger] cell_at(cd, u) == cell_at(cc, u),
        cell_at(cd, p0) == cell_at(cc, p0) || cell_at(cd, p0) == sd.color,
        (uo is Some && cell_at(g0, p0) == Cell::Empty && cell_at(cd, p0) == Cell::Empty) ==> !(at2(sd.low, p1)
            >= t0 && at2(sd.has, p1)),
    ensures
        running(sd, s0, g0, c0, cd, p0, uo, t0, a, tc0),
{
    reveal(running);
    sb.lemma_forest_parts(g0, cb, a);
    sc.lemma_forest_parts(g0, cc, a);
    assert(!sc.fin(p0));
    assert(sc.par@.dom().contains(p0) <==> sb.par@.dom().contains(p0));
    assert(sd.par@.dom().contains(p0) ==> uo is Some);
    assert(at2(sc.tin, p0) == at2(sb.tin, p0));
    assert(at2(sc.low, p0) == at2(sb.low, p0) && at2(sc.has, p0) == at2(sb.has, p0) && cell_at(cc, p0)
        == cell_at(cb, p0));
    assert(child_step(sb, sc, sd, g0, cb, cc, cd, p0, p1, t0, a, tc0)) by {
        reveal(child_step);
        assert(forall|c: (int, int)|
            #[trigger] sc.par@.dom().contains(c) && !sb.par@.dom().contains(c) && c != p1 ==> !is_vis(
                sb.visited,
                sc.par@[c],
            ));
        assert(forall|u: (int, int)|
            on_grid(g0, u) && u != p0 ==> #[trigger] at2(sd.low, u) == at2(sc.low, u) && at2(sd.has, u) == at2(
                sc.has,
                u,
            ));
        assert(forall|u: (int, int)| on_grid(g0, u) && u != p0 ==> #[trigger] cell_at(cd, u) == cell_at(cc, u));
    }
    lemma_child_progress(sb, sc, sd, g0, cb, cc, cd, p0, p1, t0, a, tc0);
    lemma_small_change(sc, sd, g0, cc, cd, a, p0);
    lemma_grows_trans(s0, sb, sc, g0, c0, cb, cc);
    lemma_grows_trans(s0, sc, sd, g0, c0, cc, cd);
    assert forall|c: (int, int)|
        #[trigger] sd.par@.dom().contains(c) && !s0.par@.dom().contains(c) && c != p0 implies !is_vis(
        s0.visited,
        sd.par@[c],
    ) by {
        if !sb.par@.dom().contains(c) && c != p1 {
            sc.lemma_par_key(g0, c);
            assert(!is_vis(sb.visited, sc.par@[c]));
        }
    }
    assert forall|u: (int, int)|
        #[trigger] sd.fin(u) && !s0.fin(u) implies on_grid(g0, u) && is_vis(sd.visited, u) && !is_vis(
        s0.visited,
        u,
    ) by {
        assert(sc.fin(u));
        if sb.fin(u) {
            sb.lemma_fin_vis(g0, u);
            assert(is_vis(sb.visited, u));
        }
    }
    assert forall|u: (int, int)|
        on_grid(g0, u) && !(is_vis(sd.visited, u) && !is_vis(s0.visited, u)) implies #[trigger] cell_at(cd, u)
        == cell_at(c0, u) by {
        assert(u != p0);
        if is_vis(sb.visited, u) {
            assert(is_vis(sc.visited, u));
        }
        assert(cell_at(cc, u) == cell_at(cb, u));
    }
    assert forall|u: (int, int)|
        on_grid(g0, u) && !is_vis(sd.visited, u) implies #[trigger] at2(sd.low, u) == g0.data@.len() by {
        assert(u != p0);
        assert(at2(sc.tin, u) == at2(sb.tin, u));
        assert(at2(sc.low, u) == at2(sb.low, u));
    }
}

/// When the search at `p0` returns, recording its end and span, what it
/// leaves behind.
proof fn lemma_run_exit(
    s1: Connectivity,
    s2: Connectivity,
    s0: Connectivity,
    g0: Grid,
    c0: Grid,
    cur: Grid,
    p0: (int, int),
    uo: Option<(int, int)>,
    a: (int, int),
)
    requires
        running(s1, s0, g0, c0, cur, p0, uo, s0.tin_next as int, a, s0.tree_cells(g0, a)),
        s1.times_ok(g0),
        on_grid(g0, p0),
        is_vis(s1.visited, p0),
        !is_vis(s0.visited, p0),
        at2(s1.tin, p0) == s0.tin_next,
        s2.color == s1.color,
        s2.visited == s1.visited,
        s2.tin == s1.tin,
        s2.tin_next == s1.tin_next,
        s2.low == s1.low,
        s2.has == s1.has,
        s2.par@ == s1.par@,
        s2.tree@ == s1.tree@,
        s2.out@ == s1.out@.insert(p0, s1.tin_next as int),
        s2.span@ == s1.span@.insert(p0, s1.newly_set(g0, s0.tin_next as int)),
    ensures
        s2.forest(g0, cur, a),
        grows(s0, s2, g0, c0, cur),
        s2.fin(p0),
        s2.tree@[p0] == a,
        s2.span@[p0] == s2.newly_set(g0, s0.tin_next as int),
        uo matches Some(u) ==> s2.par@.dom().contains(p0) && s2.par@[p0] == u,
        uo is None ==> !s2.par@.dom().contains(p0),
        forall|c: (int, int)|
            #[trigger] s2.par@.dom().contains(c) && !s0.par@.dom().contains(c) && c != p0 ==> !is_vis(
                s0.visited,
                s2.par@[c],
            ),
        forall|u: (int, int)|
            #[trigger] s2.fin(u) && !s0.fin(u) ==> on_grid(g0, u) && is_vis(s2.visited, u) && !is_vis(
                s0.visited,
                u,
            ),
        forall|u: (int, int)|
            on_grid(g0, u) && !(is_vis(s2.visited, u) && !is_vis(s0.visited, u)) ==> #[trigger] cell_at(cur, u)
                == cell_at(c0, u),
        forall|u: (int, int)| on_grid(g0, u) && !is_vis(s2.visited, u) ==> #[trigger] at2(s2.low, u) == g0.data@.len(),
{
    reveal(running);
    lemma_exit(s1, s2, g0, cur, p0, s0.tin_next as int, a, s0.tree_cells(g0, a));
    lemma_grows_trans(s0, s1, s2, g0, c0, cur, cur);
    assert forall|u: (int, int)|
        #[trigger] s2.fin(u) && !s0.fin(u) implies on_grid(g0, u) && is_vis(s2.visited, u) && !is_vis(
        s0.visited,
        u,
    ) by {
        if u != p0 {
            assert(s1.fin(u));
        }
    }
}

spec fn at2<T>(a: Array2<T>, p: (int, int)) -> T {
    a.at(p.0, p.1)
}

/// `z` is the cell the search came from.
spec fn came_from(up: Option<(usize, usize)>, z: (int, int)) -> bool {
    up matches Some(u) && upos(u) == z
}

struct Connectivity {
    color: Cell,
    changed: Vec<(usize, usize, Cell)>,
    visited: Array2<bool>,
    tin: Array2<isize>,
    tin_next: isize,
    low: Array2<isize>,
    has: Array2<bool>,
    /// The cell each visited cell other than a root was reached from.
    par: Ghost<Map<(int, int), (int, int)>>,
    /// The root of the search tree of each visited cell.
    tree: Ghost<Map<(int, int), (int, int)>>,
    /// For each cell whose search has returned, the next visit time then.
    out: Ghost<Map<(int, int), int>>,
    /// For each cell whose search has returned, the cells visited by it.
    span: Ghost<Map<(int, int), Set<(int, int)>>>,
}

impl Connectivity {
    /// The search from `v` has returned.
    spec fn fin(&self, v: (int, int)) -> bool {
        self.out@.dom().contains(v)
    }

    /// The visited cells of the tree rooted at `r`.
    spec fn tree_cells(&self, g0: Grid, r: (int, int)) -> Set<(int, int)> {
        Set::new(|u: (int, int)| on_grid(g0, u) && is_vis(self.visited, u) && self.tree@[u] == r)
    }

    /// Every visited cell is open, with a root of the colour; a cell reached
    /// from another was visited after it; a returned search visited its cell.
    #[verifier::opaque]
    spec fn base_facts(&self, g0: Grid) -> bool {
        let k = self.color;
        &&& forall|u: (int, int)|
            on_grid(g0, u) && #[trigger] is_vis(self.visited, u) ==> cell_at(g0, u) != opposite(k)
                && self.tree@.dom().contains(u) && on_grid(g0, self.tree@[u]) && is_vis(
                self.visited,
                self.tree@[u],
            ) && cell_at(g0, self.tree@[u]) == k
        &&& forall|u: (int, int)|
            on_grid(g0, u) && #[trigger] is_vis(self.visited, u) && self.par@.dom().contains(u) ==> on_grid(
                g0,
                self.par@[u],
            ) && is_vis(self.visited, self.par@[u]) && at2(self.tin, self.par@[u]) < at2(self.tin, u)
        &&& forall|u: (int, int)| #[trigger] self.fin(u) ==> on_grid(g0, u) && is_vis(self.visited, u)
        &&& forall|c: (int, int)|
            #[trigger] self.par@.dom().contains(c) ==> on_grid(g0, c) && is_vis(self.visited, c)
        &&& forall|u: (int, int)|
            on_grid(g0, u) && #[trigger] is_vis(self.visited, u) && !self.par@.dom().contains(u) ==> self.tree@[u]
                == u
    }

    /// What holds of a cell `v` whose search has returned: its span is the
    /// cells visited meanwhile, all returned, in its tree, and linked to it
    /// within the span; its low value is the visit time of a neighbour of the
    /// span (or the initial bound); its flag tells whether the span holds the
    /// colour; each other cell of the span lies in the span of a child; while
    /// it stays empty, no child's span holds the colour without a way above
    /// it; and every other cell of its tree is linked to the root avoiding the
    /// span.
    #[verifier::opaque]
    spec fn fin_facts(&self, g0: Grid, cur: Grid, v: (int, int)) -> bool {
        let k = self.color;
        let sp = self.span@[v];
        &&& sp.contains(v)
        &&& self.out@[v] <= self.tin_next
        &&& forall|u: (int, int)|
            #![trigger sp.contains(u)]
            sp.contains(u) <==> (on_grid(g0, u) && is_vis(self.visited, u) && at2(self.tin, v) <= at2(
                self.tin,
                u,
            ) < self.out@[v])
        &&& forall|c: (int, int)|
            #![trigger self.par@[c]]
            on_grid(g0, c) && self.par@.dom().contains(c) && self.par@[c] == v ==> sp.contains(c)
        &&& forall|u: (int, int)|
            #![trigger sp.contains(u)]
            sp.contains(u) ==> self.fin(u) && self.tree@[u] == self.tree@[v] && linked(g0, sp, v, u)
        &&& (at2(self.low, v) == g0.data@.len() || exists|y: (int, int), z: (int, int)|
            #![trigger sp.contains(y), at2(self.tin, z)]
            sp.contains(y) && on_grid(g0, z) && is_vis(self.visited, z) && adjacent(y, z) && at2(self.tin, z)
                == at2(self.low, v))
        &&& (at2(self.has, v) <==> exists|u: (int, int)| #[trigger] sp.contains(u) && cell_at(g0, u) == k)
        &&& forall|u: (int, int)|
            #![trigger sp.contains(u)]
            sp.contains(u) && u != v ==> exists|c: (int, int)|
                #![trigger self.span@[c].contains(u)]
                on_grid(g0, c) && self.par@.dom().contains(c) && self.par@[c] == v && self.fin(c)
                    && self.span@[c].contains(u)
        &&& (self.par@.dom().contains(v) && cell_at(g0, v) == Cell::Empty && cell_at(cur, v) == Cell::Empty)
            ==> forall|c: (int, int)|
            #![trigger self.par@[c]]
            on_grid(g0, c) && is_vis(self.visited, c) && self.par@.dom().contains(c) && self.par@[c] == v
                && self.fin(c) ==> !(at2(self.low, c) >= at2(self.tin, v) && at2(self.has, c))
        &&& forall|u: (int, int)|
            #![trigger is_vis(self.visited, u), self.tree@[u]]
            on_grid(g0, u) && is_vis(self.visited, u) && self.tree@[u] == self.tree@[v] && !sp.contains(u)
                ==> linked(g0, open_minus(g0, k, sp), self.tree@[v], u)
    }

    /// The facts of a returned search, one by one.
    proof fn lemma_unpack(&self, g0: Grid, cur: Grid, v: (int, int))
        requires
            self.fin_facts(g0, cur, v),
        ensures
            self.span@[v].contains(v),
            self.out@[v] <= self.tin_next,
            forall|u: (int, int)|
                #![trigger self.span@[v].contains(u)]
                self.span@[v].contains(u) <==> (on_grid(g0, u) && is_vis(self.visited, u) && at2(self.tin, v)
                    <= at2(self.tin, u) < self.out@[v]),
            forall|c: (int, int)|
                #![trigger self.par@[c]]
                on_grid(g0, c) && self.par@.dom().contains(c) && self.par@[c] == v ==> self.span@[v].contains(c),
            forall|u: (int, int)|
                #![trigger self.span@[v].contains(u)]
                self.span@[v].contains(u) ==> self.fin(u) && self.tree@[u] == self.tree@[v] && linked(
                    g0,
                    self.span@[v],
                    v,
                    u,
                ),
            at2(self.low, v) == g0.data@.len() || exists|y: (int, int), z: (int, int)|
                #![trigger self.span@[v].contains(y), at2(self.tin, z)]
                self.span@[v].contains(y) && on_grid(g0, z) && is_vis(self.visited, z) && adjacent(y, z)
                    && at2(self.tin, z) == at2(self.low, v),
            at2(self.has, v) <==> exists|u: (int, int)|
                #[trigger] self.span@[v].contains(u) && cell_at(g0, u) == self.color,
            forall|u: (int, int)|
                #![trigger self.span@[v].contains(u)]
                self.span@[v].contains(u) && u != v ==> exists|c: (int, int)|
                    #![trigger self.span@[c].contains(u)]
                    on_grid(g0, c) && self.par@.dom().contains(c) && self.par@[c] == v && self.fin(c)
                        && self.span@[c].contains(u),
            (self.par@.dom().contains(v) && cell_at(g0, v) == Cell::Empty && cell_at(cur, v) == Cell::Empty)
                ==> forall|c: (int, int)|
                #![trigger self.par@[c]]
                on_grid(g0, c) && is_vis(self.visited, c) && self.par@.dom().contains(c) && self.par@[c] == v
                    && self.fin(c) ==> !(at2(self.low, c) >= at2(self.tin, v) && at2(self.has, c)),
            forall|u: (int, int)|
                #![trigger is_vis(self.visited, u), self.tree@[u]]
                on_grid(g0, u) && is_vis(self.visited, u) && self.tree@[u] == self.tree@[v] && !self.span@[
                    v
                ].contains(u) ==> linked(g0, open_minus(g0, self.color, self.span@[v]), self.tree@[v], u),
    {
        reveal(Connectivity::fin_facts);
    }

    /// Everything known of the search in progress in the tree rooted at `a`:
    /// the base facts, the facts of every returned search, every search not
    /// returned is in the tree of `a`, whose cells are linked to `a` within it,
    /// and every other tree is closed.
    #[verifier::opaque]
    spec fn forest(&self, g0: Grid, cur: Grid, a: (int, int)) -> bool {
        &&& self.base_facts(g0)
        &&& forall|v: (int, int)| on_grid(g0, v) && #[trigger] self.fin(v) ==> self.fin_facts(g0, cur, v)
        &&& forall|u: (int, int)|
            on_grid(g0, u) && #[trigger] is_vis(self.visited, u) && !self.fin(u) ==> self.tree@[u] == a
        &&& forall|u: (int, int)|
            on_grid(g0, u) && #[trigger] is_vis(self.visited, u) && self.tree@[u] == a ==> linked(
                g0,
                self.tree_cells(g0, a),
                a,
                u,
            )
        &&& forall|u: (int, int), q: (int, int)|
            #![trigger is_vis(self.visited, u), is_vis(self.visited, q)]
            on_grid(g0, u) && on_grid(g0, q) && is_vis(self.visited, u) && self.tree@[u] != a && adjacent(u, q)
                && cell_at(g0, q) != opposite(self.color) ==> is_vis(self.visited, q) && self.tree@[q]
                == self.tree@[u]
    }

    /// The parts of [`Connectivity::forest`], one by one.
    proof fn lemma_forest_parts(&self, g0: Grid, cur: Grid, a: (int, int))
        requires
            self.forest(g0, cur, a),
        ensures
            self.base_facts(g0),
            forall|v: (int, int)| on_grid(g0, v) && #[trigger] self.fin(v) ==> self.fin_facts(g0, cur, v),
            forall|u: (int, int)|
                on_grid(g0, u) && #[trigger] is_vis(self.visited, u) && !self.fin(u) ==> self.tree@[u] == a,
            forall|u: (int, int)|
                on_grid(g0, u) && #[trigger] is_vis(self.visited, u) && self.tree@[u] == a ==> linked(
                    g0,
                    self.tree_cells(g0, a),
                    a,
                    u,
                ),
            forall|u: (int, int), q: (int, int)|
                #![trigger is_vis(self.visited, u), is_vis(self.visited, q)]
                on_grid(g0, u) && on_grid(g0, q) && is_vis(self.visited, u) && self.tree@[u] != a && adjacent(
                    u,
                    q,
                ) && cell_at(g0, q) != opposite(self.color) ==> is_vis(self.visited, q) && self.tree@[q]
                    == self.tree@[u],
    {
        reveal(Connectivity::forest);
    }

    /// Assembles [`Connectivity::forest`] from its parts.
    proof fn lemma_forest_build(&self, g0: Grid, cur: Grid, a: (int, int))
        requires
            self.base_facts(g0),
            forall|v: (int, int)| on_grid(g0, v) && #[trigger] self.fin(v) ==> self.fin_facts(g0, cur, v),
            forall|u: (int, int)|
                on_grid(g0, u) && #[trigger] is_vis(self.visited, u) && !self.fin(u) ==> self.tree@[u] == a,
            forall|u: (int, int)|
                on_grid(g0, u) && #[trigger] is_vis(self.visited, u) && self.tree@[u] == a ==> linked(
                    g0,
                    self.tree_cells(g0, a),
                    a,
                    u,
                ),
            forall|u: (int, int), q: (int, int)|
                #![trigger is_vis(self.visited, u), is_vis(self.visited, q)]
                on_grid(g0, u) && on_grid(g0, q) && is_vis(self.visited, u) && self.tree@[u] != a && adjacent(
                    u,
                    q,
                ) && cell_at(g0, q) != opposite(self.color) ==> is_vis(self.visited, q) && self.tree@[q]
                    == self.tree@[u],
        ensures
            self.forest(g0, cur, a),
    {
        reveal(Connectivity::forest);
    }

    /// The cells visited at time `t0` or later.
    spec fn newly_set(&self, g0: Grid, t0: int) -> Set<(int, int)> {
        Set::new(|u: (int, int)| on_grid(g0, u) && is_vis(self.visited, u) && at2(self.tin, u) >= t0)
    }

    /// How far the search from `p0`, visited at time `t0` in the tree of `a`,
    /// has come: what [`Connectivity::fin_facts`] will say of it once it
    /// returns, for the cells visited so far; and `tc0`, the cells of the tree
    /// visited before `p0`, linked to `a` within themselves.
    #[verifier::opaque]
    spec fn progress(
        &self,
        g0: Grid,
        cur: Grid,
        p0: (int, int),
        t0: int,
        a: (int, int),
        tc0: Set<(int, int)>,
    ) -> bool {
        let n = self.newly_set(g0, t0);
        &&& forall|u: (int, int)|
            #![trigger n.contains(u)]
            n.contains(u) && u != p0 ==> self.fin(u) && self.tree@[u] == a
        &&& forall|u: (int, int)| #![trigger n.contains(u)] n.contains(u) ==> linked(g0, n, p0, u)
        &&& (at2(self.low, p0) == g0.data@.len() || exists|y: (int, int), z: (int, int)|
            #![trigger n.contains(y), at2(self.tin, z)]
            n.contains(y) && on_grid(g0, z) && is_vis(self.visited, z) && adjacent(y, z) && at2(self.tin, z)
                == at2(self.low, p0))
        &&& (at2(self.has, p0) <==> exists|u: (int, int)| #[trigger] n.contains(u) && cell_at(g0, u) == self.color)
        &&& forall|u: (int, int)|
            #![trigger n.contains(u)]
            n.contains(u) && u != p0 ==> exists|c: (int, int)|
                #![trigger self.span@[c].contains(u)]
                on_grid(g0, c) && self.par@.dom().contains(c) && self.par@[c] == p0 && self.fin(c)
                    && self.span@[c].contains(u)
        &&& (self.par@.dom().contains(p0) && cell_at(g0, p0) == Cell::Empty && cell_at(cur, p0) == Cell::Empty)
            ==> forall|c: (int, int)|
            #![trigger self.par@[c]]
            on_grid(g0, c) && is_vis(self.visited, c) && self.par@.dom().contains(c) && self.par@[c] == p0
                && self.fin(c) ==> !(at2(self.low, c) >= at2(self.tin, p0) && at2(self.has, c))
        &&& forall|c: (int, int)|
            #![trigger self.par@[c]]
            on_grid(g0, c) && self.par@.dom().contains(c) && self.par@[c] == p0 ==> n.contains(c)
        &&& forall|u: (int, int)|
            #![trigger tc0.contains(u)]
            tc0.contains(u) ==> linked(g0, tc0, a, u) && on_grid(g0, u) && is_vis(self.visited, u) && at2(
                self.tin,
                u,
            ) < t0
        &&& forall|u: (int, int)|
            on_grid(g0, u) && #[trigger] is_vis(self.visited, u) && self.tree@[u] == a && at2(self.tin, u) < t0
                ==> tc0.contains(u)
    }

    /// The parts of [`Connectivity::progress`], one by one.
    proof fn lemma_progress_parts(
        &self,
        g0: Grid,
        cur: Grid,
        p0: (int, int),
        t0: int,
        a: (int, int),
        tc0: Set<(int, int)>,
    )
        requires
            self.progress(g0, cur, p0, t0, a, tc0),
        ensures
            forall|u: (int, int)|
                #![trigger self.newly_set(g0, t0).contains(u)]
                self.newly_set(g0, t0).contains(u) && u != p0 ==> self.fin(u) && self.tree@[u] == a,
            forall|u: (int, int)|
                #![trigger self.newly_set(g0, t0).contains(u)]
                self.newly_set(g0, t0).contains(u) ==> linked(g0, self.newly_set(g0, t0), p0, u),
            at2(self.low, p0) == g0.data@.len() || exists|y: (int, int), z: (int, int)|
                #![trigger self.newly_set(g0, t0).contains(y), at2(self.tin, z)]
                self.newly_set(g0, t0).contains(y) && on_grid(g0, z) && is_vis(self.visited, z) && adjacent(y, z)
                    && at2(self.tin, z) == at2(self.low, p0),
            at2(self.has, p0) <==> exists|u: (int, int)|
                #[trigger] self.newly_set(g0, t0).contains(u) && cell_at(g0, u) == self.color,
            forall|u: (int, int)|
                #![trigger self.newly_set(g0, t0).contains(u)]
                self.newly_set(g0, t0).contains(u) && u != p0 ==> exists|c: (int, int)|
                    #![trigger self.span@[c].contains(u)]
                    on_grid(g0, c) && self.par@.dom().contains(c) && self.par@[c] == p0 && self.fin(c)
                        && self.span@[c].contains(u),
            (self.par@.dom().contains(p0) && cell_at(g0, p0) == Cell::Empty && cell_at(cur, p0) == Cell::Empty)
                ==> forall|c: (int, int)|
                #![trigger self.par@[c]]
                on_grid(g0, c) && is_vis(self.visited, c) && self.par@.dom().contains(c) && self.par@[c] == p0
                    && self.fin(c) ==> !(at2(self.low, c) >= at2(self.tin, p0) && at2(self.has, c)),
            forall|c: (int, int)|
                #![trigger self.par@[c]]
                on_grid(g0, c) && self.par@.dom().contains(c) && self.par@[c] == p0 ==> self.newly_set(
                    g0,
                    t0,
                ).contains(c),
            forall|u: (int, int)|
                #![trigger tc0.contains(u)]
                tc0.contains(u) ==> linked(g0, tc0, a, u) && on_grid(g0, u) && is_vis(self.visited, u) && at2(
                    self.tin,
                    u,
                ) < t0,
            forall|u: (int, int)|
                on_grid(g0, u) && #[trigger] is_vis(self.visited, u) && self.tree@[u] == a && at2(self.tin, u)
                    < t0 ==> tc0.contains(u),
    {
        reveal(Connectivity::progress);
    }

    /// Every search has returned and the trees are closed: an open neighbour
    /// of a visited cell was visited in the same tree.
    #[verifier::opaque]
    spec fn settled(&self, g0: Grid, cur: Grid) -> bool {
        &&& self.base_facts(g0)
        &&& forall|v: (int, int)|
            on_grid(g0, v) && #[trigger] is_vis(self.visited, v) ==> self.fin(v) && self.fin_facts(g0, cur, v)
        &&& forall|u: (int, int), q: (int, int)|
            #![trigger is_vis(self.visited, u), is_vis(self.visited, q)]
            on_grid(g0, u) && on_grid(g0, q) && is_vis(self.visited, u) && adjacent(u, q) && cell_at(g0, q)
                != opposite(self.color) ==> is_vis(self.visited, q) && self.tree@[q] == self.tree@[u]
    }

    /// Settled, and every cell of the colour was visited.
    #[verifier::opaque]
    spec fn closed_forest(&self, g0: Grid, cur: Grid) -> bool {
        &&& self.settled(g0, cur)
        &&& forall|u: (int, int)|
            on_grid(g0, u) && #[trigger] cell_at(g0, u) == self.color ==> is_vis(self.visited, u)
    }

    /// A settled state is a forest for a new root `x`, and no visited cell
    /// lies in its tree.
    proof fn lemma_settled_root(&self, g0: Grid, cur: Grid, x: (int, int))
        requires
            self.settled(g0, cur),
            on_grid(g0, x),
            !is_vis(self.visited, x),
        ensures
            self.forest(g0, cur, x),
            forall|u: (int, int)|
                on_grid(g0, u) && #[trigger] is_vis(self.visited, u) ==> self.fin(u) && self.tree@[u] != x,
    {
        reveal(Connectivity::settled);
        assert forall|u: (int, int)|
            on_grid(g0, u) && #[trigger] is_vis(self.visited, u) implies self.fin(u) && self.tree@[u] != x by {
            self.lemma_base_at(g0, u);
        }
        assert forall|v: (int, int)| on_grid(g0, v) && #[trigger] self.fin(v) implies self.fin_facts(g0, cur, v) by {
            self.lemma_fin_vis(g0, v);
        }
        assert(forall|u: (int, int)|
            on_grid(g0, u) && #[trigger] is_vis(self.visited, u) && !self.fin(u) ==> self.tree@[u] == x);
        assert(forall|u: (int, int)|
            on_grid(g0, u) && #[trigger] is_vis(self.visited, u) && self.tree@[u] == x ==> linked(
                g0,
                self.tree_cells(g0, x),
                x,
                u,
            ));
        self.lemma_forest_build(g0, cur, x);
    }

    /// After the search from a new root `x` returns, the state is settled
    /// again.
    proof fn lemma_settle(s0: Connectivity, s1: Connectivity, g0: Grid, c0: Grid, c1: Grid, x: (int, int))
        requires
            s0.settled(g0, c0),
            on_grid(g0, x),
            !is_vis(s0.visited, x),
            s1.forest(g0, c1, x),
            grows(s0, s1, g0, c0, c1),
            s1.fin(x),
            s1.tree@[x] == x,
            s1.span@[x] == s1.newly_set(g0, s0.tin_next as int),
            forall|p: (int, int)|
                on_grid(g0, p) && #[trigger] is_vis(s1.visited, p) && !is_vis(s0.visited, p) ==> at2(s1.tin, p)
                    >= s0.tin_next,
            forall|p: (int, int), q: (int, int)|
                #![trigger is_vis(s1.visited, p), is_vis(s1.visited, q)]
                on_grid(g0, p) && on_grid(g0, q) && is_vis(s1.visited, p) && !is_vis(s0.visited, p) && adjacent(
                    p,
                    q,
                ) && cell_at(g0, q) != opposite(s1.color) ==> is_vis(s1.visited, q),
        ensures
            s1.settled(g0, c1),
    {
        reveal(Connectivity::settled);
        s1.lemma_forest_parts(g0, c1, x);
        s1.lemma_unpack(g0, c1, x);
        let sp = s1.span@[x];
        assert forall|v: (int, int)|
            on_grid(g0, v) && #[trigger] is_vis(s1.visited, v) implies s1.fin(v) && s1.fin_facts(g0, c1, v) by {
            if !is_vis(s0.visited, v) {
                assert(sp.contains(v));
            } else {
                assert(s0.fin(v));
            }
        }
        assert forall|u: (int, int), q: (int, int)|
            #![trigger is_vis(s1.visited, u), is_vis(s1.visited, q)]
            on_grid(g0, u) && on_grid(g0, q) && is_vis(s1.visited, u) && adjacent(u, q) && cell_at(g0, q)
                != opposite(s1.color) implies is_vis(s1.visited, q) && s1.tree@[q] == s1.tree@[u] by {
            if is_vis(s0.visited, u) {
                assert(is_vis(s0.visited, q) && s0.tree@[q] == s0.tree@[u]);
            } else {
                assert(is_vis(s1.visited, q));
                if is_vis(s0.visited, q) {
                    s1.lemma_base_at(g0, u);
                    assert(adjacent(q, u));
                    assert(is_vis(s0.visited, u));
                } else {
                    assert(sp.contains(u));
                    assert(sp.contains(q));
                }
            }
        }
    }

    spec fn wf(&self, grid: Grid) -> bool {
        &&& grid.wf()
        &&& self.visited.wf()
        &&& self.tin.wf()
        &&& self.low.wf()
        &&& self.has.wf()
        &&& self.visited.rows == grid.rows && self.visited.cols == grid.cols
        &&& self.tin.rows == grid.rows && self.tin.cols == grid.cols
        &&& self.low.rows == grid.rows && self.low.cols == grid.cols
        &&& self.has.rows == grid.rows && self.has.cols == grid.cols
        &&& self.color == Cell::Black || self.color == Cell::White
        &&& self.tin_next >= 1
        &&& self.tin_next + count_eq(self.visited.data@, false) == grid.data@.len() + 1
    }

    spec fn fills_ok(&self, g0: Grid, grid: Grid) -> bool {
        &&& only_fills(g0, grid)
        &&& fills_with(g0, grid, self.color)
        &&& lists_fills(g0, grid, self.changed@)
        &&& self.changed@.len() == 0 ==> grid == g0
    }

    fn new(grid: &Grid, color: Cell) -> (res: Connectivity)
        requires
            grid.wf(),
            color == Cell::Black || color == Cell::White,
        ensures
            res.wf(*grid),
            res.color == color,
            res.changed@.len() == 0,
            forall|i: int| 0 <= i < res.visited.data@.len() ==> !res.visited.data@[i],
            forall|u: (int, int)| on_grid(*grid, u) ==> #[trigger] at2(res.low, u) == grid.data@.len(),
            res.par@ == Map::<(int, int), (int, int)>::empty(),
            res.out@ == Map::<(int, int), int>::empty(),
    {
        let visited = grid.dup_filled(false);
        let tin = grid.dup_filled(0isize);
        let lim = grid.dup_filled(grid.len() as isize);
        let has = grid.dup_filled(false);
        proof {
            lemma_count_all(visited.data@, false);
            assert forall|u: (int, int)| on_grid(*grid, u) implies #[trigger] at2(lim, u) == grid.data@.len() by {
                lemma_index_bounds(grid.rows as int, grid.cols as int, u.0, u.1);
            }
        }
        Connectivity {
            color,
            changed: Vec::new(),
            visited,
            tin,
            tin_next: 1,
            low: lim,
            has,
            par: Ghost(Map::empty()),
            tree: Ghost(Map::empty()),
            out: Ghost(Map::empty()),
            span: Ghost(Map::empty()),
        }
    }

    /// Before any search, the state is settled.
    proof fn lemma_settled_start(&self, g0: Grid, cur: Grid)
        requires
            g0.wf(),
            self.visited.rows == g0.rows,
            self.visited.cols == g0.cols,
            forall|i: int| 0 <= i < self.visited.data@.len() ==> !self.visited.data@[i],
            self.visited.data@.len() == g0.data@.len(),
            self.par@ == Map::<(int, int), (int, int)>::empty(),
            self.out@ == Map::<(int, int), int>::empty(),
        ensures
            self.settled(g0, cur),
    {
        assert forall|u: (int, int)| on_grid(g0, u) implies !#[trigger] is_vis(self.visited, u) by {
            lemma_index_bounds(g0.rows as int, g0.cols as int, u.0, u.1);
        }
        assert(self.base_facts(g0)) by {
            reveal(Connectivity::base_facts);
        }
        reveal(Connectivity::settled);
    }

    /// The base facts at a visited cell `u`.
    proof fn lemma_base_at(&self, g0: Grid, u: (int, int))
        requires
            self.base_facts(g0),
            on_grid(g0, u),
            is_vis(self.visited, u),
        ensures
            cell_at(g0, u) != opposite(self.color),
            self.tree@.dom().contains(u),
            on_grid(g0, self.tree@[u]),
            is_vis(self.visited, self.tree@[u]),
            cell_at(g0, self.tree@[u]) == self.color,
            self.par@.dom().contains(u) ==> on_grid(g0, self.par@[u]) && is_vis(self.visited, self.par@[u])
                && at2(self.tin, self.par@[u]) < at2(self.tin, u),
            !self.par@.dom().contains(u) ==> self.tree@[u] == u,
    {
        reveal(Connectivity::base_facts);
    }

    /// A cell reached from another, and that other cell, were visited.
    proof fn lemma_par_key(&self, g0: Grid, c: (int, int))
        requires
            self.base_facts(g0),
            self.par@.dom().contains(c),
        ensures
            on_grid(g0, c),
            is_vis(self.visited, c),
            on_grid(g0, self.par@[c]),
            is_vis(self.visited, self.par@[c]),
    {
        reveal(Connectivity::base_facts);
    }

    /// A cell whose search has returned was visited.
    proof fn lemma_fin_vis(&self, g0: Grid, u: (int, int))
        requires
            self.base_facts(g0),
            self.fin(u),
        ensures
            on_grid(g0, u),
            is_vis(self.visited, u),
    {
        reveal(Connectivity::base_facts);
    }

    /// What a closed forest says of the cells `u` and `q`.
    proof fn lemma_forest_at(&self, g0: Grid, cur: Grid, u: (int, int), q: (int, int))
        requires
            self.closed_forest(g0, cur),
            on_grid(g0, u),
            on_grid(g0, q),
        ensures
            self.base_facts(g0),
            is_vis(self.visited, u) ==> self.fin(u) && self.fin_facts(g0, cur, u),
            is_vis(self.visited, u) && adjacent(u, q) && cell_at(g0, q) != opposite(self.color) ==> is_vis(
                self.visited,
                q,
            ) && self.tree@[q] == self.tree@[u],
            cell_at(g0, u) == self.color ==> is_vis(self.visited, u),
    {
        reveal(Connectivity::closed_forest);
        reveal(Connectivity::settled);
    }

    /// In a closed forest, while an empty cell `x` other than a root stays
    /// empty, each cell of the colour in its tree is joined to the root by a
    /// path avoiding `x`.
    proof fn lemma_reaches_root(&self, g0: Grid, cur: Grid, x: (int, int), w: (int, int))
        requires
            g0.wf(),
            self.closed_forest(g0, cur),
            self.times_ok(g0),
            self.tin_next <= g0.data@.len() + 1,
            on_grid(g0, x),
            is_vis(self.visited, x),
            self.par@.dom().contains(x),
            cell_at(g0, x) == Cell::Empty,
            cell_at(cur, x) == Cell::Empty,
            on_grid(g0, w),
            cell_at(g0, w) == self.color,
            self.tree@[w] == self.tree@[x],
        ensures
            joined(g0, self.color, Some(x), self.tree@[x], w),
    {
        let k = self.color;
        let r = self.tree@[x];
        let spx = self.span@[x];
        self.lemma_forest_at(g0, cur, x, x);
        self.lemma_forest_at(g0, cur, w, w);
        self.lemma_unpack(g0, cur, x);
        self.lemma_base_at(g0, x);
        let okx = open_minus(g0, k, spx);
        assert forall|q: (int, int)| on_grid(g0, q) && #[trigger] okx.contains(q) implies open_cell(g0, k, Some(x), q) by {
            assert(spx.contains(x));
        }
        if !spx.contains(w) {
            assert(linked(g0, okx, r, w));
            lemma_linked_joined(g0, okx, k, Some(x), r, w);
        } else {
            assert(w != x);
            let c = choose|c: (int, int)|
                #![trigger self.span@[c].contains(w)]
                on_grid(g0, c) && self.par@.dom().contains(c) && self.par@[c] == x && self.fin(c)
                    && self.span@[c].contains(w);
            let spc = self.span@[c];
            self.lemma_fin_vis(g0, c);
            self.lemma_base_at(g0, c);
            self.lemma_forest_at(g0, cur, c, c);
            self.lemma_unpack(g0, cur, c);
            assert(at2(self.has, c));
            assert(at2(self.tin, x) < at2(self.tin, c));
            assert(!(at2(self.low, c) >= at2(self.tin, x) && at2(self.has, c)));
            assert(at2(self.tin, x) < self.tin_next);
            assert(at2(self.low, c) != g0.data@.len());
            let (y, z) = choose|y: (int, int), z: (int, int)|
                #![trigger spc.contains(y), at2(self.tin, z)]
                spc.contains(y) && on_grid(g0, z) && is_vis(self.visited, z) && adjacent(y, z) && at2(self.tin, z)
                    == at2(self.low, c);
            assert(self.tree@[y] == self.tree@[c]);
            assert(self.tree@[w] == self.tree@[c]);
            assert(is_vis(self.visited, y));
            self.lemma_base_at(g0, z);
            self.lemma_forest_at(g0, cur, y, z);
            assert(self.tree@[z] == self.tree@[y]);
            assert(!spx.contains(z));
            assert(linked(g0, okx, r, z));
            lemma_linked_joined(g0, okx, k, Some(x), r, z);
            assert(!spc.contains(x));
            self.lemma_base_at(g0, y);
            assert(open_cell(g0, k, Some(x), y));
            assert(adjacent(z, y));
            lemma_joined_step(g0, k, Some(x), r, z, y);
            assert forall|q: (int, int)| on_grid(g0, q) && #[trigger] spc.contains(q) implies open_cell(
                g0,
                k,
                Some(x),
                q,
            ) by {
                self.lemma_base_at(g0, q);
            }
            assert(linked(g0, spc, c, y));
            assert(spc.contains(c));
            lemma_linked_symm(g0, spc, c, y);
            lemma_linked_joined(g0, spc, k, Some(x), y, c);
            assert(linked(g0, spc, c, w));
            lemma_linked_joined(g0, spc, k, Some(x), c, w);
            lemma_joined_trans(g0, k, Some(x), r, y, c);
            lemma_joined_trans(g0, k, Some(x), r, c, w);
        }
    }

    /// In a closed forest, an empty cell other than a root that stayed empty is
    /// not a cut cell.
    proof fn lemma_uncut(&self, g0: Grid, cur: Grid, x: (int, int))
        requires
            g0.wf(),
            self.closed_forest(g0, cur),
            self.times_ok(g0),
            self.tin_next <= g0.data@.len() + 1,
            on_grid(g0, x),
            is_vis(self.visited, x),
            self.par@.dom().contains(x),
            cell_at(g0, x) == Cell::Empty,
            cell_at(cur, x) == Cell::Empty,
        ensures
            !cut_cell(g0, self.color, x),
    {
        let k = self.color;
        let r = self.tree@[x];
        if cut_cell(g0, k, x) {
            let (a1, b1) = choose|a1: (int, int), b1: (int, int)|
                on_grid(g0, a1) && on_grid(g0, b1) && cell_at(g0, a1) == k && cell_at(g0, b1) == k
                    && #[trigger] joined(g0, k, None, a1, b1) && !joined(g0, k, Some(x), b1, a1);
            self.lemma_forest_at(g0, cur, a1, a1);
            self.lemma_forest_at(g0, cur, b1, b1);
            self.lemma_forest_at(g0, cur, x, x);
            self.lemma_base_at(g0, x);
            let ta = self.tree_cells(g0, self.tree@[a1]);
            assert forall|p: (int, int), q: (int, int)|
                #![trigger ta.contains(p), ta.contains(q)]
                ta.contains(p) && on_grid(g0, q) && adjacent(p, q) && open_cell(g0, k, None, q) implies ta.contains(q) by {
                self.lemma_forest_at(g0, cur, p, q);
            }
            assert(closed_open(g0, k, None, ta));
            assert(ta.contains(a1));
            assert(ta.contains(b1));
            if self.tree@[a1] == r {
                self.lemma_reaches_root(g0, cur, x, a1);
                self.lemma_reaches_root(g0, cur, x, b1);
                assert(is_vis(self.visited, x));
                assert(on_grid(g0, r) && cell_at(g0, r) == k);
                lemma_joined_symm(g0, k, Some(x), r, b1);
                lemma_joined_trans(g0, k, Some(x), b1, r, a1);
            } else {
                let tr = self.tree_cells(g0, r);
                lemma_joined_symm(g0, k, None, a1, b1);
                assert forall|s2: Set<(int, int)>| #[trigger] closed_open(g0, k, Some(x), s2) && s2.contains(b1) implies s2.contains(
                    a1,
                ) by {
                    let s3 = s2.union(tr);
                    assert forall|p: (int, int), q: (int, int)|
                        #![trigger s3.contains(p), s3.contains(q)]
                        s3.contains(p) && on_grid(g0, q) && adjacent(p, q) && open_cell(g0, k, None, q) implies s3.contains(
                            q,
                        ) by {
                        if tr.contains(p) {
                            self.lemma_forest_at(g0, cur, p, q);
                        } else if q == x {
                            assert(tr.contains(x));
                        } else {
                            assert(s2.contains(q));
                        }
                    }
                    assert(closed_open(g0, k, None, s3));
                    assert(s3.contains(b1));
                    assert(s3.contains(a1));
                    assert(!tr.contains(a1));
                }
                assert(joined(g0, k, Some(x), b1, a1));
            }
        }
    }

    /// In a closed forest, a cell no search reached is not a cut cell: the tree
    /// of any cell of the colour is closed and avoids it.
    proof fn lemma_uncut_unvisited(&self, g0: Grid, cur: Grid, x: (int, int))
        requires
            self.closed_forest(g0, cur),
            self.color == Cell::Black || self.color == Cell::White,
            on_grid(g0, x),
            !is_vis(self.visited, x),
        ensures
            !cut_cell(g0, self.color, x),
    {
        let k = self.color;
        if cut_cell(g0, k, x) {
            let (a1, b1) = choose|a1: (int, int), b1: (int, int)|
                on_grid(g0, a1) && on_grid(g0, b1) && cell_at(g0, a1) == k && cell_at(g0, b1) == k
                    && #[trigger] joined(g0, k, None, a1, b1) && !joined(g0, k, Some(x), b1, a1);
            self.lemma_forest_at(g0, cur, a1, a1);
            let ta = self.tree_cells(g0, self.tree@[a1]);
            lemma_joined_symm(g0, k, None, a1, b1);
            assert forall|s2: Set<(int, int)>| #[trigger] closed_open(g0, k, Some(x), s2) && s2.contains(b1) implies s2.contains(
                a1,
            ) by {
                let s3 = Set::new(
                    |p: (int, int)|
                        s2.contains(p) || (on_grid(g0, p) && !ta.contains(p) && cell_at(g0, p) != opposite(k)),
                );
                assert forall|p: (int, int), q: (int, int)|
                    #![trigger s3.contains(p), s3.contains(q)]
                    s3.contains(p) && on_grid(g0, q) && adjacent(p, q) && open_cell(g0, k, None, q) implies s3.contains(
                        q,
                    ) by {
                    if ta.contains(q) {
                        assert(q != x);
                        if !s2.contains(p) {
                            assert(adjacent(q, p));
                            self.lemma_forest_at(g0, cur, q, p);
                            assert(ta.contains(p));
                        }
                    }
                }
                assert(closed_open(g0, k, None, s3));
                assert(s3.contains(b1));
                assert(s3.contains(a1));
                assert(ta.contains(a1));
            }
            assert(joined(g0, k, Some(x), b1, a1));
        }
    }

    /// Every cell that differs from `g0` has been visited and is a cut cell of
    /// `g0` for the colour.
    spec fn sound(&self, g0: Grid, grid: Grid) -> bool {
        forall|p: (int, int)|
            on_grid(g0, p) && #[trigger] cell_at(grid, p) != cell_at(g0, p) ==> is_vis(self.visited, p)
                && cut_cell(g0, self.color, p)
    }

    /// The visit times of the visited cells lie below the next time.
    spec fn times_ok(&self, g0: Grid) -> bool {
        forall|p: (int, int)|
            on_grid(g0, p) && #[trigger] is_vis(self.visited, p) ==> 1 <= at2(self.tin, p) < self.tin_next
    }

    /// Low-link search from `x0`, entered from `up`, in the tree rooted at the
    /// cell `a` of the colour. A cell other than the root from which some
    /// subtree holding a cell of the colour cannot climb above it is filled in
    /// with the colour.
    #[verifier::rlimit(80)]
    fn dfs(
        &mut self,
        grid: &mut Grid,
        x0: (usize, usize),
        up: Option<(usize, usize)>,
        Ghost(g0): Ghost<Grid>,
        Ghost(a): Ghost<(int, int)>,
    )
        requires
            old(self).wf(*old(grid)),
            old(self).fills_ok(g0, *old(grid)),
            old(self).sound(g0, *old(grid)),
            old(self).times_ok(g0),
            g0.wf(),
            on_grid(*old(grid), upos(x0)),
            cell_at(g0, upos(x0)) != opposite(old(self).color),
            !is_vis(old(self).visited, upos(x0)),
            on_grid(g0, a),
            cell_at(g0, a) == old(self).color,
            joined(g0, old(self).color, None, a, upos(x0)),
            up is None ==> a == upos(x0),
            up is Some ==> is_vis(old(self).visited, a),
            up matches Some(u) ==> on_grid(g0, upos(u)) && is_vis(old(self).visited, upos(u)),
            old(self).forest(g0, *old(grid), a),
            forall|u: (int, int)|
                on_grid(g0, u) && !is_vis(old(self).visited, u) ==> #[trigger] at2(old(self).low, u)
                    == g0.data@.len(),
            up matches Some(u) ==> !old(self).fin(upos(u)) && old(self).tree@[upos(u)] == a && adjacent(
                upos(u),
                upos(x0),
            ),
            up is None ==> forall|u: (int, int)|
                on_grid(g0, u) && #[trigger] is_vis(old(self).visited, u) ==> old(self).fin(u)
                    && old(self).tree@[u] != a,
        ensures
            final(self).forest(g0, *final(grid), a),
            grows(*old(self), *final(self), g0, *old(grid), *final(grid)),
            final(self).fin(upos(x0)),
            final(self).tree@[upos(x0)] == a,
            final(self).span@[upos(x0)] == final(self).newly_set(g0, old(self).tin_next as int),
            up matches Some(u) ==> final(self).par@.dom().contains(upos(x0)) && final(self).par@[upos(x0)]
                == upos(u),
            up is None ==> !final(self).par@.dom().contains(upos(x0)),
            forall|c: (int, int)|
                #[trigger] final(self).par@.dom().contains(c) && !old(self).par@.dom().contains(c) && c != upos(
                    x0,
                ) ==> !is_vis(old(self).visited, final(self).par@[c]),
            forall|u: (int, int)|
                #[trigger] final(self).fin(u) && !old(self).fin(u) ==> on_grid(g0, u) && is_vis(
                    final(self).visited,
                    u,
                ) && !is_vis(old(self).visited, u),
            forall|u: (int, int)|
                on_grid(g0, u) && !(is_vis(final(self).visited, u) && !is_vis(old(self).visited, u))
                    ==> #[trigger] cell_at(*final(grid), u) == cell_at(*old(grid), u),
            forall|u: (int, int)|
                on_grid(g0, u) && !is_vis(final(self).visited, u) ==> #[trigger] at2(final(self).low, u)
                    == g0.data@.len(),
            final(self).wf(*final(grid)),
            final(self).fills_ok(g0, *final(grid)),
            final(self).sound(g0, *final(grid)),
            final(self).times_ok(g0),
            final(self).color == old(self).color,
            final(grid).rows == old(grid).rows,
            final(grid).cols == old(grid).cols,
            is_vis(final(self).visited, upos(x0)),
            forall|i: int|
                0 <= i < old(self).visited.data@.len() && #[trigger] old(self).visited.data@[i]
                    ==> final(self).visited.data@[i],
            forall|p: (int, int)|
                on_grid(g0, p) && #[trigger] is_vis(old(self).visited, p) ==> is_vis(final(self).visited, p),
            final(self).tin_next >= old(self).tin_next,
            at2(final(self).tin, upos(x0)) == old(self).tin_next,
            forall|p: (int, int)|
                on_grid(g0, p) && #[trigger] is_vis(final(self).visited, p) && !is_vis(old(self).visited, p)
                    ==> joined(g0, old(self).color, None, upos(x0), p) && at2(final(self).tin, p)
                    >= old(self).tin_next,
            forall|p: (int, int)|
                on_grid(g0, p) && !(is_vis(final(self).visited, p) && !is_vis(old(self).visited, p))
                    ==> #[trigger] at2(final(self).tin, p) == at2(old(self).tin, p) && at2(final(self).low, p)
                    == at2(old(self).low, p) && at2(final(self).has, p) == at2(old(self).has, p),
            forall|p: (int, int), q: (int, int)|
                #![trigger is_vis(final(self).visited, p), is_vis(final(self).visited, q)]
                on_grid(g0, p) && on_grid(g0, q) && is_vis(final(self).visited, p) && !is_vis(
                    old(self).visited,
                    p,
                ) && adjacent(p, q) && cell_at(g0, q) != opposite(old(self).color) ==> is_vis(
                    final(self).visited,
                    q,
                ),
            forall|y: (int, int), z: (int, int)|
                #![trigger is_vis(final(self).visited, y), at2(final(self).tin, z)]
                on_grid(g0, y) && on_grid(g0, z) && is_vis(final(self).visited, y) && !is_vis(
                    old(self).visited,
                    y,
                ) && adjacent(y, z) && cell_at(g0, z) != opposite(old(self).color) && !(is_vis(
                    final(self).visited,
                    z,
                ) && !is_vis(old(self).visited, z)) && !(y == upos(x0) && came_from(up, z)) ==> at2(
                    final(self).low,
                    upos(x0),
                ) <= at2(final(self).tin, z),
            at2(final(self).has, upos(x0)) ==> exists|b: (int, int)|
                on_grid(g0, b) && #[trigger] is_vis(final(self).visited, b) && !is_vis(old(self).visited, b)
                    && cell_at(g0, b) == old(self).color,
        decreases count_eq(old(self).visited.data@, false),
    {
        let ghost v0 = self.visited;
        let ghost tin0 = self.tin;
        let ghost low0 = self.low;
        let ghost has0 = self.has;
        let ghost tn0 = self.tin_next;
        let ghost color = self.color;
        let ghost p0 = upos(x0);
        let ghost s_old = *self;
        let ghost g_old = *grid;
        let ghost uo: Option<(int, int)> = match up {
            Some(u) => Some(upos(u)),
            None => None,
        };
        let ghost tc0 = s_old.tree_cells(g0, a);
        proof {
            lemma_index_bounds(grid.rows as int, grid.cols as int, p0.0, p0.1);
            lemma_count_update(v0.data@, flat_index(grid.cols as int, p0.0, p0.1), true, false);
            lemma_count_bound(v0.data@, false);
            lemma_joined_refl(g0, color, None, p0);
            assert(cell_at(*grid, p0) == cell_at(g0, p0));
        }
        self.tin.set(x0.0, x0.1, self.tin_next);
        self.tin_next = self.tin_next + 1;
        self.visited.set(x0.0, x0.1, true);
        let h = grid.get(x0.0, x0.1) == self.color;
        self.has.set(x0.0, x0.1, h);
        self.tree = Ghost(self.tree@.insert(p0, a));
        self.par = Ghost(
            match up {
                Some(u) => self.par@.insert(p0, upos(u)),
                None => self.par@,
            },
        );
        proof {
            assert forall|p: (int, int)| on_grid(g0, p) && p != p0 implies #[trigger] is_vis(self.visited, p)
                == is_vis(v0, p) && at2(self.tin, p) == at2(tin0, p) && at2(self.has, p) == at2(has0, p) by {
                assert(self.visited.at(p.0, p.1) == v0.at(p.0, p.1));
                assert(self.tin.at(p.0, p.1) == tin0.at(p.0, p.1));
                assert(self.has.at(p.0, p.1) == has0.at(p.0, p.1));
            }
            assert forall|p: (int, int)| on_grid(g0, p) && p != p0 implies #[trigger] at2(self.tin, p) == at2(
                tin0,
                p,
            ) && at2(self.has, p) == at2(has0, p) by {
                assert(is_vis(self.visited, p) == is_vis(v0, p));
            }
            assert forall|p: (int, int)| on_grid(g0, p) && #[trigger] is_vis(self.visited, p) implies 1 <= at2(
                self.tin,
                p,
            ) < self.tin_next by {
                if p != p0 {
                    assert(is_vis(v0, p));
                }
            }
            assert forall|p: (int, int)|
                on_grid(g0, p) && #[trigger] cell_at(*grid, p) != cell_at(g0, p) implies is_vis(self.visited, p)
                && cut_cell(g0, color, p) by {
                if p != p0 {
                    assert(is_vis(v0, p) == is_vis(self.visited, p));
                }
            }
            if h {
                assert(is_vis(self.visited, p0) && cell_at(g0, p0) == color);
            }
            lemma_run_start(s_old, *self, g0, g_old, p0, uo, a);
        }
        let nb = adjacent_cells(grid.rows, grid.cols, x0.0, x0.1);
        let inv_color = self.color.inv();
        let mut k: usize = 0;
        while k < nb.len()
            invariant
                self.wf(*grid),
                self.fills_ok(g0, *grid),
                self.sound(g0, *grid),
                self.times_ok(g0),
                g0.wf(),
                self.color == color,
                color == old(self).color,
                inv_color == opposite(color),
                grid.rows == old(grid).rows,
                grid.cols == old(grid).cols,
                g0.rows == grid.rows,
                g0.cols == grid.cols,
                v0 == old(self).visited,
                tin0 == old(self).tin,
                low0 == old(self).low,
                has0 == old(self).has,
                tn0 == old(self).tin_next,
                v0.wf(),
                v0.rows == grid.rows,
                v0.cols == grid.cols,
                p0 == upos(x0),
                on_grid(g0, p0),
                cell_at(g0, p0) != opposite(color),
                !is_vis(v0, p0),
                is_vis(self.visited, p0),
                at2(self.tin, p0) == tn0,
                self.tin_next > tn0,
                forall|p: (int, int)| on_grid(g0, p) && #[trigger] is_vis(v0, p) ==> at2(tin0, p) < tn0,
                on_grid(g0, a),
                cell_at(g0, a) == color,
                joined(g0, color, None, a, p0),
                up is None ==> a == p0,
                up is Some ==> is_vis(v0, a),
                up matches Some(u) ==> on_grid(g0, upos(u)) && is_vis(v0, upos(u)),
                0 <= k <= nb@.len(),
                count_eq(self.visited.data@, false) < count_eq(v0.data@, false),
                forall|j: int|
                    0 <= j < nb@.len() ==> on_grid(g0, upos(#[trigger] nb@[j])) && adjacent(p0, upos(nb@[j])),
                forall|aa: usize, bb: usize|
                    on_grid(g0, (aa as int, bb as int)) && adjacent(p0, (aa as int, bb as int))
                        ==> #[trigger] nb@.contains((aa, bb)),
                forall|i: int|
                    0 <= i < v0.data@.len() && #[trigger] v0.data@[i] ==> self.visited.data@[i],
                forall|p: (int, int)| on_grid(g0, p) && #[trigger] is_vis(v0, p) ==> is_vis(self.visited, p),
                forall|p: (int, int)|
                    on_grid(g0, p) && #[trigger] is_vis(self.visited, p) && !is_vis(v0, p) ==> joined(
                        g0,
                        color,
                        None,
                        p0,
                        p,
                    ) && at2(self.tin, p) >= tn0,
                forall|p: (int, int)|
                    on_grid(g0, p) && !(is_vis(self.visited, p) && !is_vis(v0, p)) ==> #[trigger] at2(
                        self.tin,
                        p,
                    ) == at2(tin0, p) && at2(self.low, p) == at2(low0, p) && at2(self.has, p) == at2(
                        has0,
                        p,
                    ),
                forall|p: (int, int), q: (int, int)|
                    #![trigger is_vis(self.visited, p), is_vis(self.visited, q)]
                    on_grid(g0, p) && on_grid(g0, q) && is_vis(self.visited, p) && !is_vis(v0, p) && p != p0
                        && adjacent(p, q) && cell_at(g0, q) != opposite(color) ==> is_vis(self.visited, q),
                forall|j: int|
                    0 <= j < k && cell_at(g0, upos(#[trigger] nb@[j])) != opposite(color) ==> is_vis(
                        self.visited,
                        upos(nb@[j]),
                    ),
                forall|j: int|
                    0 <= j < k && cell_at(g0, upos(#[trigger] nb@[j])) != opposite(color) && !came_from(
                        up,
                        upos(nb@[j]),
                    ) && !(is_vis(self.visited, upos(nb@[j])) && !is_vis(v0, upos(nb@[j]))) ==> at2(
                        self.low,
                        p0,
                    ) <= at2(self.tin, upos(nb@[j])),
                forall|y: (int, int), z: (int, int)|
                    #![trigger is_vis(self.visited, y), at2(self.tin, z)]
                    on_grid(g0, y) && on_grid(g0, z) && is_vis(self.visited, y) && !is_vis(v0, y) && y != p0
                        && adjacent(y, z) && cell_at(g0, z) != opposite(color) && !(is_vis(self.visited, z)
                        && !is_vis(v0, z)) ==> at2(self.low, p0) <= at2(self.tin, z),
                at2(self.has, p0) ==> exists|b: (int, int)|
                    on_grid(g0, b) && #[trigger] is_vis(self.visited, b) && !is_vis(v0, b) && cell_at(g0, b)
                        == color,
                s_old == *old(self),
                g_old == *old(grid),
                uo == (match up {
                    Some(u) => Some(upos(u)),
                    None => None::<(int, int)>,
                }),
                tc0 == s_old.tree_cells(g0, a),
                running(*self, s_old, g0, g_old, *grid, p0, uo, tn0 as int, a, tc0),
            decreases nb@.len() - k,
        {
            let x1 = nb[k];
            let ghost p1 = upos(x1);
            let ghost kk = k as int;
            k = k + 1;
            proof {
                assert(on_grid(g0, p1) && adjacent(p0, p1));
                assert(cell_at(*grid, p1) == opposite(color) <==> cell_at(g0, p1) == opposite(color));
            }
            if grid.get(x1.0, x1.1) == inv_color {
                // not traversable in dfs
                continue;
            }
            let is_up = match up {
                Some(u) => u.0 == x1.0 && u.1 == x1.1,
                None => false,
            };
            if is_up {
                // dfs tree parent
                proof {
                    assert(came_from(up, p1));
                    assert(is_vis(v0, p1));
                }
                continue;
            }
            proof {
                assert(!came_from(up, p1));
            }
            if self.visited.get(x1.0, x1.1) {
                let l0 = self.low.get(x0.0, x0.1);
                let t1 = self.tin.get(x1.0, x1.1);
                let ghost lw = self.low;
                let ghost sb = *self;
                self.low.set(x0.0, x0.1, if t1 < l0 { t1 } else { l0 });
                proof {
                    assert forall|p: (int, int)| on_grid(g0, p) && p != p0 implies #[trigger] at2(self.low, p)
                        == at2(lw, p) by {
                        assert(self.low.at(p.0, p.1) == lw.at(p.0, p.1));
                    }
                    assert(at2(self.low, p0) <= at2(lw, p0));
                    assert(at2(self.low, p0) <= at2(self.tin, p1));
                    assert forall|p: (int, int)|
                        on_grid(g0, p) && !(is_vis(self.visited, p) && !is_vis(v0, p)) implies #[trigger] at2(
                        self.tin,
                        p,
                    ) == at2(tin0, p) && at2(self.low, p) == at2(low0, p) && at2(self.has, p) == at2(has0, p) by {
                        assert(p != p0);
                        assert(at2(self.low, p) == at2(lw, p));
                    }
                    lemma_run_low(sb, *self, s_old, g0, g_old, *grid, p0, p1, uo, tn0 as int, a, tc0);
                }
            } else {
                let ghost v1 = self.visited;
                let ghost tin1 = self.tin;
                let ghost low1 = self.low;
                let ghost has1 = self.has;
                let ghost g1 = *grid;
                let ghost sb = *self;
                proof {
                    lemma_joined_step(g0, color, None, a, p0, p1);
                    lemma_joined_step(g0, color, None, p0, p0, p1);
                    lemma_run_call(sb, s_old, g0, g_old, g1, p0, uo, tn0 as int, a, tc0);
                }
                self.dfs(grid, x1, Some(x0), Ghost(g0), Ghost(a));
                let ghost sc = *self;
                let ghost cc = *grid;
                proof {
                    assert forall|i: int|
                        0 <= i < v0.data@.len() && #[trigger] v0.data@[i] implies self.visited.data@[i] by {
                        assert(v1.data@[i]);
                    }
                    assert forall|p: (int, int)| on_grid(g0, p) && #[trigger] is_vis(v0, p) implies is_vis(
                        self.visited,
                        p,
                    ) by {
                        assert(is_vis(v1, p));
                    }
                    lemma_index_bounds(g0.rows as int, g0.cols as int, p0.0, p0.1);
                    assert(v1.data@[flat_index(g0.cols as int, p0.0, p0.1)]);
                    lemma_count_mono(v1.data@, self.visited.data@, false);
                    assert(at2(self.tin, p0) == tn0);
                    assert forall|p: (int, int)|
                        on_grid(g0, p) && #[trigger] is_vis(self.visited, p) && !is_vis(v0, p) implies joined(
                        g0,
                        color,
                        None,
                        p0,
                        p,
                    ) && at2(self.tin, p) >= tn0 by {
                        if !is_vis(v1, p) {
                            lemma_joined_trans(g0, color, None, p0, p1, p);
                        }
                    }
                    assert forall|p: (int, int)|
                        on_grid(g0, p) && !(is_vis(self.visited, p) && !is_vis(v0, p)) implies #[trigger] at2(
                        self.tin,
                        p,
                    ) == at2(tin0, p) && at2(self.low, p) == at2(low0, p) && at2(self.has, p) == at2(has0, p) by {
                        assert(at2(self.tin, p) == at2(tin1, p));
                    }
                    assert forall|p: (int, int), q: (int, int)|
                        #![trigger is_vis(self.visited, p), is_vis(self.visited, q)]
                        on_grid(g0, p) && on_grid(g0, q) && is_vis(self.visited, p) && !is_vis(v0, p) && p != p0
                            && adjacent(p, q) && cell_at(g0, q) != opposite(color) implies is_vis(self.visited, q) by {
                        if is_vis(v1, p) {
                            assert(is_vis(v1, q));
                        }
                    }
                    assert forall|j: int|
                        0 <= j < k && cell_at(g0, upos(#[trigger] nb@[j])) != opposite(color) implies is_vis(
                        self.visited,
                        upos(nb@[j]),
                    ) by {
                        if j < kk {
                            assert(is_vis(v1, upos(nb@[j])));
                        }
                    }
                }
                let ghost lc = self.low;
                let ghost hc = self.has;
                proof {
                    assert forall|p: (int, int)|
                        on_grid(g0, p) && !(is_vis(self.visited, p) && !is_vis(v0, p)) implies #[trigger] at2(
                        lc,
                        p,
                    ) == at2(low0, p) && at2(hc, p) == at2(has0, p) by {
                        assert(at2(self.tin, p) == at2(tin0, p));
                    }
                }
                let h0 = self.has.get(x0.0, x0.1);
                let h1 = self.has.get(x1.0, x1.1);
                let ghost hs = self.has;
                self.has.set(x0.0, x0.1, h0 || h1);
                let l0 = self.low.get(x0.0, x0.1);
                let l1 = self.low.get(x1.0, x1.1);
                let ghost lw = self.low;
                self.low.set(x0.0, x0.1, if l1 < l0 { l1 } else { l0 });
                proof {
                    assert forall|p: (int, int)| on_grid(g0, p) && p != p0 implies #[trigger] at2(self.low, p)
                        == at2(lw, p) && at2(self.has, p) == at2(hs, p) by {
                        assert(self.low.at(p.0, p.1) == lw.at(p.0, p.1));
                        assert(self.has.at(p.0, p.1) == hs.at(p.0, p.1));
                    }
                    assert(at2(self.low, p0) <= at2(lw, p0));
                    assert(at2(self.low, p0) <= l1);
                    assert(at2(lw, p0) == at2(low1, p0));
                    assert(l1 == at2(lw, p1));
                    assert forall|p: (int, int)|
                        on_grid(g0, p) && !(is_vis(self.visited, p) && !is_vis(v0, p)) implies #[trigger] at2(
                        self.tin,
                        p,
                    ) == at2(tin0, p) && at2(self.low, p) == at2(low0, p) && at2(self.has, p) == at2(has0, p) by {
                        assert(p != p0);
                        assert(at2(self.low, p) == at2(lw, p));
                        assert(at2(self.has, p) == at2(hs, p));
                        assert(at2(lc, p) == at2(low0, p));
                        assert(lw == lc);
                        assert(hs == hc);
                    }
                    assert forall|j: int|
                        0 <= j < k && cell_at(g0, upos(#[trigger] nb@[j])) != opposite(color) && !came_from(
                            up,
                            upos(nb@[j]),
                        ) && !(is_vis(self.visited, upos(nb@[j])) && !is_vis(v0, upos(nb@[j]))) implies at2(
                        self.low,
                        p0,
                    ) <= at2(self.tin, upos(nb@[j])) by {
                        let pj = upos(nb@[j]);
                        if j < kk {
                            assert(!(is_vis(v1, pj) && !is_vis(v0, pj)));
                            assert(at2(low1, p0) <= at2(tin1, pj));
                            assert(at2(self.tin, pj) == at2(tin1, pj));
                        }
                    }
                    assert forall|y: (int, int), z: (int, int)|
                        #![trigger is_vis(self.visited, y), at2(self.tin, z)]
                        on_grid(g0, y) && on_grid(g0, z) && is_vis(self.visited, y) && !is_vis(v0, y) && y != p0
                            && adjacent(y, z) && cell_at(g0, z) != opposite(color) && !(is_vis(self.visited, z)
                            && !is_vis(v0, z)) implies at2(self.low, p0) <= at2(self.tin, z) by {
                        assert(!(is_vis(v1, z) && !is_vis(v0, z)));
                        assert(at2(self.tin, z) == at2(tin1, z));
                        if is_vis(v1, y) {
                            assert(at2(low1, p0) <= at2(tin1, z));
                        } else {
                            assert(z != p0);
                            assert(!(y == p1 && came_from(Some(x0), z)));
                            assert(at2(lw, p1) <= at2(self.tin, z));
                        }
                    }
                    if at2(self.has, p0) {
                        if !at2(hs, p0) {
                            assert(h1);
                            let b = choose|b: (int, int)|
                                on_grid(g0, b) && #[trigger] is_vis(self.visited, b) && !is_vis(v1, b)
                                    && cell_at(g0, b) == color;
                            assert(!is_vis(v0, b));
                        }
                    }
                }
                let t0 = self.tin.get(x0.0, x0.1);
                if l1 >= t0 && up.is_some() && h1 {
                    if grid.get(x0.0, x0.1) != self.color {
                        let ghost gb = *grid;
                        let ghost ch0 = self.changed@;
                        proof {
                            self.lemma_cut(g0, v0, v1, tin0, p0, p1, a, color, l1, t0);
                            assert(gb.at(p0.0, p0.1) == g0.at(p0.0, p0.1) || gb.at(p0.0, p0.1) == self.color);
                            assert(cell_at(gb, p0) == Cell::Empty);
                            assert(g0.at(p0.0, p0.1) == Cell::Empty);
                        }
                        grid.set(x0.0, x0.1, self.color);
                        self.changed.push((x0.0, x0.1, self.color));
                        proof {
                            assert(self.changed@.drop_last() =~= ch0);
                            self.lemma_fill_one(g0, gb, *grid, p0);
                            assert forall|p: (int, int)|
                                on_grid(g0, p) && #[trigger] cell_at(*grid, p) != cell_at(g0, p) implies is_vis(
                                self.visited,
                                p,
                            ) && cut_cell(g0, color, p) by {
                                if p != p0 {
                                    assert(cell_at(*grid, p) == cell_at(gb, p));
                                }
                            }
                            assert forall|p: (int, int)| on_grid(g0, p) && p != p0 implies #[trigger] cell_at(
                                *grid,
                                p,
                            ) == cell_at(gb, p) by {
                                assert(grid.at(p.0, p.1) == gb.at(p.0, p.1));
                            }
                        }
                    }
                }
                proof {
                    assert(at2(self.low, p1) == l1 && at2(self.has, p1) == h1);
                    lemma_run_child(
                        sb,
                        sc,
                        *self,
                        s_old,
                        g0,
                        g_old,
                        g1,
                        cc,
                        *grid,
                        p0,
                        p1,
                        uo,
                        tn0 as int,
                        a,
                        tc0,
                    );
                }
            }
        }
        proof {
            assert forall|p: (int, int), q: (int, int)|
                #![trigger is_vis(self.visited, p), is_vis(self.visited, q)]
                on_grid(g0, p) && on_grid(g0, q) && is_vis(self.visited, p) && !is_vis(v0, p) && adjacent(p, q)
                    && cell_at(g0, q) != opposite(color) implies is_vis(self.visited, q) by {
                if p == p0 {
                    assert(nb@.contains((q.0 as usize, q.1 as usize)));
                    let j = choose|j: int| 0 <= j < nb@.len() && nb@[j] == (q.0 as usize, q.1 as usize);
                    assert(upos(nb@[j]) == q);
                }
            }
            assert forall|y: (int, int), z: (int, int)|
                #![trigger is_vis(self.visited, y), at2(self.tin, z)]
                on_grid(g0, y) && on_grid(g0, z) && is_vis(self.visited, y) && !is_vis(v0, y) && adjacent(y, z)
                    && cell_at(g0, z) != opposite(color) && !(is_vis(self.visited, z) && !is_vis(v0, z)) && !(y
                    == p0 && came_from(up, z)) implies at2(self.low, p0) <= at2(self.tin, z) by {
                if y == p0 {
                    assert(nb@.contains((z.0 as usize, z.1 as usize)));
                    let j = choose|j: int| 0 <= j < nb@.len() && nb@[j] == (z.0 as usize, z.1 as usize);
                    assert(upos(nb@[j]) == z);
                }
            }
        }
        let ghost s1 = *self;
        self.out = Ghost(self.out@.insert(p0, self.tin_next as int));
        self.span = Ghost(self.span@.insert(p0, s1.newly_set(g0, tn0 as int)));
        proof {
            lemma_run_exit(s1, *self, s_old, g0, g_old, *grid, p0, uo, a);
        }
    }

    /// When the search returns from a child `p1` of `p0` whose subtree holds a
    /// cell of the colour and cannot climb above `p0`, `p0` is a cut cell: the
    /// subtree is closed under steps that avoid `p0`, and the root lies
    /// outside it.
    proof fn lemma_cut(
        &self,
        g0: Grid,
        v0: Array2<bool>,
        v1: Array2<bool>,
        tin0: Array2<isize>,
        p0: (int, int),
        p1: (int, int),
        a: (int, int),
        color: Cell,
        l1: isize,
        t0: isize,
    )
        requires
            g0.wf(),
            on_grid(g0, p0),
            on_grid(g0, p1),
            is_vis(v1, p0),
            !is_vis(v0, p0),
            forall|p: (int, int)| on_grid(g0, p) && #[trigger] is_vis(v0, p) ==> is_vis(v1, p),
            forall|p: (int, int)| on_grid(g0, p) && #[trigger] is_vis(v0, p) ==> at2(tin0, p) < t0,
            forall|p: (int, int)|
                on_grid(g0, p) && #[trigger] is_vis(v0, p) ==> at2(self.tin, p) == at2(tin0, p),
            forall|p: (int, int), q: (int, int)|
                #![trigger is_vis(v1, p), is_vis(v1, q)]
                on_grid(g0, p) && on_grid(g0, q) && is_vis(v1, p) && !is_vis(v0, p) && p != p0 && adjacent(p, q)
                    && cell_at(g0, q) != opposite(color) ==> is_vis(v1, q),
            forall|p: (int, int), q: (int, int)|
                #![trigger is_vis(self.visited, p), is_vis(self.visited, q)]
                on_grid(g0, p) && on_grid(g0, q) && is_vis(self.visited, p) && !is_vis(v1, p) && adjacent(p, q)
                    && cell_at(g0, q) != opposite(color) ==> is_vis(self.visited, q),
            forall|p: (int, int)|
                on_grid(g0, p) && #[trigger] is_vis(self.visited, p) && !is_vis(v1, p) ==> joined(
                    g0,
                    color,
                    None,
                    p1,
                    p,
                ),
            forall|y: (int, int), z: (int, int)|
                #![trigger is_vis(self.visited, y), at2(self.tin, z)]
                on_grid(g0, y) && on_grid(g0, z) && is_vis(self.visited, y) && !is_vis(v1, y) && adjacent(y, z)
                    && cell_at(g0, z) != opposite(color) && !(is_vis(self.visited, z) && !is_vis(v1, z)) && !(y
                    == p1 && z == p0) ==> l1 <= at2(self.tin, z),
            l1 >= t0,
            cell_at(g0, p1) != opposite(color),
            exists|b: (int, int)|
                on_grid(g0, b) && #[trigger] is_vis(self.visited, b) && !is_vis(v1, b) && cell_at(g0, b)
                    == color,
            on_grid(g0, a),
            cell_at(g0, a) == color,
            is_vis(v0, a),
            joined(g0, color, None, a, p1),
        ensures
            cut_cell(g0, color, p0),
    {
        let v = self.visited;
        let s = Set::new(|p: (int, int)| on_grid(g0, p) && is_vis(v, p) && !is_vis(v1, p));
        assert forall|p: (int, int), q: (int, int)|
            #![trigger s.contains(p), s.contains(q)]
            s.contains(p) && on_grid(g0, q) && adjacent(p, q) && open_cell(g0, color, Some(p0), q) implies s.contains(
            q,
        ) by {
            assert(is_vis(v, q));
            if is_vis(v1, q) {
                if is_vis(v0, q) {
                    assert(at2(self.tin, q) == at2(tin0, q));
                    assert(l1 <= at2(self.tin, q));
                } else {
                    lemma_joined_open(g0, color, None, p1, p);
                    assert(cell_at(g0, p) != opposite(color));
                    assert(adjacent(q, p));
                    assert(is_vis(v1, p));
                }
            }
        }
        assert(closed_open(g0, color, Some(p0), s));
        let b = choose|b: (int, int)|
            on_grid(g0, b) && #[trigger] is_vis(self.visited, b) && !is_vis(v1, b) && cell_at(g0, b) == color;
        assert(s.contains(b));
        assert(!s.contains(a));
        assert(!joined(g0, color, Some(p0), b, a));
        lemma_joined_trans(g0, color, None, a, p1, b);
        assert(joined(g0, color, None, a, b));
    }

    /// Runs the search from each cell of the colour not yet visited, row by
    /// row.
    fn dfs_all(&mut self, grid: &mut Grid, Ghost(g0): Ghost<Grid>)
        requires
            old(self).wf(*old(grid)),
            old(self).fills_ok(g0, *old(grid)),
            old(self).sound(g0, *old(grid)),
            old(self).times_ok(g0),
            old(self).settled(g0, *old(grid)),
            forall|u: (int, int)|
                on_grid(g0, u) && !is_vis(old(self).visited, u) ==> #[trigger] at2(old(self).low, u)
                    == g0.data@.len(),
            g0.wf(),
        ensures
            final(self).wf(*final(grid)),
            final(self).fills_ok(g0, *final(grid)),
            final(self).sound(g0, *final(grid)),
            final(self).times_ok(g0),
            final(self).closed_forest(g0, *final(grid)),
            final(self).color == old(self).color,
            final(grid).rows == old(grid).rows,
            final(grid).cols == old(grid).cols,
    {
        let rows = grid.rows();
        let cols = grid.cols();
        let mut r: usize = 0;
        while r < rows
            invariant
                self.wf(*grid),
                self.fills_ok(g0, *grid),
                self.sound(g0, *grid),
                self.times_ok(g0),
                self.settled(g0, *grid),
                forall|u: (int, int)|
                    on_grid(g0, u) && !is_vis(self.visited, u) ==> #[trigger] at2(self.low, u) == g0.data@.len(),
                forall|u: (int, int)|
                    on_grid(g0, u) && u.0 < r && #[trigger] cell_at(g0, u) == self.color ==> is_vis(
                        self.visited,
                        u,
                    ),
                g0.wf(),
                self.color == old(self).color,
                grid.rows == old(grid).rows,
                grid.cols == old(grid).cols,
                rows == grid.rows,
                cols == grid.cols,
                r <= rows,
            decreases rows - r,
        {
            let mut c: usize = 0;
            while c < cols
                invariant
                    self.wf(*grid),
                    self.fills_ok(g0, *grid),
                    self.sound(g0, *grid),
                    self.times_ok(g0),
                    self.settled(g0, *grid),
                    forall|u: (int, int)|
                        on_grid(g0, u) && !is_vis(self.visited, u) ==> #[trigger] at2(self.low, u)
                            == g0.data@.len(),
                    forall|u: (int, int)|
                        on_grid(g0, u) && (u.0 < r || (u.0 == r && u.1 < c)) && #[trigger] cell_at(g0, u)
                            == self.color ==> is_vis(self.visited, u),
                    g0.wf(),
                    self.color == old(self).color,
                    grid.rows == old(grid).rows,
                    grid.cols == old(grid).cols,
                    rows == grid.rows,
                    cols == grid.cols,
                    r < rows,
                    c <= cols,
                decreases cols - c,
            {
                let ghost x = (r as int, c as int);
                if !self.visited.get(r, c) && grid.get(r, c) == self.color {
                    let ghost s0 = *self;
                    let ghost c0 = *grid;
                    proof {
                        assert(cell_at(*grid, x) == cell_at(g0, x));
                        lemma_joined_refl(g0, self.color, None, x);
                        self.lemma_settled_root(g0, *grid, x);
                    }
                    self.dfs(grid, (r, c), None, Ghost(g0), Ghost(x));
                    proof {
                        Connectivity::lemma_settle(s0, *self, g0, c0, *grid, x);
                    }
                } else {
                    proof {
                        if cell_at(g0, x) == self.color && !is_vis(self.visited, x) {
                            assert(cell_at(*grid, x) == cell_at(g0, x));
                        }
                    }
                }
                c = c + 1;
            }
            r = r + 1;
        }
        proof {
            reveal(Connectivity::closed_forest);
        }
    }

    proof fn lemma_fill_one(&self, g0: Grid, gb: Grid, g1: Grid, p0: (int, int))
        requires
            gb.wf(),
            only_fills(g0, gb),
            fills_with(g0, gb, self.color),
            self.changed@.len() > 0,
            lists_fills(g0, gb, self.changed@.drop_last()),
            self.changed@.last() == (p0.0 as usize, p0.1 as usize, self.color),
            p0.0 >= 0,
            p0.1 >= 0,
            self.color != Cell::Empty,
            on_grid(gb, p0),
            cell_at(gb, p0) == Cell::Empty,
            g0.at(p0.0, p0.1) == Cell::Empty,
            g1.rows == gb.rows,
            g1.cols == gb.cols,
            g1.at(p0.0, p0.1) == self.color,
            forall|r2: int, c2: int|
                #![trigger g1.at(r2, c2)]
                gb.contains_pos(r2, c2) && (r2 != p0.0 || c2 != p0.1) ==> g1.at(r2, c2) == gb.at(r2, c2),
        ensures
            only_fills(g0, g1),
            fills_with(g0, g1, self.color),
            lists_fills(g0, g1, self.changed@),
    {
        let ch = self.changed@;
        let old_ch = ch.drop_last();
        assert forall|r: int, c: int|
            #![trigger g1.at(r, c)]
            g0.contains_pos(r, c) implies g1.at(r, c) == g0.at(r, c) || (g0.at(r, c) == Cell::Empty
            && g1.at(r, c) != Cell::Empty) by {
            if r != p0.0 || c != p0.1 {
                assert(gb.at(r, c) == g0.at(r, c) || (g0.at(r, c) == Cell::Empty && gb.at(r, c) != Cell::Empty));
            }
        }
        assert forall|r: int, c: int|
            #![trigger g1.at(r, c)]
            g0.contains_pos(r, c) && g1.at(r, c) != g0.at(r, c) implies g1.at(r, c) == self.color by {
            if r != p0.0 || c != p0.1 {
                assert(gb.at(r, c) != g0.at(r, c));
            }
        }
        assert forall|j: int|
            #![trigger ch[j]]
            0 <= j < ch.len() implies g0.contains_pos(ch[j].0 as int, ch[j].1 as int) && g0.at(
            ch[j].0 as int,
            ch[j].1 as int,
        ) == Cell::Empty && g1.at(ch[j].0 as int, ch[j].1 as int) == ch[j].2 && ch[j].2 != Cell::Empty by {
            if j < ch.len() - 1 {
                assert(ch[j] == old_ch[j]);
                let e = old_ch[j];
                assert(gb.at(e.0 as int, e.1 as int) == e.2);
                if e.0 as int == p0.0 && e.1 as int == p0.1 {
                    assert(false);
                }
            }
        }
        assert forall|i: int, j: int|
            #![trigger ch[i], ch[j]]
            0 <= i < j < ch.len() implies ch[i].0 != ch[j].0 || ch[i].1 != ch[j].1 by {
            assert(ch[i] == old_ch[i]);
            if j < ch.len() - 1 {
                assert(ch[j] == old_ch[j]);
                assert(old_ch[i].0 != old_ch[j].0 || old_ch[i].1 != old_ch[j].1);
            } else {
                let e = old_ch[i];
                assert(gb.at(e.0 as int, e.1 as int) == e.2);
            }
        }
        assert forall|r: int, c: int|
            #![trigger g1.at(r, c)]
            g0.contains_pos(r, c) && g1.at(r, c) != g0.at(r, c) implies exists|j: int|
            0 <= j < ch.len() && ch[j].0 == r && #[trigger] ch[j].1 == c by {
            if r == p0.0 && c == p0.1 {
                assert(ch[ch.len() - 1].1 == c);
            } else {
                assert(gb.at(r, c) != g0.at(r, c));
                let j = choose|j: int| 0 <= j < old_ch.len() && old_ch[j].0 == r && #[trigger] old_ch[j].1 == c;
                assert(ch[j] == old_ch[j]);
            }
        }
    }
}

/// Fills in, with `color`, every cell through which all paths between two cells
/// of that colour must pass (an articulation point of the graph of cells not of
/// the opposite colour), found by a low-link depth-first search from each
/// not yet visited cell of the colour. Returns whether any cell was filled.
pub fn apply_connectivity_for(grid: &mut Grid, path: &mut Option<SolvePath>, color: Cell) -> (res: bool)
    requires
        old(grid).wf(),
        color == Cell::Black || color == Cell::White,
    ensures
        final(grid).wf(),
        final(grid).rows == old(grid).rows,
        final(grid).cols == old(grid).cols,
        only_fills(*old(grid), *final(grid)),
        fills_with(*old(grid), *final(grid), color),
        forall|p: (int, int)|
            on_grid(*old(grid), p) ==> #[trigger] cell_at(*final(grid), p) == cut_fill(*old(grid), color, p),
        res == fills_some(*old(grid), *final(grid)),
        res ==> recorded_one(
            *old(path),
            *final(path),
            |s: SolveStep| connectivity_step(s, *old(grid), *final(grid)),
        ),
        !res ==> *final(path) == *old(path),
        !res ==> *final(grid) == *old(grid),
        crate::replay::replays(*old(path), *final(path), *old(grid), *final(grid)),
        exists|s: Seq<SolveStep>|
            #[trigger] crate::apply_connectivity::pass_record(s, *old(grid), *final(grid)) && crate::solve_path::recorded(
                *old(path),
                *final(path),
                s,
            ),
{
    let ghost g0 = *grid;
    let mut conn = Connectivity::new(grid, color);
    proof {
        assert(lists_fills(g0, *grid, conn.changed@));
        assert forall|p: (int, int)| on_grid(g0, p) && #[trigger] is_vis(conn.visited, p) implies 1 <= at2(
            conn.tin,
            p,
        ) < conn.tin_next by {
            lemma_index_bounds(g0.rows as int, g0.cols as int, p.0, p.1);
        }
        assert(conn.times_ok(g0));
        assert(conn.sound(g0, *grid));
        conn.lemma_settled_start(g0, *grid);
    }
    conn.dfs_all(grid, Ghost(g0));
    proof {
        assert forall|p: (int, int)| on_grid(g0, p) implies #[trigger] cell_at(*grid, p) == cut_fill(
            g0,
            color,
            p,
        ) by {
            if cell_at(*grid, p) != cell_at(g0, p) {
                assert(is_vis(conn.visited, p) && cut_cell(g0, color, p));
                assert(grid.at(p.0, p.1) != g0.at(p.0, p.1));
            } else if cell_at(g0, p) == Cell::Empty && cut_cell(g0, color, p) {
                if !is_vis(conn.visited, p) {
                    conn.lemma_uncut_unvisited(g0, *grid, p);
                } else {
                    conn.lemma_forest_at(g0, *grid, p, p);
                    conn.lemma_base_at(g0, p);
                    if conn.par@.dom().contains(p) {
                        conn.lemma_uncut(g0, *grid, p);
                    }
                }
            }
        }
    }
    let changed = conn.changed;
    let made_progress = changed.len() > 0;
    proof {
        if made_progress {
            let e = changed@[0];
            assert(g0.at(e.0 as int, e.1 as int) == Cell::Empty);
            assert(grid.at(e.0 as int, e.1 as int) != Cell::Empty);
        }
        if fills_some(g0, *grid) {
            let (r, c) = choose|r: int, c: int|
                g0.contains_pos(r, c) && g0.at(r, c) == Cell::Empty && #[trigger] grid.at(r, c)
                    != Cell::Empty;
            assert(grid.at(r, c) != g0.at(r, c));
        }
    }
    if made_progress {
        let ghost ch = changed@;
        let ghost p0 = *path;
        let step = SolveStep::ApplyConnectivity(changed);
        proof {
            assert(connectivity_step(step, g0, *grid));
        }
        proof {
            crate::replay::lemma_changes_replay(g0, *grid, changed@);
            crate::replay::lemma_replay_one(g0.cols as int, g0.data@, step);
        }
        crate::solve_path::record(path, step);
        proof {
            if let Some(v) = p0 {
                assert(path->0@ =~= v@ + seq![step]);
                assert(path->0@.drop_last() =~= v@);
            }
            crate::replay::lemma_replays_recorded(p0, *path, g0, *grid, seq![step]);
            assert(crate::apply_connectivity::pass_record(seq![step], g0, *grid));
        }
    } else {
        proof {
            crate::replay::lemma_replays_same(*path, *grid);
            crate::solve_path::lemma_recorded_none(*path);
            assert(crate::apply_connectivity::pass_record(Seq::empty(), g0, *grid));
        }
    }
    made_progress
}

/// Applies the connectivity rules: first the cells every black-to-black path
/// must cross are made black, then likewise for white, then the regions of
/// empty cells that touch a single colour are filled with it. Returns whether
/// any cell was filled.
pub fn apply(grid: &mut Grid, path: &mut Option<SolvePath>) -> (res: bool)
    requires
        old(grid).wf(),
    ensures
        final(grid).wf(),
        exists|gb: Grid, gw: Grid| #[trigger] connectivity_passes(*old(grid), gb, gw, *final(grid)),
        exists|gb: Grid, gw: Grid, s: Seq<SolveStep>|
            #[trigger] connectivity_passes(*old(grid), gb, gw, *final(grid)) && connectivity_steps(
                *old(grid),
                gb,
                gw,
                *final(grid),
                s,
            ) && #[trigger] crate::solve_path::recorded(*old(path), *final(path), s),
        !res ==> *final(path) == *old(path),
        final(grid).rows == old(grid).rows,
        final(grid).cols == old(grid).cols,
        only_fills(*old(grid), *final(grid)),
        res == fills_some(*old(grid), *final(grid)),
        crate::solve_path::extends(*old(path), *final(path)),
        crate::replay::replays(*old(path), *final(path), *old(grid), *final(grid)),
        !res ==> *final(grid) == *old(grid),
{
    let ghost g0 = *grid;
    let ghost p0 = *path;
    let did_black = apply_connectivity_for(grid, path, Cell::Black);
    let ghost g1 = *grid;
    let ghost p1 = *path;
    let did_white = apply_connectivity_for(grid, path, Cell::White);
    let ghost g2 = *grid;
    let ghost p2 = *path;
    let did_empty = crate::isolation::apply_isolation(grid, path);
    proof {
        crate::fill::lemma_only_fills_trans(g0, g1, g2);
        crate::fill::lemma_only_fills_trans(g0, g2, *grid);
        crate::fill::lemma_only_fills_trans(g1, g2, *grid);
        crate::solve_path::lemma_extends_one(p0, p1);
        crate::solve_path::lemma_extends_one(p1, p2);
        crate::solve_path::lemma_extends_one(p2, *path);
        crate::solve_path::lemma_extends_trans(p0, p1, p2);
        crate::solve_path::lemma_extends_trans(p0, p2, *path);
        if fills_some(g0, *grid) {
            if !did_black && !did_white && !did_empty {
                let (r, c) = choose|r: int, c: int|
                    g0.contains_pos(r, c) && g0.at(r, c) == Cell::Empty && #[trigger] grid.at(r, c)
                        != Cell::Empty;
                assert(g1.at(r, c) == Cell::Empty);
                assert(g2.at(r, c) == Cell::Empty);
            }
        }
    }
    proof {
        assert(connectivity_passes(g0, g1, g2, *grid));
        crate::replay::lemma_replays_trans(p0, p1, p2, g0, g1, g2);
        crate::replay::lemma_replays_trans(p0, p2, *path, g0, g2, *grid);
        let s1 = choose|s: Seq<SolveStep>| #[trigger] pass_record(s, g0, g1) && crate::solve_path::recorded(p0, p1, s);
        let s2 = choose|s: Seq<SolveStep>| #[trigger] pass_record(s, g1, g2) && crate::solve_path::recorded(p1, p2, s);
        let s3 = choose|s: Seq<SolveStep>| #[trigger] crate::isolation::isolation_record(s, g2, *grid) && crate::solve_path::recorded(
            p2,
            *path,
            s,
        );
        crate::solve_path::lemma_recorded_trans(p0, p1, p2, s1, s2);
        crate::solve_path::lemma_recorded_trans(p0, p2, *path, s1 + s2, s3);
        assert(connectivity_steps(g0, g1, g2, *grid, s1 + s2 + s3));
    }
    did_black || did_white || did_empty
}

} // verus!
