use vstd::prelude::*;

use crate::array::{in_bounds, size_ok};
use crate::cell::Cell;
use crate::iter::{adj_candidate, lemma_adj_next_index, IterAdjacent};
use crate::Grid;

verus! {

/// Two positions share an edge.
pub open spec fn adjacent(p: (int, int), q: (int, int)) -> bool {
    ||| p.0 == q.0 && (p.1 == q.1 + 1 || q.1 == p.1 + 1)
    ||| p.1 == q.1 && (p.0 == q.0 + 1 || q.0 == p.0 + 1)
}

/// Position `p` lies in the grid.
pub open spec fn on_grid(g: Grid, p: (int, int)) -> bool {
    in_bounds(g.rows as int, g.cols as int, p.0, p.1)
}

/// The cell at position `p`.
pub open spec fn cell_at(g: Grid, p: (int, int)) -> Cell {
    g.at(p.0, p.1)
}

/// A position given by two indices, as integers.
pub open spec fn upos(x: (usize, usize)) -> (int, int) {
    (x.0 as int, x.1 as int)
}

/// `s` is closed under stepping from one of its positions to an adjacent
/// position of `g` that holds `k`.
pub open spec fn closed_region(g: Grid, k: Cell, s: Set<(int, int)>) -> bool {
    forall|p: (int, int), q: (int, int)|
        #![trigger s.contains(p), s.contains(q)]
        s.contains(p) && on_grid(g, q) && adjacent(p, q) && cell_at(g, q) == k ==> s.contains(q)
}

/// `b` can be reached from `a` by steps between adjacent positions, every step
/// landing on a cell holding `k`: `b` lies in every closed region round `a`.
pub open spec fn reachable(g: Grid, k: Cell, a: (int, int), b: (int, int)) -> bool {
    forall|s: Set<(int, int)>| #[trigger] closed_region(g, k, s) && s.contains(a) ==> s.contains(b)
}

/// All the cells holding `k` form one region of adjacent cells.
pub open spec fn connected(g: Grid, k: Cell) -> bool {
    forall|a: (int, int), b: (int, int)|
        #![trigger cell_at(g, a), cell_at(g, b)]
        on_grid(g, a) && on_grid(g, b) && cell_at(g, a) == k && cell_at(g, b) == k ==> reachable(
            g,
            k,
            a,
            b,
        )
}

/// Two grids of one shape that agree on every cell have the same regions.
pub proof fn lemma_connected_same(g: Grid, h: Grid, k: Cell)
    requires
        g.rows == h.rows,
        g.cols == h.cols,
        forall|p: (int, int)| on_grid(g, p) ==> #[trigger] cell_at(h, p) == cell_at(g, p),
    ensures
        connected(g, k) == connected(h, k),
{
    assert forall|s: Set<(int, int)>| #[trigger] closed_region(g, k, s) == closed_region(h, k, s) by {
        if closed_region(g, k, s) {
            assert forall|p: (int, int), q: (int, int)|
                #![trigger s.contains(p), s.contains(q)]
                s.contains(p) && on_grid(h, q) && adjacent(p, q) && cell_at(h, q) == k implies s.contains(q) by {
                assert(cell_at(h, q) == cell_at(g, q));
            }
        }
        if closed_region(h, k, s) {
            assert forall|p: (int, int), q: (int, int)|
                #![trigger s.contains(p), s.contains(q)]
                s.contains(p) && on_grid(g, q) && adjacent(p, q) && cell_at(g, q) == k implies s.contains(q) by {
                assert(cell_at(h, q) == cell_at(g, q));
            }
        }
    }
    assert forall|a: (int, int), b: (int, int)| #[trigger] reachable(g, k, a, b) == reachable(h, k, a, b) by {
        if reachable(g, k, a, b) {
            assert forall|s: Set<(int, int)>| #[trigger] closed_region(h, k, s) && s.contains(a) implies s.contains(
                b,
            ) by {
                assert(closed_region(g, k, s));
            }
        }
        if reachable(h, k, a, b) {
            assert forall|s: Set<(int, int)>| #[trigger] closed_region(g, k, s) && s.contains(a) implies s.contains(
                b,
            ) by {
                assert(closed_region(h, k, s));
            }
        }
    }
    if connected(g, k) {
        assert forall|a: (int, int), b: (int, int)|
            #![trigger cell_at(h, a), cell_at(h, b)]
            on_grid(h, a) && on_grid(h, b) && cell_at(h, a) == k && cell_at(h, b) == k implies reachable(h, k, a, b) by {
            assert(cell_at(h, a) == cell_at(g, a) && cell_at(h, b) == cell_at(g, b));
            assert(reachable(g, k, a, b));
        }
    }
    if connected(h, k) {
        assert forall|a: (int, int), b: (int, int)|
            #![trigger cell_at(g, a), cell_at(g, b)]
            on_grid(g, a) && on_grid(g, b) && cell_at(g, a) == k && cell_at(g, b) == k implies reachable(g, k, a, b) by {
            assert(cell_at(h, a) == cell_at(g, a) && cell_at(h, b) == cell_at(g, b));
            assert(reachable(h, k, a, b));
        }
    }
}

/// Every cell reaches itself.
pub proof fn lemma_reachable_refl(g: Grid, k: Cell, a: (int, int))
    ensures
        reachable(g, k, a, a),
{
}

/// A step to an adjacent cell of the colour extends a path.
pub proof fn lemma_reachable_step(g: Grid, k: Cell, a: (int, int), p: (int, int), q: (int, int))
    requires
        reachable(g, k, a, p),
        on_grid(g, q),
        adjacent(p, q),
        cell_at(g, q) == k,
    ensures
        reachable(g, k, a, q),
{
    assert forall|s: Set<(int, int)>| #[trigger] closed_region(g, k, s) && s.contains(a) implies s.contains(q) by {
        assert(s.contains(p));
    }
}

/// Paths compose.
pub proof fn lemma_reachable_trans(g: Grid, k: Cell, a: (int, int), b: (int, int), c: (int, int))
    requires
        reachable(g, k, a, b),
        reachable(g, k, b, c),
    ensures
        reachable(g, k, a, c),
{
    assert forall|s: Set<(int, int)>| #[trigger] closed_region(g, k, s) && s.contains(a) implies s.contains(c) by {
        assert(s.contains(b));
    }
}

/// A path from a cell of the colour can be walked back.
pub proof fn lemma_reachable_symm(g: Grid, k: Cell, a: (int, int), b: (int, int))
    requires
        reachable(g, k, a, b),
        on_grid(g, a),
        cell_at(g, a) == k,
    ensures
        reachable(g, k, b, a),
{
    assert forall|s: Set<(int, int)>| #[trigger] closed_region(g, k, s) && s.contains(b) implies s.contains(a) by {
        if !s.contains(a) {
            let t = Set::new(|p: (int, int)| on_grid(g, p) && cell_at(g, p) == k && !s.contains(p));
            assert forall|p: (int, int), q: (int, int)|
                #![trigger t.contains(p), t.contains(q)]
                t.contains(p) && on_grid(g, q) && adjacent(p, q) && cell_at(g, q) == k implies t.contains(q) by {
                if s.contains(q) {
                    assert(adjacent(q, p));
                    assert(s.contains(p));
                }
            }
            assert(closed_region(g, k, t));
            assert(t.contains(a));
            assert(t.contains(b));
        }
    }
}

/// The positions adjacent to (r, c) inside the grid, collected from an
/// [`IterAdjacent`] walk (below, right, above, left).
pub fn adjacent_cells(rows: usize, cols: usize, r: usize, c: usize) -> (res: Vec<(usize, usize)>)
    requires
        in_bounds(rows as int, cols as int, r as int, c as int),
        size_ok(rows as int, cols as int),
    ensures
        res@.len() <= 4,
        forall|j: int|
            0 <= j < res@.len() ==> in_bounds(rows as int, cols as int, res@[j].0 as int, res@[j].1 as int)
                && adjacent((r as int, c as int), upos(#[trigger] res@[j])),
        forall|a: usize, b: usize|
            in_bounds(rows as int, cols as int, a as int, b as int) && adjacent(
                (r as int, c as int),
                (a as int, b as int),
            ) ==> #[trigger] res@.contains((a, b)),
{
    let mut it = IterAdjacent::new(rows, cols, r, c);
    let mut res: Vec<(usize, usize)> = Vec::new();
    loop
        invariant
            it@.0 == rows,
            it@.1 == cols,
            it@.2 == r,
            it@.3 == c,
            0 <= it@.4 <= 4,
            in_bounds(rows as int, cols as int, r as int, c as int),
            r < usize::MAX,
            c < usize::MAX,
            res@.len() <= it@.4,
            forall|j: int|
                0 <= j < res@.len() ==> exists|k: int|
                    0 <= k < it@.4 && adj_candidate(rows as int, cols as int, r as int, c as int, k)
                        == Some(upos(#[trigger] res@[j])),
            forall|k: int|
                0 <= k < it@.4 && adj_candidate(rows as int, cols as int, r as int, c as int, k) is Some
                    ==> res@.contains(
                    cand_usize(rows, cols, r, c, k),
                ),
        decreases 5 - it@.4,
    {
        let ghost k_old = it@.4;
        proof {
            lemma_adj_next_index(rows as int, cols as int, r as int, c as int, k_old);
        }
        match it.next() {
            Some(p) => {
                let ghost k2 = adj_next_index_ghost(rows, cols, r, c, k_old);
                let ghost old_res = res@;
                res.push(p);
                proof {
                    assert forall|j: int|
                        0 <= j < res@.len() implies exists|k: int|
                        0 <= k < it@.4 && adj_candidate(rows as int, cols as int, r as int, c as int, k)
                            == Some(upos(#[trigger] res@[j])) by {
                        if j == res@.len() - 1 {
                            assert(adj_candidate(rows as int, cols as int, r as int, c as int, k2)
                                == Some(upos(res@[j])));
                        } else {
                            assert(res@[j] == old_res_at(res@, j));
                        }
                    }
                    assert forall|k: int|
                        0 <= k < it@.4 && adj_candidate(rows as int, cols as int, r as int, c as int, k) is Some
                        implies res@.contains(
                        cand_usize(rows, cols, r, c, k),
                    ) by {
                        if k == k2 {
                            assert(res@[res@.len() - 1] == p);
                        } else {
                            assert(k < k_old);
                            let e = cand_usize(rows, cols, r, c, k);
                            assert(old_res.contains(e));
                            let i = choose|i: int| 0 <= i < old_res.len() && old_res[i] == e;
                            assert(res@[i] == e);
                        }
                    }
                }
            },
            None => {
                proof {
                    assert forall|a: usize, b: usize|
                        in_bounds(rows as int, cols as int, a as int, b as int) && adjacent(
                            (r as int, c as int),
                            (a as int, b as int),
                        ) implies #[trigger] res@.contains((a, b)) by {
                        let k = if a as int == r + 1 {
                            0int
                        } else if b as int == c + 1 {
                            1int
                        } else if a as int + 1 == r {
                            2int
                        } else {
                            3int
                        };
                        assert(adj_candidate(rows as int, cols as int, r as int, c as int, k) == Some(
                            (a as int, b as int),
                        ));
                    }
                    assert forall|j: int|
                        0 <= j < res@.len() implies in_bounds(
                        rows as int,
                        cols as int,
                        res@[j].0 as int,
                        res@[j].1 as int,
                    ) && adjacent((r as int, c as int), upos(#[trigger] res@[j])) by {
                        let e = res@[j];
                        assert(exists|k: int|
                            0 <= k < it@.4 && adj_candidate(rows as int, cols as int, r as int, c as int, k)
                                == Some(upos(e)));
                        let k = choose|k: int|
                            0 <= k < it@.4 && adj_candidate(rows as int, cols as int, r as int, c as int, k)
                                == Some(upos(e));
                        assert(0 <= k < 4);
                        assert(adj_candidate(rows as int, cols as int, r as int, c as int, k) == Some(upos(e)));
                        if k == 0 {
                        } else if k == 1 {
                        } else if k == 2 {
                        } else {
                        }
                    }
                }
                return res;
            },
        }
    }
}

spec fn cand_usize(rows: usize, cols: usize, r: usize, c: usize, k: int) -> (usize, usize) {
    let p = adj_candidate(rows as int, cols as int, r as int, c as int, k).unwrap();
    (p.0 as usize, p.1 as usize)
}

spec fn old_res_at(s: Seq<(usize, usize)>, j: int) -> (usize, usize) {
    s[j]
}

spec fn adj_next_index_ghost(rows: usize, cols: usize, r: usize, c: usize, k: int) -> int {
    crate::iter::adj_next_index(rows as int, cols as int, r as int, c as int, k)
}

} // verus!
