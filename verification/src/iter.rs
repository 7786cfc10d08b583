use vstd::prelude::*;

verus! {

/// The `idx`-th position of a clockwise walk round the edge of a
/// `rows` x `cols` grid, starting at the top-left corner: along the top edge,
/// down the right edge, back along the bottom edge and up the left edge.
pub open spec fn border_pos(rows: int, cols: int, idx: int) -> Option<(int, int)> {
    let nr = rows - 1;
    let nc = cols - 1;
    if idx < nc {
        Some((0, idx))
    } else if idx - nc < nr {
        Some((idx - nc, nc))
    } else if idx - nc - nr < nc {
        Some((nr, nc - (idx - nc - nr)))
    } else if idx - nc - nr - nc < nr {
        Some((nr - (idx - nc - nr - nc), 0))
    } else {
        None
    }
}

/// The number of positions in that walk.
pub open spec fn border_len(rows: int, cols: int) -> int {
    2 * ((rows - 1) + (cols - 1))
}

/// The positions round the border, one after another.
pub struct IterBorderPositions {
    rows: usize,
    cols: usize,
    next: usize,
}

impl View for IterBorderPositions {
    /// (rows, cols, index of the next position)
    type V = (int, int, int);

    closed spec fn view(&self) -> (int, int, int) {
        (self.rows as int, self.cols as int, self.next as int)
    }
}

impl IterBorderPositions {
    /// The walk round the border of a `rows` x `cols` grid, from (0, 0)
    /// clockwise.
    pub fn new(rows: usize, cols: usize) -> (res: IterBorderPositions)
        ensures
            res@ == (rows as int, cols as int, 0int),
    {
        IterBorderPositions { rows, cols, next: 0 }
    }

    /// The position that `next` gives next, leaving the walk where it is.
    pub fn peek(&mut self) -> (res: Option<(usize, usize)>)
        requires
            old(self)@.0 >= 1,
            old(self)@.1 >= 1,
            0 <= old(self)@.2,
        ensures
            final(self)@ == old(self)@,
            res matches Some(p) ==> border_pos(old(self)@.0, old(self)@.1, old(self)@.2) == Some(
                (p.0 as int, p.1 as int),
            ),
            res is None ==> border_pos(old(self)@.0, old(self)@.1, old(self)@.2) is None,
    {
        let mut idx = self.next;
        let nr = self.rows - 1;
        let nc = self.cols - 1;
        // top edge
        if idx < nc {
            return Some((0, idx));
        }
        idx -= nc;
        // right edge
        if idx < nr {
            return Some((idx, nc));
        }
        idx -= nr;
        // bottom edge
        if idx < nc {
            return Some((nr, nc - idx));
        }
        idx -= nc;
        // left edge
        if idx < nr {
            return Some((nr - idx, 0));
        }
        None
    }

    /// The next position of the walk; `None` once it has gone all the way round.
    pub fn next(&mut self) -> (res: Option<(usize, usize)>)
        requires
            old(self)@.0 >= 1,
            old(self)@.1 >= 1,
            old(self)@.2 < usize::MAX,
        ensures
            final(self)@.0 == old(self)@.0,
            final(self)@.1 == old(self)@.1,
            res matches Some(p) ==> border_pos(old(self)@.0, old(self)@.1, old(self)@.2) == Some(
                (p.0 as int, p.1 as int),
            ) && final(self)@.2 == old(self)@.2 + 1,
            res is None ==> border_pos(old(self)@.0, old(self)@.1, old(self)@.2) is None
                && final(self)@.2 == old(self)@.2,
    {
        let res = self.peek();
        if res.is_some() {
            self.next = self.next + 1;
        }
        res
    }
}

/// The `k`-th neighbour looked at by the adjacency walk round (r, c):
/// below, right, above, left, each only where it lies inside the grid.
pub open spec fn adj_candidate(rows: int, cols: int, r: int, c: int, k: int) -> Option<(int, int)> {
    if k == 0 {
        if r + 1 < rows {
            Some((r + 1, c))
        } else {
            None
        }
    } else if k == 1 {
        if c + 1 < cols {
            Some((r, c + 1))
        } else {
            None
        }
    } else if k == 2 {
        if r >= 1 {
            Some((r - 1, c))
        } else {
            None
        }
    } else if k == 3 {
        if c >= 1 {
            Some((r, c - 1))
        } else {
            None
        }
    } else {
        None
    }
}

/// The neighbours met by the adjacency walk round (r, c) are the cells of the
/// grid next to it, and never (r, c) itself: so one cell is met round another
/// exactly when the other is met round it.
pub proof fn lemma_adj_candidate_symmetric(rows: int, cols: int, r1: int, c1: int, r2: int, c2: int)
    requires
        0 <= r1 < rows,
        0 <= c1 < cols,
        0 <= r2 < rows,
        0 <= c2 < cols,
    ensures
        (exists|k: int| 0 <= k < 4 && #[trigger] adj_candidate(rows, cols, r1, c1, k) == Some((r2, c2)))
            <==> (exists|k: int| 0 <= k < 4 && #[trigger] adj_candidate(rows, cols, r2, c2, k) == Some((r1, c1))),
        forall|k: int| #[trigger] adj_candidate(rows, cols, r1, c1, k) != Some((r1, c1)),
{
    let near = (r1 == r2 && (c1 == c2 + 1 || c2 == c1 + 1)) || (c1 == c2 && (r1 == r2 + 1 || r2 == r1 + 1));
    if near {
        let k1: int = if r2 == r1 + 1 { 0 } else if c2 == c1 + 1 { 1 } else if r1 == r2 + 1 { 2 } else { 3 };
        let k2: int = if r1 == r2 + 1 { 0 } else if c1 == c2 + 1 { 1 } else if r2 == r1 + 1 { 2 } else { 3 };
        assert(adj_candidate(rows, cols, r1, c1, k1) == Some((r2, c2)));
        assert(adj_candidate(rows, cols, r2, c2, k2) == Some((r1, c1)));
    } else {
        assert forall|k: int| 0 <= k < 4 implies #[trigger] adj_candidate(rows, cols, r1, c1, k) != Some((r2, c2)) by {
        }
        assert forall|k: int| 0 <= k < 4 implies #[trigger] adj_candidate(rows, cols, r2, c2, k) != Some((r1, c1)) by {
        }
    }
}

/// The first `k' >= k` whose candidate exists, or `max(k, 4)` when none does.
pub open spec fn adj_next_index(rows: int, cols: int, r: int, c: int, k: int) -> int
    decreases 4 - k,
{
    if k >= 4 {
        k
    } else if adj_candidate(rows, cols, r, c, k) is Some {
        k
    } else {
        adj_next_index(rows, cols, r, c, k + 1)
    }
}

/// The first neighbour index at or after `k` that names a cell inside the
/// grid, or 4 when none does.
pub proof fn lemma_adj_next_index(rows: int, cols: int, r: int, c: int, k: int)
    ensures
        adj_next_index(rows, cols, r, c, k) >= k,
        adj_next_index(rows, cols, r, c, k) < 4 ==> adj_candidate(
            rows,
            cols,
            r,
            c,
            adj_next_index(rows, cols, r, c, k),
        ) is Some,
        adj_next_index(rows, cols, r, c, k) >= 4 ==> adj_next_index(rows, cols, r, c, k) == (
        if k >= 4 {
            k
        } else {
            4
        }),
        forall|j: int|
            k <= j < adj_next_index(rows, cols, r, c, k) ==> adj_candidate(rows, cols, r, c, j) is None,
    decreases 4 - k,
{
    if k < 4 && adj_candidate(rows, cols, r, c, k) is None {
        lemma_adj_next_index(rows, cols, r, c, k + 1);
    }
}

/// The neighbours that the adjacency walk round (r, c) yields from candidate
/// index `k` on, in order.
pub open spec fn adj_rest(rows: int, cols: int, r: int, c: int, k: int) -> Seq<(int, int)>
    decreases 4 - k,
{
    if k >= 4 {
        Seq::empty()
    } else {
        match adj_candidate(rows, cols, r, c, k) {
            Some(p) => seq![p] + adj_rest(rows, cols, r, c, k + 1),
            None => adj_rest(rows, cols, r, c, k + 1),
        }
    }
}

/// Skipping the candidates that lie outside the grid changes nothing that
/// is yielded.
proof fn lemma_adj_rest_skip(rows: int, cols: int, r: int, c: int, k: int)
    ensures
        adj_rest(rows, cols, r, c, k) == adj_rest(rows, cols, r, c, adj_next_index(rows, cols, r, c, k)),
    decreases 4 - k,
{
    if k < 4 && adj_candidate(rows, cols, r, c, k) is None {
        lemma_adj_rest_skip(rows, cols, r, c, k + 1);
    }
}

/// A cell is yielded from index `k` on exactly when one of the candidates
/// from `k` on names it.
proof fn lemma_adj_rest_contains(rows: int, cols: int, r: int, c: int, k: int, p: (int, int))
    requires
        0 <= k,
    ensures
        adj_rest(rows, cols, r, c, k).contains(p) <==> exists|j: int|
            k <= j < 4 && #[trigger] adj_candidate(rows, cols, r, c, j) == Some(p),
    decreases 4 - k,
{
    if k < 4 {
        lemma_adj_rest_contains(rows, cols, r, c, k + 1, p);
        let rest = adj_rest(rows, cols, r, c, k + 1);
        if let Some(q) = adj_candidate(rows, cols, r, c, k) {
            assert((seq![q] + rest).contains(p) <==> (q == p || rest.contains(p))) by {
                if (seq![q] + rest).contains(p) {
                    let i = choose|i: int| 0 <= i < (seq![q] + rest).len() && (seq![q] + rest)[i] == p;
                    if i > 0 {
                        assert(rest[i - 1] == p);
                    }
                }
                if rest.contains(p) {
                    let i = choose|i: int| 0 <= i < rest.len() && rest[i] == p;
                    assert((seq![q] + rest)[i + 1] == p);
                }
                if q == p {
                    assert((seq![q] + rest)[0] == p);
                }
            }
        }
        if exists|j: int| k <= j < 4 && #[trigger] adj_candidate(rows, cols, r, c, j) == Some(p) {
            let j = choose|j: int| k <= j < 4 && #[trigger] adj_candidate(rows, cols, r, c, j) == Some(p);
            if j > k {
                assert(k + 1 <= j < 4 && adj_candidate(rows, cols, r, c, j) == Some(p));
            }
        }
    } else {
        assert forall|j: int| k <= j < 4 implies #[trigger] adj_candidate(rows, cols, r, c, j) != Some(p) by {}
    }
}

/// The walk round a cell of the grid yields the cells next to it and never
/// the cell itself: one cell is yielded round another exactly when the other
/// is yielded round it.
pub proof fn lemma_adj_walk_symmetric(rows: int, cols: int, r1: int, c1: int, r2: int, c2: int)
    requires
        0 <= r1 < rows,
        0 <= c1 < cols,
        0 <= r2 < rows,
        0 <= c2 < cols,
    ensures
        adj_rest(rows, cols, r1, c1, 0).contains((r2, c2)) <==> adj_rest(rows, cols, r2, c2, 0).contains((r1, c1)),
        !adj_rest(rows, cols, r1, c1, 0).contains((r1, c1)),
{
    lemma_adj_rest_contains(rows, cols, r1, c1, 0, (r2, c2));
    lemma_adj_rest_contains(rows, cols, r2, c2, 0, (r1, c1));
    lemma_adj_rest_contains(rows, cols, r1, c1, 0, (r1, c1));
    lemma_adj_candidate_symmetric(rows, cols, r1, c1, r2, c2);
}

/// The neighbours of one position, in the order below, right, above, left.
pub struct IterAdjacent {
    rows: usize,
    cols: usize,
    row: usize,
    col: usize,
    next: usize,
}

impl View for IterAdjacent {
    /// (rows, cols, row, col, index of the next candidate)
    type V = (int, int, int, int, int);

    closed spec fn view(&self) -> (int, int, int, int, int) {
        (self.rows as int, self.cols as int, self.row as int, self.col as int, self.next as int)
    }
}

impl IterAdjacent {
    /// The neighbours of (row, col) inside a `rows` x `cols` grid: below,
    /// right, above, left.
    pub fn new(rows: usize, cols: usize, row: usize, col: usize) -> (res: IterAdjacent)
        ensures
            res@ == (rows as int, cols as int, row as int, col as int, 0int),
    {
        IterAdjacent { rows, cols, row, col, next: 0 }
    }

    /// The next neighbour inside the grid, or `None` when all four have been looked at.
    pub fn next(&mut self) -> (res: Option<(usize, usize)>)
        requires
            old(self)@.2 < usize::MAX,
            old(self)@.3 < usize::MAX,
        ensures
            ({
                let (rows, cols, r, c, k) = old(self)@;
                let k2 = adj_next_index(rows, cols, r, c, k);
                &&& final(self)@.0 == rows
                &&& final(self)@.1 == cols
                &&& final(self)@.2 == r
                &&& final(self)@.3 == c
                &&& k2 < 4 ==> (res matches Some(p) && adj_candidate(rows, cols, r, c, k2) == Some(
                    (p.0 as int, p.1 as int),
                ) && final(self)@.4 == k2 + 1)
                &&& k2 >= 4 ==> res is None && final(self)@.4 == k2
            }),
        ({
            let (rows, cols, r, c, k) = old(self)@;
            adj_rest(rows, cols, r, c, k) == match res {
                Some(p) => seq![(p.0 as int, p.1 as int)] + adj_rest(rows, cols, r, c, final(self)@.4),
                None => Seq::empty(),
            }
        }),
    {
        let r = self.row;
        let c = self.col;
        let ghost k0 = self.next as int;
        let ghost target = adj_next_index(self.rows as int, self.cols as int, r as int, c as int, k0);
        proof {
            lemma_adj_next_index(self.rows as int, self.cols as int, r as int, c as int, k0);
            lemma_adj_rest_skip(self.rows as int, self.cols as int, r as int, c as int, k0);
        }
        loop
            invariant
                self.rows == old(self).rows,
                self.cols == old(self).cols,
                self.row == r,
                self.col == c,
                r == old(self).row,
                c == old(self).col,
                k0 == old(self).next,
                r < usize::MAX,
                c < usize::MAX,
                k0 <= self.next <= target,
                target == adj_next_index(self.rows as int, self.cols as int, r as int, c as int, k0),
                target == adj_next_index(self.rows as int, self.cols as int, r as int, c as int, self.next as int),
                adj_rest(self.rows as int, self.cols as int, r as int, c as int, k0) == adj_rest(
                    self.rows as int,
                    self.cols as int,
                    r as int,
                    c as int,
                    target,
                ),
            decreases 5 - self.next,
        {
            proof {
                lemma_adj_next_index(self.rows as int, self.cols as int, r as int, c as int, self.next as int);
            }
            let res = if self.next == 0 {
                if r + 1 < self.rows { Some((r + 1, c)) } else { None }
            } else if self.next == 1 {
                if c + 1 < self.cols { Some((r, c + 1)) } else { None }
            } else if self.next == 2 {
                if r >= 1 { Some((r - 1, c)) } else { None }
            } else if self.next == 3 {
                if c >= 1 { Some((r, c - 1)) } else { None }
            } else {
                proof {
                    assert(adj_rest(self.rows as int, self.cols as int, r as int, c as int, target) =~= Seq::empty());
                }
                return None;
            };
            self.next = self.next + 1;
            if let Some(p) = res {
                proof {
                    assert(adj_rest(self.rows as int, self.cols as int, r as int, c as int, target) == seq![
                        (p.0 as int, p.1 as int),
                    ] + adj_rest(self.rows as int, self.cols as int, r as int, c as int, self.next as int));
                }
                return Some(p);
            }
        }
    }
}

} // verus!
