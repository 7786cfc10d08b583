use vstd::prelude::*;

verus! {

/// A dense two-dimensional array stored row by row.
#[derive(Debug)]
pub struct Array2<T> {
    pub rows: usize,
    pub cols: usize,
    pub data: Vec<T>,
}

/// The sizes that the solver's index arithmetic can hold: every index, every
/// border walk and every dfs counter stays far below `usize::MAX`.
pub open spec fn size_ok(rows: int, cols: int) -> bool {
    &&& 0 <= rows <= usize::MAX / 8
    &&& 0 <= cols <= usize::MAX / 8
    &&& rows * cols <= usize::MAX / 8
}

/// (r, c) lies in a `rows` x `cols` array.
pub open spec fn in_bounds(rows: int, cols: int, r: int, c: int) -> bool {
    0 <= r < rows && 0 <= c < cols
}

/// The index of (r, c) in the row-by-row data.
pub open spec fn flat_index(cols: int, r: int, c: int) -> int {
    r * cols + c
}

/// The flat index of a position in the array lies inside its data.
pub proof fn lemma_index_bounds(rows: int, cols: int, r: int, c: int)
    requires
        in_bounds(rows, cols, r, c),
    ensures
        0 <= flat_index(cols, r, c) < rows * cols,
{
    assert(0 <= r * cols + c < rows * cols) by (nonlinear_arith)
        requires
            0 <= r < rows,
            0 <= c < cols,
    ;
}

/// Distinct positions have distinct flat indices.
pub proof fn lemma_index_injective(cols: int, r1: int, c1: int, r2: int, c2: int)
    requires
        0 <= r1,
        0 <= r2,
        0 <= c1 < cols,
        0 <= c2 < cols,
        flat_index(cols, r1, c1) == flat_index(cols, r2, c2),
    ensures
        r1 == r2,
        c1 == c2,
{
    if r1 < r2 {
        assert(r1 * cols + cols <= r2 * cols) by (nonlinear_arith)
            requires
                r1 < r2,
                0 < cols,
        ;
    } else if r2 < r1 {
        assert(r2 * cols + cols <= r1 * cols) by (nonlinear_arith)
            requires
                r2 < r1,
                0 < cols,
        ;
    }
}

/// Row-major order: one position comes before another in the flat layout
/// exactly when it lies in an earlier row, or further left in the same row.
pub proof fn lemma_flat_order(cols: int, r1: int, c1: int, r2: int, c2: int)
    requires
        0 <= r1,
        0 <= r2,
        0 <= c1 < cols,
        0 <= c2 < cols,
    ensures
        flat_index(cols, r1, c1) < flat_index(cols, r2, c2) <==> (r1 < r2 || (r1 == r2 && c1 < c2)),
{
    if r1 < r2 {
        assert(r1 * cols + cols <= r2 * cols) by (nonlinear_arith)
            requires
                r1 < r2,
                0 < cols,
        ;
    } else if r2 < r1 {
        assert(r2 * cols + cols <= r1 * cols) by (nonlinear_arith)
            requires
                r2 < r1,
                0 < cols,
        ;
    }
}

/// Every flat index below `rows * cols` is the index of one position.
pub proof fn lemma_index_onto(rows: int, cols: int, i: int)
    requires
        0 <= rows,
        0 <= cols,
        0 <= i < rows * cols,
    ensures
        in_bounds(rows, cols, i / cols, i % cols),
        flat_index(cols, i / cols, i % cols) == i,
{
    assert(cols > 0) by (nonlinear_arith)
        requires
            0 <= rows,
            0 <= cols,
            0 <= i < rows * cols,
    ;
    vstd::arithmetic::div_mod::lemma_fundamental_div_mod(i, cols);
    assert(0 <= i % cols < cols) by {
        vstd::arithmetic::div_mod::lemma_mod_bound(i, cols);
    }
    assert(0 <= i / cols < rows) by (nonlinear_arith)
        requires
            0 <= i < rows * cols,
            cols > 0,
            i == cols * (i / cols) + (i % cols),
            0 <= i % cols < cols,
    ;
    assert(i / cols * cols == cols * (i / cols)) by (nonlinear_arith);
}

impl<T> Array2<T> {
    /// The data holds one element per position, and the size is one the
    /// solver can index.
    pub open spec fn wf(&self) -> bool {
        &&& self.data@.len() == self.rows * self.cols
        &&& size_ok(self.rows as int, self.cols as int)
    }

    /// (r, c) is a position of the array.
    pub open spec fn contains_pos(&self, r: int, c: int) -> bool {
        in_bounds(self.rows as int, self.cols as int, r, c)
    }

    /// The element at row `r`, column `c`.
    pub open spec fn at(&self, r: int, c: int) -> T {
        self.data@[flat_index(self.cols as int, r, c)]
    }

    /// An array over `data`, read row by row; `None` where the length does not
    /// match or the size is beyond what the solver indexes.
    pub fn new(rows: usize, cols: usize, data: Vec<T>) -> (res: Option<Self>)
        ensures
            res is Some <==> (data@.len() == rows * cols && size_ok(rows as int, cols as int)),
            res matches Some(a) ==> a.wf() && a.rows == rows && a.cols == cols && a.data@ == data@,
    {
        if rows > usize::MAX / 8 || cols > usize::MAX / 8 {
            return None;
        }
        if cols != 0 && rows > (usize::MAX / 8) / cols {
            proof {
                let m = (usize::MAX / 8) as int;
                let q = m / (cols as int);
                vstd::arithmetic::div_mod::lemma_fundamental_div_mod(m, cols as int);
                vstd::arithmetic::div_mod::lemma_mod_bound(m, cols as int);
                assert(rows * cols > m) by (nonlinear_arith)
                    requires
                        cols > 0,
                        rows >= q + 1,
                        m == cols * q + m % (cols as int),
                        m % (cols as int) < cols,
                ;
            }
            return None;
        }
        proof {
            if cols != 0 {
                assert(rows * cols <= usize::MAX / 8) by (nonlinear_arith)
                    requires
                        cols > 0,
                        rows <= (usize::MAX / 8) / cols,
                ;
            }
        }
        if data.len() != rows * cols {
            return None;
        }
        Some(Array2 { rows, cols, data })
    }

    /// The number of rows.
    pub fn rows(&self) -> (r: usize)
        ensures
            r == self.rows,
    {
        self.rows
    }

    /// The number of columns.
    pub fn cols(&self) -> (c: usize)
        ensures
            c == self.cols,
    {
        self.cols
    }

    /// The number of elements.
    pub fn len(&self) -> (n: usize)
        ensures
            n == self.data@.len(),
    {
        self.data.len()
    }

    /// The index of (r, c) in the data.
    pub fn index_of(&self, r: usize, c: usize) -> (i: usize)
        requires
            self.wf(),
            self.contains_pos(r as int, c as int),
        ensures
            i == flat_index(self.cols as int, r as int, c as int),
            i < self.data@.len(),
    {
        proof {
            lemma_index_bounds(self.rows as int, self.cols as int, r as int, c as int);
        }
        r * self.cols + c
    }

    /// Writes `v` at (r, c).
    pub fn set(&mut self, r: usize, c: usize, v: T)
        requires
            old(self).wf(),
            old(self).contains_pos(r as int, c as int),
        ensures
            final(self).wf(),
            final(self).rows == old(self).rows,
            final(self).cols == old(self).cols,
            final(self).data@ == old(self).data@.update(
                flat_index(old(self).cols as int, r as int, c as int),
                v,
            ),
            final(self).at(r as int, c as int) == v,
            forall|r2: int, c2: int|
                #![trigger final(self).at(r2, c2)]
                old(self).contains_pos(r2, c2) && (r2 != r || c2 != c) ==> final(self).at(r2, c2)
                    == old(self).at(r2, c2),
    {
        let i = self.index_of(r, c);
        self.data.set(i, v);
        proof {
            assert forall|r2: int, c2: int|
                #![trigger self.at(r2, c2)]
                old(self).contains_pos(r2, c2) && (r2 != r || c2 != c) implies self.at(r2, c2)
                == old(self).at(r2, c2) by {
                lemma_index_bounds(self.rows as int, self.cols as int, r2, c2);
                if flat_index(self.cols as int, r2, c2) == i {
                    lemma_index_injective(self.cols as int, r2, c2, r as int, c as int);
                }
            }
        }
    }
}

impl<T: Copy> Array2<T> {
    /// The element at (r, c).
    pub fn get(&self, r: usize, c: usize) -> (v: T)
        requires
            self.wf(),
            self.contains_pos(r as int, c as int),
        ensures
            v == self.at(r as int, c as int),
    {
        let i = self.index_of(r, c);
        self.data[i]
    }

    /// An array of the given shape with every element equal to `value`.
    pub fn filled(rows: usize, cols: usize, value: T) -> (res: Self)
        requires
            size_ok(rows as int, cols as int),
        ensures
            res.wf(),
            res.rows == rows,
            res.cols == cols,
            forall|i: int| 0 <= i < res.data@.len() ==> res.data@[i] == value,
    {
        let n = rows * cols;
        let mut data: Vec<T> = Vec::new();
        while data.len() < n
            invariant
                n == rows * cols,
                data@.len() <= n,
                forall|i: int| 0 <= i < data@.len() ==> data@[i] == value,
            decreases n - data@.len(),
        {
            data.push(value);
        }
        Array2 { rows, cols, data }
    }

    /// An element-by-element copy.
    pub fn copy(&self) -> (res: Self)
        requires
            self.wf(),
        ensures
            res.wf(),
            res.rows == self.rows,
            res.cols == self.cols,
            res.data@ == self.data@,
    {
        let n = self.data.len();
        let mut data: Vec<T> = Vec::new();
        while data.len() < n
            invariant
                n == self.data@.len(),
                data@.len() <= n,
                forall|i: int| 0 <= i < data@.len() ==> data@[i] == self.data@[i],
            decreases n - data@.len(),
        {
            let i = data.len();
            data.push(self.data[i]);
        }
        assert(data@ =~= self.data@);
        Array2 { rows: self.rows, cols: self.cols, data }
    }
}

} // verus!
