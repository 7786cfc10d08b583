use vstd::prelude::*;

use crate::array::Array2;
use crate::cell::{opposite, Cell};
use crate::iter::{IterAdjacent, IterBorderPositions};

verus! {

/// Operations on a cell.
pub trait CellExt {
    fn inv(self) -> Cell;

    fn empty(self) -> bool;
}

impl CellExt for Cell {
    /// The opposite colour; `Empty` stays `Empty`.
    fn inv(self) -> (res: Cell)
        ensures
            res == opposite(self),
    {
        match self {
            Cell::Empty => Cell::Empty,
            Cell::Black => Cell::White,
            Cell::White => Cell::Black,
        }
    }

    fn empty(self) -> (res: bool)
        ensures
            res == (self == Cell::Empty),
    {
        self == Cell::Empty
    }
}

/// Operations on a two-dimensional array.
pub trait ArrayExt {
    spec fn array_wf(&self) -> bool;

    /// (rows, cols)
    spec fn shape(&self) -> (int, int);

    /// An array of the same shape with every element equal to `value`.
    fn dup_filled<U: Copy>(&self, value: U) -> (res: Array2<U>)
        requires
            self.array_wf(),
        ensures
            res.wf(),
            res.rows == self.shape().0,
            res.cols == self.shape().1,
            forall|i: int| 0 <= i < res.data@.len() ==> res.data@[i] == value,
    ;

    /// The neighbours of `rc` inside the array.
    fn iter_adj(&self, rc: (usize, usize)) -> (res: IterAdjacent)
        ensures
            res@ == (self.shape().0, self.shape().1, rc.0 as int, rc.1 as int, 0int),
    ;

    /// The positions round the edge of the array.
    fn iter_border_positions(&self) -> (res: IterBorderPositions)
        ensures
            res@ == (self.shape().0, self.shape().1, 0int),
    ;
}

impl<T> ArrayExt for Array2<T> {
    open spec fn array_wf(&self) -> bool {
        self.wf()
    }

    open spec fn shape(&self) -> (int, int) {
        (self.rows as int, self.cols as int)
    }

    fn dup_filled<U: Copy>(&self, value: U) -> (res: Array2<U>) {
        Array2::filled(self.rows, self.cols, value)
    }

    fn iter_adj(&self, rc: (usize, usize)) -> (res: IterAdjacent) {
        IterAdjacent::new(self.rows, self.cols, rc.0, rc.1)
    }

    fn iter_border_positions(&self) -> (res: IterBorderPositions) {
        IterBorderPositions::new(self.rows, self.cols)
    }
}

} // verus!
