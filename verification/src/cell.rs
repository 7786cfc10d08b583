use vstd::prelude::*;

verus! {

/// The content of one square of a yin-yang puzzle.
#[derive(Copy, Clone, Debug, PartialEq, Eq, Structural)]
pub enum Cell {
    Empty,
    Black,
    White,
}

/// The opposite colour; `Empty` stays `Empty`.
pub open spec fn opposite(c: Cell) -> Cell {
    match c {
        Cell::Empty => Cell::Empty,
        Cell::Black => Cell::White,
        Cell::White => Cell::Black,
    }
}

/// Taking the opposite twice gives the cell back, and only `Empty` is its own
/// opposite.
pub proof fn lemma_opposite_involution(c: Cell)
    ensures
        opposite(opposite(c)) == c,
        opposite(c) == c <==> c == Cell::Empty,
{
}

} // verus!
