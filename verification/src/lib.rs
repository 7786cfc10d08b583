pub mod apply_2x2;
pub mod apply_border;
pub mod apply_connectivity;
pub mod apply_pbc;
pub mod array;
pub mod cell;
pub mod count;
pub mod dump;
pub mod ext;
pub mod fill;
pub mod region;
pub mod replay;
pub mod rules;
pub mod solve;
pub mod solve_path;
pub mod text;
pub mod input;
pub mod isolation;
pub mod iter;
pub mod output;

pub use array::Array2;
pub use cell::Cell;

use vstd::prelude::*;

verus! {

/// A puzzle grid.
pub type Grid = Array2<Cell>;

} // verus!
