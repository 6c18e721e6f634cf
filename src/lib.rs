//! A fixed-shape, row-major boolean matrix packed into 64-bit words, with
//! whole-matrix, row-wise and column-wise AND, OR and XOR.
use vstd::prelude::*;

pub mod bits;
pub mod count;
pub mod kernel;
pub mod laws;
pub mod matrix;

pub use kernel::{block_and, block_or, block_xor};
pub use matrix::{BitMatrix, ColIter, MatrixError, RowIter};

verus! {

} // verus!
