use vstd::prelude::*;

verus! {

/// Why a board could not be checked or built.
#[derive(Debug, Clone, Copy, PartialEq, Eq, Structural)]
pub enum BoardError {
    /// The tiles are not a permutation of `0..len` on a grid of width at
    /// least 2 and at least 4 cells.
    InvalidBoard,
    /// The piece type cannot hold the largest tile number, or the number of
    /// cells does not fit in `usize`.
    UnrepresentableSize,
}

} // verus!
