//! A board whose width and height are part of its type.
use vstd::prelude::*;

use crate::board::BoxPuzzle;
use crate::error::BoardError;
use crate::piece::Piece;
use crate::puzzle::Puzzle;
use crate::solvable::{board_layout, values};

verus! {

/// A sliding-tile puzzle of `W` columns and `H` rows.
#[derive(Clone)]
pub struct StackPuzzle<const W: usize, const H: usize, T: Piece> {
    board: BoxPuzzle<T>,
}

impl<const W: usize, const H: usize, T: Piece> StackPuzzle<W, H, T> {
    /// The board underneath.
    pub closed spec fn inner(&self) -> BoxPuzzle<T> {
        self.board
    }

    /// The board is a board of `W` columns and `H` rows.
    pub open spec fn wf(&self) -> bool {
        &&& self.inner().wf()
        &&& self.inner().grid_width() == W
        &&& self.inner().grid_height() == H
    }

    /// A board of the given tiles, row by row. Fails unless there are
    /// `W * H` of them, each of `0..W * H` once, with `W` and `H` at least 2.
    pub fn from_pieces(pieces: Vec<T>) -> (r: Result<Self, BoardError>)
        ensures
            match r {
                Ok(p) => p.wf() && p.inner().cells() == pieces@,
                Err(e) => e == BoardError::InvalidBoard && !(board_layout(pieces@, W as int)
                    && pieces@.len() == W * H),
            },
    {
        let n = pieces.len();
        if W == 0 || H == 0 {
            return Err(BoardError::InvalidBoard);
        }
        proof {
            vstd::arithmetic::div_mod::lemma_fundamental_div_mod(n as int, W as int);
            vstd::arithmetic::div_mod::lemma_div_multiples_vanish(H as int, W as int);
            vstd::arithmetic::div_mod::lemma_mod_multiples_basic(H as int, W as int);
            assert(H * W == W * H) by (nonlinear_arith);
        }
        if n / W != H || n % W != 0 {
            return Err(BoardError::InvalidBoard);
        }
        match BoxPuzzle::from_pieces(pieces, W) {
            Ok(board) => Ok(StackPuzzle { board }),
            Err(e) => Err(e),
        }
    }
}

impl<const W: usize, const H: usize, T: Piece> Puzzle<T> for StackPuzzle<W, H, T> {
    open spec fn pieces(&self) -> Seq<T> {
        self.inner().cells()
    }

    open spec fn columns(&self) -> int {
        self.inner().grid_width()
    }

    fn shape(&self) -> (r: (usize, usize)) {
        self.board.shape()
    }

    fn get(&self, x: usize, y: usize) -> (r: T) {
        self.board.get(x, y)
    }

    fn index_of(&self, value: T) -> (r: Option<(usize, usize)>) {
        let r = self.board.index_of(value);
        assert(self.board.pieces() == self.pieces());
        r
    }

    fn slide_from(&mut self, from: (usize, usize)) -> (r: Option<usize>) {
        self.board.slide_from(from)
    }
}

impl Default for StackPuzzle<4, 4, u8> {
    /// The solved board of width and height 4.
    fn default() -> (r: Self)
        ensures
            r.wf(),
            values(r.inner().cells()) == crate::solvable::solved_layout(16),
    {
        StackPuzzle { board: BoxPuzzle::default() }
    }
}

} // verus!
