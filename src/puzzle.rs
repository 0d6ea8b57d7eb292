//! The interface of a board: its shape, its cells, and the slides.
use vstd::prelude::*;

use crate::direction::{direction_delta, unit_step, Direction};
use crate::grid::{cell_at, col_of, lemma_cell_at, row_of};
use crate::piece::Piece;
use crate::slide::{aligned, slid, slide_len, slide_outcome, slide_step};
use crate::solvable::{blank_index, board_layout, lemma_blank_index, solvable, values};

verus! {

/// `v` brought into `[lo, hi]`.
pub open spec fn clamp(v: int, lo: int, hi: int) -> int {
    if v < lo {
        lo
    } else if v > hi {
        hi
    } else {
        v
    }
}

/// `pos - dv * distance`, brought into `[0, limit)`.
fn clamped_move(pos: usize, dv: isize, distance: usize, limit: usize) -> (r: usize)
    requires
        pos < limit,
        -1 <= dv <= 1,
    ensures
        r as int == clamp(pos - dv * distance, 0, limit - 1),
{
    assert(dv * distance == if dv == 0 {
        0
    } else if dv > 0 {
        distance as int
    } else {
        -distance
    }) by (nonlinear_arith)
        requires
            -1 <= dv <= 1,
    ;
    if dv == 0 {
        pos
    } else if dv > 0 {
        if distance > pos {
            0
        } else {
            pos - distance
        }
    } else {
        if distance >= limit - 1 - pos {
            limit - 1
        } else {
            pos + distance
        }
    }
}

/// What a slide towards `(x, y)` returns on the layout `s` of width `w`:
/// how many tiles move, or `None` where `(x, y)` is off the grid or shares
/// neither row nor column with the blank.
pub open spec fn slide_reply<T: Piece>(s: Seq<T>, w: int, x: int, y: int) -> Option<usize> {
    let h = (s.len() as int) / w;
    let e = blank_index(values(s));
    let (ex, ey) = (col_of(e, w), row_of(e, w));
    if 0 <= x < w && 0 <= y < h && aligned(ex, ey, x, y) {
        Some(slide_len(ex, ey, x, y) as usize)
    } else {
        None
    }
}

/// The cell that a slide in `direction` by `distance` aims at on the layout
/// `s` of width `w`: the blank's cell moved `distance` cells against
/// `direction`, and brought back onto the grid.
pub open spec fn towards_target<T: Piece>(s: Seq<T>, w: int, direction: Direction, distance: int) -> (
    int,
    int,
) {
    let h = (s.len() as int) / w;
    let e = blank_index(values(s));
    let (dx, dy) = direction_delta(direction);
    (clamp(col_of(e, w) - dx * distance, 0, w - 1), clamp(row_of(e, w) - dy * distance, 0, h - 1))
}

/// A sliding-tile puzzle: a grid of pieces, row by row, in which exactly
/// one cell holds the blank.
pub trait Puzzle<T: Piece>: Sized {
    /// The pieces, row by row.
    spec fn pieces(&self) -> Seq<T>;

    /// The number of columns.
    spec fn columns(&self) -> int;

    /// `(width, height)`.
    fn shape(&self) -> (r: (usize, usize))
        requires
            board_layout(self.pieces(), self.columns()),
        ensures
            r.0 as int == self.columns(),
            r.1 as int == (self.pieces().len() as int) / self.columns(),
    ;

    /// The piece at column `x` and row `y`.
    fn get(&self, x: usize, y: usize) -> (r: T)
        requires
            board_layout(self.pieces(), self.columns()),
            x < self.columns(),
            y < (self.pieces().len() as int) / self.columns(),
        ensures
            r == self.pieces()[cell_at(x as int, y as int, self.columns())],
    ;

    /// The column and row of the cell that holds `value`, if any does.
    fn index_of(&self, value: T) -> (r: Option<(usize, usize)>)
        requires
            board_layout(self.pieces(), self.columns()),
        ensures
            match r {
                Some((x, y)) => {
                    &&& x < self.columns()
                    &&& y < (self.pieces().len() as int) / self.columns()
                    &&& values(self.pieces())[cell_at(x as int, y as int, self.columns())]
                        == value.value()
                },
                None => forall|i: int|
                    0 <= i < self.pieces().len() ==> values(self.pieces())[i] != value.value(),
            },
    ;

    /// Slides the tiles between the blank and the cell `from` one cell
    /// towards the blank, which ends up at `from`. Returns how many tiles
    /// moved; `None`, with the board unchanged, where `from` is off the
    /// grid or shares neither a row nor a column with the blank.
    fn slide_from(&mut self, from: (usize, usize)) -> (r: Option<usize>)
        requires
            board_layout(old(self).pieces(), old(self).columns()),
        ensures
            board_layout(final(self).pieces(), final(self).columns()),
            final(self).columns() == old(self).columns(),
            final(self).pieces() == slide_outcome(
                old(self).pieces(),
                old(self).columns(),
                from.0 as int,
                from.1 as int,
            ),
            r == slide_reply(old(self).pieces(), old(self).columns(), from.0 as int, from.1 as int),
            ({
                let s = old(self).pieces();
                let w = old(self).columns();
                let h = (s.len() as int) / w;
                let e = blank_index(values(s));
                let (ex, ey) = (col_of(e, w), row_of(e, w));
                let (x, y) = (from.0 as int, from.1 as int);
                &&& if x < w && y < h && aligned(ex, ey, x, y) {
                    &&& final(self).pieces() == slid(
                        s,
                        e,
                        slide_step(w, ex, ey, x, y),
                        slide_len(ex, ey, x, y),
                    )
                    &&& blank_index(values(final(self).pieces())) == cell_at(x, y, w)
                } else {
                    r is None && final(self).pieces() == s
                }
                &&& (x == ex && y == ey) ==> r == Some(0usize) && final(self).pieces() == s
                &&& (x < w && y < h && x != ex && y != ey) ==> r is None && final(self).pieces()
                    == s
                &&& solvable(values(final(self).pieces()), w) == solvable(values(s), w)
            }),
    ;

    /// Slides the tiles in `direction` by `distance` cells: the blank moves
    /// `distance` cells the opposite way, stopping at the edge of the grid.
    /// Returns how many tiles moved.
    fn slide_towards(&mut self, direction: Direction, distance: usize) -> (r: Option<usize>)
        requires
            board_layout(old(self).pieces(), old(self).columns()),
        ensures
            board_layout(final(self).pieces(), final(self).columns()),
            final(self).columns() == old(self).columns(),
            ({
                let s = old(self).pieces();
                let w = old(self).columns();
                let e = blank_index(values(s));
                let (ex, ey) = (col_of(e, w), row_of(e, w));
                let (x, y) = towards_target(s, w, direction, distance as int);
                &&& r == Some(slide_len(ex, ey, x, y) as usize)
                &&& final(self).pieces() == slide_outcome(s, w, x, y)
                &&& blank_index(values(final(self).pieces())) == cell_at(x, y, w)
                &&& distance == 0 ==> r == Some(0usize) && final(self).pieces() == s
                &&& solvable(values(final(self).pieces()), w) == solvable(values(s), w)
            }),
    {
        let (width, height) = self.shape();
        let (ex, ey) = match self.index_of(T::zero()) {
            Some(p) => p,
            None => {
                proof {
                    crate::solvable::lemma_has_blank(values(self.pieces()));
                }
                return None;
            },
        };
        proof {
            crate::grid::lemma_rows(self.pieces().len() as int, self.columns());
            lemma_cell_at(ex as int, ey as int, width as int, height as int);
            lemma_blank_index(values(self.pieces()), cell_at(ex as int, ey as int, width as int));
        }
        let delta = unit_step(direction);
        let x = clamped_move(ex, delta.0, distance, width);
        let y = clamped_move(ey, delta.1, distance, height);
        self.slide_from((x, y))
    }
}

} // verus!
