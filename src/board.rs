//! The board: a row-major grid of pieces with exactly one blank.
use vstd::prelude::*;

use crate::error::BoardError;
use crate::grid::{cell_at, col_of, lemma_cell_at, lemma_cell_coords, lemma_rows, row_of};
use crate::piece::Piece;
use crate::puzzle::Puzzle;
use crate::slide::{
    lemma_path_succ, lemma_slide_facts, path, slid, slide_len, slide_step,
};
use crate::solvable::{
    blank_index, board_layout, is_layout, layout_indices, lemma_blank_index, lemma_has_blank,
    lemma_solved_layout_solvable, solved_layout, swap_entries, values,
};

verus! {

/// A sliding-tile puzzle whose tiles are kept row by row in one buffer.
#[derive(Clone)]
pub struct BoxPuzzle<T: Piece> {
    inner: Vec<T>,
    width: usize,
}


/// `stride` forwards, or backwards.
pub open spec fn signed_step(stride: usize, forward: bool) -> int {
    if forward {
        stride as int
    } else {
        -stride
    }
}

/// Walks the blank from `e`, `d` times, to the next cell along `stride`
/// (forwards or backwards), exchanging it with the tile there.
fn walk_blank<T: Piece>(cells: &mut Vec<T>, e: usize, stride: usize, forward: bool, d: usize)
    requires
        stride >= 1,
        forall|k: int|
            0 <= k <= d ==> 0 <= #[trigger] path(e as int, signed_step(stride, forward), k)
                < old(cells).len(),
    ensures
        final(cells)@ == slid(old(cells)@, e as int, signed_step(stride, forward), d as nat),
{
    let ghost step: int = signed_step(stride, forward);
    let ghost s0 = cells@;
    let n = cells.len();
    let mut cur = e;
    let mut k: usize = 0;
    proof {
        lemma_path_succ(e as int, step, 0);
    }
    while k < d
        invariant
            cells@.len() == s0.len(),
            n == s0.len(),
            k <= d,
            cur as int == path(e as int, step, k as int),
            step == signed_step(stride, forward),
            forall|j: int| 0 <= j <= d ==> 0 <= #[trigger] path(e as int, step, j) < s0.len(),
            slid(cells@, cur as int, step, (d - k) as nat) == slid(s0, e as int, step, d as nat),
        decreases d - k,
    {
        proof {
            lemma_path_succ(e as int, step, k as int);
            assert(0 <= path(e as int, step, k + 1) < s0.len());
        }
        assert(path(e as int, step, k + 1) == cur + step);
        let next = if forward {
            cur + stride
        } else {
            cur - stride
        };
        swap_entries(cells, cur, next);
        cur = next;
        k = k + 1;
    }
}


impl<T: Piece> BoxPuzzle<T> {
    /// The tiles, row by row.
    pub closed spec fn cells(&self) -> Seq<T> {
        self.inner@
    }

    /// The number of columns.
    pub closed spec fn grid_width(&self) -> int {
        self.width as int
    }

    /// The number of rows.
    pub open spec fn grid_height(&self) -> int {
        (self.cells().len() as int) / self.grid_width()
    }

    /// At least two columns and two rows, and each of `0..len` once.
    pub open spec fn wf(&self) -> bool {
        board_layout(self.cells(), self.grid_width())
    }

    /// The cell that holds the blank.
    pub open spec fn blank(&self) -> int {
        blank_index(values(self.cells()))
    }

    proof fn lemma_wf(&self)
        requires
            self.wf(),
        ensures
            self.cells().len() == self.grid_width() * self.grid_height(),
            0 <= self.blank() < self.cells().len(),
            values(self.cells())[self.blank()] == 0,
            0 <= col_of(self.blank(), self.grid_width()) < self.grid_width(),
            0 <= row_of(self.blank(), self.grid_width()) < self.grid_height(),
            self.blank() == cell_at(
                col_of(self.blank(), self.grid_width()),
                row_of(self.blank(), self.grid_width()),
                self.grid_width(),
            ),
    {
        lemma_rows(self.cells().len() as int, self.grid_width());
        lemma_has_blank(values(self.cells()));
        lemma_cell_coords(self.blank(), self.grid_width(), self.grid_height());
    }

    /// A board of the given tiles, row by row, `width` cells wide. Fails
    /// unless the tiles are each of `0..len` once, on at least two columns
    /// and two whole rows.
    pub fn from_pieces(pieces: Vec<T>, width: usize) -> (r: Result<Self, BoardError>)
        ensures
            match r {
                Ok(b) => b.wf() && b.cells() == pieces@ && b.grid_width() == width,
                Err(e) => e == BoardError::InvalidBoard && !(is_layout(
                    values(pieces@),
                    width as int,
                ) && (pieces@.len() as int) / (width as int) >= 2),
            },
    {
        let n = pieces.len();
        if width < 2 || n < 4 || n % width != 0 || n / width < 2 {
            return Err(BoardError::InvalidBoard);
        }
        match layout_indices(pieces.as_slice()) {
            Some(_) => Ok(BoxPuzzle { inner: pieces, width }),
            None => Err(BoardError::InvalidBoard),
        }
    }

    /// The pieces, row by row.
    pub fn iter(&self) -> (r: Vec<T>)
        ensures
            r@ == self.cells(),
    {
        let mut out: Vec<T> = Vec::new();
        let mut i: usize = 0;
        while i < self.inner.len()
            invariant
                i <= self.cells().len(),
                out@ == self.cells().subrange(0, i as int),
            decreases self.cells().len() - i,
        {
            out.push(self.inner[i]);
            i = i + 1;
            assert(out@ =~= self.cells().subrange(0, i as int));
        }
        assert(out@ =~= self.cells());
        out
    }

    /// The pieces, row by row, each with its column and row.
    pub fn iter_indexed(&self) -> (r: Vec<((usize, usize), T)>)
        requires
            self.wf(),
        ensures
            r@.len() == self.cells().len(),
            forall|i: int|
                0 <= i < r@.len() ==> {
                    &&& (#[trigger] r@[i]).0.0 as int == col_of(i, self.grid_width())
                    &&& r@[i].0.1 as int == row_of(i, self.grid_width())
                    &&& r@[i].1 == self.cells()[i]
                },
    {
        let mut out: Vec<((usize, usize), T)> = Vec::new();
        let mut i: usize = 0;
        while i < self.inner.len()
            invariant
                self.wf(),
                i <= self.cells().len(),
                out@.len() == i,
                forall|k: int|
                    0 <= k < i ==> {
                        &&& (#[trigger] out@[k]).0.0 as int == col_of(k, self.grid_width())
                        &&& out@[k].0.1 as int == row_of(k, self.grid_width())
                        &&& out@[k].1 == self.cells()[k]
                    },
            decreases self.cells().len() - i,
        {
            out.push(((i % self.width, i / self.width), self.inner[i]));
            i = i + 1;
        }
        out
    }

    /// Whether the board shows `1, 2, ..., len - 1` row by row with the
    /// blank last.
    pub fn is_solved(&self) -> (r: bool)
        requires
            self.wf(),
        ensures
            r == (values(self.cells()) == solved_layout(self.cells().len() as int)),
    {
        let n = self.inner.len();
        let ghost goal = solved_layout(n as int);
        let mut i: usize = 0;
        while i < n
            invariant
                n == self.cells().len(),
                goal == solved_layout(n as int),
                i <= n,
                forall|k: int| 0 <= k < i ==> values(self.cells())[k] == goal[k],
            decreases n - i,
        {
            let expected = if i == n - 1 {
                0
            } else {
                i + 1
            };
            match self.inner[i].to_usize() {
                Some(v) => {
                    if v != expected {
                        assert(values(self.cells())[i as int] != goal[i as int]);
                        return false;
                    }
                },
                None => {
                    assert(values(self.cells())[i as int] != goal[i as int]);
                    return false;
                },
            }
            i = i + 1;
        }
        assert(values(self.cells()) =~= goal);
        true
    }
}

impl<T: Piece> Puzzle<T> for BoxPuzzle<T> {
    open spec fn pieces(&self) -> Seq<T> {
        self.cells()
    }

    open spec fn columns(&self) -> int {
        self.grid_width()
    }

    fn shape(&self) -> (r: (usize, usize))
    {
        (self.width, self.inner.len() / self.width)
    }

    fn get(&self, x: usize, y: usize) -> (r: T)
    {
        proof {
            self.lemma_wf();
            lemma_cell_at(x as int, y as int, self.grid_width(), self.grid_height());
        }
        let n = self.inner.len();
        assert(y * self.width + x < n);
        self.inner[y * self.width + x]
    }

    fn index_of(&self, value: T) -> (r: Option<(usize, usize)>)
    {
        proof {
            self.lemma_wf();
        }
        let n = self.inner.len();
        let mut i: usize = 0;
        while i < n
            invariant
                self.wf(),
                n == self.cells().len(),
                n == self.grid_width() * self.grid_height(),
                i <= n,
                forall|k: int| 0 <= k < i ==> values(self.cells())[k] != value.value(),
            decreases n - i,
        {
            if self.inner[i].same(&value) {
                proof {
                    lemma_cell_coords(i as int, self.grid_width(), self.grid_height());
                }
                return Some((i % self.width, i / self.width));
            }
            i = i + 1;
        }
        None
    }

    fn slide_from(&mut self, from: (usize, usize)) -> (r: Option<usize>)
    {
        proof {
            self.lemma_wf();
        }
        let (width, height) = self.shape();
        let (x, y) = from;
        if !(x < width && y < height) {
            return None;
        }
        let (ex, ey) = match self.index_of(T::zero()) {
            Some(p) => p,
            None => {
                proof {
                    assert(values(self.cells())[self.blank()] == 0);
                }
                return None;
            },
        };
        proof {
            lemma_cell_at(ex as int, ey as int, width as int, height as int);
            lemma_blank_index(values(self.cells()), cell_at(ex as int, ey as int, width as int));
        }
        if x != ex && y != ey {
            return None;
        }
        if x == ex && y == ey {
            return Some(0);
        }
        let n = self.inner.len();
        assert(ey * width + ex < n);
        let e = ey * width + ex;
        let (stride, forward, d) = if y == ey {
            if x > ex {
                (1, true, x - ex)
            } else {
                (1, false, ex - x)
            }
        } else if y > ey {
            (width, true, y - ey)
        } else {
            (width, false, ey - y)
        };
        proof {
            lemma_slide_facts(self.cells(), width as int, height as int, e as int, x as int, y as int);
        }
        assert(signed_step(stride, forward) == slide_step(
            width as int,
            ex as int,
            ey as int,
            x as int,
            y as int,
        ));
        assert(d as nat == slide_len(ex as int, ey as int, x as int, y as int));
        walk_blank(&mut self.inner, e, stride, forward, d);
        Some(d)
    }
}

impl Default for BoxPuzzle<u8> {
    /// The solved board of width and height 4.
    fn default() -> (r: Self)
        ensures
            r.wf(),
            r.grid_width() == 4,
            values(r.cells()) == solved_layout(16),
    {
        let inner: Vec<u8> = vec![1, 2, 3, 4, 5, 6, 7, 8, 9, 10, 11, 12, 13, 14, 15, 0];
        let r = BoxPuzzle { inner, width: 4 };
        proof {
            assert(values(r.cells()) =~= solved_layout(16));
            lemma_solved_layout_solvable(16, 4);
        }
        r
    }
}

} // verus!
