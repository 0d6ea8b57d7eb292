//! Facts about slides that relate several of them, or a slide and the
//! parity test.
use vstd::prelude::*;

use crate::grid::lemma_rows;
use crate::slide::{lemma_slide_facts, slide_outcome};
use crate::grid::{cell_at, col_of, lemma_cell_at, lemma_cell_coords, row_of};
use crate::piece::Piece;
use crate::slide::{
    aligned, lemma_slid_cells, lemma_slid_round_trip, path, slid, slide_len, slide_step,
};
use crate::solvable::{
    blank_index, board_layout, lemma_has_blank, lemma_solved_layout_solvable, solvable,
    solved_layout, values,
};

verus! {

/// The layout after a slide towards each of `moves`, in order.
pub open spec fn slides_outcome<T: Piece>(s: Seq<T>, w: int, moves: Seq<(int, int)>) -> Seq<T>
    decreases moves.len(),
{
    if moves.len() == 0 {
        s
    } else {
        slides_outcome(slide_outcome(s, w, moves[0].0, moves[0].1), w, moves.drop_first())
    }
}

proof fn lemma_board_layout<T: Piece>(s: Seq<T>, w: int)
    requires
        board_layout(s, w),
    ensures
        s.len() == w * ((s.len() as int) / w),
        0 <= blank_index(values(s)) < s.len(),
        values(s)[blank_index(values(s))] == 0,
        0 <= col_of(blank_index(values(s)), w) < w,
        0 <= row_of(blank_index(values(s)), w) < (s.len() as int) / w,
        cell_at(col_of(blank_index(values(s)), w), row_of(blank_index(values(s)), w), w)
            == blank_index(values(s)),
{
    lemma_rows(s.len() as int, w);
    lemma_has_blank(values(s));
    lemma_cell_coords(blank_index(values(s)), w, (s.len() as int) / w);
}

/// A slide towards a cell of the blank's row or column leaves the blank at
/// that cell, moves each tile between them one cell towards the blank's
/// old place, and leaves every other cell as it was.
pub proof fn lemma_slide_shifts_run<T: Piece>(s: Seq<T>, w: int, x: int, y: int)
    requires
        board_layout(s, w),
        0 <= x < w,
        0 <= y < (s.len() as int) / w,
        aligned(col_of(blank_index(values(s)), w), row_of(blank_index(values(s)), w), x, y),
    ensures
        ({
            let e = blank_index(values(s));
            let (ex, ey) = (col_of(e, w), row_of(e, w));
            let step = slide_step(w, ex, ey, x, y);
            let d = slide_len(ex, ey, x, y);
            let r = slide_outcome(s, w, x, y);
            &&& r == slid(s, e, step, d)
            &&& board_layout(r, w)
            &&& blank_index(values(r)) == cell_at(x, y, w)
            &&& path(e, step, d as int) == cell_at(x, y, w)
            &&& forall|k: int|
                0 <= k < d ==> r[#[trigger] path(e, step, k)] == s[path(e, step, k + 1)]
            &&& forall|p: int|
                0 <= p < s.len() && (forall|k: int| 0 <= k <= d ==> p != #[trigger] path(e, step, k))
                    ==> r[p] == s[p]
        }),
{
    let h = (s.len() as int) / w;
    lemma_board_layout(s, w);
    let e = blank_index(values(s));
    let (ex, ey) = (col_of(e, w), row_of(e, w));
    let step = slide_step(w, ex, ey, x, y);
    let d = slide_len(ex, ey, x, y);
    lemma_slide_facts(s, w, h, e, x, y);
    lemma_slid_cells(s, e, step, d);
}

/// A slide towards a neighbour of the blank moves the tile there into the
/// blank's old place.
pub proof fn lemma_slide_neighbour<T: Piece>(s: Seq<T>, w: int, x: int, y: int)
    requires
        board_layout(s, w),
        0 <= x < w,
        0 <= y < (s.len() as int) / w,
        aligned(col_of(blank_index(values(s)), w), row_of(blank_index(values(s)), w), x, y),
        slide_len(col_of(blank_index(values(s)), w), row_of(blank_index(values(s)), w), x, y)
            == 1,
    ensures
        slide_outcome(s, w, x, y)[blank_index(values(s))] == s[cell_at(x, y, w)],
{
    let e = blank_index(values(s));
    let (ex, ey) = (col_of(e, w), row_of(e, w));
    let step = slide_step(w, ex, ey, x, y);
    lemma_slide_shifts_run(s, w, x, y);
    crate::slide::lemma_path_succ(e, step, 0);
}

/// Sliding towards a cell and then back towards the blank's old place
/// restores the layout.
pub proof fn lemma_slide_round_trip<T: Piece>(s: Seq<T>, w: int, x: int, y: int)
    requires
        board_layout(s, w),
        0 <= x < w,
        0 <= y < (s.len() as int) / w,
        aligned(col_of(blank_index(values(s)), w), row_of(blank_index(values(s)), w), x, y),
    ensures
        ({
            let e = blank_index(values(s));
            let r = slide_outcome(s, w, x, y);
            let e2 = blank_index(values(r));
            &&& col_of(e2, w) == x
            &&& row_of(e2, w) == y
            &&& slide_outcome(r, w, col_of(e, w), row_of(e, w)) == s
        }),
{
    let h = (s.len() as int) / w;
    lemma_board_layout(s, w);
    let e = blank_index(values(s));
    let (ex, ey) = (col_of(e, w), row_of(e, w));
    let step = slide_step(w, ex, ey, x, y);
    let d = slide_len(ex, ey, x, y);
    lemma_slide_facts(s, w, h, e, x, y);
    lemma_slid_round_trip(s, e, step, d);
    let r = slide_outcome(s, w, x, y);
    lemma_cell_at(x, y, w, h);
    let t = cell_at(x, y, w);
    assert(r.len() == s.len());
    if x == ex && y == ey {
        assert(r == s);
    } else {
        assert(slide_step(w, x, y, ex, ey) == -step);
        assert(slide_len(x, y, ex, ey) == d);
    }
}

/// Any sequence of slides keeps a board's layout a layout and keeps the
/// parity condition that the solvability test checks.
pub proof fn lemma_slides_keep_solvable<T: Piece>(s: Seq<T>, w: int, moves: Seq<(int, int)>)
    requires
        board_layout(s, w),
    ensures
        board_layout(slides_outcome(s, w, moves), w),
        slides_outcome(s, w, moves).len() == s.len(),
        solvable(values(slides_outcome(s, w, moves)), w) == solvable(values(s), w),
    decreases moves.len(),
{
    if moves.len() > 0 {
        let (x, y) = moves[0];
        let h = (s.len() as int) / w;
        lemma_board_layout(s, w);
        let e = blank_index(values(s));
        if 0 <= x < w && 0 <= y < h && aligned(col_of(e, w), row_of(e, w), x, y) {
            lemma_slide_facts(s, w, h, e, x, y);
        }
        lemma_slides_keep_solvable(slide_outcome(s, w, x, y), w, moves.drop_first());
    }
}

/// Every layout that slides reach from the solved board meets the parity
/// condition that the solvability test checks.
pub proof fn lemma_reachable_is_solvable<T: Piece>(s: Seq<T>, w: int, moves: Seq<(int, int)>)
    requires
        board_layout(s, w),
        values(s) == solved_layout(s.len() as int),
    ensures
        solvable(values(slides_outcome(s, w, moves)), w),
{
    lemma_solved_layout_solvable(s.len() as int, w);
    lemma_slides_keep_solvable(s, w, moves);
}

} // verus!
