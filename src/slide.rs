//! What a slide does to a layout: the blank walks, one cell at a time,
//! along a row or a column, and each tile on its way moves one cell back.
use vstd::prelude::*;

use crate::grid::{cell_at, col_of, corner_distance, lemma_cell_at, lemma_cell_coords, row_of};
use crate::parity::swapped;
use crate::solvable::{
    blank_index, is_layout, lemma_blank_index, lemma_swap_layout, solvable, values,
};
use crate::piece::Piece;

verus! {

/// The `k`-th cell of the line that starts at `e` and advances by `step`.
pub open spec fn path(e: int, step: int, k: int) -> int {
    e + k * step
}

/// The layout `s` after the blank at `e` has changed places `d` times with
/// the next cell along `step`.
pub open spec fn slid<A>(s: Seq<A>, e: int, step: int, d: nat) -> Seq<A>
    decreases d,
{
    if d == 0 {
        s
    } else {
        slid(swapped(s, e, e + step), e + step, step, (d - 1) as nat)
    }
}

/// Whether `(x, y)` shares a row or a column with `(ex, ey)`.
pub open spec fn aligned(ex: int, ey: int, x: int, y: int) -> bool {
    x == ex || y == ey
}

/// How many cells lie between `(ex, ey)` and an aligned `(x, y)`.
pub open spec fn slide_len(ex: int, ey: int, x: int, y: int) -> nat {
    if y == ey {
        if x >= ex {
            (x - ex) as nat
        } else {
            (ex - x) as nat
        }
    } else if y >= ey {
        (y - ey) as nat
    } else {
        (ey - y) as nat
    }
}

/// The index step from `(ex, ey)` towards an aligned `(x, y)` on a grid of
/// width `w`.
pub open spec fn slide_step(w: int, ex: int, ey: int, x: int, y: int) -> int {
    if y == ey {
        if x > ex {
            1
        } else {
            -1
        }
    } else if y > ey {
        w
    } else {
        -w
    }
}

/// Column of the `k`-th cell from `(ex, ey)` towards `(x, y)`.
pub open spec fn line_col(ex: int, ey: int, x: int, y: int, k: int) -> int {
    if y == ey {
        if x > ex {
            ex + k
        } else {
            ex - k
        }
    } else {
        ex
    }
}

/// Row of the `k`-th cell from `(ex, ey)` towards `(x, y)`.
pub open spec fn line_row(ex: int, ey: int, x: int, y: int, k: int) -> int {
    if y == ey {
        ey
    } else if y > ey {
        ey + k
    } else {
        ey - k
    }
}

/// The cells from the blank towards an aligned target lie on the grid, one
/// after another.
pub proof fn lemma_line(w: int, h: int, e: int, x: int, y: int, k: int)
    requires
        w >= 1,
        h >= 1,
        0 <= e < w * h,
        0 <= x < w,
        0 <= y < h,
        aligned(col_of(e, w), row_of(e, w), x, y),
        0 <= k <= slide_len(col_of(e, w), row_of(e, w), x, y),
    ensures
        ({
            let (ex, ey) = (col_of(e, w), row_of(e, w));
            let p = path(e, slide_step(w, ex, ey, x, y), k);
            &&& 0 <= line_col(ex, ey, x, y, k) < w
            &&& 0 <= line_row(ex, ey, x, y, k) < h
            &&& p == cell_at(line_col(ex, ey, x, y, k), line_row(ex, ey, x, y, k), w)
            &&& 0 <= p < w * h
            &&& col_of(p, w) == line_col(ex, ey, x, y, k)
            &&& row_of(p, w) == line_row(ex, ey, x, y, k)
        }),
{
    lemma_cell_coords(e, w, h);
    let ex = col_of(e, w);
    let ey = row_of(e, w);
    let lx = line_col(ex, ey, x, y, k);
    let ly = line_row(ex, ey, x, y, k);
    let step = slide_step(w, ex, ey, x, y);
    assert(e == ey * w + ex);
    if y == ey {
        assert(k * step == if x > ex { k } else { -k }) by (nonlinear_arith)
            requires
                step == if x > ex { 1int } else { -1int },
        ;
    } else {
        assert(k * step == if y > ey { k * w } else { -(k * w) }) by (nonlinear_arith)
            requires
                step == if y > ey { w } else { -w },
        ;
        assert(ly * w == ey * w + (if y > ey { k * w } else { -(k * w) })) by (nonlinear_arith)
            requires
                ly == if y > ey { ey + k } else { ey - k },
        ;
    }
    lemma_cell_at(lx, ly, w, h);
}

/// Each cell on a line differs from the next in its corner distance by one.
pub proof fn lemma_line_steps(w: int, h: int, e: int, x: int, y: int, k: int)
    requires
        w >= 1,
        h >= 1,
        0 <= e < w * h,
        0 <= x < w,
        0 <= y < h,
        aligned(col_of(e, w), row_of(e, w), x, y),
        0 <= k < slide_len(col_of(e, w), row_of(e, w), x, y),
    ensures
        ({
            let step = slide_step(w, col_of(e, w), row_of(e, w), x, y);
            (corner_distance(path(e, step, k), w, h) + corner_distance(path(e, step, k + 1), w, h))
                % 2 == 1
        }),
{
    lemma_line(w, h, e, x, y, k);
    lemma_line(w, h, e, x, y, k + 1);
}

proof fn lemma_path_next(e: int, step: int, k: int)
    ensures
        path(e + step, step, k) == path(e, step, k + 1),
        path(e, step, 0) == e,
{
    assert((k + 1) * step == k * step + step) by (nonlinear_arith);
}

proof fn lemma_path_apart(e: int, step: int, k: int)
    requires
        step != 0,
        k >= 1,
    ensures
        path(e, step, k + 1) != e,
        path(e, step, k + 1) != e + step,
        path(e, step, k) != e,
{
    assert((k + 1) * step != 0) by (nonlinear_arith)
        requires
            step != 0,
            k >= 1,
    ;
    assert(k * step != 0) by (nonlinear_arith)
        requires
            step != 0,
            k >= 1,
    ;
    lemma_path_next(e, step, k);
}

/// What a slide leaves in each cell: each cell of the line but the last
/// takes the tile of the next one, the last takes the blank's, and cells
/// off the line keep theirs.
pub proof fn lemma_slid_cells<A>(s: Seq<A>, e: int, step: int, d: nat)
    requires
        step != 0,
        forall|k: int| 0 <= k <= d ==> 0 <= #[trigger] path(e, step, k) < s.len(),
    ensures
        slid(s, e, step, d).len() == s.len(),
        forall|k: int|
            0 <= k < d ==> slid(s, e, step, d)[#[trigger] path(e, step, k)] == s[path(
                e,
                step,
                k + 1,
            )],
        slid(s, e, step, d)[path(e, step, d as int)] == s[e],
        forall|p: int|
            0 <= p < s.len() && (forall|k: int| 0 <= k <= d ==> p != #[trigger] path(e, step, k))
                ==> slid(s, e, step, d)[p] == s[p],
    decreases d,
{
    lemma_path_next(e, step, 0);
    if d > 0 {
        let e1 = e + step;
        let s1 = swapped(s, e, e1);
        lemma_path_next(e, step, 0);
        assert(path(e, step, 1) == e1) by {
            lemma_path_next(e, step, 0);
            lemma_path_next(e + step, step, 0);
        }
        assert(0 <= e1 < s.len()) by {
            assert(0 <= path(e, step, 1) < s.len());
        }
        assert forall|k: int| 0 <= k <= d - 1 implies 0 <= #[trigger] path(e1, step, k) < s1.len() by {
            lemma_path_next(e, step, k);
            assert(0 <= path(e, step, k + 1) < s.len());
        }
        lemma_slid_cells(s1, e1, step, (d - 1) as nat);
        let r = slid(s, e, step, d);
        assert(r == slid(s1, e1, step, (d - 1) as nat));
        assert forall|k: int| 0 <= k < d implies r[#[trigger] path(e, step, k)] == s[path(
            e,
            step,
            k + 1,
        )] by {
            if k == 0 {
                // e is not on the rest of the line
                assert forall|k2: int| 0 <= k2 <= d - 1 implies e != #[trigger] path(e1, step, k2) by {
                    lemma_path_next(e, step, k2);
                    lemma_path_apart(e, step, k2 + 1);
                }
                assert(r[e] == s1[e]);
                assert(path(e, step, 1) == e1);
            } else {
                lemma_path_next(e, step, k - 1);
                lemma_path_next(e, step, k);
                assert(path(e1, step, k - 1) == path(e, step, k));
                assert(r[path(e1, step, k - 1)] == s1[path(e1, step, k)]);
                lemma_path_apart(e, step, k);
                assert(s1[path(e, step, k + 1)] == s[path(e, step, k + 1)]);
            }
        }
        lemma_path_next(e, step, d - 1);
        assert(path(e1, step, d - 1) == path(e, step, d as int));
        assert forall|p: int|
            0 <= p < s.len() && (forall|k: int| 0 <= k <= d ==> p != #[trigger] path(e, step, k))
            implies r[p] == s[p] by {
            assert(p != path(e, step, 0));
            assert(p != path(e, step, 1));
            assert forall|k2: int| 0 <= k2 <= d - 1 implies p != #[trigger] path(e1, step, k2) by {
                lemma_path_next(e, step, k2);
                assert(p != path(e, step, k2 + 1));
            }
            assert(p != e && p != e1);
            assert(s1[p] == s[p]);
            assert(r[p] == s1[p]);
        }
    }
}

/// Sliding commutes with reading the numbers of the pieces.
pub proof fn lemma_slid_values<T: Piece>(s: Seq<T>, e: int, step: int, d: nat)
    requires
        forall|k: int| 0 <= k <= d ==> 0 <= #[trigger] path(e, step, k) < s.len(),
    ensures
        values(slid(s, e, step, d)) == slid(values(s), e, step, d),
    decreases d,
{
    if d > 0 {
        let e1 = e + step;
        lemma_path_next(e, step, 0);
        lemma_path_next(e + step, step, 0);
        assert(0 <= path(e, step, 1) < s.len());
        assert(0 <= path(e, step, 0) < s.len());
        assert(values(swapped(s, e, e1)) =~= swapped(values(s), e, e1));
        assert forall|k: int| 0 <= k <= d - 1 implies 0 <= #[trigger] path(e1, step, k) < s.len() by {
            lemma_path_next(e, step, k);
            assert(0 <= path(e, step, k + 1) < s.len());
        }
        lemma_slid_values(swapped(s, e, e1), e1, step, (d - 1) as nat);
    }
}

/// Moving the blank to a neighbouring cell keeps a layout a layout and
/// keeps the parity condition.
proof fn lemma_step_solvable(s: Seq<int>, w: int, h: int, e: int, e1: int)
    requires
        is_layout(s, w),
        h >= 1,
        s.len() == w * h,
        0 <= e < s.len(),
        0 <= e1 < s.len(),
        e != e1,
        s[e] == 0,
        (corner_distance(e, w, h) + corner_distance(e1, w, h)) % 2 == 1,
    ensures
        is_layout(swapped(s, e, e1), w),
        swapped(s, e, e1)[e1] == 0,
        solvable(swapped(s, e, e1), w) == solvable(s, w),
{
    let s1 = swapped(s, e, e1);
    lemma_swap_layout(s, e, e1);
    lemma_blank_index(s, e);
    lemma_blank_index(s1, e1);
    vstd::arithmetic::div_mod::lemma_div_multiples_vanish(h, w);
    assert(w * h == h * w) by (nonlinear_arith);
    assert((s.len() as int) / w == h);
}

/// A slide keeps a layout a layout, leaves the blank at the end of the
/// line, and keeps the parity condition, provided each cell of the line is
/// a neighbour of the next.
pub proof fn lemma_slid_solvable(s: Seq<int>, w: int, h: int, e: int, step: int, d: nat)
    requires
        is_layout(s, w),
        h >= 1,
        s.len() == w * h,
        0 <= e < s.len(),
        s[e] == 0,
        step != 0,
        forall|k: int| 0 <= k <= d ==> 0 <= #[trigger] path(e, step, k) < s.len(),
        forall|k: int|
            0 <= k < d ==> (corner_distance(#[trigger] path(e, step, k), w, h) + corner_distance(
                path(e, step, k + 1),
                w,
                h,
            )) % 2 == 1,
    ensures
        is_layout(slid(s, e, step, d), w),
        slid(s, e, step, d)[path(e, step, d as int)] == 0,
        solvable(slid(s, e, step, d), w) == solvable(s, w),
    decreases d,
{
    lemma_path_next(e, step, 0);
    if d > 0 {
        let e1 = e + step;
        let s1 = swapped(s, e, e1);
        lemma_path_next(e + step, step, 0);
        assert(path(e, step, 1) == e1);
        assert(0 <= path(e, step, 1) < s.len());
        assert((corner_distance(path(e, step, 0), w, h) + corner_distance(path(e, step, 1), w, h))
            % 2 == 1);
        lemma_step_solvable(s, w, h, e, e1);
        assert forall|k: int| 0 <= k <= d - 1 implies 0 <= #[trigger] path(e1, step, k) < s.len() by {
            lemma_path_next(e, step, k);
            assert(0 <= path(e, step, k + 1) < s.len());
        }
        assert forall|k: int| 0 <= k < d - 1 implies (corner_distance(
            #[trigger] path(e1, step, k),
            w,
            h,
        ) + corner_distance(path(e1, step, k + 1), w, h)) % 2 == 1 by {
            lemma_path_next(e, step, k);
            lemma_path_next(e, step, k + 1);
            assert((corner_distance(path(e, step, k + 1), w, h) + corner_distance(
                path(e, step, k + 2),
                w,
                h,
            )) % 2 == 1);
        }
        lemma_slid_solvable(s1, w, h, e1, step, (d - 1) as nat);
        lemma_path_next(e, step, d - 1);
    }
}

/// Sliding back along the same line restores the layout.
pub proof fn lemma_slid_round_trip<A>(s: Seq<A>, e: int, step: int, d: nat)
    requires
        step != 0,
        forall|k: int| 0 <= k <= d ==> 0 <= #[trigger] path(e, step, k) < s.len(),
    ensures
        slid(slid(s, e, step, d), path(e, step, d as int), -step, d) == s,
{
    let t = path(e, step, d as int);
    let r1 = slid(s, e, step, d);
    assert forall|k: int| #[trigger] path(t, -step, k) == path(e, step, d - k) by {
        assert(e + d * step + k * (-step) == e + (d - k) * step) by (nonlinear_arith);
    }
    lemma_slid_cells(s, e, step, d);
    assert forall|k: int| 0 <= k <= d implies 0 <= #[trigger] path(t, -step, k) < r1.len() by {
        assert(path(t, -step, k) == path(e, step, d - k));
    }
    lemma_slid_cells(r1, t, -step, d);
    let r2 = slid(r1, t, -step, d);
    assert forall|p: int| 0 <= p < s.len() implies r2[p] == s[p] by {
        if exists|j: int| 0 <= j <= d && p == #[trigger] path(e, step, j) {
            let j = choose|j: int| 0 <= j <= d && p == #[trigger] path(e, step, j);
            if j == 0 {
                assert(p == path(t, -step, d as int));
                lemma_path_next(e, step, 0);
            } else {
                let k = d - j;
                assert(p == path(t, -step, k));
                assert(r2[path(t, -step, k)] == r1[path(t, -step, k + 1)]);
                assert(path(t, -step, k + 1) == path(e, step, j - 1));
                assert(r1[path(e, step, j - 1)] == s[path(e, step, j)]);
            }
        } else {
            assert forall|k: int| 0 <= k <= d implies p != #[trigger] path(t, -step, k) by {
                assert(path(t, -step, k) == path(e, step, d - k));
            }
        }
    }
    assert(r2 =~= s);
}

/// The next cell of a line is one step further.
pub proof fn lemma_path_succ(e: int, step: int, k: int)
    ensures
        path(e, step, k + 1) == path(e, step, k) + step,
        path(e, step, 0) == e,
{
    assert((k + 1) * step == k * step + step) by (nonlinear_arith);
}

/// The layout `s`, of width `w`, after a slide towards `(x, y)`: unchanged
/// where `(x, y)` is off the grid or shares neither row nor column with the
/// blank.
pub open spec fn slide_outcome<T: Piece>(s: Seq<T>, w: int, x: int, y: int) -> Seq<T> {
    let h = (s.len() as int) / w;
    let e = blank_index(values(s));
    let (ex, ey) = (col_of(e, w), row_of(e, w));
    if 0 <= x < w && 0 <= y < h && aligned(ex, ey, x, y) {
        slid(s, e, slide_step(w, ex, ey, x, y), slide_len(ex, ey, x, y))
    } else {
        s
    }
}

/// What a slide towards an aligned cell of the grid does to a layout: the
/// line stays on the grid, the result is a layout with its blank at the
/// target, and the parity condition is kept.
pub proof fn lemma_slide_facts<T: Piece>(s: Seq<T>, w: int, h: int, e: int, x: int, y: int)
    requires
        is_layout(values(s), w),
        h >= 1,
        s.len() == w * h,
        0 <= e < s.len(),
        values(s)[e] == 0,
        0 <= x < w,
        0 <= y < h,
        aligned(col_of(e, w), row_of(e, w), x, y),
    ensures
        ({
            let (ex, ey) = (col_of(e, w), row_of(e, w));
            let step = slide_step(w, ex, ey, x, y);
            let d = slide_len(ex, ey, x, y);
            let r = slid(s, e, step, d);
            &&& step != 0
            &&& forall|k: int| 0 <= k <= d ==> 0 <= #[trigger] path(e, step, k) < s.len()
            &&& path(e, step, d as int) == cell_at(x, y, w)
            &&& r.len() == s.len()
            &&& values(r) == slid(values(s), e, step, d)
            &&& is_layout(values(r), w)
            &&& blank_index(values(r)) == cell_at(x, y, w)
            &&& solvable(values(r), w) == solvable(values(s), w)
        }),
{
    let (ex, ey) = (col_of(e, w), row_of(e, w));
    let step = slide_step(w, ex, ey, x, y);
    let d = slide_len(ex, ey, x, y);
    assert forall|k: int| 0 <= k <= d implies 0 <= #[trigger] path(e, step, k) < s.len() by {
        lemma_line(w, h, e, x, y, k);
    }
    assert forall|k: int|
        0 <= k < d implies (crate::grid::corner_distance(#[trigger] path(e, step, k), w, h)
        + crate::grid::corner_distance(path(e, step, k + 1), w, h)) % 2 == 1 by {
        lemma_line_steps(w, h, e, x, y, k);
    }
    lemma_line(w, h, e, x, y, d as int);
    crate::slide::lemma_slid_cells(s, e, step, d);
    lemma_slid_values(s, e, step, d);
    lemma_slid_solvable(values(s), w, h, e, step, d);
    lemma_blank_index(values(slid(s, e, step, d)), path(e, step, d as int));
}

} // verus!
