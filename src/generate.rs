//! Random solvable boards.
use vstd::prelude::*;

use rand::rngs::StdRng;
use rand::seq::SliceRandom;
use rand::Rng;
use rand::SeedableRng;

use crate::board::BoxPuzzle;
use crate::error::BoardError;
use crate::grid::{corner_distance, lemma_cell_coords, lemma_corner_cells, lemma_rows};
use crate::parity::{is_permutation, swapped};
use crate::piece::Piece;
use crate::solvable::{
    as_ints, is_layout, is_solvable, lemma_blank_index, lemma_swap_layout,
    solvable, swap_entries, values,
};

verus! {

/// The seedable generator of rand, `rand::rngs::StdRng`, carried as an opaque
/// value.
#[verifier::external_type_specification]
#[verifier::external_body]
pub struct ExStdRng(StdRng);

/// Relies on `SliceRandom::shuffle` of rand: it reorders the entries
/// (by exchanges), keeping each of them.
#[verifier::external_body]
fn shuffle_entries(rng: &mut StdRng, v: &mut Vec<usize>)
    ensures
        final(v)@.to_multiset() == old(v)@.to_multiset(),
        final(v)@.len() == old(v)@.len(),
{
    v.shuffle(rng)
}

/// Relies on `Rng::gen_range` of rand: a number below `n`, which must be
/// positive.
#[verifier::external_body]
fn draw_below(rng: &mut StdRng, n: usize) -> (r: usize)
    requires
        n > 0,
    ensures
        r < n,
{
    rng.gen_range(0..n)
}

/// Relies on `SeedableRng::from_entropy` of rand: a generator seeded from
/// the operating system.
#[verifier::external_body]
fn entropy_rng() -> StdRng {
    StdRng::from_entropy()
}

/// `s` with the entries at `a`, `b` and `c` rotated: `a` takes the entry of
/// `c`, `b` that of `a`, and `c` that of `b`.
pub open spec fn rotated<A>(s: Seq<A>, a: int, b: int, c: int) -> Seq<A> {
    s.update(a, s[c]).update(b, s[a]).update(c, s[b])
}

/// The layout with the blank, which is in the last cell, moved to `t`: by
/// an exchange with the last cell where `t` is an odd number of steps from
/// the corner, by a rotation of `t` and the last two cells where it is an
/// even number.
pub open spec fn placed(s: Seq<int>, w: int, h: int, t: int) -> Seq<int> {
    let n = s.len() as int;
    let d = corner_distance(t, w, h);
    if d == 0 {
        s
    } else if d % 2 == 1 {
        swapped(s, t, n - 1)
    } else {
        rotated(s, t, n - 2, n - 1)
    }
}

/// The board that the generator makes of a shuffled `order` of the tiles
/// `1..w * h` and the cell `t` drawn for the blank: the blank is put last,
/// the first two tiles are exchanged if that layout is not solvable, and
/// the blank is then moved to `t`.
pub open spec fn generated_layout(order: Seq<int>, w: int, h: int, t: int) -> Seq<int> {
    let s = order.push(0);
    let fixed = if solvable(s, w) {
        s
    } else {
        swapped(s, 0, 1)
    };
    placed(fixed, w, h, t)
}

fn rotate_entries(v: &mut Vec<usize>, a: usize, b: usize, c: usize)
    requires
        a < old(v).len(),
        b < old(v).len(),
        c < old(v).len(),
    ensures
        final(v)@ == rotated(old(v)@, a as int, b as int, c as int),
{
    let va = v[a];
    let vb = v[b];
    let vc = v[c];
    v.set(a, vc);
    v.set(b, va);
    v.set(c, vb);
}

proof fn lemma_usize_values(s: Seq<usize>)
    ensures
        values(s) == as_ints(s),
{
    assert(values(s) =~= as_ints(s));
}

/// Moving the blank from the last cell to `t` keeps a layout a layout and
/// keeps the parity condition.
proof fn lemma_placed(f: Seq<int>, w: int, h: int, t: int)
    requires
        is_layout(f, w),
        h >= 1,
        f.len() == w * h,
        f[f.len() - 1] == 0,
        0 <= t < f.len(),
    ensures
        is_layout(placed(f, w, h, t), w),
        placed(f, w, h, t)[t] == 0,
        solvable(placed(f, w, h, t), w) == solvable(f, w),
{
    let n = f.len() as int;
    lemma_cell_coords(t, w, h);
    lemma_corner_cells(t, w, h);
    lemma_corner_cells(n - 1, w, h);
    lemma_blank_index(f, n - 1);
    vstd::arithmetic::div_mod::lemma_div_multiples_vanish(h, w);
    assert(h * w == w * h) by (nonlinear_arith);
    assert(n / w == h);
    let d = corner_distance(t, w, h);
    if d == 0 {
    } else if d % 2 == 1 {
        lemma_swap_layout(f, t, n - 1);
        lemma_blank_index(swapped(f, t, n - 1), t);
    } else {
        let f1 = swapped(f, t, n - 1);
        lemma_swap_layout(f, t, n - 1);
        lemma_swap_layout(f1, n - 2, n - 1);
        assert(swapped(f1, n - 2, n - 1) =~= rotated(f, t, n - 2, n - 1));
        lemma_blank_index(rotated(f, t, n - 2, n - 1), t);
    }
}

/// Moves the blank from the last cell to `target`, keeping the parity
/// condition.
fn place_blank(p: &mut Vec<usize>, width: usize, height: usize, target: usize)
    requires
        width >= 2,
        height >= 1,
        is_layout(as_ints(old(p)@), width as int),
        old(p)@.len() == width * height,
        old(p)@[old(p)@.len() - 1] == 0,
        target < old(p)@.len(),
    ensures
        as_ints(final(p)@) == placed(as_ints(old(p)@), width as int, height as int, target as int),
        final(p)@.len() == old(p)@.len(),
{
    let ghost f = as_ints(p@);
    let n = p.len();
    let x = target % width;
    let y = target / width;
    proof {
        lemma_cell_coords(target as int, width as int, height as int);
    }
    assert((width - 1 - x) + (height - 1 - y) < n) by (nonlinear_arith)
        requires
            x < width,
            y < height,
            width * height == n,
            width >= 2,
            height >= 1,
    ;
    let d = (width - 1 - x) + (height - 1 - y);
    assert(d as int == corner_distance(target as int, width as int, height as int));
    proof {
        lemma_corner_cells(target as int, width as int, height as int);
        assert(n >= 2) by (nonlinear_arith)
            requires
                width >= 2,
                height >= 1,
                n == width * height,
        ;
    }
    if d == 0 {
    } else if d % 2 == 1 {
        swap_entries(p, target, n - 1);
        assert(as_ints(p@) =~= swapped(f, target as int, n - 1));
    } else {
        rotate_entries(p, target, n - 2, n - 1);
        assert(as_ints(p@) =~= rotated(f, target as int, n - 2, n - 1));
    }
}

/// Builds the layout from the generator's draws: `order`, a shuffle of the
/// tiles `1..width * height`, and `target`, the cell drawn for the blank.
/// The layout is always solvable.
pub fn arrange_layout(order: Vec<usize>, width: usize, height: usize, target: usize) -> (r: Vec<
    usize,
>)
    requires
        width >= 2,
        height >= 2,
        width * height == order@.len() + 1,
        width * height <= usize::MAX,
        is_permutation(as_ints(order@).push(0)),
        target < width * height,
    ensures
        as_ints(r@) == generated_layout(as_ints(order@), width as int, height as int, target as int),
        r@.len() == order@.len() + 1,
        is_layout(as_ints(r@), width as int),
        r@[target as int] == 0,
        solvable(as_ints(r@), width as int),
{
    let ghost w = width as int;
    let ghost h = height as int;
    let n = order.len() + 1;
    let ghost o = as_ints(order@);
    let mut p = order;
    p.push(0);
    proof {
        assert(as_ints(p@) =~= o.push(0));
        assert(n >= 4) by (nonlinear_arith)
            requires
                width >= 2,
                height >= 2,
                n == width * height,
        ;
        vstd::arithmetic::div_mod::lemma_mod_multiples_basic(h, w);
        assert(h * w == w * h) by (nonlinear_arith);
        assert(is_layout(as_ints(p@), w));
        lemma_usize_values(p@);
        lemma_blank_index(as_ints(p@), n - 1);
        vstd::arithmetic::div_mod::lemma_div_multiples_vanish(h, w);
        assert((n as int) / w == h);
    }
    let ghost s = as_ints(p@);
    let solvable_as_is = match is_solvable(p.as_slice(), width) {
        Ok(b) => b,
        Err(_) => true,
    };
    if !solvable_as_is {
        proof {
            lemma_swap_layout(s, 0, 1);
            lemma_blank_index(swapped(s, 0, 1), n - 1);
        }
        swap_entries(&mut p, 0, 1);
        assert(as_ints(p@) =~= swapped(s, 0, 1));
    }
    let ghost f = as_ints(p@);
    assert(f == if solvable(s, w) { s } else { swapped(s, 0, 1) });
    assert(solvable(f, w) && is_layout(f, w) && f[n - 1] == 0);
    proof {
        lemma_placed(f, w, h, target as int);
    }
    place_blank(&mut p, width, height, target);
    p
}

/// The pieces that stand for `v`, where the piece type can hold each entry.
fn to_pieces<T: Piece>(v: &Vec<usize>, bound: usize) -> (r: Vec<T>)
    requires
        forall|i: int| 0 <= i < v@.len() ==> v@[i] <= bound,
        bound as int <= T::upper(),
    ensures
        values(r@) == as_ints(v@),
{
    let mut out: Vec<T> = Vec::new();
    let mut i: usize = 0;
    while i < v.len()
        invariant
            forall|k: int| 0 <= k < v@.len() ==> v@[k] <= bound,
            bound as int <= T::upper(),
            i <= v@.len(),
            out@.len() == i,
            forall|k: int| 0 <= k < i ==> out@[k].value() == v@[k] as int,
        decreases v@.len() - i,
    {
        match T::from_usize(v[i]) {
            Some(piece) => out.push(piece),
            None => {
                assert(false);
            },
        }
        i = i + 1;
    }
    assert(values(out@) =~= as_ints(v@));
    out
}

impl<T: Piece> BoxPuzzle<T> {
    /// A random solvable board of the given `(width, height)`, drawn with
    /// `rng`. Fails where either side is under 2, or where the number of
    /// cells does not fit in `usize` or its largest tile in `T`.
    pub fn random_with_rng(rng: &mut StdRng, shape: (usize, usize)) -> (r: Result<Self, BoardError>)
        ensures
            ({
                let (w, h) = (shape.0 as int, shape.1 as int);
                match r {
                    Ok(b) => {
                        &&& w >= 2 && h >= 2
                        &&& w * h <= usize::MAX
                        &&& w * h - 1 <= T::upper()
                        &&& b.wf()
                        &&& b.grid_width() == w
                        &&& b.grid_height() == h
                        &&& solvable(values(b.cells()), w)
                    },
                    Err(e) => if w < 2 || h < 2 {
                        e == BoardError::InvalidBoard
                    } else {
                        e == BoardError::UnrepresentableSize && (w * h > usize::MAX || w * h - 1
                            > T::upper())
                    },
                }
            }),
    {
        let (width, height) = shape;
        if width < 2 || height < 2 {
            return Err(BoardError::InvalidBoard);
        }
        let len = match width.checked_mul(height) {
            Some(len) => len,
            None => return Err(BoardError::UnrepresentableSize),
        };
        assert(len >= 4) by (nonlinear_arith)
            requires
                width >= 2,
                height >= 2,
                len == width * height,
        ;
        if T::from_usize(len - 1).is_none() {
            return Err(BoardError::UnrepresentableSize);
        }
        let mut order: Vec<usize> = Vec::new();
        let mut i: usize = 1;
        while i < len
            invariant
                1 <= i <= len,
                order@.len() == i - 1,
                forall|k: int| 0 <= k < i - 1 ==> order@[k] == k + 1,
            decreases len - i,
        {
            order.push(i);
            i = i + 1;
        }
        proof {
            let s = as_ints(order@).push(0);
            assert forall|a: int, b: int| 0 <= a < s.len() && 0 <= b < s.len() && a != b implies s[a]
                != s[b] by {}
            assert(is_permutation(s));
        }
        let ghost before = order@;
        shuffle_entries(rng, &mut order);
        proof {
            lemma_shuffled_permutation(before, order@);
        }
        let target = draw_below(rng, len);
        let layout = arrange_layout(order, width, height, target);
        proof {
            assert forall|k: int| 0 <= k < layout@.len() implies layout@[k] <= len - 1 by {
                assert(as_ints(layout@)[k] < len);
            }
        }
        let pieces: Vec<T> = to_pieces(&layout, len - 1);
        proof {
            lemma_rows(len as int, width as int);
            vstd::arithmetic::div_mod::lemma_div_multiples_vanish(height as int, width as int);
            assert(height * width == width * height) by (nonlinear_arith);
        }
        match BoxPuzzle::from_pieces(pieces, width) {
            Ok(b) => Ok(b),
            Err(e) => Err(e),
        }
    }

    /// A random solvable board of the given `(width, height)`, drawn with a
    /// generator seeded from the operating system.
    pub fn random(shape: (usize, usize)) -> (r: Result<Self, BoardError>)
        ensures
            ({
                let (w, h) = (shape.0 as int, shape.1 as int);
                match r {
                    Ok(b) => {
                        &&& b.wf()
                        &&& b.grid_width() == w
                        &&& b.grid_height() == h
                        &&& solvable(values(b.cells()), w)
                    },
                    Err(e) => if w < 2 || h < 2 {
                        e == BoardError::InvalidBoard
                    } else {
                        e == BoardError::UnrepresentableSize && (w * h > usize::MAX || w * h - 1
                            > T::upper())
                    },
                }
            }),
    {
        let mut rng = entropy_rng();
        Self::random_with_rng(&mut rng, shape)
    }
}

/// A reordering of a sequence whose entries, with `0` added, are a
/// permutation, is one too.
proof fn lemma_shuffled_permutation(before: Seq<usize>, after: Seq<usize>)
    requires
        is_permutation(as_ints(before).push(0)),
        after.to_multiset() == before.to_multiset(),
        after.len() == before.len(),
    ensures
        is_permutation(as_ints(after).push(0)),
{
    broadcast use vstd::seq_lib::group_to_multiset_ensures;

    let b = as_ints(before).push(0);
    let a = as_ints(after).push(0);
    assert forall|i: int| 0 <= i < after.len() implies before.contains(#[trigger] after[i]) by {
        assert(after.to_multiset().count(after[i]) > 0);
    }
    assert forall|i: int| 0 <= i < a.len() implies 0 <= #[trigger] a[i] < a.len() by {
        if i < after.len() {
            let j = choose|j: int| 0 <= j < before.len() && before[j] == after[i];
            assert(b[j] == a[i]);
        }
    }
    assert forall|i: int, j: int|
        0 <= i < before.len() && 0 <= j < before.len() && i != j implies before[i]
        != before[j] by {
        assert(b[i] != b[j]);
    }
    assert(before.no_duplicates());
    before.lemma_multiset_has_no_duplicates();
    after.lemma_multiset_has_no_duplicates_conv();
    assert forall|i: int, j: int| 0 <= i < a.len() && 0 <= j < a.len() && i != j implies a[i]
        != a[j] by {
        if i < after.len() && j < after.len() {
            assert(after[i] != after[j]);
        } else if i < after.len() {
            let k = choose|k: int| 0 <= k < before.len() && before[k] == after[i];
            assert(b[k] != b[before.len() as int]);
        } else if j < after.len() {
            let k = choose|k: int| 0 <= k < before.len() && before[k] == after[j];
            assert(b[k] != b[before.len() as int]);
        }
    }
}

} // verus!
