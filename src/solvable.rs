//! The parity test that tells solvable layouts from the others.
use vstd::prelude::*;
use vstd::set_lib::*;

use crate::error::BoardError;
use crate::grid::{corner_distance, lemma_cell_coords, lemma_corner_cells};
use crate::parity::{
    inversions, is_permutation, lemma_inversions_sorted, lemma_inversions_swapped,
    lemma_permutation_contains, lemma_swapped_no_duplicates, swapped,
};
use crate::piece::Piece;

verus! {

/// The numbers that a sequence of pieces stands for.
pub open spec fn values<T: Piece>(s: Seq<T>) -> Seq<int> {
    s.map_values(|p: T| p.value())
}

/// A sequence of indices as integers.
pub open spec fn as_ints(s: Seq<usize>) -> Seq<int> {
    s.map_values(|x: usize| x as int)
}

/// The numbers of a layout with the blank counted as the largest, so that
/// the solved layout reads `1, 2, ..., len`.
pub open spec fn ranked(s: Seq<int>) -> Seq<int> {
    s.map_values(|v: int| if v == 0 { s.len() as int } else { v })
}

/// Where the blank is.
pub open spec fn blank_index(s: Seq<int>) -> int {
    choose|i: int| 0 <= i < s.len() && s[i] == 0
}

/// `s` is a layout of a grid of width `w`: at least 4 cells, whole rows,
/// and each of `0..len` once.
pub open spec fn is_layout(s: Seq<int>, w: int) -> bool {
    &&& w >= 2
    &&& s.len() >= 4
    &&& (s.len() as int) % w == 0
    &&& is_permutation(s)
}

/// `s` is the layout of a board of width `w`: at least two columns and two
/// rows, and each of `0..len` once.
pub open spec fn board_layout<T: Piece>(s: Seq<T>, w: int) -> bool {
    is_layout(values(s), w) && (s.len() as int) / w >= 2
}

/// The solved layout `1, 2, ..., len - 1, 0`.
pub open spec fn solved_layout(n: int) -> Seq<int> {
    Seq::new(n as nat, |i: int| if i == n - 1 { 0 } else { i + 1 })
}

/// The parity condition of a layout of width `w`: the inversions of its
/// ranked numbers and the blank's distance from the bottom-right corner
/// add up to an even number. Legal slides keep it, and the solved layout
/// meets it.
pub open spec fn solvable(s: Seq<int>, w: int) -> bool {
    (inversions(ranked(s)) + corner_distance(blank_index(s), w, (s.len() as int) / w)) % 2 == 0
}

/// The blank of a permutation is where its `0` is.
pub proof fn lemma_blank_index(s: Seq<int>, e: int)
    requires
        is_permutation(s),
        0 <= e < s.len(),
        s[e] == 0,
    ensures
        blank_index(s) == e,
{
    let b = blank_index(s);
    assert(0 <= b < s.len() && s[b] == 0);
}

/// A permutation has a blank.
pub proof fn lemma_has_blank(s: Seq<int>)
    requires
        is_permutation(s),
        s.len() > 0,
    ensures
        0 <= blank_index(s) < s.len(),
        s[blank_index(s)] == 0,
{
    lemma_permutation_contains(s, 0);
    let e = choose|i: int| 0 <= i < s.len() && s[i] == 0;
    lemma_blank_index(s, e);
}

/// Exchanging two cells of a permutation keeps it one and changes the
/// parity of its ranked inversions.
pub proof fn lemma_swap_layout(s: Seq<int>, i: int, j: int)
    requires
        is_permutation(s),
        0 <= i < s.len(),
        0 <= j < s.len(),
        i != j,
    ensures
        is_permutation(swapped(s, i, j)),
        (inversions(ranked(swapped(s, i, j))) + inversions(ranked(s))) % 2 == 1,
{
    let r = ranked(s);
    assert(ranked(swapped(s, i, j)) =~= swapped(r, i, j));
    assert forall|a: int, b: int| 0 <= a < r.len() && 0 <= b < r.len() && a != b implies r[a]
        != r[b] by {
        assert(s[a] != s[b]);
    }
    assert(r.no_duplicates());
    lemma_inversions_swapped(r, i, j);
    lemma_swapped_no_duplicates(s, i, j);
    let t = swapped(s, i, j);
    assert forall|k: int| 0 <= k < t.len() implies 0 <= #[trigger] t[k] < t.len() by {
        if k == i {
            assert(t[k] == s[j]);
        } else if k == j {
            assert(t[k] == s[i]);
        } else {
            assert(t[k] == s[k]);
        }
    }
}

/// The solved layout is a layout, and it meets the parity condition.
pub proof fn lemma_solved_layout_solvable(n: int, w: int)
    requires
        w >= 2,
        n >= 4,
        n % w == 0,
    ensures
        is_layout(solved_layout(n), w),
        solvable(solved_layout(n), w),
{
    let s = solved_layout(n);
    assert forall|a: int, b: int| 0 <= a < s.len() && 0 <= b < s.len() && a != b implies s[a]
        != s[b] by {}
    assert(is_layout(s, w));
    lemma_blank_index(s, n - 1);
    let r = ranked(s);
    assert forall|a: int, b: int| 0 <= a < b < r.len() implies r[a] < r[b] by {}
    lemma_inversions_sorted(r);
    let h = n / w;
    vstd::arithmetic::div_mod::lemma_fundamental_div_mod(n, w);
    assert(w * h == n);
    assert(h >= 1) by (nonlinear_arith)
        requires
            w * h == n,
            n >= 4,
            w >= 2,
    ;
    lemma_corner_cells(n - 1, w, h);
}

/// Exchanges the entries at `i` and `j`.
pub fn swap_entries<A: Copy>(v: &mut Vec<A>, i: usize, j: usize)
    requires
        i < old(v).len(),
        j < old(v).len(),
    ensures
        final(v)@ == swapped(old(v)@, i as int, j as int),
{
    let a = v[i];
    let b = v[j];
    v.set(i, b);
    v.set(j, a);
}

/// The grid positions of a permutation that already hold their solved
/// value, from `i` on.
spec fn settled(p: Seq<int>, i: int) -> Set<int> {
    Set::new(|k: int| i <= k < p.len() && p[k] == k + 1)
}

proof fn lemma_settled_bounds(p: Seq<int>, i: int)
    requires
        0 <= i <= p.len(),
    ensures
        settled(p, i).finite(),
        settled(p, i).len() <= p.len() - i,
{
    lemma_int_range(i, p.len() as int);
    assert(settled(p, i).subset_of(set_int_range(i, p.len() as int)));
    lemma_len_subset(settled(p, i), set_int_range(i, p.len() as int));
}

/// Whether the layout `p` (a permutation, as indices) meets the parity
/// condition: the blank is first brought to the last cell, and then the
/// first `len - 2` cells are sorted by exchanges, which are counted.
fn layout_parity_even(p: &mut Vec<usize>, width: usize) -> (even: bool)
    requires
        is_layout(as_ints(old(p)@), width as int),
    ensures
        even == solvable(as_ints(old(p)@), width as int),
{
    let ghost s0 = as_ints(p@);
    let n = p.len();
    let height = n / width;
    let last = n - 1;
    proof {
        vstd::arithmetic::div_mod::lemma_fundamental_div_mod(n as int, width as int);
        assert(width * height == n);
        assert(height >= 1) by (nonlinear_arith)
            requires
                width * height == n,
                n >= 4,
                width >= 2,
        ;
        lemma_has_blank(s0);
    }
    let mut e: usize = 0;
    while p[e] != 0
        invariant
            p@.len() == n,
            as_ints(p@) == s0,
            0 <= blank_index(s0) < n,
            s0[blank_index(s0)] == 0,
            e <= blank_index(s0),
        decreases n - e,
    {
        assert(s0[e as int] == p@[e as int]);
        e = e + 1;
    }
    proof {
        assert(s0[e as int] == 0);
        lemma_blank_index(s0, e as int);
        lemma_cell_coords(e as int, width as int, height as int);
        lemma_corner_cells(e as int, width as int, height as int);
    }
    let x = e % width;
    let y = e / width;
    assert((width - 1 - x) + (height - 1 - y) < n) by (nonlinear_arith)
        requires
            x < width,
            y < height,
            width * height == n,
            width >= 2,
            height >= 1,
    ;
    let d = (width - 1 - x) + (height - 1 - y);
    assert(d as int == corner_distance(blank_index(s0), width as int, height as int));
    let ghost target = (inversions(ranked(s0)) + d) % 2;
    if d % 2 == 1 {
        proof {
            lemma_swap_layout(s0, e as int, last as int);
        }
        swap_entries(p, e, last);
        assert(as_ints(p@) =~= swapped(s0, e as int, last as int));
    } else if d != 0 {
        let ghost s1 = swapped(s0, e as int, (last - 1) as int);
        proof {
            lemma_swap_layout(s0, e as int, (last - 1) as int);
            lemma_swap_layout(s1, (last - 1) as int, last as int);
        }
        swap_entries(p, e, last - 1);
        assert(as_ints(p@) =~= s1);
        swap_entries(p, last - 1, last);
        assert(as_ints(p@) =~= swapped(s1, (last - 1) as int, last as int));
    }
    assert(p@[last as int] == 0) by {
        assert(as_ints(p@)[last as int] == 0);
    }
    assert((inversions(ranked(as_ints(p@)))) % 2 == target);

    let mut swaps: usize = 0;
    let mut i: usize = 0;
    while i < n - 2
        invariant
            p@.len() == n,
            n >= 4,
            is_permutation(as_ints(p@)),
            p@[n - 1] == 0,
            i <= n - 2,
            forall|k: int| 0 <= k < i ==> p@[k] == k + 1,
            (swaps + inversions(ranked(as_ints(p@)))) % 2 == target,
            swaps <= i + settled(as_ints(p@), i as int).len(),
        decreases n - i,
    {
        proof {
            lemma_settled_bounds(as_ints(p@), i as int);
        }
        loop
            invariant
                p@.len() == n,
                n >= 4,
                is_permutation(as_ints(p@)),
                p@[n - 1] == 0,
                i < n - 2,
                forall|k: int| 0 <= k < i ==> p@[k] == k + 1,
                (swaps + inversions(ranked(as_ints(p@)))) % 2 == target,
                swaps <= i + settled(as_ints(p@), i as int).len(),
                settled(as_ints(p@), i as int).finite(),
                settled(as_ints(p@), i as int).len() <= n - i,
            ensures
                p@[i as int] == i + 1,
            decreases n - settled(as_ints(p@), i as int).len(),
        {
            let ghost q = as_ints(p@);
            assert(q[i as int] == p@[i as int]);
            assert(p@[i as int] != 0) by {
                assert(q[(n - 1) as int] == 0);
            }
            let j = p[i] - 1;
            if i == j {
                break;
            }
            assert(j > i) by {
                if j < i {
                    assert(q[j as int] == q[i as int]);
                }
            }
            assert(j < n - 1) by {
                assert(q[i as int] < n);
            }
            proof {
                lemma_swap_layout(q, i as int, j as int);
            }
            swap_entries(p, i, j);
            proof {
                let q2 = as_ints(p@);
                assert(q2 =~= swapped(q, i as int, j as int));
                let old_set = settled(q, i as int);
                let new_set = settled(q2, i as int);
                assert(!old_set.contains(j as int)) by {
                    assert(q[j as int] != q[i as int]);
                }
                assert(old_set.insert(j as int).subset_of(new_set));
                lemma_settled_bounds(q2, i as int);
                lemma_len_subset(old_set.insert(j as int), new_set);
            }
            swaps = swaps + 1;
        }
        proof {
            let q = as_ints(p@);
            assert(settled(q, i as int).contains(i as int));
            assert(settled(q, (i + 1) as int) =~= settled(q, i as int).remove(i as int));
        }
        i = i + 1;
    }
    proof {
        let q = as_ints(p@);
        assert(q[(n - 2) as int] == n - 1) by {
            let v = q[(n - 2) as int];
            if v < n - 1 {
                assert(v != 0) by {
                    assert(q[(n - 1) as int] == 0);
                }
                assert(q[v - 1] == v);
            }
        }
        let r = ranked(q);
        assert forall|a: int| 0 <= a < n implies r[a] == a + 1 by {
            if a == n - 1 {
            } else if a == n - 2 {
            } else {
                assert(q[a] == p@[a]);
            }
        }
        lemma_inversions_sorted(r);
    }
    swaps % 2 == 0
}

/// The pieces as indices, where they are a permutation of `0..len`.
pub(crate) fn layout_indices<T: Piece>(pieces: &[T]) -> (r: Option<Vec<usize>>)
    ensures
        r is Some <==> is_permutation(values(pieces@)),
        r is Some ==> as_ints(r->0@) == values(pieces@),
{
    let n = pieces.len();
    let ghost vals = values(pieces@);
    let mut seen: Vec<bool> = vec![false; n];
    let mut out: Vec<usize> = Vec::new();
    let mut i: usize = 0;
    while i < n
        invariant
            n == pieces@.len(),
            vals == values(pieces@),
            seen@.len() == n,
            out@.len() == i,
            i <= n,
            forall|k: int| 0 <= k < i ==> (out@[k] as int) == vals[k],
            forall|k: int| 0 <= k < i ==> #[trigger] out@[k] < n,
            forall|v: int|
                0 <= v < n ==> (#[trigger] seen@[v] <==> exists|k: int|
                    0 <= k < i && out@[k] as int == v),
            forall|a: int, b: int| 0 <= a < b < i ==> out@[a] != out@[b],
        decreases n - i,
    {
        let u = match pieces[i].to_usize() {
            Some(u) => u,
            None => {
                assert(!(0 <= vals[i as int] < n));
                return None;
            },
        };
        assert(u as int == vals[i as int]);
        if u >= n {
            return None;
        }
        if seen[u] {
            proof {
                let k = choose|k: int| 0 <= k < i && out@[k] as int == u as int;
                assert(vals[k] == vals[i as int]);
            }
            return None;
        }
        let ghost out0 = out@;
        let ghost seen0 = seen@;
        seen.set(u, true);
        out.push(u);
        proof {
            assert forall|v: int| 0 <= v < n implies (#[trigger] seen@[v] <==> exists|k: int|
                0 <= k < i + 1 && out@[k] as int == v) by {
                if v == u as int {
                    assert(out@[i as int] as int == v);
                } else {
                    assert(seen@[v] == seen0[v]);
                    if seen0[v] {
                        let k = choose|k: int| 0 <= k < i && out0[k] as int == v;
                        assert(out@[k] == out0[k]);
                    }
                    if exists|k: int| 0 <= k < i + 1 && out@[k] as int == v {
                        let k = choose|k: int| 0 <= k < i + 1 && out@[k] as int == v;
                        assert(k < i);
                        assert(out0[k] == out@[k]);
                    }
                }
            }
        }
        i = i + 1;
    }
    proof {
        assert(as_ints(out@) =~= vals);
        assert forall|a: int, b: int| 0 <= a < n && 0 <= b < n && a != b implies vals[a]
            != vals[b] by {
            if a < b {
                assert(out@[a] != out@[b]);
            } else {
                assert(out@[b] != out@[a]);
            }
        }
    }
    Some(out)
}

/// Whether `pieces`, read as a grid `width` cells wide, can be solved.
/// Fails when the pieces are not a permutation of `0..len` on a grid of
/// width at least 2 with at least 4 cells and whole rows. The pieces
/// themselves are left as they are.
pub fn is_solvable<T: Piece>(pieces: &[T], width: usize) -> (r: Result<bool, BoardError>)
    ensures
        match r {
            Ok(b) => is_layout(values(pieces@), width as int) && b == solvable(
                values(pieces@),
                width as int,
            ),
            Err(e) => !is_layout(values(pieces@), width as int) && e == BoardError::InvalidBoard,
        },
{
    let n = pieces.len();
    if width < 2 || n < 4 || n % width != 0 {
        return Err(BoardError::InvalidBoard);
    }
    match layout_indices(pieces) {
        Some(mut indices) => Ok(layout_parity_even(&mut indices, width)),
        None => Err(BoardError::InvalidBoard),
    }
}

} // verus!
