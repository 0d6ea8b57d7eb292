//! Inversion counts of integer sequences, and the fact that exchanging two
//! distinct entries changes their parity.
use vstd::prelude::*;
use vstd::set_lib::*;

verus! {

/// `s` with the entries at `i` and `j` exchanged.
pub open spec fn swapped<A>(s: Seq<A>, i: int, j: int) -> Seq<A> {
    s.update(i, s[j]).update(j, s[i])
}

/// How many entries of `s` are greater than `v`.
pub open spec fn count_above(s: Seq<int>, v: int) -> nat
    decreases s.len(),
{
    if s.len() == 0 {
        0
    } else {
        count_above(s.drop_last(), v) + if s.last() > v {
            1nat
        } else {
            0nat
        }
    }
}

/// The number of pairs `i < j` with `s[i] > s[j]`.
pub open spec fn inversions(s: Seq<int>) -> nat
    decreases s.len(),
{
    if s.len() == 0 {
        0
    } else {
        inversions(s.drop_last()) + count_above(s.drop_last(), s.last())
    }
}

/// `s` holds each of `0, 1, ..., s.len() - 1` exactly once.
pub open spec fn is_permutation(s: Seq<int>) -> bool {
    &&& forall|i: int| 0 <= i < s.len() ==> 0 <= #[trigger] s[i] < s.len()
    &&& s.no_duplicates()
}

proof fn lemma_count_above_adjacent(s: Seq<int>, i: int, v: int)
    requires
        0 <= i,
        i + 1 < s.len(),
    ensures
        count_above(swapped(s, i, i + 1), v) == count_above(s, v),
    decreases s.len(),
{
    let t = swapped(s, i, i + 1);
    if i + 1 == s.len() - 1 {
        let p = s.subrange(0, i);
        let a = s[i];
        let b = s[i + 1];
        assert(s.drop_last() =~= p.push(a));
        assert(t.drop_last() =~= p.push(b));
        assert(p.push(a).drop_last() =~= p);
        assert(p.push(b).drop_last() =~= p);
        assert(count_above(p.push(a), v) == count_above(p, v) + if a > v {
            1nat
        } else {
            0nat
        });
        assert(count_above(p.push(b), v) == count_above(p, v) + if b > v {
            1nat
        } else {
            0nat
        });
    } else {
        assert(t.drop_last() =~= swapped(s.drop_last(), i, i + 1));
        lemma_count_above_adjacent(s.drop_last(), i, v);
    }
}

proof fn lemma_inversions_adjacent(s: Seq<int>, i: int)
    requires
        0 <= i,
        i + 1 < s.len(),
        s[i] != s[i + 1],
    ensures
        (inversions(swapped(s, i, i + 1)) + inversions(s)) % 2 == 1,
    decreases s.len(),
{
    let t = swapped(s, i, i + 1);
    if i + 1 == s.len() - 1 {
        let p = s.subrange(0, i);
        let a = s[i];
        let b = s[i + 1];
        assert(s.drop_last() =~= p.push(a));
        assert(t.drop_last() =~= p.push(b));
        assert(p.push(a).drop_last() =~= p);
        assert(p.push(b).drop_last() =~= p);
        assert(inversions(p.push(a)) == inversions(p) + count_above(p, a));
        assert(inversions(p.push(b)) == inversions(p) + count_above(p, b));
        assert(count_above(p.push(a), b) == count_above(p, b) + if a > b {
            1nat
        } else {
            0nat
        });
        assert(count_above(p.push(b), a) == count_above(p, a) + if b > a {
            1nat
        } else {
            0nat
        });
    } else {
        assert(t.drop_last() =~= swapped(s.drop_last(), i, i + 1));
        lemma_count_above_adjacent(s.drop_last(), i, s.last());
        lemma_inversions_adjacent(s.drop_last(), i);
    }
}

/// Exchanging two distinct entries keeps a sequence free of duplicates.
pub proof fn lemma_swapped_no_duplicates<A>(s: Seq<A>, i: int, j: int)
    requires
        0 <= i < s.len(),
        0 <= j < s.len(),
        s.no_duplicates(),
    ensures
        swapped(s, i, j).no_duplicates(),
        swapped(s, i, j).len() == s.len(),
        swapped(s, i, j).to_multiset() == s.to_multiset(),
{
    let t = swapped(s, i, j);
    assert forall|a: int, b: int| 0 <= a < t.len() && 0 <= b < t.len() && a != b implies t[a]
        != t[b] by {
        let sa = if a == i {
            j
        } else if a == j {
            i
        } else {
            a
        };
        let sb = if b == i {
            j
        } else if b == j {
            i
        } else {
            b
        };
        assert(t[a] == s[sa]);
        assert(t[b] == s[sb]);
    }
    lemma_swapped_multiset(s, i, j);
}

/// Exchanging two entries keeps the multiset of a sequence.
pub proof fn lemma_swapped_multiset<A>(s: Seq<A>, i: int, j: int)
    requires
        0 <= i < s.len(),
        0 <= j < s.len(),
    ensures
        swapped(s, i, j).to_multiset() == s.to_multiset(),
{
    broadcast use vstd::seq_lib::group_to_multiset_ensures;
    broadcast use vstd::multiset::group_multiset_axioms;

    let t = swapped(s, i, j);
    if i != j {
        let a = s[i];
        let b = s[j];
        let s1 = s.update(i, b);
        vstd::seq_lib::to_multiset_update(s, i, b);
        vstd::seq_lib::to_multiset_update(s1, j, a);
        assert(s1[j] == b);
        assert(t.to_multiset() =~= s.to_multiset());
    } else {
        assert(t =~= s);
    }
}

/// Exchanging two distinct entries of a sequence changes the parity of its
/// inversion count.
pub proof fn lemma_inversions_swapped(s: Seq<int>, i: int, j: int)
    requires
        0 <= i < s.len(),
        0 <= j < s.len(),
        i != j,
        s.no_duplicates(),
    ensures
        (inversions(swapped(s, i, j)) + inversions(s)) % 2 == 1,
{
    if j < i {
        assert(swapped(s, i, j) =~= swapped(s, j, i));
        lemma_inversions_swapped_ordered(s, j, i);
    } else {
        lemma_inversions_swapped_ordered(s, i, j);
    }
}

proof fn lemma_inversions_swapped_ordered(s: Seq<int>, i: int, j: int)
    requires
        0 <= i < j < s.len(),
        s.no_duplicates(),
    ensures
        (inversions(swapped(s, i, j)) + inversions(s)) % 2 == 1,
    decreases j - i,
{
    if j == i + 1 {
        lemma_inversions_adjacent(s, i);
    } else {
        let t = swapped(s, i, i + 1);
        let u = swapped(t, i + 1, j);
        lemma_inversions_adjacent(s, i);
        lemma_swapped_no_duplicates(s, i, i + 1);
        lemma_inversions_swapped_ordered(t, i + 1, j);
        lemma_swapped_no_duplicates(t, i + 1, j);
        assert(u[i] != u[i + 1]);
        lemma_inversions_adjacent(u, i);
        assert(swapped(u, i, i + 1) =~= swapped(s, i, j));
    }
}

/// A strictly increasing sequence has no inversions.
pub proof fn lemma_inversions_sorted(s: Seq<int>)
    requires
        forall|a: int, b: int| 0 <= a < b < s.len() ==> s[a] < s[b],
    ensures
        inversions(s) == 0,
    decreases s.len(),
{
    if s.len() > 0 {
        lemma_inversions_sorted(s.drop_last());
        lemma_count_above_none(s.drop_last(), s.last());
    }
}

proof fn lemma_count_above_none(s: Seq<int>, v: int)
    requires
        forall|a: int| 0 <= a < s.len() ==> s[a] < v,
    ensures
        count_above(s, v) == 0,
    decreases s.len(),
{
    if s.len() > 0 {
        lemma_count_above_none(s.drop_last(), v);
    }
}

/// A permutation holds every number below its length.
pub proof fn lemma_permutation_contains(s: Seq<int>, v: int)
    requires
        is_permutation(s),
        0 <= v < s.len(),
    ensures
        s.contains(v),
{
    s.unique_seq_to_set();
    lemma_int_range(0, s.len() as int);
    let r = set_int_range(0, s.len() as int);
    assert(s.to_set().subset_of(r));
    lemma_subset_equality(s.to_set(), r);
    assert(r.contains(v));
}

} // verus!
