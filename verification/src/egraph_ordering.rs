//! Layer orderings for layered (Sugiyama) layout: rewrites of an ordering,
//! crossing counts between adjacent layers and a bounded rewrite search.
use vstd::prelude::*;
use crate::seq_sum::{seq_sum, lemma_sum_concat, lemma_sum_perm, lemma_sum_ext, lemma_sum_zero, lemma_sum_one, lemma_sum_bound, lemma_sum_add, lemma_sum_push};

verus! {

/// Indicator of "greater than `x`".
pub open spec fn gt_indicator(x: usize) -> spec_fn(usize) -> nat {
    |q: usize| if q > x { 1nat } else { 0nat }
}

/// Number of elements of `s` greater than `x`.
pub open spec fn count_greater(s: Seq<usize>, x: usize) -> nat {
    seq_sum(s, gt_indicator(x))
}

/// `x ↦ count_greater(l, x)`.
pub open spec fn count_greater_in(l: Seq<usize>) -> spec_fn(usize) -> nat {
    |x: usize| count_greater(l, x)
}

/// Number of pairs (a in `l`, b in `r`) with a > b.
pub open spec fn cross_count(l: Seq<usize>, r: Seq<usize>) -> nat {
    seq_sum(r, count_greater_in(l))
}

/// Number of pairs i < j with s[i] > s[j].
pub open spec fn inversions(s: Seq<usize>) -> nat
    decreases s.len(),
{
    if s.len() == 0 {
        0
    } else {
        inversions(s.drop_last()) + count_greater(s.drop_last(), s.last())
    }
}

/// Non-decreasing.
pub open spec fn sorted_usize(s: Seq<usize>) -> bool {
    forall|i: int, j: int| 0 <= i < j < s.len() ==> s[i] <= s[j]
}

pub proof fn lemma_inversions_concat(l: Seq<usize>, r: Seq<usize>)
    ensures
        inversions(l + r) == inversions(l) + inversions(r) + cross_count(l, r),
    decreases r.len(),
{
    if r.len() == 0 {
        assert(l + r =~= l);
    } else {
        let x = r.last();
        let r1 = r.drop_last();
        lemma_inversions_concat(l, r1);
        assert((l + r).drop_last() =~= l + r1);
        assert((l + r).last() == x);
        lemma_sum_concat(l, r1, gt_indicator(x));
    }
}

proof fn lemma_count_greater_perm(a: Seq<usize>, b: Seq<usize>, x: usize)
    requires
        a.to_multiset() == b.to_multiset(),
    ensures
        count_greater(a, x) == count_greater(b, x),
{
    lemma_sum_perm(a, b, gt_indicator(x));
}

proof fn lemma_cross_perm(l1: Seq<usize>, l2: Seq<usize>, r1: Seq<usize>, r2: Seq<usize>)
    requires
        l1.to_multiset() == l2.to_multiset(),
        r1.to_multiset() == r2.to_multiset(),
    ensures
        cross_count(l1, r1) == cross_count(l2, r2),
{
    lemma_sum_perm(r1, r2, count_greater_in(l1));
    assert forall|i: int| 0 <= i < r2.len() implies #[trigger] count_greater_in(l1)(r2[i])
        == count_greater_in(l2)(r2[i]) by {
        lemma_count_greater_perm(l1, l2, r2[i]);
    }
    lemma_sum_ext(r2, count_greater_in(l1), count_greater_in(l2));
}

/// A sorted sequence whose first `i` elements are at most `x` and the rest above it.
proof fn lemma_count_greater_split(l: Seq<usize>, i: int, x: usize)
    requires
        0 <= i <= l.len(),
        forall|a: int| 0 <= a < i ==> l[a] <= x,
        forall|a: int| i <= a < l.len() ==> l[a] > x,
    ensures
        count_greater(l, x) == l.len() - i,
{
    let pre = l.subrange(0, i);
    let post = l.subrange(i, l.len() as int);
    assert(l =~= pre + post);
    lemma_sum_concat(pre, post, gt_indicator(x));
    lemma_sum_zero(pre, gt_indicator(x));
    lemma_sum_one(post, gt_indicator(x));
}

pub proof fn lemma_inversions_bound(s: Seq<usize>)
    ensures
        inversions(s) <= s.len() * s.len(),
    decreases s.len(),
{
    if s.len() > 0 {
        let s1 = s.drop_last();
        lemma_inversions_bound(s1);
        lemma_sum_bound(s1, gt_indicator(s.last()), 1);
        assert(s1.len() * s1.len() + s1.len() * 1 <= s.len() * s.len()) by (nonlinear_arith)
            requires
                s1.len() + 1 == s.len(),
        ;
    }
}

proof fn lemma_ms_step(a: Seq<usize>, b: Seq<usize>, x: usize)
    ensures
        (a.push(x) + b).to_multiset() == (a + b).to_multiset().insert(x),
        (a + b.push(x)).to_multiset() == (a + b).to_multiset().insert(x),
{
    broadcast use vstd::seq_lib::group_to_multiset_ensures;
    broadcast use vstd::multiset::group_multiset_axioms;

    vstd::seq_lib::lemma_multiset_commutative(a.push(x), b);
    vstd::seq_lib::lemma_multiset_commutative(a, b.push(x));
    vstd::seq_lib::lemma_multiset_commutative(a, b);
    assert((a.push(x) + b).to_multiset() =~= (a + b).to_multiset().insert(x));
    assert((a + b.push(x)).to_multiset() =~= (a + b).to_multiset().insert(x));
}

/// Merge sort that also counts inversions: returns the sorted elements and
/// the number of pairs i < j with arr[i] > arr[j].
pub fn merge_sort_count(arr: &[usize]) -> (r: (Vec<usize>, usize))
    requires
        arr@.len() * arr@.len() <= usize::MAX,
    ensures
        sorted_usize(r.0@),
        r.0@.to_multiset() == arr@.to_multiset(),
        r.1 == inversions(arr@),
    decreases arr@.len(),
{
    broadcast use vstd::seq_lib::group_to_multiset_ensures;
    broadcast use vstd::multiset::group_multiset_axioms;

    proof {
        lemma_inversions_bound(arr@);
    }
    if arr.len() <= 1 {
        let mut v: Vec<usize> = Vec::new();
        if arr.len() == 1 {
            v.push(arr[0]);
            proof {
                assert(v@ =~= arr@);
                assert(arr@.drop_last() =~= Seq::<usize>::empty());
                assert(count_greater(arr@.drop_last(), arr@.last()) == 0);
                assert(inversions(arr@.drop_last()) == 0);
                assert(inversions(arr@) == 0);
            }
        } else {
            proof {
                assert(v@ =~= arr@);
            }
        }
        return (v, 0);
    }
    let mid = arr.len() / 2;
    let lpart = &arr[0..mid];
    let rpart = &arr[mid..arr.len()];
    proof {
        assert(arr@ =~= lpart@ + rpart@);
        lemma_inversions_concat(lpart@, rpart@);
        assert(lpart@.len() * lpart@.len() <= arr@.len() * arr@.len()) by (nonlinear_arith)
            requires
                lpart@.len() <= arr@.len(),
        ;
        assert(rpart@.len() * rpart@.len() <= arr@.len() * arr@.len()) by (nonlinear_arith)
            requires
                rpart@.len() <= arr@.len(),
        ;
    }
    let (left, left_inv) = merge_sort_count(lpart);
    let (right, right_inv) = merge_sort_count(rpart);
    let ghost total = inversions(arr@);
    proof {
        lemma_cross_perm(left@, lpart@, right@, rpart@);
        assert(left_inv + right_inv + cross_count(left@, right@) == total);
    }
    let mut merged: Vec<usize> = Vec::with_capacity(arr.len());
    let mut inv: usize = left_inv + right_inv;
    let mut i: usize = 0;
    let mut j: usize = 0;
    while i < left.len() && j < right.len()
        invariant
            0 <= i <= left@.len(),
            0 <= j <= right@.len(),
            sorted_usize(left@),
            sorted_usize(right@),
            sorted_usize(merged@),
            merged@.to_multiset() == (left@.subrange(0, i as int) + right@.subrange(0, j as int)).to_multiset(),
            merged@.len() == i + j,
            merged@.len() > 0 ==> (i < left@.len() ==> merged@.last() <= left@[i as int]) && (j < right@.len() ==> merged@.last() <= right@[j as int]),
            forall|a: int, b: int| 0 <= a < i && j <= b < right@.len() ==> left@[a] <= right@[b],
            inv == left_inv + right_inv + cross_count(left@, right@.subrange(0, j as int)),
            left_inv + right_inv + cross_count(left@, right@) == total,
            total <= usize::MAX,
        decreases left@.len() + right@.len() - i - j,
    {
        let ghost m0 = merged@;
        if left[i] <= right[j] {
            merged.push(left[i]);
            proof {
                assert(left@.subrange(0, i + 1) =~= left@.subrange(0, i as int).push(left@[i as int]));
                lemma_ms_step(left@.subrange(0, i as int), right@.subrange(0, j as int), left@[i as int]);
                assert(merged@ =~= m0.push(left@[i as int]));
            vstd::seq_lib::to_multiset_build(m0, left@[i as int]);
            }
            i += 1;
        } else {
            proof {
                lemma_count_greater_split(left@, i as int, right@[j as int]);
                let rj = right@.subrange(0, j + 1);
                assert(rj.drop_last() =~= right@.subrange(0, j as int));
                assert(cross_count(left@, rj) == cross_count(left@, right@.subrange(0, j as int)) + count_greater(left@, right@[j as int]));
                let rest = right@.subrange(j + 1, right@.len() as int);
                assert(right@ =~= rj + rest);
                lemma_sum_concat(rj, rest, count_greater_in(left@));
            }
            inv = inv + (left.len() - i);
            merged.push(right[j]);
            proof {
                assert(right@.subrange(0, j + 1) =~= right@.subrange(0, j as int).push(right@[j as int]));
                lemma_ms_step(left@.subrange(0, i as int), right@.subrange(0, j as int), right@[j as int]);
                assert(merged@ =~= m0.push(right@[j as int]));
            vstd::seq_lib::to_multiset_build(m0, right@[j as int]);
            }
            j += 1;
        }
    }
    proof {
        // Elements still in `right` are at least every element of `left`
        // when `left` is used up; otherwise `right` is used up.
        if i == left.len() {
            let done = right@.subrange(0, j as int);
            let rest = right@.subrange(j as int, right@.len() as int);
            assert(right@ =~= done + rest);
            lemma_sum_concat(done, rest, count_greater_in(left@));
            assert forall|b: int| 0 <= b < rest.len() implies #[trigger] count_greater_in(left@)(rest[b]) == 0 by {
                lemma_count_greater_split(left@, left@.len() as int, rest[b]);
            }
            lemma_sum_zero(rest, count_greater_in(left@));
        } else {
            assert(right@.subrange(0, j as int) =~= right@);
        }
    }
    while i < left.len()
        invariant
            0 <= i <= left@.len(),
            0 <= j <= right@.len(),
            j < right@.len() ==> i == left@.len(),
            sorted_usize(left@),
            sorted_usize(merged@),
            merged@.len() > 0 && j < right@.len() ==> merged@.last() <= right@[j as int],
            merged@.to_multiset() == (left@.subrange(0, i as int) + right@.subrange(0, j as int)).to_multiset(),
            merged@.len() == i + j,
            merged@.len() > 0 && i < left@.len() ==> merged@.last() <= left@[i as int],
        decreases left@.len() - i,
    {
        let ghost m0 = merged@;
        merged.push(left[i]);
        proof {
            assert(left@.subrange(0, i + 1) =~= left@.subrange(0, i as int).push(left@[i as int]));
            lemma_ms_step(left@.subrange(0, i as int), right@.subrange(0, j as int), left@[i as int]);
            assert(merged@ =~= m0.push(left@[i as int]));
            vstd::seq_lib::to_multiset_build(m0, left@[i as int]);
        }
        i += 1;
    }
    while j < right.len()
        invariant
            i == left@.len(),
            0 <= j <= right@.len(),
            sorted_usize(right@),
            sorted_usize(merged@),
            merged@.to_multiset() == (left@.subrange(0, i as int) + right@.subrange(0, j as int)).to_multiset(),
            merged@.len() == i + j,
            merged@.len() > 0 && j < right@.len() ==> merged@.last() <= right@[j as int],
        decreases right@.len() - j,
    {
        let ghost m0 = merged@;
        merged.push(right[j]);
        proof {
            assert(right@.subrange(0, j + 1) =~= right@.subrange(0, j as int).push(right@[j as int]));
            lemma_ms_step(left@.subrange(0, i as int), right@.subrange(0, j as int), right@[j as int]);
            assert(merged@ =~= m0.push(right@[j as int]));
            vstd::seq_lib::to_multiset_build(m0, right@[j as int]);
        }
        j += 1;
    }
    proof {
        assert(left@.subrange(0, i as int) =~= left@);
        assert(right@.subrange(0, j as int) =~= right@);
        vstd::seq_lib::lemma_multiset_commutative(left@, right@);
        vstd::seq_lib::lemma_multiset_commutative(lpart@, rpart@);
    }
    (merged, inv)
}

} // verus!

verus! {

/// Two edges, given as (upper position, lower position), cross.
pub open spec fn crosses(a: (usize, usize), b: (usize, usize)) -> bool {
    (a.0 < b.0 && a.1 > b.1) || (a.0 > b.0 && a.1 < b.1)
}

/// Indicator of "crosses `z`".
pub open spec fn crosses_with(z: (usize, usize)) -> spec_fn((usize, usize)) -> nat {
    |y: (usize, usize)| if crosses(y, z) { 1nat } else { 0nat }
}

/// Number of crossing pairs among the edges in `p`.
pub open spec fn crossings(p: Seq<(usize, usize)>) -> nat
    decreases p.len(),
{
    if p.len() == 0 {
        0
    } else {
        crossings(p.drop_last()) + seq_sum(p.drop_last(), crosses_with(p.last()))
    }
}

/// Row sums of the symmetric crossing relation over `p`.
pub open spec fn crossing_row(p: Seq<(usize, usize)>) -> spec_fn((usize, usize)) -> nat {
    |x: (usize, usize)| seq_sum(p, crosses_with(x))
}

proof fn lemma_crossings_double(p: Seq<(usize, usize)>)
    ensures
        2 * crossings(p) == seq_sum(p, crossing_row(p)),
    decreases p.len(),
{
    if p.len() > 0 {
        let q = p.drop_last();
        let z = p.last();
        assert(p =~= q.push(z));
        lemma_crossings_double(q);
        lemma_sum_push(q, z, crossing_row(p));
        let colz = |x: (usize, usize)| if crosses(x, z) { 1nat } else { 0nat };
        assert forall|i: int| 0 <= i < q.len() implies #[trigger] crossing_row(p)(q[i]) == crossing_row(q)(q[i]) + colz(q[i]) by {
            lemma_sum_push(q, z, crosses_with(q[i]));
        }
        lemma_sum_add(q, crossing_row(q), colz, crossing_row(p));
        lemma_sum_push(q, z, crosses_with(z));
        assert forall|i: int| 0 <= i < q.len() implies #[trigger] colz(q[i]) == crosses_with(z)(q[i]) by {}
        lemma_sum_ext(q, colz, crosses_with(z));
    }
}

/// The number of crossings does not depend on the order of the edges.
pub proof fn lemma_crossings_perm(p1: Seq<(usize, usize)>, p2: Seq<(usize, usize)>)
    requires
        p1.to_multiset() == p2.to_multiset(),
    ensures
        crossings(p1) == crossings(p2),
{
    lemma_crossings_double(p1);
    lemma_crossings_double(p2);
    lemma_sum_perm(p1, p2, crossing_row(p1));
    assert forall|i: int| 0 <= i < p2.len() implies #[trigger] crossing_row(p1)(p2[i]) == crossing_row(p2)(p2[i]) by {
        lemma_sum_perm(p1, p2, crosses_with(p2[i]));
    }
    lemma_sum_ext(p2, crossing_row(p1), crossing_row(p2));
}

/// Lexicographic order on (upper, lower) position pairs.
pub open spec fn pair_le(a: (usize, usize), b: (usize, usize)) -> bool {
    a.0 < b.0 || (a.0 == b.0 && a.1 <= b.1)
}

pub open spec fn sorted_pairs(p: Seq<(usize, usize)>) -> bool {
    forall|i: int, j: int| 0 <= i < j < p.len() ==> pair_le(p[i], p[j])
}

/// Lower positions of the edges.
pub open spec fn lower_of(p: Seq<(usize, usize)>) -> Seq<usize> {
    Seq::new(p.len(), |i: int| p[i].1)
}

/// In an ordering sorted by upper position, crossings are the inversions
/// of the lower positions.
proof fn lemma_sorted_crossings(p: Seq<(usize, usize)>)
    requires
        sorted_pairs(p),
    ensures
        crossings(p) == inversions(lower_of(p)),
    decreases p.len(),
{
    if p.len() > 0 {
        let q = p.drop_last();
        let z = p.last();
        lemma_sorted_crossings(q);
        assert(lower_of(p).drop_last() =~= lower_of(q));
        assert(lower_of(p).last() == z.1);
        lemma_sum_over_lower(q, z);
    }
}

proof fn lemma_sum_over_lower(q: Seq<(usize, usize)>, z: (usize, usize))
    requires
        forall|i: int| 0 <= i < q.len() ==> pair_le(#[trigger] q[i], z),
    ensures
        seq_sum(q, crosses_with(z)) == count_greater(lower_of(q), z.1),
    decreases q.len(),
{
    if q.len() > 0 {
        let q1 = q.drop_last();
        assert forall|i: int| 0 <= i < q1.len() implies pair_le(#[trigger] q1[i], z) by {
            assert(q1[i] == q[i]);
        }
        lemma_sum_over_lower(q1, z);
        assert(lower_of(q).drop_last() =~= lower_of(q1));
        assert(pair_le(q.last(), z));
    }
}

} // verus!

verus! {

/// Index of the last occurrence of `x` in `s`, or -1.
pub open spec fn last_index(s: Seq<usize>, x: usize) -> int
    decreases s.len(),
{
    if s.len() == 0 {
        -1
    } else if s.last() == x {
        s.len() - 1
    } else {
        last_index(s.drop_last(), x)
    }
}

/// Index of the first occurrence of `x` in `s`, or -1.
pub open spec fn first_index(s: Seq<usize>, x: usize) -> int
    decreases s.len(),
{
    if s.len() == 0 {
        -1
    } else {
        let r = first_index(s.drop_last(), x);
        if r >= 0 {
            r
        } else if s.last() == x {
            s.len() - 1
        } else {
            -1
        }
    }
}

proof fn lemma_last_index(s: Seq<usize>, x: usize)
    ensures
        -1 <= last_index(s, x) < s.len(),
        last_index(s, x) >= 0 ==> s[last_index(s, x)] == x,
        forall|j: int| last_index(s, x) < j < s.len() ==> s[j] != x,
    decreases s.len(),
{
    if s.len() > 0 {
        lemma_last_index(s.drop_last(), x);
        assert forall|j: int| last_index(s, x) < j < s.len() implies s[j] != x by {
            if j < s.len() - 1 {
                assert(s[j] == s.drop_last()[j]);
            }
        }
    }
}

proof fn lemma_first_index(s: Seq<usize>, x: usize)
    ensures
        -1 <= first_index(s, x) < s.len(),
        first_index(s, x) >= 0 ==> s[first_index(s, x)] == x,
        forall|j: int| 0 <= j < s.len() && (first_index(s, x) < 0 || j < first_index(s, x)) ==> s[j] != x,
    decreases s.len(),
{
    if s.len() > 0 {
        lemma_first_index(s.drop_last(), x);
        assert forall|j: int| 0 <= j < s.len() && (first_index(s, x) < 0 || j < first_index(s, x)) implies s[j] != x by {
            if j < s.len() - 1 {
                assert(s[j] == s.drop_last()[j]);
            }
        }
    }
}

/// The (upper position, lower position) of each edge whose endpoints both
/// occur in the orderings, in edge order. A node that occurs twice is placed
/// at its last occurrence.
pub open spec fn edge_positions(up: Seq<usize>, lo: Seq<usize>, edges: Seq<(usize, usize)>) -> Seq<(usize, usize)>
    decreases edges.len(),
{
    if edges.len() == 0 {
        Seq::empty()
    } else {
        let rest = edge_positions(up, lo, edges.drop_last());
        let a = last_index(up, edges.last().0);
        let b = last_index(lo, edges.last().1);
        if a >= 0 && b >= 0 {
            rest.push((a as usize, b as usize))
        } else {
            rest
        }
    }
}

proof fn lemma_edge_positions_len(up: Seq<usize>, lo: Seq<usize>, edges: Seq<(usize, usize)>)
    ensures
        edge_positions(up, lo, edges).len() <= edges.len(),
    decreases edges.len(),
{
    if edges.len() > 0 {
        lemma_edge_positions_len(up, lo, edges.drop_last());
    }
}

/// A node ordering for a single layer: `order[i]` is the node at position i.
#[derive(Debug, Clone, PartialEq, Eq)]
pub struct LayerOrdering {
    pub order: Vec<usize>,
}

/// Edges between two adjacent layers, as (source node, target node).
#[derive(Debug, Clone, PartialEq, Eq)]
pub struct LayerEdges {
    pub edges: Vec<(usize, usize)>,
}

/// Index of the last occurrence of `x`.
fn last_position(s: &Vec<usize>, x: usize) -> (r: Option<usize>)
    ensures
        match r {
            Some(i) => i == last_index(s@, x),
            None => last_index(s@, x) == -1,
        },
{
    let mut found: Option<usize> = None;
    let mut i: usize = 0;
    while i < s.len()
        invariant
            0 <= i <= s@.len(),
            match found {
                Some(f) => f == last_index(s@.subrange(0, i as int), x),
                None => last_index(s@.subrange(0, i as int), x) == -1,
            },
        decreases s@.len() - i,
    {
        proof {
            assert(s@.subrange(0, i + 1).drop_last() =~= s@.subrange(0, i as int));
        }
        if s[i] == x {
            found = Some(i);
        }
        i += 1;
    }
    proof {
        assert(s@.subrange(0, i as int) =~= s@);
    }
    found
}

/// Copy of a vector of node ids.
fn copy_ids(v: &Vec<usize>) -> (r: Vec<usize>)
    ensures
        r@ == v@,
{
    let mut r: Vec<usize> = Vec::new();
    let mut i: usize = 0;
    while i < v.len()
        invariant
            0 <= i <= v@.len(),
            r@ == v@.subrange(0, i as int),
        decreases v@.len() - i,
    {
        r.push(v[i]);
        i += 1;
        proof {
            assert(r@ =~= v@.subrange(0, i as int));
        }
    }
    proof {
        assert(v@.subrange(0, i as int) =~= v@);
    }
    r
}

/// Sort (upper, lower) pairs lexicographically.
fn sort_pairs(p: &Vec<(usize, usize)>) -> (r: Vec<(usize, usize)>)
    ensures
        sorted_pairs(r@),
        r@.to_multiset() == p@.to_multiset(),
{
    broadcast use vstd::seq_lib::group_to_multiset_ensures;

    let mut r: Vec<(usize, usize)> = Vec::new();
    let mut i: usize = 0;
    while i < p.len()
        invariant
            0 <= i <= p@.len(),
            sorted_pairs(r@),
            r@.to_multiset() == p@.subrange(0, i as int).to_multiset(),
        decreases p@.len() - i,
    {
        let x = p[i];
        let mut pos: usize = 0;
        while pos < r.len() && (r[pos].0 < x.0 || (r[pos].0 == x.0 && r[pos].1 <= x.1))
            invariant
                0 <= pos <= r@.len(),
                forall|j: int| 0 <= j < pos ==> pair_le(r@[j], x),
            decreases r@.len() - pos,
        {
            pos += 1;
        }
        let ghost r0 = r@;
        r.insert(pos, x);
        proof {
            assert(r@ == r0.insert(pos as int, x));
            assert(sorted_pairs(r@)) by {
                assert forall|a: int, b: int| 0 <= a < b < r@.len() implies pair_le(r@[a], r@[b]) by {
                    if b < pos {
                    } else if b == pos {
                    } else if a < pos {
                        assert(r@[b] == r0[b - 1]);
                    } else if a == pos {
                        assert(r@[b] == r0[b - 1]);
                        assert(!pair_le(r0[pos as int], x));
                        if b - 1 > pos {
                            assert(pair_le(r0[pos as int], r0[b - 1]));
                        }
                    } else {
                        assert(r@[a] == r0[a - 1]);
                        assert(r@[b] == r0[b - 1]);
                    }
                }
            }
            assert(p@.subrange(0, i + 1) =~= p@.subrange(0, i as int).push(x));
            vstd::seq_lib::to_multiset_insert(r0, pos as int, x);
            vstd::seq_lib::to_multiset_build(p@.subrange(0, i as int), x);
        }
        i += 1;
    }
    proof {
        assert(p@.subrange(0, i as int) =~= p@);
    }
    r
}

/// Count the edge crossings between two adjacent layers.
///
/// Two edges cross when their endpoints are in opposite relative order in
/// the two layers. The edges are sorted by upper position and the
/// inversions of their lower positions are counted by merge sort.
pub fn crossing_count(upper: &LayerOrdering, lower: &LayerOrdering, edges: &LayerEdges) -> (r: usize)
    requires
        edges.edges@.len() * edges.edges@.len() <= usize::MAX,
    ensures
        r == crossings(edge_positions(upper.order@, lower.order@, edges.edges@)),
{
    let ghost pos_spec = edge_positions(upper.order@, lower.order@, edges.edges@);
    proof {
        lemma_edge_positions_len(upper.order@, lower.order@, edges.edges@);
    }
    if edges.edges.len() < 2 {
        proof {
            if pos_spec.len() == 1 {
                assert(pos_spec.drop_last() =~= Seq::<(usize, usize)>::empty());
                assert(crossings(pos_spec.drop_last()) == 0);
            }
        }
        return 0;
    }
    let mut positions: Vec<(usize, usize)> = Vec::new();
    let mut i: usize = 0;
    while i < edges.edges.len()
        invariant
            0 <= i <= edges.edges@.len(),
            positions@ == edge_positions(upper.order@, lower.order@, edges.edges@.subrange(0, i as int)),
        decreases edges.edges@.len() - i,
    {
        let (src, tgt) = edges.edges[i];
        proof {
            assert(edges.edges@.subrange(0, i + 1).drop_last() =~= edges.edges@.subrange(0, i as int));
            lemma_last_index(upper.order@, src);
            lemma_last_index(lower.order@, tgt);
        }
        match (last_position(&upper.order, src), last_position(&lower.order, tgt)) {
            (Some(up), Some(lo)) => {
                positions.push((up, lo));
            },
            _ => {},
        }
        i += 1;
    }
    proof {
        assert(edges.edges@.subrange(0, i as int) =~= edges.edges@);
    }
    let sorted = sort_pairs(&positions);
    let mut lowers: Vec<usize> = Vec::new();
    let mut k: usize = 0;
    while k < sorted.len()
        invariant
            0 <= k <= sorted@.len(),
            lowers@ == lower_of(sorted@).subrange(0, k as int),
        decreases sorted@.len() - k,
    {
        lowers.push(sorted[k].1);
        k += 1;
        proof {
            assert(lowers@ =~= lower_of(sorted@).subrange(0, k as int));
        }
    }
    proof {
        assert(lowers@ =~= lower_of(sorted@));
        assert(sorted@.len() == positions@.len()) by {
            assert(sorted@.to_multiset().len() == positions@.to_multiset().len());
            broadcast use vstd::seq_lib::group_to_multiset_ensures;
        }
        assert(lowers@.len() * lowers@.len() <= edges.edges@.len() * edges.edges@.len()) by (nonlinear_arith)
            requires
                lowers@.len() <= edges.edges@.len(),
        ;
        lemma_sorted_crossings(sorted@);
        lemma_crossings_perm(sorted@, positions@);
    }
    let (_, inv) = merge_sort_count(lowers.as_slice());
    inv
}

} // verus!

verus! {

/// `s` with positions `i` and `i + 1` exchanged.
pub open spec fn swap_spec(s: Seq<usize>, i: int) -> Seq<usize> {
    s.update(i, s[i + 1]).update(i + 1, s[i])
}

/// `s` with the block `s[start..start + len]` rotated left by `amount % len`.
pub open spec fn rotate_spec(s: Seq<usize>, start: int, len: int, amount: int) -> Seq<usize> {
    Seq::new(
        s.len(),
        |j: int|
            if start <= j < start + len {
                s[start + (j - start + amount % len) % len]
            } else {
                s[j]
            },
    )
}

/// `s` with the element at `from` removed and re-inserted at `min(to, len - 1)`.
pub open spec fn move_spec(s: Seq<usize>, from: int, to: int) -> Seq<usize> {
    let rest = s.remove(from);
    let t = if to < rest.len() { to } else { rest.len() as int };
    rest.insert(t, s[from])
}

impl LayerOrdering {
    /// Create an ordering from a sequence of node ids.
    pub fn new(order: Vec<usize>) -> (r: Self)
        ensures
            r.order@ == order@,
    {
        LayerOrdering { order }
    }

    /// The identity ordering `[0, 1, ..., n - 1]`.
    pub fn identity(n: usize) -> (r: Self)
        ensures
            r.order@ == Seq::new(n as nat, |i: int| i as usize),
    {
        let mut order: Vec<usize> = Vec::new();
        let mut i: usize = 0;
        while i < n
            invariant
                0 <= i <= n,
                order@ == Seq::new(i as nat, |j: int| j as usize),
            decreases n - i,
        {
            order.push(i);
            i += 1;
            proof {
                assert(order@ =~= Seq::new(i as nat, |j: int| j as usize));
            }
        }
        LayerOrdering { order }
    }

    /// Number of nodes in this layer.
    pub fn len(&self) -> (n: usize)
        ensures
            n == self.order@.len(),
    {
        self.order.len()
    }

    /// Whether the ordering is empty.
    pub fn is_empty(&self) -> (b: bool)
        ensures
            b == (self.order@.len() == 0),
    {
        self.order.len() == 0
    }

    /// Position of the first occurrence of a node, if present.
    pub fn position_of(&self, node_id: usize) -> (r: Option<usize>)
        ensures
            match r {
                Some(i) => i == first_index(self.order@, node_id),
                None => first_index(self.order@, node_id) == -1,
            },
    {
        proof {
            lemma_first_index(self.order@, node_id);
        }
        let mut i: usize = 0;
        while i < self.order.len()
            invariant
                0 <= i <= self.order@.len(),
                forall|j: int| 0 <= j < i ==> self.order@[j] != node_id,
            decreases self.order@.len() - i,
        {
            if self.order[i] == node_id {
                proof {
                    lemma_first_index(self.order@, node_id);
                }
                return Some(i);
            }
            i += 1;
        }
        proof {
            lemma_first_index(self.order@, node_id);
        }
        None
    }

    /// An independent copy.
    pub fn duplicate(&self) -> (r: Self)
        ensures
            r.order@ == self.order@,
    {
        LayerOrdering { order: copy_ids(&self.order) }
    }
}

/// Swap positions `i` and `i + 1`; `None` when `i + 1` is out of range.
pub fn adjacent_swap(ordering: &LayerOrdering, i: usize) -> (r: Option<LayerOrdering>)
    ensures
        match r {
            Some(o) => i + 1 < ordering.order@.len() && o.order@ == swap_spec(ordering.order@, i as int),
            None => i + 1 >= ordering.order@.len(),
        },
{
    if i >= ordering.order.len() || ordering.order.len() - i < 2 {
        return None;
    }
    let mut new_order = copy_ids(&ordering.order);
    let a = new_order[i];
    let b = new_order[i + 1];
    new_order.set(i, b);
    new_order.set(i + 1, a);
    proof {
        assert(new_order@ =~= swap_spec(ordering.order@, i as int));
    }
    Some(LayerOrdering::new(new_order))
}

/// Rotate `ordering[start..start + len]` left by `amount` positions.
/// `None` when the block is empty or out of range.
pub fn block_rotate(ordering: &LayerOrdering, start: usize, len: usize, amount: usize) -> (r: Option<LayerOrdering>)
    ensures
        match r {
            Some(o) => start + len <= ordering.order@.len() && len > 0 && o.order@ == rotate_spec(
                ordering.order@,
                start as int,
                len as int,
                amount as int,
            ),
            None => start + len > ordering.order@.len() || len == 0,
        },
{
    let n = ordering.order.len();
    if start > n || len > n - start || len == 0 {
        return None;
    }
    let amt = amount % len;
    let mut new_order: Vec<usize> = Vec::new();
    let mut j: usize = 0;
    while j < n
        invariant
            0 <= j <= n,
            n == ordering.order@.len(),
            start + len <= n,
            len > 0,
            amt == amount % len,
            new_order@ == rotate_spec(ordering.order@, start as int, len as int, amount as int).subrange(0, j as int),
        decreases n - j,
    {
        if start <= j && j < start + len {
            let d = j - start;
            let off = if d < len - amt {
                d + amt
            } else {
                d - (len - amt)
            };
            proof {
                assert(off == (d + amt) % (len as int)) by (nonlinear_arith)
                    requires
                        d < len,
                        amt < len,
                        off == if d < len - amt { d + amt } else { d - (len - amt) },
                ;
            }
            new_order.push(ordering.order[start + off]);
        } else {
            new_order.push(ordering.order[j]);
        }
        j += 1;
        proof {
            assert(new_order@ =~= rotate_spec(ordering.order@, start as int, len as int, amount as int).subrange(0, j as int));
        }
    }
    proof {
        assert(new_order@ =~= rotate_spec(ordering.order@, start as int, len as int, amount as int));
    }
    Some(LayerOrdering::new(new_order))
}

/// Move a node from its (first) position to `target_pos` (clamped to the end).
/// `None` when the node is absent.
pub fn move_node(ordering: &LayerOrdering, node_id: usize, target_pos: usize) -> (r: Option<LayerOrdering>)
    ensures
        match r {
            Some(o) => first_index(ordering.order@, node_id) >= 0 && o.order@ == if first_index(
                ordering.order@,
                node_id,
            ) == target_pos {
                ordering.order@
            } else {
                move_spec(ordering.order@, first_index(ordering.order@, node_id), target_pos as int)
            },
            None => first_index(ordering.order@, node_id) == -1,
        },
{
    let current_pos = match ordering.position_of(node_id) {
        Some(p) => p,
        None => {
            return None;
        },
    };
    proof {
        lemma_first_index(ordering.order@, node_id);
    }
    if current_pos == target_pos {
        return Some(ordering.duplicate());
    }
    let mut new_order = copy_ids(&ordering.order);
    let removed = new_order.remove(current_pos);
    let target = if target_pos < new_order.len() {
        target_pos
    } else {
        new_order.len()
    };
    new_order.insert(target, removed);
    proof {
        assert(new_order@ =~= move_spec(ordering.order@, current_pos as int, target_pos as int));
    }
    Some(LayerOrdering::new(new_order))
}

} // verus!

verus! {

proof fn lemma_swap_perm(s: Seq<usize>, i: int)
    requires
        0 <= i,
        i + 1 < s.len(),
    ensures
        swap_spec(s, i).to_multiset() == s.to_multiset(),
{
    broadcast use vstd::seq_lib::group_to_multiset_ensures;
    broadcast use vstd::multiset::group_multiset_axioms;

    let pre = s.subrange(0, i);
    let post = s.subrange(i + 2, s.len() as int);
    assert(s =~= pre + seq![s[i], s[i + 1]] + post);
    assert(swap_spec(s, i) =~= pre + seq![s[i + 1], s[i]] + post);
    vstd::seq_lib::lemma_multiset_commutative(pre + seq![s[i], s[i + 1]], post);
    vstd::seq_lib::lemma_multiset_commutative(pre + seq![s[i + 1], s[i]], post);
    vstd::seq_lib::lemma_multiset_commutative(pre, seq![s[i], s[i + 1]]);
    vstd::seq_lib::lemma_multiset_commutative(pre, seq![s[i + 1], s[i]]);
    assert(seq![s[i], s[i + 1]] =~= seq![s[i]].push(s[i + 1]));
    assert(seq![s[i + 1], s[i]] =~= seq![s[i + 1]].push(s[i]));
    assert(seq![s[i]] =~= Seq::<usize>::empty().push(s[i]));
    assert(seq![s[i + 1]] =~= Seq::<usize>::empty().push(s[i + 1]));
    assert(seq![s[i], s[i + 1]].to_multiset() =~= seq![s[i + 1], s[i]].to_multiset());
}

proof fn lemma_rotate_perm(s: Seq<usize>, start: int, len: int, amount: int)
    requires
        0 <= start,
        0 < len,
        start + len <= s.len(),
        0 <= amount,
    ensures
        rotate_spec(s, start, len, amount).to_multiset() == s.to_multiset(),
{
    let a = amount % len;
    let pre = s.subrange(0, start);
    let blk = s.subrange(start, start + len);
    let post = s.subrange(start + len, s.len() as int);
    let b1 = blk.subrange(a, len);
    let b2 = blk.subrange(0, a);
    assert(s =~= pre + (b2 + b1) + post);
    assert(rotate_spec(s, start, len, amount) =~= pre + (b1 + b2) + post) by {
        let r = rotate_spec(s, start, len, amount);
        let t = pre + (b1 + b2) + post;
        assert forall|j: int| 0 <= j < r.len() implies r[j] == t[j] by {
            if start <= j < start + len {
                let d = j - start;
                if d < len - a {
                    vstd::arithmetic::div_mod::lemma_small_mod((d + a) as nat, len as nat);
                } else {
                    vstd::arithmetic::div_mod::lemma_small_mod((d + a - len) as nat, len as nat);
                    vstd::arithmetic::div_mod::lemma_mod_sub_multiples_vanish(d + a, len);
                }
            }
        }
    }
    vstd::seq_lib::lemma_multiset_commutative(pre + (b2 + b1), post);
    vstd::seq_lib::lemma_multiset_commutative(pre + (b1 + b2), post);
    vstd::seq_lib::lemma_multiset_commutative(pre, b2 + b1);
    vstd::seq_lib::lemma_multiset_commutative(pre, b1 + b2);
    vstd::seq_lib::lemma_multiset_commutative(b1, b2);
    vstd::seq_lib::lemma_multiset_commutative(b2, b1);
    assert(b1.to_multiset().add(b2.to_multiset()) =~= b2.to_multiset().add(b1.to_multiset()));
}

proof fn lemma_move_perm(s: Seq<usize>, from: int, to: int)
    requires
        0 <= from < s.len(),
        0 <= to,
    ensures
        move_spec(s, from, to).to_multiset() == s.to_multiset(),
{
    broadcast use vstd::seq_lib::group_to_multiset_ensures;
    broadcast use vstd::multiset::group_multiset_axioms;

    let rest = s.remove(from);
    let t = if to < rest.len() { to } else { rest.len() as int };
    assert(move_spec(s, from, to).to_multiset() =~= rest.to_multiset().insert(s[from]));
    assert(rest.to_multiset() =~= s.to_multiset().remove(s[from]));
    assert(s.to_multiset().count(s[from]) > 0);
}

} // verus!

verus! {

pub proof fn lemma_crossings_bound(p: Seq<(usize, usize)>)
    ensures
        crossings(p) <= p.len() * p.len(),
{
    lemma_crossings_double(p);
    assert forall|i: int| 0 <= i < p.len() implies #[trigger] crossing_row(p)(p[i]) <= p.len() by {
        lemma_sum_bound(p, crosses_with(p[i]), 1);
    }
    lemma_sum_bound(p, crossing_row(p), p.len());
}

/// Crossings between `upper` and `lower` through `edges`.
pub open spec fn layer_crossings(upper: Seq<usize>, lower: Seq<usize>, edges: Seq<(usize, usize)>) -> nat {
    crossings(edge_positions(upper, lower, edges))
}

/// Crossings contributed by one optional adjacent layer of `current`.
pub open spec fn side_crossings(side: Option<(&LayerOrdering, &LayerEdges)>, current: Seq<usize>, is_upper: bool) -> nat {
    match side {
        Some((o, e)) => if is_upper {
            layer_crossings(o.order@, current, e.edges@)
        } else {
            layer_crossings(current, o.order@, e.edges@)
        },
        None => 0,
    }
}

/// Number of edges towards one optional adjacent layer.
pub open spec fn side_edge_count(side: Option<(&LayerOrdering, &LayerEdges)>) -> nat {
    match side {
        Some((_, e)) => e.edges@.len(),
        None => 0,
    }
}

/// Crossings of `current` against both optional adjacent layers.
pub open spec fn local_crossings(
    current: Seq<usize>,
    upper: Option<(&LayerOrdering, &LayerEdges)>,
    lower: Option<(&LayerOrdering, &LayerEdges)>,
) -> nat {
    side_crossings(upper, current, true) + side_crossings(lower, current, false)
}

/// The crossing counts of both sides fit in a machine word.
pub open spec fn sides_fit(upper: Option<(&LayerOrdering, &LayerEdges)>, lower: Option<(&LayerOrdering, &LayerEdges)>) -> bool {
    side_edge_count(upper) * side_edge_count(upper) + side_edge_count(lower) * side_edge_count(lower) <= usize::MAX
}

proof fn lemma_side_bound(side: Option<(&LayerOrdering, &LayerEdges)>, current: Seq<usize>, is_upper: bool)
    ensures
        side_crossings(side, current, is_upper) <= side_edge_count(side) * side_edge_count(side),
{
    if let Some((o, e)) = side {
        let p = if is_upper {
            edge_positions(o.order@, current, e.edges@)
        } else {
            edge_positions(current, o.order@, e.edges@)
        };
        lemma_crossings_bound(p);
        if is_upper {
            lemma_edge_positions_len(o.order@, current, e.edges@);
        } else {
            lemma_edge_positions_len(current, o.order@, e.edges@);
        }
        assert(p.len() * p.len() <= e.edges@.len() * e.edges@.len()) by (nonlinear_arith)
            requires
                p.len() <= e.edges@.len(),
        ;
    }
}

/// Combined crossings of one layer against its adjacent layers (upper -> current
/// and current -> lower).
pub fn local_crossing_count(
    current: &LayerOrdering,
    upper: Option<(&LayerOrdering, &LayerEdges)>,
    lower: Option<(&LayerOrdering, &LayerEdges)>,
) -> (r: usize)
    requires
        sides_fit(upper, lower),
    ensures
        r == local_crossings(current.order@, upper, lower),
{
    proof {
        lemma_side_bound(upper, current.order@, true);
        lemma_side_bound(lower, current.order@, false);
    }
    let mut total: usize = 0;
    if let Some((upper_ordering, upper_edges)) = upper {
        proof {
            assert(upper_edges.edges@.len() * upper_edges.edges@.len() <= usize::MAX);
        }
        total = crossing_count(upper_ordering, current, upper_edges);
    }
    if let Some((lower_ordering, lower_edges)) = lower {
        proof {
            assert(lower_edges.edges@.len() * lower_edges.edges@.len() <= usize::MAX);
        }
        total = total + crossing_count(current, lower_ordering, lower_edges);
    }
    total
}

/// Whether the rewrite search is practical for a layer of this size.
pub fn should_use_egraph(nodes_per_layer: usize) -> (r: bool)
    ensures
        r == (nodes_per_layer <= 100),
{
    nodes_per_layer <= 100
}

/// Estimated rewrite-graph size for a layer of `n` nodes:
/// (nodes, bytes) with nodes = n² (1 for n ≤ 1) and 64 bytes per node.
pub fn estimate_egraph_size(n: usize) -> (r: (usize, usize))
    requires
        n * n * 64 <= usize::MAX,
    ensures
        r.0 == (if n <= 1 { 1 } else { n * n }),
        r.1 == r.0 * 64,
{
    let e_nodes = if n <= 1 {
        1
    } else {
        proof {
            assert(n * n <= n * n * 64) by (nonlinear_arith);
        }
        n * n
    };
    (e_nodes, e_nodes * 64)
}

/// All orderings one adjacent swap away, in swap-position order.
pub fn all_adjacent_swaps(ordering: &LayerOrdering) -> (r: Vec<LayerOrdering>)
    ensures
        r@.len() == (if ordering.order@.len() < 2 { 0 } else { ordering.order@.len() - 1 }),
        forall|i: int| 0 <= i < r@.len() ==> #[trigger] r@[i].order@ == swap_spec(ordering.order@, i),
{
    let n = ordering.order.len();
    let mut out: Vec<LayerOrdering> = Vec::new();
    if n < 2 {
        return out;
    }
    let mut i: usize = 0;
    while i < n - 1
        invariant
            n == ordering.order@.len(),
            n >= 2,
            0 <= i <= n - 1,
            out@.len() == i,
            forall|j: int| 0 <= j < i ==> #[trigger] out@[j].order@ == swap_spec(ordering.order@, j),
        decreases n - 1 - i,
    {
        match adjacent_swap(ordering, i) {
            Some(o) => {
                out.push(o);
            },
            None => {
                proof {
                    assert(false);
                }
            },
        }
        i += 1;
    }
    out
}

} // verus!

verus! {

/// Positions, in `adj`, of the neighbors of `node` through `edges`
/// (its targets when `is_source`, its sources otherwise), in edge order.
pub open spec fn neighbor_positions(node: usize, adj: Seq<usize>, edges: Seq<(usize, usize)>, is_source: bool) -> Seq<usize>
    decreases edges.len(),
{
    if edges.len() == 0 {
        Seq::empty()
    } else {
        let rest = neighbor_positions(node, adj, edges.drop_last(), is_source);
        let e = edges.last();
        let p = if is_source && e.0 == node {
            first_index(adj, e.1)
        } else if !is_source && e.1 == node {
            first_index(adj, e.0)
        } else {
            -1
        };
        if p >= 0 {
            rest.push(p as usize)
        } else {
            rest
        }
    }
}

/// Indicator of "less than `x`".
pub open spec fn lt_indicator(x: usize) -> spec_fn(usize) -> nat {
    |y: usize| if y < x { 1nat } else { 0nat }
}

/// Indicator of "at most `x`".
pub open spec fn le_indicator(x: usize) -> spec_fn(usize) -> nat {
    |y: usize| if y <= x { 1nat } else { 0nat }
}

/// `m` is the lower-index median (the element at index len/2 once sorted) of `s`.
pub open spec fn is_median(s: Seq<usize>, m: usize) -> bool {
    seq_sum(s, lt_indicator(m)) <= s.len() / 2 < seq_sum(s, le_indicator(m))
}

/// Sort node positions in increasing order.
fn sort_usizes(p: &Vec<usize>) -> (r: Vec<usize>)
    ensures
        sorted_usize(r@),
        r@.to_multiset() == p@.to_multiset(),
{
    broadcast use vstd::seq_lib::group_to_multiset_ensures;

    let mut r: Vec<usize> = Vec::new();
    let mut i: usize = 0;
    while i < p.len()
        invariant
            0 <= i <= p@.len(),
            sorted_usize(r@),
            r@.to_multiset() == p@.subrange(0, i as int).to_multiset(),
        decreases p@.len() - i,
    {
        let x = p[i];
        let mut pos: usize = 0;
        while pos < r.len() && r[pos] <= x
            invariant
                0 <= pos <= r@.len(),
                forall|j: int| 0 <= j < pos ==> r@[j] <= x,
            decreases r@.len() - pos,
        {
            pos += 1;
        }
        let ghost r0 = r@;
        r.insert(pos, x);
        proof {
            assert(r@ == r0.insert(pos as int, x));
            assert(sorted_usize(r@)) by {
                assert forall|a: int, b: int| 0 <= a < b < r@.len() implies r@[a] <= r@[b] by {
                    if b <= pos {
                    } else if a < pos {
                        assert(r@[b] == r0[b - 1]);
                    } else if a == pos {
                        assert(r@[b] == r0[b - 1]);
                        if b - 1 > pos {
                            assert(r0[pos as int] <= r0[b - 1]);
                        }
                    } else {
                        assert(r@[a] == r0[a - 1]);
                        assert(r@[b] == r0[b - 1]);
                    }
                }
            }
            assert(p@.subrange(0, i + 1) =~= p@.subrange(0, i as int).push(x));
            vstd::seq_lib::to_multiset_insert(r0, pos as int, x);
            vstd::seq_lib::to_multiset_build(p@.subrange(0, i as int), x);
        }
        i += 1;
    }
    proof {
        assert(p@.subrange(0, i as int) =~= p@);
    }
    r
}

proof fn lemma_sorted_median(t: Seq<usize>)
    requires
        sorted_usize(t),
        t.len() > 0,
    ensures
        is_median(t, t[t.len() as int / 2]),
{
    let k = t.len() as int / 2;
    let m = t[k as int];
    let pre = t.subrange(0, k as int);
    let pre1 = t.subrange(0, k + 1);
    let post = t.subrange(k as int, t.len() as int);
    let post1 = t.subrange(k + 1, t.len() as int);
    assert(t =~= pre + post);
    assert(t =~= pre1 + post1);
    lemma_sum_concat(pre, post, lt_indicator(m));
    lemma_sum_bound(pre, lt_indicator(m), 1);
    assert forall|i: int| 0 <= i < post.len() implies #[trigger] lt_indicator(m)(post[i]) == 0 by {
        assert(post[i] == t[k + i]);
    }
    lemma_sum_zero(post, lt_indicator(m));
    lemma_sum_concat(pre1, post1, le_indicator(m));
    assert forall|i: int| 0 <= i < pre1.len() implies #[trigger] le_indicator(m)(pre1[i]) == 1 by {
        assert(pre1[i] == t[i]);
    }
    lemma_sum_one(pre1, le_indicator(m));
}

/// Median position of a node's neighbors in the adjacent layer (the element
/// at index len/2 of the sorted positions); `None` when it has no neighbors there.
pub fn median_position(
    node_id: usize,
    adjacent_ordering: &LayerOrdering,
    edges: &LayerEdges,
    is_source: bool,
) -> (r: Option<usize>)
    ensures
        match r {
            Some(m) => neighbor_positions(node_id, adjacent_ordering.order@, edges.edges@, is_source).len() > 0
                && is_median(neighbor_positions(node_id, adjacent_ordering.order@, edges.edges@, is_source), m),
            None => neighbor_positions(node_id, adjacent_ordering.order@, edges.edges@, is_source).len() == 0,
        },
{
    let ghost np = neighbor_positions(node_id, adjacent_ordering.order@, edges.edges@, is_source);
    let mut positions: Vec<usize> = Vec::new();
    let mut i: usize = 0;
    while i < edges.edges.len()
        invariant
            0 <= i <= edges.edges@.len(),
            positions@ == neighbor_positions(node_id, adjacent_ordering.order@, edges.edges@.subrange(0, i as int), is_source),
        decreases edges.edges@.len() - i,
    {
        let (src, tgt) = edges.edges[i];
        proof {
            assert(edges.edges@.subrange(0, i + 1).drop_last() =~= edges.edges@.subrange(0, i as int));
        }
        let found = if is_source && src == node_id {
            adjacent_ordering.position_of(tgt)
        } else if !is_source && tgt == node_id {
            adjacent_ordering.position_of(src)
        } else {
            None
        };
        if let Some(p) = found {
            positions.push(p);
        }
        i += 1;
    }
    proof {
        assert(edges.edges@.subrange(0, i as int) =~= edges.edges@);
    }
    if positions.len() == 0 {
        return None;
    }
    let sorted = sort_usizes(&positions);
    proof {
        broadcast use vstd::seq_lib::group_to_multiset_ensures;
        assert(sorted@.to_multiset().len() == positions@.to_multiset().len());
        lemma_sorted_median(sorted@);
        lemma_sum_perm(sorted@, positions@, lt_indicator(sorted@[sorted@.len() as int / 2]));
        lemma_sum_perm(sorted@, positions@, le_indicator(sorted@[sorted@.len() as int / 2]));
    }
    Some(sorted[sorted.len() / 2])
}

} // verus!

verus! {

/// Strict lexicographic order on node-id sequences.
pub open spec fn seq_lt(a: Seq<usize>, b: Seq<usize>) -> bool
    decreases a.len(),
{
    if b.len() == 0 {
        false
    } else if a.len() == 0 {
        true
    } else if a[0] != b[0] {
        a[0] < b[0]
    } else {
        seq_lt(a.drop_first(), b.drop_first())
    }
}

proof fn lemma_seq_lt_total(a: Seq<usize>, b: Seq<usize>)
    ensures
        a == b || seq_lt(a, b) || seq_lt(b, a),
        !(seq_lt(a, b) && seq_lt(b, a)),
        !seq_lt(a, a),
    decreases a.len(),
{
    if a.len() > 0 && b.len() > 0 {
        lemma_seq_lt_total(a.drop_first(), b.drop_first());
        if a[0] == b[0] && a.drop_first() == b.drop_first() {
            assert(a.len() == b.len());
            assert forall|i: int| 0 <= i < a.len() implies a[i] == b[i] by {
                if i > 0 {
                    assert(a[i] == a.drop_first()[i - 1]);
                    assert(b[i] == b.drop_first()[i - 1]);
                }
            }
            assert(a =~= b);
        }
    } else if a.len() == 0 && b.len() == 0 {
        assert(a =~= b);
    }
    if a.len() > 0 {
        lemma_seq_lt_total(a.drop_first(), a.drop_first());
    }
}

proof fn lemma_seq_lt_trans(a: Seq<usize>, b: Seq<usize>, c: Seq<usize>)
    requires
        seq_lt(a, b),
        seq_lt(b, c),
    ensures
        seq_lt(a, c),
    decreases a.len(),
{
    if a.len() > 0 && b.len() > 0 && c.len() > 0 && a[0] == b[0] && b[0] == c[0] {
        lemma_seq_lt_trans(a.drop_first(), b.drop_first(), c.drop_first());
    }
}

/// Exec comparison for `seq_lt`.
fn order_lt(a: &Vec<usize>, b: &Vec<usize>) -> (r: bool)
    ensures
        r == seq_lt(a@, b@),
{
    let mut i: usize = 0;
    proof {
        assert(a@.subrange(0, a@.len() as int) =~= a@);
        assert(b@.subrange(0, b@.len() as int) =~= b@);
        assert(a@.subrange(0, 0) =~= b@.subrange(0, 0));
    }
    while i < a.len() && i < b.len() && a[i] == b[i]
        invariant
            0 <= i <= a@.len(),
            i <= b@.len(),
            a@.subrange(0, i as int) == b@.subrange(0, i as int),
            seq_lt(a@, b@) == seq_lt(a@.subrange(i as int, a@.len() as int), b@.subrange(i as int, b@.len() as int)),
        decreases a@.len() - i,
    {
        proof {
            let sa = a@.subrange(i as int, a@.len() as int);
            let sb = b@.subrange(i as int, b@.len() as int);
            assert(sa.drop_first() =~= a@.subrange(i + 1, a@.len() as int));
            assert(sb.drop_first() =~= b@.subrange(i + 1, b@.len() as int));
            assert(a@.subrange(0, i + 1) =~= a@.subrange(0, i as int).push(a@[i as int]));
            assert(b@.subrange(0, i + 1) =~= b@.subrange(0, i as int).push(b@[i as int]));
        }
        i += 1;
    }
    proof {
        assert(a@.subrange(0, a@.len() as int) =~= a@);
        assert(b@.subrange(0, b@.len() as int) =~= b@);
    }
    if i < a.len() && i < b.len() {
        a[i] < b[i]
    } else {
        i == a.len() && i < b.len()
    }
}

/// Exec equality of node-id sequences.
fn order_eq(a: &Vec<usize>, b: &Vec<usize>) -> (r: bool)
    ensures
        r == (a@ == b@),
{
    if a.len() != b.len() {
        return false;
    }
    let mut i: usize = 0;
    while i < a.len()
        invariant
            0 <= i <= a@.len(),
            a@.len() == b@.len(),
            forall|j: int| 0 <= j < i ==> a@[j] == b@[j],
        decreases a@.len() - i,
    {
        if a[i] != b[i] {
            return false;
        }
        i += 1;
    }
    proof {
        assert(a@ =~= b@);
    }
    true
}

/// `o` reorders the nodes of `base`.
pub open spec fn reorders(o: Seq<usize>, base: Seq<usize>) -> bool {
    o.to_multiset() == base.to_multiset()
}

/// The node-id sequences of a list of orderings.
pub open spec fn orders_of(v: Seq<LayerOrdering>) -> Seq<Seq<usize>> {
    v.map_values(|o: LayerOrdering| o.order@)
}

/// The lower median of `s` (see `is_median`).
pub open spec fn median_of(s: Seq<usize>) -> usize {
    choose|m: usize| is_median(s, m)
}

/// `s` after `move_node` takes `node` to `target`.
pub open spec fn moved_order(s: Seq<usize>, node: usize, target: int) -> Seq<usize> {
    if first_index(s, node) == target {
        s
    } else {
        move_spec(s, first_index(s, node), target)
    }
}

/// The ordering `s` with `node` moved to the median position of its
/// neighbors in the layer `side` (none when it has none there, or there is
/// no such layer).
pub open spec fn side_median_candidate(
    s: Seq<usize>,
    node: usize,
    side: Option<(&LayerOrdering, &LayerEdges)>,
    is_source: bool,
) -> Seq<Seq<usize>> {
    match side {
        Some((o, e)) => {
            let np = neighbor_positions(node, o.order@, e.edges@, is_source);
            if np.len() > 0 {
                seq![moved_order(s, node, median_of(np) as int)]
            } else {
                Seq::empty()
            }
        },
        None => Seq::empty(),
    }
}

/// The median insertions for the first `i` nodes of `s`: for each node, the
/// move towards its upper neighbors, then the move towards its lower ones.
pub open spec fn median_list(
    s: Seq<usize>,
    upper: Option<(&LayerOrdering, &LayerEdges)>,
    lower: Option<(&LayerOrdering, &LayerEdges)>,
    i: nat,
) -> Seq<Seq<usize>>
    decreases i,
{
    if i == 0 {
        Seq::empty()
    } else {
        let node = s[i - 1];
        median_list(s, upper, lower, (i - 1) as nat) + side_median_candidate(s, node, upper, false) + side_median_candidate(
            s,
            node,
            lower,
            true,
        )
    }
}

/// Number of rotations of blocks of 3 in a layer of `n` nodes.
pub open spec fn rotation3_count(n: int) -> int {
    if n >= 3 {
        2 * (n - 2)
    } else {
        0
    }
}

/// Number of rotations of blocks of 4 in a layer of `n` nodes.
pub open spec fn rotation4_count(n: int) -> int {
    if n >= 4 {
        3 * (n - 3)
    } else {
        0
    }
}

/// The `k`-th block rotation: blocks of 3, then of 4, each by start and
/// then by amount (1 up to the block length less one).
pub open spec fn rotation_at(s: Seq<usize>, k: int) -> Seq<usize> {
    let c3 = rotation3_count(s.len() as int);
    if k < c3 {
        rotate_spec(s, k / 2, 3, k % 2 + 1)
    } else {
        let m = k - c3;
        rotate_spec(s, m / 3, 4, m % 3 + 1)
    }
}

/// All block rotations of `s`.
pub open spec fn rotation_list(s: Seq<usize>) -> Seq<Seq<usize>> {
    Seq::new((rotation3_count(s.len() as int) + rotation4_count(s.len() as int)) as nat, |k: int| rotation_at(s, k))
}

/// All adjacent swaps of `s`.
pub open spec fn swap_list(s: Seq<usize>) -> Seq<Seq<usize>> {
    Seq::new(if s.len() < 2 { 0 } else { (s.len() - 1) as nat }, |i: int| swap_spec(s, i))
}

/// Every rewrite neighbor of `s`, with repetitions: swaps, median
/// insertions, block rotations.
pub open spec fn all_candidates(
    s: Seq<usize>,
    upper: Option<(&LayerOrdering, &LayerEdges)>,
    lower: Option<(&LayerOrdering, &LayerEdges)>,
) -> Seq<Seq<usize>> {
    swap_list(s) + median_list(s, upper, lower, s.len()) + rotation_list(s)
}

/// A sequence has at most one lower median.
proof fn lemma_median_unique(s: Seq<usize>, m1: usize, m2: usize)
    requires
        is_median(s, m1),
        is_median(s, m2),
    ensures
        m1 == m2,
{
    if m1 != m2 {
        let (a, b) = if m1 < m2 { (m1, m2) } else { (m2, m1) };
        let d = |y: usize| if a < y && y < b { 1nat } else { 0nat };
        assert forall|i: int| 0 <= i < s.len() implies lt_indicator(b)(#[trigger] s[i]) == le_indicator(a)(s[i]) + d(s[i]) by {}
        lemma_sum_add(s, le_indicator(a), d, lt_indicator(b));
    }
}

/// `median_of` is the median that `median_position` finds.
proof fn lemma_median_of(s: Seq<usize>, m: usize)
    requires
        is_median(s, m),
    ensures
        median_of(s) == m,
{
    let c = median_of(s);
    assert(is_median(s, c));
    lemma_median_unique(s, m, c);
}

/// Orderings obtained by moving each node to the median position of its
/// neighbors in the upper and in the lower layer.
fn median_insert_candidates(
    ordering: &LayerOrdering,
    upper: Option<(&LayerOrdering, &LayerEdges)>,
    lower: Option<(&LayerOrdering, &LayerEdges)>,
) -> (r: Vec<LayerOrdering>)
    ensures
        orders_of(r@) == median_list(ordering.order@, upper, lower, ordering.order@.len()),
        forall|i: int| 0 <= i < r@.len() ==> reorders(#[trigger] r@[i].order@, ordering.order@),
{
    let ghost s = ordering.order@;
    let mut candidates: Vec<LayerOrdering> = Vec::new();
    let mut i: usize = 0;
    proof {
        assert(orders_of(candidates@) =~= median_list(s, upper, lower, 0));
    }
    while i < ordering.order.len()
        invariant
            s == ordering.order@,
            0 <= i <= ordering.order@.len(),
            orders_of(candidates@) == median_list(s, upper, lower, i as nat),
            forall|j: int| 0 <= j < candidates@.len() ==> reorders(#[trigger] candidates@[j].order@, ordering.order@),
        decreases ordering.order@.len() - i,
    {
        let node_id = ordering.order[i];
        let ghost before = orders_of(candidates@);
        proof {
            lemma_first_index(s, node_id);
            assert(first_index(s, node_id) >= 0);
        }
        if let Some((upper_ordering, upper_edges)) = upper {
            if let Some(target_pos) = median_position(node_id, upper_ordering, upper_edges, false) {
                proof {
                    lemma_median_of(neighbor_positions(node_id, upper_ordering.order@, upper_edges.edges@, false), target_pos);
                }
                if let Some(candidate) = move_node(ordering, node_id, target_pos) {
                    proof {
                        if first_index(ordering.order@, node_id) != target_pos {
                            lemma_move_perm(ordering.order@, first_index(ordering.order@, node_id), target_pos as int);
                        }
                    }
                    candidates.push(candidate);
                }
            }
        }
        let ghost mid = orders_of(candidates@);
        proof {
            assert(mid =~= before + side_median_candidate(s, node_id, upper, false));
        }
        if let Some((lower_ordering, lower_edges)) = lower {
            if let Some(target_pos) = median_position(node_id, lower_ordering, lower_edges, true) {
                proof {
                    lemma_median_of(neighbor_positions(node_id, lower_ordering.order@, lower_edges.edges@, true), target_pos);
                }
                if let Some(candidate) = move_node(ordering, node_id, target_pos) {
                    proof {
                        if first_index(ordering.order@, node_id) != target_pos {
                            lemma_move_perm(ordering.order@, first_index(ordering.order@, node_id), target_pos as int);
                        }
                    }
                    candidates.push(candidate);
                }
            }
        }
        proof {
            assert(orders_of(candidates@) =~= mid + side_median_candidate(s, node_id, lower, true));
            assert(s[i as int] == node_id);
        }
        i += 1;
    }
    candidates
}

/// Orderings obtained by rotating every block of 3 or 4 consecutive nodes.
fn block_rotation_candidates(ordering: &LayerOrdering) -> (r: Vec<LayerOrdering>)
    ensures
        orders_of(r@) == rotation_list(ordering.order@),
        forall|i: int| 0 <= i < r@.len() ==> reorders(#[trigger] r@[i].order@, ordering.order@),
{
    let ghost s = ordering.order@;
    let mut candidates: Vec<LayerOrdering> = Vec::new();
    let n = ordering.order.len();
    let ghost c3 = rotation3_count(n as int);
    let max_len = if n < 4 { n } else { 4 };
    let mut len: usize = 3;
    while len <= max_len
        invariant
            s == ordering.order@,
            n == ordering.order@.len(),
            c3 == rotation3_count(n as int),
            max_len == if n < 4 { n } else { 4 },
            3 <= len,
            len <= max_len + 1 || len == 3,
            candidates@.len() == if len == 3 { 0 } else if len == 4 { c3 } else { c3 + rotation4_count(n as int) },
            forall|j: int| 0 <= j < candidates@.len() ==> #[trigger] candidates@[j].order@ == rotation_at(s, j),
            forall|j: int| 0 <= j < candidates@.len() ==> reorders(#[trigger] candidates@[j].order@, ordering.order@),
        decreases max_len + 1 - len,
    {
        let ghost base: int = if len == 3 { 0 } else { c3 };
        let mut start: usize = 0;
        while start <= n - len
            invariant
                s == ordering.order@,
                n == ordering.order@.len(),
                c3 == rotation3_count(n as int),
                3 <= len <= max_len <= n,
                max_len <= 4,
                base == if len == 3 { 0 } else { c3 },
                start <= n - len + 1,
                candidates@.len() == base + start * (len - 1),
                forall|j: int| 0 <= j < candidates@.len() ==> #[trigger] candidates@[j].order@ == rotation_at(s, j),
                forall|j: int| 0 <= j < candidates@.len() ==> reorders(#[trigger] candidates@[j].order@, ordering.order@),
            decreases n - len + 1 - start,
        {
            let mut amount: usize = 1;
            while amount < len
                invariant
                    s == ordering.order@,
                    n == ordering.order@.len(),
                    c3 == rotation3_count(n as int),
                    3 <= len <= max_len <= n,
                    max_len <= 4,
                    base == if len == 3 { 0 } else { c3 },
                    start + len <= n,
                    1 <= amount <= len,
                    candidates@.len() == base + start * (len - 1) + amount - 1,
                    forall|j: int| 0 <= j < candidates@.len() ==> #[trigger] candidates@[j].order@ == rotation_at(s, j),
                    forall|j: int| 0 <= j < candidates@.len() ==> reorders(#[trigger] candidates@[j].order@, ordering.order@),
                decreases len - amount,
            {
                let ghost idx = candidates@.len() as int;
                proof {
                    if len == 3 {
                        assert(idx / 2 == start && idx % 2 == amount - 1) by (nonlinear_arith)
                            requires
                                idx == start * 2 + amount - 1,
                                1 <= amount < 3,
                        ;
                        assert(idx < c3) by (nonlinear_arith)
                            requires
                                idx == start * 2 + amount - 1,
                                amount < 3,
                                start + 3 <= n,
                                c3 == 2 * (n - 2),
                        ;
                    } else {
                        let m = idx - c3;
                        assert(m / 3 == start && m % 3 == amount - 1) by (nonlinear_arith)
                            requires
                                m == start * 3 + amount - 1,
                                1 <= amount < 4,
                        ;
                    }
                }
                match block_rotate(ordering, start, len, amount) {
                    Some(candidate) => {
                        proof {
                            lemma_rotate_perm(ordering.order@, start as int, len as int, amount as int);
                        }
                        candidates.push(candidate);
                    },
                    None => {
                        proof {
                            assert(false);
                        }
                    },
                }
                amount += 1;
            }
            proof {
                assert(base + start * (len - 1) + len - 1 == base + (start + 1) * (len - 1)) by (nonlinear_arith);
            }
            start += 1;
        }
        proof {
            assert((n - len + 1) * (len - 1) == if len == 3 { rotation3_count(n as int) } else { rotation4_count(n as int) })
                by (nonlinear_arith)
                requires
                    3 <= len <= 4,
                    len <= n,
            ;
        }
        len += 1;
    }
    proof {
        assert(orders_of(candidates@) =~= rotation_list(s));
    }
    candidates
}

/// Inserting into a list keeps what it contained, and adds the new entry.
proof fn lemma_insert_contains(v: Seq<Seq<usize>>, pos: int, c: Seq<usize>)
    requires
        0 <= pos <= v.len(),
    ensures
        v.insert(pos, c).contains(c),
        forall|x: Seq<usize>| v.contains(x) ==> #[trigger] v.insert(pos, c).contains(x),
{
    let w = v.insert(pos, c);
    assert(w[pos] == c);
    assert forall|x: Seq<usize>| v.contains(x) implies #[trigger] w.contains(x) by {
        let i = choose|i: int| 0 <= i < v.len() && v[i] == x;
        if i < pos {
            assert(w[i] == x);
        } else {
            assert(w[i + 1] == x);
        }
    }
}

/// All rewrite neighbors of an ordering (adjacent swaps, median insertions,
/// block rotations), sorted by order and without duplicates.
fn candidate_orderings(
    ordering: &LayerOrdering,
    upper: Option<(&LayerOrdering, &LayerEdges)>,
    lower: Option<(&LayerOrdering, &LayerEdges)>,
) -> (r: Vec<LayerOrdering>)
    ensures
        forall|i: int| 0 <= i < r@.len() ==> all_candidates(ordering.order@, upper, lower).contains(#[trigger] r@[i].order@),
        forall|c: Seq<usize>| #[trigger] all_candidates(ordering.order@, upper, lower).contains(c) ==> orders_of(r@).contains(c),
        forall|i: int| 0 <= i < r@.len() ==> reorders(#[trigger] r@[i].order@, ordering.order@),
        forall|i: int, j: int| 0 <= i < j < r@.len() ==> seq_lt(r@[i].order@, r@[j].order@),
{
    let ghost s = ordering.order@;
    let ghost all = all_candidates(s, upper, lower);
    let swaps = all_adjacent_swaps(ordering);
    let medians = median_insert_candidates(ordering, upper, lower);
    let rotations = block_rotation_candidates(ordering);
    let ghost o1 = swaps@.len() as int;
    let ghost o2 = o1 + medians@.len();
    proof {
        assert forall|i: int| 0 <= i < swaps@.len() implies reorders(#[trigger] swaps@[i].order@, ordering.order@) by {
            lemma_swap_perm(ordering.order@, i);
        }
        assert(orders_of(swaps@) =~= swap_list(s));
        assert(all =~= orders_of(swaps@) + orders_of(medians@) + orders_of(rotations@));
    }
    let mut out: Vec<LayerOrdering> = Vec::new();
    let mut part: usize = 0;
    while part < 3
        invariant
            s == ordering.order@,
            all == all_candidates(s, upper, lower),
            all == orders_of(swaps@) + orders_of(medians@) + orders_of(rotations@),
            o1 == swaps@.len(),
            o2 == o1 + medians@.len(),
            part <= 3,
            forall|i: int| 0 <= i < swaps@.len() ==> reorders(#[trigger] swaps@[i].order@, ordering.order@),
            forall|i: int| 0 <= i < medians@.len() ==> reorders(#[trigger] medians@[i].order@, ordering.order@),
            forall|i: int| 0 <= i < rotations@.len() ==> reorders(#[trigger] rotations@[i].order@, ordering.order@),
            forall|i: int| 0 <= i < out@.len() ==> reorders(#[trigger] out@[i].order@, ordering.order@),
            forall|i: int, j: int| 0 <= i < j < out@.len() ==> seq_lt(out@[i].order@, out@[j].order@),
            forall|i: int| 0 <= i < out@.len() ==> all.contains(#[trigger] out@[i].order@),
            forall|j: int|
                0 <= j < (if part == 0 { 0 } else if part == 1 { o1 } else if part == 2 { o2 } else { all.len() as int })
                    ==> orders_of(out@).contains(#[trigger] all[j]),
        decreases 3 - part,
    {
        let src: &Vec<LayerOrdering> = if part == 0 {
            &swaps
        } else if part == 1 {
            &medians
        } else {
            &rotations
        };
        let ghost start: int = if part == 0 { 0 } else if part == 1 { o1 } else { o2 };
        proof {
            assert forall|k: int| 0 <= k < src@.len() implies #[trigger] src@[k].order@ == all[start + k] by {
                if part == 0 {
                    assert(all[k] == orders_of(swaps@)[k]);
                } else if part == 1 {
                    assert(all[o1 + k] == orders_of(medians@)[k]);
                } else {
                    assert(all[o2 + k] == orders_of(rotations@)[k]);
                }
            }
        }
        let mut k: usize = 0;
        while k < src.len()
            invariant
                all.len() == o2 + rotations@.len(),
                0 <= o1 <= o2,
                start + src@.len() == (if part == 0 { o1 } else if part == 1 { o2 } else { all.len() as int }),
                0 <= start,
                forall|k2: int| 0 <= k2 < src@.len() ==> #[trigger] src@[k2].order@ == all[start + k2],
                forall|i: int| 0 <= i < src@.len() ==> reorders(#[trigger] src@[i].order@, ordering.order@),
                forall|i: int| 0 <= i < out@.len() ==> reorders(#[trigger] out@[i].order@, ordering.order@),
                forall|i: int, j: int| 0 <= i < j < out@.len() ==> seq_lt(out@[i].order@, out@[j].order@),
                forall|i: int| 0 <= i < out@.len() ==> all.contains(#[trigger] out@[i].order@),
                forall|j: int| 0 <= j < start + k ==> orders_of(out@).contains(#[trigger] all[j]),
            decreases src@.len() - k,
        {
            let c = &src[k];
            proof {
                assert(c.order@ == all[start + k]);
            }
            let mut pos: usize = 0;
            while pos < out.len() && order_lt(&out[pos].order, &c.order)
                invariant
                    0 <= pos <= out@.len(),
                    forall|j: int| 0 <= j < pos ==> seq_lt(out@[j].order@, c.order@),
                decreases out@.len() - pos,
            {
                pos += 1;
            }
            if pos < out.len() && order_eq(&out[pos].order, &c.order) {
                proof {
                    assert(orders_of(out@)[pos as int] == c.order@);
                    assert(orders_of(out@).contains(c.order@));
                    assert forall|j: int| 0 <= j < start + k + 1 implies orders_of(out@).contains(#[trigger] all[j]) by {
                        if j < start + k {
                        }
                    }
                }
            } else {
                let ghost o0 = out@;
                let ghost cv = c.order@;
                out.insert(pos, c.duplicate());
                proof {
                    assert forall|a: int, b: int| 0 <= a < b < out@.len() implies seq_lt(out@[a].order@, out@[b].order@) by {
                        if b < pos {
                        } else if b == pos {
                        } else if a < pos {
                            assert(out@[b] == o0[b - 1]);
                            if b - 1 > pos {
                                lemma_seq_lt_total(o0[pos as int].order@, cv);
                                lemma_seq_lt_trans(o0[a].order@, cv, o0[pos as int].order@);
                                lemma_seq_lt_trans(o0[a].order@, o0[pos as int].order@, o0[b - 1].order@);
                            } else {
                                lemma_seq_lt_total(o0[pos as int].order@, cv);
                                lemma_seq_lt_trans(o0[a].order@, cv, o0[pos as int].order@);
                            }
                        } else if a == pos {
                            assert(out@[b] == o0[b - 1]);
                            lemma_seq_lt_total(o0[pos as int].order@, cv);
                            if b - 1 > pos {
                                lemma_seq_lt_trans(cv, o0[pos as int].order@, o0[b - 1].order@);
                            }
                        } else {
                            assert(out@[a] == o0[a - 1]);
                            assert(out@[b] == o0[b - 1]);
                        }
                    }
                    assert forall|i: int| 0 <= i < out@.len() implies reorders(#[trigger] out@[i].order@, ordering.order@) by {
                        if i > pos {
                            assert(out@[i] == o0[i - 1]);
                        }
                    }
                    assert forall|i: int| 0 <= i < out@.len() implies all.contains(#[trigger] out@[i].order@) by {
                        if i > pos {
                            assert(out@[i] == o0[i - 1]);
                        } else if i == pos {
                            assert(0 <= start + k < all.len());
                            assert(all[start + k] == out@[i].order@);
                        } else {
                            assert(out@[i] == o0[i]);
                        }
                    }
                    assert(orders_of(out@) =~= orders_of(o0).insert(pos as int, cv));
                    lemma_insert_contains(orders_of(o0), pos as int, cv);
                    assert forall|j: int| 0 <= j < start + k + 1 implies orders_of(out@).contains(#[trigger] all[j]) by {
                        if j < start + k {
                            assert(orders_of(o0).contains(all[j]));
                        }
                    }
                }
            }
            k += 1;
        }
        part += 1;
    }
    proof {
        assert forall|c: Seq<usize>| #[trigger] all.contains(c) implies orders_of(out@).contains(c) by {
            let j = choose|j: int| 0 <= j < all.len() && all[j] == c;
            assert(orders_of(out@).contains(all[j]));
        }
    }
    out
}

/// Result of the bounded rewrite search for one layer.
#[derive(Debug)]
pub struct LayerOptimizationResult {
    /// Best ordering found.
    pub ordering: LayerOrdering,
    /// Combined crossing count against the fixed adjacent layer(s).
    pub crossing_count: usize,
    /// Number of strictly improving rewrite rounds applied.
    pub rewrites_applied: usize,
}

/// Bounded deterministic rewrite search over a layer ordering: repeatedly take
/// the strictly improving rewrite neighbor with the fewest crossings (ties
/// broken by the smallest order), for at most twice the layer size rounds.
pub fn optimize_layer_ordering(
    ordering: &LayerOrdering,
    upper: Option<(&LayerOrdering, &LayerEdges)>,
    lower: Option<(&LayerOrdering, &LayerEdges)>,
) -> (r: LayerOptimizationResult)
    requires
        sides_fit(upper, lower),
    ensures
        r.crossing_count == local_crossings(r.ordering.order@, upper, lower),
        r.crossing_count <= local_crossings(ordering.order@, upper, lower),
        reorders(r.ordering.order@, ordering.order@),
        r.rewrites_applied == 0 ==> r.ordering.order@ == ordering.order@,
        r.rewrites_applied > 0 ==> r.crossing_count < local_crossings(ordering.order@, upper, lower),
        r.rewrites_applied <= 2 * ordering.order@.len(),
        ordering.order@.len() < 2 || ordering.order@.len() > 100 ==> r.rewrites_applied == 0,
        r.crossing_count + r.rewrites_applied <= local_crossings(ordering.order@, upper, lower),
        2 <= ordering.order@.len() <= 100 && r.rewrites_applied < 2 * ordering.order@.len() && r.crossing_count > 0
            ==> forall|c: Seq<usize>| #[trigger] all_candidates(r.ordering.order@, upper, lower).contains(c)
            ==> local_crossings(c, upper, lower) >= r.crossing_count,
{
    let mut best = ordering.duplicate();
    let mut best_crossings = local_crossing_count(&best, upper, lower);
    if best.len() < 2 || !should_use_egraph(best.len()) {
        return LayerOptimizationResult { ordering: best, crossing_count: best_crossings, rewrites_applied: 0 };
    }
    let ghost init = best_crossings;
    let mut rewrites_applied: usize = 0;
    let max_rounds = best.len() * 2;
    let mut round: usize = 0;
    while round < max_rounds
        invariant_except_break
            rewrites_applied == round,
        invariant
            best_crossings + rewrites_applied <= init,
            max_rounds == 2 * ordering.order@.len(),
            ordering.order@.len() <= 100,
            sides_fit(upper, lower),
            init == local_crossings(ordering.order@, upper, lower),
            best_crossings == local_crossings(best.order@, upper, lower),
            best_crossings <= init,
            reorders(best.order@, ordering.order@),
            rewrites_applied <= round,
            round <= max_rounds,
            rewrites_applied == 0 ==> best.order@ == ordering.order@,
            rewrites_applied > 0 ==> best_crossings < init,
        ensures
            best_crossings + rewrites_applied <= init,
            best_crossings == local_crossings(best.order@, upper, lower),
            best_crossings <= init,
            reorders(best.order@, ordering.order@),
            rewrites_applied <= max_rounds,
            rewrites_applied == 0 ==> best.order@ == ordering.order@,
            rewrites_applied > 0 ==> best_crossings < init,
            rewrites_applied < max_rounds && best_crossings > 0 ==> forall|c: Seq<usize>| #[trigger] all_candidates(best.order@, upper, lower).contains(c)
                ==> local_crossings(c, upper, lower) >= best_crossings,
        decreases max_rounds - round,
    {
        round += 1;
        let candidates = candidate_orderings(&best, upper, lower);
        let mut best_candidate: Option<(usize, LayerOrdering)> = None;
        let mut k: usize = 0;
        while k < candidates.len()
            invariant
                sides_fit(upper, lower),
                0 <= k <= candidates@.len(),
                forall|i: int| 0 <= i < candidates@.len() ==> reorders(#[trigger] candidates@[i].order@, best.order@),
                match best_candidate {
                    Some((c, o)) => c == local_crossings(o.order@, upper, lower) && c < best_crossings
                        && reorders(o.order@, best.order@),
                    None => forall|i: int| 0 <= i < k ==> local_crossings(#[trigger] candidates@[i].order@, upper, lower) >= best_crossings,
                },
            decreases candidates@.len() - k,
        {
            let candidate_crossings = local_crossing_count(&candidates[k], upper, lower);
            if candidate_crossings < best_crossings {
                let better = match &best_candidate {
                    Some((c, o)) => candidate_crossings < *c || (candidate_crossings == *c && order_lt(&candidates[k].order, &o.order)),
                    None => true,
                };
                if better {
                    best_candidate = Some((candidate_crossings, candidates[k].duplicate()));
                }
            }
            k += 1;
        }
        match best_candidate {
            None => {
                proof {
                    assert forall|c: Seq<usize>| #[trigger] all_candidates(best.order@, upper, lower).contains(c)
                        implies local_crossings(c, upper, lower) >= best_crossings by {
                        assert(orders_of(candidates@).contains(c));
                        let i = choose|i: int| 0 <= i < orders_of(candidates@).len() && orders_of(candidates@)[i] == c;
                        assert(candidates@[i].order@ == c);
                    }
                }
                break;
            },
            Some((c, o)) => {
                proof {
                    broadcast use vstd::multiset::group_multiset_axioms;
                }
                best = o;
                best_crossings = c;
                rewrites_applied += 1;
                if best_crossings == 0 {
                    break;
                }
            },
        }
    }
    LayerOptimizationResult { ordering: best, crossing_count: best_crossings, rewrites_applied }
}

} // verus!
