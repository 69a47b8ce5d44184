//! Stable total-order argsort of scores, and the ranking derived from it.
//!
//! Scores are ordered by the IEEE-754 sign-magnitude total order on their
//! bit patterns; equal scores keep their index order, so the sorted
//! arrangement of indices is unique.

use vstd::prelude::*;

use crate::bits::total_key;
use crate::bits::compute_total_key;

verus! {

/// Index `a` comes strictly before index `b` when ordering the indices of
/// `s` by score (total order on bit patterns), with ties broken by index.
pub open spec fn idx_before(s: Seq<u64>, a: int, b: int) -> bool {
    total_key(s[a]) < total_key(s[b]) || (total_key(s[a]) == total_key(s[b]) && a < b)
}

/// `order` holds `n` pairwise distinct indices into a sequence of length `n`.
/// Being injective into `0..n` at full length, it arranges every index
/// exactly once.
pub open spec fn index_arrangement(order: Seq<usize>, n: nat) -> bool {
    &&& order.len() == n
    &&& forall|i: int| 0 <= i < order.len() ==> (order[i] as nat) < n
    &&& forall|i: int, j: int| 0 <= i < j < order.len() ==> order[i] != order[j]
}

/// Every two positions of `order` respect [`idx_before`] on `s`: the
/// arrangement lists the indices of `s` from lowest score to highest.
pub open spec fn sorted_arrangement(s: Seq<u64>, order: Seq<usize>) -> bool {
    forall|i: int, j: int| 0 <= i < j < order.len() ==> idx_before(
        s,
        order[i] as int,
        order[j] as int,
    )
}

/// The set of the indices below `n`, as `usize` values, has exactly `n`
/// elements.
proof fn lemma_usize_range_cardinality(n: nat)
    requires
        n <= usize::MAX,
    ensures
        Set::new(|v: usize| (v as nat) < n).finite(),
        Set::new(|v: usize| (v as nat) < n).len() == n,
    decreases n,
{
    if n == 0 {
        assert(Set::new(|v: usize| (v as nat) < n) =~= Set::<usize>::empty());
    } else {
        lemma_usize_range_cardinality((n - 1) as nat);
        assert(Set::new(|v: usize| (v as nat) < n) =~= Set::new(
            |v: usize| (v as nat) < n - 1,
        ).insert((n - 1) as usize));
    }
}

/// An arrangement of `n` pairwise distinct indices below `n` reaches
/// every such index: injectivity into a set of its own size forces
/// surjectivity.
pub proof fn lemma_arrangement_surjective(order: Seq<usize>, n: nat)
    requires
        index_arrangement(order, n),
        n <= usize::MAX,
    ensures
        forall|v: usize| (v as nat) < n ==> order.contains(v),
{
    broadcast use vstd::seq_lib::seq_to_set_is_finite;

    order.unique_seq_to_set();
    let range = Set::new(|v: usize| (v as nat) < n);
    lemma_usize_range_cardinality(n);
    assert(order.to_set().subset_of(range));
    vstd::set_lib::lemma_subset_equality(order.to_set(), range);
    assert forall|v: usize| (v as nat) < n implies order.contains(v) by {
        assert(range.contains(v));
        assert(order.to_set().contains(v));
    }
}

/// The positions of a sorted arrangement agree up to position `r`: by
/// induction, a differing value at the first disagreement would have to
/// sit both earlier and later in the other arrangement.
proof fn lemma_sorted_arrangement_prefix(s: Seq<u64>, o1: Seq<usize>, o2: Seq<usize>, r: int)
    requires
        index_arrangement(o1, s.len()),
        sorted_arrangement(s, o1),
        index_arrangement(o2, s.len()),
        sorted_arrangement(s, o2),
        s.len() <= usize::MAX,
        0 <= r <= s.len(),
    ensures
        forall|p: int| 0 <= p < r ==> o1[p] == o2[p],
    decreases r,
{
    if r > 0 {
        lemma_sorted_arrangement_prefix(s, o1, o2, r - 1);
        let p = r - 1;
        if o1[p] != o2[p] {
            lemma_arrangement_surjective(o1, s.len());
            lemma_arrangement_surjective(o2, s.len());
            assert(o2.contains(o1[p]));
            assert(o1.contains(o2[p]));
            let q2 = choose|q: int| 0 <= q < o2.len() && o2[q] == o1[p];
            let q1 = choose|q: int| 0 <= q < o1.len() && o1[q] == o2[p];
            if q2 < p {
                // The value of `o1` at `p` already sits in the common
                // prefix, so `o1` would repeat it.
                assert(o1[q2] == o2[q2]);
                assert(o1[q2] == o1[p]);
                assert(false);
            } else if q1 < p {
                assert(o2[q1] == o1[q1]);
                assert(o2[q1] == o2[p]);
                assert(false);
            } else {
                // Both values sit strictly later in the other
                // arrangement, so each comes strictly before the other.
                assert(q2 > p && q1 > p);
                assert(idx_before(s, o2[p] as int, o2[q2] as int));
                assert(idx_before(s, o1[p] as int, o1[q1] as int));
                assert(false);
            }
        }
    }
}

/// There is exactly one sorted arrangement of the indices of `s`:
/// [`idx_before`] is a strict total order, so [`argsort`]'s contract
/// pins its result completely.
pub proof fn lemma_sorted_arrangement_unique(s: Seq<u64>, o1: Seq<usize>, o2: Seq<usize>)
    requires
        index_arrangement(o1, s.len()),
        sorted_arrangement(s, o1),
        index_arrangement(o2, s.len()),
        sorted_arrangement(s, o2),
        s.len() <= usize::MAX,
    ensures
        o1 == o2,
{
    lemma_sorted_arrangement_prefix(s, o1, o2, s.len() as int);
    assert(o1 =~= o2);
}

/// Exact test for [`idx_before`].
fn check_idx_before(scores: &Vec<u64>, a: usize, b: usize) -> (r: bool)
    requires
        a < scores@.len(),
        b < scores@.len(),
    ensures
        r == idx_before(scores@, a as int, b as int),
{
    let ka = compute_total_key(scores[a]);
    let kb = compute_total_key(scores[b]);
    ka < kb || (ka == kb && a < b)
}

/// Stable argsort: arranges the indices of `scores` from the lowest-scoring
/// to the highest-scoring member, equal scores kept in index order. Since
/// [`idx_before`] is a strict total order on indices, the returned
/// arrangement is the unique sorted one.
pub fn argsort(scores: &Vec<u64>) -> (order: Vec<usize>)
    ensures
        index_arrangement(order@, scores@.len() as nat),
        sorted_arrangement(scores@, order@),
{
    let n = scores.len();
    let mut order: Vec<usize> = Vec::new();
    let mut k: usize = 0;
    while k < n
        invariant
            k <= n,
            n == scores@.len(),
            order@.len() == k,
            forall|i: int| 0 <= i < order@.len() ==> (order@[i] as nat) < k,
            forall|i: int, j: int| 0 <= i < j < order@.len() ==> order@[i] != order@[j],
            sorted_arrangement(scores@, order@),
        decreases n - k,
    {
        order.push(k);
        let mut m: usize = order.len() - 1;
        loop
            invariant_except_break
                m < order@.len(),
                order@.len() == k + 1,
                k < n,
                n == scores@.len(),
                forall|i: int| 0 <= i < order@.len() ==> (order@[i] as nat) < k + 1,
                forall|i: int, j: int|
                    0 <= i < j < order@.len() && i != m && j != m ==> idx_before(
                        scores@,
                        order@[i] as int,
                        order@[j] as int,
                    ),
                forall|j: int| m < j < order@.len() ==> idx_before(
                    scores@,
                    order@[m as int] as int,
                    order@[j] as int,
                ),
                forall|i: int, j: int| 0 <= i < j < order@.len() ==> order@[i] != order@[j],
            ensures
                order@.len() == k + 1,
                n == scores@.len(),
                forall|i: int| 0 <= i < order@.len() ==> (order@[i] as nat) < k + 1,
                forall|i: int, j: int| 0 <= i < j < order@.len() ==> order@[i] != order@[j],
                sorted_arrangement(scores@, order@),
            decreases m,
        {
            if m == 0 {
                break ;
            }
            let prev = order[m - 1];
            let cur = order[m];
            if !check_idx_before(scores, cur, prev) {
                // `idx_before` is a strict total order on the distinct
                // indices `prev` and `cur`, so `prev` comes before `cur`
                // and the insertion point is found.
                assert(idx_before(scores@, prev as int, cur as int));
                proof {
                    assert forall|i: int, j: int|
                        0 <= i < j < order@.len() implies idx_before(
                        scores@,
                        order@[i] as int,
                        order@[j] as int,
                    ) by {
                        if j == m as int && i < m as int - 1 {
                            assert(idx_before(
                                scores@,
                                order@[i] as int,
                                order@[m as int - 1] as int,
                            ));
                        }
                    }
                }
                break ;
            }
            order[m - 1] = cur;
            order[m] = prev;
            m = m - 1;
        }
        k = k + 1;
    }
    order
}

/// For each member, its rank counted from the best: the highest-scoring
/// member has rank `0`, the lowest-scoring has rank `n - 1` (ties broken
/// by index, later indices ranking better). The witness `order` ties the
/// ranking to the unique sorted arrangement of [`argsort`].
pub fn ranks_from_best(scores: &Vec<u64>) -> (ranks: Vec<usize>)
    ensures
        ranks@.len() == scores@.len(),
        forall|i: int| 0 <= i < ranks@.len() ==> (ranks@[i] as nat) < scores@.len(),
        exists|order: Seq<usize>|
            {
                &&& index_arrangement(order, scores@.len() as nat)
                &&& sorted_arrangement(scores@, order)
                &&& forall|r: int|
                    0 <= r < order.len() ==> ranks@[order[r] as int] == order.len() - 1 - r
            },
{
    let n = scores.len();
    let order = argsort(scores);
    let mut ranks: Vec<usize> = Vec::new();
    let mut i: usize = 0;
    while i < n
        invariant
            i <= n,
            ranks@.len() == i,
            forall|j: int| 0 <= j < ranks@.len() ==> (ranks@[j] as nat) < n,
        decreases n - i,
    {
        ranks.push(0);
        i = i + 1;
    }
    let mut r: usize = 0;
    while r < n
        invariant
            r <= n,
            n == scores@.len(),
            ranks@.len() == n,
            index_arrangement(order@, n as nat),
            sorted_arrangement(scores@, order@),
            forall|j: int| 0 <= j < ranks@.len() ==> (ranks@[j] as nat) < n,
            forall|q: int| 0 <= q < r ==> ranks@[order@[q] as int] == n - 1 - q,
        decreases n - r,
    {
        let target = order[r];
        ranks[target] = n - 1 - r;
        assert(forall|q: int| 0 <= q < r ==> order@[q] != order@[r as int]);
        r = r + 1;
    }
    proof {
        assert(index_arrangement(order@, scores@.len() as nat) && sorted_arrangement(
            scores@,
            order@,
        ) && forall|q: int|
            0 <= q < order@.len() ==> ranks@[order@[q] as int] == order@.len() - 1 - q);
    }
    ranks
}

} // verus!
