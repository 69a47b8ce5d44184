//! Laws that hold across the strategies' contracts: every transform is
//! total and produces well-formed weights, and the transforms whose
//! contracts are functional are deterministic.

use vstd::prelude::*;

use crate::bits::INF_BITS;
use crate::bits::ONE_BITS;
use crate::bits::ZERO_BITS;
use crate::bits::is_nan;
use crate::bits::lemma_fixed_patterns;
use crate::bits::lemma_not_nan_not_inf_is_finite;
use crate::bits::sign_bit;
use crate::bits::weight_ok;
use crate::order::index_arrangement;
use crate::order::lemma_arrangement_surjective;
use crate::order::lemma_sorted_arrangement_unique;
use crate::order::sorted_arrangement;
use crate::strategy::Best;
use crate::strategy::MateSelection;
use crate::strategy::Percentile;
use crate::strategy::Proportional;
use crate::strategy::Random;
use crate::strategy::cutoff_rank;
use crate::strategy::threshold_weights;

verus! {

/// The uniform transform is total and well-formed: for every score
/// vector, the weights are index-aligned with the scores and every
/// weight is a finite, non-negative number.
pub proof fn random_weights_well_formed(t: Random, scores: Seq<u64>, weights: Seq<u64>)
    requires
        t.weight_rel(scores, weights),
    ensures
        weights.len() == scores.len(),
        forall|i: int| 0 <= i < weights.len() ==> weight_ok(#[trigger] weights[i]),
{
    lemma_fixed_patterns();
}

/// The proportional transform is well-formed on every score vector free
/// of the pattern of positive infinity (an infinite score passes through
/// as an infinite weight): the weights are index-aligned with the scores
/// and every weight is a finite, non-negative number. NaN and negative
/// scores never produce a positive weight.
pub proof fn proportional_weights_well_formed(t: Proportional, scores: Seq<u64>, weights: Seq<u64>)
    requires
        t.weight_rel(scores, weights),
        forall|i: int| 0 <= i < scores.len() ==> scores[i] != INF_BITS,
    ensures
        weights.len() == scores.len(),
        forall|i: int| 0 <= i < weights.len() ==> weight_ok(#[trigger] weights[i]),
        forall|i: int|
            0 <= i < scores.len() && (is_nan(scores[i]) || sign_bit(scores[i]))
                ==> weights[i] == ZERO_BITS,
{
    lemma_fixed_patterns();
    assert forall|i: int| 0 <= i < weights.len() implies weight_ok(#[trigger] weights[i]) by {
        if !(is_nan(scores[i]) || sign_bit(scores[i])) {
            lemma_not_nan_not_inf_is_finite(scores[i]);
        }
    }
}

/// The percentile transform is total and well-formed: for every score
/// vector, the weights are index-aligned with the scores and every
/// weight is zero or one, both finite, non-negative numbers.
pub proof fn percentile_weights_well_formed(t: Percentile, scores: Seq<u64>, weights: Seq<u64>)
    requires
        t.weight_rel(scores, weights),
    ensures
        weights.len() == scores.len(),
        forall|i: int| 0 <= i < weights.len() ==> weight_ok(#[trigger] weights[i]),
{
    lemma_fixed_patterns();
    if scores.len() > 0 {
        let order = choose|order: Seq<usize>|
            {
                &&& #[trigger] index_arrangement(order, scores.len())
                &&& sorted_arrangement(scores, order)
                &&& weights == threshold_weights(
                    scores,
                    scores[order[cutoff_rank(t.0, scores.len())] as int],
                )
            };
    }
}

/// The best-ranked transform is total and well-formed: for every score
/// vector, the weights are index-aligned with the scores and every
/// weight is zero or one, both finite, non-negative numbers.
pub proof fn best_weights_well_formed(t: Best, scores: Seq<u64>, weights: Seq<u64>)
    requires
        t.weight_rel(scores, weights),
    ensures
        weights.len() == scores.len(),
        forall|i: int| 0 <= i < weights.len() ==> weight_ok(#[trigger] weights[i]),
{
    lemma_fixed_patterns();
    if scores.len() > 0 {
        let order = choose|order: Seq<usize>|
            {
                &&& #[trigger] index_arrangement(order, scores.len())
                &&& sorted_arrangement(scores, order)
                &&& weights.len() == scores.len()
                &&& forall|r: int|
                    0 <= r < order.len() ==> weights[order[r] as int] == (if r + t.0
                        >= order.len() {
                        ONE_BITS
                    } else {
                        ZERO_BITS
                    })
            };
    }
}

/// The ranking is deterministic: two rank vectors that both satisfy the
/// contract of [`crate::order::ranks_from_best`] on the same scores are
/// identical, because the sorted arrangement behind them is unique and
/// reaches every index. The rank-based strategies therefore weigh a
/// population the same way on every call.
pub proof fn ranking_deterministic(scores: Seq<u64>, r1: Seq<usize>, r2: Seq<usize>)
    requires
        r1.len() == scores.len(),
        r2.len() == scores.len(),
        exists|order: Seq<usize>|
            {
                &&& #[trigger] index_arrangement(order, scores.len())
                &&& sorted_arrangement(scores, order)
                &&& forall|q: int| 0 <= q < order.len() ==> r1[order[q] as int] == order.len() - 1
                    - q
            },
        exists|order: Seq<usize>|
            {
                &&& #[trigger] index_arrangement(order, scores.len())
                &&& sorted_arrangement(scores, order)
                &&& forall|q: int| 0 <= q < order.len() ==> r2[order[q] as int] == order.len() - 1
                    - q
            },
        scores.len() <= usize::MAX,
    ensures
        r1 == r2,
{
    if scores.len() > 0 {
        let o1 = choose|order: Seq<usize>|
            {
                &&& #[trigger] index_arrangement(order, scores.len())
                &&& sorted_arrangement(scores, order)
                &&& forall|q: int| 0 <= q < order.len() ==> r1[order[q] as int] == order.len() - 1
                    - q
            };
        let o2 = choose|order: Seq<usize>|
            {
                &&& #[trigger] index_arrangement(order, scores.len())
                &&& sorted_arrangement(scores, order)
                &&& forall|q: int| 0 <= q < order.len() ==> r2[order[q] as int] == order.len() - 1
                    - q
            };
        lemma_sorted_arrangement_unique(scores, o1, o2);
        lemma_arrangement_surjective(o1, scores.len());
        assert forall|i: int| 0 <= i < r1.len() implies r1[i] == r2[i] by {
            assert(o1.contains(i as usize));
            let q = choose|q: int| 0 <= q < o1.len() && o1[q] == i as usize;
            assert(r1[o1[q] as int] == o1.len() - 1 - q);
            assert(r2[o2[q] as int] == o2.len() - 1 - q);
        }
    }
    assert(r1 =~= r2);
}

/// The uniform transform is deterministic: two weight vectors produced
/// from the same scores are bit-identical.
pub proof fn random_transform_deterministic(t: Random, scores: Seq<u64>, w1: Seq<u64>, w2: Seq<u64>)
    requires
        t.weight_rel(scores, w1),
        t.weight_rel(scores, w2),
    ensures
        w1 == w2,
{
}

/// The percentile transform is deterministic: two weight vectors
/// produced from the same scores and the same percentile are
/// bit-identical, because the sorted arrangement behind the threshold is
/// unique.
pub proof fn percentile_transform_deterministic(
    t: Percentile,
    scores: Seq<u64>,
    w1: Seq<u64>,
    w2: Seq<u64>,
)
    requires
        t.weight_rel(scores, w1),
        t.weight_rel(scores, w2),
        scores.len() <= usize::MAX,
    ensures
        w1 == w2,
{
    if scores.len() > 0 {
        let c = cutoff_rank(t.0, scores.len());
        let o1 = choose|order: Seq<usize>|
            {
                &&& #[trigger] index_arrangement(order, scores.len())
                &&& sorted_arrangement(scores, order)
                &&& w1 == threshold_weights(scores, scores[order[c] as int])
            };
        let o2 = choose|order: Seq<usize>|
            {
                &&& #[trigger] index_arrangement(order, scores.len())
                &&& sorted_arrangement(scores, order)
                &&& w2 == threshold_weights(scores, scores[order[c] as int])
            };
        lemma_sorted_arrangement_unique(scores, o1, o2);
    }
}

/// The best-ranked transform is deterministic: two weight vectors
/// produced from the same scores and the same amount are bit-identical,
/// because the sorted arrangement behind the marking is unique and
/// reaches every index.
pub proof fn best_transform_deterministic(t: Best, scores: Seq<u64>, w1: Seq<u64>, w2: Seq<u64>)
    requires
        t.weight_rel(scores, w1),
        t.weight_rel(scores, w2),
        scores.len() <= usize::MAX,
    ensures
        w1 == w2,
{
    if scores.len() > 0 {
        let o1 = choose|order: Seq<usize>|
            {
                &&& #[trigger] index_arrangement(order, scores.len())
                &&& sorted_arrangement(scores, order)
                &&& w1.len() == scores.len()
                &&& forall|r: int|
                    0 <= r < order.len() ==> w1[order[r] as int] == (if r + t.0 >= order.len() {
                        ONE_BITS
                    } else {
                        ZERO_BITS
                    })
            };
        let o2 = choose|order: Seq<usize>|
            {
                &&& #[trigger] index_arrangement(order, scores.len())
                &&& sorted_arrangement(scores, order)
                &&& w2.len() == scores.len()
                &&& forall|r: int|
                    0 <= r < order.len() ==> w2[order[r] as int] == (if r + t.0 >= order.len() {
                        ONE_BITS
                    } else {
                        ZERO_BITS
                    })
            };
        lemma_sorted_arrangement_unique(scores, o1, o2);
        lemma_arrangement_surjective(o1, scores.len());
        assert forall|i: int| 0 <= i < w1.len() implies w1[i] == w2[i] by {
            assert(o1.contains(i as usize));
            let r = choose|r: int| 0 <= r < o1.len() && o1[r] == i as usize;
            assert(w1[o1[r] as int] == w2[o2[r] as int]);
        }
        assert(w1 =~= w2);
    }
}

/// The proportional transform is deterministic: two weight vectors
/// produced from the same scores are bit-identical.
pub proof fn proportional_transform_deterministic(
    t: Proportional,
    scores: Seq<u64>,
    w1: Seq<u64>,
    w2: Seq<u64>,
)
    requires
        t.weight_rel(scores, w1),
        t.weight_rel(scores, w2),
    ensures
        w1 == w2,
{
}

} // verus!
