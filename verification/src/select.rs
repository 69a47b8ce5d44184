//! Drawing mating pairs: each strategy's `select` draws member indices
//! according to its weights, and `pairs` groups a double draw into mating
//! pairs after the self-pairing reducer has run.
//!
//! The strategies whose weights are zero or one — `Random`, `Percentile`
//! and `Best` — draw through the exact integer sampler of [`crate::sus`].
//! `Random` guarantees exact coverage instead of sampling: every member
//! appears once per whole multiple of the population size, the remainder
//! is a draw without replacement, and the whole sequence is shuffled.

use vstd::prelude::*;

use vstd::seq_lib::group_to_multiset_ensures;
use vstd::seq_lib::lemma_multiset_commutative;
use vstd::arithmetic::div_mod::lemma_fundamental_div_mod;
use vstd::arithmetic::mul::lemma_mul_inequality;

use crate::bits::ONE_BITS;
use crate::bits::ZERO_BITS;
use crate::order::index_arrangement;
use crate::order::sorted_arrangement;
use crate::reduce::assemble_pairs;
use crate::reduce::flat_of;
use crate::reduce::reduce_spec;
use crate::rng_ext::random_u64;
use crate::rng_ext::sample_indices;
use crate::rng_ext::shuffle_indices;
use crate::strategy::Best;
use crate::strategy::MateSelection;
use crate::strategy::Percentile;
use crate::strategy::Random;
use crate::sus::cum_weight;
use crate::sus::lemma_cum_weight_mono;
use crate::sus::lemma_share_within_one;
use crate::sus::sus_sample;

verus! {

/// How many members carry weight one in a zero-or-one weight vector.
pub open spec fn ones_count(weights: Seq<u64>) -> int {
    cum_weight(
        Seq::new(
            weights.len(),
            |k: int|
                if weights[k] == ONE_BITS {
                    1u64
                } else {
                    0u64
                },
        ),
        weights.len() as int,
    )
}

/// The indices `0, 1, …, n - 1` in order.
pub open spec fn iota_seq(n: nat) -> Seq<usize> {
    Seq::new(n, |i: int| i as usize)
}

fn iota(n: usize) -> (v: Vec<usize>)
    ensures
        v@ == iota_seq(n as nat),
{
    let mut v: Vec<usize> = Vec::new();
    let mut i: usize = 0;
    while i < n
        invariant
            i <= n,
            v@.len() == i,
            forall|k: int| 0 <= k < v@.len() ==> v@[k] == k,
        decreases n - i,
    {
        v.push(i);
        i = i + 1;
    }
    proof {
        assert(v@ =~= iota_seq(n as nat));
    }
    v
}

/// Two sequences with the same multiset have the same members.
proof fn lemma_same_multiset_same_members(a: Seq<usize>, b: Seq<usize>)
    requires
        a.to_multiset() == b.to_multiset(),
    ensures
        forall|k: int| 0 <= k < b.len() ==> a.contains(b[k]),
{
    broadcast use group_to_multiset_ensures;

    assert forall|k: int| 0 <= k < b.len() implies a.contains(b[k]) by {
        assert(b.contains(b[k]));
        assert(b.to_multiset().count(b[k]) > 0);
    }
}

/// A sum of zero-or-one weights is at most the number of weights.
proof fn lemma_cum_weight_le_len(w: Seq<u64>, k: int)
    requires
        0 <= k <= w.len(),
        forall|i: int| 0 <= i < w.len() ==> w[i] <= 1,
    ensures
        cum_weight(w, k) <= k,
    decreases k,
{
    if k > 0 {
        lemma_cum_weight_le_len(w, k - 1);
    }
}

/// A sum of weights is at least any single one of them.
proof fn lemma_cum_weight_at_least(w: Seq<u64>, i: int, k: int)
    requires
        0 <= i < k <= w.len(),
    ensures
        cum_weight(w, k) >= w[i],
{
    lemma_cum_weight_mono(w, 0, i);
    assert(cum_weight(w, i + 1) == cum_weight(w, i) + w[i]);
    lemma_cum_weight_mono(w, i + 1, k);
}

/// Weighted selection for a zero-or-one weight vector, through the exact
/// integer sampler: draws `amount` members with replacement, uniformly
/// among the members of weight one, and shuffles the draws into random
/// order. Whatever the random offset, each eligible member is drawn
/// within one of its proportional share, `amount` divided by the number
/// of eligible members. When every weight is zero the distribution is
/// degenerate; as the sampler's documentation says, the draw then falls
/// back to uniform over the whole population. Empty input or a zero
/// request draw nothing.
/// The bound on `amount` times the population keeps the sampler's exact
/// pointer arithmetic within `u128`.
pub fn select_zero_one(rng: &mut rand::rngs::ThreadRng, amount: usize, weights: &Vec<u64>) -> (picks:
    Vec<usize>)
    requires
        forall|i: int|
            0 <= i < weights@.len() ==> weights@[i] == ZERO_BITS || weights@[i] == ONE_BITS,
        (amount as int) * (weights@.len() as int) < 0x8000_0000_0000_0000,
    ensures
        picks@.len() == if amount > 0 && weights@.len() > 0 {
            amount as int
        } else {
            0
        },
        forall|k: int| 0 <= k < picks@.len() ==> (#[trigger] picks@[k]) < weights@.len(),
        (exists|i: int| 0 <= i < weights@.len() && weights@[i] == ONE_BITS) ==> forall|k: int|
            0 <= k < picks@.len() ==> weights@[(#[trigger] picks@[k]) as int] == ONE_BITS,
        amount > 0 && (exists|i: int| 0 <= i < weights@.len() && weights@[i] == ONE_BITS)
            ==> forall|v: usize|
            (v as int) < weights@.len() && weights@[v as int] == ONE_BITS
                ==> (picks@.to_multiset().count(v) + 1) * ones_count(weights@) > amount
                && (picks@.to_multiset().count(v) - 1) * ones_count(weights@) < amount,
{
    let n = weights.len();
    if amount == 0 || n == 0 {
        let picks: Vec<usize> = Vec::new();
        return picks;
    }
    let mut iw: Vec<u64> = Vec::new();
    let mut any_one = false;
    let mut i: usize = 0;
    while i < n
        invariant
            i <= n,
            n == weights@.len(),
            iw@.len() == i,
            forall|k: int|
                0 <= k < iw@.len() ==> iw@[k] == (if weights@[k] == ONE_BITS {
                    1u64
                } else {
                    0u64
                }),
            any_one == exists|k: int| 0 <= k < i && weights@[k] == ONE_BITS,
        decreases n - i,
    {
        if weights[i] == ONE_BITS {
            iw.push(1);
            any_one = true;
        } else {
            iw.push(0);
        }
        i = i + 1;
    }
    let iw = if any_one {
        iw
    } else {
        // Degenerate distribution: every weight is zero. Fall back to a
        // uniform draw by giving every member weight one.
        let mut ones: Vec<u64> = Vec::new();
        let mut j: usize = 0;
        while j < n
            invariant
                j <= n,
                ones@.len() == j,
                forall|k: int| 0 <= k < ones@.len() ==> ones@[k] == 1u64,
            decreases n - j,
        {
            ones.push(1);
            j = j + 1;
        }
        ones
    };
    proof {
        let s = cum_weight(iw@, n as int);
        lemma_cum_weight_le_len(iw@, n as int);
        if any_one {
            let k = choose|k: int| 0 <= k < n && weights@[k] == ONE_BITS;
            lemma_cum_weight_at_least(iw@, k, n as int);
        } else {
            lemma_cum_weight_at_least(iw@, 0, n as int);
        }
        assert(s >= 1);
        lemma_mul_inequality(s, n as int, amount as int);
        assert((amount as int) * s <= (amount as int) * (n as int)) by (nonlinear_arith)
            requires
                s * (amount as int) <= (n as int) * (amount as int),
        ;
    }
    let r = random_u64(rng);
    let mut picks = sus_sample(&iw, amount, r);
    let ghost pre = picks@;
    shuffle_indices(rng, &mut picks);
    proof {
        if any_one {
            assert(iw@ =~= Seq::new(
                weights@.len(),
                |k: int|
                    if weights@[k] == ONE_BITS {
                        1u64
                    } else {
                        0u64
                    },
            ));
            assert forall|v: usize|
                (v as int) < weights@.len() && weights@[v as int] == ONE_BITS implies (
            pre.to_multiset().count(v) + 1) * ones_count(weights@) > amount as int && (
            pre.to_multiset().count(v) - 1) * ones_count(weights@) < amount as int by {
                lemma_share_within_one(iw@, pre, r, amount as int, v as int);
                assert(iw@[v as int] == 1);
            }
            assert(picks@.to_multiset() == pre.to_multiset());
        }
        lemma_same_multiset_same_members(pre, picks@);
        assert forall|k: int| 0 <= k < picks@.len() implies (#[trigger] picks@[k]) < weights@.len()
            && (any_one ==> weights@[picks@[k] as int] == ONE_BITS) by {
            let x = picks@[k];
            assert(pre.contains(x));
            let j = choose|j: int| 0 <= j < pre.len() && pre[j] == x;
            assert(iw@[x as int] > 0);
        }
    }
    picks
}

impl Random {
    /// Uniform selection with exact coverage: every member appears
    /// `amount / n` times, a uniform draw without replacement fills the
    /// remaining `amount % n` slots, and the whole sequence is shuffled.
    /// This draws each member as close to equally often as possible,
    /// which a weighted draw would only approximate.
    pub fn select(&self, rng: &mut rand::rngs::ThreadRng, amount: usize, scores: Vec<u64>) -> (picks:
        Vec<usize>)
        ensures
            picks@.len() == if amount > 0 && scores@.len() > 0 {
                amount as int
            } else {
                0
            },
            forall|k: int| 0 <= k < picks@.len() ==> (#[trigger] picks@[k]) < scores@.len(),
            scores@.len() > 0 ==> forall|v: usize|
                (v as int) < scores@.len() ==> picks@.to_multiset().count(v) >= (amount as int) / (
                scores@.len() as int),
            amount > 0 && scores@.len() > 0 ==> exists|extra: Seq<usize>|
                {
                    &&& (#[trigger] extra.len()) == (amount as int) % (scores@.len() as int)
                    &&& forall|k: int|
                        0 <= k < extra.len() ==> ((#[trigger] extra[k]) as int) < scores@.len()
                    &&& forall|k1: int, k2: int|
                        0 <= k1 < k2 < extra.len() ==> extra[k1] != extra[k2]
                    &&& forall|v: usize|
                        (v as int) < scores@.len() ==> picks@.to_multiset().count(v) == (
                        amount as int) / (scores@.len() as int) + (if extra.contains(v) {
                            1int
                        } else {
                            0int
                        })
                },
    {
        let n = scores.len();
        let mut picks: Vec<usize> = Vec::new();
        if amount == 0 || n == 0 {
            return picks;
        }
        let full = amount / n;
        let rem = amount % n;
        proof {
            lemma_fundamental_div_mod(amount as int, n as int);
            broadcast use group_to_multiset_ensures;

            assert forall|v: usize| picks@.to_multiset().count(v) == 0 by {
                assert(!picks@.contains(v));
            }
        }
        let mut pass: usize = 0;
        while pass < full
            invariant
                pass <= full,
                0 < n == scores@.len(),
                full == amount as int / n as int,
                picks@.len() == pass * n,
                forall|k: int| 0 <= k < picks@.len() ==> (#[trigger] picks@[k]) < n,
                forall|v: usize| (v as int) < n ==> picks@.to_multiset().count(v) == pass,
            decreases full - pass,
        {
            let mut block = iota(n);
            let ghost before = picks@;
            picks.append(&mut block);
            proof {
                lemma_multiset_commutative(before, iota_seq(n as nat));
                assert(iota_seq(n as nat).no_duplicates());
                iota_seq(n as nat).lemma_multiset_has_no_duplicates();
                assert forall|v: usize| (v as int) < n implies picks@.to_multiset().count(v) == pass
                    + 1 by {
                    broadcast use group_to_multiset_ensures;

                    assert(iota_seq(n as nat)[v as int] == v);
                    assert(iota_seq(n as nat).contains(v));
                    assert(iota_seq(n as nat).to_multiset().contains(v));
                    assert(iota_seq(n as nat).to_multiset().count(v) == 1);
                    assert(before.to_multiset().count(v) == pass);
                }
                assert((pass + 1) * n == pass * n + n) by (nonlinear_arith);
            }
            pass = pass + 1;
        }
        proof {
            lemma_fundamental_div_mod(amount as int, n as int);
            assert(full * n == n as int * (amount as int / n as int)) by (nonlinear_arith)
                requires
                    full == amount as int / n as int,
            ;
        }
        let ghost mut extra_ghost: Seq<usize> = Seq::empty();
        if rem > 0 {
            let mut extra = sample_indices(rng, n, rem);
            let ghost before = picks@;
            proof {
                extra_ghost = extra@;
            }
            picks.append(&mut extra);
            proof {
                lemma_multiset_commutative(before, extra_ghost);
                assert(extra_ghost.no_duplicates());
                extra_ghost.lemma_multiset_has_no_duplicates();
                assert forall|v: usize| (v as int) < n implies picks@.to_multiset().count(v) == full
                    + (if extra_ghost.contains(v) {
                    1int
                } else {
                    0int
                }) by {
                    broadcast use group_to_multiset_ensures;

                    assert(before.to_multiset().count(v) == full);
                    if extra_ghost.contains(v) {
                        assert(extra_ghost.to_multiset().contains(v));
                        assert(extra_ghost.to_multiset().count(v) == 1);
                    } else {
                        assert(extra_ghost.to_multiset().count(v) == 0);
                    }
                }
                assert(forall|k: int|
                    0 <= k < picks@.len() ==> (#[trigger] picks@[k]) < n);
            }
        }
        let ghost pre = picks@;
        shuffle_indices(rng, &mut picks);
        proof {
            lemma_same_multiset_same_members(pre, picks@);
            assert forall|k: int| 0 <= k < picks@.len() implies (#[trigger] picks@[k]) < n by {
                let x = picks@[k];
                assert(pre.contains(x));
                let j = choose|j: int| 0 <= j < pre.len() && pre[j] == x;
            }
            assert(extra_ghost.len() == (amount as int) % (n as int));
            assert(forall|v: usize|
                (v as int) < n ==> picks@.to_multiset().count(v) == (amount as int) / (n as int) + (
                if extra_ghost.contains(v) {
                    1int
                } else {
                    0int
                }));
        }
        picks
    }

    /// Mating pairs under uniform selection: a double draw with exact
    /// coverage, the self-pairing reducer, and the pair assembly. The
    /// flattened pairs keep the draw multiset, so every member still
    /// appears at least `2 * amount / n` times among the pairs.
    pub fn pairs(&self, rng: &mut rand::rngs::ThreadRng, amount: usize, scores: Vec<u64>) -> (pairs:
        Vec<(usize, usize)>)
        requires
            amount <= usize::MAX / 2,
        ensures
            pairs@.len() == if amount > 0 && scores@.len() > 0 {
                amount as int
            } else {
                0
            },
            forall|k: int|
                0 <= k < pairs@.len() ==> (#[trigger] pairs@[k]).0 < scores@.len()
                    && pairs@[k].1 < scores@.len(),
            scores@.len() > 0 ==> forall|v: usize|
                (v as int) < scores@.len() ==> flat_of(pairs@).to_multiset().count(v) >= (2 * amount
                    as int) / (scores@.len() as int),
            exists|draws: Seq<usize>|
                {
                    &&& flat_of(pairs@) == #[trigger] reduce_spec(draws)
                    &&& draws.to_multiset() == flat_of(pairs@).to_multiset()
                },
    {
        let ghost n = scores@.len();
        let draws = self.select(rng, amount * 2, scores);
        let pairs = assemble_pairs(draws);
        proof {
            lemma_pair_elements_in_range(pairs@, draws@, n);
        }
        pairs
    }
}

/// The empty draw sequence re-pairs to itself.
proof fn lemma_empty_pairing()
    ensures
        reduce_spec(Seq::<usize>::empty()) == Seq::<usize>::empty(),
        flat_of(Seq::<(usize, usize)>::empty()).to_multiset() == Seq::<usize>::empty().to_multiset(),
{
    assert(flat_of(Seq::<(usize, usize)>::empty()) =~= Seq::<usize>::empty());
}

/// When the flattened pairs have the draw multiset and every draw is
/// below `n`, every element of every pair is below `n` too.
proof fn lemma_pair_elements_in_range(pairs: Seq<(usize, usize)>, draws: Seq<usize>, n: nat)
    requires
        flat_of(pairs).to_multiset() == draws.to_multiset(),
        forall|k: int| 0 <= k < draws.len() ==> (#[trigger] draws[k]) < n,
    ensures
        forall|k: int|
            0 <= k < pairs.len() ==> (#[trigger] pairs[k]).0 < n && pairs[k].1 < n,
{
    lemma_same_multiset_same_members(draws, flat_of(pairs));
    assert forall|k: int| 0 <= k < pairs.len() implies (#[trigger] pairs[k]).0 < n && pairs[k].1
        < n by {
        assert(flat_of(pairs)[2 * k] == pairs[k].0);
        assert(flat_of(pairs)[2 * k + 1] == pairs[k].1);
        assert(draws.contains(pairs[k].0));
        assert(draws.contains(pairs[k].1));
        let i0 = choose|i: int| 0 <= i < draws.len() && draws[i] == pairs[k].0;
        let i1 = choose|i: int| 0 <= i < draws.len() && draws[i] == pairs[k].1;
    }
}

impl Percentile {
    /// Draws `amount` members, uniformly among those whose score reaches
    /// the percentile threshold (weight one under this strategy's
    /// transform); with no member at the threshold the draw is uniform
    /// over everyone, and an empty population or a zero request draws
    /// nothing.
    pub fn select(&self, rng: &mut rand::rngs::ThreadRng, amount: usize, scores: Vec<u64>) -> (picks:
        Vec<usize>)
        requires
            self.valid(),
            (amount as int) * (scores@.len() as int) < 0x8000_0000_0000_0000,
        ensures
            picks@.len() == if amount > 0 && scores@.len() > 0 {
                amount as int
            } else {
                0
            },
            forall|k: int| 0 <= k < picks@.len() ==> (#[trigger] picks@[k]) < scores@.len(),
            exists|w: Seq<u64>|
                {
                    &&& #[trigger] self.weight_rel(scores@, w)
                    &&& (exists|i: int| 0 <= i < w.len() && w[i] == ONE_BITS) ==> forall|k: int|
                        0 <= k < picks@.len() ==> w[(#[trigger] picks@[k]) as int] == ONE_BITS
                    &&& amount > 0 && (exists|i: int| 0 <= i < w.len() && w[i] == ONE_BITS)
                        ==> forall|v: usize|
                        (v as int) < w.len() && w[v as int] == ONE_BITS ==> (
                        picks@.to_multiset().count(v) + 1) * ones_count(w) > amount && (
                        picks@.to_multiset().count(v) - 1) * ones_count(w) < amount
                },
    {
        let ghost s = scores@;
        let weights = self.sample_weight(scores);
        let picks = select_zero_one(rng, amount, &weights);
        proof {
            percentile_weights_zero_one(*self, s, weights@);
        }
        picks
    }

    /// Mating pairs under the percentile strategy: a double draw through
    /// [`Percentile::select`], the self-pairing reducer, and the pair
    /// assembly.
    pub fn pairs(&self, rng: &mut rand::rngs::ThreadRng, amount: usize, scores: Vec<u64>) -> (pairs:
        Vec<(usize, usize)>)
        requires
            self.valid(),
            amount <= usize::MAX / 2,
            2 * (amount as int) * (scores@.len() as int) < 0x8000_0000_0000_0000,
        ensures
            pairs@.len() == if amount > 0 && scores@.len() > 0 {
                amount as int
            } else {
                0
            },
            forall|k: int|
                0 <= k < pairs@.len() ==> (#[trigger] pairs@[k]).0 < scores@.len()
                    && pairs@[k].1 < scores@.len(),
            exists|draws: Seq<usize>|
                {
                    &&& flat_of(pairs@) == #[trigger] reduce_spec(draws)
                    &&& draws.to_multiset() == flat_of(pairs@).to_multiset()
                },
            exists|w: Seq<u64>|
                {
                    &&& #[trigger] self.weight_rel(scores@, w)
                    &&& (exists|i: int| 0 <= i < w.len() && w[i] == ONE_BITS) ==> forall|k: int|
                        0 <= k < pairs@.len() ==> w[(#[trigger] pairs@[k]).0 as int] == ONE_BITS
                            && w[pairs@[k].1 as int] == ONE_BITS
                    &&& amount > 0 && (exists|i: int| 0 <= i < w.len() && w[i] == ONE_BITS)
                        ==> forall|v: usize|
                        (v as int) < w.len() && w[v as int] == ONE_BITS ==> (flat_of(
                        pairs@,
                        ).to_multiset().count(v) + 1) * ones_count(w) > 2 * amount && (flat_of(
                        pairs@,
                        ).to_multiset().count(v) - 1) * ones_count(w) < 2 * amount
                },
    {
        let ghost n = scores@.len();
        let narrow = scores.len();
        if amount == 0 || narrow == 0 {
            let ghost s = scores@;
            let weights = self.sample_weight(scores);
            let pairs: Vec<(usize, usize)> = Vec::new();
            proof {
                lemma_empty_pairing();
                assert(flat_of(pairs@) =~= Seq::<usize>::empty());
            }
            return pairs;
        }
        let ghost s = scores@;
        proof {
            assert(2 * (amount as int) <= 2 * (amount as int) * (s.len() as int))
                by (nonlinear_arith)
                requires
                    s.len() >= 1,
                    amount as int >= 0,
            ;
        }
        let double: usize = amount * 2;
        let weights = self.sample_weight(scores);
        proof {
            percentile_weights_zero_one(*self, s, weights@);
        }
        let draws = select_zero_one(rng, double, &weights);
        let pairs = assemble_pairs(draws);
        proof {
            lemma_pair_elements_in_range(pairs@, draws@, n);
            assert(flat_of(pairs@).to_multiset() == draws@.to_multiset());
            if exists|i: int| 0 <= i < weights@.len() && weights@[i] == ONE_BITS {
                lemma_same_multiset_same_members(draws@, flat_of(pairs@));
                assert forall|k: int| 0 <= k < pairs@.len() implies weights@[(
                #[trigger] pairs@[k]).0 as int] == ONE_BITS && weights@[pairs@[k].1 as int]
                    == ONE_BITS by {
                    assert(flat_of(pairs@)[2 * k] == pairs@[k].0);
                    assert(flat_of(pairs@)[2 * k + 1] == pairs@[k].1);
                    assert(draws@.contains(pairs@[k].0));
                    assert(draws@.contains(pairs@[k].1));
                    let i0 = choose|i: int| 0 <= i < draws@.len() && draws@[i] == pairs@[k].0;
                    let i1 = choose|i: int| 0 <= i < draws@.len() && draws@[i] == pairs@[k].1;
                }
            }
        }
        pairs
    }
}

/// Every weight the percentile transform produces is zero or one.
proof fn percentile_weights_zero_one(p: Percentile, scores: Seq<u64>, w: Seq<u64>)
    requires
        p.weight_rel(scores, w),
    ensures
        forall|i: int| 0 <= i < w.len() ==> w[i] == ZERO_BITS || w[i] == ONE_BITS,
{
    if scores.len() > 0 {
        let order = choose|order: Seq<usize>|
            {
                &&& #[trigger] index_arrangement(order, scores.len())
                &&& sorted_arrangement(scores, order)
                &&& w == crate::strategy::threshold_weights(
                    scores,
                    scores[order[crate::strategy::cutoff_rank(p.0, scores.len())] as int],
                )
            };
    }
}

impl Best {
    /// Draws `amount` members, uniformly among the best-ranked members
    /// (weight one under this strategy's transform); an empty population
    /// or a zero request draws nothing.
    pub fn select(&self, rng: &mut rand::rngs::ThreadRng, amount: usize, scores: Vec<u64>) -> (picks:
        Vec<usize>)
        requires
            self.valid(),
            (amount as int) * (scores@.len() as int) < 0x8000_0000_0000_0000,
        ensures
            picks@.len() == if amount > 0 && scores@.len() > 0 {
                amount as int
            } else {
                0
            },
            forall|k: int| 0 <= k < picks@.len() ==> (#[trigger] picks@[k]) < scores@.len(),
            exists|w: Seq<u64>|
                {
                    &&& #[trigger] self.weight_rel(scores@, w)
                    &&& (exists|i: int| 0 <= i < w.len() && w[i] == ONE_BITS) ==> forall|k: int|
                        0 <= k < picks@.len() ==> w[(#[trigger] picks@[k]) as int] == ONE_BITS
                    &&& amount > 0 && (exists|i: int| 0 <= i < w.len() && w[i] == ONE_BITS)
                        ==> forall|v: usize|
                        (v as int) < w.len() && w[v as int] == ONE_BITS ==> (
                        picks@.to_multiset().count(v) + 1) * ones_count(w) > amount && (
                        picks@.to_multiset().count(v) - 1) * ones_count(w) < amount
                },
    {
        let ghost s = scores@;
        let weights = self.sample_weight(scores);
        let picks = select_zero_one(rng, amount, &weights);
        picks
    }

    /// Mating pairs under the best-ranked strategy: a double draw through
    /// [`Best::select`], the self-pairing reducer, and the pair assembly.
    pub fn pairs(&self, rng: &mut rand::rngs::ThreadRng, amount: usize, scores: Vec<u64>) -> (pairs:
        Vec<(usize, usize)>)
        requires
            self.valid(),
            amount <= usize::MAX / 2,
            2 * (amount as int) * (scores@.len() as int) < 0x8000_0000_0000_0000,
        ensures
            pairs@.len() == if amount > 0 && scores@.len() > 0 {
                amount as int
            } else {
                0
            },
            forall|k: int|
                0 <= k < pairs@.len() ==> (#[trigger] pairs@[k]).0 < scores@.len()
                    && pairs@[k].1 < scores@.len(),
            exists|draws: Seq<usize>|
                {
                    &&& flat_of(pairs@) == #[trigger] reduce_spec(draws)
                    &&& draws.to_multiset() == flat_of(pairs@).to_multiset()
                },
            exists|w: Seq<u64>|
                {
                    &&& #[trigger] self.weight_rel(scores@, w)
                    &&& (exists|i: int| 0 <= i < w.len() && w[i] == ONE_BITS) ==> forall|k: int|
                        0 <= k < pairs@.len() ==> w[(#[trigger] pairs@[k]).0 as int] == ONE_BITS
                            && w[pairs@[k].1 as int] == ONE_BITS
                    &&& amount > 0 && (exists|i: int| 0 <= i < w.len() && w[i] == ONE_BITS)
                        ==> forall|v: usize|
                        (v as int) < w.len() && w[v as int] == ONE_BITS ==> (flat_of(
                        pairs@,
                        ).to_multiset().count(v) + 1) * ones_count(w) > 2 * amount && (flat_of(
                        pairs@,
                        ).to_multiset().count(v) - 1) * ones_count(w) < 2 * amount
                },
    {
        let ghost n = scores@.len();
        let narrow = scores.len();
        if amount == 0 || narrow == 0 {
            let ghost s = scores@;
            let weights = self.sample_weight(scores);
            let pairs: Vec<(usize, usize)> = Vec::new();
            proof {
                lemma_empty_pairing();
                assert(flat_of(pairs@) =~= Seq::<usize>::empty());
            }
            return pairs;
        }
        let ghost s = scores@;
        proof {
            assert(2 * (amount as int) <= 2 * (amount as int) * (s.len() as int))
                by (nonlinear_arith)
                requires
                    s.len() >= 1,
                    amount as int >= 0,
            ;
        }
        let double: usize = amount * 2;
        let weights = self.sample_weight(scores);
        let draws = select_zero_one(rng, double, &weights);
        let pairs = assemble_pairs(draws);
        proof {
            lemma_pair_elements_in_range(pairs@, draws@, n);
            assert(flat_of(pairs@).to_multiset() == draws@.to_multiset());
            if exists|i: int| 0 <= i < weights@.len() && weights@[i] == ONE_BITS {
                lemma_same_multiset_same_members(draws@, flat_of(pairs@));
                assert forall|k: int| 0 <= k < pairs@.len() implies weights@[(
                #[trigger] pairs@[k]).0 as int] == ONE_BITS && weights@[pairs@[k].1 as int]
                    == ONE_BITS by {
                    assert(flat_of(pairs@)[2 * k] == pairs@[k].0);
                    assert(flat_of(pairs@)[2 * k + 1] == pairs@[k].1);
                    assert(draws@.contains(pairs@[k].0));
                    assert(draws@.contains(pairs@[k].1));
                    let i0 = choose|i: int| 0 <= i < draws@.len() && draws@[i] == pairs@[k].0;
                    let i1 = choose|i: int| 0 <= i < draws@.len() && draws@[i] == pairs@[k].1;
                }
            }
        }
        pairs
    }
}

} // verus!
