//! The mate-selection strategies: validated parameters and the weight
//! transforms that turn fitness scores into sampling weights.
//!
//! Every strategy is a small value holding its own parameters; one
//! `transform` operation per strategy maps a score vector to an
//! index-aligned weight vector of the same length. Scores, weights and
//! real-valued parameters are IEEE-754 binary64 bit patterns (`u64`).

use vstd::prelude::*;

use crate::bits::FRAC_MASK;
use crate::bits::NEG_ZERO_BITS;
use crate::bits::ONE_BITS;
use crate::bits::ZERO_BITS;
use crate::bits::check_ieee_ge;
use crate::bits::check_nan;
use crate::bits::check_sign;
use crate::bits::check_finite;
use crate::bits::check_unit_interval;
use crate::bits::ieee_ge;
use crate::bits::in_unit_interval;
use crate::bits::is_finite;
use crate::bits::is_nan;
use crate::bits::is_zero;
use crate::bits::sign_bit;
use crate::order::argsort;
use crate::order::index_arrangement;
use crate::order::sorted_arrangement;
use vstd::arithmetic::div_mod::lemma_basic_div;
use vstd::arithmetic::div_mod::lemma_fundamental_div_mod;
use vstd::arithmetic::div_mod::lemma_small_mod;
use vstd::arithmetic::mul::lemma_mul_inequality;
use vstd::arithmetic::mul::lemma_mul_strict_inequality;
use vstd::arithmetic::mul::lemma_mul_strict_upper_bound;
use vstd::arithmetic::mul::lemma_mul_strictly_positive;
use vstd::arithmetic::power2::lemma2_to64;
use vstd::arithmetic::power2::lemma2_to64_rest;
use vstd::arithmetic::power2::lemma_pow2_adds;
use vstd::arithmetic::power2::lemma_pow2_pos;
use vstd::arithmetic::power2::lemma_pow2_strictly_increases;
use vstd::arithmetic::power2::lemma_pow2_unfold;
use vstd::arithmetic::power2::pow2;

verus! {

/// A mate-selection strategy: a validated configuration value with a
/// weight transform. `valid` is the documented domain of the strategy's
/// parameters, and `weight_rel` says exactly which weight vector the
/// transform produces for given scores.
pub trait MateSelection: Sized {
    /// The strategy's parameters lie in their documented domain.
    spec fn valid(&self) -> bool;

    /// The returned weights, pinned as a relation over the mathematical
    /// views of both vectors.
    spec fn weight_rel(&self, scores: Seq<u64>, weights: Seq<u64>) -> bool;

    /// Exact test for [`MateSelection::valid`], for callers that must
    /// reject bad parameters before drawing anything.
    fn is_valid(&self) -> (r: bool)
        ensures
            r == self.valid(),
    ;

    /// Transforms the fitness scores of the population into its sampling
    /// weights: same length, same index order, pure.
    fn sample_weight(&self, scores: Vec<u64>) -> (weights: Vec<u64>)
        requires
            self.valid(),
        ensures
            weights@.len() == scores@.len(),
            self.weight_rel(scores@, weights@),
    ;
}

/// Selects parents with uniform probability, ignoring the scores.
#[derive(Debug, Clone, Copy, PartialEq, Eq, Structural)]
pub struct Random;

/// Selects parents with probability directly proportional to their score.
/// Negative and NaN scores collapse to weight zero, which excludes those
/// members from mating.
#[derive(Debug, Clone, Copy, PartialEq, Eq, Structural)]
pub struct Proportional;

/// Standardizes the scores to zero mean and unit variance, shifts them
/// down by the cutoff (measured in standard deviations), and discards
/// what falls below zero. The field is the cutoff's bit pattern, which
/// must encode a finite number.
#[derive(Debug, Clone, Copy, PartialEq, Eq, Structural)]
pub struct Normalized(pub u64);

/// Denies the lowest-scoring fraction of the population the chance to
/// mate and selects uniformly among the rest. The field is the bit
/// pattern of the fraction, which must lie in `[0, 1]`: at `0` everyone
/// may mate, at `1` only the single best member may.
#[derive(Debug, Clone, Copy, PartialEq, Eq, Structural)]
pub struct Percentile(pub u64);

/// Weights the members linearly by rank. The field is the bit pattern of
/// the selection pressure, which must lie in `[0, 1]`: at `0` all members
/// are equally likely, at `1` the worst-ranked member is never selected.
#[derive(Debug, Clone, Copy, PartialEq, Eq, Structural)]
pub struct RankedLinear(pub u64);

/// Weights the members exponentially by rank: `median` ranks down from
/// the best, the weight has halved. The median is a rank, so it must be
/// a positive count of members.
#[derive(Debug, Clone, Copy, PartialEq, Eq, Structural)]
pub struct RankedExponential(pub usize);

/// Gives the `amount` highest-scoring members (ties broken in favor of
/// later indices) weight one and everyone else weight zero. The amount
/// must be positive.
#[derive(Debug, Clone, Copy, PartialEq, Eq, Structural)]
pub struct Best(pub usize);

/// The uniform weight vector: one for every member.
pub open spec fn uniform_weights(n: nat) -> Seq<u64> {
    Seq::new(n, |i: int| ONE_BITS)
}

/// A proportional weight: the score itself, with negative and NaN
/// patterns collapsed to zero.
pub open spec fn proportional_weight(b: u64) -> u64 {
    if is_nan(b) || sign_bit(b) {
        ZERO_BITS
    } else {
        b
    }
}

/// The proportional weight vector, element-wise over the scores.
pub open spec fn proportional_weights(scores: Seq<u64>) -> Seq<u64> {
    Seq::new(scores.len(), |i: int| proportional_weight(scores[i]))
}

impl MateSelection for Random {
    open spec fn valid(&self) -> bool {
        true
    }

    open spec fn weight_rel(&self, scores: Seq<u64>, weights: Seq<u64>) -> bool {
        weights == uniform_weights(scores.len())
    }

    fn is_valid(&self) -> (r: bool) {
        true
    }

    fn sample_weight(&self, scores: Vec<u64>) -> (weights: Vec<u64>) {
        let n = scores.len();
        let mut weights: Vec<u64> = Vec::new();
        let mut i: usize = 0;
        while i < n
            invariant
                i <= n,
                weights@.len() == i,
                forall|k: int| 0 <= k < weights@.len() ==> weights@[k] == ONE_BITS,
            decreases n - i,
        {
            weights.push(ONE_BITS);
            i = i + 1;
        }
        proof {
            assert(weights@ =~= uniform_weights(scores@.len()));
        }
        weights
    }
}

impl MateSelection for Proportional {
    open spec fn valid(&self) -> bool {
        true
    }

    open spec fn weight_rel(&self, scores: Seq<u64>, weights: Seq<u64>) -> bool {
        weights == proportional_weights(scores)
    }

    fn is_valid(&self) -> (r: bool) {
        true
    }

    fn sample_weight(&self, scores: Vec<u64>) -> (weights: Vec<u64>) {
        let n = scores.len();
        let mut weights: Vec<u64> = Vec::new();
        let mut i: usize = 0;
        while i < n
            invariant
                i <= n,
                n == scores@.len(),
                weights@.len() == i,
                forall|k: int|
                    0 <= k < weights@.len() ==> weights@[k] == proportional_weight(scores@[k]),
            decreases n - i,
        {
            let s = scores[i];
            if check_nan(s) || check_sign(s) {
                weights.push(ZERO_BITS);
            } else {
                weights.push(s);
            }
            i = i + 1;
        }
        proof {
            assert(weights@ =~= proportional_weights(scores@));
        }
        weights
    }
}

/// Ceiling division of a non-negative dividend by a positive divisor.
pub open spec fn ceil_div(a: int, b: int) -> int {
    if a % b == 0 {
        a / b
    } else {
        a / b + 1
    }
}

/// The exact ceiling of `value(p) * n`, read off the bit pattern `p` of a
/// number in `[0, 1)`: a zero pattern contributes nothing, a subnormal
/// pattern encodes `f / 2^1074`, and a normal pattern below one encodes
/// `(2^52 + f) / 2^(1075 - e)` with exponent field `e` and fraction
/// field `f`. The pattern of `1.0` itself contributes `n` whole.
pub open spec fn ceil_fraction_times(p: u64, n: int) -> int {
    if is_zero(p) {
        0
    } else if p == ONE_BITS {
        n
    } else {
        let e = p >> 52;
        let f = p & FRAC_MASK;
        if e == 0 {
            ceil_div((f as int) * n, pow2(1074) as int)
        } else {
            ceil_div((pow2(52) + f as nat) as int * n, pow2((1075 - e) as nat) as int)
        }
    }
}

/// How many of the lowest-ranked members the percentile `p` denies, for a
/// population of `n > 0`: the ceiling of `p * n`, clamped to `n - 1` so
/// that at least the single best member stays eligible. Equally, the
/// ascending rank of the threshold member.
pub open spec fn cutoff_rank(p: u64, n: nat) -> int {
    if ceil_fraction_times(p, n as int) > n - 1 {
        n as int - 1
    } else {
        ceil_fraction_times(p, n as int)
    }
}

/// Computes [`cutoff_rank`] exactly, in integer arithmetic on the fields
/// of `p`. Whenever the scaled fraction `mant * n / 2^shift` has its
/// denominator beyond `2^117` the numerator is necessarily smaller, the
/// quotient lies in `(0, 1)`, and the ceiling is one; otherwise both
/// sides fit `u128` and one division decides.
fn compute_cutoff_rank(p: u64, n: usize) -> (r: usize)
    requires
        in_unit_interval(p),
        n > 0,
    ensures
        r as int == cutoff_rank(p, n as nat),
        r < n,
{
    if p == ZERO_BITS || p == NEG_ZERO_BITS {
        return 0;
    }
    if p == ONE_BITS {
        return n - 1;
    }
    let e: u64 = p >> 52;
    let f: u64 = p & FRAC_MASK;
    proof {
        assert(p >> 52 <= 0x3FE && (p >> 52 == 0 ==> (p & FRAC_MASK) > 0) && (p & FRAC_MASK)
            < 0x10_0000_0000_0000) by (bit_vector)
            requires
                p < 0x3FF0_0000_0000_0000,
                p != 0,
        ;
    }
    let mant: u64 = if e == 0 {
        f
    } else {
        f + 0x10_0000_0000_0000
    };
    let shift: u64 = if e == 0 {
        1074
    } else {
        1075 - e
    };
    let ghost num_g: int = (mant as int) * (n as int);
    let ghost den_g: int = pow2(shift as nat) as int;
    proof {
        lemma2_to64();
        lemma2_to64_rest();
        lemma_pow2_adds(64, 53);
        lemma_pow2_adds(64, 54);
        lemma_pow2_pos(shift as nat);
        lemma_mul_strict_upper_bound(mant as int, pow2(53) as int, n as int, pow2(64) as int);
        lemma_mul_strictly_positive(mant as int, n as int);
        assert(cutoff_rank(p, n as nat) == if ceil_div(num_g, den_g) > n - 1 {
            n as int - 1
        } else {
            ceil_div(num_g, den_g)
        });
    }
    if shift >= 118 {
        proof {
            if shift > 118 {
                lemma_pow2_strictly_increases(118, shift as nat);
            }
            lemma_basic_div(num_g, den_g);
            lemma_small_mod((num_g) as nat, den_g as nat);
            assert(ceil_div(num_g, den_g) == 1);
        }
        if n == 1 {
            return 0;
        }
        return 1;
    }
    let num: u128 = (mant as u128) * (n as u128);
    let mut d: u128 = 1;
    let mut t: u64 = 0;
    while t < shift
        invariant
            t <= shift,
            shift <= 117,
            d == pow2(t as nat),
        decreases shift - t,
    {
        proof {
            lemma2_to64();
            lemma2_to64_rest();
            lemma_pow2_adds(64, 53);
            lemma_pow2_adds(64, 54);
            if t as nat + 1 < 118 {
                lemma_pow2_strictly_increases((t + 1) as nat, 118);
            }
            lemma_pow2_unfold((t + 1) as nat);
        }
        d = d * 2;
        t = t + 1;
    }
    let q: u128 = num / d;
    let rem: u128 = num % d;
    proof {
        // The fraction is below one, so `mant < 2^shift`, the quotient is
        // below `n`, and the ceiling is at most `n`.
        lemma2_to64();
        lemma2_to64_rest();
        if 53 < shift {
            lemma_pow2_strictly_increases(53, shift as nat);
        }
        assert(mant < pow2(shift as nat));
        lemma_mul_strict_inequality(mant as int, den_g, n as int);
        assert(num_g < den_g * n);
        lemma_fundamental_div_mod(num_g, den_g);
        if q as int >= n as int {
            lemma_mul_inequality(n as int, q as int, den_g);
            assert(n as int * den_g <= q as int * den_g);
            assert(den_g * n <= den_g * q) by (nonlinear_arith)
                requires
                    n as int * den_g <= q as int * den_g,
            ;
            assert(false);
        }
    }
    let raw: u128 = if rem == 0 {
        q
    } else {
        q + 1
    };
    let raw_us: usize = raw as usize;
    if raw_us > n - 1 {
        n - 1
    } else {
        raw_us
    }
}

/// The zero-or-one weight vector of a score threshold: weight one exactly
/// where the score is numerically at least the threshold (so never for a
/// NaN score, and never anywhere when the threshold is NaN).
pub open spec fn threshold_weights(scores: Seq<u64>, threshold: u64) -> Seq<u64> {
    Seq::new(
        scores.len(),
        |i: int|
            if ieee_ge(scores[i], threshold) {
                ONE_BITS
            } else {
                ZERO_BITS
            },
    )
}

impl MateSelection for Percentile {
    open spec fn valid(&self) -> bool {
        in_unit_interval(self.0)
    }

    fn is_valid(&self) -> (r: bool) {
        check_unit_interval(self.0)
    }

    open spec fn weight_rel(&self, scores: Seq<u64>, weights: Seq<u64>) -> bool {
        if scores.len() == 0 {
            weights == Seq::<u64>::empty()
        } else {
            exists|order: Seq<usize>|
                {
                    &&& #[trigger] index_arrangement(order, scores.len())
                    &&& sorted_arrangement(scores, order)
                    &&& weights == threshold_weights(
                        scores,
                        scores[order[cutoff_rank(self.0, scores.len())] as int],
                    )
                }
        }
    }

    fn sample_weight(&self, scores: Vec<u64>) -> (weights: Vec<u64>) {
        let n = scores.len();
        if n == 0 {
            let weights: Vec<u64> = Vec::new();
            proof {
                assert(weights@ =~= Seq::<u64>::empty());
            }
            return weights;
        }
        let c = compute_cutoff_rank(self.0, n);
        let order = argsort(&scores);
        let threshold = scores[order[c]];
        let mut weights: Vec<u64> = Vec::new();
        let mut i: usize = 0;
        while i < n
            invariant
                i <= n,
                n == scores@.len(),
                weights@.len() == i,
                forall|k: int|
                    0 <= k < weights@.len() ==> weights@[k] == (if ieee_ge(scores@[k], threshold) {
                        ONE_BITS
                    } else {
                        ZERO_BITS
                    }),
            decreases n - i,
        {
            if check_ieee_ge(scores[i], threshold) {
                weights.push(ONE_BITS);
            } else {
                weights.push(ZERO_BITS);
            }
            i = i + 1;
        }
        proof {
            assert(weights@ =~= threshold_weights(scores@, threshold));
            assert(index_arrangement(order@, scores@.len() as nat));
        }
        weights
    }
}

impl MateSelection for Best {
    open spec fn valid(&self) -> bool {
        self.0 > 0
    }

    fn is_valid(&self) -> (r: bool) {
        self.0 > 0
    }

    open spec fn weight_rel(&self, scores: Seq<u64>, weights: Seq<u64>) -> bool {
        if scores.len() == 0 {
            weights == Seq::<u64>::empty()
        } else {
            &&& forall|i: int|
                0 <= i < weights.len() ==> weights[i] == ZERO_BITS || weights[i] == ONE_BITS
            &&& exists|order: Seq<usize>|
                {
                    &&& #[trigger] index_arrangement(order, scores.len())
                    &&& sorted_arrangement(scores, order)
                    &&& weights.len() == scores.len()
                    &&& forall|r: int|
                        0 <= r < order.len() ==> weights[order[r] as int] == (if r + self.0
                            >= order.len() {
                            ONE_BITS
                        } else {
                            ZERO_BITS
                        })
                }
        }
    }

    fn sample_weight(&self, scores: Vec<u64>) -> (weights: Vec<u64>) {
        let n = scores.len();
        if n == 0 {
            let weights: Vec<u64> = Vec::new();
            proof {
                assert(weights@ =~= Seq::<u64>::empty());
            }
            return weights;
        }
        let amount = self.0;
        let start: usize = if amount >= n {
            0
        } else {
            n - amount
        };
        let order = argsort(&scores);
        let mut weights: Vec<u64> = Vec::new();
        let mut i: usize = 0;
        while i < n
            invariant
                i <= n,
                weights@.len() == i,
                forall|k: int| 0 <= k < weights@.len() ==> weights@[k] == ZERO_BITS,
            decreases n - i,
        {
            weights.push(ZERO_BITS);
            i = i + 1;
        }
        let mut r: usize = start;
        while r < n
            invariant
                start <= r <= n,
                n == scores@.len(),
                weights@.len() == n,
                index_arrangement(order@, n as nat),
                sorted_arrangement(scores@, order@),
                start == if amount >= n {
                    0
                } else {
                    (n - amount) as int
                },
                forall|q: int|
                    start <= q < r ==> weights@[order@[q] as int] == ONE_BITS,
                forall|q: int|
                    0 <= q < order@.len() && !(start <= q < r) ==> weights@[order@[q] as int]
                        == ZERO_BITS,
                forall|i: int|
                    0 <= i < weights@.len() ==> weights@[i] == ZERO_BITS || weights@[i]
                        == ONE_BITS,
            decreases n - r,
        {
            let target = order[r];
            weights[target] = ONE_BITS;
            proof {
                assert(forall|q: int|
                    0 <= q < order@.len() && q != r ==> order@[q] != order@[r as int]);
            }
            r = r + 1;
        }
        proof {
            assert(forall|q: int|
                0 <= q < order@.len() ==> weights@[order@[q] as int] == (if q + amount
                    >= order@.len() {
                    ONE_BITS
                } else {
                    ZERO_BITS
                }));
        }
        weights
    }
}

impl Normalized {
    /// The cutoff parameter must encode a finite number.
    pub open spec fn valid(&self) -> bool {
        is_finite(self.0)
    }

    /// Exact test for [`Normalized::valid`].
    pub fn is_valid(&self) -> (r: bool)
        ensures
            r == self.valid(),
    {
        check_finite(self.0)
    }
}

impl RankedLinear {
    /// The selection pressure must encode a number in `[0, 1]`.
    pub open spec fn valid(&self) -> bool {
        in_unit_interval(self.0)
    }

    /// Exact test for [`RankedLinear::valid`].
    pub fn is_valid(&self) -> (r: bool)
        ensures
            r == self.valid(),
    {
        check_unit_interval(self.0)
    }
}

impl RankedExponential {
    /// The median is a rank, so it must be a positive count of members.
    pub open spec fn valid(&self) -> bool {
        self.0 > 0
    }

    /// Exact test for [`RankedExponential::valid`].
    pub fn is_valid(&self) -> (r: bool)
        ensures
            r == self.valid(),
    {
        self.0 > 0
    }
}

} // verus!
