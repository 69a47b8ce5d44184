//! Stochastic universal sampling over integer weights.
//!
//! The sampler lays the weights end to end on a number line: member `i`
//! owns the half-open interval `[cum(i), cum(i+1))`, whose length is its
//! weight. `amount` evenly spaced pointers are dropped onto the line, the
//! whole band shifted by a random offset below the spacing, and each
//! pointer selects the member whose interval contains it. One random value
//! places every pointer, which keeps the number of copies of each member
//! within one of its ideal proportional share. Members of weight zero own
//! an empty interval and are never selected.
//!
//! All positions are exact rationals with denominator `amount * 2^64`:
//! pointer `j` sits at `(r + j * 2^64) * total / (amount * 2^64)`, where
//! `r` is the random offset source. The walk compares numerators in
//! `u128`, so no rounding enters anywhere.

use vstd::prelude::*;

use vstd::multiset::Multiset;

verus! {

/// One unit above the largest `u64`: the scale of the random offset.
pub const POINTER_SCALE: u128 = 0x1_0000_0000_0000_0000;

/// Sum of the first `k` weights: the left end of member `k`'s interval.
pub open spec fn cum_weight(w: Seq<u64>, k: int) -> int
    decreases k,
{
    if k <= 0 {
        0
    } else {
        cum_weight(w, k - 1) + w[k - 1]
    }
}

/// Cumulative weights grow with the index and stay non-negative.
pub proof fn lemma_cum_weight_mono(w: Seq<u64>, k1: int, k2: int)
    requires
        0 <= k1 <= k2,
    ensures
        0 <= cum_weight(w, k1) <= cum_weight(w, k2),
    decreases k2,
{
    if k2 > k1 {
        lemma_cum_weight_mono(w, k1, k2 - 1);
    } else if k2 > 0 {
        lemma_cum_weight_mono(w, k1 - 1, k2 - 1);
    }
}

/// The sum of `k` weights is at most `k` times the largest `u64`.
proof fn lemma_cum_weight_bound(w: Seq<u64>, k: int)
    requires
        0 <= k,
    ensures
        cum_weight(w, k) <= k * 0xffff_ffff_ffff_ffff,
    decreases k,
{
    if k > 0 {
        lemma_cum_weight_bound(w, k - 1);
    }
}

/// The position of pointer `j`, multiplied by the common denominator
/// `amount * 2^64`: the random offset `r` shifts the whole band by
/// `r / 2^64` of one spacing.
pub open spec fn pointer_num(r: u64, j: int, total: int) -> int {
    (r + j * POINTER_SCALE) * total
}

/// Pointer `j` lands inside member `i`'s half-open interval of the
/// weight line, all positions scaled by the denominator `amount * 2^64`.
pub open spec fn pointer_in_interval(w: Seq<u64>, i: int, r: u64, j: int, amount: int) -> bool {
    let den = amount * POINTER_SCALE;
    let total = cum_weight(w, w.len() as int);
    &&& cum_weight(w, i) * den <= pointer_num(r, j, total)
    &&& pointer_num(r, j, total) < cum_weight(w, i + 1) * den
}

/// Adds up all the weights exactly.
pub fn total_weight(weights: &Vec<u64>) -> (total: u128)
    ensures
        total == cum_weight(weights@, weights@.len() as int),
{
    let n = weights.len();
    let mut total: u128 = 0;
    let mut i: usize = 0;
    while i < n
        invariant
            i <= n,
            n == weights@.len(),
            total == cum_weight(weights@, i as int),
        decreases n - i,
    {
        proof {
            lemma_cum_weight_bound(weights@, i as int);
        }
        total = total + weights[i] as u128;
        i = i + 1;
    }
    total
}

/// The least integer at or above `x / m`, written with floor division.
spec fn ceil_of(x: int, m: int) -> int {
    (x + m - 1) / m
}

/// The ceiling's multiple lies within one divisor of `x`.
proof fn lemma_ceil_of(x: int, m: int)
    requires
        m > 0,
    ensures
        x <= ceil_of(x, m) * m <= x + m - 1,
{
    vstd::arithmetic::div_mod::lemma_fundamental_div_mod(x + m - 1, m);
    vstd::arithmetic::div_mod::lemma_mod_bound(x + m - 1, m);
    assert(ceil_of(x, m) * m == m * ((x + m - 1) / m)) by (nonlinear_arith);
}

/// A multiple of `m` reaches `x` exactly from the ceiling of `x / m`
/// upward.
proof fn lemma_multiple_reaches(x: int, m: int, k: int)
    requires
        m > 0,
    ensures
        k * m >= x <==> k >= ceil_of(x, m),
{
    lemma_ceil_of(x, m);
    let a = ceil_of(x, m);
    if k >= a {
        vstd::arithmetic::mul::lemma_mul_inequality(a, k, m);
    }
    if k * m >= x && k < a {
        vstd::arithmetic::mul::lemma_mul_inequality(k, a - 1, m);
        assert((a - 1) * m == a * m - m) by (nonlinear_arith);
        assert(false);
    }
}

/// In a sequence where value `v` occupies exactly the positions of the
/// window `[a, b)`, the count of `v` is the window's width.
proof fn lemma_count_window(s: Seq<usize>, v: usize, a: int, b: int)
    requires
        0 <= a <= b <= s.len(),
        forall|k: int| 0 <= k < s.len() ==> (s[k] == v <==> a <= k < b),
    ensures
        s.to_multiset().count(v) == b - a,
    decreases s.len(),
{
    broadcast use vstd::seq_lib::group_to_multiset_ensures;
    broadcast use vstd::multiset::group_multiset_axioms;

    if s.len() == 0 {
        assert(s.to_multiset() =~= Multiset::<usize>::empty());
    } else {
        let s0 = s.drop_last();
        let last = s.last();
        assert(s =~= s0.push(last));
        if b == s.len() && a < b {
            assert(s[s.len() - 1] == v);
            lemma_count_window(s0, v, a, b - 1);
        } else {
            assert(!(a <= s.len() - 1 < b));
            assert(s[s.len() - 1] != v);
            if a == b {
                lemma_count_window(s0, v, 0, 0);
            } else {
                lemma_count_window(s0, v, a, b);
            }
        }
    }
}

/// The low-variance guarantee of stochastic universal sampling: whatever
/// the random offset, the number of copies of member `i` in a draw that
/// satisfies the pointer characterization of [`sus_sample`] stays within
/// one of its ideal proportional share `amount * w[i] / total`. Stated
/// multiplicatively over the weight sum, so no division appears:
/// strictly more than `share - 1` copies and strictly fewer than
/// `share + 1`.
pub proof fn lemma_share_within_one(w: Seq<u64>, picks: Seq<usize>, r: u64, amount: int, i: int)
    requires
        amount > 0,
        cum_weight(w, w.len() as int) > 0,
        picks.len() == amount,
        forall|k: int|
            0 <= k < picks.len() ==> pointer_in_interval(w, picks[k] as int, r, k, amount),
        0 <= i < w.len(),
        i <= usize::MAX,
    ensures
        (picks.to_multiset().count(i as usize) + 1) * cum_weight(w, w.len() as int) > amount * w[i],
        (picks.to_multiset().count(i as usize) - 1) * cum_weight(w, w.len() as int) < amount * w[i],
{
    let s_total = cum_weight(w, w.len() as int);
    let d = POINTER_SCALE as int;
    let den = amount * d;
    let m = d * s_total;
    let ci = cum_weight(w, i);
    let ci1 = cum_weight(w, i + 1);
    let lo = ci * den - r * s_total;
    let hi = ci1 * den - r * s_total;
    let a0 = ceil_of(lo, m);
    let b0 = ceil_of(hi, m);
    assert(ci1 == ci + w[i]);
    assert(m > 0 && den > 0) by (nonlinear_arith)
        requires
            s_total > 0,
            amount > 0,
            d == 0x1_0000_0000_0000_0000,
            m == d * s_total,
            den == amount * d,
    ;
    lemma_cum_weight_mono(w, 0, i);
    lemma_cum_weight_mono(w, i + 1, w.len() as int);
    lemma_ceil_of(lo, m);
    lemma_ceil_of(hi, m);
    // The positions holding `i` are exactly the window `[a0, b0)`.
    assert forall|k: int| 0 <= k < picks.len() implies (picks[k] == i as usize <==> a0 <= k
        < b0) by {
        assert(pointer_in_interval(w, picks[k] as int, r, k, amount));
        assert(pointer_num(r, k, s_total) == r * s_total + k * m) by (nonlinear_arith)
            requires
                m == d * s_total,
                pointer_num(r, k, s_total) == (r + k * d) * s_total,
        ;
        lemma_multiple_reaches(lo, m, k);
        lemma_multiple_reaches(hi, m, k);
        let p = picks[k] as int;
        if picks[k] == i as usize {
            assert(ci * den <= pointer_num(r, k, s_total) < ci1 * den);
            assert(lo <= k * m && k * m < hi);
            assert(a0 <= k < b0);
        } else if a0 <= k < b0 {
            assert(k * m >= lo && k * m < hi);
            assert(ci * den <= pointer_num(r, k, s_total) < ci1 * den);
            assert(cum_weight(w, p) * den <= pointer_num(r, k, s_total) < cum_weight(w, p + 1)
                * den);
            if p < i {
                lemma_cum_weight_mono(w, p + 1, i);
                vstd::arithmetic::mul::lemma_mul_inequality(cum_weight(w, p + 1), ci, den);
                assert(false);
            } else {
                lemma_cum_weight_mono(w, i + 1, p);
                vstd::arithmetic::mul::lemma_mul_inequality(ci1, cum_weight(w, p), den);
                assert(false);
            }
        }
    }
    // The window lies inside the pointer range `[0, amount)`.
    assert(r * s_total <= (d - 1) * s_total) by {
        vstd::arithmetic::mul::lemma_mul_inequality(r as int, d - 1, s_total);
    }
    assert((d - 1) * s_total == m - s_total) by (nonlinear_arith)
        requires
            m == d * s_total,
    ;
    assert(lo + m - 1 >= 0) by {
        vstd::arithmetic::mul::lemma_mul_nonnegative(ci, den);
    }
    assert(a0 >= 0) by {
        vstd::arithmetic::div_mod::lemma_div_is_ordered(0, lo + m - 1, m);
    }
    assert(ci1 * den <= s_total * den) by {
        vstd::arithmetic::mul::lemma_mul_inequality(ci1, s_total, den);
    }
    assert(s_total * den == amount * m) by (nonlinear_arith)
        requires
            m == d * s_total,
            den == amount * d,
    ;
    assert(b0 <= amount) by {
        assert(hi + m - 1 < (amount + 1) * m) by (nonlinear_arith)
            requires
                hi <= amount * m,
                m > 0,
        ;
        if b0 > amount {
            vstd::arithmetic::mul::lemma_mul_inequality(amount + 1, b0, m);
            assert(false);
        }
    }
    assert(a0 <= b0) by {
        assert(ci * den <= ci1 * den) by {
            vstd::arithmetic::mul::lemma_mul_inequality(ci, ci1, den);
        }
        vstd::arithmetic::div_mod::lemma_div_is_ordered(lo + m - 1, hi + m - 1, m);
    }
    lemma_count_window(picks, i as usize, a0, b0);
    let count = picks.to_multiset().count(i as usize) as int;
    assert(count == b0 - a0);
    // The window's width is within one of the interval's width in units
    // of the pointer spacing `m`, and the interval's width is the
    // member's share.
    assert(hi - lo == w[i] * den) by (nonlinear_arith)
        requires
            hi - lo == ci1 * den - ci * den,
            ci1 == ci + w[i],
    ;
    assert((b0 - a0) * m == b0 * m - a0 * m) by (nonlinear_arith);
    assert((count + 1) * m == count * m + m && (count - 1) * m == count * m - m)
        by (nonlinear_arith);
    assert((count + 1) * m > hi - lo);
    assert((count - 1) * m < hi - lo);
    assert((count + 1) * s_total > amount * w[i]) by (nonlinear_arith)
        requires
            (count + 1) * m > w[i] * (amount * d),
            m == d * s_total,
            hi - lo == w[i] * (amount * d),
            d > 0,
    ;
    assert((count - 1) * s_total < amount * w[i]) by (nonlinear_arith)
        requires
            (count - 1) * m < w[i] * (amount * d),
            m == d * s_total,
            d > 0,
    ;
}

/// Draws `amount` member indices, with replacement, each with a frequency
/// proportional to its weight, by one stochastic-universal walk shifted by
/// the random offset source `r`. Returns the draws in walk order: sorted
/// by member index. Empty input, a zero request, or an all-zero weight
/// vector yield an empty draw sequence; otherwise exactly `amount` draws
/// come back and every drawn member has a nonzero weight. The bound on
/// `amount` times the weight sum keeps the exact pointer arithmetic
/// within `u128`.
pub fn sus_sample(weights: &Vec<u64>, amount: usize, r: u64) -> (picks: Vec<usize>)
    requires
        (amount as int) * cum_weight(weights@, weights@.len() as int) < 0x8000_0000_0000_0000,
    ensures
        weights@.len() == 0 || amount == 0 || cum_weight(weights@, weights@.len() as int) == 0
            ==> picks@.len() == 0,
        weights@.len() > 0 && amount > 0 && cum_weight(weights@, weights@.len() as int) > 0
            ==> picks@.len() == amount,
        forall|k: int|
            0 <= k < picks@.len() ==> (#[trigger] picks@[k]) < weights@.len() && weights@[picks@[k]
                as int] > 0,
        forall|k1: int, k2: int| 0 <= k1 < k2 < picks@.len() ==> picks@[k1] <= picks@[k2],
        forall|k: int|
            0 <= k < picks@.len() ==> pointer_in_interval(
                weights@,
                picks@[k] as int,
                r,
                k,
                amount as int,
            ),
{
    let n = weights.len();
    let mut picks: Vec<usize> = Vec::new();
    if n == 0 || amount == 0 {
        return picks;
    }
    let total = total_weight(weights);
    if total == 0 {
        return picks;
    }
    let scale: u128 = (amount as u128) * POINTER_SCALE;
    let ghost s_total: int = total as int;
    proof {
        assert((amount as int) * s_total * POINTER_SCALE < 0x8000_0000_0000_0000
            * 0x1_0000_0000_0000_0000) by (nonlinear_arith)
            requires
                (amount as int) * s_total < 0x8000_0000_0000_0000,
                s_total > 0,
                POINTER_SCALE == 0x1_0000_0000_0000_0000,
        ;
    }
    let mut i: usize = 0;
    let mut c_next: u128 = weights[0] as u128;
    proof {
        assert(cum_weight(weights@, 1) == cum_weight(weights@, 0) + weights@[0]);
        assert(cum_weight(weights@, 0) == 0);
        lemma_cum_weight_mono(weights@, 1, n as int);
    }
    let mut j: usize = 0;
    while j < amount
        invariant
            0 < n == weights@.len(),
            0 < amount,
            total == cum_weight(weights@, n as int),
            s_total == total as int,
            0 < total,
            (amount as int) * s_total < 0x8000_0000_0000_0000,
            scale == (amount as int) * POINTER_SCALE,
            i < n,
            c_next == cum_weight(weights@, i as int + 1),
            c_next <= total,
            j <= amount,
            picks@.len() == j,
            cum_weight(weights@, i as int) * scale <= (r as int + (j as int) * POINTER_SCALE)
                * s_total,
            forall|k: int| 0 <= k < picks@.len() ==> (#[trigger] picks@[k]) <= i,
            forall|k: int|
                0 <= k < picks@.len() ==> (#[trigger] picks@[k]) < n && weights@[picks@[k]
                    as int] > 0,
            forall|k1: int, k2: int| 0 <= k1 < k2 < picks@.len() ==> picks@[k1] <= picks@[k2],
            forall|k: int|
                0 <= k < picks@.len() ==> pointer_in_interval(
                    weights@,
                    picks@[k] as int,
                    r,
                    k,
                    amount as int,
                ),
        decreases amount - j,
    {
        proof {
            assert((r as int + (j as int) * POINTER_SCALE) * s_total < scale * s_total)
                by (nonlinear_arith)
                requires
                    r < POINTER_SCALE,
                    0 <= (j as int) < (amount as int),
                    0 < s_total,
                    scale == (amount as int) * POINTER_SCALE,
            ;
            assert(scale * s_total < 0x8000_0000_0000_0000 * 0x1_0000_0000_0000_0000)
                by (nonlinear_arith)
                requires
                    (amount as int) * s_total < 0x8000_0000_0000_0000,
                    0 < s_total,
                    scale == (amount as int) * POINTER_SCALE,
                    POINTER_SCALE == 0x1_0000_0000_0000_0000,
            ;
        }
        let pnum: u128 = (r as u128 + (j as u128) * POINTER_SCALE) * total;
        proof {
            assert((c_next as int) * (scale as int) <= (scale as int) * s_total)
                by (nonlinear_arith)
                requires
                    c_next as int <= s_total,
                    0 < scale,
            ;
        }
        while pnum >= c_next * scale
            invariant
                0 < n == weights@.len(),
                total == cum_weight(weights@, n as int),
                s_total == total as int,
                0 < total,
                scale == (amount as int) * POINTER_SCALE,
                0 < scale,
                i < n,
                c_next == cum_weight(weights@, i as int + 1),
                c_next <= total,
                (c_next as int) * (scale as int) <= (scale as int) * s_total,
                pnum < scale * s_total,
                scale * s_total <= u128::MAX,
                cum_weight(weights@, i as int) * scale <= pnum as int,
                picks@.len() == j,
                forall|k: int| 0 <= k < picks@.len() ==> (#[trigger] picks@[k]) <= i,
                forall|k: int|
                    0 <= k < picks@.len() ==> (#[trigger] picks@[k]) < n && weights@[picks@[k]
                        as int] > 0,
                forall|k1: int, k2: int| 0 <= k1 < k2 < picks@.len() ==> picks@[k1] <= picks@[k2],
                forall|k: int|
                    0 <= k < picks@.len() ==> pointer_in_interval(
                        weights@,
                        picks@[k] as int,
                        r,
                        k,
                        amount as int,
                    ),
                j < amount,
            decreases n - i,
        {
            proof {
                assert((c_next as int) < s_total) by {
                    assert((c_next as int) * scale <= pnum as int);
                    assert(pnum < scale * s_total);
                    if (c_next as int) >= s_total {
                        assert(s_total * scale <= (c_next as int) * scale) by (nonlinear_arith)
                            requires
                                s_total <= c_next as int,
                                0 < scale,
                        ;
                        assert(scale * s_total == s_total * scale) by (nonlinear_arith);
                    }
                }
                if i as int + 1 == n as int {
                    assert(c_next == s_total);
                }
                lemma_cum_weight_mono(weights@, i as int + 2, n as int);
            }
            i = i + 1;
            c_next = c_next + weights[i] as u128;
            proof {
                assert((c_next as int) * (scale as int) <= (scale as int) * s_total)
                    by (nonlinear_arith)
                    requires
                        c_next as int <= s_total,
                        0 < scale,
                ;
            }
        }
        proof {
            assert(cum_weight(weights@, i as int) < cum_weight(weights@, i as int + 1)) by {
                assert(cum_weight(weights@, i as int) * scale <= pnum as int);
                assert((pnum as int) < (c_next as int) * scale);
                if cum_weight(weights@, i as int) >= cum_weight(weights@, i as int + 1) {
                    assert((c_next as int) * scale <= cum_weight(weights@, i as int) * scale)
                        by (nonlinear_arith)
                        requires
                            c_next as int <= cum_weight(weights@, i as int),
                            0 < scale,
                    ;
                }
            }
        }
        proof {
            assert(pointer_in_interval(weights@, i as int, r, j as int, amount as int));
        }
        picks.push(i);
        proof {
            assert((r as int + (j as int + 1) * POINTER_SCALE) * s_total >= (r as int + (j as int)
                * POINTER_SCALE) * s_total) by (nonlinear_arith)
                requires
                    0 < s_total,
                    0 <= j as int,
                    POINTER_SCALE == 0x1_0000_0000_0000_0000,
            ;
        }
        j = j + 1;
    }
    picks
}

} // verus!
