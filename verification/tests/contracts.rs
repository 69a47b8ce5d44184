//! Exact expectations on the library's verified pieces: the weight
//! transforms, the parameter validation, the integer sampler, the
//! self-pairing reducer, and the pair assembler.

use mate_selection::bits::ONE_BITS;
use mate_selection::bits::ZERO_BITS;
use mate_selection::order::argsort;
use mate_selection::order::ranks_from_best;
use mate_selection::reduce::reduce_repeats;
use mate_selection::reduce::to_pairs;
use mate_selection::select::select_zero_one;
use mate_selection::strategy::Best;
use mate_selection::strategy::MateSelection;
use mate_selection::strategy::Normalized;
use mate_selection::strategy::Percentile;
use mate_selection::strategy::Proportional;
use mate_selection::strategy::Random;
use mate_selection::strategy::RankedExponential;
use mate_selection::strategy::RankedLinear;
use mate_selection::sus::sus_sample;
use mate_selection::sus::total_weight;

fn to_bits(scores: Vec<f64>) -> Vec<u64> {
    scores.into_iter().map(f64::to_bits).collect()
}

#[test]
fn proportional_transform_exact() {
    let scores = vec![1.5, -2.0, f64::NAN, 0.0, -0.0, 1e300];
    let weights = Proportional.sample_weight(to_bits(scores));
    assert_eq!(
        weights,
        vec![
            (1.5f64).to_bits(),
            0,
            0,
            0,
            0,
            (1e300f64).to_bits(),
        ]
    );
}

#[test]
fn random_transform_exact() {
    let weights = Random.sample_weight(to_bits(vec![9.0, -3.0, f64::NAN]));
    assert_eq!(weights, vec![ONE_BITS; 3]);
    assert!(Random.sample_weight(vec![]).is_empty());
}

#[test]
fn percentile_transform_exact() {
    // Threshold at the 99th ascending rank: only the best member stays.
    let algo = Percentile((0.99f64).to_bits());
    let scores: Vec<f64> = (0..100).map(|x| x as f64 / 100.0).collect();
    let weights = algo.sample_weight(to_bits(scores));
    for (i, w) in weights.iter().enumerate() {
        assert_eq!(*w, if i == 99 { ONE_BITS } else { ZERO_BITS });
    }
    // At zero, everyone stays; a NaN score never reaches the threshold.
    let algo = Percentile((0.0f64).to_bits());
    let weights = algo.sample_weight(to_bits(vec![0.5, f64::NAN, -1.0]));
    assert_eq!(weights, vec![ONE_BITS, ZERO_BITS, ONE_BITS]);
}

#[test]
fn percentile_all_nan_is_degenerate() {
    // Every weight is zero: the documented fallback draws uniformly.
    let rng = &mut rand::rng();
    let algo = Percentile((0.5f64).to_bits());
    let pairs = algo.pairs(rng, 4, to_bits(vec![f64::NAN; 3]));
    assert_eq!(pairs.len(), 4);
    for (a, b) in pairs {
        assert!(a < 3 && b < 3);
    }
}

#[test]
fn best_transform_exact() {
    let algo = Best(2);
    let weights = algo.sample_weight(to_bits(vec![3.0, 1.0, 2.0]));
    assert_eq!(weights, vec![ONE_BITS, ZERO_BITS, ONE_BITS]);
    // Ties are broken in favor of the later index.
    let algo = Best(1);
    let weights = algo.sample_weight(to_bits(vec![5.0, 5.0, 5.0]));
    assert_eq!(weights, vec![ZERO_BITS, ZERO_BITS, ONE_BITS]);
    // An amount beyond the population admits everyone.
    let algo = Best(9);
    let weights = algo.sample_weight(to_bits(vec![1.0, 2.0]));
    assert_eq!(weights, vec![ONE_BITS, ONE_BITS]);
}

#[test]
fn transforms_are_deterministic() {
    let scores = vec![0.3, f64::NAN, -7.0, 0.3, 1e9];
    let again = scores.clone();
    assert_eq!(
        Proportional.sample_weight(to_bits(scores.clone())),
        Proportional.sample_weight(to_bits(again.clone()))
    );
    assert_eq!(
        Random.sample_weight(to_bits(scores.clone())),
        Random.sample_weight(to_bits(again.clone()))
    );
    let p = Percentile((0.6f64).to_bits());
    assert_eq!(
        p.sample_weight(to_bits(scores.clone())),
        p.sample_weight(to_bits(again.clone()))
    );
    let b = Best(2);
    assert_eq!(
        b.sample_weight(to_bits(scores.clone())),
        b.sample_weight(to_bits(again))
    );
}

#[test]
fn parameter_validation() {
    assert!(Percentile((0.0f64).to_bits()).is_valid());
    assert!(Percentile((-0.0f64).to_bits()).is_valid());
    assert!(Percentile((1.0f64).to_bits()).is_valid());
    assert!(!Percentile((1.5f64).to_bits()).is_valid());
    assert!(!Percentile((-0.1f64).to_bits()).is_valid());
    assert!(!Percentile(f64::NAN.to_bits()).is_valid());

    assert!(Normalized((-2.5f64).to_bits()).is_valid());
    assert!(!Normalized(f64::INFINITY.to_bits()).is_valid());
    assert!(!Normalized(f64::NAN.to_bits()).is_valid());

    assert!(RankedLinear((0.5f64).to_bits()).is_valid());
    assert!(!RankedLinear((2.0f64).to_bits()).is_valid());
    assert!(!RankedLinear(f64::NAN.to_bits()).is_valid());

    assert!(RankedExponential(1).is_valid());
    assert!(!RankedExponential(0).is_valid());

    assert!(Best(1).is_valid());
    assert!(!Best(0).is_valid());

    assert!(Random.is_valid());
    assert!(Proportional.is_valid());
}

#[test]
fn argsort_is_stable_and_total() {
    let scores = to_bits(vec![0.5, f64::NAN, 0.5, -1.0, f64::NEG_INFINITY, -0.0, 0.0]);
    let order = argsort(&scores);
    // NaN sorts above every number; equal scores keep index order; the
    // negative zero sorts below the positive zero in the total order.
    assert_eq!(order, vec![4, 3, 5, 6, 0, 2, 1]);

    let ranks = ranks_from_best(&scores);
    // Rank from best: NaN is "best" under the total order.
    assert_eq!(ranks, vec![2, 0, 1, 5, 6, 4, 3]);
}

#[test]
fn integer_sampler_exact_walk() {
    // With offset zero the pointers sit at 0, 1, 2, 3 on a weight line of
    // total four: member 1 owns [0, 3), member 2 owns [3, 4).
    let weights = vec![0u64, 3, 1];
    assert_eq!(total_weight(&weights), 4);
    let picks = sus_sample(&weights, 4, 0);
    assert_eq!(picks, vec![1, 1, 1, 2]);
    // Whatever the offset, a zero weight is never drawn and the counts
    // stay within one of the proportional share.
    let picks = sus_sample(&weights, 4, u64::MAX);
    assert!(picks.iter().all(|&i| i == 1 || i == 2));
    let ones = picks.iter().filter(|&&i| i == 1).count();
    assert!((2..=4).contains(&ones));
}

#[test]
fn integer_sampler_degenerate() {
    assert!(sus_sample(&vec![], 3, 7).is_empty());
    assert!(sus_sample(&vec![1, 2], 0, 7).is_empty());
    assert!(sus_sample(&vec![0, 0], 3, 7).is_empty());
}

#[test]
fn zero_one_selection_respects_weights() {
    let rng = &mut rand::rng();
    let weights = vec![ZERO_BITS, ONE_BITS, ZERO_BITS, ONE_BITS];
    let picks = select_zero_one(rng, 100, &weights);
    assert_eq!(picks.len(), 100);
    assert!(picks.iter().all(|&i| i == 1 || i == 3));
}

#[test]
fn zero_one_selection_share_within_one() {
    // Two eligible members, five draws: each is drawn two or three
    // times, whatever the random offset.
    let rng = &mut rand::rng();
    let weights = vec![ONE_BITS, ZERO_BITS, ONE_BITS];
    let picks = select_zero_one(rng, 5, &weights);
    assert_eq!(picks.len(), 5);
    let first = picks.iter().filter(|&&i| i == 0).count();
    let last = picks.iter().filter(|&&i| i == 2).count();
    assert_eq!(first + last, 5);
    assert!(first == 2 || first == 3);
}

#[test]
fn reducer_breaks_self_pairs() {
    let mut data = vec![5, 5, 3, 4];
    reduce_repeats(&mut data);
    assert_eq!(data, vec![3, 5, 5, 4]);

    // No slot avoids the repeated value: the sequence stays as it is.
    let mut data = vec![7, 7, 7, 7];
    reduce_repeats(&mut data);
    assert_eq!(data, vec![7, 7, 7, 7]);

    // Without any self-pair, the pass is a no-op.
    let mut data = vec![1, 2, 3, 4, 1, 3];
    reduce_repeats(&mut data);
    assert_eq!(data, vec![1, 2, 3, 4, 1, 3]);

    // A lone self-pair with an avoiding slot is always broken.
    let mut data = vec![2, 3, 9, 9, 4, 5];
    reduce_repeats(&mut data);
    for k in 0..data.len() / 2 {
        assert_ne!(data[2 * k], data[2 * k + 1]);
    }

    // The re-pairing is a deterministic function of the draws.
    let mut once = vec![6, 6, 1, 2, 6, 6, 3, 4];
    let mut twice = once.clone();
    reduce_repeats(&mut once);
    reduce_repeats(&mut twice);
    assert_eq!(once, twice);

    // The multiset of draws is preserved exactly.
    let mut data = vec![2, 2, 1, 1, 0, 3, 2, 2];
    let mut expected = data.clone();
    reduce_repeats(&mut data);
    let mut sorted = data.clone();
    sorted.sort_unstable();
    expected.sort_unstable();
    assert_eq!(sorted, expected);
    for k in 0..data.len() / 2 {
        assert_ne!(data[2 * k], data[2 * k + 1]);
    }
}

#[test]
fn pair_assembly_exact() {
    let data = vec![4, 9, 1, 1, 0, 2];
    let pairs = to_pairs(&data);
    assert_eq!(pairs, vec![(4, 9), (1, 1), (0, 2)]);
    assert!(to_pairs(&vec![]).is_empty());
}

#[test]
fn random_select_coverage() {
    // Every member appears at least `amount / n` times.
    let rng = &mut rand::rng();
    let picks = Random.select(rng, 25, to_bits(vec![1.0; 10]));
    assert_eq!(picks.len(), 25);
    let mut counts = [0usize; 10];
    for i in picks {
        counts[i] += 1;
    }
    assert!(counts.iter().all(|&c| c >= 2));
    // A draw below the population size gives distinct members.
    let mut picks = Random.select(rng, 3, to_bits(vec![1.0; 10]));
    picks.sort_unstable();
    assert!(picks.windows(2).all(|w| w[0] != w[1]));
    assert!(picks.iter().all(|&i| i < 10));
}

#[test]
fn random_select_exact_multiples() {
    // At a whole multiple of the population size the coverage is exact.
    let rng = &mut rand::rng();
    let picks = Random.select(rng, 20, to_bits(vec![1.0; 10]));
    let mut counts = [0usize; 10];
    for i in picks {
        counts[i] += 1;
    }
    assert!(counts.iter().all(|&c| c == 2));
}

#[test]
fn best_pairs_stay_among_best() {
    let rng = &mut rand::rng();
    let algo = Best(3);
    let scores: Vec<f64> = (0..50).map(|x| x as f64).collect();
    let pairs = algo.pairs(rng, 20, to_bits(scores));
    assert_eq!(pairs.len(), 20);
    for (a, b) in pairs {
        assert!(a >= 47 && b >= 47);
    }
}

#[test]
fn weights_sum_to_one_after_normalizing() {
    // The probability density of any transform is its weights divided by
    // their sum; with a positive weight sum it sums to one.
    let algo = Percentile((0.5f64).to_bits());
    let weights = algo.sample_weight(to_bits((0..10).map(|x| x as f64).collect()));
    let weights: Vec<f64> = weights.into_iter().map(f64::from_bits).collect();
    let total: f64 = weights.iter().sum();
    assert!(total > 0.0);
    let pdf: Vec<f64> = weights.iter().map(|w| w / total).collect();
    assert!((pdf.iter().sum::<f64>() - 1.0).abs() < 1e-12);
}
