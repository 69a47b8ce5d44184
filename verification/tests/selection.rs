//! Behavior of the selection pipeline, strategy by strategy. Scores enter
//! as `f64` values and are handed to the library as bit patterns; the
//! strategies whose weight formulas are floating-point (proportional
//! magnitudes, normalized scores, ranked weights) push their weights
//! through the floating-point sampler crate, as the application layer
//! does, and hand the draws back to the library's reducer and assembler.

use mate_selection::order::ranks_from_best;
use mate_selection::reduce::reduce_repeats;
use mate_selection::reduce::to_pairs;
use mate_selection::strategy::MateSelection;
use mate_selection::strategy::Percentile;
use mate_selection::strategy::Proportional;
use mate_selection::strategy::Random;

fn to_bits(scores: Vec<f64>) -> Vec<u64> {
    scores.into_iter().map(f64::to_bits).collect()
}

fn flatten_and_sort(pairs: &Vec<(usize, usize)>) -> Vec<usize> {
    let mut data: Vec<usize> = pairs.iter().flat_map(|p| [p.0, p.1]).collect();
    data.sort_unstable();
    data
}

/// Draws pairs from floating-point weights: the sampler crate draws, the
/// library reduces self-pairs and assembles the pairs.
fn pairs_from_weights(
    rng: &mut rand::rngs::ThreadRng,
    amount: usize,
    weights: &[f64],
) -> Vec<(usize, usize)> {
    if amount == 0 || weights.is_empty() {
        return vec![];
    }
    let mut draws = stochastic_universal_sampling::choose_multiple_weighted(rng, amount * 2, weights);
    reduce_repeats(&mut draws);
    to_pairs(&draws)
}

fn pairs_proportional(
    rng: &mut rand::rngs::ThreadRng,
    amount: usize,
    scores: Vec<f64>,
) -> Vec<(usize, usize)> {
    let weights: Vec<f64> = Proportional
        .sample_weight(to_bits(scores))
        .into_iter()
        .map(f64::from_bits)
        .collect();
    pairs_from_weights(rng, amount, &weights)
}

/// The normalized strategy's weight formula: standardize, shift by the
/// cutoff, discard what falls below zero.
fn normalized_weights(cutoff: f64, scores: Vec<f64>) -> Vec<f64> {
    assert!(cutoff.is_finite(), "argument is not finite");
    let mut scores = scores;
    let mean = scores.iter().sum::<f64>() / scores.len() as f64;
    for x in scores.iter_mut() {
        *x -= mean;
    }
    let var = scores.iter().map(|x| x.powi(2)).sum::<f64>() / scores.len() as f64;
    let std = var.sqrt();
    for x in scores.iter_mut() {
        *x = (*x / std - cutoff).max(0.0);
    }
    scores
}

/// The rank-linear weight formula over the library's verified ranking.
fn ranked_linear_weights(selection_pressure: f64, scores: Vec<f64>) -> Vec<f64> {
    assert!(
        (0.0..=1.0).contains(&selection_pressure),
        "argument out of bounds"
    );
    if scores.len() == 1 {
        // A population of one has no ranking: the single member gets
        // weight one, avoiding the zero divisor.
        return vec![1.0];
    }
    let ranks = ranks_from_best(&to_bits(scores.clone()));
    let div_n = 1.0 / (scores.len() - 1) as f64;
    ranks
        .into_iter()
        .map(|rank| {
            let rank = rank as f64 * div_n;
            1.0 + selection_pressure - 2.0 * selection_pressure * rank
        })
        .collect()
}

/// The rank-exponential weight formula over the library's verified ranking.
fn ranked_exponential_weights(median: usize, scores: Vec<f64>) -> Vec<f64> {
    assert!(median != 0, "argument out of bounds");
    let ranks = ranks_from_best(&to_bits(scores));
    ranks
        .into_iter()
        .map(|rank| (-(2.0_f64.ln()) * rank as f64 / median as f64).exp())
        .collect()
}

#[test]
fn is_even() {
    assert!(mate_selection::reduce::is_even(0));
    assert!(!mate_selection::reduce::is_even(1));
    assert!(mate_selection::reduce::is_even(2));
    assert!(!mate_selection::reduce::is_even(3));
}

#[test]
fn no_data() {
    let rng = &mut rand::rng();
    let pairs = pairs_proportional(rng, 1, vec![]);
    assert!(pairs.is_empty());

    let pairs = pairs_proportional(rng, 0, vec![1.0, 2.0, 3.0]);
    assert!(pairs.is_empty());
}

#[test]
fn truncate_top_one() {
    let rng = &mut rand::rng();
    // Truncate all but the single best individual.
    let algo = Percentile((0.99f64).to_bits());
    let weights: Vec<f64> = (0..100).map(|x| x as f64 / 100.0).collect();
    let pairs = algo.pairs(rng, 1, to_bits(weights));
    assert!(pairs == [(99, 99)]);
}

#[test]
fn truncate_top_two() {
    let rng = &mut rand::rng();
    // Truncate all but the best two individuals.
    let algo = Percentile((0.98f64).to_bits());
    let weights: Vec<f64> = (0..100).map(|x| x as f64 / 100.0).collect();
    let pairs = algo.pairs(rng, 1, to_bits(weights));
    assert!(pairs == [(98, 99)] || pairs == [(99, 98)]);
}

#[test]
fn truncate_none() {
    let rng = &mut rand::rng();
    // Truncate none of the individuals.
    let algo = Percentile((0.0f64).to_bits());
    let weights: Vec<f64> = (0..100).map(|x| x as f64 / 100.0).collect();
    let pairs = algo.pairs(rng, 50, to_bits(weights));
    let selected = flatten_and_sort(&pairs);
    assert_eq!(selected, (0..100).collect::<Vec<_>>());
}

#[test]
fn truncate_all() {
    let rng = &mut rand::rng();
    // Truncating all individuals should actually just return the single
    // best individual. This situation happens when building the starting
    // population.
    let algo = Percentile((0.999_999_999f64).to_bits()); // Technically less than one.
    let weights: Vec<f64> = (0..100).map(|x| x as f64 / 100.0).collect();
    let pairs = algo.pairs(rng, 1, to_bits(weights));
    assert!(pairs == [(99, 99)]);
}

#[test]
fn propotional() {
    let rng = &mut rand::rng();
    // All scores are equal, proportional should select all of the items.
    let weights = vec![1.0; 10];
    let selected = flatten_and_sort(&pairs_proportional(rng, 5, weights));
    assert_eq!(selected, [0, 1, 2, 3, 4, 5, 6, 7, 8, 9]);
}

#[test]
fn propotional_outlier() {
    let rng = &mut rand::rng();
    // Index 0 is an outlier. Proportional selection should allow the
    // outlier to dominate the sample. The other items should not be selected.
    let weights = vec![1000_000_000_000_000.0, 1.0, 1.0, 1.0];
    let selected = flatten_and_sort(&pairs_proportional(rng, 10, weights));
    let inliers: Vec<_> = selected.iter().filter(|&idx| *idx != 0).collect();
    assert!(inliers.is_empty());
}

#[test]
fn propotional_negative() {
    let rng = &mut rand::rng();
    // One score is extremely negative and another is NAN.
    // Proportional should ignore them.
    let mut weights = vec![1.0; 12];
    weights[5] = -100.0;
    weights[6] = f64::NAN;
    let selected = flatten_and_sort(&pairs_proportional(rng, 5, weights));
    assert_eq!(selected, [0, 1, 2, 3, 4, 7, 8, 9, 10, 11]);
}

#[test]
fn normalized() {
    let rng = &mut rand::rng();
    // Normalize can deal with negative scores, it does not care about their absolute values.
    let weights = vec![-20.0, -12.0, -11.0, -10.5, -10.0, -9.5, -9.0, -8.0, 0.0];
    let mean_idx: usize = 4;
    let max_idx: usize = 8;
    let cutoff = -0.01;
    let weights = normalized_weights(cutoff, weights);
    let pairs = pairs_from_weights(rng, 2, &weights);
    let selected = flatten_and_sort(&pairs);
    // Only scores greater than the mean should have been selected.
    assert!(selected.iter().all(|&x| x >= mean_idx));
    // The sample should contain the highest score, but not be dominated by it.
    assert!(selected.contains(&max_idx));
    assert!(!selected.iter().all(|&x| x == max_idx));
}

#[test]
fn ranked_linear() {
    let rng = &mut rand::rng();
    // Index 0 is an outlier.
    // Ranking the scores should prevent the outlier from dominating.
    let weights = vec![1000_000_000_000_000.0, 1.0, 1.0, 1.0];

    // No selection pressure, should select all four scores.
    let weights = ranked_linear_weights(0.0, weights);
    let pairs = pairs_from_weights(rng, 2, &weights);
    let selected = flatten_and_sort(&pairs);
    assert_eq!(selected, vec![0, 1, 2, 3]);
}

/// Finds those off-by-one errors.
#[test]
fn ranked_linear_single() {
    let rng = &mut rand::rng();
    let weights = vec![4.0];
    let weights = ranked_linear_weights(0.5, weights);
    let pairs = pairs_from_weights(rng, 1, &weights);
    let selected = flatten_and_sort(&pairs);
    assert_eq!(selected, vec![0, 0]);
}

#[test]
fn ranked_linear_outlier() {
    let rng = &mut rand::rng();
    // Index 0 is an outlier.
    // Ranking the scores should prevent the outlier from dominating.
    let mut weights = vec![1000_000_000_000_000.0];
    weights.append(&mut vec![1.0; 1000]);
    // With selection pressure, the outlier still should not dominate the sampling.
    let weights = ranked_linear_weights(1.0, weights);
    let pairs = pairs_from_weights(rng, 10, &weights);
    let selected = flatten_and_sort(&pairs);
    let inliers: Vec<_> = selected.iter().filter(|&idx| *idx != 0).collect();
    assert!(!inliers.is_empty());
}

#[test]
fn ranked_exponential() {
    let rng = &mut rand::rng();
    let test_cases = [
        (1, 1, 2, 99), // Test selecting with one single weight does not crash.
        (3, 1, 4, 1),
        (100, 10, 100, 5),
        (1000, 10, 100, 5),
        (10_000, 100, 10_000, 20),
        (10_000, 1000, 10_000, 50),
    ];
    for (num, median, sample, tolerance) in test_cases {
        let weights: Vec<f64> = (0..num).map(|x| x as f64).collect();
        assert_eq!(sample, (sample / 2) * 2); // Sample count needs to be even for this to work.
        let weights = ranked_exponential_weights(median, weights);
        let pairs = pairs_from_weights(rng, sample / 2, &weights);
        let selected = flatten_and_sort(&pairs);
        // Count how many elements are from the top ranked individuals.
        let top_count_actual = selected.iter().filter(|&&idx| idx >= (num - median)).count();
        let top_count_desired = sample / 2;
        assert!((top_count_actual as i64 - top_count_desired as i64).abs() <= tolerance);
        assert!(top_count_actual > 0);
    }
}

/// Check that this avoids mating individuals with themselves.
#[test]
fn pairs() {
    let rng = &mut rand::rng();
    // N is the population size.
    // P is the number of mating pairs.
    // R is the percent of the pairs that are duplicates.
    for (n, max_r) in [
        (2, 5.0),
        (3, 4.0),
        (4, 3.0),
        (5, 3.0),
        (10, 3.0),
        (20, 2.0),
        (100, 1.0),
        //
    ] {
        let p = 10 * n;
        let indices = Random.pairs(rng, p, to_bits(vec![1.0; n]));
        let num_repeats = indices.iter().filter(|(a, b)| a == b).count();
        let percent_repeats = 100.0 * num_repeats as f64 / indices.len() as f64;

        println!("Population Size = {n}, Mating Pairs = {p}, Repeats = {percent_repeats:.2} %");
        assert!(percent_repeats <= max_r);
    }
}

fn foobar<T: MateSelection>(select: &T) {
    let _ = select.sample_weight(vec![]);
}

/// Example of the trait used as an argument.
#[test]
fn argument() {
    if rand::random::<bool>() {
        foobar(&Random);
    } else {
        foobar(&Proportional);
    }
}
