//! Mate-selection strategies for evolutionary algorithms.
//!
//! Given one fitness score per population member and a desired number of
//! mating pairs, the library converts the scores into sampling weights
//! according to a chosen strategy, draws indices according to those weights
//! with a low-variance stochastic-universal sampler, breaks up pairs of an
//! individual with itself, and returns the draws grouped into pairs.
//!
//! Scores and weights are IEEE-754 binary64 values, carried throughout as
//! their raw bit patterns (`u64`), so that every rule about them — which
//! scores are invalid, how scores are ordered and ranked, which weights are
//! zero — is stated and checked over plain integers. Callers convert with
//! `f64::to_bits` and `f64::from_bits`.

pub mod bits;
pub mod laws;
pub mod order;
pub mod reduce;
pub mod rng_ext;
pub mod select;
pub mod strategy;
pub mod sus;
