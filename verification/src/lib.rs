//! A round-robin tournament of noisy iterated two-player games, ranked by an
//! eigenvector-style power iteration over the pairwise score matrix.
//!
//! Probabilities and ranking weights are fixed-point integers (see
//! `game::PROB_SCALE` and `rank::WEIGHT_SCALE`), so every decision rule,
//! the round simulator, the tournament driver, the ranking iteration and the
//! final aggregation are verified; only the uniform random draws themselves
//! come from an outside source.

pub mod game;
pub mod rng;
pub mod strategy;
pub mod sim;
pub mod rank;
pub mod experiment;
