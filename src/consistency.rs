//! Revealed-preference consistency of observed choices.
pub mod deterministic;
pub mod stochastic;
