//! Adversarial search strategies for a two-player, zero-sum,
//! perfect-information game: negamax, fail-soft alpha-beta and its
//! refinements, parallel decompositions of the root search, and an
//! anytime iterative-deepening driver publishing through a single-slot
//! move channel.

pub mod alphabeta;
pub mod channel;
pub mod configuration;
pub mod evil;
pub mod greedy;
pub mod minmax;
pub mod parallel;
