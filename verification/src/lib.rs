//! Exact outcome distributions for a cascading draw-and-trigger process
//! over a finite, depleting pool of typed items.
//!
//! Probabilities are kept as exact integer numerators over a common
//! denominator (a product of binomial coefficients), so every contract is
//! stated and proved in exact integer arithmetic.

pub mod combinatorics;
pub mod distribution;
pub mod sequential;
pub mod sampler;
pub mod laws;

pub use distribution::{how_many_hellraisers, DistError, Distribution};
pub use sampler::simulate_hellraiser_trigger;
pub use sequential::{chances_of_hit, HitChance};
