//! Guessing strategies: frequency-greedy, entropy-maximising, and a
//! degenerate fixed-word baseline.

pub mod entropy;
pub mod naive;
pub mod repeater;
pub mod score;

pub use entropy::Entropy;
pub use naive::Naive;
pub use repeater::Repeater;
