//! A solver library for a five-letter word-guessing game.
//!
//! The library computes per-letter feedback for a guess against an answer,
//! filters a frequency-weighted candidate pool by that feedback, and drives
//! guessing strategies (frequency-greedy and entropy-maximising) through a
//! bounded game loop.  Dictionary text handling (parsing, rescaling and
//! formatting of the word-frequency list) lives in its own modules, so that
//! the surrounding binary only performs file input and output.

pub mod algorithms;
pub mod corpus;
pub mod dict;
pub mod game;
pub mod pool;
pub mod tiles;

pub use algorithms::{Entropy, Naive, Repeater};
pub use game::{Guess, GuessView, Solver, Wordle};
pub use pool::{Candidate, Pool};
pub use tiles::Tiles;
