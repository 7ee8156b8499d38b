//! Text-oriented numeric primitives: a multinomial naive-Bayes document
//! classifier with JSON persistence, a first-order character Markov chain,
//! a position-wise string difference counter, fixed-width tokenisation,
//! and per-element frequency counting.

pub mod bayes;
pub mod bignat;
pub mod levenshtein;
pub mod markov;
pub mod persist;
pub mod strutil;
pub mod types;
pub mod utils;
