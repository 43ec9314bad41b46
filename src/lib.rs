//! Search for short sequences of equal-length words that, laid out in
//! parallel, cover every letter of the alphabet at every position.

pub mod coverage;
pub mod generator;
mod random;
pub mod counting;
pub mod soundness;
pub mod tracker;
