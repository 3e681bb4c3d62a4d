//! Monte-Carlo tree search in the PUCT style over a generic environment,
//! with the game of Hex as a worked-out environment.
//!
//! All numbers are fixed-point ([`value::Value`]), so every score and
//! backed-up value is an exact integer that the contracts can speak of. The
//! weights that sampling divides by their sum are taken at a finer scale
//! ([`share`]), so that a probability is less than a millionth away from
//! `N(s, a) ^ k / sum of N(s, b) ^ k` at a temperature `1 / k`.

pub mod env;
pub mod hex;
pub mod mcts;
pub mod share;
pub mod value;
