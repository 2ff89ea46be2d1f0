//! Glicko-2 skill ratings over decimal fixed-point numbers.
//!
//! A rating record holds a skill estimate, its deviation and a volatility.
//! After a rating period the record of a competitor is updated from the
//! outcomes of the games played and the ratings of the opponents.
//!
//! Every quantity is an `i64` counting units of 10^-12: `1_500_000_000_000_000`
//! is a rating of 1500. Products and quotients round toward zero and saturate
//! at the ends of the `i64` range, so every operation is total integer
//! arithmetic, and the contracts state each result exactly.
//!
//! - [`fixed`] holds the arithmetic: products, quotients, square roots, the
//!   exponential and the natural logarithm.
//! - [`glicko2`] holds the method: [`Tuning`], [`Rating`] and its two scales,
//!   the outcomes of games, the volatility solver and the update.

pub mod fixed;
pub mod glicko2;

pub use crate::glicko2::{algorithm, constants, game, rating::Rating, tuning::Tuning};
