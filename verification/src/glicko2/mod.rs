//! The Glicko-2 rating method: records, tuning, and the update itself.

pub mod algorithm;
pub mod constants;
pub mod error;
pub mod game;
pub mod rating;
pub mod solver;
pub mod tuning;
