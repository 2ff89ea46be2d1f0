//! The constants of the method, as fixed-point numbers in units of 10^-12.

use vstd::prelude::*;

verus! {

/// Default rating: 1500.
pub const MU: i64 = 1_500_000_000_000_000;

/// Default rating deviation: 350.
pub const PHI: i64 = 350_000_000_000_000;

/// Default volatility: 0.006.
pub const SIGMA: i64 = 6_000_000_000;

/// Default constraint on the change of volatility: 1.3.
pub const TAU: i64 = 1_300_000_000_000;

/// Convergence tolerance of the volatility solver: 10^-7.
pub const EPSILON: i64 = 100_000;

/// How many public rating points make one unit of the internal scale: 173.7178.
pub const RATIO: i64 = 173_717_800_000_000;

/// Score of a win: 1.
pub const WIN: i64 = 1_000_000_000_000;

/// Score of a draw: 0.5.
pub const DRAW: i64 = 500_000_000_000;

/// Score of a loss: 0.
pub const LOSS: i64 = 0;

/// A third of pi squared: 3.289868133696.
pub const PI_SQUARED_THIRD: i64 = 3_289_868_133_696;

/// The least divisor of the accumulated improvement: 10^-4.
pub const VARIANCE_FLOOR: i64 = 100_000_000;

/// The smallest constraint whose square is a positive fixed-point number: 10^-6.
pub const TAU_MIN: i64 = 1_000_000;

/// How many steps each search of the volatility solver may take.
pub const MAX_ITERATIONS: u32 = 100;

/// How far a rating can move when it is brought to the internal scale and back.
pub const ROUND_TRIP_SLACK: i64 = 174;

} // verus!
