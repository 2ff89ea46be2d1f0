//! Decimal fixed-point arithmetic with twelve fractional digits.
//!
//! A fixed-point number is an `i64` that counts units of 10^-12. Results
//! are rounded toward zero, and results beyond the range saturate at
//! `LIMIT` or `-LIMIT`. Intermediate values are carried in 128 bits, the
//! exponential and the logarithm with eighteen fractional digits.

pub mod arith;
pub mod exp;
pub mod ln;
pub mod sqrt;
