//! Tuning parameters of the rating method.

use vstd::prelude::*;
use crate::glicko2::constants;

verus! {

/// The parameters ratings start from and the solver is constrained by.
///
/// - `mu`: default rating
/// - `phi`: default rating deviation
/// - `sigma`: default volatility
/// - `tau`: constraint on the change of volatility
#[derive(Debug, Clone, Copy)]
pub struct Tuning {
    pub mu: i64,
    pub phi: i64,
    pub sigma: i64,
    pub tau: i64,
}

impl Tuning {
    /// Deviation and volatility are positive, and the constraint squares to
    /// a positive fixed-point number.
    pub open spec fn wf(&self) -> bool {
        &&& self.phi > 0
        &&& self.sigma > 0
        &&& self.tau >= constants::TAU_MIN
    }

    /// Custom tuning parameters.
    pub fn new(mu: i64, phi: i64, sigma: i64, tau: i64) -> (t: Self)
        ensures
            t.mu == mu,
            t.phi == phi,
            t.sigma == sigma,
            t.tau == tau,
    {
        Self { mu, phi, sigma, tau }
    }

    /// Whether the parameters are well formed.
    pub fn is_valid(&self) -> (ok: bool)
        ensures
            ok == self.wf(),
    {
        self.phi > 0 && self.sigma > 0 && self.tau >= constants::TAU_MIN
    }
}

impl Default for Tuning {
    /// The parameters of the published method.
    fn default() -> (t: Self)
        ensures
            t.mu == constants::MU,
            t.phi == constants::PHI,
            t.sigma == constants::SIGMA,
            t.tau == constants::TAU,
            t.wf(),
    {
        Self { mu: constants::MU, phi: constants::PHI, sigma: constants::SIGMA, tau: constants::TAU }
    }
}

} // verus!
