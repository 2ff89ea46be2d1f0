//! Rating records and their two scales.

use vstd::prelude::*;
use crate::fixed::arith::{ONE, LIMIT, saturate, toward_zero, narrow, wide_product, wide_quotient,
    lemma_toward_zero_bounds, lemma_toward_zero_monotone};
use crate::fixed::sqrt::{hypot_of, fx_hypot};
use crate::glicko2::constants::{RATIO, ROUND_TRIP_SLACK};
use crate::glicko2::tuning::Tuning;

verus! {

/// A rating (`mu`), its deviation (`phi`) and its volatility (`sigma`), on the
/// public scale or, when `is_scaled` is set, on the internal one.
#[derive(Debug, Copy, Clone)]
pub struct Rating<'a> {
    pub mu: i64,
    pub phi: i64,
    pub sigma: i64,
    pub is_scaled: bool,
    pub tuning: &'a Tuning,
}

/// A rating as mathematical integers.
pub struct RatingModel {
    pub mu: int,
    pub phi: int,
    pub sigma: int,
    pub is_scaled: bool,
    pub tuning: Tuning,
}

impl RatingModel {
    /// The rating on the internal scale: centred on the default rating and
    /// divided by `RATIO`. A rating already there is left as it is.
    pub open spec fn scaled_down(self) -> RatingModel {
        if self.is_scaled {
            self
        } else {
            RatingModel {
                mu: toward_zero((self.mu - self.tuning.mu) * ONE, RATIO as int),
                phi: toward_zero(self.phi * ONE, RATIO as int),
                is_scaled: true,
                ..self
            }
        }
    }

    /// The rating on the public scale. A rating already there is left as it is.
    pub open spec fn scaled_up(self) -> RatingModel {
        if self.is_scaled {
            RatingModel {
                mu: saturate(toward_zero(self.mu * RATIO, ONE as int) + self.tuning.mu),
                phi: saturate(toward_zero(self.phi * RATIO, ONE as int)),
                is_scaled: false,
                ..self
            }
        } else {
            self
        }
    }

    /// The rating after a period without games: on the internal scale the
    /// deviation becomes `sqrt(phi^2 + sigma^2)`; the result is on the public scale.
    pub open spec fn decayed(self) -> RatingModel {
        let inner = self.scaled_down();
        RatingModel { phi: saturate(hypot_of(inner.phi, inner.sigma)), ..inner }.scaled_up()
    }

    /// Deviation and volatility are positive, every field is a fixed-point
    /// number, and the tuning is well formed.
    pub open spec fn wf(self) -> bool {
        &&& 0 < self.phi <= LIMIT
        &&& 0 < self.sigma <= LIMIT
        &&& -LIMIT - 1 <= self.mu <= LIMIT
        &&& self.tuning.wf()
    }
}

impl<'a> View for Rating<'a> {
    type V = RatingModel;

    open spec fn view(&self) -> RatingModel {
        RatingModel {
            mu: self.mu as int,
            phi: self.phi as int,
            sigma: self.sigma as int,
            is_scaled: self.is_scaled,
            tuning: *self.tuning,
        }
    }
}

impl<'a> Rating<'a> {
    /// Deviation and volatility are positive and the tuning is well formed.
    pub open spec fn wf(&self) -> bool {
        self@.wf()
    }

    /// A rating with the defaults of `tuning`, on the public scale.
    pub fn new(tuning: &'a Tuning) -> (r: Rating<'a>)
        ensures
            r.mu == tuning.mu,
            r.phi == tuning.phi,
            r.sigma == tuning.sigma,
            !r.is_scaled,
            r.tuning == tuning,
            tuning.wf() ==> r.wf(),
    {
        Rating { mu: tuning.mu, phi: tuning.phi, sigma: tuning.sigma, is_scaled: false, tuning }
    }

    /// Whether the rating is well formed.
    pub fn is_valid(&self) -> (ok: bool)
        ensures
            ok == self.wf(),
    {
        self.phi > 0 && self.sigma > 0 && self.tuning.is_valid()
    }

    /// Brings the rating to the internal scale.
    pub fn scale_down(&mut self)
        ensures
            final(self)@ == old(self)@.scaled_down(),
            final(self).tuning == old(self).tuning,
            final(self).is_scaled,
            final(self).sigma == old(self).sigma,
            old(self).is_scaled ==> *final(self) == *old(self),
            old(self).wf() && old(self).phi >= ROUND_TRIP_SLACK ==> final(self).wf(),
    {
        if !self.is_scaled {
            let offset: i128 = (self.mu as i128) - (self.tuning.mu as i128);
            proof {
                lemma_scaled_down_fits(offset as int);
                lemma_scaled_down_fits(self.phi as int);
                if self.phi >= ROUND_TRIP_SLACK {
                    assert(self.phi * ONE >= RATIO) by (nonlinear_arith)
                        requires
                            self.phi >= 174,
                            ONE == 1_000_000_000_000,
                            RATIO == 173_717_800_000_000,
                    ;
                    lemma_toward_zero_monotone(
                        RATIO as int,
                        self.phi * ONE,
                        RATIO as int,
                    );
                }
            }
            let mu: i128 = wide_quotient(offset * (ONE as i128), RATIO as i128);
            let phi: i128 = wide_quotient(wide_product(self.phi, ONE), RATIO as i128);
            self.mu = mu as i64;
            self.phi = phi as i64;
            self.is_scaled = true;
        }
    }

    /// Brings the rating to the public scale.
    pub fn scale_up(&mut self)
        ensures
            final(self)@ == old(self)@.scaled_up(),
            final(self).tuning == old(self).tuning,
            !final(self).is_scaled,
            final(self).sigma == old(self).sigma,
            !old(self).is_scaled ==> *final(self) == *old(self),
            old(self).wf() ==> final(self).wf(),
    {
        if self.is_scaled {
            let mu: i128 = wide_quotient(wide_product(self.mu, RATIO), ONE as i128);
            let phi: i128 = wide_quotient(wide_product(self.phi, RATIO), ONE as i128);
            proof {
                lemma_toward_zero_bounds(self.mu * RATIO, ONE as int);
                if self.phi > 0 {
                    lemma_scaled_up_positive(self.phi as int);
                }
            }
            self.mu = narrow(mu + (self.tuning.mu as i128));
            self.phi = narrow(phi);
            self.is_scaled = false;
        }
    }

    /// Decays the rating of a competitor who did not play during a period:
    /// the deviation grows by the volatility, the rating itself stays.
    pub fn decay(&mut self)
        requires
            old(self).wf(),
        ensures
            final(self)@ == old(self)@.decayed(),
            final(self).tuning == old(self).tuning,
            !final(self).is_scaled,
            final(self).sigma == old(self).sigma,
            final(self).wf(),
    {
        self.scale_down();
        proof {
            lemma_scaled_down_fits(old(self).phi as int);
        }
        self.phi = fx_hypot(self.phi, self.sigma);
        self.scale_up();
    }
}

/// A positive deviation stays positive when it is brought to the public scale.
pub proof fn lemma_scaled_up_positive(phi: int)
    requires
        0 < phi,
    ensures
        0 < saturate(toward_zero(phi * RATIO, ONE as int)),
{
    assert(phi * RATIO >= phi * ONE) by (nonlinear_arith)
        requires
            phi > 0,
            RATIO >= ONE,
    ;
    lemma_toward_zero_monotone(phi * ONE, phi * RATIO, ONE as int);
    vstd::arithmetic::div_mod::lemma_div_multiples_vanish(phi, ONE as int);
    assert(phi * ONE >= 0) by (nonlinear_arith)
        requires
            phi > 0,
            ONE > 0,
    ;
}

/// A 65-bit value divided by `RATIO` is a fixed-point number of the same sign.
pub proof fn lemma_scaled_down_fits(x: int)
    requires
        -0x1_0000_0000_0000_0000 <= x <= 0x1_0000_0000_0000_0000,
    ensures
        -LIMIT <= toward_zero(x * ONE, RATIO as int) <= LIMIT,
        x >= 0 ==> toward_zero(x * ONE, RATIO as int) >= 0,
        x <= 0 ==> toward_zero(x * ONE, RATIO as int) <= 0,
        -0x1_0000_0000_0000_0000 * ONE <= x * ONE <= 0x1_0000_0000_0000_0000 * ONE,
{
    assert(-0x1_0000_0000_0000_0000 * ONE <= x * ONE <= 0x1_0000_0000_0000_0000 * ONE)
        by (nonlinear_arith)
        requires
            -0x1_0000_0000_0000_0000 <= x <= 0x1_0000_0000_0000_0000,
            ONE > 0,
    ;
    lemma_toward_zero_bounds(x * ONE, RATIO as int);
    lemma_toward_zero_monotone(
        x * ONE,
        0x1_0000_0000_0000_0000 * ONE,
        RATIO as int,
    );
    lemma_toward_zero_monotone(
        -0x1_0000_0000_0000_0000 * ONE,
        x * ONE,
        RATIO as int,
    );
    assert(x >= 0 ==> x * ONE >= 0) by (nonlinear_arith);
    assert(x <= 0 ==> x * ONE <= 0) by (nonlinear_arith);
}

/// Going to the internal scale and back moves a value toward zero by at most
/// `ROUND_TRIP_SLACK` units.
pub proof fn lemma_round_trip_value(x: int)
    ensures
        ({
            let back = toward_zero(toward_zero(x * ONE, RATIO as int) * RATIO, ONE as int);
            &&& x >= 0 ==> x - ROUND_TRIP_SLACK <= back <= x
            &&& x <= 0 ==> x <= back <= x + ROUND_TRIP_SLACK
        }),
{
    let m: int = if x >= 0 { x } else { -x };
    let y = toward_zero(m * ONE, RATIO as int);
    let z = toward_zero(y * RATIO, ONE as int);
    assert(m * ONE >= 0) by (nonlinear_arith)
        requires
            m >= 0,
    ;
    lemma_toward_zero_bounds(m * ONE, RATIO as int);
    assert(y * RATIO >= 0) by (nonlinear_arith)
        requires
            y >= 0,
    ;
    lemma_toward_zero_bounds(y * RATIO, ONE as int);
    assert(m - ROUND_TRIP_SLACK <= z <= m) by (nonlinear_arith)
        requires
            y * RATIO <= m * ONE < (y + 1) * RATIO,
            z * ONE <= y * RATIO < (z + 1) * ONE,
            ONE == 1_000_000_000_000,
            RATIO == 173_717_800_000_000,
            ROUND_TRIP_SLACK == 174,
    ;
    if x < 0 {
        assert((-x) * ONE == -(x * ONE)) by (nonlinear_arith);
        lemma_toward_zero_bounds(x * ONE, RATIO as int);
        assert((-y) * RATIO == -(y * RATIO)) by (nonlinear_arith);
        lemma_toward_zero_bounds(y * RATIO, ONE as int);
    }
}

/// Bringing a rating to the internal scale twice is the same as once.
pub proof fn lemma_scale_down_idempotent(r: RatingModel)
    ensures
        r.scaled_down().scaled_down() == r.scaled_down(),
{
}

/// Bringing a rating to the public scale twice is the same as once.
pub proof fn lemma_scale_up_idempotent(r: RatingModel)
    ensures
        r.scaled_up().scaled_up() == r.scaled_up(),
{
}

/// A rating on the public scale that goes to the internal scale and back keeps
/// its volatility, its scale and its tuning, and its rating and deviation move
/// by at most `ROUND_TRIP_SLACK` units, which is under 10^-9.
pub proof fn lemma_scale_round_trip(r: RatingModel)
    requires
        !r.is_scaled,
        -LIMIT - 1 <= r.mu <= LIMIT,
        -LIMIT - 1 <= r.phi <= LIMIT,
    ensures
        ({
            let back = r.scaled_down().scaled_up();
            &&& !back.is_scaled
            &&& back.sigma == r.sigma
            &&& back.tuning == r.tuning
            &&& -ROUND_TRIP_SLACK <= back.mu - r.mu <= ROUND_TRIP_SLACK
            &&& -ROUND_TRIP_SLACK <= back.phi - r.phi <= ROUND_TRIP_SLACK
            &&& ROUND_TRIP_SLACK < ONE / 1_000_000_000
        }),
{
    lemma_round_trip_value(r.mu - r.tuning.mu);
    lemma_round_trip_value(r.phi);
}

/// A rating on the public scale that decays keeps its volatility and its
/// tuning, keeps its rating up to the slack of a round trip, and does not
/// lose deviation beyond that slack.
pub proof fn lemma_decay_keeps_rating(r: RatingModel)
    requires
        !r.is_scaled,
        r.wf(),
    ensures
        ({
            let after = r.decayed();
            &&& !after.is_scaled
            &&& after.sigma == r.sigma
            &&& after.tuning == r.tuning
            &&& -ROUND_TRIP_SLACK <= after.mu - r.mu <= ROUND_TRIP_SLACK
            &&& after.phi >= r.phi - ROUND_TRIP_SLACK
        }),
{
    lemma_round_trip_value(r.mu - r.tuning.mu);
    lemma_round_trip_value(r.phi);
    let inner = r.scaled_down();
    lemma_scaled_down_fits(r.phi);
    let legs = (inner.phi * inner.phi + inner.sigma * inner.sigma) as nat;
    assert(inner.phi * inner.phi <= legs) by (nonlinear_arith)
        requires
            legs == inner.phi * inner.phi + inner.sigma * inner.sigma,
    ;
    assert(inner.phi * inner.phi >= 0) by (nonlinear_arith);
    crate::fixed::sqrt::lemma_floor_sqrt_of_square(inner.phi as nat);
    crate::fixed::sqrt::lemma_floor_sqrt_monotone((inner.phi * inner.phi) as nat, legs);
    let grown = saturate(hypot_of(inner.phi, inner.sigma));
    assert(grown >= inner.phi);
    assert(grown * RATIO >= inner.phi * RATIO) by (nonlinear_arith)
        requires
            grown >= inner.phi,
            RATIO > 0,
    ;
    lemma_toward_zero_monotone(inner.phi * RATIO, grown * RATIO, ONE as int);
}

} // verus!
