//! The rating update: impact and expectation of a game, the volatility
//! solver, and the update of one competitor over a rating period.

use vstd::prelude::*;
use crate::fixed::arith::{ONE, LIMIT, toward_zero, saturate, product, mul_of, div_of,
    narrow, fx_mul, fx_div, wide_product, wide_quotient, lemma_toward_zero_bounds,
    lemma_toward_zero_monotone};
use crate::fixed::exp::{growth, exp_nonneg, EXP_FLOOR, lemma_growth_vanishes,
    lemma_growth_lower_bound, lemma_growth_at_zero, lemma_growth_monotone};
use crate::fixed::sqrt::{floor_sqrt, integer_sqrt, hypot_of, sqrt_of, fx_hypot};
use crate::glicko2::constants::{PI_SQUARED_THIRD, VARIANCE_FLOOR, TAU_MIN, EPSILON};
use crate::glicko2::error::RatingError;
use crate::glicko2::game::Status;
use crate::glicko2::rating::{Rating, RatingModel};
use crate::glicko2::solver::{Criterion, distance};

verus! {

/// The weight `1 / sqrt(1 + 3 (phi_a^2 + phi_b^2) / pi^2)` of a game between
/// two competitors with the given deviations. The sum of the squares is
/// divided by a third of pi squared, exactly and then rounded down.
pub open spec fn impact_of(phi_a: int, phi_b: int) -> int {
    let spread = phi_a * phi_a + phi_b * phi_b;
    let inner = ONE + spread / (PI_SQUARED_THIRD as int);
    (ONE * ONE) / (floor_sqrt((inner * ONE) as nat) as int)
}

/// The logistic function `1 / (1 + e^-z)`. Above zero it is taken as the
/// complement of its value at `-z`.
pub open spec fn logistic_of(z: int) -> int {
    if z < 0 {
        (ONE * ONE) / (ONE + growth((-z) as nat))
    } else {
        ONE - (ONE * ONE) / (ONE + growth(z as nat))
    }
}

/// The expected score `1 / (1 + e^(-impact (mu_a - mu_b)))` of the first
/// competitor against the second.
pub open spec fn expectation_of(mu_a: int, mu_b: int, impact: int) -> int {
    logistic_of(toward_zero(impact * (mu_a - mu_b), ONE as int))
}

/// The impact of a game lies above zero and is at most one, whatever the deviations.
pub proof fn lemma_impact_bounds(phi_a: int, phi_b: int)
    requires
        -LIMIT - 1 <= phi_a <= LIMIT,
        -LIMIT - 1 <= phi_b <= LIMIT,
    ensures
        0 < impact_of(phi_a, phi_b) <= ONE,
{
    let spread = phi_a * phi_a + phi_b * phi_b;
    assert(0 <= phi_a * phi_a <= 0x4000_0000_0000_0000_0000_0000_0000_0000) by (nonlinear_arith)
        requires
            -0x8000_0000_0000_0000 <= phi_a <= 0x7fff_ffff_ffff_ffff,
    ;
    assert(0 <= phi_b * phi_b <= 0x4000_0000_0000_0000_0000_0000_0000_0000) by (nonlinear_arith)
        requires
            -0x8000_0000_0000_0000 <= phi_b <= 0x7fff_ffff_ffff_ffff,
    ;
    let inner = ONE + spread / (PI_SQUARED_THIRD as int);
    let n = (inner * ONE) as nat;
    crate::fixed::sqrt::lemma_floor_sqrt_exists(n);
    let root = floor_sqrt(n);
    assert(ONE <= root < 0x1_0000_0000_0000_0000) by (nonlinear_arith)
        requires
            root * root <= n < (root + 1) * (root + 1),
            ONE * ONE <= n < 0x1_0000_0000_0000_0000_0000_0000_0000_0000,
            ONE == 1_000_000_000_000,
    ;
    vstd::arithmetic::div_mod::lemma_div_is_ordered_by_denominator(
        ONE * ONE,
        ONE as int,
        root as int,
    );
    vstd::arithmetic::div_mod::lemma_div_multiples_vanish(ONE as int, ONE as int);
    vstd::arithmetic::div_mod::lemma_div_is_ordered(root as int, ONE * ONE, root as int);
    vstd::arithmetic::div_mod::lemma_div_multiples_vanish(1, root as int);
}

/// The impact of a game does not grow when either deviation grows.
pub proof fn lemma_impact_decreasing(phi_a: int, phi_b: int, wider_a: int, wider_b: int)
    requires
        0 <= phi_a <= wider_a,
        0 <= phi_b <= wider_b,
    ensures
        impact_of(wider_a, wider_b) <= impact_of(phi_a, phi_b),
{
    let spread = phi_a * phi_a + phi_b * phi_b;
    let wider = wider_a * wider_a + wider_b * wider_b;
    assert(0 <= spread <= wider) by (nonlinear_arith)
        requires
            0 <= phi_a <= wider_a,
            0 <= phi_b <= wider_b,
            spread == phi_a * phi_a + phi_b * phi_b,
            wider == wider_a * wider_a + wider_b * wider_b,
    ;
    vstd::arithmetic::div_mod::lemma_div_is_ordered(spread, wider, PI_SQUARED_THIRD as int);
    vstd::arithmetic::div_mod::lemma_div_pos_is_pos(spread, PI_SQUARED_THIRD as int);
    let low = ((ONE + spread / (PI_SQUARED_THIRD as int)) * ONE) as nat;
    let high = ((ONE + wider / (PI_SQUARED_THIRD as int)) * ONE) as nat;
    crate::fixed::sqrt::lemma_floor_sqrt_of_square(ONE as nat);
    crate::fixed::sqrt::lemma_floor_sqrt_monotone((ONE * ONE) as nat, low);
    crate::fixed::sqrt::lemma_floor_sqrt_monotone(low, high);
    vstd::arithmetic::div_mod::lemma_div_is_ordered_by_denominator(
        ONE * ONE,
        floor_sqrt(low) as int,
        floor_sqrt(high) as int,
    );
}

/// The logistic function lies between zero and one.
pub proof fn lemma_logistic_bounds(z: int)
    ensures
        0 <= logistic_of(z) <= ONE,
        z <= EXP_FLOOR ==> logistic_of(z) == 0,
        z >= -EXP_FLOOR ==> logistic_of(z) == ONE,
{
    let y: nat = if z < 0 { (-z) as nat } else { z as nat };
    lemma_growth_lower_bound(y);
    let d = ONE + growth(y);
    vstd::arithmetic::div_mod::lemma_div_is_ordered_by_denominator(ONE * ONE, ONE as int, d);
    vstd::arithmetic::div_mod::lemma_div_multiples_vanish(ONE as int, ONE as int);
    vstd::arithmetic::div_mod::lemma_div_pos_is_pos(ONE * ONE, d);
    if y >= -EXP_FLOOR {
        lemma_growth_vanishes(y);
        vstd::arithmetic::div_mod::lemma_basic_div_specific_divisor(d);
    }
}

/// The logistic function grows with its argument.
pub proof fn lemma_logistic_monotone(z: int, w: int)
    requires
        z <= w,
    ensures
        logistic_of(z) <= logistic_of(w),
{
    let unit = ONE * ONE;
    if z >= 0 {
        lemma_growth_monotone(z as nat, w as nat);
        lemma_growth_lower_bound(z as nat);
        vstd::arithmetic::div_mod::lemma_div_is_ordered_by_denominator(
            unit,
            ONE + growth(z as nat),
            ONE + growth(w as nat),
        );
    } else if w < 0 {
        lemma_growth_monotone((-w) as nat, (-z) as nat);
        lemma_growth_lower_bound((-w) as nat);
        vstd::arithmetic::div_mod::lemma_div_is_ordered_by_denominator(
            unit,
            ONE + growth((-w) as nat),
            ONE + growth((-z) as nat),
        );
    } else {
        lemma_growth_lower_bound((-z) as nat);
        lemma_growth_lower_bound(w as nat);
        vstd::arithmetic::div_mod::lemma_div_is_ordered_by_denominator(
            unit,
            ONE + ONE,
            ONE + growth((-z) as nat),
        );
        vstd::arithmetic::div_mod::lemma_div_is_ordered_by_denominator(
            unit,
            ONE + ONE,
            ONE + growth(w as nat),
        );
        assert(unit / (ONE + ONE) == 500_000_000_000);
    }
}

/// Under an impact that is not negative, a competitor with a higher rating
/// is expected to score at least as much against the same opponent.
pub proof fn lemma_expectation_monotone(mu_a: int, higher: int, mu_b: int, impact: int)
    requires
        mu_a <= higher,
        impact >= 0,
    ensures
        expectation_of(mu_a, mu_b, impact) <= expectation_of(higher, mu_b, impact),
{
    assert(impact * (mu_a - mu_b) <= impact * (higher - mu_b)) by (nonlinear_arith)
        requires
            mu_a <= higher,
            impact >= 0,
    ;
    lemma_toward_zero_monotone(impact * (mu_a - mu_b), impact * (higher - mu_b), ONE as int);
    lemma_logistic_monotone(
        toward_zero(impact * (mu_a - mu_b), ONE as int),
        toward_zero(impact * (higher - mu_b), ONE as int),
    );
}

/// The expected scores of two competitors against each other add up to one,
/// for the same impact.
pub proof fn lemma_expectation_symmetry(mu_a: int, mu_b: int, impact: int)
    ensures
        expectation_of(mu_a, mu_b, impact) + expectation_of(mu_b, mu_a, impact) == ONE,
{
    let n = impact * (mu_a - mu_b);
    assert(impact * (mu_b - mu_a) == -n) by (nonlinear_arith)
        requires
            n == impact * (mu_a - mu_b),
    ;
    lemma_toward_zero_bounds(n, ONE as int);
    let z = toward_zero(n, ONE as int);
    assert(toward_zero(-n, ONE as int) == -z);
    assert(expectation_of(mu_a, mu_b, impact) == logistic_of(z));
    assert(expectation_of(mu_b, mu_a, impact) == logistic_of(-z));
    lemma_logistic_symmetry(z);
}

/// The logistic function at `z` and at `-z` adds up to one.
pub proof fn lemma_logistic_symmetry(z: int)
    ensures
        logistic_of(z) + logistic_of(-z) == ONE,
{
    if z == 0 {
        lemma_growth_at_zero();
        assert((ONE * ONE) / (ONE + ONE) == 500_000_000_000);
    } else if z < 0 {
        assert(logistic_of(-z) == ONE - (ONE * ONE) / (ONE + growth((-z) as nat)));
    } else {
        assert(logistic_of(-z) == (ONE * ONE) / (ONE + growth(z as nat)));
    }
}

/// The logistic function of a wide fixed-point number.
pub fn logistic(z: i128) -> (e: i64)
    requires
        -0x7fff_ffff_ffff_ffff_ffff_ffff_ffff_ffff <= z,
    ensures
        e == logistic_of(z as int),
        0 <= e <= ONE,
{
    proof {
        lemma_logistic_bounds(z as int);
    }
    let y: i128 = if z < 0 { -z } else { z };
    let tail: i64 = if y >= -(EXP_FLOOR as i128) {
        proof {
            lemma_growth_vanishes(y as nat);
            vstd::arithmetic::div_mod::lemma_basic_div_specific_divisor(ONE + growth(y as nat));
        }
        0
    } else {
        let up: u128 = exp_nonneg(y as u64);
        let unit: u128 = (ONE as u128) * (ONE as u128);
        proof {
            vstd::arithmetic::div_mod::lemma_div_is_ordered_by_denominator(
                unit as int,
                ONE as int,
                ONE + up,
            );
            vstd::arithmetic::div_mod::lemma_div_multiples_vanish(ONE as int, ONE as int);
        }
        (unit / ((ONE as u128) + up)) as i64
    };
    if z < 0 {
        tail
    } else {
        ONE - tail
    }
}

/// How much a game counts, given the deviations of both competitors: the
/// larger they are, the less the game says.
///
/// Both ratings must be on the internal scale; otherwise the result is
/// `PreconditionViolation`.
pub fn reduce_impact(rating: &Rating, other_rating: &Rating) -> (res: Result<i64, RatingError>)
    ensures
        res is Ok <==> rating.is_scaled && other_rating.is_scaled,
        res matches Ok(g) ==> g == impact_of(rating.phi as int, other_rating.phi as int) && 0 < g
            <= ONE,
        res matches Err(e) ==> e == RatingError::PreconditionViolation,
{
    if !rating.is_scaled || !other_rating.is_scaled {
        return Err(RatingError::PreconditionViolation);
    }
    Ok(impact(rating.phi, other_rating.phi))
}

/// The impact of a game between competitors with the given deviations.
pub fn impact(phi_a: i64, phi_b: i64) -> (g: i64)
    ensures
        g == impact_of(phi_a as int, phi_b as int),
        0 < g <= ONE,
{
    proof {
        lemma_impact_bounds(phi_a as int, phi_b as int);
    }
    let aa: i128 = wide_product(phi_a, phi_a);
    let bb: i128 = wide_product(phi_b, phi_b);
    assert(phi_a * phi_a >= 0) by (nonlinear_arith);
    assert(phi_b * phi_b >= 0) by (nonlinear_arith);
    let spread: u128 = (aa as u128) + (bb as u128);
    let inner: u128 = (ONE as u128) + spread / (PI_SQUARED_THIRD as u128);
    let root: u128 = integer_sqrt(inner * (ONE as u128));
    assert(root >= ONE) by (nonlinear_arith)
        requires
            inner * ONE < (root + 1) * (root + 1),
            inner >= ONE,
            ONE == 1_000_000_000_000,
    ;
    ((ONE as u128) * (ONE as u128) / root) as i64
}

/// The score the first competitor is expected to make against the second,
/// for a game of the given impact.
///
/// Both ratings must be on the internal scale; otherwise the result is
/// `PreconditionViolation`.
pub fn expect_score(rating: &Rating, other_rating: &Rating, impact: i64) -> (res: Result<
    i64,
    RatingError,
>)
    ensures
        res is Ok <==> rating.is_scaled && other_rating.is_scaled,
        res matches Ok(e) ==> e == expectation_of(
            rating.mu as int,
            other_rating.mu as int,
            impact as int,
        ) && 0 <= e <= ONE,
        res matches Err(e) ==> e == RatingError::PreconditionViolation,
{
    if !rating.is_scaled || !other_rating.is_scaled {
        return Err(RatingError::PreconditionViolation);
    }
    Ok(expectation(rating.mu, other_rating.mu, impact))
}

/// The expected score of a competitor rated `mu_a` against one rated `mu_b`.
pub fn expectation(mu_a: i64, mu_b: i64, impact: i64) -> (e: i64)
    ensures
        e == expectation_of(mu_a as int, mu_b as int, impact as int),
        0 <= e <= ONE,
{
    let gap: i128 = (mu_a as i128) - (mu_b as i128);
    assert(-0x7fff_ffff_ffff_ffff_ffff_ffff_ffff_ffff <= impact * gap
        <= 0x7fff_ffff_ffff_ffff_ffff_ffff_ffff_ffff) by (nonlinear_arith)
        requires
            -0x8000_0000_0000_0000 <= impact <= 0x7fff_ffff_ffff_ffff,
            -0xffff_ffff_ffff_ffff <= gap <= 0xffff_ffff_ffff_ffff,
    ;
    let z: i128 = wide_quotient((impact as i128) * gap, ONE as i128);
    proof {
        lemma_toward_zero_bounds(impact * gap, ONE as int);
    }
    logistic(z)
}

/// The new volatility of a competitor with deviation `phi` and volatility
/// `sigma`, under the constraint `tau`, after a period with the given
/// estimated improvement and variance; `None` where the search for it does
/// not converge on a positive value.
pub open spec fn volatility_of(phi: int, sigma: int, tau: int, difference: int, variance: int) -> Option<
    int,
> {
    Criterion::of(phi, sigma, tau, difference, variance).root_volatility()
}

/// Determines the new volatility of `rating`, which is on the internal
/// scale, from the estimated improvement and the estimated variance of a
/// rating period.
///
/// The result is `NumericNonConvergence` where the bracket does not close
/// within the step budget, or closes on a volatility that rounds to zero.
pub fn determine_sigma(rating: &Rating, difference: &i64, variance: &i64) -> (res: Result<
    i64,
    RatingError,
>)
    requires
        rating.sigma > 0,
        rating.tuning.tau >= TAU_MIN,
        *variance > 0,
    ensures
        res matches Ok(s) ==> 0 < s <= LIMIT && volatility_of(
            rating.phi as int,
            rating.sigma as int,
            rating.tuning.tau as int,
            *difference as int,
            *variance as int,
        ) == Some(s as int),
        res matches Err(e) ==> e == RatingError::NumericNonConvergence && volatility_of(
            rating.phi as int,
            rating.sigma as int,
            rating.tuning.tau as int,
            *difference as int,
            *variance as int,
        ) is None,
        res matches Ok(s) ==> Criterion::of(
            rating.phi as int,
            rating.sigma as int,
            rating.tuning.tau as int,
            *difference as int,
            *variance as int,
        ).bracket() matches Some(ends) && distance(ends.0, ends.1) <= EPSILON && s == crate::fixed::exp::exp_of(
            toward_zero(ends.0, 2),
        ),
{
    let criterion = Criterion::new(rating.phi, rating.sigma, rating.tuning.tau, *difference, *variance);
    match criterion.solve() {
        Some(s) => Ok(s),
        None => Err(RatingError::NumericNonConvergence),
    }
}

/// The impact of a game of `subject`, which is on the internal scale,
/// against `opponent`.
pub open spec fn game_impact(subject: RatingModel, opponent: RatingModel) -> int {
    impact_of(subject.phi, opponent.scaled_down().phi)
}

/// The score that `subject`, which is on the internal scale, is expected
/// to make against `opponent`.
pub open spec fn game_expectation(subject: RatingModel, opponent: RatingModel) -> int {
    expectation_of(subject.mu, opponent.scaled_down().mu, game_impact(subject, opponent))
}

/// What one game adds to the inverse of the estimated variance:
/// `g^2 E (1 - E)`.
pub open spec fn game_weight(subject: RatingModel, opponent: RatingModel) -> int {
    let g = game_impact(subject, opponent);
    let e = game_expectation(subject, opponent);
    (product(g, g) * e * (ONE - e)) / (ONE * ONE)
}

/// What one game adds to the estimated improvement: `g (s - E)` for the score `s`.
pub open spec fn game_surprise(subject: RatingModel, opponent: RatingModel, outcome: Status) -> int {
    product(game_impact(subject, opponent), outcome.score() - game_expectation(subject, opponent))
}

/// The inverse of the estimated variance over the games of a period.
pub open spec fn period_weight(subject: RatingModel, games: Seq<(Status, RatingModel)>) -> int
    decreases games.len(),
{
    if games.len() == 0 {
        0
    } else {
        period_weight(subject, games.drop_last()) + game_weight(subject, games.last().1)
    }
}

/// The sum of `g (s - E)` over the games of a period.
pub open spec fn period_surprise(subject: RatingModel, games: Seq<(Status, RatingModel)>) -> int
    decreases games.len(),
{
    if games.len() == 0 {
        0
    } else {
        period_surprise(subject, games.drop_last()) + game_surprise(
            subject,
            games.last().1,
            games.last().0,
        )
    }
}

/// The games of a period with each opponent as mathematical integers.
pub open spec fn games_of(outcomes: Seq<(Status, &Rating)>) -> Seq<(Status, RatingModel)> {
    outcomes.map_values(|g: (Status, &Rating)| (g.0, g.1@))
}

/// The estimated improvement: the sum of `g (s - E)` divided by the inverse
/// of the variance, which counts as at least `VARIANCE_FLOOR`.
pub open spec fn difference_of(weight: int, surprise: int) -> int {
    div_of(
        surprise,
        if weight > VARIANCE_FLOOR {
            weight
        } else {
            VARIANCE_FLOOR as int
        },
    )
}

/// The estimated variance: the reciprocal of its inverse, and the largest
/// fixed-point number where the inverse is zero.
pub open spec fn variance_of(weight: int) -> int {
    if weight == 0 {
        LIMIT as int
    } else {
        div_of(ONE as int, weight)
    }
}

/// The new deviation `1 / sqrt(1 / s^2 + w)`, computed as
/// `s / sqrt(1 + s^2 w)`, from the deviation `s` before the period, grown
/// by the new volatility, and the inverse `w` of the estimated variance.
pub open spec fn deviation_of(phi_star: int, weight: int) -> int {
    div_of(phi_star, sqrt_of(ONE + mul_of(mul_of(phi_star, phi_star), weight)))
}

/// The rating `subject` has after a period with the given games, on the
/// public scale; `None` where the volatility solver does not converge.
///
/// With the inverse `w` of the estimated variance and the estimated
/// improvement `d`, both taken on the internal scale, the new volatility is
/// the root found by the solver, the new deviation is derived from
/// `sqrt(phi^2 + sigma'^2)` and `w`, and the new rating is
/// `mu + phi'^2 (d w)`.
pub open spec fn rated(subject: RatingModel, games: Seq<(Status, RatingModel)>) -> Option<
    RatingModel,
> {
    let inner = subject.scaled_down();
    let weight = saturate(period_weight(inner, games));
    let surprise = saturate(period_surprise(inner, games));
    let difference = difference_of(weight, surprise);
    match volatility_of(inner.phi, inner.sigma, inner.tuning.tau as int, difference, variance_of(weight)) {
        None => None,
        Some(sigma) => {
            let phi = deviation_of(saturate(hypot_of(inner.phi, sigma)), weight);
            let mu = saturate(inner.mu + mul_of(mul_of(phi, phi), mul_of(difference, weight)));
            Some(RatingModel { mu, phi, sigma, ..inner }.scaled_up())
        },
    }
}

/// After a period without games the rating itself stays and only the
/// deviation grows, by the volatility that the solver returns for no
/// improvement under the largest variance.
pub proof fn lemma_rated_without_games(subject: RatingModel)
    requires
        subject.wf(),
        -LIMIT <= subject.mu,
    ensures
        rated(subject, Seq::empty()) == ({
            let inner = subject.scaled_down();
            match volatility_of(inner.phi, inner.sigma, inner.tuning.tau as int, 0, LIMIT as int) {
                None => None,
                Some(sigma) => Some(
                    RatingModel {
                        phi: saturate(hypot_of(inner.phi, sigma)),
                        sigma,
                        ..inner
                    }.scaled_up(),
                ),
            }
        }),
{
    let inner = subject.scaled_down();
    if !subject.is_scaled {
        crate::glicko2::rating::lemma_scaled_down_fits(subject.mu - subject.tuning.mu);
    }
    let games = Seq::<(Status, RatingModel)>::empty();
    assert(period_weight(inner, games) == 0);
    assert(period_surprise(inner, games) == 0);
    assert(difference_of(0, 0) == 0);
    match volatility_of(inner.phi, inner.sigma, inner.tuning.tau as int, 0, LIMIT as int) {
        None => {},
        Some(sigma) => {
            let phi_star = saturate(hypot_of(inner.phi, sigma));
            assert(mul_of(phi_star, phi_star) * 0 == 0);
            assert(mul_of(mul_of(phi_star, phi_star), 0) == 0);
            crate::fixed::sqrt::lemma_floor_sqrt_of_square(ONE as nat);
            assert(sqrt_of(ONE + 0) == ONE);
            vstd::arithmetic::div_mod::lemma_div_multiples_vanish(phi_star, ONE as int);
            vstd::arithmetic::div_mod::lemma_div_multiples_vanish(-phi_star, ONE as int);
            assert(deviation_of(phi_star, 0) == phi_star);
            assert(mul_of(0, 0) == 0);
        },
    }
}

/// One game adds between zero and one to the inverse of the variance, and
/// moves the improvement by at most one.
pub proof fn lemma_game_bounds(subject: RatingModel, opponent: RatingModel, outcome: Status)
    requires
        -LIMIT - 1 <= subject.phi <= LIMIT,
        -LIMIT - 1 <= opponent.phi <= LIMIT,
        -LIMIT - 1 <= opponent.mu <= LIMIT,
    ensures
        0 <= game_weight(subject, opponent) <= ONE,
        -ONE <= game_surprise(subject, opponent, outcome) <= ONE,
        0 <= product(game_impact(subject, opponent), game_impact(subject, opponent)) <= ONE,
        0 <= product(game_impact(subject, opponent), game_impact(subject, opponent))
            * game_expectation(subject, opponent) * (ONE - game_expectation(subject, opponent))
            <= ONE * ONE * ONE,
{
    let low = opponent.scaled_down();
    if !opponent.is_scaled {
        crate::glicko2::rating::lemma_scaled_down_fits(opponent.phi);
    }
    lemma_impact_bounds(subject.phi, low.phi);
    let g = game_impact(subject, opponent);
    let e = game_expectation(subject, opponent);
    lemma_logistic_bounds(toward_zero(g * (subject.mu - low.mu), ONE as int));
    assert(0 <= g * g <= ONE * ONE) by (nonlinear_arith)
        requires
            0 < g <= ONE,
    ;
    lemma_toward_zero_bounds(g * g, ONE as int);
    lemma_toward_zero_monotone(g * g, ONE * ONE, ONE as int);
    let gg = product(g, g);
    assert(0 <= gg * e * (ONE - e) <= ONE * ONE * ONE) by (nonlinear_arith)
        requires
            0 <= gg <= ONE,
            0 <= e <= ONE,
    ;
    vstd::arithmetic::div_mod::lemma_div_is_ordered(
        gg * e * (ONE - e),
        ONE * ONE * ONE,
        ONE * ONE,
    );
    vstd::arithmetic::div_mod::lemma_div_pos_is_pos(gg * e * (ONE - e), ONE * ONE);
    let s = outcome.score() - e;
    assert(-(ONE * ONE) <= g * s <= ONE * ONE) by (nonlinear_arith)
        requires
            0 < g <= ONE,
            -ONE <= s <= ONE,
    ;
    lemma_toward_zero_monotone(g * s, ONE * ONE, ONE as int);
    lemma_toward_zero_monotone(-(ONE * ONE), g * s, ONE as int);
}

/// The estimated variance is positive.
pub proof fn lemma_variance_positive(weight: int)
    requires
        0 <= weight <= LIMIT,
    ensures
        0 < variance_of(weight) <= LIMIT,
{
    if weight > 0 {
        vstd::arithmetic::div_mod::lemma_div_is_ordered(weight, ONE * ONE, weight);
        vstd::arithmetic::div_mod::lemma_div_multiples_vanish(1, weight);
    }
}

/// The new deviation is positive where the deviation before it is.
pub proof fn lemma_deviation_positive(phi_star: int, weight: int)
    requires
        0 < phi_star <= LIMIT,
        0 <= weight <= LIMIT,
    ensures
        0 < deviation_of(phi_star, weight) <= LIMIT,
        0 <= mul_of(mul_of(phi_star, phi_star), weight) <= LIMIT,
        ONE <= sqrt_of(ONE + mul_of(mul_of(phi_star, phi_star), weight)) <= LIMIT,
{
    let square = phi_star * phi_star;
    assert(0 < square) by (nonlinear_arith)
        requires
            0 < phi_star,
            square == phi_star * phi_star,
    ;
    lemma_toward_zero_bounds(square, ONE as int);
    let pp = mul_of(phi_star, phi_star);
    assert(0 <= pp && pp * ONE <= square);
    assert(pp * weight >= 0) by (nonlinear_arith)
        requires
            pp >= 0,
            weight >= 0,
    ;
    lemma_toward_zero_bounds(pp * weight, ONE as int);
    let t = mul_of(pp, weight);
    assert(0 <= t && t * ONE <= pp * weight);
    let n = ((ONE + t) * ONE) as nat;
    crate::fixed::sqrt::lemma_floor_sqrt_exists(n);
    let den = floor_sqrt(n);
    assert(den == sqrt_of(ONE + t));
    assert(ONE <= den <= LIMIT) by (nonlinear_arith)
        requires
            den * den <= n < (den + 1) * (den + 1),
            n == (ONE + t) * ONE,
            0 <= t <= LIMIT,
            ONE == 1_000_000_000_000,
            LIMIT == 0x7fff_ffff_ffff_ffff,
    ;
    // the denominator is at most `phi_star` as a fixed-point number
    assert(den <= phi_star * ONE) by {
        if phi_star < 1_000_000 {
            assert(square < ONE) by (nonlinear_arith)
                requires
                    0 < phi_star < 1_000_000,
                    square == phi_star * phi_star,
                    ONE == 1_000_000_000_000,
            ;
            assert(pp == 0);
            assert(pp * weight == 0) by (nonlinear_arith)
                requires
                    pp == 0,
            ;
            assert(t == 0);
            assert(den <= ONE) by (nonlinear_arith)
                requires
                    den * den <= n,
                    n == ONE * ONE,
                    den >= 0,
                    ONE == 1_000_000_000_000,
            ;
            assert(phi_star * ONE >= ONE) by (nonlinear_arith)
                requires
                    phi_star >= 1,
                    ONE > 0,
            ;
        } else {
            assert(den <= phi_star * ONE) by (nonlinear_arith)
                requires
                    den * den <= (ONE + t) * ONE,
                    t * ONE <= pp * weight,
                    pp * ONE <= phi_star * phi_star,
                    0 <= weight <= 0x7fff_ffff_ffff_ffff,
                    phi_star >= 1_000_000,
                    0 <= pp,
                    0 <= t,
                    0 <= den,
                    ONE == 1_000_000_000_000,
            ;
        }
    }
    assert(phi_star * ONE >= 0) by (nonlinear_arith)
        requires
            phi_star > 0,
            ONE > 0,
    ;
    vstd::arithmetic::div_mod::lemma_div_is_ordered(den as int, phi_star * ONE, den as int);
    vstd::arithmetic::div_mod::lemma_div_multiples_vanish(1, den as int);
}

/// Given a competitor and the outcomes of the games of a rating period,
/// each with the opponent's rating, updates the competitor's rating in
/// place. The updated rating is on the public scale; the opponents are read
/// only.
///
/// The result is `NumericNonConvergence`, and the rating is left as it was,
/// where the volatility solver does not converge.
pub fn rate(rating: &mut Rating, outcomes: Vec<(Status, &Rating)>) -> (res: Result<(), RatingError>)
    requires
        old(rating).wf(),
    ensures
        res is Ok ==> rated(old(rating)@, games_of(outcomes@)) == Some(final(rating)@),
        res is Ok ==> final(rating).wf() && !final(rating).is_scaled,
        res matches Err(e) ==> e == RatingError::NumericNonConvergence && rated(
            old(rating)@,
            games_of(outcomes@),
        ) is None && *final(rating) == *old(rating),
        final(rating).tuning == old(rating).tuning,
{
    let mut subject: Rating = *rating;
    subject.scale_down();
    proof {
        if !old(rating).is_scaled {
            crate::glicko2::rating::lemma_scaled_down_fits(old(rating).phi as int);
        }
    }
    let mut weight: i128 = 0;
    let mut surprise: i128 = 0;
    let mut i: usize = 0;
    while i < outcomes.len()
        invariant
            i <= outcomes.len(),
            weight == period_weight(subject@, games_of(outcomes@).take(i as int)),
            surprise == period_surprise(subject@, games_of(outcomes@).take(i as int)),
            0 <= weight <= i * ONE,
            -i * ONE <= surprise <= i * ONE,
        decreases outcomes.len() - i,
    {
        let outcome: Status = outcomes[i].0;
        let mut opponent: Rating = *outcomes[i].1;
        proof {
            lemma_game_bounds(subject@, opponent@, outcome);
            let games = games_of(outcomes@);
            assert(games.take(i + 1).drop_last() == games.take(i as int));
            assert(games.take(i + 1).last() == (outcome, opponent@));
        }
        opponent.scale_down();
        let g: i64 = impact(subject.phi, opponent.phi);
        let e: i64 = expectation(subject.mu, opponent.mu, g);
        let gg: i128 = wide_quotient(wide_product(g, g), ONE as i128);
        let unit: i128 = (ONE as i128) * (ONE as i128);
        assert(0 <= gg * e <= ONE * ONE && 0 <= gg * e * (ONE - e) <= ONE * ONE * ONE)
            by (nonlinear_arith)
            requires
                0 <= gg <= ONE,
                0 <= e <= ONE,
        ;
        weight = weight + gg * (e as i128) * ((ONE - e) as i128) / unit;
        surprise = surprise + wide_quotient(wide_product(g, outcome.val() - e), ONE as i128);
        i = i + 1;
    }
    assert(games_of(outcomes@).take(i as int) == games_of(outcomes@));
    let weight: i64 = narrow(weight);
    let surprise: i64 = narrow(surprise);
    let floor: i64 = if weight > VARIANCE_FLOOR {
        weight
    } else {
        VARIANCE_FLOOR
    };
    let difference: i64 = fx_div(surprise, floor);
    let variance: i64 = if weight == 0 {
        LIMIT
    } else {
        fx_div(ONE, weight)
    };
    proof {
        lemma_variance_positive(weight as int);
    }
    let criterion = Criterion::new(subject.phi, subject.sigma, subject.tuning.tau, difference, variance);
    match criterion.solve() {
        None => Err(RatingError::NumericNonConvergence),
        Some(sigma) => {
            let phi_star: i64 = fx_hypot(subject.phi, sigma);
            proof {
                lemma_deviation_positive(phi_star as int, weight as int);
            }
            let spread: i64 = fx_mul(fx_mul(phi_star, phi_star), weight);
            let root: u128 = integer_sqrt(((ONE as u128) + (spread as u128)) * (ONE as u128));
            let phi: i64 = narrow(wide_quotient(wide_product(phi_star, ONE), root as i128));
            let gain: i64 = fx_mul(fx_mul(phi, phi), fx_mul(difference, weight));
            subject.mu = narrow((subject.mu as i128) + (gain as i128));
            subject.phi = phi;
            subject.sigma = sigma;
            subject.scale_up();
            proof {
                crate::glicko2::rating::lemma_scaled_up_positive(phi as int);
            }
            *rating = subject;
            Ok(())
        },
    }
}

} // verus!
