//! The search for the new volatility.
//!
//! The new volatility is `e^(x/2)` at the root `x` of the criterion
//!
//! ```text
//! f(x) = e^x (d^2 - phi^2 - v - e^x) / (2 (phi^2 + v + e^x)^2) - (x - alpha) / tau^2
//! ```
//!
//! where `alpha` is the logarithm of the squared current volatility. The
//! root is bracketed and then closed in on by the Illinois variant of the
//! method of false position.

use vstd::prelude::*;
use crate::fixed::arith::{ONE, LIMIT, saturate, toward_zero, quotient, narrow, wide_product,
    wide_quotient, lemma_toward_zero_bounds};
use crate::fixed::exp::{exp_of, fx_exp};
use crate::fixed::ln::{ln_of, ln_wide, fx_ln};
use crate::glicko2::constants::{EPSILON, MAX_ITERATIONS, TAU_MIN};

verus! {

/// The largest square of a fixed-point number.
pub const SQUARE_MAX: i128 = 85_070_591_730_234_615_865_843_651;

/// What the criterion depends on besides its argument.
pub struct Criterion {
    /// Twice the logarithm of the current volatility.
    pub alpha: i64,
    /// The square of the current deviation.
    pub phi_sq: i128,
    /// The square of the estimated improvement.
    pub diff_sq: i128,
    /// The estimated variance.
    pub variance: i64,
    /// The constraint on the change of volatility.
    pub tau: i64,
    /// The square of the constraint.
    pub tau_sq: i128,
}

/// The square of a fixed-point number, rounded toward zero.
pub open spec fn square_of(x: int) -> int {
    toward_zero(x * x, ONE as int)
}

/// Whether two values lie strictly on opposite sides of zero.
pub open spec fn opposite(x: int, y: int) -> bool {
    (x < 0 && y > 0) || (x > 0 && y < 0)
}

/// Whether two values do not lie strictly on the same side of zero.
pub open spec fn straddles(x: int, y: int) -> bool {
    !(x > 0 && y > 0) && !(x < 0 && y < 0)
}

/// The distance between two values.
pub open spec fn distance(a: int, b: int) -> int {
    if a <= b {
        b - a
    } else {
        a - b
    }
}

impl Criterion {
    /// The squares are squares of fixed-point numbers, and variance and
    /// squared constraint are positive.
    pub open spec fn wf(&self) -> bool {
        &&& -LIMIT <= self.alpha <= LIMIT
        &&& 0 <= self.phi_sq <= SQUARE_MAX
        &&& 0 <= self.diff_sq <= SQUARE_MAX
        &&& 0 < self.variance
        &&& 0 < self.tau_sq <= SQUARE_MAX
    }

    /// The criterion for a competitor with deviation `phi` and volatility
    /// `sigma`, under the constraint `tau`, after a period with the given
    /// estimated improvement and variance.
    pub open spec fn of(phi: int, sigma: int, tau: int, difference: int, variance: int) -> Criterion {
        Criterion {
            alpha: (2 * ln_of(sigma)) as i64,
            phi_sq: square_of(phi) as i128,
            diff_sq: square_of(difference) as i128,
            variance: variance as i64,
            tau: tau as i64,
            tau_sq: square_of(tau) as i128,
        }
    }

    /// The value `f(x)` of the criterion. The first part is computed as
    /// `e^x (d^2 / t - 1) / (2 t)` with `t = phi^2 + v + e^x`; every part
    /// saturates.
    pub open spec fn value(&self, x: int) -> int {
        let grown = exp_of(x);
        let total = self.phi_sq + self.variance + grown;
        let excess = saturate(toward_zero(self.diff_sq * ONE, total) - ONE);
        let pull = saturate(toward_zero(grown * excess, 2 * total));
        let drift = saturate(toward_zero((x - self.alpha) * ONE, self.tau_sq as int));
        saturate(pull - drift)
    }

    /// The first of `alpha - k tau`, `alpha - (k+1) tau`, ... at which the
    /// criterion is not negative, among `budget + 1` candidates.
    pub open spec fn lower_end(&self, k: nat, budget: nat) -> Option<int>
        decreases budget,
    {
        let b = saturate(self.alpha - k * self.tau);
        if self.value(b) >= 0 {
            Some(b)
        } else if budget == 0 {
            None
        } else {
            self.lower_end(k + 1, (budget - 1) as nat)
        }
    }

    /// The far end of the first bracket: `ln(d^2 - phi^2 - v)` where that
    /// is defined, else the result of the search downward from `alpha`.
    pub open spec fn far_end(&self) -> Option<int> {
        if self.diff_sq > self.phi_sq + self.variance {
            Some(ln_of(self.diff_sq - self.phi_sq - self.variance))
        } else {
            self.lower_end(1, (MAX_ITERATIONS - 1) as nat)
        }
    }

    /// The candidate `a + (a - b) fa / (fb - fa)` between the ends of a bracket.
    pub open spec fn candidate(a: int, b: int, fa: int, fb: int) -> int {
        saturate(a + saturate(quotient((a - b) * fa, fb - fa)))
    }

    /// The bracket `(a, b)` once its ends are within `EPSILON` of each
    /// other, after at most `budget` steps.
    ///
    /// A step replaces `b` by the candidate. Where the criterion changes
    /// sign between `b` and the candidate, `a` becomes the old `b`; else the
    /// value at `a` is halved. An end `b` at which the criterion is exactly
    /// zero is the root, and both ends close on it.
    pub open spec fn refined(&self, a: int, b: int, fa: int, fb: int, budget: nat) -> Option<
        (int, int),
    >
        decreases budget,
    {
        if distance(a, b) <= EPSILON {
            Some((a, b))
        } else if fb == 0 {
            Some((b, b))
        } else if budget == 0 || fb - fa == 0 {
            None
        } else {
            let c = Self::candidate(a, b, fa, fb);
            let fc = self.value(c);
            if opposite(fc, fb) {
                self.refined(b, c, fb, fc, (budget - 1) as nat)
            } else {
                self.refined(a, c, toward_zero(fa, 2), fc, (budget - 1) as nat)
            }
        }
    }

    /// The last bracket of the search, where it converges.
    pub open spec fn bracket(&self) -> Option<(int, int)> {
        match self.far_end() {
            None => None,
            Some(b) => self.refined(
                self.alpha as int,
                b,
                self.value(self.alpha as int),
                self.value(b),
                MAX_ITERATIONS as nat,
            ),
        }
    }

    /// The new volatility `e^(a/2)` at the near end of the last bracket,
    /// where the search converges and that value is positive.
    pub open spec fn root_volatility(&self) -> Option<int> {
        match self.bracket() {
            None => None,
            Some((a, b)) => {
                let s = exp_of(toward_zero(a, 2));
                if s > 0 {
                    Some(s)
                } else {
                    None
                }
            },
        }
    }

    /// A bracket that the search returns is within the tolerance.
    pub proof fn lemma_refined_converged(&self, a: int, b: int, fa: int, fb: int, budget: nat)
        ensures
            self.refined(a, b, fa, fb, budget) matches Some((x, y)) ==> distance(x, y) <= EPSILON,
        decreases budget,
    {
        if distance(a, b) <= EPSILON || fb == 0 || budget == 0 || fb - fa == 0 {
        } else {
            let c = Self::candidate(a, b, fa, fb);
            let fc = self.value(c);
            if opposite(fc, fb) {
                self.lemma_refined_converged(b, c, fb, fc, (budget - 1) as nat);
            } else {
                self.lemma_refined_converged(a, c, toward_zero(fa, 2), fc, (budget - 1) as nat);
            }
        }
    }

    /// Where the criterion does not have the same sign at both ends when
    /// the search starts, it does not at the ends the search returns: the
    /// root lies between them.
    pub proof fn lemma_refined_encloses_root(&self, a: int, b: int, fa: int, fb: int, budget: nat)
        requires
            fb == self.value(b),
            straddles(self.value(a), fb),
        ensures
            self.refined(a, b, fa, fb, budget) matches Some((x, y)) ==> straddles(
                self.value(x),
                self.value(y),
            ),
        decreases budget,
    {
        if distance(a, b) <= EPSILON || fb == 0 || budget == 0 || fb - fa == 0 {
        } else {
            let c = Self::candidate(a, b, fa, fb);
            let fc = self.value(c);
            if opposite(fc, fb) {
                self.lemma_refined_encloses_root(b, c, fb, fc, (budget - 1) as nat);
            } else {
                self.lemma_refined_encloses_root(a, c, toward_zero(fa, 2), fc, (budget - 1) as nat);
            }
        }
    }

    /// The search downward ends where the criterion is not negative.
    pub proof fn lemma_lower_end_not_negative(&self, k: nat, budget: nat)
        ensures
            self.lower_end(k, budget) matches Some(b) ==> self.value(b) >= 0,
        decreases budget,
    {
        let b = saturate(self.alpha - k * self.tau);
        if self.value(b) < 0 && budget > 0 {
            self.lemma_lower_end_not_negative(k + 1, (budget - 1) as nat);
        }
    }

    /// Where the squared improvement does not exceed `phi^2 + v`, the
    /// criterion is not positive at `alpha`.
    pub proof fn lemma_start_not_positive(&self)
        requires
            self.wf(),
            self.diff_sq <= self.phi_sq + self.variance,
        ensures
            self.value(self.alpha as int) <= 0,
    {
        let x = self.alpha as int;
        let grown = exp_of(x);
        crate::fixed::exp::lemma_exp_not_negative(x);
        let total = self.phi_sq + self.variance + grown;
        assert(0 <= self.diff_sq * ONE <= total * ONE) by (nonlinear_arith)
            requires
                0 <= self.diff_sq <= total,
                ONE > 0,
        ;
        vstd::arithmetic::div_mod::lemma_div_is_ordered(self.diff_sq * ONE, total * ONE, total);
        vstd::arithmetic::div_mod::lemma_div_multiples_vanish(ONE as int, total);
        let excess = saturate(toward_zero(self.diff_sq * ONE, total) - ONE);
        assert(excess <= 0);
        assert(grown * excess <= 0) by (nonlinear_arith)
            requires
                grown >= 0,
                excess <= 0,
        ;
        lemma_toward_zero_bounds(grown * excess, 2 * total);
        assert((x - self.alpha) * ONE == 0);
        lemma_toward_zero_bounds(0, self.tau_sq as int);
    }

    /// Where the squared improvement does not exceed `phi^2 + v`, a search
    /// that converges returns ends within the tolerance of each other, and
    /// the criterion does not have the same sign at both: the root lies
    /// between them.
    pub proof fn lemma_bracket_encloses_root(&self)
        requires
            self.wf(),
            self.diff_sq <= self.phi_sq + self.variance,
        ensures
            self.bracket() matches Some((x, y)) ==> distance(x, y) <= EPSILON && straddles(
                self.value(x),
                self.value(y),
            ),
    {
        self.lemma_start_not_positive();
        self.lemma_lower_end_not_negative(1, (MAX_ITERATIONS - 1) as nat);
        match self.far_end() {
            None => {},
            Some(b) => {
                let a = self.alpha as int;
                self.lemma_refined_converged(a, b, self.value(a), self.value(b), MAX_ITERATIONS as nat);
                self.lemma_refined_encloses_root(
                    a,
                    b,
                    self.value(a),
                    self.value(b),
                    MAX_ITERATIONS as nat,
                );
            },
        }
    }

    /// The criterion for the given competitor and period.
    pub fn new(phi: i64, sigma: i64, tau: i64, difference: i64, variance: i64) -> (c: Criterion)
        requires
            sigma > 0,
            tau >= TAU_MIN,
            variance > 0,
        ensures
            c == Criterion::of(phi as int, sigma as int, tau as int, difference as int, variance as int),
            c.wf(),
    {
        let half: i64 = fx_ln(sigma);
        let tau_sq: i128 = square(tau);
        assert(tau_sq > 0) by {
            assert(tau * tau >= 1_000_000 * 1_000_000) by (nonlinear_arith)
                requires
                    tau >= 1_000_000,
            ;
            crate::fixed::arith::lemma_toward_zero_monotone(
                1_000_000int * 1_000_000int,
                tau * tau,
                ONE as int,
            );
        }
        Criterion {
            alpha: 2 * half,
            phi_sq: square(phi),
            diff_sq: square(difference),
            variance,
            tau,
            tau_sq,
        }
    }

    /// The value of the criterion at `x`.
    pub fn eval(&self, x: i64) -> (f: i64)
        requires
            self.wf(),
        ensures
            f == self.value(x as int),
            -LIMIT <= f <= LIMIT,
    {
        let grown: i64 = fx_exp(x);
        let total: i128 = self.phi_sq + (self.variance as i128) + (grown as i128);
        proof {
            assert(0 <= self.diff_sq * ONE <= SQUARE_MAX * ONE) by (nonlinear_arith)
                requires
                    0 <= self.diff_sq <= SQUARE_MAX,
                    ONE > 0,
            ;
            lemma_toward_zero_bounds(self.diff_sq * ONE, total as int);
        }
        let excess: i64 = narrow(wide_quotient(self.diff_sq * (ONE as i128), total) - (ONE as i128));
        let pull: i64 = narrow(wide_quotient(wide_product(grown, excess), 2 * total));
        let gap: i128 = (x as i128) - (self.alpha as i128);
        let drift: i64 = narrow(wide_quotient(gap * (ONE as i128), self.tau_sq));
        narrow((pull as i128) - (drift as i128))
    }

    /// Searches downward from `alpha` in steps of `tau` for a point at which
    /// the criterion is not negative.
    pub fn search_lower_end(&self) -> (r: Option<i64>)
        requires
            self.wf(),
        ensures
            r matches Some(b) ==> self.lower_end(1, (MAX_ITERATIONS - 1) as nat) == Some(b as int)
                && -LIMIT <= b <= LIMIT,
            r is None ==> self.lower_end(1, (MAX_ITERATIONS - 1) as nat) is None,
    {
        let mut k: u32 = 1;
        loop
            invariant
                self.wf(),
                1 <= k <= MAX_ITERATIONS,
                self.lower_end(k as nat, (MAX_ITERATIONS - k) as nat) == self.lower_end(
                    1,
                    (MAX_ITERATIONS - 1) as nat,
                ),
            decreases MAX_ITERATIONS - k,
        {
            assert(-100 * 0x8000_0000_0000_0000 <= k * self.tau <= 100 * 0x8000_0000_0000_0000)
                by (nonlinear_arith)
                requires
                    1 <= k <= 100,
                    -0x8000_0000_0000_0000 <= self.tau <= 0x7fff_ffff_ffff_ffff,
            ;
            let b: i64 = narrow((self.alpha as i128) - (k as i128) * (self.tau as i128));
            if self.eval(b) >= 0 {
                return Some(b);
            }
            if k == MAX_ITERATIONS {
                return None;
            }
            k = k + 1;
        }
    }

    /// The far end of the first bracket.
    pub fn find_far_end(&self) -> (r: Option<i64>)
        requires
            self.wf(),
        ensures
            r matches Some(b) ==> self.far_end() == Some(b as int) && -LIMIT <= b <= LIMIT,
            r is None ==> self.far_end() is None,
    {
        if self.diff_sq > self.phi_sq + (self.variance as i128) {
            let rest: i128 = self.diff_sq - self.phi_sq - (self.variance as i128);
            Some(ln_wide(rest as u128))
        } else {
            self.search_lower_end()
        }
    }

    /// Closes the bracket from `alpha` to `b` in on the root.
    pub fn refine(&self, far: i64) -> (r: Option<(i64, i64)>)
        requires
            self.wf(),
            -LIMIT <= far <= LIMIT,
        ensures
            r matches Some(ends) ==> self.refined(
                self.alpha as int,
                far as int,
                self.value(self.alpha as int),
                self.value(far as int),
                MAX_ITERATIONS as nat,
            ) == Some((ends.0 as int, ends.1 as int)) && distance(ends.0 as int, ends.1 as int)
                <= EPSILON,
            r is None ==> self.refined(
                self.alpha as int,
                far as int,
                self.value(self.alpha as int),
                self.value(far as int),
                MAX_ITERATIONS as nat,
            ) is None,
    {
        let mut a: i64 = self.alpha;
        let mut b: i64 = far;
        let mut fa: i64 = self.eval(a);
        let mut fb: i64 = self.eval(b);
        let mut steps: u32 = 0;
        let ghost goal = self.refined(a as int, b as int, fa as int, fb as int, MAX_ITERATIONS as nat);
        while apart(a, b)
            invariant
                self.wf(),
                steps <= MAX_ITERATIONS,
                -LIMIT <= a <= LIMIT,
                -LIMIT <= b <= LIMIT,
                -LIMIT <= fa <= LIMIT,
                -LIMIT <= fb <= LIMIT,
                self.refined(a as int, b as int, fa as int, fb as int, (MAX_ITERATIONS - steps) as nat)
                    == goal,
                goal == self.refined(
                    self.alpha as int,
                    far as int,
                    self.value(self.alpha as int),
                    self.value(far as int),
                    MAX_ITERATIONS as nat,
                ),
            decreases MAX_ITERATIONS - steps,
        {
            if fb == 0 {
                return Some((b, b));
            }
            if steps == MAX_ITERATIONS || fb == fa {
                assert(self.refined(
                    a as int,
                    b as int,
                    fa as int,
                    fb as int,
                    (MAX_ITERATIONS - steps) as nat,
                ) is None);
                return None;
            }
            assert(-0x7fff_ffff_ffff_ffff_ffff_ffff_ffff_ffff <= (a - b) * fa
                <= 0x7fff_ffff_ffff_ffff_ffff_ffff_ffff_ffff) by (nonlinear_arith)
                requires
                    -0xffff_ffff_ffff_ffff <= a - b <= 0xffff_ffff_ffff_ffff,
                    -0x7fff_ffff_ffff_ffff <= fa <= 0x7fff_ffff_ffff_ffff,
            ;
            let span: i128 = (a as i128) - (b as i128);
            let slope: i128 = (fb as i128) - (fa as i128);
            let step: i64 = narrow(wide_quotient(span * (fa as i128), slope));
            let c: i64 = narrow((a as i128) + (step as i128));
            let fc: i64 = self.eval(c);
            if (fc < 0 && fb > 0) || (fc > 0 && fb < 0) {
                a = b;
                fa = fb;
            } else {
                proof {
                    lemma_toward_zero_bounds(fa as int, 2);
                }
                fa = fa / 2;
            }
            b = c;
            fb = fc;
            steps = steps + 1;
        }
        proof {
            self.lemma_refined_converged(
                self.alpha as int,
                far as int,
                self.value(self.alpha as int),
                self.value(far as int),
                MAX_ITERATIONS as nat,
            );
        }
        Some((a, b))
    }

    /// The new volatility, where the search converges on a positive value.
    pub fn solve(&self) -> (r: Option<i64>)
        requires
            self.wf(),
        ensures
            r matches Some(s) ==> self.root_volatility() == Some(s as int) && 0 < s <= LIMIT,
            r matches Some(s) ==> self.bracket() matches Some(ends) && distance(ends.0, ends.1)
                <= EPSILON && s == exp_of(toward_zero(ends.0, 2)),
            r is None ==> self.root_volatility() is None,
    {
        match self.find_far_end() {
            None => None,
            Some(b) => match self.refine(b) {
                None => None,
                Some(ends) => {
                    proof {
                        lemma_toward_zero_bounds(ends.0 as int, 2);
                    }
                    let s: i64 = fx_exp(ends.0 / 2);
                    if s > 0 {
                        Some(s)
                    } else {
                        None
                    }
                },
            },
        }
    }
}

/// Whether two ends are further apart than the tolerance.
pub fn apart(a: i64, b: i64) -> (r: bool)
    ensures
        r == (distance(a as int, b as int) > EPSILON),
{
    let gap: i128 = if a <= b {
        (b as i128) - (a as i128)
    } else {
        (a as i128) - (b as i128)
    };
    gap > EPSILON as i128
}

/// The square of a fixed-point number, rounded toward zero.
pub fn square(x: i64) -> (r: i128)
    ensures
        r == square_of(x as int),
        0 <= r <= SQUARE_MAX,
{
    assert(x * x >= 0) by (nonlinear_arith);
    let wide: i128 = wide_product(x, x);
    proof {
        lemma_toward_zero_bounds(wide as int, ONE as int);
    }
    wide_quotient(wide, ONE as i128)
}

} // verus!
