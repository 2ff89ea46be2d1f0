//! The natural logarithm on fixed-point numbers.
//!
//! The argument is halved or doubled into the range from one to two, which
//! contributes a multiple of ln 2; the rest is twice the inverse hyperbolic
//! tangent of `(m - 1) / (m + 1)`, summed as a series with eighteen
//! fractional digits.

use vstd::prelude::*;
use crate::fixed::arith::{ONE, toward_zero, wide_quotient};
use crate::fixed::exp::{FINE, STEP, LN2_FINE, pow2, lemma_pow2_monotone, lemma_pow2_values};

verus! {

/// The number of terms after the first in the series.
pub const ROUNDS: u32 = 20;

/// The largest argument the logarithm takes, as a wide fixed-point number.
pub const LN_ARG_MAX: u128 = 0x1_0000_0000_0000_0000_0000_0000;

/// How often `m` is halved before it drops below two.
pub open spec fn halvings(m: nat) -> nat
    decreases m,
{
    if m >= 2 * FINE {
        1 + halvings(m / 2)
    } else {
        0
    }
}

/// `m` after those halvings, each rounded down.
pub open spec fn halved(m: nat) -> nat
    decreases m,
{
    if m >= 2 * FINE {
        halved(m / 2)
    } else {
        m
    }
}

/// How often a positive `m` is doubled before it reaches one.
pub open spec fn doublings(m: nat) -> nat
    decreases 2 * FINE - m,
{
    if 0 < m < FINE {
        1 + doublings(2 * m)
    } else {
        0
    }
}

/// `m` after those doublings.
pub open spec fn doubled(m: nat) -> nat
    decreases 2 * FINE - m,
{
    if 0 < m < FINE {
        doubled(2 * m)
    } else {
        m
    }
}

/// The odd power `z^(2j+1)` of the series, each step rounded down.
pub open spec fn series_power(z: nat, j: nat) -> nat
    decreases j,
{
    if j == 0 {
        z
    } else {
        series_power(z, (j - 1) as nat) * (z * z / FINE as nat) / FINE as nat
    }
}

/// The series `z + z^3/3 + ... + z^(2j+1)/(2j+1)`.
pub open spec fn series_sum(z: nat, j: nat) -> nat
    decreases j,
{
    if j == 0 {
        z
    } else {
        series_sum(z, (j - 1) as nat) + series_power(z, j) / (2 * j + 1)
    }
}

/// The logarithm of a number from one to two, with eighteen fractional digits.
pub open spec fn ln_mantissa(m: nat) -> nat {
    2 * series_sum(((m - FINE) * FINE / (m + FINE)) as nat, ROUNDS as nat)
}

/// The logarithm of a positive number given with eighteen fractional digits.
pub open spec fn ln_fine(fine: nat) -> int {
    if fine >= FINE {
        halvings(fine) * LN2_FINE + ln_mantissa(halved(fine))
    } else {
        ln_mantissa(doubled(fine)) - doublings(fine) * LN2_FINE
    }
}

/// The natural logarithm of a positive fixed-point number, rounded toward zero.
pub open spec fn ln_of(y: int) -> int {
    toward_zero(ln_fine((y * STEP) as nat), STEP as int)
}

/// The powers shrink, so they stay at most `z`.
pub proof fn lemma_series_power_bound(z: nat, j: nat)
    requires
        z <= FINE,
    ensures
        series_power(z, j) <= z,
    decreases j,
{
    if j > 0 {
        lemma_series_power_bound(z, (j - 1) as nat);
        let p = series_power(z, (j - 1) as nat);
        let sq = z * z / FINE as nat;
        assert(z * z <= FINE * FINE) by (nonlinear_arith)
            requires
                z <= FINE,
        ;
        vstd::arithmetic::div_mod::lemma_div_is_ordered((z * z) as int, (FINE * FINE) as int, FINE as int);
        vstd::arithmetic::div_mod::lemma_div_multiples_vanish(FINE as int, FINE as int);
        assert(p * sq <= p * FINE) by (nonlinear_arith)
            requires
                sq <= FINE,
        ;
        vstd::arithmetic::div_mod::lemma_div_is_ordered((p * sq) as int, (p * FINE) as int, FINE as int);
        vstd::arithmetic::div_mod::lemma_div_multiples_vanish(p as int, FINE as int);
    }
}

/// The series is at most `z` per term.
pub proof fn lemma_series_sum_bound(z: nat, j: nat)
    requires
        z <= FINE,
    ensures
        series_sum(z, j) <= (j + 1) * z,
    decreases j,
{
    if j > 0 {
        lemma_series_sum_bound(z, (j - 1) as nat);
        lemma_series_power_bound(z, j);
        let p = series_power(z, j);
        let d = 2 * j + 1;
        vstd::arithmetic::div_mod::lemma_fundamental_div_mod(p as int, d as int);
        assert(p / d <= p) by (nonlinear_arith)
            requires
                p == d * (p / d) + p % d,
                p % d >= 0,
                d >= 1,
                p / d >= 0,
        ;
        assert((j + 1) * z == ((j - 1) as nat + 1) * z + z) by (nonlinear_arith)
            requires
                j > 0,
        ;
    } else {
        assert((0 + 1) * z == z) by (nonlinear_arith);
    }
}

/// The series at `z`, with its bound.
fn series(z: u128) -> (sum: u128)
    requires
        z <= FINE,
    ensures
        sum == series_sum(z as nat, ROUNDS as nat),
        sum <= 21 * FINE,
{
    assert(z * z <= FINE * FINE) by (nonlinear_arith)
        requires
            z <= FINE,
    ;
    let square: u128 = z * z / FINE;
    proof {
        vstd::arithmetic::div_mod::lemma_div_is_ordered((z * z) as int, (FINE * FINE) as int, FINE as int);
        vstd::arithmetic::div_mod::lemma_div_multiples_vanish(FINE as int, FINE as int);
    }
    let mut power: u128 = z;
    let mut sum: u128 = z;
    let mut j: u32 = 0;
    while j < ROUNDS
        invariant
            j <= ROUNDS,
            z <= FINE,
            square == (z as nat) * (z as nat) / FINE as nat,
            square <= FINE,
            power == series_power(z as nat, j as nat),
            sum == series_sum(z as nat, j as nat),
            power <= FINE,
            sum <= (j + 1) * FINE,
        decreases ROUNDS - j,
    {
        j = j + 1;
        proof {
            lemma_series_power_bound(z as nat, j as nat);
            assert(power * square <= FINE * FINE) by (nonlinear_arith)
                requires
                    power <= FINE,
                    square <= FINE,
            ;
            let p = series_power(z as nat, j as nat);
            let d = 2 * j + 1;
            vstd::arithmetic::div_mod::lemma_fundamental_div_mod(p as int, d as int);
            assert(p / (d as nat) <= p) by (nonlinear_arith)
                requires
                    p == d * (p / (d as nat)) + p % (d as nat),
                    p % (d as nat) >= 0,
                    d >= 1,
                    p / (d as nat) >= 0,
            ;
        }
        power = power * square / FINE;
        sum = sum + power / (2 * (j as u128) + 1);
    }
    sum
}

/// The logarithm of a number from one to two.
fn mantissa_ln(m: u128) -> (r: u128)
    requires
        FINE <= m < 2 * FINE,
    ensures
        r == ln_mantissa(m as nat),
        r <= 42 * FINE,
{
    let above: u128 = m - FINE;
    assert(above * FINE <= FINE * FINE) by (nonlinear_arith)
        requires
            above <= FINE,
    ;
    let z: u128 = above * FINE / (m + FINE);
    proof {
        vstd::arithmetic::div_mod::lemma_div_is_ordered_by_denominator(
            (above * FINE) as int,
            FINE as int,
            (m + FINE) as int,
        );
        vstd::arithmetic::div_mod::lemma_div_is_ordered(
            (above * FINE) as int,
            (FINE * FINE) as int,
            FINE as int,
        );
        vstd::arithmetic::div_mod::lemma_div_multiples_vanish(FINE as int, FINE as int);
    }
    2 * series(z)
}

/// Halving keeps `m * 2^i` within the starting value.
proof fn lemma_halving_step(m: nat, i: nat, start: nat)
    requires
        m * pow2(i) <= start,
    ensures
        (m / 2) * pow2(i + 1) <= start,
{
    assert((m / 2) * pow2(i + 1) <= m * pow2(i)) by (nonlinear_arith)
        requires
            pow2(i + 1) == 2 * pow2(i),
            (m / 2) * 2 <= m,
    ;
}

/// While `m` is at least two and `m * 2^i <= start < 2^120`, `i` is below 60.
proof fn lemma_halving_count(m: nat, i: nat, start: nat)
    requires
        m >= 2 * FINE,
        m * pow2(i) <= start,
        start < 0x1_0000_0000_0000_0000_0000_0000_0000_00,
    ensures
        i < 60,
{
    if i >= 60 {
        lemma_pow2_monotone(60, i);
        lemma_pow2_values();
        assert(m * pow2(i) >= (2 * FINE) * 1_152_921_504_606_846_976) by (nonlinear_arith)
            requires
                m >= 2 * FINE,
                pow2(i) >= 1_152_921_504_606_846_976,
        ;
    }
}

/// While `start * 2^i` is below one and `start` is at least `STEP`, `i` is below 40.
proof fn lemma_doubling_count(i: nat, start: nat)
    requires
        start >= STEP,
        start * pow2(i) < FINE,
    ensures
        i < 40,
{
    if i >= 40 {
        lemma_pow2_monotone(40, i);
        lemma_pow2_values();
        assert(start * pow2(i) >= STEP * 1_099_511_627_776) by (nonlinear_arith)
            requires
                start >= STEP,
                pow2(i) >= 1_099_511_627_776,
        ;
    }
}

/// The natural logarithm of a positive wide fixed-point number, rounded toward zero.
pub fn ln_wide(y: u128) -> (r: i64)
    requires
        0 < y <= LN_ARG_MAX,
    ensures
        r == ln_of(y as int),
        -100 * ONE <= r <= 100 * ONE,
{
    let fine: u128 = y * STEP;
    let mut m: u128 = fine;
    let mut count: i128 = 0;
    if fine >= FINE {
        proof {
            assert(m * pow2(0) <= fine) by (nonlinear_arith)
                requires
                    pow2(0) == 1,
                    m == fine,
            ;
        }
        while m >= 2 * FINE
            invariant
                fine < 0x1_0000_0000_0000_0000_0000_0000_0000_00,
                0 <= count <= 60,
                m >= FINE,
                m * pow2(count as nat) <= fine,
                halvings(fine as nat) == count + halvings(m as nat),
                halved(fine as nat) == halved(m as nat),
            decreases m,
        {
            proof {
                lemma_halving_count(m as nat, count as nat, fine as nat);
                lemma_halving_step(m as nat, count as nat, fine as nat);
            }
            m = m / 2;
            count = count + 1;
        }
        let tail: u128 = mantissa_ln(m);
        let total: i128 = count * (LN2_FINE as i128) + (tail as i128);
        let out: i128 = wide_quotient(total, STEP as i128);
        out as i64
    } else {
        proof {
            assert(fine * pow2(0) == fine) by (nonlinear_arith)
                requires
                    pow2(0) == 1,
            ;
        }
        while m < FINE
            invariant
                STEP <= fine < FINE,
                0 <= count <= 40,
                0 < m < 2 * FINE,
                m == fine * pow2(count as nat),
                doublings(fine as nat) == count + doublings(m as nat),
                doubled(fine as nat) == doubled(m as nat),
            decreases 2 * FINE - m,
        {
            proof {
                lemma_doubling_count(count as nat, fine as nat);
                assert(2 * (fine * pow2(count as nat)) == fine * pow2((count + 1) as nat))
                    by (nonlinear_arith)
                    requires
                        pow2((count + 1) as nat) == 2 * pow2(count as nat),
                ;
            }
            m = 2 * m;
            count = count + 1;
        }
        let tail: u128 = mantissa_ln(m);
        let total: i128 = (tail as i128) - count * (LN2_FINE as i128);
        let out: i128 = wide_quotient(total, STEP as i128);
        out as i64
    }
}

/// The natural logarithm of a positive fixed-point number, rounded toward zero.
pub fn fx_ln(x: i64) -> (r: i64)
    requires
        x > 0,
    ensures
        r == ln_of(x as int),
        -100 * ONE <= r <= 100 * ONE,
{
    ln_wide(x as u128)
}

} // verus!
