//! The exponential function on fixed-point numbers.
//!
//! The argument is split into a multiple of ln 2 and a remainder below ln 2.
//! The remainder goes through a Taylor polynomial carried with eighteen
//! fractional digits; the multiple becomes a power of two.

use vstd::prelude::*;
use crate::fixed::arith::{ONE, LIMIT, saturate, narrow};

verus! {

/// The representation of 1 with eighteen fractional digits.
pub const FINE: u128 = 1_000_000_000_000_000_000;

/// How many units of `FINE` make one unit of `ONE`.
pub const STEP: u128 = 1_000_000;

/// ln 2 with eighteen fractional digits, rounded down.
pub const LN2_FINE: u128 = 693_147_180_559_945_309;

/// The degree of the Taylor polynomial.
pub const TERMS: u32 = 20;

/// Arguments from here on saturate the exponential.
pub const EXP_CEILING: i64 = 17_000_000_000_000;

/// Arguments from here down give an exponential that rounds to zero.
pub const EXP_FLOOR: i64 = -28_000_000_000_000;

/// Two to the power `k`.
pub open spec fn pow2(k: nat) -> nat
    decreases k,
{
    if k == 0 {
        1
    } else {
        2 * pow2((k - 1) as nat)
    }
}

/// The `n`-th term `r^n / n!` of the polynomial, each step rounded down.
pub open spec fn taylor_term(r: nat, n: nat) -> nat
    decreases n,
{
    if n == 0 {
        FINE as nat
    } else {
        taylor_term(r, (n - 1) as nat) * r / (n * FINE as nat)
    }
}

/// The terms of the polynomial up to the `n`-th, added.
pub open spec fn taylor_sum(r: nat, n: nat) -> nat
    decreases n,
{
    if n == 0 {
        FINE as nat
    } else {
        taylor_sum(r, (n - 1) as nat) + taylor_term(r, n)
    }
}

/// `e^y` for a fixed-point `y >= 0`, as an unbounded fixed-point number.
pub open spec fn growth(y: nat) -> nat {
    let fine = y * STEP as nat;
    pow2(fine / LN2_FINE as nat) * taylor_sum(fine % LN2_FINE as nat, TERMS as nat) / STEP as nat
}

/// `e^x` for any fixed-point `x`: saturated above, the reciprocal of
/// `growth(-x)` below zero.
pub open spec fn exp_of(x: int) -> int {
    if x >= 0 {
        saturate(growth(x as nat) as int)
    } else {
        (ONE * ONE) / (growth((-x) as nat) as int)
    }
}

/// Powers of two grow with the exponent.
pub proof fn lemma_pow2_monotone(j: nat, k: nat)
    requires
        j <= k,
    ensures
        1 <= pow2(j) <= pow2(k),
    decreases k,
{
    if k > 0 {
        if j < k {
            lemma_pow2_monotone(j, (k - 1) as nat);
        } else {
            lemma_pow2_monotone((j - 1) as nat, (k - 1) as nat);
        }
    }
}

/// The values of two powers of two that bound the range of the exponential.
pub proof fn lemma_pow2_values()
    ensures
        pow2(24) == 16_777_216,
        pow2(40) == 1_099_511_627_776,
        pow2(60) == 1_152_921_504_606_846_976,
{
    reveal_with_fuel(pow2, 41);
    lemma_pow2_sum(40, 20);
    lemma_pow2_sum(20, 0);
    assert(pow2(20) == 1_048_576) by {
        reveal_with_fuel(pow2, 21);
    }
}

/// Powers of two multiply when the exponents add.
pub proof fn lemma_pow2_sum(j: nat, k: nat)
    ensures
        pow2(j + k) == pow2(j) * pow2(k),
    decreases k,
{
    if k == 0 {
        assert(pow2(j) * 1 == pow2(j)) by (nonlinear_arith);
    } else {
        lemma_pow2_sum(j, (k - 1) as nat);
        assert(2 * (pow2(j) * pow2((k - 1) as nat)) == pow2(j) * (2 * pow2((k - 1) as nat)))
            by (nonlinear_arith);
        assert(j + k - 1 == j + (k - 1) as nat);
    }
}

/// Below one, every term is at most the one before it.
pub proof fn lemma_taylor_term_bound(r: nat, n: nat)
    requires
        r <= FINE,
    ensures
        taylor_term(r, n) <= FINE,
    decreases n,
{
    if n > 0 {
        lemma_taylor_term_bound(r, (n - 1) as nat);
        let t = taylor_term(r, (n - 1) as nat);
        let d = n * FINE as nat;
        assert(t * r <= FINE * d) by (nonlinear_arith)
            requires
                t <= FINE,
                r <= FINE,
                d >= FINE,
        ;
        vstd::arithmetic::div_mod::lemma_div_is_ordered((t * r) as int, (FINE * d) as int, d as int);
        vstd::arithmetic::div_mod::lemma_div_multiples_vanish(FINE as int, d as int);
    }
}

/// The polynomial is at least one and at most one per term.
pub proof fn lemma_taylor_sum_bounds(r: nat, n: nat)
    requires
        r <= FINE,
    ensures
        FINE <= taylor_sum(r, n) <= (n + 1) * FINE,
    decreases n,
{
    if n > 0 {
        lemma_taylor_sum_bounds(r, (n - 1) as nat);
        lemma_taylor_term_bound(r, n);
    }
}

/// `e^y` is at least the power of two that the multiple of ln 2 gives.
pub proof fn lemma_growth_lower_bound(y: nat)
    ensures
        growth(y) >= pow2(y * STEP as nat / LN2_FINE as nat) * ONE,
        growth(y) >= ONE,
{
    let fine = y * STEP as nat;
    let k = fine / LN2_FINE as nat;
    let r = fine % LN2_FINE as nat;
    lemma_taylor_sum_bounds(r, TERMS as nat);
    lemma_pow2_monotone(0, k);
    let s = taylor_sum(r, TERMS as nat);
    assert(pow2(k) * s >= pow2(k) * FINE) by (nonlinear_arith)
        requires
            s >= FINE,
            pow2(k) >= 1,
    ;
    assert(pow2(k) * FINE == (pow2(k) * ONE) * STEP) by (nonlinear_arith)
        requires
            FINE == ONE * STEP,
    ;
    vstd::arithmetic::div_mod::lemma_div_is_ordered(
        ((pow2(k) * ONE) * STEP) as int,
        (pow2(k) * s) as int,
        STEP as int,
    );
    vstd::arithmetic::div_mod::lemma_div_multiples_vanish((pow2(k) * ONE) as int, STEP as int);
    assert(pow2(k) * ONE >= ONE) by (nonlinear_arith)
        requires
            pow2(k) >= 1,
            ONE > 0,
    ;
}

/// From `EXP_CEILING` on, `e^y` is beyond the fixed-point range.
pub proof fn lemma_growth_saturates(y: nat)
    requires
        y >= EXP_CEILING,
    ensures
        growth(y) > LIMIT,
{
    lemma_growth_lower_bound(y);
    let k = y * STEP as nat / LN2_FINE as nat;
    assert(k >= 24);
    lemma_pow2_monotone(24, k);
    lemma_pow2_values();
    assert(pow2(k) * ONE >= 16_777_216 * ONE) by (nonlinear_arith)
        requires
            pow2(k) >= 16_777_216,
            ONE > 0,
    ;
}

/// From `-EXP_FLOOR` on, the reciprocal of `e^y` rounds to zero.
pub proof fn lemma_growth_vanishes(y: nat)
    requires
        y >= -EXP_FLOOR,
    ensures
        growth(y) > ONE * ONE,
        (ONE * ONE) / (growth(y) as int) == 0,
{
    lemma_growth_lower_bound(y);
    let k = y * STEP as nat / LN2_FINE as nat;
    assert(k >= 40);
    lemma_pow2_monotone(40, k);
    lemma_pow2_values();
    assert(pow2(k) * ONE >= 1_099_511_627_776 * ONE) by (nonlinear_arith)
        requires
            pow2(k) >= 1_099_511_627_776,
            ONE > 0,
    ;
    vstd::arithmetic::div_mod::lemma_basic_div_specific_divisor(growth(y) as int);
}

/// The Taylor polynomial of degree `TERMS` at `r`, below ln 2.
fn taylor(r: u128) -> (sum: u128)
    requires
        r < LN2_FINE,
    ensures
        sum == taylor_sum(r as nat, TERMS as nat),
        FINE <= sum <= 21 * FINE,
{
    let mut term: u128 = FINE;
    let mut sum: u128 = FINE;
    let mut n: u32 = 0;
    while n < TERMS
        invariant
            n <= TERMS,
            r < LN2_FINE,
            term == taylor_term(r as nat, n as nat),
            sum == taylor_sum(r as nat, n as nat),
            term <= FINE,
            sum <= (n + 1) * FINE,
        decreases TERMS - n,
    {
        n = n + 1;
        proof {
            lemma_taylor_term_bound(r as nat, n as nat);
            lemma_taylor_sum_bounds(r as nat, n as nat);
            assert(term * r <= FINE * LN2_FINE) by (nonlinear_arith)
                requires
                    term <= FINE,
                    r < LN2_FINE,
            ;
        }
        term = term * r / ((n as u128) * FINE);
        sum = sum + term;
    }
    proof {
        lemma_taylor_sum_bounds(r as nat, TERMS as nat);
    }
    sum
}

/// `e^y` for a fixed-point `y` from zero up to `-EXP_FLOOR`.
pub fn exp_nonneg(y: u64) -> (r: u128)
    requires
        y < -EXP_FLOOR,
    ensures
        r == growth(y as nat),
        ONE <= r <= 0x4000_0000_0000_0000_0000_0000_0000,
{
    let fine: u128 = (y as u128) * STEP;
    let k: u128 = fine / LN2_FINE;
    let rest: u128 = fine % LN2_FINE;
    let sum: u128 = taylor(rest);
    let mut scaled: u128 = sum;
    let mut i: u128 = 0;
    proof {
        lemma_pow2_values();
        assert(pow2(0) * sum == sum) by (nonlinear_arith)
            requires
                pow2(0) == 1,
        ;
    }
    while i < k
        invariant
            i <= k <= 40,
            sum <= 21 * FINE,
            scaled == pow2(i as nat) * sum,
            pow2(40) == 1_099_511_627_776,
        decreases k - i,
    {
        proof {
            lemma_pow2_monotone((i + 1) as nat, 40);
            assert(pow2((i + 1) as nat) * sum <= 1_099_511_627_776 * (21 * FINE)) by (nonlinear_arith)
                requires
                    pow2((i + 1) as nat) <= 1_099_511_627_776,
                    sum <= 21 * FINE,
            ;
            assert(2 * (pow2(i as nat) * sum) == pow2((i + 1) as nat) * sum) by (nonlinear_arith)
                requires
                    pow2((i + 1) as nat) == 2 * pow2(i as nat),
            ;
        }
        scaled = 2 * scaled;
        i = i + 1;
    }
    proof {
        lemma_growth_lower_bound(y as nat);
        lemma_pow2_monotone(k as nat, 40);
        assert(pow2(k as nat) * sum <= 1_099_511_627_776 * (21 * FINE)) by (nonlinear_arith)
            requires
                pow2(k as nat) <= 1_099_511_627_776,
                sum <= 21 * FINE,
        ;
    }
    scaled / STEP
}

/// `e^x` for a fixed-point `x`, rounded down and saturated at `LIMIT`.
pub fn fx_exp(x: i64) -> (r: i64)
    ensures
        r == exp_of(x as int),
        0 <= r <= LIMIT,
        x >= 0 ==> r >= ONE,
        x <= 0 ==> r <= ONE,
        x > EXP_FLOOR / 2 ==> r > 0,
{
    if x >= EXP_CEILING {
        proof {
            lemma_growth_saturates(x as nat);
        }
        LIMIT
    } else if x <= EXP_FLOOR {
        proof {
            lemma_growth_vanishes((-x) as nat);
        }
        0
    } else if x >= 0 {
        let up: u128 = exp_nonneg(x as u64);
        proof {
            lemma_growth_at_zero();
        }
        narrow(up as i128)
    } else {
        let up: u128 = exp_nonneg((-x) as u64);
        let unit: u128 = (ONE as u128) * (ONE as u128);
        proof {
            vstd::arithmetic::div_mod::lemma_div_is_ordered_by_denominator(
                unit as int,
                ONE as int,
                up as int,
            );
            vstd::arithmetic::div_mod::lemma_div_multiples_vanish(ONE as int, ONE as int);
            if x > EXP_FLOOR / 2 {
                lemma_growth_half_range((-x) as nat);
                vstd::arithmetic::div_mod::lemma_div_is_ordered_by_denominator(
                    unit as int,
                    up as int,
                    unit as int,
                );
                vstd::arithmetic::div_mod::lemma_div_multiples_vanish(1, unit as int);
            }
        }
        (unit / up) as i64
    }
}

/// The exponential is never negative.
pub proof fn lemma_exp_not_negative(x: int)
    ensures
        0 <= exp_of(x),
{
    if x < 0 {
        lemma_growth_lower_bound((-x) as nat);
        vstd::arithmetic::div_mod::lemma_div_pos_is_pos(ONE * ONE, growth((-x) as nat) as int);
    }
}

/// Each term of the polynomial grows with its argument.
pub proof fn lemma_taylor_term_monotone(r: nat, s: nat, n: nat)
    requires
        r <= s,
    ensures
        taylor_term(r, n) <= taylor_term(s, n),
    decreases n,
{
    if n > 0 {
        lemma_taylor_term_monotone(r, s, (n - 1) as nat);
        let t = taylor_term(r, (n - 1) as nat);
        let u = taylor_term(s, (n - 1) as nat);
        assert(t * r <= u * s) by (nonlinear_arith)
            requires
                t <= u,
                r <= s,
        ;
        vstd::arithmetic::div_mod::lemma_div_is_ordered(
            (t * r) as int,
            (u * s) as int,
            (n * FINE as nat) as int,
        );
    }
}

/// The polynomial grows with its argument.
pub proof fn lemma_taylor_sum_monotone(r: nat, s: nat, n: nat)
    requires
        r <= s,
    ensures
        taylor_sum(r, n) <= taylor_sum(s, n),
    decreases n,
{
    if n > 0 {
        lemma_taylor_sum_monotone(r, s, (n - 1) as nat);
        lemma_taylor_term_monotone(r, s, n);
    }
}

/// At ln 2 the polynomial stays just under two.
pub proof fn lemma_taylor_at_ln2()
    ensures
        taylor_sum(LN2_FINE as nat, TERMS as nat) <= 2 * FINE,
{
    assert(taylor_term(LN2_FINE as nat, 0) == FINE);
    assert(taylor_sum(LN2_FINE as nat, 0) == FINE);
    lemma_taylor_step(1, 1000000000000000000, 1000000000000000000, 693147180559945309000000000000000000, 1000000000000000000, 693147180559945309);
    lemma_taylor_step(2, 693147180559945309, 1693147180559945309, 480453013918201424088695989071105481, 2000000000000000000, 240226506959100712);
    lemma_taylor_step(3, 240226506959100712, 1933373687519046021, 166512325994464739527996458542960008, 3000000000000000000, 55504108664821579);
    lemma_taylor_step(4, 55504108664821579, 1988877796183867600, 38472516430513907964090316483022911, 4000000000000000000, 9618129107628476);
    lemma_taylor_step(5, 9618129107628476, 1998495925291496076, 6666779073214220902270601251019084, 5000000000000000000, 1333355814642844);
    lemma_taylor_step(6, 1333355814642844, 1999829281106138920, 924211823602896359417054008218796, 6000000000000000000, 154035303933816);
    lemma_taylor_step(7, 154035303933816, 1999983316410072736, 106769136628418812897009515669144, 7000000000000000000, 15252733804059);
    lemma_taylor_step(8, 15252733804059, 1999998569143876795, 10572389432114865146628562209231, 8000000000000000000, 1321548679014);
    lemma_taylor_step(9, 1321548679014, 1999999890692555809, 916027740831274263949036045326, 9000000000000000000, 101780860092);
    lemma_taylor_step(10, 101780860092, 1999999992473415901, 70549116207736055714500708428, 10000000000000000000, 7054911620);
    lemma_taylor_step(11, 7054911620, 1999999999528327521, 4890092098502596267028590580, 11000000000000000000, 444553827);
    lemma_taylor_step(12, 444553827, 1999999999972881348, 308141231792183690026647543, 12000000000000000000, 25678435);
    lemma_taylor_step(13, 25678435, 1999999999998559783, 17798934821441819220711415, 13000000000000000000, 1369148);
    lemma_taylor_step(14, 1369148, 1999999999999928931, 949021075969287999926732, 14000000000000000000, 67787);
    lemma_taylor_step(15, 67787, 1999999999999996718, 46986367928617012661183, 15000000000000000000, 3132);
    lemma_taylor_step(16, 3132, 1999999999999999850, 2170936969513748707788, 16000000000000000000, 135);
    lemma_taylor_step(17, 135, 1999999999999999985, 93574869375592616715, 17000000000000000000, 5);
    lemma_taylor_step(18, 5, 1999999999999999990, 3465735902799726545, 18000000000000000000, 0);
    lemma_taylor_step(19, 0, 1999999999999999990, 0, 19000000000000000000, 0);
    lemma_taylor_step(20, 0, 1999999999999999990, 0, 20000000000000000000, 0);
}

/// One step of the polynomial at ln 2, from the term and the sum before
/// it: the product of the term with ln 2, the divisor, and the next term.
proof fn lemma_taylor_step(n: nat, term: nat, sum: nat, product: nat, divisor: nat, next: nat)
    requires
        n > 0,
        taylor_term(LN2_FINE as nat, (n - 1) as nat) == term,
        taylor_sum(LN2_FINE as nat, (n - 1) as nat) == sum,
        product == term * LN2_FINE,
        divisor == n * FINE,
        product / divisor == next,
    ensures
        taylor_term(LN2_FINE as nat, n) == next,
        taylor_sum(LN2_FINE as nat, n) == sum + next,
{
}

/// `e^y` grows with `y`.
pub proof fn lemma_growth_monotone(y: nat, z: nat)
    requires
        y <= z,
    ensures
        growth(y) <= growth(z),
{
    let fine_y = y * STEP as nat;
    let fine_z = z * STEP as nat;
    let k = fine_y / LN2_FINE as nat;
    let m = fine_z / LN2_FINE as nat;
    let r = fine_y % LN2_FINE as nat;
    let s = fine_z % LN2_FINE as nat;
    vstd::arithmetic::div_mod::lemma_div_is_ordered(fine_y as int, fine_z as int, LN2_FINE as int);
    vstd::arithmetic::div_mod::lemma_fundamental_div_mod(fine_y as int, LN2_FINE as int);
    vstd::arithmetic::div_mod::lemma_fundamental_div_mod(fine_z as int, LN2_FINE as int);
    let low = taylor_sum(r, TERMS as nat);
    let high = taylor_sum(s, TERMS as nat);
    lemma_pow2_monotone(k, m);
    if k == m {
        lemma_taylor_sum_monotone(r, s, TERMS as nat);
        assert(pow2(k) * low <= pow2(m) * high) by (nonlinear_arith)
            requires
                low <= high,
                pow2(k) == pow2(m),
        ;
    } else {
        lemma_taylor_sum_monotone(r, LN2_FINE as nat, TERMS as nat);
        lemma_taylor_at_ln2();
        lemma_taylor_sum_bounds(s, TERMS as nat);
        lemma_pow2_monotone(k + 1, m);
        assert(pow2(k) * low <= pow2(m) * high) by (nonlinear_arith)
            requires
                low <= 2 * FINE,
                FINE <= high,
                2 * pow2(k) <= pow2(m),
        ;
    }
    vstd::arithmetic::div_mod::lemma_div_is_ordered(
        (pow2(k) * low) as int,
        (pow2(m) * high) as int,
        STEP as int,
    );
}

/// The exponential grows with its argument.
pub proof fn lemma_exp_monotone(x: int, y: int)
    requires
        x <= y,
    ensures
        exp_of(x) <= exp_of(y),
{
    if x >= 0 {
        lemma_growth_monotone(x as nat, y as nat);
    } else if y < 0 {
        lemma_growth_monotone((-y) as nat, (-x) as nat);
        lemma_growth_lower_bound((-y) as nat);
        vstd::arithmetic::div_mod::lemma_div_is_ordered_by_denominator(
            ONE * ONE,
            growth((-y) as nat) as int,
            growth((-x) as nat) as int,
        );
    } else {
        lemma_growth_lower_bound((-x) as nat);
        lemma_growth_lower_bound(y as nat);
        vstd::arithmetic::div_mod::lemma_div_is_ordered_by_denominator(
            ONE * ONE,
            ONE as int,
            growth((-x) as nat) as int,
        );
        vstd::arithmetic::div_mod::lemma_div_multiples_vanish(ONE as int, ONE as int);
    }
}

/// `e^0` is exactly one.
pub proof fn lemma_growth_at_zero()
    ensures
        growth(0) == ONE,
{
    lemma_taylor_at_zero(TERMS as nat);
    assert(pow2(0) * FINE == FINE) by (nonlinear_arith)
        requires
            pow2(0) == 1,
    ;
}

/// At zero every term after the first vanishes.
pub proof fn lemma_taylor_at_zero(n: nat)
    ensures
        n > 0 ==> taylor_term(0, n) == 0,
        taylor_sum(0, n) == FINE,
    decreases n,
{
    if n > 0 {
        lemma_taylor_at_zero((n - 1) as nat);
        assert(taylor_term(0, (n - 1) as nat) * 0 == 0) by (nonlinear_arith);
    }
}

/// Up to half of `-EXP_FLOOR`, `e^y` stays within the square of `ONE`.
pub proof fn lemma_growth_half_range(y: nat)
    requires
        y < (-EXP_FLOOR) / 2,
    ensures
        growth(y) <= ONE * ONE,
{
    let fine = y * STEP as nat;
    let k = fine / LN2_FINE as nat;
    let r = fine % LN2_FINE as nat;
    assert(k <= 20);
    lemma_taylor_sum_bounds(r, TERMS as nat);
    lemma_pow2_monotone(k, 24);
    lemma_pow2_values();
    let s = taylor_sum(r, TERMS as nat);
    assert(pow2(k) * s <= 16_777_216 * (21 * FINE)) by (nonlinear_arith)
        requires
            pow2(k) <= 16_777_216,
            s <= 21 * FINE,
    ;
    vstd::arithmetic::div_mod::lemma_div_is_ordered(
        (pow2(k) * s) as int,
        (16_777_216 * (21 * FINE)) as int,
        STEP as int,
    );
}

} // verus!
