//! Rounding, saturation, products and quotients of fixed-point numbers.

use vstd::prelude::*;

verus! {

/// The fixed-point representation of 1.
pub const ONE: i64 = 1_000_000_000_000;

/// The largest magnitude a fixed-point number holds; results beyond it saturate.
pub const LIMIT: i64 = 0x7fff_ffff_ffff_ffff;

/// `n / d` rounded toward zero, for a positive divisor.
pub open spec fn toward_zero(n: int, d: int) -> int {
    if n >= 0 {
        n / d
    } else {
        -((-n) / d)
    }
}

/// `n / d` rounded toward zero, for any divisor but zero.
pub open spec fn quotient(n: int, d: int) -> int {
    if d > 0 {
        toward_zero(n, d)
    } else {
        toward_zero(-n, -d)
    }
}

/// `x` brought into the range from `-LIMIT` to `LIMIT`.
pub open spec fn saturate(x: int) -> int {
    if x > LIMIT {
        LIMIT as int
    } else if x < -LIMIT {
        -LIMIT
    } else {
        x
    }
}

/// The product of two fixed-point numbers, before saturation.
pub open spec fn product(a: int, b: int) -> int {
    toward_zero(a * b, ONE as int)
}

/// The ratio of two fixed-point numbers, before saturation.
pub open spec fn ratio(a: int, b: int) -> int {
    quotient(a * ONE, b)
}

/// The saturated product of two fixed-point numbers.
pub open spec fn mul_of(a: int, b: int) -> int {
    saturate(product(a, b))
}

/// The saturated ratio of two fixed-point numbers.
pub open spec fn div_of(a: int, b: int) -> int {
    saturate(ratio(a, b))
}

/// Rounding toward zero never moves a value away from zero, and is odd.
pub proof fn lemma_toward_zero_bounds(n: int, d: int)
    requires
        d > 0,
    ensures
        n >= 0 ==> 0 <= toward_zero(n, d) <= n,
        n <= 0 ==> n <= toward_zero(n, d) <= 0,
        toward_zero(-n, d) == -toward_zero(n, d),
        n >= 0 ==> toward_zero(n, d) * d <= n < (toward_zero(n, d) + 1) * d,
        n < 0 ==> (toward_zero(n, d) - 1) * d < n <= toward_zero(n, d) * d,
{
    lemma_floor_bounds(n, d);
    lemma_floor_bounds(-n, d);
    assert((toward_zero(n, d) + 1) * d == toward_zero(n, d) * d + d) by (nonlinear_arith);
    assert((toward_zero(n, d) - 1) * d == toward_zero(n, d) * d - d) by (nonlinear_arith);
    assert((-((-n) / d)) * d == -(((-n) / d) * d)) by (nonlinear_arith);
}

/// For a non-negative numerator the floor quotient `q` satisfies `q*d <= n < q*d + d`.
pub proof fn lemma_floor_bounds(n: int, d: int)
    requires
        d > 0,
    ensures
        n >= 0 ==> 0 <= n / d <= n,
        (n / d) * d <= n < (n / d) * d + d,
{
    vstd::arithmetic::div_mod::lemma_fundamental_div_mod(n, d);
    vstd::arithmetic::div_mod::lemma_mod_bound(n, d);
    assert((n / d) * d == d * (n / d)) by (nonlinear_arith);
    if n >= 0 {
        vstd::arithmetic::div_mod::lemma_div_pos_is_pos(n, d);
        assert(n / d <= n) by (nonlinear_arith)
            requires
                n / d >= 0,
                d >= 1,
                (n / d) * d <= n,
        ;
    }
}

/// Rounding toward zero is monotone in the numerator.
pub proof fn lemma_toward_zero_monotone(m: int, n: int, d: int)
    requires
        d > 0,
        m <= n,
    ensures
        toward_zero(m, d) <= toward_zero(n, d),
{
    lemma_toward_zero_bounds(m, d);
    lemma_toward_zero_bounds(n, d);
    if m >= 0 {
        vstd::arithmetic::div_mod::lemma_div_is_ordered(m, n, d);
    } else if n < 0 {
        vstd::arithmetic::div_mod::lemma_div_is_ordered(-n, -m, d);
    }
}

/// Brings a wide value into the fixed-point range.
pub fn narrow(x: i128) -> (r: i64)
    ensures
        r == saturate(x as int),
        -LIMIT <= r <= LIMIT,
{
    if x > LIMIT as i128 {
        LIMIT
    } else if x < -(LIMIT as i128) {
        -LIMIT
    } else {
        x as i64
    }
}

/// The exact product of two 64-bit values.
pub fn wide_product(a: i64, b: i64) -> (r: i128)
    ensures
        r == a * b,
        -0x4000_0000_0000_0000_0000_0000_0000_0000 <= r <= 0x4000_0000_0000_0000_0000_0000_0000_0000,
{
    assert(-0x4000_0000_0000_0000_0000_0000_0000_0000 <= a * b
        <= 0x4000_0000_0000_0000_0000_0000_0000_0000) by (nonlinear_arith)
        requires
            -0x8000_0000_0000_0000 <= a <= 0x7fff_ffff_ffff_ffff,
            -0x8000_0000_0000_0000 <= b <= 0x7fff_ffff_ffff_ffff,
    ;
    (a as i128) * (b as i128)
}

/// A wide quotient rounded toward zero.
pub fn wide_quotient(n: i128, d: i128) -> (r: i128)
    requires
        d != 0,
        -0x7fff_ffff_ffff_ffff_ffff_ffff_ffff_ffff <= n,
        -0x7fff_ffff_ffff_ffff_ffff_ffff_ffff_ffff <= d,
    ensures
        r == quotient(n as int, d as int),
{
    if d > 0 {
        n / d
    } else {
        (-n) / (-d)
    }
}

/// The product of two fixed-point numbers, rounded toward zero and saturated.
pub fn fx_mul(a: i64, b: i64) -> (r: i64)
    ensures
        r == mul_of(a as int, b as int),
        -LIMIT <= r <= LIMIT,
        (a >= 0 && b >= 0) || (a <= 0 && b <= 0) ==> r >= 0,
{
    proof {
        lemma_toward_zero_bounds(a * b, ONE as int);
        assert((a >= 0 && b >= 0) || (a <= 0 && b <= 0) ==> a * b >= 0) by (nonlinear_arith);
    }
    let wide: i128 = wide_product(a, b);
    narrow(wide_quotient(wide, ONE as i128))
}

/// The ratio of two fixed-point numbers, rounded toward zero and saturated.
pub fn fx_div(a: i64, b: i64) -> (r: i64)
    requires
        b != 0,
    ensures
        r == div_of(a as int, b as int),
        -LIMIT <= r <= LIMIT,
{
    let wide: i128 = wide_product(a, ONE);
    narrow(wide_quotient(wide, b as i128))
}

} // verus!
