//! Square roots of fixed-point numbers.

use vstd::prelude::*;
use crate::fixed::arith::{ONE, LIMIT};

verus! {

/// Whether `r` is the integer square root of `n`, rounded down.
pub open spec fn is_floor_sqrt(n: nat, r: nat) -> bool {
    r * r <= n < (r + 1) * (r + 1)
}

/// The integer square root of `n`, rounded down.
pub open spec fn floor_sqrt(n: nat) -> nat {
    choose|r: nat| is_floor_sqrt(n, r)
}

/// The square root of a non-negative fixed-point number, rounded down.
pub open spec fn sqrt_of(a: int) -> int {
    floor_sqrt((a * ONE) as nat) as int
}

/// The length of the hypotenuse over two fixed-point legs, rounded down.
pub open spec fn hypot_of(a: int, b: int) -> int {
    floor_sqrt((a * a + b * b) as nat) as int
}

/// Only one number is the rounded-down square root of `n`.
pub proof fn lemma_floor_sqrt_unique(n: nat, r: nat)
    requires
        is_floor_sqrt(n, r),
    ensures
        floor_sqrt(n) == r,
{
    let s = floor_sqrt(n);
    assert(is_floor_sqrt(n, s));
    assert(s == r) by (nonlinear_arith)
        requires
            r * r <= n < (r + 1) * (r + 1),
            s * s <= n < (s + 1) * (s + 1),
    ;
}

/// The rounded-down square root never decreases when its argument grows.
pub proof fn lemma_floor_sqrt_monotone(m: nat, n: nat)
    requires
        m <= n,
    ensures
        floor_sqrt(m) <= floor_sqrt(n),
{
    lemma_floor_sqrt_exists(m);
    lemma_floor_sqrt_exists(n);
    let r = floor_sqrt(m);
    let s = floor_sqrt(n);
    assert(r <= s) by (nonlinear_arith)
        requires
            r * r <= m,
            m <= n,
            n < (s + 1) * (s + 1),
    ;
}

/// Every number has a rounded-down square root.
pub proof fn lemma_floor_sqrt_exists(n: nat)
    ensures
        is_floor_sqrt(n, floor_sqrt(n)),
    decreases n,
{
    if n == 0 {
        assert(is_floor_sqrt(0, 0)) by (nonlinear_arith);
    } else {
        lemma_floor_sqrt_exists((n - 1) as nat);
        let r = floor_sqrt((n - 1) as nat);
        if n < (r + 1) * (r + 1) {
            assert(is_floor_sqrt(n, r));
        } else {
            assert(is_floor_sqrt(n, r + 1)) by (nonlinear_arith)
                requires
                    r * r <= n - 1 < (r + 1) * (r + 1),
                    n >= (r + 1) * (r + 1),
            ;
        }
    }
}

/// The rounded-down square root of a square is the number itself.
pub proof fn lemma_floor_sqrt_of_square(r: nat)
    ensures
        floor_sqrt(r * r) == r,
{
    assert(is_floor_sqrt(r * r, r)) by (nonlinear_arith);
    lemma_floor_sqrt_unique(r * r, r);
}

/// The integer square root of `n`, rounded down, by bisection.
pub fn integer_sqrt(n: u128) -> (r: u128)
    ensures
        r == floor_sqrt(n as nat),
        r * r <= n < (r + 1) * (r + 1),
        r < 0x1_0000_0000_0000_0000,
{
    let mut low: u128 = 0;
    let mut high: u128 = 0x1_0000_0000_0000_0000;
    assert(n < high * high) by (nonlinear_arith)
        requires
            n <= 0xffff_ffff_ffff_ffff_ffff_ffff_ffff_ffff,
            high == 0x1_0000_0000_0000_0000,
    ;
    while high - low > 1
        invariant
            low < high <= 0x1_0000_0000_0000_0000,
            low * low <= n < high * high,
        decreases high - low,
    {
        let mid: u128 = low + (high - low) / 2;
        assert(mid * mid <= 0xffff_ffff_ffff_ffff_ffff_ffff_ffff_ffff) by (nonlinear_arith)
            requires
                mid < 0x1_0000_0000_0000_0000,
        ;
        if mid * mid <= n {
            low = mid;
        } else {
            high = mid;
        }
    }
    proof {
        assert(high == low + 1);
        lemma_floor_sqrt_unique(n as nat, low as nat);
    }
    low
}

/// The square root of a non-negative fixed-point number, rounded down.
pub fn fx_sqrt(a: i64) -> (r: i64)
    requires
        a >= 0,
    ensures
        r == sqrt_of(a as int),
        0 <= r <= LIMIT,
        a >= ONE ==> r >= ONE,
{
    assert(0 <= a * ONE <= 0x7fff_ffff_ffff_ffff * 1_000_000_000_000) by (nonlinear_arith)
        requires
            0 <= a <= 0x7fff_ffff_ffff_ffff,
            ONE == 1_000_000_000_000,
    ;
    let wide: u128 = (a as u128) * (ONE as u128);
    let root: u128 = integer_sqrt(wide);
    proof {
        assert(root < 0x7fff_ffff_ffff_ffff) by (nonlinear_arith)
            requires
                root * root <= wide,
                wide <= 0x7fff_ffff_ffff_ffff * 1_000_000_000_000,
        ;
        if a >= ONE {
            assert(root >= ONE) by (nonlinear_arith)
                requires
                    wide < (root + 1) * (root + 1),
                    wide == a * ONE,
                    a >= ONE,
                    ONE == 1_000_000_000_000,
            ;
        }
    }
    root as i64
}

/// The hypotenuse over two fixed-point legs, rounded down and saturated.
pub fn fx_hypot(a: i64, b: i64) -> (r: i64)
    requires
        -LIMIT <= a <= LIMIT,
        -LIMIT <= b <= LIMIT,
    ensures
        r == crate::fixed::arith::saturate(hypot_of(a as int, b as int)),
        0 <= r <= LIMIT,
        r >= a,
        r >= -a,
        r >= b,
        r >= -b,
{
    let aa: i128 = crate::fixed::arith::wide_product(a, a);
    let bb: i128 = crate::fixed::arith::wide_product(b, b);
    assert(0 <= a * a <= 0x7fff_ffff_ffff_ffff * 0x7fff_ffff_ffff_ffff) by (nonlinear_arith)
        requires
            -0x7fff_ffff_ffff_ffff <= a <= 0x7fff_ffff_ffff_ffff,
    ;
    assert(0 <= b * b <= 0x7fff_ffff_ffff_ffff * 0x7fff_ffff_ffff_ffff) by (nonlinear_arith)
        requires
            -0x7fff_ffff_ffff_ffff <= b <= 0x7fff_ffff_ffff_ffff,
    ;
    let sum: u128 = (aa as u128) + (bb as u128);
    let root: u128 = integer_sqrt(sum);
    proof {
        let m: int = if a < 0 { -a } else { a as int };
        let k: int = if b < 0 { -b } else { b as int };
        assert(m * m == a * a) by (nonlinear_arith)
            requires
                m == a || m == -a,
        ;
        assert(k * k == b * b) by (nonlinear_arith)
            requires
                k == b || k == -b,
        ;
        assert(root >= m) by (nonlinear_arith)
            requires
                sum < (root + 1) * (root + 1),
                sum >= a * a,
                m * m == a * a,
                m >= 0,
        ;
        assert(root >= k) by (nonlinear_arith)
            requires
                sum < (root + 1) * (root + 1),
                sum >= b * b,
                k * k == b * b,
                k >= 0,
        ;
    }
    if root > LIMIT as u128 {
        LIMIT
    } else {
        root as i64
    }
}

} // verus!
