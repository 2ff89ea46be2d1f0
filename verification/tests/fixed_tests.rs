use glicko_2::fixed::arith::{fx_div, fx_mul, narrow, wide_product, wide_quotient, LIMIT, ONE};
use glicko_2::fixed::exp::{exp_nonneg, fx_exp};
use glicko_2::fixed::ln::{fx_ln, ln_wide};
use glicko_2::fixed::sqrt::{fx_hypot, fx_sqrt, integer_sqrt};

fn fixed(x: f64) -> i64 {
    (x * 1e12).round() as i64
}

fn as_float(x: i64) -> f64 {
    x as f64 / 1e12
}

#[test]
fn products_round_toward_zero() {
    assert_eq!(fx_mul(ONE, ONE), ONE);
    assert_eq!(fx_mul(3 * ONE, -2 * ONE), -6 * ONE);
    assert_eq!(fx_mul(1, 999_999_999_999), 0);
    assert_eq!(fx_mul(-1, 999_999_999_999), 0);
    assert_eq!(fx_mul(1_500_000, 1_000_000), 1);
    assert_eq!(fx_mul(-1_500_000, 1_000_000), -1);
    assert_eq!(fx_mul(fixed(1.5), fixed(2.5)), fixed(3.75));
}

#[test]
fn products_saturate() {
    assert_eq!(fx_mul(i64::MAX, i64::MAX), LIMIT);
    assert_eq!(fx_mul(i64::MIN, i64::MAX), -LIMIT);
    assert_eq!(fx_mul(i64::MIN, i64::MIN), LIMIT);
    assert_eq!(fx_mul(i64::MIN, ONE), -LIMIT);
}

#[test]
fn ratios_round_toward_zero() {
    assert_eq!(fx_div(ONE, ONE), ONE);
    assert_eq!(fx_div(ONE, 3 * ONE), 333_333_333_333);
    assert_eq!(fx_div(-ONE, 3 * ONE), -333_333_333_333);
    assert_eq!(fx_div(ONE, -3 * ONE), -333_333_333_333);
    assert_eq!(fx_div(-ONE, -3 * ONE), 333_333_333_333);
    assert_eq!(fx_div(2 * ONE, 3 * ONE), 666_666_666_666);
    assert_eq!(fx_div(0, -5), 0);
}

#[test]
fn ratios_saturate() {
    assert_eq!(fx_div(i64::MAX, 1), LIMIT);
    assert_eq!(fx_div(i64::MIN, 1), -LIMIT);
    assert_eq!(fx_div(ONE, 1), LIMIT);
    assert_eq!(fx_div(ONE, -1), -LIMIT);
}

#[test]
fn wide_helpers() {
    assert_eq!(wide_product(i64::MIN, i64::MIN), 1i128 << 126);
    assert_eq!(wide_product(-3, 4), -12);
    assert_eq!(wide_quotient(7, 2), 3);
    assert_eq!(wide_quotient(-7, 2), -3);
    assert_eq!(wide_quotient(7, -2), -3);
    assert_eq!(wide_quotient(-7, -2), 3);
    assert_eq!(narrow(i128::MAX), LIMIT);
    assert_eq!(narrow(i128::MIN + 1), -LIMIT);
    assert_eq!(narrow(i64::MIN as i128), -LIMIT);
    assert_eq!(narrow(-5), -5);
}

#[test]
fn integer_square_roots() {
    assert_eq!(integer_sqrt(0), 0);
    assert_eq!(integer_sqrt(1), 1);
    assert_eq!(integer_sqrt(3), 1);
    assert_eq!(integer_sqrt(4), 2);
    assert_eq!(integer_sqrt(99), 9);
    assert_eq!(integer_sqrt(100), 10);
    assert_eq!(integer_sqrt(u128::MAX), u64::MAX as u128);
    assert_eq!(integer_sqrt((1u128 << 126) - 1), (1u128 << 63) - 1);
}

#[test]
fn square_roots() {
    assert_eq!(fx_sqrt(0), 0);
    assert_eq!(fx_sqrt(ONE), ONE);
    assert_eq!(fx_sqrt(4 * ONE), 2 * ONE);
    assert_eq!(fx_sqrt(2 * ONE), 1_414_213_562_373);
    assert_eq!(fx_sqrt(1), 1_000_000);
    assert_eq!(fx_sqrt(i64::MAX), 3_037_000_499_976_049);
}

#[test]
fn hypotenuses() {
    assert_eq!(fx_hypot(3 * ONE, 4 * ONE), 5 * ONE);
    assert_eq!(fx_hypot(-3 * ONE, 4 * ONE), 5 * ONE);
    assert_eq!(fx_hypot(0, 0), 0);
    assert_eq!(fx_hypot(0, -7), 7);
    assert_eq!(fx_hypot(ONE, ONE), 1_414_213_562_373);
    assert_eq!(fx_hypot(LIMIT, LIMIT), LIMIT);
    assert_eq!(fx_hypot(2_014_761_872_416, 6_000_000_000), 2_014_770_806_454);
}

#[test]
fn exponential_exact_values() {
    assert_eq!(fx_exp(0), ONE);
    assert_eq!(fx_exp(ONE), 2_718_281_828_459);
    assert_eq!(fx_exp(-ONE), 367_879_441_171);
    assert_eq!(fx_exp(17 * ONE), LIMIT);
    assert_eq!(fx_exp(i64::MAX), LIMIT);
    assert_eq!(fx_exp(-28 * ONE), 0);
    assert_eq!(fx_exp(i64::MIN), 0);
    assert_eq!(exp_nonneg(0), ONE as u128);
}

#[test]
fn exponential_against_double_precision() {
    let mut x: i64 = -27 * ONE;
    while x < 16 * ONE {
        let got = fx_exp(x) as f64;
        let want = as_float(x).exp() * 1e12;
        // within one unit below one, within a few parts in 10^12 above
        let slack = if want > 1e12 { want * 4e-12 } else { 1.5 };
        assert!((got - want).abs() <= slack, "exp({}) = {} but {}", x, got, want);
        x += 137_035_999_139;
    }
}

#[test]
fn exponential_is_positive_above_half_the_floor() {
    assert!(fx_exp(-14 * ONE + 1) > 0);
    assert!(fx_exp(-14 * ONE) > 0);
    assert_eq!(fx_exp(-27 * ONE), 1);
}

#[test]
fn logarithm_exact_values() {
    assert_eq!(fx_ln(ONE), 0);
    assert_eq!(fx_ln(2 * ONE), 693_147_180_559);
    assert_eq!(fx_ln(ONE / 2), -693_147_180_559);
    assert_eq!(fx_ln(2_718_281_828_459), 999_999_999_999);
    assert_eq!(fx_ln(6_000_000_000), -5_115_995_809_754);
    assert_eq!(fx_ln(1), -27_631_021_115_928);
    assert_eq!(ln_wide(1u128 << 96), 38_911_108_217_826);
}

#[test]
fn logarithm_against_double_precision() {
    let mut y: i64 = 1;
    while y < i64::MAX / 3 {
        let got = fx_ln(y) as f64;
        let want = as_float(y).ln() * 1e12;
        assert!((got - want).abs() <= 1.5, "ln({}) = {} but {}", y, got, want);
        y = y * 2 + y / 3 + 1;
    }
}

#[test]
fn exponential_undoes_logarithm() {
    let values = [6_000_000_000i64, 5_900_000_000, ONE, 350 * ONE, 2_014_761_872_416, 60_000_000_000];
    for &v in values.iter() {
        let back = fx_exp(fx_ln(v));
        assert!((back - v).abs() as f64 <= 2.0 + v as f64 * 2e-12, "{} came back as {}", v, back);
    }
}

#[test]
fn exponential_at_the_edges_of_its_range() {
    assert_eq!(fx_exp(17 * ONE - 1), LIMIT);
    assert!(fx_exp(16 * ONE) < LIMIT);
    // e^16 = 8886110.520507872636..., good to a few parts in 10^17
    assert!((fx_exp(16 * ONE) - 8_886_110_520_507_872_636).abs() <= 100);
    assert_eq!(fx_exp(-28 * ONE + 1), 0);
    assert_eq!(fx_exp(-27_631_021_115_928), 1);
    let top = exp_nonneg(28 * ONE as u64 - 1);
    assert!(top > (ONE as u128) * (ONE as u128));
}

#[test]
fn logarithm_of_a_wide_argument() {
    assert_eq!(ln_wide(1), -27_631_021_115_928);
    assert_eq!(ln_wide(ONE as u128), 0);
    // ln(10^9)
    assert_eq!(ln_wide(1_000_000_000u128 * ONE as u128), 20_723_265_836_946);
}

#[test]
fn exponential_never_falls() {
    let mut x: i64 = -29 * ONE;
    let mut last = fx_exp(x);
    while x < 18 * ONE {
        x += 61_803_398_875;
        let next = fx_exp(x);
        assert!(last <= next, "exp falls at {}", x);
        last = next;
    }
    // across a multiple of ln 2, where the polynomial starts over
    for k in 1..24i64 {
        let edge = k * 693_147_180_559;
        for offset in -3..=3i64 {
            assert!(fx_exp(edge + offset) <= fx_exp(edge + offset + 1));
            assert!(fx_exp(-edge + offset) <= fx_exp(-edge + offset + 1));
        }
    }
}
