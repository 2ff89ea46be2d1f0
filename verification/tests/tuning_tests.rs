use glicko_2::glicko2::{
    constants::{MU, PHI, SIGMA, TAU},
    tuning::Tuning,
};

fn as_float(x: i64) -> f64 {
    x as f64 / 1e12
}

fn fixed(x: f64) -> i64 {
    (x * 1e12).round() as i64
}

#[test]
fn can_make_default_tuning() {
    let tuning = Tuning::default();
    assert_eq!(tuning.mu, MU);
    assert_eq!(tuning.phi, PHI);
    assert_eq!(tuning.sigma, SIGMA);
    assert_eq!(tuning.tau, TAU);
}

#[test]
fn can_make_custom_tuning() {
    let tuning = Tuning::new(fixed(1200.0), fixed(200.0), fixed(0.05), fixed(0.6));
    assert_eq!(as_float(tuning.mu), 1200.0);
    assert_eq!(as_float(tuning.phi), 200.0);
    assert_eq!(as_float(tuning.sigma), 0.05);
    assert_eq!(as_float(tuning.tau), 0.6);
}

#[test]
fn default_tuning_is_valid() {
    assert!(Tuning::default().is_valid());
    assert!(Tuning::new(0, 1, 1, 1_000_000).is_valid());
    assert!(!Tuning::new(0, 0, 1, 1_000_000).is_valid());
    assert!(!Tuning::new(0, 1, -1, 1_000_000).is_valid());
}
