use glicko_2::glicko2::{
    algorithm,
    constants::{MU, PHI, SIGMA},
    game::{self, Status},
    rating::Rating,
    tuning::Tuning,
};

fn fixed(x: f64) -> i64 {
    (x * 1e12).round() as i64
}

fn as_float(x: i64) -> f64 {
    x as f64 / 1e12
}

const RATIO: f64 = 173.7178;

/// The method worked out in double precision, to hold the library against.
struct Double {
    mu: f64,
    phi: f64,
    sigma: f64,
}

fn double_impact(phi_a: f64, phi_b: f64) -> f64 {
    1.0 / (1.0 + 3.0 * (phi_a * phi_a + phi_b * phi_b) / (std::f64::consts::PI * std::f64::consts::PI)).sqrt()
}

fn double_expectation(mu_a: f64, mu_b: f64, impact: f64) -> f64 {
    1.0 / (1.0 + (-impact * (mu_a - mu_b)).exp())
}

fn double_volatility(phi: f64, sigma: f64, tau: f64, difference: f64, variance: f64) -> f64 {
    let alpha = (sigma * sigma).ln();
    let f = |x: f64| {
        let t = phi * phi + variance + x.exp();
        x.exp() * (difference * difference - t) / (2.0 * t * t) - (x - alpha) / (tau * tau)
    };
    let mut a = alpha;
    let mut b = if difference * difference > phi * phi + variance {
        (difference * difference - phi * phi - variance).ln()
    } else {
        let mut k = 1.0;
        while f(alpha - k * tau) < 0.0 {
            k += 1.0;
        }
        alpha - k * tau
    };
    let mut fa = f(a);
    let mut fb = f(b);
    let mut steps = 0;
    while (b - a).abs() > 1e-12 && steps < 200 {
        let c = a + (a - b) * fa / (fb - fa);
        let fc = f(c);
        if fc * fb < 0.0 {
            a = b;
            fa = fb;
        } else {
            fa /= 2.0;
        }
        b = c;
        fb = fc;
        steps += 1;
    }
    (a / 2.0).exp()
}

fn double_rate(subject: &Double, tau: f64, games: &[(f64, Double)]) -> Double {
    let mu = (subject.mu - 1500.0) / RATIO;
    let phi = subject.phi / RATIO;
    let mut weight = 0.0;
    let mut surprise = 0.0;
    for (score, opponent) in games.iter() {
        let impact = double_impact(phi, opponent.phi / RATIO);
        let expected = double_expectation(mu, (opponent.mu - 1500.0) / RATIO, impact);
        weight += impact * impact * expected * (1.0 - expected);
        surprise += impact * (score - expected);
    }
    let difference = surprise / weight.max(1e-4);
    let sigma = double_volatility(phi, subject.sigma, tau, difference, 1.0 / weight);
    let phi_star = (phi * phi + sigma * sigma).sqrt();
    let new_phi = 1.0 / (1.0 / (phi_star * phi_star) + weight).sqrt();
    let new_mu = mu + new_phi * new_phi * (difference * weight);
    Double { mu: new_mu * RATIO + 1500.0, phi: new_phi * RATIO, sigma }
}

/// A small generator of repeatable pseudo-random numbers in [0, 1).
struct Dice(u64);

impl Dice {
    fn roll(&mut self) -> f64 {
        self.0 = self.0.wrapping_mul(6364136223846793005).wrapping_add(1442695040888963407);
        ((self.0 >> 11) as f64) / ((1u64 << 53) as f64)
    }

    fn between(&mut self, low: f64, high: f64) -> f64 {
        // keep twelve decimals, so that the fixed-point input is the same number
        as_float(fixed(low + (high - low) * self.roll()))
    }
}

#[test]
fn updates_agree_with_double_precision() {
    let mut dice = Dice(20240229);
    for round in 0..400 {
        let tau = dice.between(0.3, 1.5);
        let tuning = Tuning::new(MU, PHI, SIGMA, fixed(tau));
        let subject = Double { mu: dice.between(600.0, 2900.0), phi: dice.between(30.0, 350.0), sigma: dice.between(0.003, 0.09) };
        let count = 1 + (dice.roll() * 6.0) as usize;
        let mut games: Vec<(f64, Double)> = Vec::new();
        for _ in 0..count {
            let score = [0.0, 0.5, 1.0][(dice.roll() * 3.0) as usize];
            games.push((score, Double { mu: dice.between(600.0, 2900.0), phi: dice.between(30.0, 350.0), sigma: 0.006 }));
        }
        let want = double_rate(&subject, tau, &games);

        let opponents: Vec<Rating> = games
            .iter()
            .map(|g| Rating { mu: fixed(g.1.mu), phi: fixed(g.1.phi), sigma: fixed(g.1.sigma), is_scaled: false, tuning: &tuning })
            .collect();
        let outcomes: Vec<(Status, &Rating)> = games
            .iter()
            .zip(opponents.iter())
            .map(|(g, o)| (if g.0 == 1.0 { Status::Win } else if g.0 == 0.5 { Status::Draw } else { Status::Loss }, o))
            .collect();
        let mut got = Rating { mu: fixed(subject.mu), phi: fixed(subject.phi), sigma: fixed(subject.sigma), is_scaled: false, tuning: &tuning };
        assert!(got.is_valid());
        algorithm::rate(&mut got, outcomes).unwrap();

        assert!((as_float(got.mu) - want.mu).abs() <= 1e-6, "round {}: mu {} but {}", round, as_float(got.mu), want.mu);
        assert!((as_float(got.phi) - want.phi).abs() <= 1e-6, "round {}: phi {} but {}", round, as_float(got.phi), want.phi);
        // the library stops once the bracket is within 10^-7, which fixes the
        // volatility to that, relatively
        assert!((as_float(got.sigma) - want.sigma).abs() <= want.sigma * 1e-7, "round {}: sigma {} but {}", round, as_float(got.sigma), want.sigma);
        assert!(got.is_valid());
        assert!(!got.is_scaled);
    }
}

#[test]
fn odds_agree_with_double_precision() {
    let mut dice = Dice(7);
    let tuning = Tuning::default();
    for _ in 0..400 {
        let a = Double { mu: dice.between(0.0, 3500.0), phi: dice.between(1.0, 700.0), sigma: 0.006 };
        let b = Double { mu: dice.between(0.0, 3500.0), phi: dice.between(1.0, 700.0), sigma: 0.006 };
        let impact = double_impact(a.phi / RATIO, b.phi / RATIO);
        let want = double_expectation((a.mu - 1500.0) / RATIO, (b.mu - 1500.0) / RATIO, impact);
        let first = Rating { mu: fixed(a.mu), phi: fixed(a.phi), sigma: SIGMA, is_scaled: false, tuning: &tuning };
        let second = Rating { mu: fixed(b.mu), phi: fixed(b.phi), sigma: SIGMA, is_scaled: false, tuning: &tuning };
        let got = game::odds(&first, &second);
        assert!((as_float(got) - want).abs() <= 5e-12, "odds {} but {}", as_float(got), want);
        let quality = game::quality(&first, &second);
        assert!((as_float(quality) - (1.0 - (2.0 * want - 1.0).abs())).abs() <= 1e-11);
    }
}
