use glicko_2::glicko2::{
    algorithm,
    constants::{MU, PHI, SIGMA, TAU},
    error::RatingError,
    game,
    rating::Rating,
    solver::Criterion,
    tuning::Tuning,
};

const TUNING: Tuning = Tuning { mu: MU, phi: PHI, sigma: SIGMA, tau: TAU };

const ONE: i64 = 1_000_000_000_000;

fn fixed(x: f64) -> i64 {
    (x * 1e12).round() as i64
}

fn as_float(x: i64) -> f64 {
    x as f64 / 1e12
}

fn agrees(actual: i64, expected: f64, tolerance: f64) -> bool {
    (as_float(actual) - expected).abs() <= tolerance
}

fn other() -> Rating<'static> {
    Rating { mu: fixed(1450.0), phi: fixed(200.0), sigma: fixed(0.0059), is_scaled: false, tuning: &TUNING }
}

#[test]
fn reduce_impact() {
    let mut new_rating = Rating::new(&TUNING);
    let mut other_rating = Rating {
        mu: fixed(1450.0),
        phi: fixed(200.0),
        sigma: fixed(0.0059),
        is_scaled: false,
        tuning: &TUNING,
    };
    new_rating.scale_down();
    other_rating.scale_down();
    let impact = algorithm::reduce_impact(&new_rating, &other_rating).unwrap();
    assert!(agrees(impact, 0.6158349285183401, 1e-12));
    assert_eq!(impact, 615_834_928_518);
}

#[test]
#[should_panic]
fn reduce_impact_unscaled() {
    let new_rating = Rating::new(&TUNING);
    let other_rating = Rating {
        mu: fixed(1450.0),
        phi: fixed(200.0),
        sigma: fixed(0.0059),
        is_scaled: false,
        tuning: &TUNING,
    };
    let impact = algorithm::reduce_impact(&new_rating, &other_rating).unwrap();
    assert_eq!(as_float(impact), 0.0);
}

#[test]
fn compare() {
    let mut new_rating = Rating::new(&TUNING);
    let mut other_rating = Rating {
        mu: fixed(1450.0),
        phi: fixed(200.0),
        sigma: fixed(0.0059),
        is_scaled: false,
        tuning: &TUNING,
    };
    algorithm::rate(&mut new_rating, vec![(game::Status::Win, &mut other_rating)]).unwrap();
    println!("{:?}", new_rating);
    assert!(agrees(new_rating.mu, 1643.2419919603035, 1e-8));
    assert!(agrees(new_rating.phi, 297.73966575502345, 1e-8));
    assert!(agrees(new_rating.sigma, 0.005999997552929708, 2e-12));
    assert!(!new_rating.is_scaled);
}

#[test]
fn single_win_exact_values() {
    let mut subject = Rating::new(&TUNING);
    let opponent = other();
    algorithm::rate(&mut subject, vec![(game::Status::Win, &opponent)]).unwrap();
    assert_eq!(subject.mu, 1_643_241_991_959_559);
    assert_eq!(subject.phi, 297_739_665_755_333);
    assert_eq!(subject.sigma, 5_999_997_552);
    assert!(!subject.is_scaled);
    // the opponent is only read
    assert_eq!((opponent.mu, opponent.phi, opponent.sigma, opponent.is_scaled), (fixed(1450.0), fixed(200.0), fixed(0.0059), false));
}

#[test]
fn single_loss_and_draw() {
    let opponent = other();
    let mut lost = Rating::new(&TUNING);
    algorithm::rate(&mut lost, vec![(game::Status::Loss, &opponent)]).unwrap();
    assert!(agrees(lost.mu, 1328.978892446604, 1e-8));
    assert!(agrees(lost.phi, 297.739665755854, 1e-8));
    let mut drew = Rating::new(&TUNING);
    algorithm::rate(&mut drew, vec![(game::Status::Draw, &opponent)]).unwrap();
    assert!(agrees(drew.mu, 1486.1104422036067, 1e-8));
    assert!(lost.mu < drew.mu && drew.mu < MU);
}

#[test]
fn rate_reads_opponents_on_either_scale() {
    let opponent = other();
    let mut inner = opponent;
    inner.scale_down();
    let mut first = Rating::new(&TUNING);
    let mut second = Rating::new(&TUNING);
    algorithm::rate(&mut first, vec![(game::Status::Win, &opponent)]).unwrap();
    algorithm::rate(&mut second, vec![(game::Status::Win, &inner)]).unwrap();
    assert_eq!((first.mu, first.phi, first.sigma), (second.mu, second.phi, second.sigma));
    assert!(inner.is_scaled);
}

#[test]
fn rate_of_an_internal_subject_ends_on_the_public_scale() {
    let opponent = other();
    let mut subject = Rating::new(&TUNING);
    subject.scale_down();
    algorithm::rate(&mut subject, vec![(game::Status::Win, &opponent)]).unwrap();
    assert!(!subject.is_scaled);
    assert_eq!(subject.mu, 1_643_241_991_959_559);
}

#[test]
fn three_games_in_one_period() {
    let tuning = Tuning::new(MU, fixed(200.0), fixed(0.06), fixed(0.5));
    let mut subject = Rating::new(&tuning);
    let a = Rating { mu: fixed(1400.0), phi: fixed(30.0), sigma: fixed(0.06), is_scaled: false, tuning: &tuning };
    let b = Rating { mu: fixed(1550.0), phi: fixed(100.0), sigma: fixed(0.06), is_scaled: false, tuning: &tuning };
    let c = Rating { mu: fixed(1700.0), phi: fixed(300.0), sigma: fixed(0.06), is_scaled: false, tuning: &tuning };
    algorithm::rate(
        &mut subject,
        vec![(game::Status::Win, &a), (game::Status::Loss, &b), (game::Status::Loss, &c)],
    ).unwrap();
    assert!(agrees(subject.mu, 1463.216827969473, 1e-8));
    assert!(agrees(subject.phi, 160.0860205492273, 1e-8));
    assert!(agrees(subject.sigma, 0.05999667571312383, 2e-12));
}

#[test]
fn no_games_grow_the_deviation_as_a_decay_does() {
    let mut idle = Rating::new(&TUNING);
    algorithm::rate(&mut idle, vec![]).unwrap();
    assert_eq!(idle.mu, MU);
    assert!(agrees(idle.phi, 350.0015520015094, 1e-8));
    assert!(agrees(idle.sigma, 0.006, 2e-12));
    assert!(!idle.is_scaled);
}

#[test]
fn upset_against_a_far_weaker_opponent() {
    let mut strong = Rating { mu: fixed(2800.0), phi: fixed(50.0), sigma: SIGMA, is_scaled: false, tuning: &TUNING };
    let weak = Rating { mu: fixed(1000.0), phi: fixed(50.0), sigma: SIGMA, is_scaled: false, tuning: &TUNING };
    algorithm::rate(&mut strong, vec![(game::Status::Loss, &weak)]).unwrap();
    assert!(strong.mu < fixed(2800.0));
    assert!(strong.sigma > SIGMA);
    assert!(strong.is_valid());
}

#[test]
fn rate_reports_non_convergence_and_keeps_the_rating() {
    let loose = Tuning::new(MU, PHI, SIGMA, i64::MAX);
    let mut subject = Rating::new(&loose);
    let opponent = other();
    let result = algorithm::rate(&mut subject, vec![(game::Status::Win, &opponent)]);
    assert_eq!(result, Err(RatingError::NumericNonConvergence));
    assert_eq!((subject.mu, subject.phi, subject.sigma, subject.is_scaled), (MU, PHI, SIGMA, false));
}

#[test]
fn impact_is_above_zero_and_at_most_one() {
    let values = [0i64, 1, ONE, fixed(2.014761872416068), fixed(1000.0), i64::MAX, i64::MIN, -ONE];
    for &a in values.iter() {
        for &b in values.iter() {
            let g = algorithm::impact(a, b);
            assert!(0 < g && g <= ONE);
            assert_eq!(g, algorithm::impact(b, a));
        }
    }
    assert_eq!(algorithm::impact(0, 0), ONE);
    // 1 / sqrt(1 + 3 / pi^2)
    assert!(agrees(algorithm::impact(ONE, 0), 0.8757240442223502, 1e-12));
}

#[test]
fn expectation_exact_values() {
    assert_eq!(algorithm::expectation(0, 0, ONE), ONE / 2);
    // 1 / (1 + e^-1) and 1 / (1 + e)
    assert!(agrees(algorithm::expectation(ONE, 0, ONE), 0.7310585786300049, 1e-12));
    assert!(agrees(algorithm::expectation(0, ONE, ONE), 0.2689414213699951, 1e-12));
    assert_eq!(algorithm::expectation(i64::MAX, i64::MIN, ONE), ONE);
    assert_eq!(algorithm::expectation(i64::MIN, i64::MAX, ONE), 0);
    assert_eq!(algorithm::expectation(i64::MAX, i64::MIN, 0), ONE / 2);
}

#[test]
fn expectations_add_up_to_one() {
    let skills = [0i64, 1, -1, ONE, fixed(-0.2878231246), fixed(7.5), fixed(-30.0), i64::MAX, i64::MIN];
    let impacts = [0i64, 1, fixed(0.6158349285), ONE, -ONE, i64::MAX, i64::MIN];
    for &a in skills.iter() {
        for &b in skills.iter() {
            for &g in impacts.iter() {
                let there = algorithm::expectation(a, b, g);
                let back = algorithm::expectation(b, a, g);
                assert!(0 <= there && there <= ONE);
                assert_eq!(there + back, ONE);
            }
        }
    }
}

#[test]
fn unscaled_operands_are_rejected() {
    let mut inner = Rating::new(&TUNING);
    inner.scale_down();
    let outer = other();
    assert_eq!(algorithm::reduce_impact(&outer, &inner), Err(RatingError::PreconditionViolation));
    assert_eq!(algorithm::reduce_impact(&inner, &outer), Err(RatingError::PreconditionViolation));
    assert_eq!(algorithm::reduce_impact(&outer, &outer), Err(RatingError::PreconditionViolation));
    assert!(algorithm::reduce_impact(&inner, &inner).is_ok());
    assert_eq!(algorithm::expect_score(&outer, &inner, ONE), Err(RatingError::PreconditionViolation));
    assert_eq!(algorithm::expect_score(&inner, &outer, ONE), Err(RatingError::PreconditionViolation));
    assert_eq!(algorithm::expect_score(&outer, &outer, ONE), Err(RatingError::PreconditionViolation));
    assert_eq!(algorithm::expect_score(&inner, &inner, ONE), Ok(ONE / 2));
}

#[test]
fn expect_score_of_the_single_win() {
    let mut subject = Rating::new(&TUNING);
    let mut opponent = other();
    subject.scale_down();
    opponent.scale_down();
    let impact = algorithm::reduce_impact(&subject, &opponent).unwrap();
    let expected = algorithm::expect_score(&subject, &opponent, impact).unwrap();
    assert!(agrees(expected, 0.5441972277941666, 1e-12));
    assert_eq!(expected, 544_197_227_794);
}

#[test]
fn determine_sigma_of_the_single_win() {
    let mut subject = Rating::new(&TUNING);
    subject.scale_down();
    // improvement and variance of the single win, on the internal scale
    let difference = fixed(2.9838616941);
    let variance = fixed(10.6301093919);
    let sigma = algorithm::determine_sigma(&subject, &difference, &variance).unwrap();
    assert!(agrees(sigma, 0.005999997552929708, 2e-12));
    assert!(sigma > 0 && sigma < SIGMA);
}

#[test]
fn determine_sigma_starts_from_the_logarithm_for_a_large_improvement() {
    let mut subject = Rating::new(&TUNING);
    subject.scale_down();
    // the squared improvement exceeds phi^2 + v, so the far end is ln(d^2 - phi^2 - v)
    let difference = fixed(10.0);
    let variance = fixed(1.0);
    let sigma = algorithm::determine_sigma(&subject, &difference, &variance).unwrap();
    // both ends of the last bracket lie within the tolerance of the root,
    // which fixes the volatility to a few parts in 10^8
    assert!(agrees(sigma, 0.006000338542373312, 5e-10));
    assert!(sigma > SIGMA);
}

#[test]
fn determine_sigma_reports_non_convergence() {
    let loose = Tuning::new(MU, PHI, SIGMA, i64::MAX);
    let mut subject = Rating::new(&loose);
    subject.scale_down();
    let result = algorithm::determine_sigma(&subject, &0, &ONE);
    assert_eq!(result, Err(RatingError::NumericNonConvergence));
}

#[test]
fn criterion_changes_sign_across_the_first_bracket() {
    let criterion = Criterion::new(fixed(2.014761872416), SIGMA, TAU, fixed(2.9838616941), fixed(10.6301093919));
    let at_alpha = criterion.eval(criterion.alpha);
    assert!(at_alpha < 0);
    assert!(agrees(at_alpha, -4.8266e-7, 1e-10));
    let far = criterion.find_far_end().unwrap();
    assert_eq!(far, criterion.alpha - TAU);
    assert!(criterion.eval(far) > 0);
    let ends = criterion.refine(far).unwrap();
    assert!((ends.0 - ends.1).abs() <= 100_000);
    assert_eq!(criterion.eval(ends.0), 0);
}

#[test]
fn solver_converges_over_a_grid() {
    let deviations = [0.2, 0.8, 2.014761872416, 5.0];
    let volatilities = [0.0001, 0.006, 0.06, 0.5];
    let constraints = [0.2, 0.5, 1.3];
    let improvements = [-40.0, -3.0, 0.0, 0.4, 2.9838616941, 25.0];
    let variances = [0.05, 1.0, 10.6301093919, 900.0];
    for &phi in deviations.iter() {
        for &sigma in volatilities.iter() {
            for &tau in constraints.iter() {
                for &difference in improvements.iter() {
                    for &variance in variances.iter() {
                        let criterion = Criterion::new(fixed(phi), fixed(sigma), fixed(tau), fixed(difference), fixed(variance));
                        let far = criterion.find_far_end().unwrap();
                        let ends = criterion.refine(far).unwrap();
                        assert!((ends.0 - ends.1).abs() <= 100_000);
                        let found = criterion.solve().unwrap();
                        assert!(found > 0);
                        // the criterion changes sign between the ends, or is zero at both
                        let near = criterion.eval(ends.0) as i128;
                        let far_value = criterion.eval(ends.1) as i128;
                        assert!(near * far_value <= 0, "no root between {:?} for {:?}", ends, (phi, sigma, tau, difference, variance));
                    }
                }
            }
        }
    }
}

#[test]
fn solver_takes_the_exact_root_when_it_meets_one() {
    // without games the criterion is flat at its start: the root is alpha itself
    let criterion = Criterion::new(fixed(2.014761872416), SIGMA, TAU, 0, i64::MAX);
    let far = criterion.find_far_end().unwrap();
    let ends = criterion.refine(far).unwrap();
    assert_eq!(ends.0, ends.1);
    assert!((ends.0 - criterion.alpha).abs() <= 5);
    assert_eq!(criterion.eval(ends.0), 0);
}

#[test]
fn impact_falls_as_deviations_grow() {
    let deviations = [0i64, 1, fixed(0.1), fixed(1.151292498523), fixed(2.014761872416), fixed(40.0), i64::MAX];
    for pair in deviations.windows(2) {
        for &other in deviations.iter() {
            assert!(algorithm::impact(pair[1], other) <= algorithm::impact(pair[0], other));
            assert!(algorithm::impact(other, pair[1]) <= algorithm::impact(other, pair[0]));
        }
    }
}

#[test]
fn expectation_rises_with_the_rating() {
    let skills = [i64::MIN, fixed(-30.0), fixed(-0.2878231246), -1, 0, 1, fixed(0.5), fixed(7.5), i64::MAX];
    let impacts = [0i64, 1, fixed(0.6158349285), ONE];
    for pair in skills.windows(2) {
        for &opponent in skills.iter() {
            for &g in impacts.iter() {
                assert!(algorithm::expectation(pair[0], opponent, g) <= algorithm::expectation(pair[1], opponent, g));
            }
        }
    }
}
