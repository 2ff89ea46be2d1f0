//! Outcomes of games, and the handling of a single game between two competitors.

use vstd::prelude::*;
use crate::fixed::arith::ONE;
use crate::glicko2::algorithm::{rate, rated, impact, expectation, impact_of, expectation_of,
    lemma_expectation_symmetry};
use crate::glicko2::constants;
use crate::glicko2::error::RatingError;
use crate::glicko2::rating::{Rating, RatingModel};

verus! {

/// How a game ended for the competitor being rated.
#[derive(Debug, Clone, Copy, PartialEq, Eq, Structural)]
pub enum Status {
    Win,
    Draw,
    Loss,
}

impl Status {
    /// The score of the outcome: 1 for a win, 0.5 for a draw, 0 for a loss.
    pub open spec fn score(self) -> int {
        match self {
            Status::Win => constants::WIN as int,
            Status::Draw => constants::DRAW as int,
            Status::Loss => constants::LOSS as int,
        }
    }

    /// The score of the outcome as a fixed-point number.
    pub fn val(&self) -> (v: i64)
        ensures
            v == self.score(),
            *self == Status::Win ==> v == 1_000_000_000_000,
            *self == Status::Draw ==> v == 500_000_000_000,
            *self == Status::Loss ==> v == 0,
    {
        match self {
            Status::Win => constants::WIN,
            Status::Draw => constants::DRAW,
            Status::Loss => constants::LOSS,
        }
    }
}

/// The outcome of a game for its first competitor: a draw, or else a win.
pub open spec fn first_outcome(drawn: bool) -> Status {
    if drawn {
        Status::Draw
    } else {
        Status::Win
    }
}

/// The outcome of a game for its second competitor: a draw, or else a loss.
pub open spec fn second_outcome(drawn: bool) -> Status {
    if drawn {
        Status::Draw
    } else {
        Status::Loss
    }
}

/// The ratings of two competitors after one game between them: the first
/// is rated against the second as it was, the second against the first as
/// it has become. `None` where either update does not converge.
pub open spec fn competed(winner: RatingModel, loser: RatingModel, drawn: bool) -> Option<
    (RatingModel, RatingModel),
> {
    match rated(winner, seq![(first_outcome(drawn), loser)]) {
        None => None,
        Some(first) => match rated(loser, seq![(second_outcome(drawn), first)]) {
            None => None,
            Some(second) => Some((first, second)),
        },
    }
}

/// The score the first competitor is expected to make against the second,
/// both taken on the internal scale.
pub open spec fn odds_of(a: RatingModel, b: RatingModel) -> int {
    let x = a.scaled_down();
    let y = b.scaled_down();
    expectation_of(x.mu, y.mu, impact_of(x.phi, y.phi))
}

/// How even a game between two competitors is: one less the distance
/// between their expected scores against each other.
pub open spec fn quality_of(a: RatingModel, b: RatingModel) -> int {
    let advantage = odds_of(a, b) - odds_of(b, a);
    if advantage >= 0 {
        ONE - advantage
    } else {
        ONE + advantage
    }
}

/// The quality of a game is the same whichever competitor comes first.
pub proof fn lemma_quality_symmetric(a: RatingModel, b: RatingModel)
    ensures
        quality_of(a, b) == quality_of(b, a),
{
}

/// The expected scores of two competitors against each other add up to one.
pub proof fn lemma_odds_complement(a: RatingModel, b: RatingModel)
    ensures
        odds_of(a, b) + odds_of(b, a) == ONE,
{
    let x = a.scaled_down();
    let y = b.scaled_down();
    assert(impact_of(x.phi, y.phi) == impact_of(y.phi, x.phi));
    lemma_expectation_symmetry(x.mu, y.mu, impact_of(x.phi, y.phi));
}

/// Updates the ratings of two competitors after a game between them.
/// The first is the winner, unless `drawn` says the game was a draw.
///
/// Where either update fails, both ratings are left as they were.
pub fn compete(winner: &mut Rating, loser: &mut Rating, drawn: bool) -> (res: Result<
    (),
    RatingError,
>)
    requires
        old(winner).wf(),
        old(loser).wf(),
    ensures
        res is Ok ==> competed(old(winner)@, old(loser)@, drawn) == Some(
            (final(winner)@, final(loser)@),
        ),
        res is Ok ==> final(winner).wf() && final(loser).wf() && !final(winner).is_scaled
            && !final(loser).is_scaled,
        res matches Err(e) ==> e == RatingError::NumericNonConvergence && competed(
            old(winner)@,
            old(loser)@,
            drawn,
        ) is None && *final(winner) == *old(winner) && *final(loser) == *old(loser),
        final(winner).tuning == old(winner).tuning,
        final(loser).tuning == old(loser).tuning,
{
    let before: Rating = *loser;
    let mut first: Rating = *winner;
    let mut second: Rating = *loser;
    let first_status = if drawn {
        Status::Draw
    } else {
        Status::Win
    };
    let second_status = if drawn {
        Status::Draw
    } else {
        Status::Loss
    };
    let mut games: Vec<(Status, &Rating)> = Vec::new();
    games.push((first_status, &before));
    assert(crate::glicko2::algorithm::games_of(games@) == seq![(first_outcome(drawn), before@)]);
    match rate(&mut first, games) {
        Err(e) => Err(e),
        Ok(()) => {
            let after: Rating = first;
            let mut games: Vec<(Status, &Rating)> = Vec::new();
            games.push((second_status, &after));
            assert(crate::glicko2::algorithm::games_of(games@) == seq![
                (second_outcome(drawn), after@),
            ]);
            match rate(&mut second, games) {
                Err(e) => Err(e),
                Ok(()) => {
                    *winner = first;
                    *loser = second;
                    Ok(())
                },
            }
        },
    }
}

/// The score the first competitor is expected to make against the second.
/// Both ratings are taken on the internal scale, whichever scale they are given on.
pub fn odds(rating1: &Rating, rating2: &Rating) -> (e: i64)
    ensures
        e == odds_of(rating1@, rating2@),
        0 <= e <= ONE,
{
    let mut first: Rating = *rating1;
    let mut second: Rating = *rating2;
    first.scale_down();
    second.scale_down();
    expectation(first.mu, second.mu, impact(first.phi, second.phi))
}

/// The quality of a game between two competitors, where one is a perfectly even game.
pub fn quality(rating1: &Rating, rating2: &Rating) -> (q: i64)
    ensures
        q == quality_of(rating1@, rating2@),
        0 <= q <= ONE,
{
    let there: i64 = odds(rating1, rating2);
    let back: i64 = odds(rating2, rating1);
    let advantage: i64 = there - back;
    if advantage >= 0 {
        ONE - advantage
    } else {
        ONE + advantage
    }
}

} // verus!
