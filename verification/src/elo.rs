//! The integer side of the rating update: what a score line means for the
//! result score of the home side and for the weight of the update.

use vstd::prelude::*;

verus! {

/// How a match ended, seen from the home side.
#[derive(Debug, Clone, Copy, PartialEq, Eq, Structural)]
pub enum MatchOutcome {
    HomeWin,
    Draw,
    AwayWin,
}

/// The outcome that a score line stands for.
pub open spec fn outcome_of(goals_home: int, goals_away: int) -> MatchOutcome {
    if goals_home > goals_away {
        MatchOutcome::HomeWin
    } else if goals_home < goals_away {
        MatchOutcome::AwayWin
    } else {
        MatchOutcome::Draw
    }
}

/// Square of the weight that the goal margin gives to a rating update:
/// the absolute goal difference, but at least 1.
pub open spec fn margin_weight_squared(goals_home: int, goals_away: int) -> int {
    let margin = if goals_home >= goals_away {
        goals_home - goals_away
    } else {
        goals_away - goals_home
    };
    if margin < 1 {
        1
    } else {
        margin
    }
}

impl MatchOutcome {
    /// Twice the result score of the home side: 2 for a win, 1 for a draw,
    /// 0 for a defeat. It equals the sign of the goal difference plus one.
    pub open spec fn score_doubled(self) -> int {
        match self {
            MatchOutcome::HomeWin => 2,
            MatchOutcome::Draw => 1,
            MatchOutcome::AwayWin => 0,
        }
    }

    /// Table points that the outcome earns the home side: three for a win,
    /// one for a draw.
    pub open spec fn home_points(self) -> int {
        match self {
            MatchOutcome::HomeWin => 3,
            MatchOutcome::Draw => 1,
            MatchOutcome::AwayWin => 0,
        }
    }

    /// The same outcome seen from the other side.
    pub open spec fn reversed(self) -> MatchOutcome {
        match self {
            MatchOutcome::HomeWin => MatchOutcome::AwayWin,
            MatchOutcome::Draw => MatchOutcome::Draw,
            MatchOutcome::AwayWin => MatchOutcome::HomeWin,
        }
    }

    /// Twice the result score of the home side. Halved it is the score
    /// that the rating update compares with the expected score.
    pub fn result_score_doubled(&self) -> (twice: u8)
        ensures
            twice == self.score_doubled(),
    {
        match self {
            MatchOutcome::HomeWin => 2,
            MatchOutcome::Draw => 1,
            MatchOutcome::AwayWin => 0,
        }
    }
}

/// Classifies a score line.
pub fn match_outcome(goals_home: i32, goals_away: i32) -> (outcome: MatchOutcome)
    ensures
        outcome == outcome_of(goals_home as int, goals_away as int),
        outcome.score_doubled() == (if goals_home > goals_away {
            1int
        } else if goals_home < goals_away {
            -1int
        } else {
            0int
        }) + 1,
{
    if goals_home > goals_away {
        MatchOutcome::HomeWin
    } else if goals_home < goals_away {
        MatchOutcome::AwayWin
    } else {
        MatchOutcome::Draw
    }
}

/// The squared margin weight of a score line. The rating update scales with
/// its square root.
pub fn goal_margin_weight_squared(goals_home: i32, goals_away: i32) -> (weight: u32)
    ensures
        weight == margin_weight_squared(goals_home as int, goals_away as int),
        weight >= 1,
{
    let diff: i64 = goals_home as i64 - goals_away as i64;
    let margin: i64 = if diff < 0 {
        -diff
    } else {
        diff
    };
    if margin < 1 {
        1
    } else {
        margin as u32
    }
}

/// A wider goal margin never weighs less, and among decided matches a
/// strictly wider margin weighs strictly more.
pub proof fn lemma_margin_weight_grows_with_margin(
    goals_home: int,
    goals_away: int,
    more_home: int,
    more_away: int,
)
    requires
        goals_home >= goals_away,
        more_home - more_away >= goals_home - goals_away,
    ensures
        margin_weight_squared(more_home, more_away) >= margin_weight_squared(
            goals_home,
            goals_away,
        ),
        goals_home > goals_away && more_home - more_away > goals_home - goals_away
            ==> margin_weight_squared(more_home, more_away) > margin_weight_squared(
            goals_home,
            goals_away,
        ),
{
}

/// Swapping the two sides of a score line reverses the outcome and keeps
/// the margin weight.
pub proof fn lemma_swapped_score_line(goals_home: int, goals_away: int)
    ensures
        outcome_of(goals_away, goals_home) == outcome_of(goals_home, goals_away).reversed(),
        outcome_of(goals_away, goals_home).score_doubled() + outcome_of(
            goals_home,
            goals_away,
        ).score_doubled() == 2,
        margin_weight_squared(goals_away, goals_home) == margin_weight_squared(
            goals_home,
            goals_away,
        ),
{
}

} // verus!
