//! The shape of a season and the walk through its fixtures.

use crate::models::Match;
use crate::table::{adjustment_has_length, adjustments_fit};
use vstd::prelude::*;

verus! {

/// What is wrong with the shape of a season.
#[derive(Debug, Clone, Copy, PartialEq, Eq, Structural)]
pub enum ShapeError {
    /// The number of ratings is not the number of teams.
    RatingCount,
    /// A supplied adjustment vector does not have one entry per team.
    AdjustmentLength,
    /// A fixture names a team outside the league.
    TeamOutOfRange,
    /// A fixture carries one goal count without the other.
    PartialResult,
}

/// What the walk has to do next.
#[derive(Debug, Clone, Copy, PartialEq, Eq, Structural)]
pub enum Fixture {
    /// The next match has no result: it is to be simulated, and its result
    /// handed to [`SeasonWalk::record_result`].
    Unplayed { team_home: usize, team_away: usize },
    /// The next match has a result: the ratings follow it, and the walk
    /// moves on with [`SeasonWalk::advance`].
    Played { team_home: usize, team_away: usize, goals_home: i32, goals_away: i32 },
    /// No match is left.
    Finished,
}

/// The fixture is between two teams of the league and carries both goal
/// counts or neither.
pub open spec fn fixture_ok(m: Match, number_teams: int) -> bool {
    m.teams_within(number_teams) && m.well_formed()
}

/// All fixtures are in order.
pub open spec fn fixtures_ok(matches: Seq<Match>, number_teams: int) -> bool {
    forall|k: int| 0 <= k < matches.len() ==> fixture_ok(#[trigger] matches[k], number_teams)
}

/// `k` is the first fixture that is not in order, and `error` says what is
/// wrong with it: its teams, or else its result.
pub open spec fn first_bad_fixture(
    matches: Seq<Match>,
    number_teams: int,
    k: int,
    error: ShapeError,
) -> bool {
    &&& 0 <= k < matches.len()
    &&& fixtures_ok(matches.take(k), number_teams)
    &&& !fixture_ok(matches[k], number_teams)
    &&& error == if matches[k].teams_within(number_teams) {
        ShapeError::PartialResult
    } else {
        ShapeError::TeamOutOfRange
    }
}

/// Looks for the first fixture that is not in order.
fn check_fixtures(matches: &[Match], number_teams: usize) -> (found: Result<(), ShapeError>)
    ensures
        match found {
            Ok(()) => fixtures_ok(matches@, number_teams as int),
            Err(error) => exists|k: int|
                #[trigger] first_bad_fixture(matches@, number_teams as int, k, error),
        },
{
    let mut k: usize = 0;
    while k < matches.len()
        invariant
            k <= matches@.len(),
            fixtures_ok(matches@.take(k as int), number_teams as int),
        decreases matches@.len() - k,
    {
        let m = matches[k];
        if !(m.team_home < number_teams && m.team_away < number_teams) {
            assert(first_bad_fixture(
                matches@,
                number_teams as int,
                k as int,
                ShapeError::TeamOutOfRange,
            ));
            return Err(ShapeError::TeamOutOfRange);
        }
        if m.goals_home.is_some() != m.goals_away.is_some() {
            assert(first_bad_fixture(
                matches@,
                number_teams as int,
                k as int,
                ShapeError::PartialResult,
            ));
            return Err(ShapeError::PartialResult);
        }
        k = k + 1;
    }
    proof {
        assert(matches@.take(k as int) =~= matches@);
    }
    Ok(())
}

/// Checks the shape of a season before anything is simulated: one rating
/// and, where an adjustment vector is supplied, one adjustment per team,
/// and every fixture in order. The ratings are looked at first, then the
/// adjustment vectors, then the fixtures in their order.
pub fn check_season_shape(
    matches: &[Match],
    number_teams: usize,
    rating_count: usize,
    adj_points: Option<&[i32]>,
    adj_goals: Option<&[i32]>,
    adj_goals_against: Option<&[i32]>,
    adj_goal_diff: Option<&[i32]>,
) -> (found: Result<(), ShapeError>)
    ensures
        match found {
            Ok(()) => {
                &&& rating_count == number_teams
                &&& adjustments_fit(
                    adj_points,
                    adj_goals,
                    adj_goals_against,
                    adj_goal_diff,
                    number_teams as int,
                )
                &&& fixtures_ok(matches@, number_teams as int)
            },
            Err(ShapeError::RatingCount) => rating_count != number_teams,
            Err(ShapeError::AdjustmentLength) => {
                &&& rating_count == number_teams
                &&& !adjustments_fit(
                    adj_points,
                    adj_goals,
                    adj_goals_against,
                    adj_goal_diff,
                    number_teams as int,
                )
            },
            Err(error) => {
                &&& rating_count == number_teams
                &&& adjustments_fit(
                    adj_points,
                    adj_goals,
                    adj_goals_against,
                    adj_goal_diff,
                    number_teams as int,
                )
                &&& exists|k: int|
                    #[trigger] first_bad_fixture(matches@, number_teams as int, k, error)
            },
        },
{
    if rating_count != number_teams {
        return Err(ShapeError::RatingCount);
    }
    if !(adjustment_has_length(adj_points, number_teams) && adjustment_has_length(
        adj_goals,
        number_teams,
    ) && adjustment_has_length(adj_goals_against, number_teams) && adjustment_has_length(
        adj_goal_diff,
        number_teams,
    )) {
        return Err(ShapeError::AdjustmentLength);
    }
    let found = check_fixtures(matches, number_teams);
    proof {
        if let Err(error) = found {
            // What is wrong with a fixture is its teams or its result.
            let k = choose|k: int|
                #[trigger] first_bad_fixture(matches@, number_teams as int, k, error);
            assert(error == ShapeError::PartialResult || error == ShapeError::TeamOutOfRange);
        }
    }
    found
}

/// The fixture with the given goals as its result.
pub open spec fn with_result(m: Match, goals: (i32, i32)) -> Match {
    Match { goals_home: Some(goals.0), goals_away: Some(goals.1), ..m }
}

/// The number of fixtures without a result.
pub open spec fn unplayed_count(matches: Seq<Match>) -> nat
    decreases matches.len(),
{
    if matches.len() == 0 {
        0
    } else {
        unplayed_count(matches.drop_last()) + if matches.last().played() {
            0nat
        } else {
            1nat
        }
    }
}

/// The season as it stands when the fixtures without a result have taken
/// `results`, one each, in fixture order. Fixtures with a result keep it.
pub open spec fn completed(matches: Seq<Match>, results: Seq<(i32, i32)>) -> Seq<Match>
    decreases matches.len(),
{
    if matches.len() == 0 {
        Seq::empty()
    } else if matches.last().played() {
        completed(matches.drop_last(), results).push(matches.last())
    } else {
        completed(matches.drop_last(), results.drop_last()).push(
            with_result(matches.last(), results.last()),
        )
    }
}

/// A completed season has the fixtures of the season, in their order and
/// between the same teams; every fixture has a result, and the fixtures
/// that had one kept it.
pub proof fn lemma_completed_season(matches: Seq<Match>, results: Seq<(i32, i32)>)
    ensures
        completed(matches, results).len() == matches.len(),
        forall|k: int|
            0 <= k < matches.len() ==> {
                let done = #[trigger] completed(matches, results)[k];
                &&& done.played()
                &&& done.team_home == matches[k].team_home
                &&& done.team_away == matches[k].team_away
                &&& matches[k].played() ==> done == matches[k]
            },
    decreases matches.len(),
{
    if matches.len() > 0 {
        let earlier = if matches.last().played() {
            results
        } else {
            results.drop_last()
        };
        lemma_completed_season(matches.drop_last(), earlier);
        assert forall|k: int| 0 <= k < matches.len() implies {
            let done = #[trigger] completed(matches, results)[k];
            &&& done.played()
            &&& done.team_home == matches[k].team_home
            &&& done.team_away == matches[k].team_away
            &&& matches[k].played() ==> done == matches[k]
        } by {
            if k < matches.len() - 1 {
                assert(completed(matches, results)[k] == completed(matches.drop_last(), earlier)[k]);
                assert(matches.drop_last()[k] == matches[k]);
            }
        }
    }
}

/// A season in which every match has been played is complete as it is,
/// whatever results are on offer.
pub proof fn lemma_played_season_is_complete(matches: Seq<Match>, results: Seq<(i32, i32)>)
    requires
        forall|k: int| 0 <= k < matches.len() ==> (#[trigger] matches[k]).played(),
    ensures
        completed(matches, results) == matches,
        unplayed_count(matches) == 0,
    decreases matches.len(),
{
    if matches.len() > 0 {
        assert forall|k: int| 0 <= k < matches.drop_last().len() implies (
        #[trigger] matches.drop_last()[k]).played() by {
            assert(matches[k].played());
        }
        lemma_played_season_is_complete(matches.drop_last(), results);
        assert(matches.drop_last().push(matches.last()) =~= matches);
    }
}

/// The walk through the fixtures of a season, in fixture order.
///
/// The walk decides what happens to each fixture; the ratings, and the
/// simulation of a match, are the caller's. It keeps a copy of the fixtures
/// and writes the simulated results into it, so the input stays as it was.
pub struct SeasonWalk {
    matches: Vec<Match>,
    next: usize,
    league: Ghost<int>,
    initial: Ghost<Seq<Match>>,
    results: Ghost<Seq<(i32, i32)>>,
}

impl SeasonWalk {
    /// The fixtures as they stand now.
    pub closed spec fn matches(&self) -> Seq<Match> {
        self.matches@
    }

    /// The index of the next fixture.
    pub closed spec fn position(&self) -> int {
        self.next as int
    }

    /// The number of teams of the league.
    pub closed spec fn league(&self) -> int {
        self.league@
    }

    /// The fixtures as the walk received them.
    pub closed spec fn initial(&self) -> Seq<Match> {
        self.initial@
    }

    /// The simulated results recorded so far, in the order in which they came.
    pub closed spec fn results(&self) -> Seq<(i32, i32)> {
        self.results@
    }

    /// The fixtures behind the walk are completed with the results recorded
    /// so far, one for each fixture that had none; the fixtures ahead are
    /// untouched.
    pub open spec fn wf(&self) -> bool {
        &&& 0 <= self.position() <= self.initial().len()
        &&& fixtures_ok(self.initial(), self.league())
        &&& self.results().len() == unplayed_count(self.initial().take(self.position()))
        &&& self.matches() == completed(self.initial().take(self.position()), self.results())
            + self.initial().skip(self.position())
    }

    /// The whole season has been walked.
    pub open spec fn finished(&self) -> bool {
        self.position() == self.initial().len()
    }

    /// What the walk has to do next.
    pub open spec fn pending(&self) -> Fixture {
        if self.finished() {
            Fixture::Finished
        } else {
            let m = self.initial()[self.position()];
            if m.played() {
                Fixture::Played {
                    team_home: m.team_home,
                    team_away: m.team_away,
                    goals_home: m.goals_home->0,
                    goals_away: m.goals_away->0,
                }
            } else {
                Fixture::Unplayed { team_home: m.team_home, team_away: m.team_away }
            }
        }
    }

    /// Starts the walk at the first fixture, on a copy of `matches`. A
    /// fixture list with a fixture that is not in order is refused, with
    /// what is wrong with the first such fixture.
    pub fn start(matches: &[Match], number_teams: usize) -> (walk: Result<SeasonWalk, ShapeError>)
        ensures
            match walk {
                Ok(walk) => {
                    &&& fixtures_ok(matches@, number_teams as int)
                    &&& walk.wf()
                    &&& walk.position() == 0
                    &&& walk.league() == number_teams
                    &&& walk.initial() == matches@
                    &&& walk.matches() == matches@
                    &&& walk.results() == Seq::<(i32, i32)>::empty()
                },
                Err(error) => exists|k: int|
                    #[trigger] first_bad_fixture(matches@, number_teams as int, k, error),
            },
    {
        match check_fixtures(matches, number_teams) {
            Ok(()) => {},
            Err(error) => {
                return Err(error);
            },
        }
        let mut copy: Vec<Match> = Vec::new();
        let mut k: usize = 0;
        while k < matches.len()
            invariant
                k <= matches@.len(),
                copy@ == matches@.take(k as int),
            decreases matches@.len() - k,
        {
            copy.push(matches[k]);
            k = k + 1;
        }
        proof {
            assert(completed(matches@.take(0), Seq::<(i32, i32)>::empty()) + matches@.skip(0)
                =~= matches@);
        }
        Ok(
            SeasonWalk {
                matches: copy,
                next: 0,
                league: Ghost(number_teams as int),
                initial: Ghost(matches@),
                results: Ghost(Seq::empty()),
            },
        )
    }

    /// What the walk has to do next. The teams of the fixture are teams of
    /// the league.
    pub fn next_fixture(&self) -> (fixture: Fixture)
        requires
            self.wf(),
        ensures
            fixture == self.pending(),
            match fixture {
                Fixture::Unplayed { team_home, team_away } => team_home < self.league()
                    && team_away < self.league(),
                Fixture::Played { team_home, team_away, .. } => team_home < self.league()
                    && team_away < self.league(),
                Fixture::Finished => true,
            },
    {
        proof {
            lemma_completed_season(self.initial@.take(self.next as int), self.results@);
        }
        if self.next >= self.matches.len() {
            return Fixture::Finished;
        }
        let m = self.matches[self.next];
        match (m.goals_home, m.goals_away) {
            (Some(goals_home), Some(goals_away)) => Fixture::Played {
                team_home: m.team_home,
                team_away: m.team_away,
                goals_home,
                goals_away,
            },
            _ => Fixture::Unplayed { team_home: m.team_home, team_away: m.team_away },
        }
    }

    /// Writes the simulated result into the pending fixture, which has
    /// none, and moves on to the next fixture.
    pub fn record_result(&mut self, goals_home: i32, goals_away: i32)
        requires
            old(self).wf(),
            old(self).pending() is Unplayed,
        ensures
            final(self).wf(),
            final(self).league() == old(self).league(),
            final(self).initial() == old(self).initial(),
            final(self).position() == old(self).position() + 1,
            final(self).results() == old(self).results().push((goals_home, goals_away)),
            final(self).matches() == old(self).matches().update(
                old(self).position(),
                with_result(old(self).initial()[old(self).position()], (goals_home, goals_away)),
            ),
    {
        let ghost behind = self.initial@.take(self.next as int);
        proof {
            lemma_completed_season(behind, self.results@);
            assert(self.next < self.matches.len());
        }
        let m = self.matches[self.next];
        self.matches.set(
            self.next,
            Match {
                team_home: m.team_home,
                team_away: m.team_away,
                goals_home: Some(goals_home),
                goals_away: Some(goals_away),
            },
        );
        self.results = Ghost(self.results@.push((goals_home, goals_away)));
        self.next = self.next + 1;
        proof {
            let now = self.initial@.take(self.next as int);
            assert(now.drop_last() =~= behind);
            assert(self.results@.drop_last() =~= old(self).results@);
            assert(self.matches@ =~= completed(now, self.results@) + self.initial@.skip(
                self.next as int,
            ));
        }
    }

    /// Moves past the pending fixture, which has a result.
    pub fn advance(&mut self)
        requires
            old(self).wf(),
            old(self).pending() is Played,
        ensures
            final(self).wf(),
            final(self).league() == old(self).league(),
            final(self).initial() == old(self).initial(),
            final(self).position() == old(self).position() + 1,
            final(self).results() == old(self).results(),
            final(self).matches() == old(self).matches(),
    {
        let ghost behind = self.initial@.take(self.next as int);
        proof {
            lemma_completed_season(behind, self.results@);
            assert(self.next < self.matches.len());
        }
        self.next = self.next + 1;
        proof {
            let now = self.initial@.take(self.next as int);
            assert(now.drop_last() =~= behind);
            assert(self.matches@ =~= completed(now, self.results@) + self.initial@.skip(
                self.next as int,
            ));
        }
    }

    /// The fixtures as they stand. After a finished walk this is the
    /// completed season: every fixture has a result, the simulated ones in
    /// the order in which they were recorded.
    pub fn into_matches(self) -> (matches: Vec<Match>)
        requires
            self.wf(),
        ensures
            matches@ == self.matches(),
            self.finished() ==> matches@ == completed(self.initial(), self.results()),
    {
        proof {
            if self.finished() {
                assert(self.initial@.take(self.next as int) =~= self.initial@);
            }
        }
        self.matches
    }
}

} // verus!
