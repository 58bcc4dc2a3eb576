//! Fixtures, table rows and the league table.

use vstd::prelude::*;
use vstd::seq_lib::seq_to_set_is_finite;
use vstd::set_lib::{lemma_int_range, lemma_subset_equality, set_int_range};

verus! {

/// One fixture of the season. A played match carries both goal counts,
/// a match still to be simulated carries neither.
#[derive(Debug, Clone, Copy, PartialEq, Eq, Structural)]
pub struct Match {
    pub team_home: usize,
    pub team_away: usize,
    pub goals_home: Option<i32>,
    pub goals_away: Option<i32>,
}

impl Match {
    /// Both goal counts are present, so the match counts towards the table.
    pub open spec fn played(self) -> bool {
        self.goals_home is Some && self.goals_away is Some
    }

    /// The goal counts are either both present or both absent.
    pub open spec fn well_formed(self) -> bool {
        (self.goals_home is Some) == (self.goals_away is Some)
    }

    /// Both sides are teams of a league of `number_teams` teams.
    pub open spec fn teams_within(self, number_teams: int) -> bool {
        self.team_home < number_teams && self.team_away < number_teams
    }

    /// Says whether the match has a result.
    pub fn is_played(&self) -> (b: bool)
        ensures
            b == self.played(),
    {
        self.goals_home.is_some() && self.goals_away.is_some()
    }

    /// The fixture that a schedule row `[home, away, goals_home, goals_away]`
    /// stands for. Rows number the teams from 1, fixtures from 0. A row
    /// without a team, or with a team number under 1, stands for no fixture.
    pub fn from_schedule_row(row: &[Option<i32>; 4]) -> (fixture: Option<Match>)
        ensures
            fixture == schedule_row_fixture(*row),
    {
        match (row[0], row[1]) {
            (Some(home), Some(away)) => {
                if home >= 1 && away >= 1 {
                    Some(
                        Match {
                            team_home: (home - 1) as usize,
                            team_away: (away - 1) as usize,
                            goals_home: row[2],
                            goals_away: row[3],
                        },
                    )
                } else {
                    None
                }
            },
            _ => None,
        }
    }
}

/// The fixture that a schedule row with 1-based team numbers stands for.
pub open spec fn schedule_row_fixture(row: [Option<i32>; 4]) -> Option<Match> {
    if row[0] is Some && row[1] is Some && row[0]->0 >= 1 && row[1]->0 >= 1 {
        Some(
            Match {
                team_home: (row[0]->0 - 1) as usize,
                team_away: (row[1]->0 - 1) as usize,
                goals_home: row[2],
                goals_away: row[3],
            },
        )
    } else {
        None
    }
}

/// One row of the league table.
#[derive(Debug, Clone, Copy, PartialEq, Eq, Structural)]
pub struct TeamStanding {
    pub team_id: usize,
    pub played: i32,
    pub won: i32,
    pub drawn: i32,
    pub lost: i32,
    pub goals_for: i32,
    pub goals_against: i32,
    pub goal_difference: i32,
    pub points: i32,
    pub position: usize,
}

impl TeamStanding {
    /// The order of the table: more points first, then the better goal
    /// difference, then more goals scored, then the lower team index.
    /// Two rows of different teams are always ordered one way or the other.
    pub open spec fn ranks_before(self, other: TeamStanding) -> bool {
        ||| self.points > other.points
        ||| self.points == other.points && self.goal_difference > other.goal_difference
        ||| self.points == other.points && self.goal_difference == other.goal_difference
            && self.goals_for > other.goals_for
        ||| self.points == other.points && self.goal_difference == other.goal_difference
            && self.goals_for == other.goals_for && self.team_id < other.team_id
    }

    /// Executable form of [`TeamStanding::ranks_before`].
    pub fn is_ranked_before(&self, other: &TeamStanding) -> (b: bool)
        ensures
            b == self.ranks_before(*other),
    {
        if self.points != other.points {
            self.points > other.points
        } else if self.goal_difference != other.goal_difference {
            self.goal_difference > other.goal_difference
        } else if self.goals_for != other.goals_for {
            self.goals_for > other.goals_for
        } else {
            self.team_id < other.team_id
        }
    }
}

/// The league table: index 0 holds the leader.
#[derive(Debug, Clone)]
pub struct LeagueTable {
    pub standings: Vec<TeamStanding>,
}

impl LeagueTable {
    /// The rows place each of the `number_teams` teams exactly once, and the
    /// row at index `p` carries position `p + 1`.
    pub open spec fn is_ranking(self, number_teams: int) -> bool {
        &&& self.standings@.len() == number_teams
        &&& forall|p: int|
            0 <= p < number_teams ==> {
                &&& (#[trigger] self.standings@[p]).position == p + 1
                &&& self.standings@[p].team_id < number_teams
            }
        &&& forall|p: int, q: int|
            0 <= p < q < number_teams ==> (#[trigger] self.standings@[p]).team_id != (
            #[trigger] self.standings@[q]).team_id
    }

    /// The table is in order: every row ranks before all rows below it.
    pub open spec fn is_ordered(self) -> bool {
        forall|p: int, q: int|
            0 <= p < q < self.standings@.len() ==> (#[trigger] self.standings@[p]).ranks_before(
                #[trigger] self.standings@[q],
            )
    }

    /// Says whether the rows are a ranking of `number_teams` teams.
    pub fn is_ranking_of(&self, number_teams: usize) -> (ranking: bool)
        ensures
            ranking == self.is_ranking(number_teams as int),
    {
        if self.standings.len() != number_teams {
            return false;
        }
        let mut seen: Vec<bool> = Vec::new();
        let mut team: usize = 0;
        while team < number_teams
            invariant
                team <= number_teams,
                seen@.len() == team,
                forall|t: int| 0 <= t < team ==> !#[trigger] seen@[t],
            decreases number_teams - team,
        {
            seen.push(false);
            team = team + 1;
        }
        let mut p: usize = 0;
        while p < number_teams
            invariant
                p <= number_teams,
                self.standings@.len() == number_teams,
                seen@.len() == number_teams,
                forall|q: int|
                    0 <= q < p ==> {
                        &&& (#[trigger] self.standings@[q]).position == q + 1
                        &&& self.standings@[q].team_id < number_teams
                    },
                forall|q: int, r: int|
                    0 <= q < r < p ==> (#[trigger] self.standings@[q]).team_id != (
                    #[trigger] self.standings@[r]).team_id,
                forall|t: int|
                    0 <= t < number_teams ==> (#[trigger] seen@[t] <==> placed_above(
                        self.standings@,
                        t,
                        p as int,
                    )),
            decreases number_teams - p,
        {
            let row = self.standings[p];
            if row.position != p + 1 || row.team_id >= number_teams {
                return false;
            }
            if seen[row.team_id] {
                proof {
                    // The team stands at a row above this one already.
                    let q = choose|q: int|
                        0 <= q < p && (#[trigger] self.standings@[q]).team_id == row.team_id;
                    assert(self.standings@[q].team_id == self.standings@[p as int].team_id);
                }
                return false;
            }
            seen.set(row.team_id, true);
            proof {
                assert forall|t: int| 0 <= t < number_teams implies (#[trigger] seen@[t]
                    <==> placed_above(self.standings@, t, p + 1)) by {
                    if t != row.team_id {
                        // A row of another team is above row `p + 1` exactly
                        // when it is above row `p`.
                        if placed_above(self.standings@, t, p + 1) {
                            let q = choose|q: int|
                                0 <= q < p + 1 && (#[trigger] self.standings@[q]).team_id == t;
                            assert(q < p);
                        }
                        if placed_above(self.standings@, t, p as int) {
                            let q = choose|q: int|
                                0 <= q < p && (#[trigger] self.standings@[q]).team_id == t;
                            assert(q < p + 1);
                        }
                    }
                }
                assert forall|q: int, r: int| 0 <= q < r < p + 1 implies (
                #[trigger] self.standings@[q]).team_id != (#[trigger] self.standings@[r]).team_id by {
                    if r == p && self.standings@[q].team_id == row.team_id {
                        assert(placed_above(self.standings@, row.team_id as int, p as int));
                    }
                }
            }
            p = p + 1;
        }
        true
    }

    /// The team at each position, from the top of the table down.
    pub open spec fn team_ids(self) -> Seq<int> {
        Seq::new(self.standings@.len(), |p: int| self.standings@[p].team_id as int)
    }

    /// A ranking leaves no team out: each team of the league holds a position.
    pub proof fn lemma_every_team_is_placed(self, number_teams: int, team: int)
        requires
            self.is_ranking(number_teams),
            0 <= team < number_teams,
        ensures
            exists|p: int| 0 <= p < number_teams && self.standings@[p].team_id == team,
    {
        let ids = self.team_ids();
        assert forall|i: int, j: int| 0 <= i < j < number_teams implies #[trigger] ids[i]
            != #[trigger] ids[j] by {
            assert(self.standings@[i].team_id != self.standings@[j].team_id);
        }
        assert forall|i: int| 0 <= i < number_teams implies 0 <= #[trigger] ids[i]
            < number_teams by {
            assert(self.standings@[i].team_id < number_teams);
        }
        lemma_distinct_ids_cover_league(ids, number_teams, team);
        let p = choose|p: int| 0 <= p < number_teams && ids[p] == team;
        assert(self.standings@[p].team_id == team);
    }

    /// A team with fewer points than every other team stands at the bottom.
    pub proof fn lemma_fewest_points_is_last(self, p: int)
        requires
            self.is_ordered(),
            0 <= p < self.standings@.len(),
            forall|q: int|
                0 <= q < self.standings@.len() && q != p ==> self.standings@[p].points < (
                #[trigger] self.standings@[q]).points,
        ensures
            p == self.standings@.len() - 1,
    {
        let last = self.standings@.len() - 1;
        if p < last {
            assert(self.standings@[p].ranks_before(self.standings@[last]));
        }
    }

    /// A team with more points than every other team stands at the top.
    pub proof fn lemma_most_points_is_first(self, p: int)
        requires
            self.is_ordered(),
            0 <= p < self.standings@.len(),
            forall|q: int|
                0 <= q < self.standings@.len() && q != p ==> self.standings@[p].points > (
                #[trigger] self.standings@[q]).points,
        ensures
            p == 0,
    {
        if p > 0 {
            assert(self.standings@[0].ranks_before(self.standings@[p]));
        }
    }
}

/// One of the first `upto` rows belongs to `team`.
pub open spec fn placed_above(rows: Seq<TeamStanding>, team: int, upto: int) -> bool {
    exists|q: int| 0 <= q < upto && (#[trigger] rows[q]).team_id == team
}

/// As many distinct team ids as the league has teams leave no team out.
pub proof fn lemma_distinct_ids_cover_league(ids: Seq<int>, number_teams: int, team: int)
    requires
        ids.len() == number_teams,
        forall|i: int| 0 <= i < number_teams ==> 0 <= #[trigger] ids[i] < number_teams,
        forall|i: int, j: int| 0 <= i < j < number_teams ==> #[trigger] ids[i] != #[trigger] ids[j],
        0 <= team < number_teams,
    ensures
        exists|p: int| 0 <= p < number_teams && ids[p] == team,
{
    broadcast use seq_to_set_is_finite;

    let league = set_int_range(0, number_teams);
    assert(ids.no_duplicates()) by {
        assert forall|i: int, j: int|
            0 <= i < ids.len() && 0 <= j < ids.len() && i != j implies ids[i] != ids[j] by {
            if i < j {
                assert(ids[i] != ids[j]);
            } else {
                assert(ids[j] != ids[i]);
            }
        }
    }
    ids.unique_seq_to_set();
    lemma_int_range(0, number_teams);
    assert(ids.to_set().subset_of(league)) by {
        assert forall|t: int| ids.to_set().contains(t) implies league.contains(t) by {
            let i = choose|i: int| 0 <= i < ids.len() && ids[i] == t;
            assert(0 <= ids[i] < number_teams);
        }
    }
    lemma_subset_equality(ids.to_set(), league);
    assert(league.contains(team));
    assert(ids.contains(team));
}

} // verus!
