//! The league table of a list of matches.

use crate::elo::{match_outcome, outcome_of, MatchOutcome};
use crate::models::{LeagueTable, Match, TeamStanding};
use vstd::prelude::*;

verus! {

/// The columns of one table row as unbounded integers.
pub struct Totals {
    pub played: int,
    pub won: int,
    pub drawn: int,
    pub lost: int,
    pub goals_for: int,
    pub goals_against: int,
    pub goal_difference: int,
    pub points: int,
}

impl Totals {
    /// The totals after one more match in which the team scored `scored`
    /// goals and conceded `conceded`.
    pub open spec fn credit(self, scored: int, conceded: int) -> Totals {
        let outcome = outcome_of(scored, conceded);
        Totals {
            played: self.played + 1,
            won: self.won + if outcome == MatchOutcome::HomeWin {
                1int
            } else {
                0int
            },
            drawn: self.drawn + if outcome == MatchOutcome::Draw {
                1int
            } else {
                0int
            },
            lost: self.lost + if outcome == MatchOutcome::AwayWin {
                1int
            } else {
                0int
            },
            goals_for: self.goals_for + scored,
            goals_against: self.goals_against + conceded,
            goal_difference: self.goal_difference + scored - conceded,
            points: self.points + outcome.home_points(),
        }
    }

    /// The totals of `team` after the match `m`. An unplayed match changes
    /// nothing; a played one is credited to its home side and to its away side.
    pub open spec fn after(self, m: Match, team: int) -> Totals {
        if m.played() {
            let goals_home = m.goals_home->0 as int;
            let goals_away = m.goals_away->0 as int;
            let at_home = if m.team_home == team {
                self.credit(goals_home, goals_away)
            } else {
                self
            };
            if m.team_away == team {
                at_home.credit(goals_away, goals_home)
            } else {
                at_home
            }
        } else {
            self
        }
    }

    /// Every column lies in `[-bound, bound]`.
    pub open spec fn within(self, bound: int) -> bool {
        &&& -bound <= self.played <= bound
        &&& -bound <= self.won <= bound
        &&& -bound <= self.drawn <= bound
        &&& -bound <= self.lost <= bound
        &&& -bound <= self.goals_for <= bound
        &&& -bound <= self.goals_against <= bound
        &&& -bound <= self.goal_difference <= bound
        &&& -bound <= self.points <= bound
    }

    /// Every column can be held in a 32-bit table row.
    pub open spec fn fits_row(self) -> bool {
        &&& i32::MIN <= self.played <= i32::MAX
        &&& i32::MIN <= self.won <= i32::MAX
        &&& i32::MIN <= self.drawn <= i32::MAX
        &&& i32::MIN <= self.lost <= i32::MAX
        &&& i32::MIN <= self.goals_for <= i32::MAX
        &&& i32::MIN <= self.goals_against <= i32::MAX
        &&& i32::MIN <= self.goal_difference <= i32::MAX
        &&& i32::MIN <= self.points <= i32::MAX
    }
}

impl TeamStanding {
    /// The columns of the row as unbounded integers.
    pub open spec fn totals(self) -> Totals {
        Totals {
            played: self.played as int,
            won: self.won as int,
            drawn: self.drawn as int,
            lost: self.lost as int,
            goals_for: self.goals_for as int,
            goals_against: self.goals_against as int,
            goal_difference: self.goal_difference as int,
            points: self.points as int,
        }
    }
}

/// The value that an optional adjustment vector holds for `team`; a missing
/// vector stands for zeros.
pub open spec fn adjustment_at(adjustment: Option<&[i32]>, team: int) -> int {
    match adjustment {
        Some(values) => values@[team] as int,
        None => 0,
    }
}

/// An adjustment vector, when supplied, has one entry per team.
pub open spec fn adjustment_fits(adjustment: Option<&[i32]>, number_teams: int) -> bool {
    match adjustment {
        Some(values) => values@.len() == number_teams,
        None => true,
    }
}

/// The totals with which `team` enters the season: nothing played, and the
/// four adjustable columns seeded from their adjustments. The goal difference
/// is seeded on its own, not derived from the two goal columns.
pub open spec fn opening_totals(
    adj_points: Option<&[i32]>,
    adj_goals: Option<&[i32]>,
    adj_goals_against: Option<&[i32]>,
    adj_goal_diff: Option<&[i32]>,
    team: int,
) -> Totals {
    Totals {
        played: 0,
        won: 0,
        drawn: 0,
        lost: 0,
        goals_for: adjustment_at(adj_goals, team),
        goals_against: adjustment_at(adj_goals_against, team),
        goal_difference: adjustment_at(adj_goal_diff, team),
        points: adjustment_at(adj_points, team),
    }
}

/// The totals of `team` after all of `matches`, starting from `start`.
pub open spec fn totals_after(matches: Seq<Match>, team: int, start: Totals) -> Totals
    decreases matches.len(),
{
    if matches.len() == 0 {
        start
    } else {
        totals_after(matches.drop_last(), team, start).after(matches.last(), team)
    }
}

/// The totals of `team` at the end of the season.
pub open spec fn final_totals(
    matches: Seq<Match>,
    adj_points: Option<&[i32]>,
    adj_goals: Option<&[i32]>,
    adj_goals_against: Option<&[i32]>,
    adj_goal_diff: Option<&[i32]>,
    team: int,
) -> Totals {
    totals_after(
        matches,
        team,
        opening_totals(adj_points, adj_goals, adj_goals_against, adj_goal_diff, team),
    )
}

/// Every played match is between two teams of the league.
pub open spec fn played_teams_within(matches: Seq<Match>, number_teams: int) -> bool {
    forall|k: int|
        0 <= k < matches.len() && (#[trigger] matches[k]).played() ==> matches[k].teams_within(
            number_teams,
        )
}

/// All four adjustment vectors have one entry per team where supplied.
pub open spec fn adjustments_fit(
    adj_points: Option<&[i32]>,
    adj_goals: Option<&[i32]>,
    adj_goals_against: Option<&[i32]>,
    adj_goal_diff: Option<&[i32]>,
    number_teams: int,
) -> bool {
    &&& adjustment_fits(adj_points, number_teams)
    &&& adjustment_fits(adj_goals, number_teams)
    &&& adjustment_fits(adj_goals_against, number_teams)
    &&& adjustment_fits(adj_goal_diff, number_teams)
}

/// The final totals of every team can be held in a table row.
pub open spec fn totals_fit_rows(
    matches: Seq<Match>,
    number_teams: int,
    adj_points: Option<&[i32]>,
    adj_goals: Option<&[i32]>,
    adj_goals_against: Option<&[i32]>,
    adj_goal_diff: Option<&[i32]>,
) -> bool {
    forall|team: int|
        0 <= team < number_teams ==> (#[trigger] final_totals(
            matches,
            adj_points,
            adj_goals,
            adj_goals_against,
            adj_goal_diff,
            team,
        )).fits_row()
}

/// What makes `table` the table of a season: it places every team once, it
/// is in table order, and each row holds the final totals of its team.
pub open spec fn is_table_of(
    table: LeagueTable,
    matches: Seq<Match>,
    number_teams: int,
    adj_points: Option<&[i32]>,
    adj_goals: Option<&[i32]>,
    adj_goals_against: Option<&[i32]>,
    adj_goal_diff: Option<&[i32]>,
) -> bool {
    &&& table.is_ranking(number_teams)
    &&& table.is_ordered()
    &&& forall|p: int|
        0 <= p < number_teams ==> (#[trigger] table.standings@[p]).totals() == final_totals(
            matches,
            adj_points,
            adj_goals,
            adj_goals_against,
            adj_goal_diff,
            table.standings@[p].team_id as int,
        )
}

/// Width of the change that one match can make to any column.
const MATCH_SPAN: u64 = 0x2_0000_0000;

proof fn lemma_credit_within(totals: Totals, scored: int, conceded: int, bound: int)
    requires
        totals.within(bound),
        i32::MIN <= scored <= i32::MAX,
        i32::MIN <= conceded <= i32::MAX,
    ensures
        totals.credit(scored, conceded).within(bound + 0x1_0000_0000),
{
}

proof fn lemma_totals_within(matches: Seq<Match>, team: int, start: Totals)
    requires
        start.within(0x8000_0000),
    ensures
        totals_after(matches, team, start).within(0x8000_0000 + matches.len() * MATCH_SPAN),
    decreases matches.len(),
{
    if matches.len() > 0 {
        let before = totals_after(matches.drop_last(), team, start);
        lemma_totals_within(matches.drop_last(), team, start);
        let bound = 0x8000_0000 + (matches.len() - 1) * MATCH_SPAN;
        let m = matches.last();
        if m.played() {
            let goals_home = m.goals_home->0 as int;
            let goals_away = m.goals_away->0 as int;
            lemma_credit_within(before, goals_home, goals_away, bound);
            lemma_credit_within(before, goals_away, goals_home, bound);
            lemma_credit_within(
                before.credit(goals_home, goals_away),
                goals_away,
                goals_home,
                bound + 0x1_0000_0000,
            );
        }
    }
}

/// Bound under which a tally can take one more match without overflow.
const TALLY_ROOM: i128 = 0x1_0000_0000_0000_0000_0000_0000_0000;

/// The running totals of one team while the matches are read. The columns
/// are 128 bits wide, which holds the totals of any fixture list, so nothing
/// is narrowed before the last match is counted.
#[derive(Clone, Copy)]
struct Tally {
    played: i128,
    won: i128,
    drawn: i128,
    lost: i128,
    goals_for: i128,
    goals_against: i128,
    goal_difference: i128,
    points: i128,
}

impl Tally {
    spec fn totals(self) -> Totals {
        Totals {
            played: self.played as int,
            won: self.won as int,
            drawn: self.drawn as int,
            lost: self.lost as int,
            goals_for: self.goals_for as int,
            goals_against: self.goals_against as int,
            goal_difference: self.goal_difference as int,
            points: self.points as int,
        }
    }

    fn credit(self, scored: i32, conceded: i32) -> (next: Tally)
        requires
            self.totals().within(TALLY_ROOM as int),
        ensures
            next.totals() == self.totals().credit(scored as int, conceded as int),
    {
        let outcome = match_outcome(scored, conceded);
        let mut next = self;
        next.played = next.played + 1;
        match outcome {
            MatchOutcome::HomeWin => {
                next.won = next.won + 1;
                next.points = next.points + 3;
            },
            MatchOutcome::Draw => {
                next.drawn = next.drawn + 1;
                next.points = next.points + 1;
            },
            MatchOutcome::AwayWin => {
                next.lost = next.lost + 1;
            },
        }
        next.goals_for = next.goals_for + scored as i128;
        next.goals_against = next.goals_against + conceded as i128;
        next.goal_difference = next.goal_difference + (scored as i128 - conceded as i128);
        next
    }

    fn fits_row(&self) -> (fits: bool)
        ensures
            fits == self.totals().fits_row(),
    {
        let low: i128 = i32::MIN as i128;
        let high: i128 = i32::MAX as i128;
        low <= self.played && self.played <= high && low <= self.won && self.won <= high && low
            <= self.drawn && self.drawn <= high && low <= self.lost && self.lost <= high && low
            <= self.goals_for && self.goals_for <= high && low <= self.goals_against
            && self.goals_against <= high && low <= self.goal_difference && self.goal_difference
            <= high && low <= self.points && self.points <= high
    }

    fn row(&self, team_id: usize) -> (row: TeamStanding)
        requires
            self.totals().fits_row(),
        ensures
            row.totals() == self.totals(),
            row.team_id == team_id,
            row.position == 0,
    {
        TeamStanding {
            team_id,
            played: self.played as i32,
            won: self.won as i32,
            drawn: self.drawn as i32,
            lost: self.lost as i32,
            goals_for: self.goals_for as i32,
            goals_against: self.goals_against as i32,
            goal_difference: self.goal_difference as i32,
            points: self.points as i32,
            position: 0,
        }
    }
}

fn adjustment_value(adjustment: Option<&[i32]>, team: usize) -> (value: i32)
    requires
        adjustment matches Some(values) ==> team < values@.len(),
    ensures
        value == adjustment_at(adjustment, team as int),
{
    match adjustment {
        Some(values) => values[team],
        None => 0,
    }
}

/// Reads the matches once and returns the final totals of every team.
fn tally_matches(
    matches: &[Match],
    number_teams: usize,
    adj_points: Option<&[i32]>,
    adj_goals: Option<&[i32]>,
    adj_goals_against: Option<&[i32]>,
    adj_goal_diff: Option<&[i32]>,
) -> (tallies: Vec<Tally>)
    requires
        adjustments_fit(
            adj_points,
            adj_goals,
            adj_goals_against,
            adj_goal_diff,
            number_teams as int,
        ),
        played_teams_within(matches@, number_teams as int),
    ensures
        tallies@.len() == number_teams,
        forall|team: int|
            0 <= team < number_teams ==> (#[trigger] tallies@[team]).totals() == final_totals(
                matches@,
                adj_points,
                adj_goals,
                adj_goals_against,
                adj_goal_diff,
                team,
            ),
{
    let mut tallies: Vec<Tally> = Vec::new();
    let mut team: usize = 0;
    while team < number_teams
        invariant
            team <= number_teams,
            tallies@.len() == team,
            adjustments_fit(
                adj_points,
                adj_goals,
                adj_goals_against,
                adj_goal_diff,
                number_teams as int,
            ),
            forall|t: int|
                0 <= t < team ==> (#[trigger] tallies@[t]).totals() == opening_totals(
                    adj_points,
                    adj_goals,
                    adj_goals_against,
                    adj_goal_diff,
                    t,
                ),
        decreases number_teams - team,
    {
        tallies.push(
            Tally {
                played: 0,
                won: 0,
                drawn: 0,
                lost: 0,
                goals_for: adjustment_value(adj_goals, team) as i128,
                goals_against: adjustment_value(adj_goals_against, team) as i128,
                goal_difference: adjustment_value(adj_goal_diff, team) as i128,
                points: adjustment_value(adj_points, team) as i128,
            },
        );
        team = team + 1;
    }
    let mut k: usize = 0;
    while k < matches.len()
        invariant
            k <= matches@.len(),
            tallies@.len() == number_teams,
            played_teams_within(matches@, number_teams as int),
            forall|t: int|
                0 <= t < number_teams ==> (#[trigger] tallies@[t]).totals() == totals_after(
                    matches@.take(k as int),
                    t,
                    opening_totals(adj_points, adj_goals, adj_goals_against, adj_goal_diff, t),
                ),
        decreases matches@.len() - k,
    {
        let m = matches[k];
        let ghost before = tallies@;
        proof {
            // Every tally is far enough from the limits of 128 bits to take
            // this match on both sides.
            assert(matches@.take(k + 1).drop_last() =~= matches@.take(k as int));
            assert forall|t: int| 0 <= t < number_teams implies (#[trigger] before[t]).totals().within(
                TALLY_ROOM - 0x2_0000_0000,
            ) by {
                lemma_totals_within(
                    matches@.take(k as int),
                    t,
                    opening_totals(adj_points, adj_goals, adj_goals_against, adj_goal_diff, t),
                );
            }
        }
        match (m.goals_home, m.goals_away) {
            (Some(goals_home), Some(goals_away)) => {
                let home = tallies[m.team_home].credit(goals_home, goals_away);
                tallies.set(m.team_home, home);
                proof {
                    lemma_credit_within(
                        before[m.team_home as int].totals(),
                        goals_home as int,
                        goals_away as int,
                        TALLY_ROOM - 0x2_0000_0000,
                    );
                }
                let away = tallies[m.team_away].credit(goals_away, goals_home);
                tallies.set(m.team_away, away);
            },
            _ => {},
        }
        k = k + 1;
    }
    assert(matches@.take(k as int) =~= matches@);
    tallies
}

/// Each row is the unsorted row of its own team, and no team has two rows.
spec fn rows_rearranged(rows: Seq<TeamStanding>, unsorted: Seq<TeamStanding>) -> bool {
    &&& rows.len() == unsorted.len()
    &&& forall|p: int|
        0 <= p < rows.len() ==> (#[trigger] rows[p]).team_id < rows.len() && rows[p]
            == unsorted[rows[p].team_id as int]
    &&& forall|p: int, q: int|
        0 <= p < q < rows.len() ==> (#[trigger] rows[p]).team_id != (#[trigger] rows[q]).team_id
}

/// Sorts the rows into table order by insertion. The rows come in by team
/// index, so equal rows keep that order.
fn sort_rows(rows: &mut Vec<TeamStanding>)
    requires
        forall|t: int| 0 <= t < old(rows)@.len() ==> (#[trigger] old(rows)@[t]).team_id == t,
    ensures
        rows_rearranged(final(rows)@, old(rows)@),
        forall|p: int, q: int|
            0 <= p < q < final(rows)@.len() ==> (#[trigger] final(rows)@[p]).ranks_before(
                #[trigger] final(rows)@[q],
            ),
{
    let ghost unsorted = rows@;
    let n = rows.len();
    let mut i: usize = 0;
    while i < n
        invariant
            i <= n,
            rows@.len() == n,
            rows_rearranged(rows@, unsorted),
            forall|p: int, q: int|
                0 <= p < q < i ==> (#[trigger] rows@[p]).ranks_before(#[trigger] rows@[q]),
        decreases n - i,
    {
        let mut j: usize = i;
        while j > 0 && rows[j].is_ranked_before(&rows[j - 1])
            invariant
                j <= i < n,
                rows@.len() == n,
                rows_rearranged(rows@, unsorted),
                forall|p: int, q: int|
                    0 <= p < q <= i && p != j && q != j ==> (#[trigger] rows@[p]).ranks_before(
                        #[trigger] rows@[q],
                    ),
                forall|q: int| j < q <= i ==> rows@[j as int].ranks_before(#[trigger] rows@[q]),
            decreases j,
        {
            let upper = rows[j - 1];
            let lower = rows[j];
            rows.set(j - 1, lower);
            rows.set(j, upper);
            j = j - 1;
        }
        proof {
            let moved = rows@[j as int];
            assert forall|p: int| 0 <= p < j implies (#[trigger] rows@[p]).ranks_before(moved) by {
                // Rows of different teams are ordered one way or the other:
                // the row above ranks before the moved one, and so do all above it.
                let above = rows@[j - 1];
                assert(above.ranks_before(moved));
                if p < j - 1 {
                    assert(rows@[p].ranks_before(above));
                }
            }
        }
        i = i + 1;
    }
}

/// Writes the 1-based position into each row.
fn assign_positions(rows: &mut Vec<TeamStanding>)
    ensures
        final(rows)@.len() == old(rows)@.len(),
        forall|p: int|
            0 <= p < old(rows)@.len() ==> #[trigger] final(rows)@[p] == (TeamStanding {
                position: (p + 1) as usize,
                ..old(rows)@[p]
            }),
{
    let n = rows.len();
    let mut p: usize = 0;
    while p < n
        invariant
            p <= n,
            rows@.len() == n,
            n == old(rows)@.len(),
            forall|q: int|
                0 <= q < p ==> #[trigger] rows@[q] == (TeamStanding {
                    position: (q + 1) as usize,
                    ..old(rows)@[q]
                }),
            forall|q: int| p <= q < n ==> #[trigger] rows@[q] == old(rows)@[q],
        decreases n - p,
    {
        let mut row = rows[p];
        row.position = p + 1;
        rows.set(p, row);
        p = p + 1;
    }
}

/// Turns the final totals into the sorted table.
fn rank_tallies(tallies: &Vec<Tally>) -> (table: LeagueTable)
    requires
        forall|team: int|
            0 <= team < tallies@.len() ==> (#[trigger] tallies@[team]).totals().fits_row(),
    ensures
        table.is_ranking(tallies@.len() as int),
        table.is_ordered(),
        forall|p: int|
            0 <= p < tallies@.len() ==> (#[trigger] table.standings@[p]).totals()
                == tallies@[table.standings@[p].team_id as int].totals(),
{
    let number_teams = tallies.len();
    let mut standings: Vec<TeamStanding> = Vec::new();
    let mut team: usize = 0;
    while team < number_teams
        invariant
            team <= number_teams,
            number_teams == tallies@.len(),
            standings@.len() == team,
            forall|t: int| 0 <= t < tallies@.len() ==> (#[trigger] tallies@[t]).totals().fits_row(),
            forall|t: int|
                0 <= t < team ==> (#[trigger] standings@[t]).team_id == t && standings@[t].totals()
                    == tallies@[t].totals(),
        decreases number_teams - team,
    {
        standings.push(tallies[team].row(team));
        team = team + 1;
    }
    let ghost unsorted = standings@;
    sort_rows(&mut standings);
    let ghost sorted = standings@;
    assign_positions(&mut standings);
    let table = LeagueTable { standings };
    proof {
        assert forall|p: int| 0 <= p < number_teams implies {
            &&& (#[trigger] table.standings@[p]).team_id == sorted[p].team_id
            &&& table.standings@[p].totals() == sorted[p].totals()
            &&& table.standings@[p].position == p + 1
        } by {
            assert(table.standings@[p] == (TeamStanding {
                position: (p + 1) as usize,
                ..sorted[p]
            }));
        }
        assert forall|p: int, q: int| 0 <= p < q < number_teams implies (
        #[trigger] table.standings@[p]).ranks_before(#[trigger] table.standings@[q]) by {
            assert(sorted[p].ranks_before(sorted[q]));
        }
        assert forall|p: int| 0 <= p < number_teams implies (
        #[trigger] table.standings@[p]).totals() == tallies@[table.standings@[p].team_id as int].totals() by {
            assert(sorted[p] == unsorted[sorted[p].team_id as int]);
        }
    }
    table
}

pub(crate) fn adjustment_has_length(adjustment: Option<&[i32]>, number_teams: usize) -> (fits: bool)
    ensures
        fits == adjustment_fits(adjustment, number_teams as int),
{
    match adjustment {
        Some(values) => values.len() == number_teams,
        None => true,
    }
}

fn played_teams_are_within(matches: &[Match], number_teams: usize) -> (within: bool)
    ensures
        within == played_teams_within(matches@, number_teams as int),
{
    let mut k: usize = 0;
    while k < matches.len()
        invariant
            k <= matches@.len(),
            forall|i: int|
                0 <= i < k && (#[trigger] matches@[i]).played() ==> matches@[i].teams_within(
                    number_teams as int,
                ),
        decreases matches@.len() - k,
    {
        let m = matches[k];
        if m.is_played() && !(m.team_home < number_teams && m.team_away < number_teams) {
            return false;
        }
        k = k + 1;
    }
    true
}

fn tallies_fit_rows(tallies: &Vec<Tally>) -> (fit: bool)
    ensures
        fit == (forall|team: int|
            0 <= team < tallies@.len() ==> (#[trigger] tallies@[team]).totals().fits_row()),
{
    let mut team: usize = 0;
    while team < tallies.len()
        invariant
            team <= tallies@.len(),
            forall|t: int| 0 <= t < team ==> (#[trigger] tallies@[t]).totals().fits_row(),
        decreases tallies@.len() - team,
    {
        if !tallies[team].fits_row() {
            return false;
        }
        team = team + 1;
    }
    true
}

/// Why a table cannot be built from an input.
#[derive(Debug, Clone, Copy, PartialEq, Eq, Structural)]
pub enum TableError {
    /// A supplied adjustment vector does not have one entry per team.
    AdjustmentLength,
    /// A played match names a team outside the league.
    TeamOutOfRange,
    /// A total of some team does not fit the 32-bit columns of a row.
    Overflow,
}

/// The inputs from which a table can be built: the adjustment vectors have
/// one entry per team, the played matches stay within the league, and the
/// final totals fit the rows.
pub open spec fn table_input_ok(
    matches: Seq<Match>,
    number_teams: int,
    adj_points: Option<&[i32]>,
    adj_goals: Option<&[i32]>,
    adj_goals_against: Option<&[i32]>,
    adj_goal_diff: Option<&[i32]>,
) -> bool {
    &&& adjustments_fit(adj_points, adj_goals, adj_goals_against, adj_goal_diff, number_teams)
    &&& played_teams_within(matches, number_teams)
    &&& totals_fit_rows(
        matches,
        number_teams,
        adj_points,
        adj_goals,
        adj_goals_against,
        adj_goal_diff,
    )
}

/// Builds the league table of a season.
///
/// Every team starts from its adjustments; every played match is credited
/// to both of its sides, three points for a win and one for a draw; matches
/// without a result are passed over. The rows are ordered by points, goal
/// difference, goals scored and team index, and numbered from 1.
pub fn calculate_table(
    matches: &[Match],
    number_teams: usize,
    adj_points: Option<&[i32]>,
    adj_goals: Option<&[i32]>,
    adj_goals_against: Option<&[i32]>,
    adj_goal_diff: Option<&[i32]>,
) -> (table: LeagueTable)
    requires
        table_input_ok(
            matches@,
            number_teams as int,
            adj_points,
            adj_goals,
            adj_goals_against,
            adj_goal_diff,
        ),
    ensures
        is_table_of(
            table,
            matches@,
            number_teams as int,
            adj_points,
            adj_goals,
            adj_goals_against,
            adj_goal_diff,
        ),
{
    let tallies = tally_matches(
        matches,
        number_teams,
        adj_points,
        adj_goals,
        adj_goals_against,
        adj_goal_diff,
    );
    rank_tallies(&tallies)
}

/// Builds the league table of a season, or says why the input has none.
///
/// The adjustment vectors are looked at first, then the teams of the played
/// matches, then the size of the totals.
pub fn try_calculate_table(
    matches: &[Match],
    number_teams: usize,
    adj_points: Option<&[i32]>,
    adj_goals: Option<&[i32]>,
    adj_goals_against: Option<&[i32]>,
    adj_goal_diff: Option<&[i32]>,
) -> (result: Result<LeagueTable, TableError>)
    ensures
        match result {
            Ok(table) => {
                &&& table_input_ok(
                    matches@,
                    number_teams as int,
                    adj_points,
                    adj_goals,
                    adj_goals_against,
                    adj_goal_diff,
                )
                &&& is_table_of(
                    table,
                    matches@,
                    number_teams as int,
                    adj_points,
                    adj_goals,
                    adj_goals_against,
                    adj_goal_diff,
                )
            },
            Err(TableError::AdjustmentLength) => !adjustments_fit(
                adj_points,
                adj_goals,
                adj_goals_against,
                adj_goal_diff,
                number_teams as int,
            ),
            Err(TableError::TeamOutOfRange) => {
                &&& adjustments_fit(
                    adj_points,
                    adj_goals,
                    adj_goals_against,
                    adj_goal_diff,
                    number_teams as int,
                )
                &&& !played_teams_within(matches@, number_teams as int)
            },
            Err(TableError::Overflow) => {
                &&& adjustments_fit(
                    adj_points,
                    adj_goals,
                    adj_goals_against,
                    adj_goal_diff,
                    number_teams as int,
                )
                &&& played_teams_within(matches@, number_teams as int)
                &&& !totals_fit_rows(
                    matches@,
                    number_teams as int,
                    adj_points,
                    adj_goals,
                    adj_goals_against,
                    adj_goal_diff,
                )
            },
        },
{
    if !(adjustment_has_length(adj_points, number_teams) && adjustment_has_length(
        adj_goals,
        number_teams,
    ) && adjustment_has_length(adj_goals_against, number_teams) && adjustment_has_length(
        adj_goal_diff,
        number_teams,
    )) {
        return Err(TableError::AdjustmentLength);
    }
    if !played_teams_are_within(matches, number_teams) {
        return Err(TableError::TeamOutOfRange);
    }
    let tallies = tally_matches(
        matches,
        number_teams,
        adj_points,
        adj_goals,
        adj_goals_against,
        adj_goal_diff,
    );
    if !tallies_fit_rows(&tallies) {
        return Err(TableError::Overflow);
    }
    proof {
        assert forall|team: int| 0 <= team < number_teams implies (#[trigger] final_totals(
            matches@,
            adj_points,
            adj_goals,
            adj_goals_against,
            adj_goal_diff,
            team,
        )).fits_row() by {
            assert(tallies@[team].totals().fits_row());
        }
    }
    Ok(rank_tallies(&tallies))
}

proof fn lemma_tables_agree_up_to(
    a: LeagueTable,
    b: LeagueTable,
    matches: Seq<Match>,
    number_teams: int,
    adj_points: Option<&[i32]>,
    adj_goals: Option<&[i32]>,
    adj_goals_against: Option<&[i32]>,
    adj_goal_diff: Option<&[i32]>,
    upto: int,
)
    requires
        is_table_of(a, matches, number_teams, adj_points, adj_goals, adj_goals_against, adj_goal_diff),
        is_table_of(b, matches, number_teams, adj_points, adj_goals, adj_goals_against, adj_goal_diff),
        0 <= upto <= number_teams,
    ensures
        forall|p: int| 0 <= p < upto ==> a.standings@[p] == b.standings@[p],
    decreases upto,
{
    if upto > 0 {
        lemma_tables_agree_up_to(
            a,
            b,
            matches,
            number_teams,
            adj_points,
            adj_goals,
            adj_goals_against,
            adj_goal_diff,
            upto - 1,
        );
        let p = upto - 1;
        let in_a = a.standings@[p];
        let in_b = b.standings@[p];
        if in_a.team_id != in_b.team_id {
            // The team that `a` places here stands lower in `b`, and the team
            // that `b` places here stands lower in `a`: each ranks before the other.
            b.lemma_every_team_is_placed(number_teams, in_a.team_id as int);
            let q = choose|q: int| 0 <= q < number_teams && b.standings@[q].team_id == in_a.team_id;
            if q < p {
                assert(a.standings@[q].team_id != a.standings@[p].team_id);
            }
            a.lemma_every_team_is_placed(number_teams, in_b.team_id as int);
            let r = choose|r: int| 0 <= r < number_teams && a.standings@[r].team_id == in_b.team_id;
            if r < p {
                assert(b.standings@[r].team_id != b.standings@[p].team_id);
            }
            assert(in_b.ranks_before(b.standings@[q]));
            assert(in_a.ranks_before(a.standings@[r]));
            assert(b.standings@[q].totals() == in_a.totals());
            assert(a.standings@[r].totals() == in_b.totals());
            assert(false);
        }
        assert(in_a.totals() == in_b.totals());
    }
}

/// A season has one table: two tables of the same matches, league and
/// adjustments agree row by row.
pub proof fn lemma_table_is_unique(
    a: LeagueTable,
    b: LeagueTable,
    matches: Seq<Match>,
    number_teams: int,
    adj_points: Option<&[i32]>,
    adj_goals: Option<&[i32]>,
    adj_goals_against: Option<&[i32]>,
    adj_goal_diff: Option<&[i32]>,
)
    requires
        is_table_of(a, matches, number_teams, adj_points, adj_goals, adj_goals_against, adj_goal_diff),
        is_table_of(b, matches, number_teams, adj_points, adj_goals, adj_goals_against, adj_goal_diff),
    ensures
        a.standings@ == b.standings@,
{
    lemma_tables_agree_up_to(
        a,
        b,
        matches,
        number_teams,
        adj_points,
        adj_goals,
        adj_goals_against,
        adj_goal_diff,
        number_teams,
    );
}

/// Matches played are matches won, drawn or lost: what holds of the opening
/// totals holds after any matches. The opening totals of a table are all
/// zero in these four columns.
pub proof fn lemma_played_is_won_drawn_lost(matches: Seq<Match>, team: int, start: Totals)
    requires
        start.played == start.won + start.drawn + start.lost,
    ensures
        ({
            let end = totals_after(matches, team, start);
            end.played == end.won + end.drawn + end.lost
        }),
    decreases matches.len(),
{
    if matches.len() > 0 {
        lemma_played_is_won_drawn_lost(matches.drop_last(), team, start);
    }
}

/// The matches move the goal difference by the goals scored less the goals
/// conceded. Where the three goal columns open at zero, or open consistently,
/// the goal difference of a row is goals for less goals against.
pub proof fn lemma_goal_difference_follows_goals(matches: Seq<Match>, team: int, start: Totals)
    ensures
        ({
            let end = totals_after(matches, team, start);
            end.goal_difference - start.goal_difference == (end.goals_for - start.goals_for) - (
            end.goals_against - start.goals_against)
        }),
    decreases matches.len(),
{
    if matches.len() > 0 {
        lemma_goal_difference_follows_goals(matches.drop_last(), team, start);
    }
}

/// In every row of a table the matches played are the matches won, drawn
/// and lost, and the goal difference is what its adjustment and the goals
/// of the matches make it: where the three goal columns are not adjusted,
/// goals for less goals against.
pub proof fn lemma_table_rows_add_up(
    table: LeagueTable,
    matches: Seq<Match>,
    number_teams: int,
    adj_points: Option<&[i32]>,
    adj_goals: Option<&[i32]>,
    adj_goals_against: Option<&[i32]>,
    adj_goal_diff: Option<&[i32]>,
)
    requires
        is_table_of(table, matches, number_teams, adj_points, adj_goals, adj_goals_against, adj_goal_diff),
    ensures
        forall|p: int|
            0 <= p < number_teams ==> {
                let row = #[trigger] table.standings@[p];
                let team = row.team_id as int;
                &&& row.played == row.won + row.drawn + row.lost
                &&& row.goal_difference - adjustment_at(adj_goal_diff, team) == (row.goals_for
                    - adjustment_at(adj_goals, team)) - (row.goals_against - adjustment_at(
                    adj_goals_against,
                    team,
                ))
                &&& adj_goals is None && adj_goals_against is None && adj_goal_diff is None
                    ==> row.goal_difference == row.goals_for - row.goals_against
            },
{
    assert forall|p: int| 0 <= p < number_teams implies {
        let row = #[trigger] table.standings@[p];
        let team = row.team_id as int;
        &&& row.played == row.won + row.drawn + row.lost
        &&& row.goal_difference - adjustment_at(adj_goal_diff, team) == (row.goals_for
            - adjustment_at(adj_goals, team)) - (row.goals_against - adjustment_at(
            adj_goals_against,
            team,
        ))
        &&& adj_goals is None && adj_goals_against is None && adj_goal_diff is None
            ==> row.goal_difference == row.goals_for - row.goals_against
    } by {
        let row = table.standings@[p];
        let team = row.team_id as int;
        let start = opening_totals(adj_points, adj_goals, adj_goals_against, adj_goal_diff, team);
        lemma_played_is_won_drawn_lost(matches, team, start);
        lemma_goal_difference_follows_goals(matches, team, start);
    }
}

/// All goals of the played matches.
pub open spec fn goals_scored(matches: Seq<Match>) -> int
    decreases matches.len(),
{
    if matches.len() == 0 {
        0
    } else {
        let m = matches.last();
        goals_scored(matches.drop_last()) + if m.played() {
            m.goals_home->0 + m.goals_away->0
        } else {
            0
        }
    }
}

/// The goals-for column summed over the teams below `teams`, where team `t`
/// opens the season with `starts(t)`.
pub open spec fn league_goals_for(
    matches: Seq<Match>,
    starts: spec_fn(int) -> Totals,
    teams: int,
) -> int
    decreases teams,
{
    if teams <= 0 {
        0
    } else {
        league_goals_for(matches, starts, teams - 1) + totals_after(
            matches,
            teams - 1,
            starts(teams - 1),
        ).goals_for
    }
}

/// The goals-against column summed over the teams below `teams`.
pub open spec fn league_goals_against(
    matches: Seq<Match>,
    starts: spec_fn(int) -> Totals,
    teams: int,
) -> int
    decreases teams,
{
    if teams <= 0 {
        0
    } else {
        league_goals_against(matches, starts, teams - 1) + totals_after(
            matches,
            teams - 1,
            starts(teams - 1),
        ).goals_against
    }
}

/// The goals of `m` that reach the rows of the teams below `teams`.
spec fn goals_reaching(m: Match, teams: int) -> (int, int) {
    if m.played() {
        let goals_home = m.goals_home->0 as int;
        let goals_away = m.goals_away->0 as int;
        let home = 0 <= m.team_home < teams;
        let away = 0 <= m.team_away < teams;
        (
            (if home {
                goals_home
            } else {
                0
            }) + (if away {
                goals_away
            } else {
                0
            }),
            (if home {
                goals_away
            } else {
                0
            }) + (if away {
                goals_home
            } else {
                0
            }),
        )
    } else {
        (0, 0)
    }
}

proof fn lemma_league_goals_step(matches: Seq<Match>, starts: spec_fn(int) -> Totals, teams: int)
    requires
        matches.len() > 0,
    ensures
        league_goals_for(matches, starts, teams) == league_goals_for(
            matches.drop_last(),
            starts,
            teams,
        ) + goals_reaching(matches.last(), teams).0,
        league_goals_against(matches, starts, teams) == league_goals_against(
            matches.drop_last(),
            starts,
            teams,
        ) + goals_reaching(matches.last(), teams).1,
    decreases teams,
{
    if teams > 0 {
        lemma_league_goals_step(matches, starts, teams - 1);
    }
}

/// Over the league, goals for and goals against both grow by the goals of
/// the played matches: the two column sums are what the teams opened with
/// plus every goal scored. Without goal adjustments both sums are the goals
/// scored.
pub proof fn lemma_league_goals_balance(
    matches: Seq<Match>,
    starts: spec_fn(int) -> Totals,
    number_teams: int,
)
    requires
        played_teams_within(matches, number_teams),
    ensures
        league_goals_for(matches, starts, number_teams) == league_goals_for(
            Seq::empty(),
            starts,
            number_teams,
        ) + goals_scored(matches),
        league_goals_against(matches, starts, number_teams) == league_goals_against(
            Seq::empty(),
            starts,
            number_teams,
        ) + goals_scored(matches),
    decreases matches.len(),
{
    if matches.len() == 0 {
        assert(matches =~= Seq::empty());
    } else {
        assert(played_teams_within(matches.drop_last(), number_teams)) by {
            assert forall|k: int|
                0 <= k < matches.drop_last().len() && (
                #[trigger] matches.drop_last()[k]).played() implies matches.drop_last()[k].teams_within(
                number_teams,
            ) by {
                assert(matches[k].played());
            }
        }
        lemma_league_goals_balance(matches.drop_last(), starts, number_teams);
        lemma_league_goals_step(matches, starts, number_teams);
        if matches.last().played() {
            assert(matches[matches.len() - 1].teams_within(number_teams));
        }
    }
}

proof fn lemma_league_opens_without_goals(
    adj_points: Option<&[i32]>,
    adj_goal_diff: Option<&[i32]>,
    teams: int,
)
    ensures
        league_goals_for(
            Seq::empty(),
            |team: int| opening_totals(adj_points, None, None, adj_goal_diff, team),
            teams,
        ) == 0,
        league_goals_against(
            Seq::empty(),
            |team: int| opening_totals(adj_points, None, None, adj_goal_diff, team),
            teams,
        ) == 0,
    decreases teams,
{
    if teams > 0 {
        lemma_league_opens_without_goals(adj_points, adj_goal_diff, teams - 1);
    }
}

/// Where the goal columns are not adjusted, the goals for of all teams and
/// the goals against of all teams both come to the goals scored in the
/// played matches.
pub proof fn lemma_league_goals_are_goals_scored(
    matches: Seq<Match>,
    number_teams: int,
    adj_points: Option<&[i32]>,
    adj_goal_diff: Option<&[i32]>,
)
    requires
        played_teams_within(matches, number_teams),
    ensures
        league_goals_for(
            matches,
            |team: int| opening_totals(adj_points, None, None, adj_goal_diff, team),
            number_teams,
        ) == goals_scored(matches),
        league_goals_against(
            matches,
            |team: int| opening_totals(adj_points, None, None, adj_goal_diff, team),
            number_teams,
        ) == goals_scored(matches),
{
    let starts = |team: int| opening_totals(adj_points, None, None, adj_goal_diff, team);
    lemma_league_goals_balance(matches, starts, number_teams);
    lemma_league_opens_without_goals(adj_points, adj_goal_diff, number_teams);
}

} // verus!
