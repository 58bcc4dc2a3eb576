//! The tally of finishing positions over many simulated seasons, and its
//! layout for display.

use crate::models::{lemma_distinct_ids_cover_league, LeagueTable};
use crate::names::{default_name, default_team_name};
use rand::rngs::StdRng;
use rand::SeedableRng;
use vstd::prelude::*;

verus! {

/// The sum of the first `upto` cells of the row of `team`.
pub open spec fn row_total(counts: Seq<Seq<nat>>, team: int, upto: int) -> nat
    decreases upto,
{
    if upto <= 0 {
        0
    } else {
        row_total(counts, team, upto - 1) + counts[team][upto - 1]
    }
}

/// The sum of the first `upto` cells of the column of `position`.
pub open spec fn column_total(counts: Seq<Seq<nat>>, position: int, upto: int) -> nat
    decreases upto,
{
    if upto <= 0 {
        0
    } else {
        column_total(counts, position, upto - 1) + counts[upto - 1][position]
    }
}

/// `counts` has `number_teams` rows of `number_teams` cells.
pub open spec fn is_square(counts: Seq<Seq<nat>>, number_teams: int) -> bool {
    &&& counts.len() == number_teams
    &&& forall|team: int| 0 <= team < number_teams ==> (#[trigger] counts[team]).len() == number_teams
}

/// Every row and every column of `counts` sums to `trials`: in each trial
/// every team took one position and every position went to one team.
pub open spec fn is_balanced(counts: Seq<Seq<nat>>, number_teams: int, trials: int) -> bool {
    &&& forall|team: int|
        0 <= team < number_teams ==> #[trigger] row_total(counts, team, number_teams) == trials
    &&& forall|position: int|
        0 <= position < number_teams ==> #[trigger] column_total(counts, position, number_teams)
            == trials
}

/// The tally before the first trial.
pub open spec fn empty_counts(number_teams: int) -> Seq<Seq<nat>> {
    Seq::new(number_teams as nat, |team: int| Seq::new(number_teams as nat, |position: int| 0nat))
}

/// The tally after one more trial that ended with `team_ids[p]` at index `p`.
pub open spec fn recorded(counts: Seq<Seq<nat>>, team_ids: Seq<int>) -> Seq<Seq<nat>> {
    Seq::new(
        counts.len(),
        |team: int|
            Seq::new(
                counts[team].len(),
                |position: int|
                    if team_ids[position] == team {
                        counts[team][position] + 1
                    } else {
                        counts[team][position]
                    },
            ),
    )
}

/// The cell-wise sum of two tallies of the same league.
pub open spec fn merged(counts: Seq<Seq<nat>>, other: Seq<Seq<nat>>) -> Seq<Seq<nat>> {
    Seq::new(
        counts.len(),
        |team: int|
            Seq::new(
                counts[team].len(),
                |position: int| counts[team][position] + other[team][position],
            ),
    )
}

/// `team` stands at some index of `team_ids`.
pub open spec fn is_placed(team_ids: Seq<int>, team: int) -> bool {
    exists|p: int| 0 <= p < team_ids.len() && #[trigger] team_ids[p] == team
}

/// The team ids are those of a ranking of `number_teams` teams: each index
/// holds a team of the league, and each team stands at exactly one index.
pub open spec fn is_placement(team_ids: Seq<int>, number_teams: int) -> bool {
    &&& team_ids.len() == number_teams
    &&& forall|p: int| 0 <= p < number_teams ==> 0 <= #[trigger] team_ids[p] < number_teams
    &&& forall|p: int, q: int|
        0 <= p < q < number_teams ==> #[trigger] team_ids[p] != #[trigger] team_ids[q]
    &&& forall|team: int| 0 <= team < number_teams ==> #[trigger] is_placed(team_ids, team)
}

proof fn lemma_cell_within_row(counts: Seq<Seq<nat>>, team: int, upto: int, position: int)
    requires
        0 <= position < upto,
    ensures
        counts[team][position] <= row_total(counts, team, upto),
    decreases upto,
{
    if position < upto - 1 {
        lemma_cell_within_row(counts, team, upto - 1, position);
    }
}

proof fn lemma_row_of_recorded(
    counts: Seq<Seq<nat>>,
    after: Seq<Seq<nat>>,
    team: int,
    upto: int,
    bumped: int,
)
    requires
        forall|q: int|
            0 <= q < upto ==> #[trigger] after[team][q] == counts[team][q] + if q == bumped {
                1nat
            } else {
                0nat
            },
    ensures
        row_total(after, team, upto) == row_total(counts, team, upto) + if 0 <= bumped < upto {
            1nat
        } else {
            0nat
        },
    decreases upto,
{
    if upto > 0 {
        lemma_row_of_recorded(counts, after, team, upto - 1, bumped);
    }
}

proof fn lemma_column_of_recorded(
    counts: Seq<Seq<nat>>,
    after: Seq<Seq<nat>>,
    position: int,
    upto: int,
    bumped: int,
)
    requires
        forall|t: int|
            0 <= t < upto ==> #[trigger] after[t][position] == counts[t][position] + if t
                == bumped {
                1nat
            } else {
                0nat
            },
    ensures
        column_total(after, position, upto) == column_total(counts, position, upto) + if 0
            <= bumped < upto {
            1nat
        } else {
            0nat
        },
    decreases upto,
{
    if upto > 0 {
        lemma_column_of_recorded(counts, after, position, upto - 1, bumped);
    }
}

proof fn lemma_totals_of_merged(
    counts: Seq<Seq<nat>>,
    other: Seq<Seq<nat>>,
    number_teams: int,
    line: int,
    upto: int,
)
    requires
        is_square(counts, number_teams),
        is_square(other, number_teams),
        0 <= line < number_teams,
        0 <= upto <= number_teams,
    ensures
        row_total(merged(counts, other), line, upto) == row_total(counts, line, upto) + row_total(
            other,
            line,
            upto,
        ),
        column_total(merged(counts, other), line, upto) == column_total(counts, line, upto)
            + column_total(other, line, upto),
    decreases upto,
{
    if upto > 0 {
        lemma_totals_of_merged(counts, other, number_teams, line, upto - 1);
    }
}

proof fn lemma_totals_of_empty(number_teams: int, line: int, upto: int)
    requires
        0 <= line < number_teams,
        0 <= upto <= number_teams,
    ensures
        row_total(empty_counts(number_teams), line, upto) == 0,
        column_total(empty_counts(number_teams), line, upto) == 0,
    decreases upto,
{
    if upto > 0 {
        lemma_totals_of_empty(number_teams, line, upto - 1);
    }
}

/// No count of a balanced tally exceeds the number of trials, so every
/// count divided by the number of trials lies between 0 and 1.
pub proof fn lemma_counts_within_trials(counts: Seq<Seq<nat>>, number_teams: int, trials: int)
    requires
        is_balanced(counts, number_teams, trials),
    ensures
        forall|team: int, position: int|
            0 <= team < number_teams && 0 <= position < number_teams
                ==> #[trigger] counts[team][position] <= trials,
{
    assert forall|team: int, position: int|
        0 <= team < number_teams && 0 <= position < number_teams
        implies #[trigger] counts[team][position] <= trials by {
        lemma_cell_within_row(counts, team, number_teams, position);
        assert(row_total(counts, team, number_teams) == trials);
    }
}

/// An empty tally is balanced at zero trials.
pub proof fn lemma_empty_is_balanced(number_teams: int)
    requires
        0 <= number_teams,
    ensures
        is_square(empty_counts(number_teams), number_teams),
        is_balanced(empty_counts(number_teams), number_teams, 0),
{
    assert forall|team: int| 0 <= team < number_teams implies #[trigger] row_total(
        empty_counts(number_teams),
        team,
        number_teams,
    ) == 0 by {
        lemma_totals_of_empty(number_teams, team, number_teams);
    }
    assert forall|position: int| 0 <= position < number_teams implies #[trigger] column_total(
        empty_counts(number_teams),
        position,
        number_teams,
    ) == 0 by {
        lemma_totals_of_empty(number_teams, position, number_teams);
    }
}

/// One more trial adds one to every row and to every column: each team
/// takes exactly one position, and each position goes to exactly one team.
pub proof fn lemma_recorded_is_balanced(
    counts: Seq<Seq<nat>>,
    team_ids: Seq<int>,
    number_teams: int,
    trials: int,
)
    requires
        is_square(counts, number_teams),
        is_balanced(counts, number_teams, trials),
        is_placement(team_ids, number_teams),
    ensures
        is_square(recorded(counts, team_ids), number_teams),
        is_balanced(recorded(counts, team_ids), number_teams, trials + 1),
{
    let after = recorded(counts, team_ids);
    assert forall|team: int| 0 <= team < number_teams implies #[trigger] row_total(
        after,
        team,
        number_teams,
    ) == trials + 1 by {
        assert(is_placed(team_ids, team));
        let p = choose|p: int| 0 <= p < team_ids.len() && #[trigger] team_ids[p] == team;
        assert forall|q: int| 0 <= q < number_teams implies #[trigger] after[team][q]
            == counts[team][q] + if q == p {
            1nat
        } else {
            0nat
        } by {
            // No other index holds the team: the ids are distinct.
            if q < p {
                assert(team_ids[q] != team_ids[p]);
            } else if p < q {
                assert(team_ids[p] != team_ids[q]);
            }
        }
        lemma_row_of_recorded(counts, after, team, number_teams, p);
    }
    assert forall|position: int| 0 <= position < number_teams implies #[trigger] column_total(
        after,
        position,
        number_teams,
    ) == trials + 1 by {
        let team = team_ids[position];
        lemma_column_of_recorded(counts, after, position, number_teams, team);
    }
}

/// Merging two balanced tallies gives a tally balanced at the sum of their
/// trials.
pub proof fn lemma_merged_is_balanced(
    counts: Seq<Seq<nat>>,
    other: Seq<Seq<nat>>,
    number_teams: int,
    trials: int,
    other_trials: int,
)
    requires
        is_square(counts, number_teams),
        is_square(other, number_teams),
        is_balanced(counts, number_teams, trials),
        is_balanced(other, number_teams, other_trials),
    ensures
        is_square(merged(counts, other), number_teams),
        is_balanced(merged(counts, other), number_teams, trials + other_trials),
{
    assert forall|team: int| 0 <= team < number_teams implies #[trigger] row_total(
        merged(counts, other),
        team,
        number_teams,
    ) == trials + other_trials by {
        lemma_totals_of_merged(counts, other, number_teams, team, number_teams);
    }
    assert forall|position: int| 0 <= position < number_teams implies #[trigger] column_total(
        merged(counts, other),
        position,
        number_teams,
    ) == trials + other_trials by {
        lemma_totals_of_merged(counts, other, number_teams, position, number_teams);
    }
}

impl LeagueTable {
    /// The team ids of a ranking form a placement.
    pub proof fn lemma_ranking_is_placement(self, number_teams: int)
        requires
            self.is_ranking(number_teams),
        ensures
            is_placement(self.team_ids(), number_teams),
    {
        let ids = self.team_ids();
        assert forall|p: int, q: int| 0 <= p < q < number_teams implies #[trigger] ids[p]
            != #[trigger] ids[q] by {
            assert(self.standings@[p].team_id != self.standings@[q].team_id);
        }
        assert forall|team: int| 0 <= team < number_teams implies #[trigger] is_placed(
            ids,
            team,
        ) by {
            self.lemma_every_team_is_placed(number_teams, team);
            let p = choose|p: int| 0 <= p < number_teams && self.standings@[p].team_id == team;
            assert(ids[p] == team);
        }
    }
}

/// The tally of a run of trials: `outcomes[i]` holds the team ids of trial
/// `i`, from the top of its table down.
pub open spec fn tally_of(outcomes: Seq<Seq<int>>, number_teams: int) -> Seq<Seq<nat>>
    decreases outcomes.len(),
{
    if outcomes.len() == 0 {
        empty_counts(number_teams)
    } else {
        recorded(tally_of(outcomes.drop_last(), number_teams), outcomes.last())
    }
}

/// Trials commute: recording two outcomes in either order gives the same
/// tally.
pub proof fn lemma_record_commutes(counts: Seq<Seq<nat>>, first: Seq<int>, second: Seq<int>)
    ensures
        recorded(recorded(counts, first), second) == recorded(recorded(counts, second), first),
{
    assert(recorded(recorded(counts, first), second) =~~= recorded(
        recorded(counts, second),
        first,
    ));
}

/// Merging is symmetric.
pub proof fn lemma_merge_commutes(
    counts: Seq<Seq<nat>>,
    other: Seq<Seq<nat>>,
    number_teams: int,
)
    requires
        is_square(counts, number_teams),
        is_square(other, number_teams),
    ensures
        merged(counts, other) == merged(other, counts),
{
    assert(merged(counts, other) =~~= merged(other, counts));
}

/// Merging three tallies gives the same result however they are grouped.
pub proof fn lemma_merge_associates(
    first: Seq<Seq<nat>>,
    second: Seq<Seq<nat>>,
    third: Seq<Seq<nat>>,
    number_teams: int,
)
    requires
        is_square(first, number_teams),
        is_square(second, number_teams),
        is_square(third, number_teams),
    ensures
        merged(merged(first, second), third) == merged(first, merged(second, third)),
{
    assert(merged(merged(first, second), third) =~~= merged(first, merged(second, third)));
}

/// A trial may be recorded before or after a merge.
pub proof fn lemma_record_then_merge(
    counts: Seq<Seq<nat>>,
    other: Seq<Seq<nat>>,
    team_ids: Seq<int>,
    number_teams: int,
)
    requires
        is_square(counts, number_teams),
        is_square(other, number_teams),
    ensures
        merged(counts, recorded(other, team_ids)) == recorded(merged(counts, other), team_ids),
        merged(recorded(counts, team_ids), other) == recorded(merged(counts, other), team_ids),
{
    assert(merged(counts, recorded(other, team_ids)) =~~= recorded(
        merged(counts, other),
        team_ids,
    ));
    assert(merged(recorded(counts, team_ids), other) =~~= recorded(
        merged(counts, other),
        team_ids,
    ));
}

proof fn lemma_tally_is_square(outcomes: Seq<Seq<int>>, number_teams: int)
    requires
        0 <= number_teams,
    ensures
        is_square(tally_of(outcomes, number_teams), number_teams),
    decreases outcomes.len(),
{
    if outcomes.len() > 0 {
        lemma_tally_is_square(outcomes.drop_last(), number_teams);
    }
}

/// The tally does not depend on how the trials are shared out: the tally
/// of a run of trials is the merge of the tallies of its two parts.
pub proof fn lemma_tally_of_parts(
    head: Seq<Seq<int>>,
    tail: Seq<Seq<int>>,
    number_teams: int,
)
    requires
        0 <= number_teams,
    ensures
        tally_of(head + tail, number_teams) == merged(
            tally_of(head, number_teams),
            tally_of(tail, number_teams),
        ),
    decreases tail.len(),
{
    lemma_tally_is_square(head, number_teams);
    lemma_tally_is_square(tail, number_teams);
    if tail.len() == 0 {
        assert(merged(tally_of(head, number_teams), empty_counts(number_teams)) =~~= tally_of(
            head,
            number_teams,
        ));
    } else {
        assert((head + tail).drop_last() =~= head + tail.drop_last());
        lemma_tally_of_parts(head, tail.drop_last(), number_teams);
        lemma_tally_is_square(tail.drop_last(), number_teams);
        lemma_record_then_merge(
            tally_of(head, number_teams),
            tally_of(tail.drop_last(), number_teams),
            tail.last(),
            number_teams,
        );
    }
}

/// Two trials next to each other may change places without changing the
/// tally, so the tally does not depend on the order of the trials.
pub proof fn lemma_tally_ignores_order(outcomes: Seq<Seq<int>>, number_teams: int, i: int)
    requires
        0 <= number_teams,
        0 <= i,
        i + 1 < outcomes.len(),
    ensures
        tally_of(outcomes.update(i, outcomes[i + 1]).update(i + 1, outcomes[i]), number_teams)
            == tally_of(outcomes, number_teams),
    decreases outcomes.len(),
{
    let swapped = outcomes.update(i, outcomes[i + 1]).update(i + 1, outcomes[i]);
    if i + 2 == outcomes.len() {
        let rest = outcomes.drop_last().drop_last();
        let below = tally_of(rest, number_teams);
        assert(swapped.drop_last().drop_last() =~= rest);
        assert(tally_of(swapped.drop_last(), number_teams) == recorded(below, outcomes[i + 1]));
        assert(tally_of(outcomes.drop_last(), number_teams) == recorded(below, outcomes[i]));
        assert(tally_of(swapped, number_teams) == recorded(
            recorded(below, outcomes[i + 1]),
            outcomes[i],
        ));
        assert(tally_of(outcomes, number_teams) == recorded(
            recorded(below, outcomes[i]),
            outcomes[i + 1],
        ));
        lemma_record_commutes(below, outcomes[i], outcomes[i + 1]);
    } else {
        let shorter = outcomes.drop_last();
        assert(swapped.drop_last() =~= shorter.update(i, shorter[i + 1]).update(
            i + 1,
            shorter[i],
        ));
        lemma_tally_ignores_order(shorter, number_teams, i);
        assert(tally_of(swapped, number_teams) == recorded(
            tally_of(swapped.drop_last(), number_teams),
            swapped.last(),
        ));
    }
}

/// When every trial ends with the same table, every team has one position
/// that it took in all trials, and it never took another.
pub proof fn lemma_same_outcome_collapses(
    outcomes: Seq<Seq<int>>,
    team_ids: Seq<int>,
    number_teams: int,
    team: int,
    position: int,
)
    requires
        forall|i: int| 0 <= i < outcomes.len() ==> #[trigger] outcomes[i] == team_ids,
        0 <= team < number_teams,
        0 <= position < number_teams,
    ensures
        tally_of(outcomes, number_teams)[team][position] == if team_ids[position] == team {
            outcomes.len()
        } else {
            0
        },
    decreases outcomes.len(),
{
    lemma_tally_is_square(outcomes, number_teams);
    if outcomes.len() > 0 {
        lemma_tally_is_square(outcomes.drop_last(), number_teams);
        assert forall|i: int| 0 <= i < outcomes.drop_last().len() implies (
        #[trigger] outcomes.drop_last()[i]) == team_ids by {
            assert(outcomes[i] == team_ids);
        }
        lemma_same_outcome_collapses(
            outcomes.drop_last(),
            team_ids,
            number_teams,
            team,
            position,
        );
    }
}

/// The position numbers of the first `upto` positions, each weighted with
/// the count of `team` there. Divided by the number of trials this is the
/// expected finishing position of the team.
pub open spec fn position_weight(counts: Seq<Seq<nat>>, team: int, upto: int) -> int
    decreases upto,
{
    if upto <= 0 {
        0
    } else {
        position_weight(counts, team, upto - 1) + upto * counts[team][upto - 1]
    }
}

/// Team `a` is shown above team `b`: its expected finishing position is
/// better, or it is the same and `a` has the lower index.
pub open spec fn shown_before(counts: Seq<Seq<nat>>, a: int, b: int) -> bool {
    let n = counts.len() as int;
    ||| position_weight(counts, a, n) < position_weight(counts, b, n)
    ||| position_weight(counts, a, n) == position_weight(counts, b, n) && a < b
}

/// `order` lists every team of the tally once, best expected position first.
pub open spec fn is_display_order(order: Seq<usize>, counts: Seq<Seq<nat>>) -> bool {
    &&& order.len() == counts.len()
    &&& forall|i: int| 0 <= i < order.len() ==> #[trigger] order[i] < counts.len()
    &&& forall|i: int, j: int|
        0 <= i < j < order.len() ==> shown_before(
            counts,
            #[trigger] order[i] as int,
            #[trigger] order[j] as int,
        )
}

/// The name under which a team is shown: its own where `team_names` has
/// one, the default name otherwise.
pub open spec fn display_name(team_names: Seq<String>, team_id: int) -> Seq<char> {
    if 0 <= team_id < team_names.len() {
        team_names[team_id]@
    } else {
        default_name(team_id)
    }
}

proof fn lemma_row_total_grows(counts: Seq<Seq<nat>>, team: int, upto: int, later: int)
    requires
        upto <= later,
    ensures
        row_total(counts, team, upto) <= row_total(counts, team, later),
    decreases later - upto,
{
    if upto < later {
        lemma_row_total_grows(counts, team, upto, later - 1);
    }
}

proof fn lemma_weight_within(counts: Seq<Seq<nat>>, team: int, upto: int)
    requires
        0 <= upto,
    ensures
        0 <= position_weight(counts, team, upto) <= upto * row_total(counts, team, upto),
    decreases upto,
{
    if upto > 0 {
        lemma_weight_within(counts, team, upto - 1);
        let cell = counts[team][upto - 1] as int;
        let below = row_total(counts, team, upto - 1) as int;
        assert((upto - 1) * below <= upto * below) by (nonlinear_arith)
            requires
                below >= 0,
        ;
        assert(upto * (below + cell) == upto * below + upto * cell) by (nonlinear_arith);
        assert(0 <= upto * cell) by (nonlinear_arith)
            requires
                upto >= 0,
                cell >= 0,
        ;
    }
}

/// A display order names every team: it is unique, so two display orders
/// of one tally are the same.
pub proof fn lemma_display_order_is_unique(
    first: Seq<usize>,
    second: Seq<usize>,
    counts: Seq<Seq<nat>>,
)
    requires
        is_display_order(first, counts),
        is_display_order(second, counts),
    ensures
        first == second,
{
    lemma_display_orders_agree_up_to(first, second, counts, counts.len() as int);
    assert(first =~= second);
}

proof fn lemma_display_order_covers(order: Seq<usize>, counts: Seq<Seq<nat>>, team: int)
    requires
        is_display_order(order, counts),
        0 <= team < counts.len(),
    ensures
        exists|i: int| 0 <= i < order.len() && order[i] == team,
{
    let ids = Seq::new(order.len(), |i: int| order[i] as int);
    assert forall|i: int, j: int| 0 <= i < j < counts.len() implies #[trigger] ids[i]
        != #[trigger] ids[j] by {
        assert(shown_before(counts, order[i] as int, order[j] as int));
    }
    lemma_distinct_ids_cover_league(ids, counts.len() as int, team);
    let i = choose|i: int| 0 <= i < counts.len() && ids[i] == team;
    assert(order[i] == team);
}

proof fn lemma_display_orders_agree_up_to(
    first: Seq<usize>,
    second: Seq<usize>,
    counts: Seq<Seq<nat>>,
    upto: int,
)
    requires
        is_display_order(first, counts),
        is_display_order(second, counts),
        0 <= upto <= counts.len(),
    ensures
        forall|i: int| 0 <= i < upto ==> first[i] == second[i],
    decreases upto,
{
    if upto > 0 {
        lemma_display_orders_agree_up_to(first, second, counts, upto - 1);
        let i = upto - 1;
        if first[i] != second[i] {
            // The team that `first` names here comes later in `second`, and
            // the team that `second` names here comes later in `first`:
            // each would be shown before the other.
            lemma_display_order_covers(second, counts, first[i] as int);
            let j = choose|j: int| 0 <= j < second.len() && second[j] == first[i];
            if j < i {
                assert(shown_before(counts, first[j] as int, first[i] as int));
            }
            lemma_display_order_covers(first, counts, second[i] as int);
            let k = choose|k: int| 0 <= k < first.len() && first[k] == second[i];
            if k < i {
                assert(shown_before(counts, second[k] as int, second[i] as int));
            }
            assert(shown_before(counts, second[i] as int, second[j] as int));
            assert(shown_before(counts, first[i] as int, first[k] as int));
            assert(false);
        }
    }
}

/// Every team of the tally is named once in `order`.
pub open spec fn names_each_team_once(order: Seq<usize>, number_teams: int) -> bool {
    &&& order.len() == number_teams
    &&& forall|i: int| 0 <= i < number_teams ==> #[trigger] order[i] < number_teams
    &&& forall|i: int, j: int|
        0 <= i < j < number_teams ==> #[trigger] order[i] != #[trigger] order[j]
}

/// The rows of `counts` in the order `order`: row `i` is the row of team
/// `order[i]`.
pub open spec fn rows_in_order(counts: Seq<Seq<nat>>, order: Seq<usize>) -> Seq<Seq<nat>> {
    Seq::new(order.len(), |i: int| counts[order[i] as int])
}

/// `team` is among the first `upto` teams of `order`.
spec fn named_before(order: Seq<usize>, team: int, upto: int) -> bool {
    exists|i: int| 0 <= i < upto && #[trigger] order[i] == team
}

/// The column of `position` summed over those of the first `teams` teams
/// that are among the first `upto` of `order`.
spec fn column_total_of_named(
    counts: Seq<Seq<nat>>,
    order: Seq<usize>,
    position: int,
    upto: int,
    teams: int,
) -> nat
    decreases teams,
{
    if teams <= 0 {
        0
    } else {
        column_total_of_named(counts, order, position, upto, teams - 1) + if named_before(
            order,
            teams - 1,
            upto,
        ) {
            counts[teams - 1][position]
        } else {
            0
        }
    }
}

proof fn lemma_naming_one_more(
    counts: Seq<Seq<nat>>,
    order: Seq<usize>,
    number_teams: int,
    position: int,
    upto: int,
    teams: int,
)
    requires
        names_each_team_once(order, number_teams),
        0 <= upto < number_teams,
    ensures
        column_total_of_named(counts, order, position, upto + 1, teams) == column_total_of_named(
            counts,
            order,
            position,
            upto,
            teams,
        ) + if order[upto] < teams {
            counts[order[upto] as int][position]
        } else {
            0
        },
    decreases teams,
{
    if teams > 0 {
        lemma_naming_one_more(counts, order, number_teams, position, upto, teams - 1);
        let team = teams - 1;
        if order[upto] == team {
            // The team is named at `upto`, and nowhere before.
            assert(named_before(order, team, upto + 1));
            if named_before(order, team, upto) {
                let i = choose|i: int| 0 <= i < upto && #[trigger] order[i] == team;
                assert(order[i] != order[upto]);
            }
        } else {
            // Another team is named before `upto + 1` exactly when it is
            // named before `upto`.
            if named_before(order, team, upto + 1) {
                let i = choose|i: int| 0 <= i < upto + 1 && #[trigger] order[i] == team;
                assert(i < upto);
            }
            if named_before(order, team, upto) {
                let i = choose|i: int| 0 <= i < upto && #[trigger] order[i] == team;
                assert(i < upto + 1);
            }
        }
    }
}

proof fn lemma_column_of_rows_in_order(
    counts: Seq<Seq<nat>>,
    order: Seq<usize>,
    number_teams: int,
    position: int,
    upto: int,
)
    requires
        names_each_team_once(order, number_teams),
        0 <= upto <= number_teams,
    ensures
        column_total(rows_in_order(counts, order), position, upto) == column_total_of_named(
            counts,
            order,
            position,
            upto,
            number_teams,
        ),
    decreases upto,
{
    if upto > 0 {
        lemma_column_of_rows_in_order(counts, order, number_teams, position, upto - 1);
        lemma_naming_one_more(counts, order, number_teams, position, upto - 1, number_teams);
    } else {
        lemma_nobody_named(counts, order, position, number_teams);
    }
}

proof fn lemma_nobody_named(counts: Seq<Seq<nat>>, order: Seq<usize>, position: int, teams: int)
    ensures
        column_total_of_named(counts, order, position, 0, teams) == 0,
    decreases teams,
{
    if teams > 0 {
        lemma_nobody_named(counts, order, position, teams - 1);
    }
}

proof fn lemma_everybody_named(
    counts: Seq<Seq<nat>>,
    order: Seq<usize>,
    number_teams: int,
    position: int,
    teams: int,
)
    requires
        names_each_team_once(order, number_teams),
        0 <= teams <= number_teams,
    ensures
        column_total_of_named(counts, order, position, number_teams, teams) == column_total(
            counts,
            position,
            teams,
        ),
    decreases teams,
{
    if teams > 0 {
        lemma_everybody_named(counts, order, number_teams, position, teams - 1);
        let ids = Seq::new(order.len(), |i: int| order[i] as int);
        lemma_distinct_ids_cover_league(ids, number_teams, teams - 1);
        let i = choose|i: int| 0 <= i < number_teams && ids[i] == teams - 1;
        assert(order[i] == teams - 1);
        assert(named_before(order, teams - 1, number_teams));
    }
}

/// Laying the rows of a balanced tally out in another order keeps it
/// balanced: the rows are the same rows, and every column holds the same
/// counts in another order.
pub proof fn lemma_rows_in_order_are_balanced(
    counts: Seq<Seq<nat>>,
    order: Seq<usize>,
    number_teams: int,
    trials: int,
)
    requires
        is_square(counts, number_teams),
        is_balanced(counts, number_teams, trials),
        names_each_team_once(order, number_teams),
    ensures
        is_square(rows_in_order(counts, order), number_teams),
        is_balanced(rows_in_order(counts, order), number_teams, trials),
{
    let shown = rows_in_order(counts, order);
    assert forall|i: int| 0 <= i < number_teams implies #[trigger] row_total(
        shown,
        i,
        number_teams,
    ) == trials by {
        lemma_same_row_same_total(shown, i, counts, order[i] as int, number_teams);
    }
    assert forall|position: int| 0 <= position < number_teams implies #[trigger] column_total(
        shown,
        position,
        number_teams,
    ) == trials by {
        lemma_column_of_rows_in_order(counts, order, number_teams, position, number_teams);
        lemma_everybody_named(counts, order, number_teams, position, number_teams);
    }
}

proof fn lemma_same_row_same_total(
    counts: Seq<Seq<nat>>,
    team: int,
    other: Seq<Seq<nat>>,
    other_team: int,
    upto: int,
)
    requires
        counts[team] == other[other_team],
    ensures
        row_total(counts, team, upto) == row_total(other, other_team, upto),
    decreases upto,
{
    if upto > 0 {
        lemma_same_row_same_total(counts, team, other, other_team, upto - 1);
    }
}

/// A display order names every team of the tally once.
pub proof fn lemma_display_order_names_each_team(order: Seq<usize>, counts: Seq<Seq<nat>>)
    requires
        is_display_order(order, counts),
    ensures
        names_each_team_once(order, counts.len() as int),
{
    assert forall|i: int, j: int| 0 <= i < j < counts.len() implies #[trigger] order[i]
        != #[trigger] order[j] by {
        assert(shown_before(counts, order[i] as int, order[j] as int));
    }
}

/// The standard generator of the `rand` crate. Its state is not modelled.
#[verifier::external_type_specification]
#[verifier::external_body]
pub struct ExStdRng(StdRng);

/// The generator that `StdRng::seed_from_u64` of the `rand` crate makes
/// from `seed`. The function expands the seed into the key of the
/// generator by a fixed recurrence and reads nothing else, so the seed
/// alone decides the generator and every number that it will draw.
pub uninterp spec fn generator_seeded_with(seed: u64) -> StdRng;

/// Calls `StdRng::seed_from_u64` of the `rand` crate, which accepts every
/// seed. The contract claims that the generator that comes back is the one
/// that the seed stands for, whenever and wherever the call is made; of
/// the numbers that the generator draws it claims nothing.
#[verifier::external_body]
fn seeded_generator(seed: u64) -> (generator: StdRng)
    ensures
        generator == generator_seeded_with(seed),
{
    StdRng::seed_from_u64(seed)
}

/// The random number generator of one trial. It is seeded with the index
/// of the trial and with nothing else: not with the clock, not with a
/// generator shared between trials. The generator is `StdRng` of the
/// `rand` crate, seeded through `seed_from_u64`; trial `i` starts from the
/// same generator in every run and on every worker.
pub fn trial_rng(iteration: usize) -> (generator: StdRng)
    ensures
        generator == generator_seeded_with(iteration as u64),
{
    seeded_generator(iteration as u64)
}

/// How often each team finished in each position, over the trials recorded
/// so far. Row `t` belongs to team `t`, column `p` to position `p + 1`.
#[derive(Debug)]
pub struct PositionCounts {
    counts: Vec<Vec<usize>>,
    trials: usize,
}

impl View for PositionCounts {
    type V = Seq<Seq<nat>>;

    /// The counts as a matrix of naturals.
    closed spec fn view(&self) -> Seq<Seq<nat>> {
        Seq::new(
            self.counts@.len(),
            |team: int|
                Seq::new(
                    self.counts@[team]@.len(),
                    |position: int| self.counts@[team]@[position] as nat,
                ),
        )
    }
}

impl PositionCounts {
    /// The number of teams of the league.
    pub closed spec fn spec_number_teams(&self) -> usize {
        self.counts@.len() as usize
    }

    /// The number of trials recorded.
    pub closed spec fn spec_trials(&self) -> usize {
        self.trials
    }

    /// The counts form a square matrix in which every row and every column
    /// sums to the number of trials.
    pub open spec fn wf(&self) -> bool {
        &&& is_square(self@, self.spec_number_teams() as int)
        &&& is_balanced(self@, self.spec_number_teams() as int, self.spec_trials() as int)
    }

    /// The number of teams of the league.
    #[verifier::when_used_as_spec(spec_number_teams)]
    pub fn number_teams(&self) -> (n: usize)
        ensures
            n == self.spec_number_teams(),
    {
        self.counts.len()
    }

    /// The number of trials recorded.
    #[verifier::when_used_as_spec(spec_trials)]
    pub fn trials(&self) -> (n: usize)
        ensures
            n == self.spec_trials(),
    {
        self.trials
    }

    /// An empty tally for a league of `number_teams` teams.
    pub fn new(number_teams: usize) -> (tally: PositionCounts)
        ensures
            tally.wf(),
            tally.number_teams() == number_teams,
            tally.trials() == 0,
            tally@ == empty_counts(number_teams as int),
    {
        let mut counts: Vec<Vec<usize>> = Vec::new();
        let mut team: usize = 0;
        while team < number_teams
            invariant
                team <= number_teams,
                counts@.len() == team,
                forall|t: int|
                    0 <= t < team ==> {
                        &&& (#[trigger] counts@[t])@.len() == number_teams
                        &&& forall|q: int| 0 <= q < number_teams ==> #[trigger] counts@[t]@[q] == 0
                    },
            decreases number_teams - team,
        {
            let mut row: Vec<usize> = Vec::new();
            let mut position: usize = 0;
            while position < number_teams
                invariant
                    position <= number_teams,
                    row@.len() == position,
                    forall|q: int| 0 <= q < position ==> #[trigger] row@[q] == 0,
                decreases number_teams - position,
            {
                row.push(0);
                position = position + 1;
            }
            counts.push(row);
            team = team + 1;
        }
        let tally = PositionCounts { counts, trials: 0 };
        proof {
            assert(tally@ =~~= empty_counts(number_teams as int));
            lemma_empty_is_balanced(number_teams as int);
        }
        tally
    }

    /// How often `team` finished at index `position` (position `position + 1`).
    pub fn count(&self, team: usize, position: usize) -> (n: usize)
        requires
            self.wf(),
            team < self.number_teams(),
            position < self.number_teams(),
        ensures
            n == self@[team as int][position as int],
            n <= self.trials(),
    {
        proof {
            lemma_cell_within_row(
                self@,
                team as int,
                self.spec_number_teams() as int,
                position as int,
            );
        }
        self.counts[team][position]
    }

    /// Records the outcome of one more trial: for every row of `table`, the
    /// count of its team at its position goes up by one.
    pub fn record(&mut self, table: &LeagueTable)
        requires
            old(self).wf(),
            table.is_ranking(old(self).number_teams() as int),
            old(self).trials() < usize::MAX,
        ensures
            final(self).wf(),
            final(self).number_teams() == old(self).number_teams(),
            final(self).trials() == old(self).trials() + 1,
            final(self)@ == recorded(old(self)@, table.team_ids()),
    {
        let number_teams = self.counts.len();
        let ghost before = self@;
        let ghost team_ids = table.team_ids();
        proof {
            assert forall|t: int| 0 <= t < number_teams implies (#[trigger] self.counts@[t])@.len()
                == number_teams by {
                assert(self@[t].len() == number_teams);
            }
        }
        let mut position: usize = 0;
        while position < number_teams
            invariant
                position <= number_teams,
                number_teams == self.counts@.len(),
                self.trials == old(self).trials,
                before == old(self)@,
                team_ids == table.team_ids(),
                is_square(before, number_teams as int),
                is_balanced(before, number_teams as int, self.trials as int),
                self.trials < usize::MAX,
                table.is_ranking(number_teams as int),
                forall|t: int|
                    0 <= t < number_teams ==> (#[trigger] self.counts@[t])@.len() == number_teams,
                forall|t: int, q: int|
                    0 <= t < number_teams && 0 <= q < number_teams ==> #[trigger] self.counts@[t]@[q]
                        == before[t][q] + if q < position && team_ids[q] == t {
                        1nat
                    } else {
                        0nat
                    },
            decreases number_teams - position,
        {
            let team = table.standings[position].team_id;
            proof {
                lemma_cell_within_row(before, team as int, number_teams as int, position as int);
            }
            let seen = self.counts[team][position];
            self.counts[team][position] = seen + 1;
            position = position + 1;
        }
        self.trials = self.trials + 1;
        proof {
            assert(self@ =~~= recorded(before, team_ids));
            table.lemma_ranking_is_placement(number_teams as int);
            lemma_recorded_is_balanced(
                before,
                team_ids,
                number_teams as int,
                old(self).trials as int,
            );
        }
    }

    /// Adds the counts of `other`, a tally of other trials of the same
    /// league, to this one.
    pub fn merge(&mut self, other: &PositionCounts)
        requires
            old(self).wf(),
            other.wf(),
            other.number_teams() == old(self).number_teams(),
            old(self).trials() + other.trials() <= usize::MAX,
        ensures
            final(self).wf(),
            final(self).number_teams() == old(self).number_teams(),
            final(self).trials() == old(self).trials() + other.trials(),
            final(self)@ == merged(old(self)@, other@),
    {
        let number_teams = self.counts.len();
        let ghost before = self@;
        proof {
            assert forall|t: int| 0 <= t < number_teams implies (#[trigger] self.counts@[t])@.len()
                == number_teams by {
                assert(self@[t].len() == number_teams);
            }
        }
        let mut team: usize = 0;
        while team < number_teams
            invariant
                team <= number_teams,
                number_teams == self.counts@.len(),
                number_teams == other.counts@.len(),
                self.trials == old(self).trials,
                before == old(self)@,
                is_square(before, number_teams as int),
                is_square(other@, number_teams as int),
                is_balanced(before, number_teams as int, self.trials as int),
                is_balanced(other@, number_teams as int, other.trials as int),
                self.trials + other.trials <= usize::MAX,
                forall|t: int|
                    0 <= t < number_teams ==> (#[trigger] self.counts@[t])@.len() == number_teams,
                forall|t: int, q: int|
                    0 <= t < number_teams && 0 <= q < number_teams ==> #[trigger] self.counts@[t]@[q]
                        == if t < team {
                        before[t][q] + other@[t][q]
                    } else {
                        before[t][q]
                    },
            decreases number_teams - team,
        {
            let mut position: usize = 0;
            while position < number_teams
                invariant
                    team < number_teams,
                    position <= number_teams,
                    number_teams == self.counts@.len(),
                    number_teams == other.counts@.len(),
                    self.trials == old(self).trials,
                    before == old(self)@,
                    is_square(before, number_teams as int),
                    is_square(other@, number_teams as int),
                    is_balanced(before, number_teams as int, self.trials as int),
                    is_balanced(other@, number_teams as int, other.trials as int),
                    self.trials + other.trials <= usize::MAX,
                    forall|t: int|
                        0 <= t < number_teams ==> (#[trigger] self.counts@[t])@.len()
                            == number_teams,
                    forall|t: int, q: int|
                        0 <= t < number_teams && 0 <= q < number_teams
                            ==> #[trigger] self.counts@[t]@[q] == if t < team || (t == team && q
                            < position) {
                            before[t][q] + other@[t][q]
                        } else {
                            before[t][q]
                        },
                decreases number_teams - position,
            {
                proof {
                    lemma_cell_within_row(
                        before,
                        team as int,
                        number_teams as int,
                        position as int,
                    );
                    lemma_cell_within_row(
                        other@,
                        team as int,
                        number_teams as int,
                        position as int,
                    );
                    assert(other@[team as int][position as int]
                        == other.counts@[team as int]@[position as int]);
                }
                let mine = self.counts[team][position];
                let theirs = other.counts[team][position];
                self.counts[team][position] = mine + theirs;
                position = position + 1;
            }
            team = team + 1;
        }
        self.trials = self.trials + other.trials;
        proof {
            assert(self@ =~~= merged(before, other@));
            lemma_merged_is_balanced(
                before,
                other@,
                number_teams as int,
                old(self).trials as int,
                other.trials as int,
            );
        }
    }
}

/// The tally laid out for display. Row `i` belongs to team `team_ids[i]`,
/// and the rows stand in display order: best expected position first.
#[derive(Debug)]
pub struct RankedCounts {
    /// The team of each row.
    pub team_ids: Vec<usize>,
    /// The name of each row's team.
    pub team_names: Vec<String>,
    /// For each row, how often its team finished in each position.
    pub position_counts: Vec<Vec<usize>>,
    /// The number of trials behind the counts.
    pub trials: usize,
}

impl View for RankedCounts {
    type V = Seq<Seq<nat>>;

    /// The counts as a matrix of naturals, row by row.
    open spec fn view(&self) -> Seq<Seq<nat>> {
        Seq::new(
            self.position_counts@.len(),
            |i: int|
                Seq::new(
                    self.position_counts@[i]@.len(),
                    |position: int| self.position_counts@[i]@[position] as nat,
                ),
        )
    }
}

impl PositionCounts {
    /// The weighted position sum of `team`: the sum over all positions of
    /// the position number times the count. Teams are shown in the order of
    /// this sum, which orders them as their expected positions do.
    pub fn expected_position_weight(&self, team: usize) -> (weight: u128)
        requires
            self.wf(),
            team < self.number_teams(),
        ensures
            weight == position_weight(self@, team as int, self.number_teams() as int),
    {
        let number_teams = self.counts.len();
        let mut weight: u128 = 0;
        let mut position: usize = 0;
        proof {
            assert(self@[team as int].len() == number_teams);
        }
        while position < number_teams
            invariant
                position <= number_teams,
                team < number_teams,
                number_teams == self.counts@.len(),
                number_teams == self.spec_number_teams(),
                self.counts@[team as int]@.len() == number_teams,
                self.wf(),
                weight == position_weight(self@, team as int, position as int),
            decreases number_teams - position,
        {
            let count = self.counts[team][position];
            proof {
                // The weight stays under the number of teams times the number
                // of trials, which fits 128 bits with room to spare.
                let reached = row_total(self@, team as int, position + 1) as int;
                lemma_weight_within(self@, team as int, position + 1);
                lemma_weight_within(self@, team as int, position as int);
                lemma_row_total_grows(self@, team as int, position + 1, number_teams as int);
                assert(reached <= self.trials);
                assert((position + 1) * reached <= 0xffff_ffff_ffff_ffff * 0xffff_ffff_ffff_ffff)
                    by (nonlinear_arith)
                    requires
                        0 <= position + 1 <= 0xffff_ffff_ffff_ffff,
                        0 <= reached <= 0xffff_ffff_ffff_ffff,
                ;
            }
            weight = weight + (position as u128 + 1) * (count as u128);
            position = position + 1;
        }
        weight
    }

    /// The teams in display order: by expected finishing position, best
    /// first, and by team index among teams that share one.
    pub fn ranking(&self) -> (order: Vec<usize>)
        requires
            self.wf(),
        ensures
            is_display_order(order@, self@),
    {
        let number_teams = self.counts.len();
        let mut weights: Vec<u128> = Vec::new();
        let mut order: Vec<usize> = Vec::new();
        let mut team: usize = 0;
        while team < number_teams
            invariant
                team <= number_teams,
                number_teams == self.counts@.len(),
                number_teams == self.spec_number_teams(),
                self.wf(),
                weights@.len() == team,
                order@.len() == team,
                forall|t: int|
                    0 <= t < team ==> #[trigger] weights@[t] == position_weight(
                        self@,
                        t,
                        number_teams as int,
                    ),
                forall|t: int| 0 <= t < team ==> #[trigger] order@[t] == t,
            decreases number_teams - team,
        {
            weights.push(self.expected_position_weight(team));
            order.push(team);
            team = team + 1;
        }
        let mut i: usize = 0;
        while i < number_teams
            invariant
                i <= number_teams,
                number_teams == self@.len(),
                weights@.len() == number_teams,
                order@.len() == number_teams,
                forall|t: int|
                    0 <= t < number_teams ==> #[trigger] weights@[t] == position_weight(
                        self@,
                        t,
                        number_teams as int,
                    ),
                forall|p: int| 0 <= p < number_teams ==> #[trigger] order@[p] < number_teams,
                forall|p: int, q: int|
                    0 <= p < q < number_teams ==> #[trigger] order@[p] != #[trigger] order@[q],
                forall|p: int, q: int|
                    0 <= p < q < i ==> shown_before(
                        self@,
                        #[trigger] order@[p] as int,
                        #[trigger] order@[q] as int,
                    ),
            decreases number_teams - i,
        {
            let mut j: usize = i;
            while j > 0 && (weights[order[j]] < weights[order[j - 1]] || (weights[order[j]]
                == weights[order[j - 1]] && order[j] < order[j - 1]))
                invariant
                    j <= i < number_teams,
                    number_teams == self@.len(),
                    weights@.len() == number_teams,
                    order@.len() == number_teams,
                    forall|t: int|
                        0 <= t < number_teams ==> #[trigger] weights@[t] == position_weight(
                            self@,
                            t,
                            number_teams as int,
                        ),
                    forall|p: int| 0 <= p < number_teams ==> #[trigger] order@[p] < number_teams,
                    forall|p: int, q: int|
                        0 <= p < q < number_teams ==> #[trigger] order@[p] != #[trigger] order@[q],
                    forall|p: int, q: int|
                        0 <= p < q <= i && p != j && q != j ==> shown_before(
                            self@,
                            #[trigger] order@[p] as int,
                            #[trigger] order@[q] as int,
                        ),
                    forall|q: int|
                        j < q <= i ==> shown_before(
                            self@,
                            order@[j as int] as int,
                            #[trigger] order@[q] as int,
                        ),
                decreases j,
            {
                let upper = order[j - 1];
                let lower = order[j];
                order.set(j - 1, lower);
                order.set(j, upper);
                j = j - 1;
            }
            proof {
                let moved = order@[j as int] as int;
                assert forall|p: int| 0 <= p < j implies shown_before(
                    self@,
                    #[trigger] order@[p] as int,
                    moved,
                ) by {
                    // The order is total on different teams: the team above
                    // the moved one is shown before it, and so are all above that.
                    let above = order@[j - 1] as int;
                    assert(shown_before(self@, above, moved));
                    if p < j - 1 {
                        assert(shown_before(self@, order@[p] as int, above));
                    }
                }
            }
            i = i + 1;
        }
        order
    }

    /// Lays the tally out for display: the rows in display order, each with
    /// the name of its team. A team beyond the end of `team_names` is shown
    /// under its default name.
    pub fn present(&self, team_names: &[String]) -> (shown: RankedCounts)
        requires
            self.wf(),
        ensures
            is_display_order(shown.team_ids@, self@),
            shown.trials == self.trials(),
            shown.team_names@.len() == self.number_teams(),
            forall|i: int|
                0 <= i < self.number_teams() ==> (#[trigger] shown.team_names@[i])@
                    == display_name(team_names@, shown.team_ids@[i] as int),
            shown@ == rows_in_order(self@, shown.team_ids@),
            is_square(shown@, self.number_teams() as int),
            is_balanced(shown@, self.number_teams() as int, self.trials() as int),
    {
        let number_teams = self.counts.len();
        let team_ids = self.ranking();
        let mut names: Vec<String> = Vec::new();
        let mut rows: Vec<Vec<usize>> = Vec::new();
        let mut i: usize = 0;
        while i < number_teams
            invariant
                i <= number_teams,
                number_teams == self.counts@.len(),
                number_teams == self.spec_number_teams(),
                self.wf(),
                is_display_order(team_ids@, self@),
                names@.len() == i,
                rows@.len() == i,
                forall|k: int|
                    0 <= k < i ==> (#[trigger] names@[k])@ == display_name(
                        team_names@,
                        team_ids@[k] as int,
                    ),
                forall|k: int| 0 <= k < i ==> (#[trigger] rows@[k])@.len() == number_teams,
                forall|k: int, p: int|
                    0 <= k < i && 0 <= p < number_teams ==> #[trigger] rows@[k]@[p]
                        == self@[team_ids@[k] as int][p],
            decreases number_teams - i,
        {
            let team = team_ids[i];
            let name = if team < team_names.len() {
                team_names[team].clone()
            } else {
                default_team_name(team)
            };
            names.push(name);
            proof {
                assert(self@[team as int].len() == number_teams);
            }
            let mut row: Vec<usize> = Vec::new();
            let mut position: usize = 0;
            while position < number_teams
                invariant
                    position <= number_teams,
                    team < number_teams,
                    number_teams == self.counts@.len(),
                    self.counts@[team as int]@.len() == number_teams,
                    row@.len() == position,
                    forall|p: int|
                        0 <= p < position ==> #[trigger] row@[p] == self.counts@[team as int]@[p],
                decreases number_teams - position,
            {
                row.push(self.counts[team][position]);
                position = position + 1;
            }
            rows.push(row);
            i = i + 1;
        }
        let shown =
            RankedCounts { team_ids, team_names: names, position_counts: rows, trials: self.trials };
        proof {
            assert(shown@ =~~= rows_in_order(self@, shown.team_ids@)) by {
                assert forall|i: int| 0 <= i < number_teams implies #[trigger] shown@[i]
                    =~= self@[shown.team_ids@[i] as int] by {
                    assert(self@[shown.team_ids@[i] as int].len() == number_teams);
                }
            }
            lemma_display_order_names_each_team(shown.team_ids@, self@);
            lemma_rows_in_order_are_balanced(
                self@,
                shown.team_ids@,
                number_teams as int,
                self.trials as int,
            );
        }
        shown
    }
}

} // verus!
