use league_simulator_rust::{
    default_team_name, goal_margin_weight_squared, match_outcome, trial_rng, try_calculate_table,
    Fixture, LeagueTable, Match, PositionCounts, QuantileSearch, SeasonWalk,
};
use rand::rngs::StdRng;
use rand::{Rng, SeedableRng};
use statrs::distribution::{DiscreteCDF, Poisson};

const MOD_FACTOR: f64 = 20.0;
const HOME_ADVANTAGE: f64 = 65.0;
const GOALS_SLOPE: f64 = 0.0017854953143549;
const GOALS_INTERCEPT: f64 = 1.3218390804597700;

fn played(team_home: usize, team_away: usize, goals_home: i32, goals_away: i32) -> Match {
    Match { team_home, team_away, goals_home: Some(goals_home), goals_away: Some(goals_away) }
}

fn unplayed(team_home: usize, team_away: usize) -> Match {
    Match { team_home, team_away, goals_home: None, goals_away: None }
}

fn names(names: &[&str]) -> Vec<String> {
    names.iter().map(|name| name.to_string()).collect()
}

/// New ratings of the two sides after a match.
fn updated_ratings(elo_home: f64, elo_away: f64, goals_home: i32, goals_away: i32) -> (f64, f64) {
    let delta = (elo_away - elo_home - HOME_ADVANTAGE).max(-400.0).min(400.0);
    let expected = 1.0 / (1.0 + 10_f64.powf(delta / 400.0));
    let score = f64::from(match_outcome(goals_home, goals_away).result_score_doubled()) / 2.0;
    let weight = f64::from(goal_margin_weight_squared(goals_home, goals_away)).sqrt();
    let shift = (score - expected) * weight * MOD_FACTOR;
    (elo_home + shift, elo_away - shift)
}

fn poisson_quantile(p: f64, lambda: f64) -> i32 {
    let poisson = Poisson::new(lambda).unwrap();
    let mut search = QuantileSearch::new((lambda * 3.0 + 20.0) as u64);
    while let Some(count) = search.probe() {
        search.narrow(poisson.cdf(count) < p);
    }
    search.result() as i32
}

/// One season: walks the fixtures, simulates the unplayed ones and moves
/// the ratings after every match.
fn simulate_season(matches: &[Match], ratings: &[f64], rng: &mut StdRng) -> (Vec<Match>, Vec<f64>) {
    let mut ratings = ratings.to_vec();
    let mut walk = SeasonWalk::start(matches, ratings.len()).unwrap();
    loop {
        match walk.next_fixture() {
            Fixture::Finished => break,
            Fixture::Played { team_home, team_away, goals_home, goals_away } => {
                let (home, away) =
                    updated_ratings(ratings[team_home], ratings[team_away], goals_home, goals_away);
                ratings[team_home] = home;
                ratings[team_away] = away;
                walk.advance();
            }
            Fixture::Unplayed { team_home, team_away } => {
                let u_home = rng.gen::<f64>();
                let u_away = rng.gen::<f64>();
                let delta = ratings[team_home] + HOME_ADVANTAGE - ratings[team_away];
                let goals_home =
                    poisson_quantile(u_home, (delta * GOALS_SLOPE + GOALS_INTERCEPT).max(0.001));
                let goals_away =
                    poisson_quantile(u_away, (-delta * GOALS_SLOPE + GOALS_INTERCEPT).max(0.001));
                let (home, away) =
                    updated_ratings(ratings[team_home], ratings[team_away], goals_home, goals_away);
                ratings[team_home] = home;
                ratings[team_away] = away;
                walk.record_result(goals_home, goals_away);
            }
        }
    }
    (walk.into_matches(), ratings)
}

fn tally(
    matches: &[Match],
    ratings: &[f64],
    trials: std::ops::Range<usize>,
    adj_points: Option<&[i32]>,
) -> PositionCounts {
    let mut counts = PositionCounts::new(ratings.len());
    for trial in trials {
        let mut rng = trial_rng(trial);
        let (completed, _) = simulate_season(matches, ratings, &mut rng);
        let table =
            try_calculate_table(&completed, ratings.len(), adj_points, None, None, None).unwrap();
        counts.record(&table);
    }
    counts
}

/// The probability matrix in display order, with the names of its rows.
fn run_monte_carlo(
    matches: &[Match],
    ratings: &[f64],
    iterations: usize,
    team_names: &[String],
    adj_points: Option<&[i32]>,
) -> (Vec<Vec<f64>>, Vec<String>) {
    let shown = tally(matches, ratings, 0..iterations, adj_points).present(team_names);
    let matrix = shown
        .position_counts
        .iter()
        .map(|row| row.iter().map(|&count| count as f64 / shown.trials as f64).collect())
        .collect();
    (matrix, shown.team_names)
}

fn table_of_ids(team_ids: &[usize]) -> LeagueTable {
    // Points fall from the top so that the table comes out in this order.
    let adj_points: Vec<i32> = {
        let mut points = vec![0; team_ids.len()];
        for (position, &team) in team_ids.iter().enumerate() {
            points[team] = (team_ids.len() - position) as i32;
        }
        points
    };
    let table = try_calculate_table(&[], team_ids.len(), Some(&adj_points), None, None, None).unwrap();
    let placed: Vec<usize> = table.standings.iter().map(|s| s.team_id).collect();
    assert_eq!(placed, team_ids);
    table
}

fn cells(counts: &PositionCounts) -> Vec<Vec<usize>> {
    let n = counts.number_teams();
    (0..n).map(|team| (0..n).map(|position| counts.count(team, position)).collect()).collect()
}

#[test]
fn test_monte_carlo_basic() {
    let matches = vec![
        played(0, 1, 3, 0),
        played(1, 2, 1, 1),
        played(2, 0, 0, 2),
        unplayed(1, 0),
        unplayed(0, 2),
        unplayed(2, 1),
    ];
    let team_names = names(&["Team A", "Team B", "Team C"]);
    let (matrix, shown_names) =
        run_monte_carlo(&matches, &[1600.0, 1500.0, 1400.0], 100, &team_names, None);

    assert_eq!(matrix.len(), 3, "Should have 3 teams");
    assert_eq!(matrix[0].len(), 3, "Should have 3 positions");
    assert_eq!(shown_names.len(), 3, "Should have 3 team names");

    for team_probs in &matrix {
        let sum: f64 = team_probs.iter().sum();
        assert!((sum - 1.0).abs() < 0.001, "Probabilities should sum to 1, got {}", sum);
    }
}

#[test]
fn test_monte_carlo_with_adjustments() {
    let matches = vec![unplayed(0, 1), unplayed(1, 2), unplayed(2, 0)];
    let team_names = names(&["Team A", "Team B", "Team C (2nd)"]);
    let adj_points = vec![0, 0, -50];
    let (matrix, shown_names) = run_monte_carlo(
        &matches,
        &[1500.0, 1500.0, 1500.0],
        100,
        &team_names,
        Some(&adj_points),
    );

    let team_c_idx = shown_names.iter().position(|n| n.contains("(2nd)")).unwrap();
    let last_position_prob = matrix[team_c_idx][2];
    assert!(
        last_position_prob > 0.9,
        "Team with -50 points should almost certainly finish last, got probability {}",
        last_position_prob
    );
    assert_eq!(last_position_prob, 1.0);
    assert_eq!(team_c_idx, 2);
}

#[test]
fn test_monte_carlo_deterministic() {
    let matches = vec![unplayed(0, 1)];
    let team_names = names(&["A", "B"]);
    let (result1, _) = run_monte_carlo(&matches, &[1500.0, 1500.0], 50, &team_names, None);
    let (result2, _) = run_monte_carlo(&matches, &[1500.0, 1500.0], 50, &team_names, None);
    for i in 0..2 {
        for j in 0..2 {
            assert_eq!(result1[i][j], result2[i][j], "Results should be deterministic");
        }
    }
}

#[test]
fn test_monte_carlo_all_played_matches() {
    let matches = vec![played(0, 1, 2, 0), played(1, 2, 1, 3), played(2, 0, 1, 1)];
    let team_names = names(&["A", "B", "C"]);
    let (matrix, shown_names) =
        run_monte_carlo(&matches, &[1500.0, 1600.0, 1400.0], 10, &team_names, None);

    for team_probs in &matrix {
        let ones = team_probs.iter().filter(|&&p| p == 1.0).count();
        let zeros = team_probs.iter().filter(|&&p| p == 0.0).count();
        assert_eq!(ones, 1, "Each team should have exactly one position with probability 1.0");
        assert_eq!(zeros, 2, "Each team should have exactly two positions with probability 0.0");
    }
    // Teams 0 and 2 have 4 points and a goal difference of +2 each; team 2
    // has scored 4 goals to team 0's 3.
    assert_eq!(shown_names, names(&["C", "A", "B"]));
    assert_eq!(matrix, vec![vec![1.0, 0.0, 0.0], vec![0.0, 1.0, 0.0], vec![0.0, 0.0, 1.0]]);
}

#[test]
fn test_season_simulation() {
    let matches = vec![
        played(0, 1, 2, 1),
        played(1, 2, 1, 1),
        unplayed(2, 0),
        unplayed(0, 2),
        unplayed(1, 0),
        unplayed(2, 1),
    ];
    let mut rng = StdRng::seed_from_u64(42);
    let (completed_matches, final_elos) =
        simulate_season(&matches, &[1500.0, 1600.0, 1400.0], &mut rng);

    for match_data in &completed_matches {
        assert!(match_data.goals_home.is_some(), "Match should have home goals");
        assert!(match_data.goals_away.is_some(), "Match should have away goals");
    }
    assert_eq!(final_elos.len(), 3, "Should have 3 team ELOs");
    assert_ne!(final_elos[0], 1500.0, "Team 0 ELO should have changed");
    assert_ne!(final_elos[1], 1600.0, "Team 1 ELO should have changed");
    assert_ne!(final_elos[2], 1400.0, "Team 2 ELO should have changed");
    // The played fixtures keep their results and every fixture its teams.
    assert_eq!(completed_matches[..2], matches[..2]);
    for (done, fixture) in completed_matches.iter().zip(&matches) {
        assert_eq!((done.team_home, done.team_away), (fixture.team_home, fixture.team_away));
        assert!(done.goals_home.unwrap() >= 0 && done.goals_away.unwrap() >= 0);
    }
    // Rating points are handed over, never made: the sum stays.
    let total: f64 = final_elos.iter().sum();
    assert!((total - 4500.0).abs() < 1e-9);
}

#[test]
fn test_deterministic_simulation() {
    let matches = vec![unplayed(0, 1)];
    let mut rng1 = StdRng::seed_from_u64(12345);
    let (matches1, _) = simulate_season(&matches, &[1500.0, 1500.0], &mut rng1);
    let mut rng2 = StdRng::seed_from_u64(12345);
    let (matches2, _) = simulate_season(&matches, &[1500.0, 1500.0], &mut rng2);
    assert_eq!(matches1[0].goals_home, matches2[0].goals_home, "Same seed should give same home goals");
    assert_eq!(matches1[0].goals_away, matches2[0].goals_away, "Same seed should give same away goals");
}

#[test]
fn three_team_monte_carlo() {
    let matches = vec![
        played(0, 1, 3, 0),
        played(1, 2, 1, 1),
        played(2, 0, 0, 2),
        unplayed(1, 0),
        unplayed(0, 2),
        unplayed(2, 1),
    ];
    let ratings = [1600.0, 1500.0, 1400.0];
    let counts = tally(&matches, &ratings, 0..1000, None);
    assert_eq!(counts.trials(), 1000);
    let cells = cells(&counts);
    for line in 0..3 {
        assert_eq!(cells[line].iter().sum::<usize>(), 1000);
        assert_eq!((0..3).map(|team| cells[team][line]).sum::<usize>(), 1000);
    }
    let (matrix, shown_names) =
        run_monte_carlo(&matches, &ratings, 1000, &names(&["A", "B", "C"]), None);
    for line in 0..3 {
        let row: f64 = matrix[line].iter().sum();
        let column: f64 = (0..3).map(|team| matrix[team][line]).sum();
        assert!((row - 1.0).abs() < 1e-9);
        assert!((column - 1.0).abs() < 1e-9);
    }
    // The team with the best rating has the best chance of finishing first.
    assert_eq!(shown_names[0], "A");
    assert!(matrix[0][0] > matrix[1][0] && matrix[0][0] > matrix[2][0]);
    assert!(cells[0][0] > cells[1][0] && cells[0][0] > cells[2][0]);
}

#[test]
fn tally_does_not_depend_on_how_trials_are_shared_out() {
    let matches = vec![unplayed(0, 1), unplayed(1, 2), unplayed(2, 3), unplayed(3, 0), unplayed(0, 2)];
    let ratings = [1500.0, 1550.0, 1450.0, 1500.0];
    let whole = tally(&matches, &ratings, 0..60, None);

    // Three workers, merged in two different orders.
    let mut first = tally(&matches, &ratings, 0..10, None);
    let second = tally(&matches, &ratings, 10..45, None);
    let third = tally(&matches, &ratings, 45..60, None);
    first.merge(&second);
    first.merge(&third);
    assert_eq!(first.trials(), 60);
    assert_eq!(cells(&first), cells(&whole));

    let mut backwards = tally(&matches, &ratings, 45..60, None);
    backwards.merge(&tally(&matches, &ratings, 10..45, None));
    backwards.merge(&tally(&matches, &ratings, 0..10, None));
    assert_eq!(cells(&backwards), cells(&whole));
    assert_eq!(backwards.ranking(), whole.ranking());
}

#[test]
fn new_tally_is_empty() {
    let counts = PositionCounts::new(3);
    assert_eq!(counts.number_teams(), 3);
    assert_eq!(counts.trials(), 0);
    assert_eq!(cells(&counts), vec![vec![0; 3]; 3]);
    assert_eq!(counts.ranking(), vec![0, 1, 2]);
    let none = PositionCounts::new(0);
    assert_eq!(none.number_teams(), 0);
    assert_eq!(none.ranking(), Vec::<usize>::new());
}

#[test]
fn record_counts_each_team_at_its_position() {
    let mut counts = PositionCounts::new(3);
    counts.record(&table_of_ids(&[2, 0, 1]));
    assert_eq!(cells(&counts), vec![vec![0, 1, 0], vec![0, 0, 1], vec![1, 0, 0]]);
    counts.record(&table_of_ids(&[2, 1, 0]));
    counts.record(&table_of_ids(&[0, 2, 1]));
    assert_eq!(counts.trials(), 3);
    assert_eq!(cells(&counts), vec![vec![1, 1, 1], vec![0, 1, 2], vec![2, 1, 0]]);
}

#[test]
fn merge_adds_cell_by_cell() {
    let mut left = PositionCounts::new(2);
    left.record(&table_of_ids(&[0, 1]));
    left.record(&table_of_ids(&[0, 1]));
    let mut right = PositionCounts::new(2);
    right.record(&table_of_ids(&[1, 0]));
    left.merge(&right);
    assert_eq!(left.trials(), 3);
    assert_eq!(cells(&left), vec![vec![2, 1], vec![1, 2]]);
    assert_eq!(right.trials(), 1);
    left.merge(&PositionCounts::new(2));
    assert_eq!(cells(&left), vec![vec![2, 1], vec![1, 2]]);
}

#[test]
fn same_table_in_every_trial_gives_one_position_per_team() {
    let mut counts = PositionCounts::new(4);
    for _ in 0..25 {
        counts.record(&table_of_ids(&[3, 1, 0, 2]));
    }
    assert_eq!(
        cells(&counts),
        vec![vec![0, 0, 25, 0], vec![0, 25, 0, 0], vec![0, 0, 0, 25], vec![25, 0, 0, 0]]
    );
    assert_eq!(counts.ranking(), vec![3, 1, 0, 2]);
}

#[test]
fn ranking_orders_by_expected_position() {
    let mut counts = PositionCounts::new(3);
    counts.record(&table_of_ids(&[2, 0, 1]));
    counts.record(&table_of_ids(&[2, 1, 0]));
    counts.record(&table_of_ids(&[0, 2, 1]));
    counts.record(&table_of_ids(&[1, 2, 0]));
    // Weighted position sums: team 0: 2 + 3 + 1 + 3 = 9, team 1: 3 + 2 + 3 + 1 = 9,
    // team 2: 1 + 1 + 2 + 2 = 6. Teams 0 and 1 share a sum: the lower index goes first.
    assert_eq!(counts.expected_position_weight(0), 9);
    assert_eq!(counts.expected_position_weight(1), 9);
    assert_eq!(counts.expected_position_weight(2), 6);
    assert_eq!(counts.ranking(), vec![2, 0, 1]);
    counts.record(&table_of_ids(&[1, 0, 2]));
    assert_eq!(counts.expected_position_weight(0), 11);
    assert_eq!(counts.expected_position_weight(1), 10);
    assert_eq!(counts.expected_position_weight(2), 9);
    assert_eq!(counts.ranking(), vec![2, 1, 0]);
}

#[test]
fn ranking_keeps_team_order_among_equals() {
    let mut counts = PositionCounts::new(3);
    counts.record(&table_of_ids(&[0, 1, 2]));
    counts.record(&table_of_ids(&[2, 1, 0]));
    // Every team has weight 4.
    assert_eq!(counts.ranking(), vec![0, 1, 2]);
    counts.record(&table_of_ids(&[1, 0, 2]));
    counts.record(&table_of_ids(&[1, 2, 0]));
    // Team 1: 6, team 0: 9, team 2: 9.
    assert_eq!(counts.ranking(), vec![1, 0, 2]);
}

#[test]
fn present_permutes_rows_and_names_together() {
    let mut counts = PositionCounts::new(3);
    counts.record(&table_of_ids(&[2, 0, 1]));
    counts.record(&table_of_ids(&[2, 1, 0]));
    counts.record(&table_of_ids(&[0, 2, 1]));
    let shown = counts.present(&names(&["Alpha", "Beta", "Gamma"]));
    assert_eq!(shown.team_ids, vec![2, 0, 1]);
    assert_eq!(shown.team_names, names(&["Gamma", "Alpha", "Beta"]));
    assert_eq!(shown.position_counts, vec![vec![2, 1, 0], vec![1, 1, 1], vec![0, 1, 2]]);
    assert_eq!(shown.trials, 3);
}

#[test]
fn present_names_teams_without_a_name() {
    let mut counts = PositionCounts::new(3);
    counts.record(&table_of_ids(&[2, 1, 0]));
    let shown = counts.present(&names(&["Alpha"]));
    assert_eq!(shown.team_names, names(&["Team 3", "Team 2", "Alpha"]));
    let shown = counts.present(&[]);
    assert_eq!(shown.team_names, names(&["Team 3", "Team 2", "Team 1"]));
}

#[test]
fn default_names_count_from_one_in_decimal() {
    assert_eq!(default_team_name(0), "Team 1");
    assert_eq!(default_team_name(8), "Team 9");
    assert_eq!(default_team_name(9), "Team 10");
    assert_eq!(default_team_name(99), "Team 100");
    assert_eq!(default_team_name(1233), "Team 1234");
    assert_eq!(default_team_name(9_876_543_209), "Team 9876543210");
    for team in 0..2000usize {
        assert_eq!(default_team_name(team), format!("Team {}", team + 1));
    }
}

#[test]
fn trial_generator_is_seeded_from_the_trial_index() {
    for trial in [0usize, 1, 2, 41, 9_999, 123_456_789] {
        let mut generator = trial_rng(trial);
        let mut expected = StdRng::seed_from_u64(trial as u64);
        for _ in 0..16 {
            assert_eq!(generator.gen::<u64>(), expected.gen::<u64>());
        }
        assert_eq!(trial_rng(trial), StdRng::seed_from_u64(trial as u64));
    }
    // Different trials draw different numbers.
    assert_ne!(trial_rng(0), trial_rng(1));
    assert_ne!(trial_rng(0).gen::<f64>(), trial_rng(1).gen::<f64>());
    // The same trial draws the same numbers again.
    assert_eq!(trial_rng(7).gen::<f64>(), trial_rng(7).gen::<f64>());
}
