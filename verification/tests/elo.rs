use league_simulator_rust::{goal_margin_weight_squared, match_outcome, Match, MatchOutcome};

#[test]
fn outcome_follows_the_score_line() {
    assert_eq!(match_outcome(2, 1), MatchOutcome::HomeWin);
    assert_eq!(match_outcome(1, 1), MatchOutcome::Draw);
    assert_eq!(match_outcome(0, 0), MatchOutcome::Draw);
    assert_eq!(match_outcome(0, 4), MatchOutcome::AwayWin);
    assert_eq!(match_outcome(i32::MAX, i32::MIN), MatchOutcome::HomeWin);
    assert_eq!(match_outcome(i32::MIN, i32::MAX), MatchOutcome::AwayWin);
}

#[test]
fn result_score_is_sign_of_goal_difference_plus_one_halved() {
    assert_eq!(match_outcome(2, 1).result_score_doubled(), 2);
    assert_eq!(match_outcome(3, 3).result_score_doubled(), 1);
    assert_eq!(match_outcome(0, 1).result_score_doubled(), 0);
    assert_eq!(f64::from(match_outcome(2, 1).result_score_doubled()) / 2.0, 1.0);
    assert_eq!(f64::from(match_outcome(3, 3).result_score_doubled()) / 2.0, 0.5);
    assert_eq!(f64::from(match_outcome(0, 1).result_score_doubled()) / 2.0, 0.0);
}

#[test]
fn margin_weight_is_goal_difference_but_at_least_one() {
    assert_eq!(goal_margin_weight_squared(1, 1), 1);
    assert_eq!(goal_margin_weight_squared(2, 1), 1);
    assert_eq!(goal_margin_weight_squared(1, 0), 1);
    assert_eq!(goal_margin_weight_squared(5, 0), 5);
    assert_eq!(goal_margin_weight_squared(0, 5), 5);
    assert_eq!(goal_margin_weight_squared(1, 4), 3);
    assert_eq!(goal_margin_weight_squared(i32::MAX, i32::MIN), u32::MAX);
    assert_eq!(goal_margin_weight_squared(i32::MIN, i32::MAX), u32::MAX);
}

#[test]
fn wider_margin_weighs_more() {
    // A 5-0 win moves the ratings more than a 1-0 win.
    assert!(goal_margin_weight_squared(5, 0) > goal_margin_weight_squared(1, 0));
    let mut last = 0;
    for goals in 1..20 {
        let weight = goal_margin_weight_squared(goals, 0);
        assert!(weight > last);
        assert_eq!(weight, goal_margin_weight_squared(0, goals));
        last = weight;
    }
}

#[test]
fn schedule_rows_number_teams_from_one() {
    let fixture = Match::from_schedule_row(&[Some(1), Some(2), Some(3), Some(0)]).unwrap();
    assert_eq!(
        fixture,
        Match { team_home: 0, team_away: 1, goals_home: Some(3), goals_away: Some(0) }
    );
    let fixture = Match::from_schedule_row(&[Some(18), Some(7), None, None]).unwrap();
    assert_eq!(fixture, Match { team_home: 17, team_away: 6, goals_home: None, goals_away: None });
    assert!(!fixture.is_played());
    assert_eq!(Match::from_schedule_row(&[Some(0), Some(2), None, None]), None);
    assert_eq!(Match::from_schedule_row(&[Some(1), Some(-2), None, None]), None);
    assert_eq!(Match::from_schedule_row(&[None, Some(2), Some(1), Some(1)]), None);
    assert_eq!(Match::from_schedule_row(&[Some(2), None, Some(1), Some(1)]), None);
    let top = Match::from_schedule_row(&[Some(i32::MAX), Some(1), None, None]).unwrap();
    assert_eq!(top.team_home, i32::MAX as usize - 1);
}

#[test]
fn played_needs_both_goal_counts() {
    let both = Match { team_home: 0, team_away: 1, goals_home: Some(0), goals_away: Some(0) };
    let home_only = Match { team_home: 0, team_away: 1, goals_home: Some(2), goals_away: None };
    let away_only = Match { team_home: 0, team_away: 1, goals_home: None, goals_away: Some(2) };
    let neither = Match { team_home: 0, team_away: 1, goals_home: None, goals_away: None };
    assert!(both.is_played());
    assert!(!home_only.is_played());
    assert!(!away_only.is_played());
    assert!(!neither.is_played());
}
