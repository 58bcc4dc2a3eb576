use league_simulator_rust::{goal_margin_weight_squared, match_outcome};

struct Update {
    new_home: f64,
    new_away: f64,
    home_win_probability: f64,
}

/// The rating update of a caller: real arithmetic around the result score
/// and the margin weight that the library derives from the score line.
fn rating_update(
    elo_home: f64,
    elo_away: f64,
    goals_home: i32,
    goals_away: i32,
    mod_factor: f64,
    home_advantage: f64,
) -> Update {
    let delta = (elo_away - elo_home - home_advantage).max(-400.0).min(400.0);
    let home_win_probability = 1.0 / (1.0 + 10_f64.powf(delta / 400.0));
    let score = f64::from(match_outcome(goals_home, goals_away).result_score_doubled()) / 2.0;
    let weight = f64::from(goal_margin_weight_squared(goals_home, goals_away)).sqrt();
    let shift = (score - home_win_probability) * weight * mod_factor;
    Update { new_home: elo_home + shift, new_away: elo_away - shift, home_win_probability }
}

#[test]
fn test_elo_conservation() {
    // ELO changes should sum to zero (conservation principle)
    let result = rating_update(1500.0, 1600.0, 2, 1, 40.0, 0.0);
    let home_change = result.new_home - 1500.0;
    let away_change = result.new_away - 1600.0;
    assert!((home_change + away_change).abs() < 0.0001);
    assert!((home_change + away_change).abs() < 1e-12);
    assert!((result.home_win_probability - 0.3599).abs() < 0.0001);
    // The underdog won by one goal: it gains 40 * (1 - p).
    assert!((home_change - 40.0 * (1.0 - result.home_win_probability)).abs() < 1e-9);
}

#[test]
fn test_draw_smaller_elo_change_than_win() {
    let draw = rating_update(1500.0, 1500.0, 1, 1, 40.0, 0.0);
    let win = rating_update(1500.0, 1500.0, 2, 1, 40.0, 0.0);
    let draw_change = (draw.new_home - 1500.0).abs();
    let win_change = (win.new_home - 1500.0).abs();
    assert!(draw_change < win_change, "Draw should produce smaller ELO change than win");
    assert_eq!(draw_change, 0.0);
    assert_eq!(win_change, 20.0);
}

#[test]
fn test_underdog_win_larger_change() {
    let underdog = rating_update(1300.0, 1700.0, 2, 1, 40.0, 0.0);
    let favorite = rating_update(1700.0, 1300.0, 2, 1, 40.0, 0.0);
    let underdog_gain = underdog.new_home - 1300.0;
    let favorite_gain = favorite.new_home - 1700.0;
    assert!(
        underdog_gain > favorite_gain,
        "Underdog win should produce larger ELO gain than favorite win"
    );
    assert!(favorite_gain > 0.0);
}

#[test]
fn test_goal_difference_effect() {
    let narrow = rating_update(1500.0, 1500.0, 1, 0, 40.0, 0.0);
    let wide = rating_update(1500.0, 1500.0, 5, 0, 40.0, 0.0);
    let narrow_change = narrow.new_home - 1500.0;
    let wide_change = wide.new_home - 1500.0;
    assert!(
        wide_change > narrow_change,
        "Larger goal difference should produce larger ELO change"
    );
    assert!((wide_change - 20.0 * 5_f64.sqrt()).abs() < 1e-9);
}

#[test]
fn test_home_advantage_effect() {
    let without = rating_update(1500.0, 1500.0, 2, 1, 40.0, 0.0);
    let with = rating_update(1500.0, 1500.0, 2, 1, 40.0, 65.0);
    assert!(
        with.home_win_probability > without.home_win_probability,
        "Home advantage should increase home win probability"
    );
    assert!(
        with.new_home - 1500.0 < without.new_home - 1500.0,
        "Winning with home advantage should produce smaller ELO gain"
    );
    assert_eq!(without.home_win_probability, 0.5);
}

#[test]
fn rating_gap_is_clamped() {
    let far = rating_update(1000.0, 2000.0, 0, 1, 20.0, 0.0);
    let edge = rating_update(1000.0, 1400.0, 0, 1, 20.0, 0.0);
    assert_eq!(far.home_win_probability, edge.home_win_probability);
    assert!((edge.home_win_probability - 1.0 / 11.0).abs() < 1e-12);
}
