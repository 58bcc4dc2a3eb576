//! Monte Carlo estimation of final league standings: the integer core.
//!
//! The crate holds the table builder, the tally of simulated seasons, the
//! fixture walk of one season and the search that turns a cumulative
//! distribution into a goal count. Ratings and probabilities are real
//! numbers and live with the caller, who hands over plain integers.

pub mod elo;
pub mod models;
pub mod monte_carlo;
pub mod names;
pub mod quantile;
pub mod season;
pub mod table;

pub use elo::{goal_margin_weight_squared, match_outcome, MatchOutcome};
pub use models::{LeagueTable, Match, TeamStanding};
pub use monte_carlo::{trial_rng, PositionCounts, RankedCounts};
pub use names::default_team_name;
pub use quantile::QuantileSearch;
pub use season::{check_season_shape, Fixture, SeasonWalk, ShapeError};
pub use table::{calculate_table, try_calculate_table, TableError};
