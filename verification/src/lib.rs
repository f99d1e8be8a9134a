//! Season manager for a fantasy competition layered on a fixed-grid racing
//! series: round lifecycle tracking, race-result normalization, pluggable
//! scoring formulas, drafting strategies with cross-team uniqueness, and
//! leaderboard ordering.

pub mod draft;
pub mod error;
pub mod fantasy_season;
pub mod lookup;
pub mod race_results;
pub mod score;
pub mod sorting;
pub mod status;
pub mod team;
pub mod utils;
