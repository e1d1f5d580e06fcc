//! Result attribution and change detection for a per-stage rally leaderboard.

pub mod classify;
pub mod diff;
pub mod fetch;
pub mod model;
pub mod notify;
pub mod order;
pub mod query;
pub mod resolve;
pub mod snapshot;
pub mod text;

pub use classify::{fastest_times, split_times, FullTime, PartialTime};
pub use model::{get_default_rallys, DriverResult, Rally, RallyResults, StageResult, StageWithLeaderboard};
pub use resolve::get_rally_results;
pub use text::{format_delta, format_time};
