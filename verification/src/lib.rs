//! Bulk import of historical professional-football data — rosters,
//! schedules and weekly player stats — from versioned remote CSV
//! snapshots into a relational store. The pipeline fetches one CSV
//! per (category, season) pair with bounded retry, streams and
//! validates its rows, normalizes team, height and position fields,
//! and writes records idempotently by natural key in fixed-size
//! batches, tracking per-(season, category) progress so re-runs are
//! safe. Fetching over HTTP and the storage connection are the
//! caller's; every decision in between is made and verified here.
pub mod config;
pub mod fetch;
pub mod parser;
pub mod pipeline;
pub mod records;
pub mod store;
pub mod text;
pub mod validate;
pub mod transform;

use vstd::prelude::*;

verus! {

/// The earliest season for which source data exists.
pub const MIN_SEASON: i32 = 1999;

/// The latest season the pipeline will accept.
pub const MAX_SEASON: i32 = 2030;

/// Whether a year lies in the range of seasons the pipeline accepts.
pub open spec fn season_in_range(season: i32) -> bool {
    MIN_SEASON <= season && season <= MAX_SEASON
}

} // verus!
