//! The fixed numbers of the matchmaking rules.
use vstd::prelude::*;

verus! {

/// Players in a team.
pub const TEAM_SIZE: usize = 5;

/// Players in a match.
pub const MATCH_SIZE: usize = TEAM_SIZE * 2;

/// Width of a rating bucket.
pub const BUCKET_SIZE: u32 = 100;

/// The highest rating.
pub const MAX_SKILL: u32 = 5000;

/// Buckets that the ratings from 0 to `MAX_SKILL` fall into: one for every
/// `BUCKET_SIZE` of them, and one for `MAX_SKILL` itself.
pub const BUCKET_COUNT: usize = 51;

/// Matches that the engine remembers for display.
pub const RECENT_MATCH_LIMIT: usize = 100;

/// The rating distance that a player accepts on arrival.
pub const BASE_RANGE: u32 = 150;

/// What each step of waiting adds to the accepted distance.
pub const RELAX_STEP_RANGE: u32 = 250;

/// Seconds of waiting in a step.
pub const RELAX_STEP_SECS: u64 = 2;

/// The largest accepted distance: all ratings.
pub const MAX_RANGE: u32 = MAX_SKILL;

} // verus!
