//! Who may play with whom, and in which order players are picked.
use crate::clock::{elapsed, Duration, Instant, NANOS_PER_MILLI, NANOS_PER_SEC};
use crate::config::{
    BASE_RANGE, BUCKET_COUNT, BUCKET_SIZE, MAX_RANGE, MAX_SKILL, RELAX_STEP_RANGE, RELAX_STEP_SECS,
};
use crate::player::{Player, PlayerView};
use vstd::prelude::*;

verus! {

/// The distance between two numbers.
pub open spec fn distance(x: int, y: int) -> nat {
    if x <= y {
        (y - x) as nat
    } else {
        (x - y) as nat
    }
}

/// The distance between two numbers.
pub fn abs_diff(x: u32, y: u32) -> (d: u32)
    ensures
        d == distance(x as int, y as int),
{
    if x <= y {
        y - x
    } else {
        x - y
    }
}

/// The rating distance that a player accepts after waiting `wait` nanoseconds:
/// the base range, one step more for every full step of waiting, and never
/// more than the whole range.
pub open spec fn accepted_range(wait: nat) -> nat {
    let steps = wait / NANOS_PER_SEC as nat / RELAX_STEP_SECS as nat;
    let relaxed = BASE_RANGE as nat + steps * RELAX_STEP_RANGE as nat;
    if relaxed < MAX_RANGE {
        relaxed
    } else {
        MAX_RANGE as nat
    }
}

/// The rating distance that a player accepts after waiting for `wait`.
pub fn relaxation_range(wait: Duration) -> (range: u32)
    ensures
        range == accepted_range(wait@),
{
    let steps: u64 = wait.as_secs() / RELAX_STEP_SECS;
    if steps <= ((MAX_RANGE - BASE_RANGE) / RELAX_STEP_RANGE) as u64 {
        BASE_RANGE + steps as u32 * RELAX_STEP_RANGE
    } else {
        MAX_RANGE
    }
}

/// The bucket of a rating.
pub open spec fn bucket_of(skill: int) -> int {
    (if skill < MAX_SKILL { skill } else { MAX_SKILL as int }) / BUCKET_SIZE as int
}

/// The bucket of a rating. Ratings above the highest share its bucket.
pub fn skill_bucket(skill: u32) -> (bucket: usize)
    ensures
        bucket == bucket_of(skill as int),
        bucket < BUCKET_COUNT,
{
    let capped: u32 = if skill < MAX_SKILL { skill } else { MAX_SKILL };
    (capped / BUCKET_SIZE) as usize
}

/// The distance that `player` accepts at the time `now`.
pub open spec fn range_at(player: PlayerView, now: nat) -> nat {
    accepted_range(elapsed(player.enqueued_at, now))
}

/// Whether the two can meet at the time `now`: the same region, the same mode,
/// and ratings as close as the more tolerant of the two accepts.
pub open spec fn compatible(anchor: PlayerView, candidate: PlayerView, now: nat) -> bool {
    &&& anchor.region == candidate.region
    &&& anchor.mode == candidate.mode
    &&& {
        ||| distance(anchor.skill as int, candidate.skill as int) <= range_at(anchor, now)
        ||| distance(anchor.skill as int, candidate.skill as int) <= range_at(candidate, now)
    }
}

/// Whether the two can meet at the time `now`.
pub fn is_compatible(anchor: &Player, candidate: &Player, now: Instant) -> (fits: bool)
    ensures
        fits == compatible(anchor@, candidate@, now@),
{
    if !(anchor.region == candidate.region) || !(anchor.mode == candidate.mode) {
        return false;
    }
    let anchor_range: u32 = relaxation_range(now.duration_since(anchor.enqueued_at));
    let candidate_range: u32 = relaxation_range(now.duration_since(candidate.enqueued_at));
    let shared_range: u32 = if anchor_range < candidate_range {
        candidate_range
    } else {
        anchor_range
    };
    abs_diff(anchor.skill, candidate.skill) <= shared_range
}

/// The whole milliseconds from `since` to `now`.
pub open spec fn wait_millis(since: nat, now: nat) -> nat {
    elapsed(since, now) / NANOS_PER_MILLI as nat
}

/// The whole milliseconds that `player` has waited at the time `now`.
pub fn waited_millis(player: &Player, now: Instant) -> (millis: u64)
    ensures
        millis == wait_millis(player@.enqueued_at, now@),
        millis <= u64::MAX / 1_000_000,
{
    now.duration_since(player.enqueued_at).as_millis() as u64
}

/// The place of a candidate in the order of picking: the rating distance to
/// the anchor, then the longer wait, then the earlier arrival.
pub open spec fn rank(anchor: PlayerView, candidate: PlayerView, now: nat) -> (u32, u64, u64) {
    (
        distance(anchor.skill as int, candidate.skill as int) as u32,
        (u64::MAX - wait_millis(candidate.enqueued_at, now)) as u64,
        candidate.seq,
    )
}

/// The place of a candidate in the order of picking; smaller comes first.
pub fn candidate_rank(anchor: &Player, candidate: &Player, now: Instant) -> (place: (u32, u64, u64))
    ensures
        place == rank(anchor@, candidate@, now@),
{
    (
        abs_diff(anchor.skill, candidate.skill),
        u64::MAX - waited_millis(candidate, now),
        candidate.seq,
    )
}

/// The order of ranks: the first difference decides.
pub open spec fn not_after(x: (u32, u64, u64), y: (u32, u64, u64)) -> bool {
    x.0 < y.0 || (x.0 == y.0 && (x.1 < y.1 || (x.1 == y.1 && x.2 <= y.2)))
}

/// Whether `x` comes no later than `y`.
pub fn ranks_not_after(x: (u32, u64, u64), y: (u32, u64, u64)) -> (b: bool)
    ensures
        b == not_after(x, y),
{
    x.0 < y.0 || (x.0 == y.0 && (x.1 < y.1 || (x.1 == y.1 && x.2 <= y.2)))
}

} // verus!
