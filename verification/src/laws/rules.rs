//! The rules: how the accepted distance grows, and who fits whom.
use crate::clock::{elapsed, NANOS_PER_SEC};
use crate::config::{
    BASE_RANGE, BUCKET_COUNT, BUCKET_SIZE, MAX_RANGE, MAX_SKILL, RELAX_STEP_RANGE, RELAX_STEP_SECS,
};
use crate::player::PlayerView;
use crate::rules::{accepted_range, bucket_of, compatible, distance, not_after, rank, wait_millis};
use vstd::prelude::*;

verus! {

/// A newcomer accepts the base range.
pub proof fn law_range_starts_at_base()
    ensures
        accepted_range(0) == BASE_RANGE,
{
}

/// Two seconds more of waiting add one step to the accepted distance, until it
/// is the full range.
pub proof fn law_range_grows_by_steps(wait: nat)
    ensures
        accepted_range(wait + (RELAX_STEP_SECS * NANOS_PER_SEC) as nat) == if accepted_range(wait)
            + RELAX_STEP_RANGE < MAX_RANGE {
            accepted_range(wait) + RELAX_STEP_RANGE as nat
        } else {
            MAX_RANGE as nat
        },
{
    let secs = wait / NANOS_PER_SEC as nat;
    assert((wait + 2_000_000_000) / 1_000_000_000 == secs + 2);
    assert((secs + 2) / 2 == secs / 2 + 1);
}

/// Who waits longer accepts no less.
pub proof fn law_range_never_shrinks(wait: nat, longer: nat)
    requires
        wait <= longer,
    ensures
        accepted_range(wait) <= accepted_range(longer),
{
    let steps = wait / NANOS_PER_SEC as nat / RELAX_STEP_SECS as nat;
    let more = longer / NANOS_PER_SEC as nat / RELAX_STEP_SECS as nat;
    assert(steps <= more);
}

/// The accepted distance never exceeds the full range, and reaches it within
/// forty seconds.
pub proof fn law_range_reaches_everyone(wait: nat)
    ensures
        accepted_range(wait) <= MAX_RANGE,
        wait >= 40 * NANOS_PER_SEC ==> accepted_range(wait) == MAX_RANGE,
{
}

/// A bucket holds the ratings from a multiple of its width up to the next.
pub proof fn law_bucket_bounds(skill: int)
    requires
        0 <= skill <= MAX_SKILL,
    ensures
        0 <= bucket_of(skill) < BUCKET_COUNT,
        bucket_of(skill) * BUCKET_SIZE <= skill < (bucket_of(skill) + 1) * BUCKET_SIZE,
{
}

/// A higher rating stands in no lower bucket.
pub proof fn law_buckets_follow_ratings(lower: int, higher: int)
    requires
        lower <= higher,
    ensures
        bucket_of(lower) <= bucket_of(higher),
{
}

/// Who fits whom is mutual.
pub proof fn law_fitting_is_mutual(one: PlayerView, other: PlayerView, now: nat)
    ensures
        compatible(one, other, now) == compatible(other, one, now),
{
}

/// Two players who fit keep fitting while they wait.
pub proof fn law_fitting_lasts(one: PlayerView, other: PlayerView, now: nat, later: nat)
    requires
        compatible(one, other, now),
        now <= later,
    ensures
        compatible(one, other, later),
{
    law_range_never_shrinks(
        elapsed(one.enqueued_at, now),
        elapsed(one.enqueued_at, later),
    );
    law_range_never_shrinks(
        elapsed(other.enqueued_at, now),
        elapsed(other.enqueued_at, later),
    );
}

/// Everyone fits themselves.
pub proof fn law_everyone_fits_themselves(player: PlayerView, now: nat)
    ensures
        compatible(player, player, now),
{
}

/// The order of picking is total: of two ranks one comes no later, both only
/// if they are the same, and the order carries over.
pub proof fn law_ranks_are_ordered(x: (u32, u64, u64), y: (u32, u64, u64), z: (u32, u64, u64))
    ensures
        not_after(x, y) || not_after(y, x),
        not_after(x, y) && not_after(y, x) ==> x == y,
        not_after(x, y) && not_after(y, z) ==> not_after(x, z),
{
}

/// A wait lasts from arrival until now, and not at all if arrival lies ahead.
pub proof fn law_waits_run_from_arrival(arrival: nat, wait: nat, ahead: nat)
    ensures
        elapsed(arrival, arrival + wait) == wait,
        elapsed(arrival + ahead, arrival) == 0,
{
}

/// The milliseconds of a wait are the whole ones in its nanoseconds.
pub proof fn law_wait_in_millis(arrival: nat, wait: nat)
    ensures
        wait_millis(arrival, arrival + wait) * 1_000_000 <= wait,
        wait < (wait_millis(arrival, arrival + wait) + 1) * 1_000_000,
{
}

/// The accepted distance stays the same within a step of two seconds: 150 and 250
/// for every two whole seconds of waiting, but at most 5000.
pub proof fn law_range_of_a_step(steps: nat, beyond: nat)
    requires
        beyond < 2_000_000_000,
    ensures
        150 + 250 * steps <= 5000 ==> accepted_range(steps * 2_000_000_000 + beyond) == 150 + 250
            * steps,
        150 + 250 * steps >= 5000 ==> accepted_range(steps * 2_000_000_000 + beyond) == 5000,
{
    let wait = steps * 2_000_000_000 + beyond;
    assert(wait / 1_000_000_000 / 2 == steps) by {
        assert(wait / 1_000_000_000 == 2 * steps + beyond / 1_000_000_000);
    }
}

/// Two players fit exactly if they share region and mode and their ratings lie no
/// further apart than the larger of the distances that the two accept after
/// their waits.
pub proof fn law_who_fits_whom(one: PlayerView, other: PlayerView, now: nat)
    ensures
        compatible(one, other, now) <==> {
            let accepted = accepted_range(elapsed(one.enqueued_at, now));
            let offered = accepted_range(elapsed(other.enqueued_at, now));
            let larger = if accepted < offered {
                offered
            } else {
                accepted
            };
            &&& one.region == other.region
            &&& one.mode == other.mode
            &&& one.skill - other.skill <= larger
            &&& other.skill - one.skill <= larger
        },
{
}

/// Players who fit at once are 150 apart at most, and nobody fits by waiting more
/// than the longer of the two has waited allows.
pub proof fn law_fitting_by_waits(one: PlayerView, other: PlayerView, now: nat, steps: nat)
    requires
        compatible(one, other, now),
        elapsed(one.enqueued_at, now) < (steps + 1) * 2_000_000_000,
        elapsed(other.enqueued_at, now) < (steps + 1) * 2_000_000_000,
    ensures
        one.skill - other.skill <= 150 + 250 * steps,
        other.skill - one.skill <= 150 + 250 * steps,
{
    let most = ((steps + 1) * 2_000_000_000 - 1) as nat;
    law_range_never_shrinks(elapsed(one.enqueued_at, now), most);
    law_range_never_shrinks(elapsed(other.enqueued_at, now), most);
    assert(most == steps * 2_000_000_000 + 1_999_999_999);
    law_range_of_a_step(steps, 1_999_999_999);
}

/// Ratings above the highest stand with the highest.
pub proof fn law_high_ratings_share_a_bucket(skill: int)
    requires
        skill >= 5000,
    ensures
        bucket_of(skill) == 50,
{
}

/// Who comes first in the order of picking: the closer in rating; of the equally
/// close, who has waited more milliseconds; of those, the lower number.
pub proof fn law_order_of_picking(anchor: PlayerView, one: PlayerView, other: PlayerView, now: nat)
    requires
        now <= u64::MAX,
    ensures
        not_after(rank(anchor, one, now), rank(anchor, other, now)) <==> {
            let near = if one.skill < anchor.skill {
                anchor.skill - one.skill
            } else {
                one.skill - anchor.skill
            };
            let far = if other.skill < anchor.skill {
                anchor.skill - other.skill
            } else {
                other.skill - anchor.skill
            };
            let waited = wait_millis(one.enqueued_at, now);
            let other_waited = wait_millis(other.enqueued_at, now);
            ||| near < far
            ||| near == far && waited > other_waited
            ||| near == far && waited == other_waited && one.seq <= other.seq
        },
{
}

/// The distance of two numbers is what the larger has more than the smaller.
pub proof fn law_distance(smaller: int, more: nat)
    ensures
        distance(smaller, smaller + more) == more,
        distance(smaller + more, smaller) == more,
{
}

} // verus!
