//! The counters of the engine, and what is reported of them.
use crate::clock::{Duration, NANOS_PER_MILLI};
use crate::text::{decimal, push_decimal};
use vstd::prelude::*;

verus! {

/// What the engine counts. The counters wrap around at their end.
#[derive(Clone, Copy, Debug)]
pub struct Counters {
    /// Requests that were accepted.
    pub players_enqueued: u64,
    /// Players that were put into matches.
    pub players_matched: u64,
    /// Matches that were formed.
    pub matches_created: u64,
    /// Requests that were refused because their player was known.
    pub enqueue_rejections: u64,
    /// The waits of matched players in milliseconds, added up.
    pub total_wait_ms: u64,
    /// The differences between the teams of all matches, added up.
    pub total_skill_diff: u64,
    /// The differences between the highest and the lowest rating, added up.
    pub total_skill_spread: u64,
    /// The nanoseconds that accepting requests took, added up.
    pub total_enqueue_ns: u64,
}

/// The average of `count` numbers with sum `total`; zero of none.
pub open spec fn average(total: u64, count: u64) -> nat {
    if count == 0 {
        0
    } else {
        (total / count) as nat
    }
}

/// How many players the counters tell are waiting.
pub open spec fn waiting_count(counters: Counters) -> nat {
    if counters.players_enqueued < counters.players_matched {
        0
    } else {
        (counters.players_enqueued - counters.players_matched) as nat
    }
}

/// The counters in JSON.
pub open spec fn metrics_text(counters: Counters, uptime_ms: nat) -> Seq<char> {
    "{\"players_enqueued\":"@ + decimal(counters.players_enqueued as nat) + ",\"players_matched\":"@
        + decimal(counters.players_matched as nat) + ",\"waiting_players\":"@ + decimal(
        waiting_count(counters),
    ) + ",\"matches_created\":"@ + decimal(counters.matches_created as nat)
        + ",\"enqueue_rejections\":"@ + decimal(counters.enqueue_rejections as nat)
        + ",\"avg_wait_ms\":"@ + decimal(average(counters.total_wait_ms, counters.players_matched))
        + ",\"avg_team_skill_diff\":"@ + decimal(
        average(counters.total_skill_diff, counters.matches_created),
    ) + ",\"avg_match_skill_spread\":"@ + decimal(
        average(counters.total_skill_spread, counters.matches_created),
    ) + ",\"avg_enqueue_ns\":"@ + decimal(average(counters.total_enqueue_ns, counters.players_enqueued))
        + ",\"uptime_ms\":"@ + decimal(uptime_ms) + "}"@
}

impl Counters {
    /// The counters in JSON, for a service that has been up for `uptime`.
    pub fn metrics_json(&self, uptime: Duration) -> (text: String)
        ensures
            text@ == metrics_text(*self, uptime@ / NANOS_PER_MILLI as nat),
    {
        let waiting: u64 = self.players_enqueued.saturating_sub(self.players_matched);
        let avg_wait_ms: u64 = self.total_wait_ms.checked_div(self.players_matched).unwrap_or(0);
        let avg_skill_diff: u64 = self.total_skill_diff.checked_div(
            self.matches_created,
        ).unwrap_or(0);
        let avg_skill_spread: u64 = self.total_skill_spread.checked_div(
            self.matches_created,
        ).unwrap_or(0);
        let avg_enqueue_ns: u64 = self.total_enqueue_ns.checked_div(
            self.players_enqueued,
        ).unwrap_or(0);
        let mut text = "{\"players_enqueued\":".to_string();
        push_decimal(&mut text, self.players_enqueued as u128);
        text.append(",\"players_matched\":");
        push_decimal(&mut text, self.players_matched as u128);
        text.append(",\"waiting_players\":");
        push_decimal(&mut text, waiting as u128);
        text.append(",\"matches_created\":");
        push_decimal(&mut text, self.matches_created as u128);
        text.append(",\"enqueue_rejections\":");
        push_decimal(&mut text, self.enqueue_rejections as u128);
        text.append(",\"avg_wait_ms\":");
        push_decimal(&mut text, avg_wait_ms as u128);
        text.append(",\"avg_team_skill_diff\":");
        push_decimal(&mut text, avg_skill_diff as u128);
        text.append(",\"avg_match_skill_spread\":");
        push_decimal(&mut text, avg_skill_spread as u128);
        text.append(",\"avg_enqueue_ns\":");
        push_decimal(&mut text, avg_enqueue_ns as u128);
        text.append(",\"uptime_ms\":");
        push_decimal(&mut text, uptime.as_millis());
        text.append("}");
        text
    }
}

} // verus!
