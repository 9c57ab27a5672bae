//! What the engine knows, as a mathematical state, and how that state changes.
use crate::balance::{best_split, side, skill_gap};
use crate::config::{BUCKET_COUNT, MATCH_SIZE, MAX_SKILL, RECENT_MATCH_LIMIT};
use crate::counters::Counters;
use crate::player::{
    members, request_fault, MatchView, PlayerAssignment, PlayerView, RequestView, Team,
};
use crate::rules::{bucket_of, range_at, wait_millis};
use crate::selection::{candidates, first_of, ranked};
use vstd::prelude::*;

verus! {

/// The state of the engine.
pub struct MatchmakerView {
    /// The waiting players by rating, each bucket in order of arrival.
    pub buckets: Seq<Seq<PlayerView>>,
    /// The names of the waiting players.
    pub waiting_ids: Set<Seq<char>>,
    /// Where the players of all matches play.
    pub assignments: Map<Seq<char>, PlayerAssignment>,
    /// The latest matches, newest first.
    pub recent_matches: Seq<MatchView>,
    pub next_player_seq: u64,
    pub next_match_id: u64,
    pub players_enqueued: u64,
    pub players_matched: u64,
    pub matches_created: u64,
    pub enqueue_rejections: u64,
    pub total_wait_ms: u64,
    pub total_skill_diff: u64,
    pub total_skill_spread: u64,
    pub total_enqueue_ns: u64,
}

/// The names of `players`.
pub open spec fn ids_of(players: Seq<PlayerView>) -> Set<Seq<char>> {
    players.map_values(|p: PlayerView| p.id).to_set()
}

/// No two of `players` have the same name.
pub open spec fn distinct_ids(players: Seq<PlayerView>) -> bool {
    forall|i: int, j: int|
        0 <= i < j < players.len() ==> (#[trigger] players[i]).id != (#[trigger] players[j]).id
}

/// The players who are left of `queue` without those named in `gone`.
pub open spec fn without(queue: Seq<PlayerView>, gone: Set<Seq<char>>) -> Seq<PlayerView> {
    queue.filter(|p: PlayerView| !gone.contains(p.id))
}

/// The milliseconds that `players` have waited, added up.
pub open spec fn total_wait(players: Seq<PlayerView>, now: nat) -> nat
    decreases players.len(),
{
    if players.len() == 0 {
        0
    } else {
        total_wait(players.drop_last(), now) + wait_millis(players.last().enqueued_at, now)
    }
}

/// The lowest rating among `players`.
pub open spec fn lowest_skill(players: Seq<PlayerView>) -> u32
    decreases players.len(),
{
    if players.len() <= 1 {
        players[0].skill
    } else {
        let rest = lowest_skill(players.drop_last());
        if players.last().skill < rest {
            players.last().skill
        } else {
            rest
        }
    }
}

/// The highest rating among `players`.
pub open spec fn highest_skill(players: Seq<PlayerView>) -> u32
    decreases players.len(),
{
    if players.len() <= 1 {
        players[0].skill
    } else {
        let rest = highest_skill(players.drop_last());
        if players.last().skill > rest {
            players.last().skill
        } else {
            rest
        }
    }
}

/// `assignments` with each of `players` placed at `place`.
pub open spec fn assigned(
    assignments: Map<Seq<char>, PlayerAssignment>,
    players: Seq<PlayerView>,
    place: PlayerAssignment,
) -> Map<Seq<char>, PlayerAssignment>
    decreases players.len(),
{
    if players.len() == 0 {
        assignments
    } else {
        assigned(assignments, players.drop_last(), place).insert(players.last().id, place)
    }
}

/// `player` stands in one of the buckets from `low` up to but not including
/// `end`.
pub open spec fn stands_between(
    pool: MatchmakerView,
    low: int,
    end: int,
    player: PlayerView,
) -> bool {
    exists|b: int, i: int|
        #![trigger pool.buckets[b][i]]
        low <= b < end && pool.occupied(b, i) && pool.buckets[b][i] == player
}

/// The first bucket that holds ratings in reach of `anchor`.
pub open spec fn low_bucket(anchor: PlayerView, now: nat) -> int {
    let reach = range_at(anchor, now);
    bucket_of(
        if anchor.skill < reach {
            0
        } else {
            anchor.skill - reach
        },
    )
}

/// The last bucket that holds ratings in reach of `anchor`.
pub open spec fn high_bucket(anchor: PlayerView, now: nat) -> int {
    bucket_of(anchor.skill + range_at(anchor, now))
}

/// A counter that has gone up by `n` and wraps around at its end.
pub open spec fn counted(counter: u64, n: nat) -> u64 {
    ((counter + n) % 0x1_0000_0000_0000_0000) as u64
}

impl MatchmakerView {
    /// An engine that nobody has used yet.
    pub open spec fn fresh() -> MatchmakerView {
        MatchmakerView {
            buckets: Seq::new(BUCKET_COUNT as nat, |i: int| Seq::<PlayerView>::empty()),
            waiting_ids: Set::empty(),
            assignments: Map::empty(),
            recent_matches: Seq::empty(),
            next_player_seq: 1,
            next_match_id: 1,
            players_enqueued: 0,
            players_matched: 0,
            matches_created: 0,
            enqueue_rejections: 0,
            total_wait_ms: 0,
            total_skill_diff: 0,
            total_skill_spread: 0,
            total_enqueue_ns: 0,
        }
    }

    /// The counters of the state.
    pub open spec fn counters(self) -> Counters {
        Counters {
            players_enqueued: self.players_enqueued,
            players_matched: self.players_matched,
            matches_created: self.matches_created,
            enqueue_rejections: self.enqueue_rejections,
            total_wait_ms: self.total_wait_ms,
            total_skill_diff: self.total_skill_diff,
            total_skill_spread: self.total_skill_spread,
            total_enqueue_ns: self.total_enqueue_ns,
        }
    }

    /// Whether there is a `place`-th player in bucket `bucket`.
    pub open spec fn occupied(self, bucket: int, place: int) -> bool {
        0 <= bucket < self.buckets.len() && 0 <= place < self.buckets[bucket].len()
    }

    /// Every waiting player has a valid rating and stands in its bucket.
    pub open spec fn sorted_into_buckets(self) -> bool {
        &&& self.buckets.len() == BUCKET_COUNT
        &&& forall|b: int, i: int|
            #![trigger self.buckets[b][i]]
            self.occupied(b, i) ==> self.buckets[b][i].skill <= MAX_SKILL && bucket_of(
                self.buckets[b][i].skill as int,
            ) == b
    }

    /// No name waits in two places.
    pub open spec fn unique_names(self) -> bool {
        forall|b: int, i: int, c: int, j: int|
            #![trigger self.buckets[b][i], self.buckets[c][j]]
            self.occupied(b, i) && self.occupied(c, j) && self.buckets[b][i].id
                == self.buckets[c][j].id ==> b == c && i == j
    }

    /// The player named `id` stands in some bucket.
    pub open spec fn stands(self, id: Seq<char>) -> bool {
        exists|b: int, i: int|
            #![trigger self.buckets[b][i]]
            self.occupied(b, i) && self.buckets[b][i].id == id
    }

    /// The waiting names are those of the players in the buckets.
    pub open spec fn waiting_names_known(self) -> bool {
        &&& self.waiting_ids.finite()
        &&& forall|b: int, i: int|
            #![trigger self.buckets[b][i]]
            self.occupied(b, i) ==> self.waiting_ids.contains(self.buckets[b][i].id)
        &&& forall|id: Seq<char>| #[trigger] self.waiting_ids.contains(id) ==> self.stands(id)
    }

    /// Nobody both waits and plays.
    pub open spec fn waiting_or_playing(self) -> bool {
        forall|id: Seq<char>|
            !(#[trigger] self.waiting_ids.contains(id) && #[trigger] self.assignments.contains_key(
                id,
            ))
    }

    /// The counters tell how many wait and how many play, up to wrapping around.
    pub open spec fn counters_agree(self) -> bool {
        &&& self.players_enqueued == counted(self.players_matched, self.waiting_ids.len())
        &&& self.players_matched == counted(0, self.matches_created as nat * MATCH_SIZE as nat)
    }

    /// What holds of every state that the engine reaches.
    pub open spec fn wf(self) -> bool {
        &&& self.sorted_into_buckets()
        &&& self.unique_names()
        &&& self.waiting_names_known()
        &&& self.waiting_or_playing()
        &&& self.counters_agree()
        &&& self.recent_matches.len() <= RECENT_MATCH_LIMIT
    }

    /// Whether the player named `id` waits or plays.
    pub open spec fn knows(self, id: Seq<char>) -> bool {
        self.waiting_ids.contains(id) || self.assignments.contains_key(id)
    }

    /// Whether `request` is accepted: it has no fault and its player is new.
    pub open spec fn accepts(self, request: RequestView) -> bool {
        request_fault(request) is None && !self.knows(request.player_id)
    }

    /// The player whom `request` brings at the time `now`.
    pub open spec fn newcomer(self, request: RequestView, now: nat) -> PlayerView {
        PlayerView {
            id: request.player_id,
            skill: request.skill,
            region: request.region,
            mode: request.mode,
            enqueued_at: now,
            seq: self.next_player_seq,
        }
    }

    /// The state after `request` was accepted at the time `now`: its player is
    /// the last in the bucket.
    pub open spec fn enqueued(self, request: RequestView, now: nat) -> MatchmakerView {
        let bucket = bucket_of(request.skill as int);
        MatchmakerView {
            buckets: self.buckets.update(
                bucket,
                self.buckets[bucket].push(self.newcomer(request, now)),
            ),
            waiting_ids: self.waiting_ids.insert(request.player_id),
            next_player_seq: counted(self.next_player_seq, 1),
            players_enqueued: counted(self.players_enqueued, 1),
            ..self
        }
    }

    /// The state after a request was refused because its player is known.
    pub open spec fn rejected(self) -> MatchmakerView {
        MatchmakerView { enqueue_rejections: counted(self.enqueue_rejections, 1), ..self }
    }

    /// The state after accepting a request took `nanos` nanoseconds.
    pub open spec fn timed(self, nanos: nat) -> MatchmakerView {
        let capped = if nanos < u64::MAX {
            nanos
        } else {
            u64::MAX as nat
        };
        MatchmakerView { total_enqueue_ns: counted(self.total_enqueue_ns, capped), ..self }
    }

    /// Whom the first player of bucket `bucket` can meet at the time `now`.
    pub open spec fn candidates_for(self, bucket: int, now: nat) -> Seq<PlayerView> {
        let anchor = self.buckets[bucket][0];
        candidates(self.buckets, low_bucket(anchor, now), high_bucket(anchor, now) + 1, anchor, now)
    }

    /// The candidates that are picked first, as many as a match takes.
    pub open spec fn picks_for(self, bucket: int, now: nat) -> Seq<PlayerView> {
        first_of(
            ranked(self.buckets[bucket][0], now, self.candidates_for(bucket, now)),
            MATCH_SIZE as int,
        )
    }

    /// The lobby that forms around the first player of bucket `bucket`: there is
    /// one if the picks are enough for a match and the player is among them.
    pub open spec fn lobby_for(self, bucket: int, now: nat) -> Option<Seq<PlayerView>> {
        if self.buckets[bucket].len() == 0 {
            None
        } else {
            let picks = self.picks_for(bucket, now);
            if picks.len() == MATCH_SIZE && ids_of(picks).contains(self.buckets[bucket][0].id) {
                Some(picks)
            } else {
                None
            }
        }
    }

    /// The state after the players of `lobby` left their buckets.
    pub open spec fn evicted(self, lobby: Seq<PlayerView>) -> MatchmakerView {
        MatchmakerView {
            buckets: self.buckets.map_values(
                |queue: Seq<PlayerView>| without(queue, ids_of(lobby)),
            ),
            ..self
        }
    }

    /// The match that the players of `lobby` play.
    pub open spec fn match_of(self, lobby: Seq<PlayerView>, now: nat, epoch_ms: u128) -> MatchView {
        MatchView {
            id: self.next_match_id,
            team_a: members(side(lobby, best_split(lobby), true)),
            team_b: members(side(lobby, best_split(lobby), false)),
            skill_diff: skill_gap(lobby, best_split(lobby)) as u32,
            skill_spread: (highest_skill(lobby) - lowest_skill(lobby)) as u32,
            average_wait_ms: (total_wait(lobby, now) / MATCH_SIZE as nat) as u64,
            created_epoch_ms: epoch_ms,
        }
    }

    /// The state after the match of `lobby` was entered everywhere but in the
    /// buckets.
    pub open spec fn recorded(
        self,
        lobby: Seq<PlayerView>,
        now: nat,
        epoch_ms: u128,
    ) -> MatchmakerView {
        let split = best_split(lobby);
        let new_match = self.match_of(lobby, now, epoch_ms);
        MatchmakerView {
            waiting_ids: self.waiting_ids.difference(ids_of(lobby)),
            assignments: assigned(
                assigned(
                    self.assignments,
                    side(lobby, split, true),
                    PlayerAssignment { match_id: self.next_match_id, team: Team::A },
                ),
                side(lobby, split, false),
                PlayerAssignment { match_id: self.next_match_id, team: Team::B },
            ),
            recent_matches: first_of(
                seq![new_match] + self.recent_matches,
                RECENT_MATCH_LIMIT as int,
            ),
            next_match_id: counted(self.next_match_id, 1),
            players_matched: counted(self.players_matched, MATCH_SIZE as nat),
            matches_created: counted(self.matches_created, 1),
            total_wait_ms: counted(self.total_wait_ms, total_wait(lobby, now)),
            total_skill_diff: counted(self.total_skill_diff, new_match.skill_diff as nat),
            total_skill_spread: counted(self.total_skill_spread, new_match.skill_spread as nat),
            ..self
        }
    }

    /// The state after an attempt to form a match around the first player of
    /// bucket `bucket`.
    pub open spec fn attempted(self, bucket: int, now: nat, epoch_ms: u128) -> MatchmakerView {
        match self.lobby_for(bucket, now) {
            None => self,
            Some(lobby) => self.evicted(lobby).recorded(lobby, now, epoch_ms),
        }
    }
}

} // verus!
