//! The matchmaking engine.
use crate::balance::{balance_teams, total_skill};
use crate::clock::{elapsed, tells, Duration, Instant, NANOS_PER_MILLI};
use crate::config::{BUCKET_COUNT, MATCH_SIZE, MAX_SKILL, RECENT_MATCH_LIMIT};
use crate::counters::{metrics_text, Counters};
use crate::invariants::{
    lemma_enqueued_wf, lemma_fresh_wf, lemma_id_among, lemma_ids_of_last, lemma_lobby,
    lemma_match_wf, lemma_others_untouched, lemma_same_players_wf, lemma_total_skill_bound,
};
use crate::player::{
    request_fault, to_team_members, validate_request, EnqueueError, MatchRecord, MatchView, Player,
    PlayerAssignment, PlayerRequest, PlayerView, Team,
};
use crate::pool::{
    assigned, high_bucket, highest_skill, ids_of, low_bucket, lowest_skill, stands_between,
    total_wait, without, MatchmakerView,
};
use crate::json::{listed, match_record_json, match_text, recent_text, state_text};
use crate::rules::{relaxation_range, skill_bucket, waited_millis};
use crate::selection::{first_of, pick_lobby};
use crate::text::push_decimal;
use std::collections::VecDeque;
use vstd::hash_map::StringHashMap;
use vstd::hash_set::StringHashSet;
use vstd::prelude::*;

verus! {

/// The waiting players, the matches formed of them, and the counters over both.
pub struct Matchmaker {
    buckets: Vec<VecDeque<Player>>,
    waiting_ids: StringHashSet,
    assignments: StringHashMap<PlayerAssignment>,
    recent_matches: VecDeque<MatchRecord>,
    next_player_seq: u64,
    next_match_id: u64,
    players_enqueued: u64,
    players_matched: u64,
    matches_created: u64,
    enqueue_rejections: u64,
    total_wait_ms: u64,
    total_skill_diff: u64,
    total_skill_spread: u64,
    total_enqueue_ns: u64,
}

impl View for Matchmaker {
    type V = MatchmakerView;

    closed spec fn view(&self) -> MatchmakerView {
        MatchmakerView {
            buckets: self.buckets.deep_view(),
            waiting_ids: self.waiting_ids@,
            assignments: self.assignments@,
            recent_matches: self.recent_matches.deep_view(),
            next_player_seq: self.next_player_seq,
            next_match_id: self.next_match_id,
            players_enqueued: self.players_enqueued,
            players_matched: self.players_matched,
            matches_created: self.matches_created,
            enqueue_rejections: self.enqueue_rejections,
            total_wait_ms: self.total_wait_ms,
            total_skill_diff: self.total_skill_diff,
            total_skill_spread: self.total_skill_spread,
            total_enqueue_ns: self.total_enqueue_ns,
        }
    }
}

/// Whether one of `players` is named `id`.
fn names(players: &Vec<Player>, id: &String) -> (found: bool)
    ensures
        found == ids_of(players.deep_view()).contains(id@),
{
    for i in 0..players.len()
        invariant
            forall|j: int| 0 <= j < i ==> (#[trigger] players.deep_view()[j]).id != id@,
    {
        if players[i].id == *id {
            proof {
                lemma_id_among(players.deep_view());
                assert(players.deep_view()[i as int].id == id@);
            }
            return true;
        }
    }
    proof {
        lemma_id_among(players.deep_view());
    }
    false
}

/// Takes the players of `lobby` out of `queue`.
fn take_out(queue: &mut VecDeque<Player>, lobby: &Vec<Player>)
    ensures
        final(queue).deep_view() == without(
            old(queue).deep_view(),
            ids_of(lobby.deep_view()),
        ),
{
    let ghost before = queue.deep_view();
    let ghost gone = ids_of(lobby.deep_view());
    let ghost stays = |p: PlayerView| !gone.contains(p.id);
    let len: usize = queue.len();
    assert(before.take(0).filter(stays) =~= seq![]) by {
        reveal(Seq::filter);
    }
    assert(queue.deep_view() =~= before.skip(0) + before.take(0).filter(stays));
    for i in 0..len
        invariant
            len == before.len(),
            gone == ids_of(lobby.deep_view()),
            stays == |p: PlayerView| !gone.contains(p.id),
            queue.deep_view() == before.skip(i as int) + before.take(i as int).filter(stays),
    {
        let ghost shown = queue.deep_view();
        assert(shown[0] == before[i as int]);
        assert(shown.len() == queue@.len());
        let player = queue.pop_front().unwrap();
        proof {
            assert(player@ == before[i as int]);
            assert(queue.deep_view() =~= shown.drop_first());
            assert(queue.deep_view() =~= before.skip(i + 1) + before.take(i as int).filter(stays));
            assert(before.take(i + 1) =~= before.take(i as int).push(player@));
            before.take(i as int).lemma_filter_push(player@, stays);
        }
        let ghost shorter = queue.deep_view();
        if !names(lobby, &player.id) {
            queue.push_back(player);
            assert(queue.deep_view() =~= shorter.push(player@));
        }
        assert(queue.deep_view() =~= before.skip(i + 1) + before.take(i + 1).filter(stays));
    }
    assert(before.take(len as int) =~= before);
    assert(queue.deep_view() =~= before.filter(stays));
}

/// Takes the names of `players` out of `waiting`.
fn forget(waiting: &mut StringHashSet, players: &Vec<Player>)
    ensures
        final(waiting)@ == old(waiting)@.difference(ids_of(players.deep_view())),
{
    let ghost before = waiting@;
    let ghost lobby = players.deep_view();
    assert(lobby.take(0).map_values(|p: PlayerView| p.id) =~= seq![]);
    assert(waiting@ =~= before.difference(ids_of(lobby.take(0))));
    for i in 0..players.len()
        invariant
            lobby == players.deep_view(),
            waiting@ == before.difference(ids_of(lobby.take(i as int))),
    {
        waiting.remove(players[i].id.as_str());
        proof {
            lemma_ids_of_last(lobby.take(i + 1));
            assert(lobby.take(i + 1).drop_last() =~= lobby.take(i as int));
            assert(waiting@ =~= before.difference(ids_of(lobby.take(i + 1))));
        }
    }
    assert(lobby.take(lobby.len() as int) =~= lobby);
}

/// Places each of `players` at `place`.
fn assign(
    assignments: &mut StringHashMap<PlayerAssignment>,
    players: &Vec<Player>,
    place: PlayerAssignment,
)
    ensures
        final(assignments)@ == assigned(old(assignments)@, players.deep_view(), place),
{
    let ghost before = assignments@;
    let ghost team = players.deep_view();
    for i in 0..players.len()
        invariant
            team == players.deep_view(),
            assignments@ == assigned(before, team.take(i as int), place),
    {
        assignments.insert(players[i].id.clone(), place);
        assert(team.take(i + 1).drop_last() =~= team.take(i as int));
    }
    assert(team.take(team.len() as int) =~= team);
}

/// The difference between the highest and the lowest rating.
fn spread_of(players: &Vec<Player>) -> (spread: u32)
    requires
        players.len() > 0,
    ensures
        spread == highest_skill(players.deep_view()) - lowest_skill(players.deep_view()),
{
    let ghost lobby = players.deep_view();
    let mut low: u32 = players[0].skill;
    let mut high: u32 = players[0].skill;
    for i in 1..players.len()
        invariant
            lobby == players.deep_view(),
            players.len() > 0,
            low == lowest_skill(lobby.take(i as int)),
            high == highest_skill(lobby.take(i as int)),
            low <= high,
    {
        assert(lobby.take(i + 1).drop_last() =~= lobby.take(i as int));
        let skill: u32 = players[i].skill;
        if skill < low {
            low = skill;
        }
        if skill > high {
            high = skill;
        }
    }
    assert(lobby.take(lobby.len() as int) =~= lobby);
    high - low
}

/// The milliseconds that the players of a lobby have waited, added up.
fn wait_of(players: &Vec<Player>, now: Instant) -> (wait: u64)
    requires
        players.len() == MATCH_SIZE,
    ensures
        wait == total_wait(players.deep_view(), now@),
{
    let ghost lobby = players.deep_view();
    let mut wait: u64 = 0;
    for i in 0..MATCH_SIZE
        invariant
            lobby == players.deep_view(),
            players.len() == MATCH_SIZE,
            wait == total_wait(lobby.take(i as int), now@),
            wait <= i * (u64::MAX / 1_000_000),
    {
        assert(lobby.take(i + 1).drop_last() =~= lobby.take(i as int));
        wait += waited_millis(&players[i], now);
    }
    assert(lobby.take(MATCH_SIZE as int) =~= lobby);
    wait
}

impl Matchmaker {
    /// An engine with empty queues.
    pub fn new() -> (engine: Matchmaker)
        ensures
            engine@ == MatchmakerView::fresh(),
            engine@.wf(),
    {
        let mut buckets: Vec<VecDeque<Player>> = Vec::new();
        for i in 0..BUCKET_COUNT
            invariant
                buckets.len() == i,
                forall|b: int| 0 <= b < i ==> (#[trigger] buckets@[b])@.len() == 0,
        {
            buckets.push(VecDeque::new());
        }
        let engine = Matchmaker {
            buckets,
            waiting_ids: StringHashSet::new(),
            assignments: StringHashMap::new(),
            recent_matches: VecDeque::new(),
            next_player_seq: 1,
            next_match_id: 1,
            players_enqueued: 0,
            players_matched: 0,
            matches_created: 0,
            enqueue_rejections: 0,
            total_wait_ms: 0,
            total_skill_diff: 0,
            total_skill_spread: 0,
            total_enqueue_ns: 0,
        };
        proof {
            assert forall|b: int| 0 <= b < BUCKET_COUNT implies #[trigger] engine@.buckets[b]
                =~= Seq::<PlayerView>::empty() by {
                assert(buckets@[b]@.len() == 0);
            }
            assert(engine@.buckets =~= MatchmakerView::fresh().buckets);
            assert(engine@.recent_matches =~= MatchmakerView::fresh().recent_matches);
            lemma_fresh_wf();
        }
        engine
    }

    /// Puts the player of `request` into the queue, and counts the time that this
    /// took. A request with a fault changes nothing; one for a known player is
    /// only counted. The `clock` tells the time: at the start, when the player
    /// joins, and at the end.
    pub fn enqueue<C: Fn() -> Instant>(&mut self, request: PlayerRequest, clock: C) -> (verdict:
        Result<(), EnqueueError>)
        requires
            old(self)@.wf(),
            call_requires(clock, ()),
        ensures
            final(self)@.wf(),
            match verdict {
                Ok(()) => {
                    &&& old(self)@.accepts(request@)
                    &&& exists|start: Instant, at: Instant, end: Instant| #[trigger]
                        tells(clock, start) && #[trigger] tells(clock, at) && #[trigger] tells(
                            clock,
                            end,
                        ) && final(self)@ == old(self)@.enqueued(request@, at@).timed(
                            elapsed(start@, end@),
                        )
                },
                Err(EnqueueError::Duplicate) => {
                    &&& request_fault(request@) is None
                    &&& old(self)@.knows(request@.player_id)
                    &&& final(self)@ == old(self)@.rejected()
                },
                Err(EnqueueError::Invalid(message)) => {
                    &&& request_fault(request@) == Some(message@)
                    &&& final(self)@ == old(self)@
                },
            },
    {
        let start = clock();
        match validate_request(&request) {
            Ok(()) => {},
            Err(fault) => {
                return Err(fault);
            },
        }
        let ghost before = self@;
        if self.waiting_ids.contains(request.player_id.as_str())
            || self.assignments.contains_key(request.player_id.as_str()) {
            self.enqueue_rejections = self.enqueue_rejections.wrapping_add(1);
            proof {
                assert(self@ == before.rejected());
                lemma_same_players_wf(before, self@);
            }
            return Err(EnqueueError::Duplicate);
        }
        self.waiting_ids.insert(request.player_id.clone());
        let now = clock();
        let bucket: usize = skill_bucket(request.skill);
        let player = Player {
            id: request.player_id,
            skill: request.skill,
            region: request.region,
            mode: request.mode,
            enqueued_at: now,
            seq: self.next_player_seq,
        };
        self.next_player_seq = self.next_player_seq.wrapping_add(1);
        assert(bucket < self.buckets@.len()) by {
            assert(before.buckets.len() == self.buckets@.len());
        }
        let ghost queue = self.buckets@[bucket as int].deep_view();
        assert(queue == before.buckets[bucket as int]);
        self.buckets[bucket].push_back(player);
        assert(self.buckets@[bucket as int].deep_view() =~= queue.push(player@));
        self.players_enqueued = self.players_enqueued.wrapping_add(1);
        proof {
            let after = before.enqueued(request@, now@);
            assert(self@.buckets =~= after.buckets);
            assert(self@ == after);
            lemma_enqueued_wf(before, request@, now@);
        }
        let end = clock();
        self.count_time(end.duration_since(start));
        assert(tells(clock, start) && tells(clock, now) && tells(clock, end));
        Ok(())
    }

    /// Counts the time that accepting a request took.
    fn count_time(&mut self, spent: Duration)
        requires
            old(self)@.wf(),
        ensures
            final(self)@.wf(),
            final(self)@ == old(self)@.timed(spent@),
    {
        let ghost before = self@;
        let nanos: u128 = spent.as_nanos();
        let capped: u64 = if nanos < u64::MAX as u128 {
            nanos as u64
        } else {
            u64::MAX
        };
        self.total_enqueue_ns = self.total_enqueue_ns.wrapping_add(capped);
        proof {
            lemma_same_players_wf(before, self@);
        }
    }

    /// Forms a match around the player who waits longest in a bucket, if enough
    /// compatible players wait near it. Its players leave the queue.
    pub fn try_form_match_from_bucket(
        &mut self,
        bucket_idx: usize,
        now: Instant,
        epoch_ms: u128,
    ) -> (formed: Option<MatchRecord>)
        requires
            old(self)@.wf(),
            bucket_idx < BUCKET_COUNT,
        ensures
            final(self)@.wf(),
            final(self)@ == old(self)@.attempted(bucket_idx as int, now@, epoch_ms),
            match formed {
                None => old(self)@.lobby_for(bucket_idx as int, now@) is None,
                Some(record) => old(self)@.lobby_for(bucket_idx as int, now@) matches Some(lobby)
                    && record@ == old(self)@.match_of(lobby, now@, epoch_ms),
            },
    {
        let ghost before = self@;
        assert(self.buckets@.len() == before.buckets.len());
        assert(before.buckets[bucket_idx as int] == self.buckets@[bucket_idx as int].deep_view());
        if self.buckets[bucket_idx].len() == 0 {
            return None;
        }
        let anchor = self.buckets[bucket_idx][0].clone();
        assert(anchor@ == before.buckets[bucket_idx as int][0]);
        let reach: u32 = relaxation_range(now.duration_since(anchor.enqueued_at));
        let low: usize = skill_bucket(anchor.skill.saturating_sub(reach));
        let high: usize = skill_bucket(anchor.skill.saturating_add(reach));
        proof {
            lemma_lobby(before, bucket_idx as int, now@);
            assert(low == low_bucket(anchor@, now@));
            assert(high == high_bucket(anchor@, now@));
        }
        let lobby = pick_lobby(&self.buckets, low, high, &anchor, now);
        let ghost picks = lobby.deep_view();
        assert(picks == before.picks_for(bucket_idx as int, now@));
        assert(picks.len() == lobby.len());
        if lobby.len() != MATCH_SIZE || !names(&lobby, &anchor.id) {
            return None;
        }
        let mut bucket: usize = low;
        while bucket <= high
            invariant
                low <= bucket <= high + 1,
                high < BUCKET_COUNT,
                before.buckets.len() == BUCKET_COUNT,
                picks == lobby.deep_view(),
                self@ == (MatchmakerView { buckets: self@.buckets, ..before }),
                self.buckets@.len() == BUCKET_COUNT,
                forall|b: int|
                    0 <= b < BUCKET_COUNT ==> (#[trigger] self.buckets@[b]).deep_view() == if low
                        <= b < bucket {
                        without(before.buckets[b], ids_of(picks))
                    } else {
                        before.buckets[b]
                    },
            decreases high + 1 - bucket,
        {
            take_out(&mut self.buckets[bucket], &lobby);
            bucket += 1;
        }
        proof {
            let after = before.evicted(picks);
            assert forall|b: int| 0 <= b < BUCKET_COUNT implies self@.buckets[b]
                == #[trigger] after.buckets[b] by {
                assert(self@.buckets[b] == self.buckets@[b].deep_view());
                if b < low || high < b {
                    lemma_others_untouched(before, low as int, high + 1, picks, b);
                }
            }
            assert(self@.buckets =~= after.buckets);
            assert(self@ == after);
            assert forall|k: int| 0 <= k < picks.len() implies (#[trigger] picks[k]).skill
                <= MAX_SKILL && before.waiting_ids.contains(picks[k].id) by {
                assert(stands_between(before, low as int, high + 1, picks[k]));
            }
            lemma_total_skill_bound(picks);
            lemma_match_wf(before, picks, now@, epoch_ms);
        }
        Some(self.record_match(lobby, now, epoch_ms))
    }

    /// Enters the match that the ten `players` play: into the teams, the places
    /// of the players, the recent matches and the counters. The players no
    /// longer count as waiting.
    pub fn record_match(&mut self, players: Vec<Player>, now: Instant, epoch_ms: u128) -> (record:
        MatchRecord)
        requires
            players.len() == MATCH_SIZE,
            total_skill(players.deep_view()) <= u32::MAX,
        ensures
            record@ == old(self)@.match_of(players.deep_view(), now@, epoch_ms),
            final(self)@ == old(self)@.recorded(players.deep_view(), now@, epoch_ms),
    {
        let ghost before = self@;
        let ghost lobby = players.deep_view();
        let match_id: u64 = self.next_match_id;
        self.next_match_id = self.next_match_id.wrapping_add(1);
        let all = players.as_slice();
        assert(all.deep_view() =~= lobby);
        let (team_a_players, team_b_players, skill_diff) = balance_teams(all);
        let wait_sum_ms: u64 = wait_of(&players, now);
        let skill_spread: u32 = spread_of(&players);
        let all_a = team_a_players.as_slice();
        let all_b = team_b_players.as_slice();
        assert(all_a.deep_view() =~= team_a_players.deep_view());
        assert(all_b.deep_view() =~= team_b_players.deep_view());
        let record = MatchRecord {
            id: match_id,
            team_a: to_team_members(all_a),
            team_b: to_team_members(all_b),
            skill_diff,
            skill_spread,
            average_wait_ms: wait_sum_ms / MATCH_SIZE as u64,
            created_epoch_ms: epoch_ms,
        };
        assert(record@ == before.match_of(lobby, now@, epoch_ms));

        forget(&mut self.waiting_ids, &players);
        assign(
            &mut self.assignments,
            &team_a_players,
            PlayerAssignment { match_id, team: Team::A },
        );
        assign(
            &mut self.assignments,
            &team_b_players,
            PlayerAssignment { match_id, team: Team::B },
        );

        let ghost recent = self.recent_matches.deep_view();
        self.recent_matches.push_front(record.clone());
        assert(self.recent_matches.deep_view() =~= seq![record@] + recent);
        self.recent_matches.truncate(RECENT_MATCH_LIMIT);
        assert(self.recent_matches.deep_view() =~= first_of(
            seq![record@] + recent,
            RECENT_MATCH_LIMIT as int,
        ));

        self.matches_created = self.matches_created.wrapping_add(1);
        self.players_matched = self.players_matched.wrapping_add(MATCH_SIZE as u64);
        self.total_wait_ms = self.total_wait_ms.wrapping_add(wait_sum_ms);
        self.total_skill_diff = self.total_skill_diff.wrapping_add(skill_diff as u64);
        self.total_skill_spread = self.total_skill_spread.wrapping_add(skill_spread as u64);
        record
    }

    /// What is told of the player named `player_id`, if there is one.
    pub fn player_state_json(&self, player_id: &str) -> (text: Option<String>)
        ensures
            match text {
                Some(text) => state_text(self@, player_id@) == Some(text@),
                None => state_text(self@, player_id@) is None,
            },
    {
        if let Some(place) = self.assignments.get(player_id) {
            let mut text = "{\"state\":\"matched\",\"match_id\":".to_string();
            push_decimal(&mut text, place.match_id as u128);
            text.append(",\"team\":\"");
            text.append(place.team.as_str());
            text.append("\"}");
            return Some(text);
        }
        if self.waiting_ids.contains(player_id) {
            return Some("{\"state\":\"queued\"}".to_string());
        }
        None
    }

    /// The counters as they stand.
    pub fn counters(&self) -> (counters: Counters)
        ensures
            counters == self@.counters(),
    {
        Counters {
            players_enqueued: self.players_enqueued,
            players_matched: self.players_matched,
            matches_created: self.matches_created,
            enqueue_rejections: self.enqueue_rejections,
            total_wait_ms: self.total_wait_ms,
            total_skill_diff: self.total_skill_diff,
            total_skill_spread: self.total_skill_spread,
            total_enqueue_ns: self.total_enqueue_ns,
        }
    }

    /// The counters in JSON, for a service that has been up for `uptime`.
    pub fn metrics_json(&self, uptime: Duration) -> (text: String)
        ensures
            text@ == metrics_text(self@.counters(), uptime@ / NANOS_PER_MILLI as nat),
    {
        self.counters().metrics_json(uptime)
    }

    /// The newest matches, at most `limit`, in JSON.
    pub fn recent_matches_json(&self, limit: usize) -> (text: String)
        ensures
            text@ == recent_text(self@, limit as nat),
    {
        let ghost shown = first_of(self@.recent_matches, limit as int);
        let ghost texts = shown.map_values(|m: MatchView| match_text(m));
        let mut body = "{\"matches\":[".to_string();
        assert("{\"matches\":["@ + listed(texts.take(0)) =~= "{\"matches\":["@);
        assert(self.recent_matches.deep_view().len() == self.recent_matches.len());
        let count: usize = if self.recent_matches.len() <= limit {
            self.recent_matches.len()
        } else {
            limit
        };
        for i in 0..count
            invariant
                count == texts.len(),
                count <= self.recent_matches.len(),
                shown == first_of(self.recent_matches.deep_view(), limit as int),
                texts == shown.map_values(|m: MatchView| match_text(m)),
                body@ == "{\"matches\":["@ + listed(texts.take(i as int)),
        {
            let ghost earlier = listed(texts.take(i as int));
            if i > 0 {
                body.push(',');
            }
            body.append(match_record_json(&self.recent_matches[i]).as_str());
            proof {
                assert(texts[i as int] == match_text(self.recent_matches.deep_view()[i as int]));
                assert(texts.take(i + 1).drop_last() =~= texts.take(i as int));
                if i > 0 {
                    assert(body@ =~= "{\"matches\":["@ + (earlier.push(',') + texts[i as int]));
                } else {
                    assert(body@ =~= "{\"matches\":["@ + texts[i as int]);
                }
            }
        }
        assert(texts.take(texts.len() as int) =~= texts);
        body.append("]}");
        body
    }

    /// How many requests were accepted.
    pub fn players_enqueued(&self) -> (count: u64)
        ensures
            count == self@.players_enqueued,
    {
        self.players_enqueued
    }

    /// How many players were put into matches.
    pub fn players_matched(&self) -> (count: u64)
        ensures
            count == self@.players_matched,
    {
        self.players_matched
    }

    /// How many players wait.
    pub fn waiting_len(&self) -> (count: usize)
        ensures
            count == self@.waiting_ids.len(),
    {
        self.waiting_ids.len()
    }
}

} // verus!
