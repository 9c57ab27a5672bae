//! Matches: who enters one leaves the queue with the others, for good.
use crate::balance::{best_split, side, skill_gap};
use crate::config::{BUCKET_COUNT, MATCH_SIZE, MAX_SKILL, RECENT_MATCH_LIMIT};
use crate::invariants::{
    lemma_assigned, lemma_enqueued_wf, lemma_fresh_wf, lemma_id_among, lemma_lobby, lemma_match_wf,
    lemma_players_between, lemma_same_players_wf, lemma_teams_cover, lemma_total_skill_bound,
};
use crate::counters::waiting_count;
use crate::json::state_text;
use crate::laws::teams::law_teams_share_the_lobby;
use crate::player::{request_fault, PlayerAssignment, PlayerView, RequestView, Team};
use crate::pool::{
    assigned, distinct_ids, high_bucket, highest_skill, ids_of, low_bucket, lowest_skill,
    stands_between, total_wait, without, MatchmakerView,
};
use crate::rules::compatible;
use crate::selection::players_between;
use crate::text::decimal;
use vstd::prelude::*;

verus! {

/// The lobby that forms around the first player of a bucket: ten players with
/// different names, that player among them, all of them waiting, none of them
/// playing yet, and all fit for that player, of the same region and mode.
pub proof fn law_lobby(pool: MatchmakerView, bucket: int, now: nat)
    requires
        pool.wf(),
        0 <= bucket < BUCKET_COUNT,
        pool.lobby_for(bucket, now) is Some,
    ensures
        ({
            let anchor = pool.buckets[bucket][0];
            let lobby = pool.lobby_for(bucket, now)->0;
            &&& lobby.len() == MATCH_SIZE
            &&& distinct_ids(lobby)
            &&& lobby.contains(anchor)
            &&& forall|k: int|
                0 <= k < MATCH_SIZE ==> {
                    let player = #[trigger] lobby[k];
                    &&& stands_between(pool, 0, BUCKET_COUNT as int, player)
                    &&& pool.waiting_ids.contains(player.id)
                    &&& !pool.assignments.contains_key(player.id)
                    &&& player.skill <= MAX_SKILL
                    &&& player.region == anchor.region
                    &&& player.mode == anchor.mode
                    &&& compatible(anchor, player, now)
                }
        }),
{
    let anchor = pool.buckets[bucket][0];
    let lobby = pool.lobby_for(bucket, now)->0;
    assert(pool.occupied(bucket, 0));
    lemma_lobby(pool, bucket, now);
    let low = low_bucket(anchor, now);
    let end = high_bucket(anchor, now) + 1;
    assert forall|k: int| 0 <= k < MATCH_SIZE implies {
        let player = #[trigger] lobby[k];
        &&& stands_between(pool, 0, BUCKET_COUNT as int, player)
        &&& pool.waiting_ids.contains(player.id)
        &&& !pool.assignments.contains_key(player.id)
        &&& player.skill <= MAX_SKILL
        &&& player.region == anchor.region
        &&& player.mode == anchor.mode
        &&& compatible(anchor, player, now)
    } by {
        assert(stands_between(pool, low, end, lobby[k]));
        let (b, i) = choose|b: int, i: int|
            #![trigger pool.buckets[b][i]]
            low <= b < end && pool.occupied(b, i) && pool.buckets[b][i] == lobby[k];
        assert(pool.buckets[b][i].id == lobby[k].id);
    }
    lemma_id_among(lobby);
    let k = choose|k: int| 0 <= k < lobby.len() && (#[trigger] lobby[k]).id == anchor.id;
    let (b, i) = choose|b: int, i: int|
        #![trigger pool.buckets[b][i]]
        0 <= b < BUCKET_COUNT && pool.occupied(b, i) && pool.buckets[b][i] == lobby[k];
    assert(pool.buckets[b][i].id == pool.buckets[bucket][0].id);
    assert(lobby[k] == anchor);
}

/// Every step keeps the state in order: nobody waits in two places, nobody both
/// waits and plays, everyone stands in the bucket of their rating, the counters
/// agree.
pub proof fn law_state_stays_in_order(
    pool: MatchmakerView,
    request: RequestView,
    now: nat,
    nanos: nat,
    bucket: int,
    epoch_ms: u128,
)
    requires
        pool.wf(),
        0 <= bucket < BUCKET_COUNT,
    ensures
        MatchmakerView::fresh().wf(),
        request_fault(request) is None && !pool.knows(request.player_id) ==> pool.enqueued(
            request,
            now,
        ).wf(),
        pool.rejected().wf(),
        pool.timed(nanos).wf(),
        pool.attempted(bucket, now, epoch_ms).wf(),
{
    lemma_fresh_wf();
    if request_fault(request) is None && !pool.knows(request.player_id) {
        lemma_enqueued_wf(pool, request, now);
    }
    lemma_same_players_wf(pool, pool.rejected());
    lemma_same_players_wf(pool, pool.timed(nanos));
    if let Some(lobby) = pool.lobby_for(bucket, now) {
        law_lobby(pool, bucket, now);
        assert forall|k: int| 0 <= k < lobby.len() implies pool.waiting_ids.contains(
            (#[trigger] lobby[k]).id,
        ) by {}
        lemma_match_wf(pool, lobby, now, epoch_ms);
    }
}

/// The ten players of a match leave the queue together, and nobody else does:
/// the others stand where they stood, in the same order.
pub proof fn law_ten_leave_together(pool: MatchmakerView, bucket: int, now: nat, epoch_ms: u128)
    requires
        pool.wf(),
        0 <= bucket < BUCKET_COUNT,
        pool.lobby_for(bucket, now) is Some,
    ensures
        ({
            let lobby = pool.lobby_for(bucket, now)->0;
            let next = pool.attempted(bucket, now, epoch_ms);
            &&& next.waiting_ids.len() + MATCH_SIZE == pool.waiting_ids.len()
            &&& forall|id: Seq<char>| #[trigger]
                next.waiting_ids.contains(id) <==> pool.waiting_ids.contains(id) && !ids_of(
                    lobby,
                ).contains(id)
            &&& forall|b: int|
                0 <= b < BUCKET_COUNT ==> #[trigger] next.buckets[b] == without(
                    pool.buckets[b],
                    ids_of(lobby),
                )
        }),
{
    let lobby = pool.lobby_for(bucket, now)->0;
    law_lobby(pool, bucket, now);
    assert forall|k: int| 0 <= k < lobby.len() implies pool.waiting_ids.contains(
        (#[trigger] lobby[k]).id,
    ) by {}
    lemma_match_wf(pool, lobby, now, epoch_ms);
}

/// Where a player plays after an attempt: the players of the new match in the
/// team that holds them, everyone else where they played before.
pub proof fn law_places_in_a_match(
    pool: MatchmakerView,
    bucket: int,
    now: nat,
    epoch_ms: u128,
    id: Seq<char>,
)
    requires
        pool.wf(),
        0 <= bucket < BUCKET_COUNT,
        pool.lobby_for(bucket, now) is Some,
    ensures
        ({
            let lobby = pool.lobby_for(bucket, now)->0;
            let team_a = side(lobby, best_split(lobby), true);
            let team_b = side(lobby, best_split(lobby), false);
            let next = pool.attempted(bucket, now, epoch_ms);
            &&& ids_of(lobby).contains(id) <==> ids_of(team_a).contains(id) || ids_of(
                team_b,
            ).contains(id)
            &&& !(ids_of(team_a).contains(id) && ids_of(team_b).contains(id))
            &&& next.assignments.contains_key(id) <==> pool.assignments.contains_key(id) || ids_of(
                lobby,
            ).contains(id)
            &&& ids_of(team_a).contains(id) ==> next.assignments[id] == (PlayerAssignment {
                match_id: pool.next_match_id,
                team: Team::A,
            })
            &&& ids_of(team_b).contains(id) ==> next.assignments[id] == (PlayerAssignment {
                match_id: pool.next_match_id,
                team: Team::B,
            })
            &&& !ids_of(lobby).contains(id) ==> next.assignments[id] == pool.assignments[id]
        }),
{
    let lobby = pool.lobby_for(bucket, now)->0;
    let split = best_split(lobby);
    let place_a = PlayerAssignment { match_id: pool.next_match_id, team: Team::A };
    let place_b = PlayerAssignment { match_id: pool.next_match_id, team: Team::B };
    law_lobby(pool, bucket, now);
    lemma_teams_cover(lobby, split);
    let first = assigned(pool.assignments, side(lobby, split, true), place_a);
    lemma_assigned(pool.assignments, side(lobby, split, true), place_a);
    lemma_assigned(first, side(lobby, split, false), place_b);
    if ids_of(side(lobby, split, true)).contains(id) {
        assert(!ids_of(side(lobby, split, false)).contains(id));
    }
}

/// Nobody is ever placed into a second match: whoever plays keeps their place
/// through every step.
pub proof fn law_places_are_kept(
    pool: MatchmakerView,
    request: RequestView,
    now: nat,
    bucket: int,
    epoch_ms: u128,
    id: Seq<char>,
)
    requires
        pool.wf(),
        0 <= bucket < BUCKET_COUNT,
        pool.assignments.contains_key(id),
    ensures
        pool.attempted(bucket, now, epoch_ms).assignments.contains_key(id),
        pool.attempted(bucket, now, epoch_ms).assignments[id] == pool.assignments[id],
        pool.enqueued(request, now).assignments == pool.assignments,
{
    if let Some(lobby) = pool.lobby_for(bucket, now) {
        law_places_in_a_match(pool, bucket, now, epoch_ms, id);
        law_lobby(pool, bucket, now);
        lemma_id_among(lobby);
        if ids_of(lobby).contains(id) {
            let k = choose|k: int| 0 <= k < lobby.len() && (#[trigger] lobby[k]).id == id;
            assert(!pool.assignments.contains_key(lobby[k].id));
        }
    }
}

/// A player who waits or plays does so through every step, so that a second
/// request of the same name is refused from then on.
pub proof fn law_known_players_stay_known(
    pool: MatchmakerView,
    request: RequestView,
    now: nat,
    nanos: nat,
    bucket: int,
    epoch_ms: u128,
    id: Seq<char>,
)
    requires
        pool.wf(),
        0 <= bucket < BUCKET_COUNT,
        pool.knows(id) || id == request.player_id,
    ensures
        pool.enqueued(request, now).knows(id),
        pool.knows(id) ==> pool.rejected().knows(id),
        pool.knows(id) ==> pool.timed(nanos).knows(id),
        pool.knows(id) ==> pool.attempted(bucket, now, epoch_ms).knows(id),
{
    if pool.lobby_for(bucket, now) is Some {
        law_places_in_a_match(pool, bucket, now, epoch_ms, id);
        law_ten_leave_together(pool, bucket, now, epoch_ms);
    }
}

/// What is told of a player: after joining, that they are queued; after a
/// match formed with them, its number and their team.
pub proof fn law_told_state(
    pool: MatchmakerView,
    request: RequestView,
    now: nat,
    bucket: int,
    epoch_ms: u128,
    k: int,
)
    requires
        pool.wf(),
        0 <= bucket < BUCKET_COUNT,
        0 <= k < MATCH_SIZE,
    ensures
        !pool.knows(request.player_id) ==> state_text(pool, request.player_id) is None,
        !pool.knows(request.player_id) ==> state_text(
            pool.enqueued(request, now),
            request.player_id,
        ) == Some("{\"state\":\"queued\"}"@),
        pool.lobby_for(bucket, now) matches Some(lobby) ==> {
            let team = if ids_of(side(lobby, best_split(lobby), true)).contains(lobby[k].id) {
                Team::A
            } else {
                Team::B
            };
            state_text(pool.attempted(bucket, now, epoch_ms), lobby[k].id) == Some(
                "{\"state\":\"matched\",\"match_id\":"@ + decimal(pool.next_match_id as nat)
                    + ",\"team\":\""@ + team.name() + "\"}"@,
            )
        },
{
    if let Some(lobby) = pool.lobby_for(bucket, now) {
        law_lobby(pool, bucket, now);
        lemma_id_among(lobby);
        assert(ids_of(lobby).contains(lobby[k].id));
        law_places_in_a_match(pool, bucket, now, epoch_ms, lobby[k].id);
    }
}

/// A new match is the first of the recent ones, before those that were there;
/// only the latest hundred are kept.
pub proof fn law_newest_match_comes_first(
    pool: MatchmakerView,
    bucket: int,
    now: nat,
    epoch_ms: u128,
)
    requires
        pool.wf(),
        0 <= bucket < BUCKET_COUNT,
        pool.lobby_for(bucket, now) is Some,
    ensures
        ({
            let lobby = pool.lobby_for(bucket, now)->0;
            let next = pool.attempted(bucket, now, epoch_ms);
            &&& next.recent_matches[0] == pool.match_of(lobby, now, epoch_ms)
            &&& next.recent_matches.len() == if pool.recent_matches.len() < RECENT_MATCH_LIMIT {
                pool.recent_matches.len() + 1
            } else {
                RECENT_MATCH_LIMIT as nat
            }
            &&& forall|i: int|
                1 <= i < next.recent_matches.len() ==> #[trigger] next.recent_matches[i]
                    == pool.recent_matches[i - 1]
        }),
{
    let lobby = pool.lobby_for(bucket, now)->0;
    assert(pool.evicted(lobby).match_of(lobby, now, epoch_ms) == pool.match_of(
        lobby,
        now,
        epoch_ms,
    ));
}

/// All matches so far have numbers below the next one, the recent ones in
/// falling order.
pub open spec fn numbered_in_order(pool: MatchmakerView) -> bool {
    &&& forall|id: Seq<char>| #[trigger]
        pool.assignments.contains_key(id) ==> pool.assignments[id].match_id < pool.next_match_id
    &&& forall|i: int|
        0 <= i < pool.recent_matches.len() ==> (#[trigger] pool.recent_matches[i]).id
            < pool.next_match_id
    &&& forall|i: int, j: int|
        0 <= i < j < pool.recent_matches.len() ==> (#[trigger] pool.recent_matches[i]).id > (
        #[trigger] pool.recent_matches[j]).id
}

/// No two matches have the same number, as long as numbers last: each new one
/// gets a higher number than all before.
pub proof fn law_match_numbers_are_new(
    pool: MatchmakerView,
    request: RequestView,
    bucket: int,
    now: nat,
    epoch_ms: u128,
)
    requires
        pool.wf(),
        0 <= bucket < BUCKET_COUNT,
        numbered_in_order(pool),
        pool.next_match_id < u64::MAX,
    ensures
        numbered_in_order(MatchmakerView::fresh()),
        numbered_in_order(pool.enqueued(request, now)),
        numbered_in_order(pool.attempted(bucket, now, epoch_ms)),
{
    let next = pool.attempted(bucket, now, epoch_ms);
    if let Some(lobby) = pool.lobby_for(bucket, now) {
        assert forall|id: Seq<char>| #[trigger]
            next.assignments.contains_key(id) implies next.assignments[id].match_id
            < next.next_match_id by {
            law_places_in_a_match(pool, bucket, now, epoch_ms, id);
        }
        law_newest_match_comes_first(pool, bucket, now, epoch_ms);
        assert forall|i: int| 0 <= i < next.recent_matches.len() implies (
        #[trigger] next.recent_matches[i]).id < next.next_match_id by {
            if i > 0 {
                assert(next.recent_matches[i] == pool.recent_matches[i - 1]);
            }
        }
        assert forall|i: int, j: int| 0 <= i < j < next.recent_matches.len() implies (
        #[trigger] next.recent_matches[i]).id > (#[trigger] next.recent_matches[j]).id by {
            assert(next.recent_matches[j] == pool.recent_matches[j - 1]);
            if i > 0 {
                assert(next.recent_matches[i] == pool.recent_matches[i - 1]);
            }
        }
    }
}

proof fn lemma_extremes(players: Seq<PlayerView>)
    requires
        players.len() > 0,
    ensures
        forall|i: int|
            0 <= i < players.len() ==> lowest_skill(players) <= (#[trigger] players[i]).skill
                <= highest_skill(players),
        exists|i: int| 0 <= i < players.len() && (#[trigger] players[i]).skill == lowest_skill(players),
        exists|i: int|
            0 <= i < players.len() && (#[trigger] players[i]).skill == highest_skill(players),
    decreases players.len(),
{
    if players.len() == 1 {
        assert(players[0].skill == lowest_skill(players));
    } else {
        let rest = players.drop_last();
        lemma_extremes(rest);
        assert forall|i: int| 0 <= i < players.len() implies lowest_skill(players) <= (
        #[trigger] players[i]).skill <= highest_skill(players) by {
            if i < rest.len() {
                assert(rest[i] == players[i]);
            }
        }
        let low = choose|i: int|
            0 <= i < rest.len() && (#[trigger] rest[i]).skill == lowest_skill(rest);
        let high = choose|i: int|
            0 <= i < rest.len() && (#[trigger] rest[i]).skill == highest_skill(rest);
        assert(players[low] == rest[low] && players[high] == rest[high]);
        assert(players[players.len() - 1] == players.last());
    }
}

proof fn lemma_total_wait_bound(players: Seq<PlayerView>, now: nat)
    requires
        now <= u64::MAX,
    ensures
        total_wait(players, now) <= players.len() * (u64::MAX / 1_000_000),
    decreases players.len(),
{
    if players.len() > 0 {
        lemma_total_wait_bound(players.drop_last(), now);
    }
}

/// The figures of a match: the difference between the total ratings of its
/// teams, between its highest and its lowest rating, and the average wait.
pub proof fn law_figures_of_a_match(pool: MatchmakerView, bucket: int, now: nat, epoch_ms: u128)
    requires
        pool.wf(),
        0 <= bucket < BUCKET_COUNT,
        now <= u64::MAX,
        pool.lobby_for(bucket, now) is Some,
    ensures
        ({
            let lobby = pool.lobby_for(bucket, now)->0;
            let record = pool.match_of(lobby, now, epoch_ms);
            &&& record.id == pool.next_match_id
            &&& record.skill_diff == skill_gap(lobby, best_split(lobby))
            &&& record.skill_spread == highest_skill(lobby) - lowest_skill(lobby)
            &&& forall|i: int|
                0 <= i < MATCH_SIZE ==> lowest_skill(lobby) <= (#[trigger] lobby[i]).skill
                    <= highest_skill(lobby)
            &&& exists|i: int|
                0 <= i < MATCH_SIZE && (#[trigger] lobby[i]).skill == lowest_skill(lobby)
            &&& exists|i: int|
                0 <= i < MATCH_SIZE && (#[trigger] lobby[i]).skill == highest_skill(lobby)
            &&& record.average_wait_ms == total_wait(lobby, now) / MATCH_SIZE as nat
        }),
{
    let lobby = pool.lobby_for(bucket, now)->0;
    law_lobby(pool, bucket, now);
    assert forall|i: int| 0 <= i < lobby.len() implies (#[trigger] lobby[i]).skill <= MAX_SKILL by {}
    lemma_total_skill_bound(lobby);
    law_teams_share_the_lobby(lobby);
    lemma_extremes(lobby);
    lemma_total_wait_bound(lobby, now);
}

/// As many names wait as players stand in the buckets.
pub proof fn law_waiting_names_and_players(pool: MatchmakerView)
    requires
        pool.wf(),
    ensures
        ids_of(players_between(pool.buckets, 0, BUCKET_COUNT as int)) == pool.waiting_ids,
        players_between(pool.buckets, 0, BUCKET_COUNT as int).len() == pool.waiting_ids.len(),
{
    let all = players_between(pool.buckets, 0, BUCKET_COUNT as int);
    lemma_players_between(pool, 0, BUCKET_COUNT as int);
    lemma_id_among(all);
    assert forall|id: Seq<char>| #[trigger] ids_of(all).contains(id) <==> pool.waiting_ids.contains(
        id,
    ) by {
        if ids_of(all).contains(id) {
            let k = choose|k: int| 0 <= k < all.len() && (#[trigger] all[k]).id == id;
            assert(stands_between(pool, 0, BUCKET_COUNT as int, all[k]));
            let (b, i) = choose|b: int, i: int|
                #![trigger pool.buckets[b][i]]
                0 <= b < BUCKET_COUNT && pool.occupied(b, i) && pool.buckets[b][i] == all[k];
            assert(pool.waiting_ids.contains(pool.buckets[b][i].id));
        }
        if pool.waiting_ids.contains(id) {
            assert(pool.stands(id));
            let (b, i) = choose|b: int, i: int|
                #![trigger pool.buckets[b][i]]
                pool.occupied(b, i) && pool.buckets[b][i].id == id;
            assert(all.contains(pool.buckets[b][i]));
            let k = choose|k: int| 0 <= k < all.len() && all[k] == pool.buckets[b][i];
            assert(all[k].id == id);
        }
    }
    assert(ids_of(all) =~= pool.waiting_ids);
    let names = all.map_values(|p: PlayerView| p.id);
    assert forall|i: int, j: int|
        0 <= i < names.len() && 0 <= j < names.len() && i != j implies names[i] != names[j] by {
        if i < j {
            assert(all[i].id != all[j].id);
        } else {
            assert(all[j].id != all[i].id);
        }
    }
    names.unique_seq_to_set();
}

/// The counters tell how many players wait, unless they have wrapped around:
/// as many as were let in less those who were matched.
pub proof fn law_counters_tell_who_waits(pool: MatchmakerView)
    requires
        pool.wf(),
        pool.players_matched <= pool.players_enqueued,
        pool.waiting_ids.len() <= u64::MAX,
    ensures
        waiting_count(pool.counters()) == pool.waiting_ids.len(),
        pool.players_enqueued == pool.players_matched + pool.waiting_ids.len(),
{
    let limit: int = 0x1_0000_0000_0000_0000;
    let sum = pool.players_matched + pool.waiting_ids.len();
    if sum >= limit {
        assert(sum % limit == sum - limit) by (nonlinear_arith)
            requires
                limit <= sum < 2 * limit,
        ;
    }
}

/// The counters of players and of matches go together: ten players for every
/// match, unless the counter of players has wrapped around.
pub proof fn law_ten_players_per_match(pool: MatchmakerView)
    requires
        pool.wf(),
        pool.matches_created <= u64::MAX / 10,
    ensures
        pool.players_matched == pool.matches_created * MATCH_SIZE,
{
    let matched = pool.matches_created as nat * MATCH_SIZE as nat;
    assert(matched == pool.matches_created * 10);
    assert(matched < 0x1_0000_0000_0000_0000);
}

} // verus!
