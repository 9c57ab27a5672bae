//! The steps of the engine: what each of them changes, and what adds up over all.
use crate::balance::{best_split, side, total_skill};
use crate::config::{BUCKET_COUNT, MATCH_SIZE};
use crate::invariants::lemma_id_among;
use crate::laws::matches::{law_figures_of_a_match, law_lobby, law_newest_match_comes_first};
use crate::laws::teams::law_teams_share_the_lobby;
use crate::player::{members, MatchView, PlayerView, RequestView};
use crate::pool::{counted, ids_of, total_wait, MatchmakerView};
use crate::rules::{bucket_of, wait_millis};
use vstd::arithmetic::div_mod::lemma_add_mod_noop;
use vstd::prelude::*;

verus! {

/// A counter goes up by what is counted, and starts over behind its highest value.
pub proof fn law_counting(counter: u64, n: nat)
    ensures
        counter + n <= u64::MAX ==> counted(counter, n) == counter + n,
        u64::MAX < counter + n <= 2 * u64::MAX + 1 ==> counted(counter, n) == counter + n
            - u64::MAX - 1,
{
    let limit: int = 0x1_0000_0000_0000_0000;
    let sum = counter + n;
    if limit <= sum < 2 * limit {
        assert(sum % limit == sum - limit) by (nonlinear_arith)
            requires
                limit <= sum < 2 * limit,
        ;
    }
}

/// An engine starts with empty buckets, nobody waiting or playing, numbers from
/// one on, and nothing counted.
pub proof fn law_a_fresh_engine()
    ensures
        ({
            let pool = MatchmakerView::fresh();
            &&& pool.buckets.len() == 51
            &&& forall|b: int| 0 <= b < 51 ==> (#[trigger] pool.buckets[b]).len() == 0
            &&& forall|id: Seq<char>| !(#[trigger] pool.waiting_ids.contains(id))
            &&& forall|id: Seq<char>| !(#[trigger] pool.assignments.contains_key(id))
            &&& pool.recent_matches.len() == 0
            &&& pool.next_player_seq == 1
            &&& pool.next_match_id == 1
            &&& pool.players_enqueued == 0
            &&& pool.players_matched == 0
            &&& pool.matches_created == 0
            &&& pool.enqueue_rejections == 0
            &&& pool.total_wait_ms == 0
            &&& pool.total_skill_diff == 0
            &&& pool.total_skill_spread == 0
            &&& pool.total_enqueue_ns == 0
        }),
{
}

/// An accepted request puts one player to the end of one bucket, with what the
/// request says, the time and the next number; it makes one more name wait and
/// one more player counted. Nothing else changes.
pub proof fn law_joining(pool: MatchmakerView, request: RequestView, now: nat)
    requires
        pool.wf(),
        request.skill <= 5000,
    ensures
        ({
            let next = pool.enqueued(request, now);
            let at = request.skill as int / 100;
            &&& next.buckets.len() == pool.buckets.len()
            &&& next.buckets[at].len() == pool.buckets[at].len() + 1
            &&& next.buckets[at].drop_last() == pool.buckets[at]
            &&& next.buckets[at].last().id == request.player_id
            &&& next.buckets[at].last().skill == request.skill
            &&& next.buckets[at].last().region == request.region
            &&& next.buckets[at].last().mode == request.mode
            &&& next.buckets[at].last().enqueued_at == now
            &&& next.buckets[at].last().seq == pool.next_player_seq
            &&& forall|b: int|
                0 <= b < pool.buckets.len() && b != at ==> #[trigger] next.buckets[b]
                    == pool.buckets[b]
            &&& forall|id: Seq<char>| #[trigger]
                next.waiting_ids.contains(id) <==> pool.waiting_ids.contains(id) || id
                    == request.player_id
            &&& next.assignments == pool.assignments
            &&& next.recent_matches == pool.recent_matches
            &&& next.next_match_id == pool.next_match_id
            &&& pool.next_player_seq < u64::MAX ==> next.next_player_seq == pool.next_player_seq + 1
            &&& pool.players_enqueued < u64::MAX ==> next.players_enqueued == pool.players_enqueued
                + 1
            &&& next.players_matched == pool.players_matched
            &&& next.matches_created == pool.matches_created
            &&& next.enqueue_rejections == pool.enqueue_rejections
            &&& next.total_wait_ms == pool.total_wait_ms
            &&& next.total_skill_diff == pool.total_skill_diff
            &&& next.total_skill_spread == pool.total_skill_spread
            &&& next.total_enqueue_ns == pool.total_enqueue_ns
        }),
{
    let next = pool.enqueued(request, now);
    let at = request.skill as int / 100;
    assert(bucket_of(request.skill as int) == at);
    assert(next.buckets[at].drop_last() =~= pool.buckets[at]);
}

/// A refusal because the player is known is counted, and changes nothing else.
pub proof fn law_refusing(pool: MatchmakerView)
    ensures
        ({
            let next = pool.rejected();
            &&& pool.enqueue_rejections < u64::MAX ==> next.enqueue_rejections
                == pool.enqueue_rejections + 1
            &&& next == MatchmakerView { enqueue_rejections: next.enqueue_rejections, ..pool }
        }),
{
}

/// The time that accepting a request took is added to the time so far, and
/// changes nothing else.
pub proof fn law_timing(pool: MatchmakerView, nanos: nat)
    ensures
        ({
            let next = pool.timed(nanos);
            &&& pool.total_enqueue_ns + nanos <= u64::MAX ==> next.total_enqueue_ns
                == pool.total_enqueue_ns + nanos
            &&& next == MatchmakerView { total_enqueue_ns: next.total_enqueue_ns, ..pool }
        }),
{
}

/// Without a lobby nothing changes.
pub proof fn law_no_lobby_no_change(pool: MatchmakerView, bucket: int, now: nat, epoch_ms: u128)
    requires
        pool.lobby_for(bucket, now) is None,
    ensures
        pool.attempted(bucket, now, epoch_ms) == pool,
{
}

/// A match counts as one match and as ten players, and adds its difference, its
/// spread and the waits of its players to what is added up. It takes the next
/// number. What is counted of requests stays.
pub proof fn law_forming(pool: MatchmakerView, bucket: int, now: nat, epoch_ms: u128)
    requires
        pool.wf(),
        0 <= bucket < BUCKET_COUNT,
        now <= u64::MAX,
        pool.lobby_for(bucket, now) is Some,
    ensures
        ({
            let lobby = pool.lobby_for(bucket, now)->0;
            let next = pool.attempted(bucket, now, epoch_ms);
            let record = next.recent_matches[0];
            &&& record.id == pool.next_match_id
            &&& record.created_epoch_ms == epoch_ms
            &&& pool.next_match_id < u64::MAX ==> next.next_match_id == pool.next_match_id + 1
            &&& pool.matches_created < u64::MAX ==> next.matches_created == pool.matches_created + 1
            &&& pool.players_matched + 10 <= u64::MAX ==> next.players_matched
                == pool.players_matched + 10
            &&& pool.total_skill_diff + record.skill_diff <= u64::MAX ==> next.total_skill_diff
                == pool.total_skill_diff + record.skill_diff
            &&& pool.total_skill_spread + record.skill_spread <= u64::MAX
                ==> next.total_skill_spread == pool.total_skill_spread + record.skill_spread
            &&& pool.total_wait_ms + total_wait(lobby, now) <= u64::MAX ==> next.total_wait_ms
                == pool.total_wait_ms + total_wait(lobby, now)
            &&& next.next_player_seq == pool.next_player_seq
            &&& next.players_enqueued == pool.players_enqueued
            &&& next.enqueue_rejections == pool.enqueue_rejections
            &&& next.total_enqueue_ns == pool.total_enqueue_ns
        }),
{
    law_newest_match_comes_first(pool, bucket, now, epoch_ms);
}

/// The waits of several players are the waits of each, added up.
pub proof fn law_waits_add_up(players: Seq<PlayerView>, player: PlayerView, now: nat)
    ensures
        total_wait(Seq::empty(), now) == 0,
        total_wait(players.push(player), now) == total_wait(players, now) + wait_millis(
            player.enqueued_at,
            now,
        ),
{
    assert(players.push(player).drop_last() =~= players);
}

/// The ratings of several players are the ratings of each, added up.
pub proof fn law_ratings_add_up(players: Seq<PlayerView>, player: PlayerView)
    ensures
        total_skill(Seq::empty()) == 0,
        total_skill(players.push(player)) == total_skill(players) + player.skill,
{
    assert(players.push(player).drop_last() =~= players);
}

/// What a match says of its teams: each has five members, with the names and
/// ratings of the players of that side in their order; the difference of a match
/// is what the ratings of one team add up to more than those of the other; the
/// average wait is the tenth part of all waits.
pub proof fn law_what_a_match_says(pool: MatchmakerView, bucket: int, now: nat, epoch_ms: u128)
    requires
        pool.wf(),
        0 <= bucket < BUCKET_COUNT,
        now <= u64::MAX,
        pool.lobby_for(bucket, now) is Some,
    ensures
        ({
            let lobby = pool.lobby_for(bucket, now)->0;
            let team_a = side(lobby, best_split(lobby), true);
            let team_b = side(lobby, best_split(lobby), false);
            let record = pool.attempted(bucket, now, epoch_ms).recent_matches[0];
            let strength_a = total_skill(team_a) as int;
            let strength_b = total_skill(team_b) as int;
            &&& record.team_a.len() == 5
            &&& record.team_b.len() == 5
            &&& forall|i: int|
                0 <= i < 5 ==> (#[trigger] record.team_a[i]).id == team_a[i].id
                    && record.team_a[i].skill == team_a[i].skill
            &&& forall|i: int|
                0 <= i < 5 ==> (#[trigger] record.team_b[i]).id == team_b[i].id
                    && record.team_b[i].skill == team_b[i].skill
            &&& record.skill_diff == if strength_a < strength_b {
                strength_b - strength_a
            } else {
                strength_a - strength_b
            }
            &&& forall|i: int, j: int|
                #![trigger lobby[i], lobby[j]]
                0 <= i < 10 && 0 <= j < 10 ==> lobby[i].skill - lobby[j].skill
                    <= record.skill_spread
            &&& exists|i: int, j: int|
                #![trigger lobby[i], lobby[j]]
                0 <= i < 10 && 0 <= j < 10 && lobby[i].skill - lobby[j].skill
                    == record.skill_spread
            &&& 10 * record.average_wait_ms <= total_wait(lobby, now)
            &&& total_wait(lobby, now) < 10 * record.average_wait_ms + 10
        }),
{
    let lobby = pool.lobby_for(bucket, now)->0;
    law_lobby(pool, bucket, now);
    law_newest_match_comes_first(pool, bucket, now, epoch_ms);
    law_figures_of_a_match(pool, bucket, now, epoch_ms);
    law_teams_share_the_lobby(lobby);
    let high = choose|i: int|
        0 <= i < MATCH_SIZE && (#[trigger] lobby[i]).skill == crate::pool::highest_skill(lobby);
    let low = choose|i: int|
        0 <= i < MATCH_SIZE && (#[trigger] lobby[i]).skill == crate::pool::lowest_skill(lobby);
    let record = pool.attempted(bucket, now, epoch_ms).recent_matches[0];
    assert(lobby[high].skill - lobby[low].skill == record.skill_spread);
}

/// What a team keeps of its players: names and ratings, in their order.
pub proof fn law_members_keep_name_and_rating(players: Seq<PlayerView>, i: int)
    requires
        0 <= i < players.len(),
    ensures
        members(players).len() == players.len(),
        members(players)[i].id == players[i].id,
        members(players)[i].skill == players[i].skill,
{
}

/// Who stays in a bucket when a match forms: those of other names, each where
/// they stood among each other.
pub proof fn law_who_stays(pool: MatchmakerView, bucket: int, now: nat, epoch_ms: u128, b: int)
    requires
        pool.wf(),
        0 <= bucket < BUCKET_COUNT,
        pool.lobby_for(bucket, now) is Some,
        0 <= b < BUCKET_COUNT,
    ensures
        ({
            let lobby = pool.lobby_for(bucket, now)->0;
            let taken = |p: PlayerView| exists|k: int|
                0 <= k < lobby.len() && (#[trigger] lobby[k]).id == p.id;
            pool.attempted(bucket, now, epoch_ms).buckets[b] == pool.buckets[b].filter(
                |p: PlayerView| !taken(p),
            )
        }),
{
    let lobby = pool.lobby_for(bucket, now)->0;
    let taken = |p: PlayerView| exists|k: int|
        0 <= k < lobby.len() && (#[trigger] lobby[k]).id == p.id;
    let stays = |p: PlayerView| !taken(p);
    let gone = ids_of(lobby);
    let named = |p: PlayerView| !gone.contains(p.id);
    lemma_id_among(lobby);
    assert forall|p: PlayerView| #[trigger] stays(p) == named(p) by {
        if gone.contains(p.id) {
            let k = choose|k: int| 0 <= k < lobby.len() && (#[trigger] lobby[k]).id == p.id;
            assert(lobby[k].id == p.id);
        }
    }
    assert(stays =~= named);
}

/// A figure of all matches, added up.
pub open spec fn summed(history: Seq<MatchView>, figure: spec_fn(MatchView) -> nat) -> nat
    decreases history.len(),
{
    if history.len() == 0 {
        0
    } else {
        summed(history.drop_last(), figure) + figure(history.last())
    }
}

/// `history` holds the matches that the state has seen, the oldest first: they
/// are numbered from one on, the recent ones are the last of them, and the
/// counters tell how many they are, how many players they had, and what their
/// differences and their spreads add up to.
pub open spec fn has_seen(pool: MatchmakerView, history: Seq<MatchView>) -> bool {
    &&& history.len() < u64::MAX
    &&& pool.matches_created == history.len()
    &&& pool.next_match_id == history.len() + 1
    &&& forall|i: int| 0 <= i < history.len() ==> (#[trigger] history[i]).id == i + 1
    &&& pool.recent_matches.len() == if history.len() < 100 {
        history.len()
    } else {
        100
    }
    &&& forall|i: int|
        0 <= i < pool.recent_matches.len() ==> #[trigger] pool.recent_matches[i]
            == history[history.len() - 1 - i]
    &&& pool.total_skill_diff == counted(0, summed(history, |m: MatchView| m.skill_diff as nat))
    &&& pool.total_skill_spread == counted(0, summed(history, |m: MatchView| m.skill_spread as nat))
}

proof fn lemma_counted_on(sum: nat, more: nat)
    ensures
        counted(counted(0, sum), more) == counted(0, sum + more),
{
    let limit: int = 0x1_0000_0000_0000_0000;
    lemma_add_mod_noop(sum as int, more as int, limit);
    assert((sum as int % limit) % limit == sum as int % limit);
    assert((sum as int % limit + more as int) % limit == (sum as int + more as int) % limit) by {
        lemma_add_mod_noop(sum as int % limit, more as int, limit);
    }
}

/// The state tells its own history: an unused engine has seen no match, a step
/// that forms none adds none, and a match that forms is the last that was seen.
pub proof fn law_history(
    pool: MatchmakerView,
    history: Seq<MatchView>,
    request: RequestView,
    now: nat,
    nanos: nat,
    bucket: int,
    epoch_ms: u128,
)
    requires
        pool.wf(),
        has_seen(pool, history),
        history.len() + 1 < u64::MAX,
        0 <= bucket < BUCKET_COUNT,
    ensures
        has_seen(MatchmakerView::fresh(), Seq::empty()),
        has_seen(pool.enqueued(request, now), history),
        has_seen(pool.rejected(), history),
        has_seen(pool.timed(nanos), history),
        match pool.lobby_for(bucket, now) {
            None => has_seen(pool.attempted(bucket, now, epoch_ms), history),
            Some(lobby) => has_seen(
                pool.attempted(bucket, now, epoch_ms),
                history.push(pool.match_of(lobby, now, epoch_ms)),
            ),
        },
{
    let diff = |m: MatchView| m.skill_diff as nat;
    let spread = |m: MatchView| m.skill_spread as nat;
    if let Some(lobby) = pool.lobby_for(bucket, now) {
        let next = pool.attempted(bucket, now, epoch_ms);
        let record = pool.match_of(lobby, now, epoch_ms);
        let longer = history.push(record);
        law_newest_match_comes_first(pool, bucket, now, epoch_ms);
        assert(longer.drop_last() =~= history);
        lemma_counted_on(summed(history, diff), record.skill_diff as nat);
        lemma_counted_on(summed(history, spread), record.skill_spread as nat);
        assert forall|i: int| 0 <= i < next.recent_matches.len() implies
            #[trigger] next.recent_matches[i] == longer[longer.len() - 1 - i] by {
            if i > 0 {
                assert(next.recent_matches[i] == pool.recent_matches[i - 1]);
            }
        }
        assert forall|i: int| 0 <= i < longer.len() implies (#[trigger] longer[i]).id == i + 1 by {
            if i < history.len() {
                assert(longer[i] == history[i]);
            }
        }
        assert(summed(longer, diff) == summed(history, diff) + record.skill_diff as nat);
        assert(summed(longer, spread) == summed(history, spread) + record.skill_spread as nat);
    }
}

} // verus!
