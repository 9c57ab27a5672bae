//! Why every step of the engine keeps its state in order.
use crate::balance::{best_split, in_team_a, side, total_skill};
use crate::config::{BUCKET_COUNT, MATCH_SIZE, MAX_SKILL};
use crate::player::{request_fault, PlayerAssignment, PlayerView, RequestView, Team};
use crate::pool::{
    assigned, counted, distinct_ids, high_bucket, ids_of, low_bucket, stands_between, without,
    MatchmakerView,
};
use crate::rules::{bucket_of, compatible};
use crate::selection::{lemma_ranked_in_order, players_between, ranked, slot};
use vstd::arithmetic::div_mod::{lemma_add_mod_noop, lemma_mul_mod_noop_left};
use vstd::prelude::*;

verus! {

pub(crate) proof fn lemma_fresh_wf()
    ensures
        MatchmakerView::fresh().wf(),
{
}

/// Counters outside the invariant may change.
pub(crate) proof fn lemma_same_players_wf(pool: MatchmakerView, other: MatchmakerView)
    requires
        pool.wf(),
        other.buckets == pool.buckets,
        other.waiting_ids == pool.waiting_ids,
        other.assignments == pool.assignments,
        other.recent_matches == pool.recent_matches,
        other.players_enqueued == pool.players_enqueued,
        other.players_matched == pool.players_matched,
        other.matches_created == pool.matches_created,
    ensures
        other.wf(),
{
    assert(forall|b: int, i: int| #[trigger] other.occupied(b, i) == pool.occupied(b, i));
    assert forall|id: Seq<char>| #[trigger] other.waiting_ids.contains(id) implies other.stands(
        id,
    ) by {
        assert(pool.stands(id));
        let (b, i) = choose|b: int, i: int|
            #![trigger pool.buckets[b][i]]
            pool.occupied(b, i) && pool.buckets[b][i].id == id;
        assert(other.occupied(b, i) && other.buckets[b][i].id == id);
    }
}

pub(crate) proof fn lemma_id_among(players: Seq<PlayerView>)
    ensures
        forall|i: int| 0 <= i < players.len() ==> ids_of(players).contains((#[trigger] players[i]).id),
        forall|id: Seq<char>| #[trigger]
            ids_of(players).contains(id) ==> exists|i: int|
                0 <= i < players.len() && (#[trigger] players[i]).id == id,
{
    let names = players.map_values(|p: PlayerView| p.id);
    assert forall|i: int| 0 <= i < players.len() implies ids_of(players).contains(
        (#[trigger] players[i]).id,
    ) by {
        assert(names[i] == players[i].id);
    }
    assert forall|id: Seq<char>| #[trigger] ids_of(players).contains(id) implies exists|i: int|
        0 <= i < players.len() && (#[trigger] players[i]).id == id by {
        let i = choose|i: int| 0 <= i < names.len() && names[i] == id;
        assert(players[i].id == id);
    }
}

/// The last player adds one name.
pub(crate) proof fn lemma_ids_of_last(players: Seq<PlayerView>)
    requires
        players.len() > 0,
    ensures
        ids_of(players) == ids_of(players.drop_last()).insert(players.last().id),
{
    let rest = players.drop_last();
    lemma_id_among(players);
    lemma_id_among(rest);
    assert forall|id: Seq<char>| #[trigger] ids_of(players).contains(id) <==> ids_of(rest).insert(
        players.last().id,
    ).contains(id) by {
        if ids_of(players).contains(id) {
            let i = choose|i: int| 0 <= i < players.len() && (#[trigger] players[i]).id == id;
            if i < rest.len() {
                assert(rest[i].id == id);
            }
        }
        if ids_of(rest).contains(id) {
            let i = choose|i: int| 0 <= i < rest.len() && (#[trigger] rest[i]).id == id;
            assert(players[i].id == id);
        }
        if id == players.last().id {
            assert(players[players.len() - 1].id == id);
        }
    }
    assert(ids_of(players) =~= ids_of(rest).insert(players.last().id));
}

pub(crate) proof fn lemma_enqueued_wf(pool: MatchmakerView, request: RequestView, now: nat)
    requires
        pool.wf(),
        request_fault(request) is None,
        !pool.knows(request.player_id),
    ensures
        pool.enqueued(request, now).wf(),
{
    let next = pool.enqueued(request, now);
    let bucket = bucket_of(request.skill as int);
    let place = pool.buckets[bucket].len() as int;
    assert(next.buckets[bucket][place] == pool.newcomer(request, now));
    assert forall|b: int, i: int|
        #![trigger next.buckets[b][i]]
        next.occupied(b, i) && !(b == bucket && i == place) implies pool.occupied(b, i)
        && next.buckets[b][i] == pool.buckets[b][i] by {}
    assert forall|id: Seq<char>| #[trigger] next.waiting_ids.contains(id) implies next.stands(
        id,
    ) by {
        if id == request.player_id {
            assert(next.occupied(bucket, place));
        } else {
            assert(pool.waiting_ids.contains(id));
            let (b, i) = choose|b: int, i: int|
                #![trigger pool.buckets[b][i]]
                pool.occupied(b, i) && pool.buckets[b][i].id == id;
            assert(next.occupied(b, i));
            assert(next.buckets[b][i] == pool.buckets[b][i]);
        }
    }
    assert(next.unique_names()) by {
        assert forall|b: int, i: int, c: int, j: int|
            #![trigger next.buckets[b][i], next.buckets[c][j]]
            next.occupied(b, i) && next.occupied(c, j) && next.buckets[b][i].id
                == next.buckets[c][j].id implies b == c && i == j by {
            if !(b == bucket && i == place) {
                assert(pool.waiting_ids.contains(pool.buckets[b][i].id));
            }
            if !(c == bucket && j == place) {
                assert(pool.waiting_ids.contains(pool.buckets[c][j].id));
            }
        }
    }
}

/// What stands between two buckets is what stands in them.
pub(crate) proof fn lemma_players_between(pool: MatchmakerView, low: int, end: int)
    requires
        0 <= low <= end <= pool.buckets.len(),
        pool.unique_names(),
    ensures
        forall|k: int|
            0 <= k < players_between(pool.buckets, low, end).len() ==> stands_between(
                pool,
                low,
                end,
                #[trigger] players_between(pool.buckets, low, end)[k],
            ),
        forall|b: int, i: int|
            low <= b < end && pool.occupied(b, i) ==> players_between(
                pool.buckets,
                low,
                end,
            ).contains(#[trigger] pool.buckets[b][i]),
        distinct_ids(players_between(pool.buckets, low, end)),
    decreases end - low,
{
    let all = players_between(pool.buckets, low, end);
    if low == end {
        assert(pool.buckets.subrange(low, end) =~= seq![]);
        assert(all =~= seq![]);
    } else {
        lemma_players_between(pool, low, end - 1);
        let before = players_between(pool.buckets, low, end - 1);
        let queue = pool.buckets[end - 1];
        assert(pool.buckets.subrange(low, end) =~= pool.buckets.subrange(low, end - 1).push(queue));
        pool.buckets.subrange(low, end - 1).lemma_flatten_push(queue);
        assert(all == before + queue);
        assert forall|k: int| 0 <= k < all.len() implies stands_between(
            pool,
            low,
            end,
            #[trigger] all[k],
        ) by {
            if k < before.len() {
                assert(all[k] == before[k]);
                let (b, i) = choose|b: int, i: int|
                    #![trigger pool.buckets[b][i]]
                    low <= b < end - 1 && pool.occupied(b, i) && pool.buckets[b][i] == before[k];
                assert(pool.buckets[b][i] == all[k]);
            } else {
                let i = k - before.len();
                assert(pool.occupied(end - 1, i) && pool.buckets[end - 1][i] == all[k]);
            }
        }
        assert forall|b: int, i: int| low <= b < end && pool.occupied(b, i) implies all.contains(
            #[trigger] pool.buckets[b][i],
        ) by {
            if b < end - 1 {
                assert(before.contains(pool.buckets[b][i]));
                let k = choose|k: int| 0 <= k < before.len() && before[k] == pool.buckets[b][i];
                assert(all[k] == pool.buckets[b][i]);
            } else {
                assert(all[before.len() + i] == pool.buckets[b][i]);
            }
        }
        assert forall|x: int, y: int| 0 <= x < y < all.len() implies (#[trigger] all[x]).id != (
        #[trigger] all[y]).id by {
            if y < before.len() {
                assert(all[x] == before[x] && all[y] == before[y]);
            } else if x >= before.len() {
                assert(pool.occupied(end - 1, x - before.len()));
                assert(pool.occupied(end - 1, y - before.len()));
                assert(all[x] == pool.buckets[end - 1][x - before.len()]);
                assert(all[y] == pool.buckets[end - 1][y - before.len()]);
            } else {
                assert(all[x] == before[x]);
                let (b, i) = choose|b: int, i: int|
                    #![trigger pool.buckets[b][i]]
                    low <= b < end - 1 && pool.occupied(b, i) && pool.buckets[b][i] == before[x];
                assert(pool.occupied(end - 1, y - before.len()));
                assert(all[y] == pool.buckets[end - 1][y - before.len()]);
            }
        }
    }
}

/// A filter keeps names distinct and lets nothing in.
pub(crate) proof fn lemma_filter_keeps(players: Seq<PlayerView>, keep: spec_fn(PlayerView) -> bool)
    ensures
        distinct_ids(players) ==> distinct_ids(players.filter(keep)),
        forall|k: int|
            0 <= k < players.filter(keep).len() ==> keep(#[trigger] players.filter(keep)[k])
                && exists|i: int| 0 <= i < players.len() && players[i] == players.filter(keep)[k],
        forall|i: int|
            0 <= i < players.len() && keep(players[i]) ==> players.filter(keep).contains(
                #[trigger] players[i],
            ),
    decreases players.len(),
{
    reveal(Seq::filter);
    let kept = players.filter(keep);
    if players.len() > 0 {
        let rest = players.drop_last();
        lemma_filter_keeps(rest, keep);
        let rest_kept = rest.filter(keep);
        assert(forall|i: int| 0 <= i < rest.len() ==> rest[i] == players[i]);
        assert forall|k: int| 0 <= k < kept.len() implies keep(#[trigger] kept[k]) && exists|i: int|
            0 <= i < players.len() && players[i] == kept[k] by {
            if k < rest_kept.len() {
                assert(kept[k] == rest_kept[k]);
                let i = choose|i: int| 0 <= i < rest.len() && rest[i] == rest_kept[k];
                assert(players[i] == kept[k]);
            } else {
                assert(kept[k] == players[players.len() - 1]);
            }
        }
        assert forall|i: int| 0 <= i < players.len() && keep(players[i]) implies kept.contains(
            #[trigger] players[i],
        ) by {
            if i < rest.len() {
                assert(rest_kept.contains(rest[i]));
                let k = choose|k: int| 0 <= k < rest_kept.len() && rest_kept[k] == rest[i];
                assert(kept[k] == players[i]);
            } else {
                assert(kept[kept.len() - 1] == players[i]);
            }
        }
        if distinct_ids(players) {
            assert(distinct_ids(rest));
            assert forall|x: int, y: int| 0 <= x < y < kept.len() implies (#[trigger] kept[x]).id
                != (#[trigger] kept[y]).id by {
                assert(kept[x] == rest_kept[x]);
                if y < rest_kept.len() {
                    assert(kept[y] == rest_kept[y]);
                } else {
                    let i = choose|i: int| 0 <= i < rest.len() && rest[i] == rest_kept[x];
                    assert(players[i].id != players[players.len() - 1].id);
                }
            }
        }
    }
}

/// A filter that keeps everyone changes nothing.
proof fn lemma_filter_all(players: Seq<PlayerView>, keep: spec_fn(PlayerView) -> bool)
    requires
        forall|i: int| 0 <= i < players.len() ==> keep(#[trigger] players[i]),
    ensures
        players.filter(keep) == players,
    decreases players.len(),
{
    reveal(Seq::filter);
    if players.len() > 0 {
        let rest = players.drop_last();
        assert forall|i: int| 0 <= i < rest.len() implies keep(#[trigger] rest[i]) by {
            assert(rest[i] == players[i]);
        }
        assert(keep(players[players.len() - 1]));
        lemma_filter_all(rest, keep);
        assert(rest.push(players.last()) =~= players);
    }
}

/// A lobby picked from some buckets has no player in any other.
pub(crate) proof fn lemma_others_untouched(
    pool: MatchmakerView,
    low: int,
    end: int,
    lobby: Seq<PlayerView>,
    bucket: int,
)
    requires
        pool.unique_names(),
        forall|k: int|
            0 <= k < lobby.len() ==> stands_between(pool, low, end, #[trigger] lobby[k]),
        0 <= bucket < pool.buckets.len(),
        bucket < low || end <= bucket,
    ensures
        without(pool.buckets[bucket], ids_of(lobby)) == pool.buckets[bucket],
{
    let gone = ids_of(lobby);
    let stays = |p: PlayerView| !gone.contains(p.id);
    let queue = pool.buckets[bucket];
    lemma_id_among(lobby);
    assert forall|i: int| 0 <= i < queue.len() implies stays(#[trigger] queue[i]) by {
        if gone.contains(queue[i].id) {
            let k = choose|k: int| 0 <= k < lobby.len() && (#[trigger] lobby[k]).id == queue[i].id;
            let (b, j) = choose|b: int, j: int|
                #![trigger pool.buckets[b][j]]
                low <= b < end && pool.occupied(b, j) && pool.buckets[b][j] == lobby[k];
            assert(pool.occupied(bucket, i) && pool.buckets[bucket][i] == queue[i]);
        }
    }
    lemma_filter_all(queue, stays);
}

/// Ranking moves players and changes nothing else.
pub(crate) proof fn lemma_ranked_keeps(anchor: PlayerView, now: nat, players: Seq<PlayerView>)
    ensures
        ranked(anchor, now, players).to_multiset() == players.to_multiset(),
        ranked(anchor, now, players).len() == players.len(),
        forall|x: PlayerView|
            ranked(anchor, now, players).contains(x) <==> players.contains(x),
        distinct_ids(players) ==> distinct_ids(ranked(anchor, now, players)),
    decreases players.len(),
{
    broadcast use vstd::seq_lib::to_multiset_contains;

    let line = ranked(anchor, now, players);
    if players.len() > 0 {
        let rest = players.drop_last();
        let last = players.last();
        lemma_ranked_keeps(anchor, now, rest);
        lemma_ranked_in_order(anchor, now, rest);
        let shorter = ranked(anchor, now, rest);
        let at = slot(anchor, now, shorter, last);
        crate::selection::lemma_slot(anchor, now, shorter, last);
        vstd::seq_lib::to_multiset_insert(shorter, at, last);
        vstd::seq_lib::to_multiset_build(rest, last);
        assert(rest.push(last) =~= players);
        if distinct_ids(players) {
            assert(distinct_ids(rest));
            assert forall|i: int| 0 <= i < shorter.len() implies (#[trigger] shorter[i]).id
                != last.id by {
                assert(shorter.contains(shorter[i]));
                assert(rest.contains(shorter[i]));
                let k = choose|k: int| 0 <= k < rest.len() && rest[k] == shorter[i];
                assert(players[k].id != players[players.len() - 1].id);
            }
            assert forall|x: int, y: int| 0 <= x < y < line.len() implies (#[trigger] line[x]).id
                != (#[trigger] line[y]).id by {
                let ox = if x < at { x } else { x - 1 };
                let oy = if y < at { y } else { y - 1 };
                assert(x != at ==> line[x] == shorter[ox]);
                assert(y != at ==> line[y] == shorter[oy]);
            }
        }
    }
    assert forall|x: PlayerView| line.contains(x) <==> players.contains(x) by {
        assert(line.to_multiset().count(x) == players.to_multiset().count(x));
    }
}

/// The lobby around the first player of a bucket: enough players, all of them
/// waiting in reach of the first, no two the same.
pub(crate) proof fn lemma_lobby(pool: MatchmakerView, bucket: int, now: nat)
    requires
        pool.wf(),
        0 <= bucket < BUCKET_COUNT,
        pool.buckets[bucket].len() > 0,
    ensures
        ({
            let anchor = pool.buckets[bucket][0];
            let picks = pool.picks_for(bucket, now);
            &&& 0 <= low_bucket(anchor, now) <= bucket <= high_bucket(anchor, now) < BUCKET_COUNT
            &&& distinct_ids(picks)
            &&& picks.len() <= MATCH_SIZE
            &&& forall|k: int|
                0 <= k < picks.len() ==> compatible(anchor, #[trigger] picks[k], now)
                    && stands_between(
                    pool,
                    low_bucket(anchor, now),
                    high_bucket(anchor, now) + 1,
                    picks[k],
                )
        }),
{
    let anchor = pool.buckets[bucket][0];
    assert(pool.occupied(bucket, 0));
    let low = low_bucket(anchor, now);
    let end = high_bucket(anchor, now) + 1;
    let fits = |p: PlayerView| compatible(anchor, p, now);
    let near = players_between(pool.buckets, low, end);
    let found = pool.candidates_for(bucket, now);
    let line = ranked(anchor, now, found);
    let picks = pool.picks_for(bucket, now);
    assert(0 <= low <= bucket < end <= BUCKET_COUNT);
    lemma_players_between(pool, low, end);
    lemma_filter_keeps(near, fits);
    lemma_ranked_keeps(anchor, now, found);
    assert forall|k: int| 0 <= k < picks.len() implies compatible(anchor, #[trigger] picks[k], now)
        && stands_between(pool, low, end, picks[k]) by {
        assert(picks[k] == line[k]);
        assert(line.contains(line[k]));
        assert(found.contains(line[k]));
        let j = choose|j: int| 0 <= j < found.len() && found[j] == line[k];
        assert(fits(found[j]));
        let m = choose|m: int| 0 <= m < near.len() && near[m] == found[j];
        assert(stands_between(pool, low, end, near[m]));
    }
    assert forall|x: int, y: int| 0 <= x < y < picks.len() implies (#[trigger] picks[x]).id != (
    #[trigger] picks[y]).id by {
        assert(picks[x] == line[x] && picks[y] == line[y]);
    }
}

/// Valid ratings add up to little.
pub(crate) proof fn lemma_total_skill_bound(players: Seq<PlayerView>)
    requires
        forall|i: int| 0 <= i < players.len() ==> (#[trigger] players[i]).skill <= MAX_SKILL,
    ensures
        total_skill(players) <= players.len() * MAX_SKILL,
    decreases players.len(),
{
    if players.len() > 0 {
        lemma_total_skill_bound(players.drop_last());
    }
}

/// The players of a team are among those of the lobby.
pub(crate) proof fn lemma_side_members(players: Seq<PlayerView>, split: u16, a: bool)
    ensures
        forall|k: int|
            0 <= k < side(players, split, a).len() ==> exists|i: int|
                0 <= i < players.len() && in_team_a(split, i) == a && (
                #[trigger] players[i]) == #[trigger] side(players, split, a)[k],
        forall|i: int|
            0 <= i < players.len() && in_team_a(split, i) == a ==> side(
                players,
                split,
                a,
            ).contains(#[trigger] players[i]),
    decreases players.len(),
{
    if players.len() > 0 {
        let rest = players.drop_last();
        lemma_side_members(rest, split, a);
        let team = side(players, split, a);
        let rest_team = side(rest, split, a);
        assert(forall|i: int| 0 <= i < rest.len() ==> rest[i] == players[i]);
        assert forall|k: int| 0 <= k < team.len() implies exists|i: int|
            0 <= i < players.len() && in_team_a(split, i) == a && (
            #[trigger] players[i]) == #[trigger] team[k] by {
            if k < rest_team.len() {
                assert(team[k] == rest_team[k]);
                let i = choose|i: int|
                    0 <= i < rest.len() && in_team_a(split, i) == a && (
                    #[trigger] rest[i]) == rest_team[k];
                assert(players[i] == team[k]);
            } else {
                assert(players[players.len() - 1] == team[k]);
            }
        }
        assert forall|i: int|
            0 <= i < players.len() && in_team_a(split, i)
                == a implies team.contains(#[trigger] players[i]) by {
            if i < rest.len() {
                assert(rest_team.contains(rest[i]));
                let k = choose|k: int| 0 <= k < rest_team.len() && rest_team[k] == rest[i];
                assert(team[k] == players[i]);
            } else {
                assert(team[team.len() - 1] == players[i]);
            }
        }
    }
}

/// Who is assigned after `players` were placed.
pub(crate) proof fn lemma_assigned(
    assignments: Map<Seq<char>, PlayerAssignment>,
    players: Seq<PlayerView>,
    place: PlayerAssignment,
)
    ensures
        forall|id: Seq<char>| #[trigger]
            assigned(assignments, players, place).contains_key(id) <==> assignments.contains_key(id)
                || ids_of(players).contains(id),
        forall|id: Seq<char>|
            ids_of(players).contains(id) ==> #[trigger] assigned(assignments, players, place)[id]
                == place,
        forall|id: Seq<char>|
            !ids_of(players).contains(id) ==> #[trigger] assigned(assignments, players, place)[id]
                == assignments[id],
    decreases players.len(),
{
    lemma_id_among(players);
    if players.len() > 0 {
        let rest = players.drop_last();
        lemma_assigned(assignments, rest, place);
        lemma_ids_of_last(players);
    }
}

/// The names of the two teams are those of the lobby.
pub(crate) proof fn lemma_teams_cover(lobby: Seq<PlayerView>, split: u16)
    ensures
        forall|id: Seq<char>| #[trigger]
            ids_of(lobby).contains(id) <==> ids_of(side(lobby, split, true)).contains(id) || ids_of(
                side(lobby, split, false),
            ).contains(id),
        distinct_ids(lobby) ==> forall|id: Seq<char>|
            !(#[trigger] ids_of(side(lobby, split, true)).contains(id) && ids_of(
                side(lobby, split, false),
            ).contains(id)),
{
    let a = side(lobby, split, true);
    let b = side(lobby, split, false);
    lemma_id_among(lobby);
    lemma_id_among(a);
    lemma_id_among(b);
    lemma_side_members(lobby, split, true);
    lemma_side_members(lobby, split, false);
    assert forall|id: Seq<char>| #[trigger] ids_of(lobby).contains(id) implies ids_of(a).contains(
        id,
    ) || ids_of(b).contains(id) by {
        let i = choose|i: int| 0 <= i < lobby.len() && (#[trigger] lobby[i]).id == id;
        if in_team_a(split, i) {
            assert(a.contains(lobby[i]));
        } else {
            assert(b.contains(lobby[i]));
        }
    }
    assert forall|id: Seq<char>|
        distinct_ids(lobby) && #[trigger] ids_of(a).contains(id) implies !ids_of(b).contains(
        id,
    ) by {
        if ids_of(b).contains(id) {
            let x = choose|k: int| 0 <= k < a.len() && (#[trigger] a[k]).id == id;
            let y = choose|k: int| 0 <= k < b.len() && (#[trigger] b[k]).id == id;
            let i = choose|i: int|
                0 <= i < lobby.len() && in_team_a(split, i) && (#[trigger] lobby[i])
                    == a[x];
            let j = choose|j: int|
                0 <= j < lobby.len() && !in_team_a(split, j) && (#[trigger] lobby[j])
                    == b[y];
            if i < j {
                assert(lobby[i].id != lobby[j].id);
            } else {
                assert(lobby[j].id != lobby[i].id);
            }
        }
    }
}

/// Who stands in the buckets after the players of `lobby` left them.
pub(crate) proof fn lemma_evicted(pool: MatchmakerView, lobby: Seq<PlayerView>)
    requires
        pool.sorted_into_buckets(),
        pool.unique_names(),
    ensures
        pool.evicted(lobby).sorted_into_buckets(),
        pool.evicted(lobby).unique_names(),
        forall|b: int, k: int|
            #![trigger pool.evicted(lobby).buckets[b][k]]
            pool.evicted(lobby).occupied(b, k) ==> !ids_of(lobby).contains(
                pool.evicted(lobby).buckets[b][k].id,
            ) && exists|i: int|
                pool.occupied(b, i) && #[trigger] pool.buckets[b][i] == pool.evicted(
                    lobby,
                ).buckets[b][k],
        forall|b: int, i: int|
            #![trigger pool.buckets[b][i]]
            pool.occupied(b, i) && !ids_of(lobby).contains(pool.buckets[b][i].id)
                ==> pool.evicted(lobby).buckets[b].contains(pool.buckets[b][i]),
{
    let gone = ids_of(lobby);
    let next = pool.evicted(lobby);
    let stays = |p: PlayerView| !gone.contains(p.id);
    assert forall|b: int| 0 <= b < pool.buckets.len() implies #[trigger] next.buckets[b]
        == pool.buckets[b].filter(stays) by {}
    assert forall|b: int, k: int|
        #![trigger next.buckets[b][k]]
        next.occupied(b, k) implies !gone.contains(next.buckets[b][k].id) && exists|i: int|
        pool.occupied(b, i) && #[trigger] pool.buckets[b][i] == next.buckets[b][k] by {
        lemma_filter_keeps(pool.buckets[b], stays);
        assert(stays(pool.buckets[b].filter(stays)[k]));
        let i = choose|i: int|
            0 <= i < pool.buckets[b].len() && pool.buckets[b][i] == pool.buckets[b].filter(
                stays,
            )[k];
        assert(pool.occupied(b, i));
        assert(pool.buckets[b][i] == next.buckets[b][k]);
    }
    assert forall|b: int, i: int|
        #![trigger pool.buckets[b][i]]
        pool.occupied(b, i) && !gone.contains(
            pool.buckets[b][i].id,
        ) implies next.buckets[b].contains(pool.buckets[b][i]) by {
        lemma_filter_keeps(pool.buckets[b], stays);
        assert(stays(pool.buckets[b][i]));
    }
    assert forall|b: int, k: int, c: int, m: int|
        #![trigger next.buckets[b][k], next.buckets[c][m]]
        next.occupied(b, k) && next.occupied(c, m) && next.buckets[b][k].id
            == next.buckets[c][m].id implies b == c && k == m by {
        let i = choose|i: int|
            pool.occupied(b, i) && #[trigger] pool.buckets[b][i] == next.buckets[b][k];
        let j = choose|j: int|
            pool.occupied(c, j) && #[trigger] pool.buckets[c][j] == next.buckets[c][m];
        assert(b == c && i == j);
        let queue = pool.buckets[b];
        assert(distinct_ids(queue)) by {
            assert forall|x: int, y: int| 0 <= x < y < queue.len() implies (#[trigger] queue[x]).id
                != (#[trigger] queue[y]).id by {
                assert(pool.occupied(b, x) && pool.occupied(b, y));
                assert(pool.buckets[b][x].id != pool.buckets[b][y].id);
            }
        }
        lemma_filter_keeps(queue, stays);
        assert(distinct_ids(next.buckets[b]));
    }
}

/// As many waiting names go as the lobby has players.
proof fn lemma_names_gone(waiting: Set<Seq<char>>, lobby: Seq<PlayerView>)
    requires
        waiting.finite(),
        distinct_ids(lobby),
        forall|k: int| 0 <= k < lobby.len() ==> waiting.contains((#[trigger] lobby[k]).id),
    ensures
        waiting.difference(ids_of(lobby)).finite(),
        waiting.difference(ids_of(lobby)).len() + lobby.len() == waiting.len(),
{
    let gone = ids_of(lobby);
    lemma_id_among(lobby);
    assert forall|id: Seq<char>| #[trigger] gone.contains(id) implies waiting.contains(id) by {
        let i = choose|i: int| 0 <= i < lobby.len() && (#[trigger] lobby[i]).id == id;
    }
    let names = lobby.map_values(|p: PlayerView| p.id);
    assert forall|i: int, j: int|
        0 <= i < names.len() && 0 <= j < names.len() && i != j implies names[i] != names[j] by {
        if i < j {
            assert(lobby[i].id != lobby[j].id);
        } else {
            assert(lobby[j].id != lobby[i].id);
        }
    }
    names.unique_seq_to_set();
    let left = waiting.difference(gone);
    vstd::seq_lib::seq_to_set_is_finite(names);
    vstd::set_lib::lemma_len_subset(left, waiting);
    assert(left.union(gone) =~= waiting);
    vstd::set_lib::lemma_set_disjoint_lens(left, gone);
}

/// Counting the players of a match keeps the counters in agreement.
proof fn lemma_counters_agree(
    enqueued: u64,
    matched: u64,
    matches: u64,
    waiting: nat,
    left: nat,
)
    requires
        enqueued == counted(matched, waiting),
        matched == counted(0, matches as nat * MATCH_SIZE as nat),
        left + MATCH_SIZE == waiting,
    ensures
        enqueued == counted(counted(matched, MATCH_SIZE as nat), left),
        counted(matched, MATCH_SIZE as nat) == counted(
            0,
            counted(matches, 1) as nat * MATCH_SIZE as nat,
        ),
{
    let limit: int = 0x1_0000_0000_0000_0000;
    let size = MATCH_SIZE as int;
    lemma_add_mod_noop(matched + size, left as int, limit);
    assert((counted(matched, MATCH_SIZE as nat) + left) % limit == (matched + size + left) % limit);
    lemma_add_mod_noop(matches * size, size, limit);
    lemma_mul_mod_noop_left(matches + 1, size, limit);
    assert((matches + 1) * size == matches * size + size) by (nonlinear_arith);
}

/// Forming a match keeps the state in order.
pub(crate) proof fn lemma_match_wf(
    pool: MatchmakerView,
    lobby: Seq<PlayerView>,
    now: nat,
    epoch_ms: u128,
)
    requires
        pool.wf(),
        lobby.len() == MATCH_SIZE,
        distinct_ids(lobby),
        forall|k: int| 0 <= k < lobby.len() ==> pool.waiting_ids.contains((#[trigger] lobby[k]).id),
    ensures
        pool.evicted(lobby).recorded(lobby, now, epoch_ms).wf(),
        pool.evicted(lobby).recorded(lobby, now, epoch_ms).waiting_ids.len()
            == pool.waiting_ids.len() - MATCH_SIZE,
{
    let gone = ids_of(lobby);
    let middle = pool.evicted(lobby);
    let next = middle.recorded(lobby, now, epoch_ms);
    assert(next.buckets == middle.buckets);
    lemma_evicted(pool, lobby);
    lemma_names_gone(pool.waiting_ids, lobby);
    assert(next.sorted_into_buckets()) by {
        assert forall|b: int, i: int|
            #![trigger next.buckets[b][i]]
            next.occupied(b, i) implies next.buckets[b][i].skill <= MAX_SKILL && bucket_of(
            next.buckets[b][i].skill as int,
        ) == b by {
            assert(middle.occupied(b, i));
        }
    }
    assert(next.unique_names()) by {
        assert forall|b: int, i: int, c: int, j: int|
            #![trigger next.buckets[b][i], next.buckets[c][j]]
            next.occupied(b, i) && next.occupied(c, j) && next.buckets[b][i].id
                == next.buckets[c][j].id implies b == c && i == j by {
            assert(middle.occupied(b, i) && middle.occupied(c, j));
        }
    }
    assert forall|b: int, i: int|
        #![trigger next.buckets[b][i]]
        next.occupied(b, i) implies next.waiting_ids.contains(next.buckets[b][i].id) by {
        assert(middle.occupied(b, i));
        let j = choose|j: int|
            pool.occupied(b, j) && #[trigger] pool.buckets[b][j] == middle.buckets[b][i];
        assert(pool.waiting_ids.contains(pool.buckets[b][j].id));
    }
    assert forall|id: Seq<char>| #[trigger] next.waiting_ids.contains(id) implies next.stands(
        id,
    ) by {
        assert(pool.waiting_ids.contains(id));
        let (b, i) = choose|b: int, i: int|
            #![trigger pool.buckets[b][i]]
            pool.occupied(b, i) && pool.buckets[b][i].id == id;
        assert(middle.buckets[b].contains(pool.buckets[b][i]));
        let k = choose|k: int|
            0 <= k < next.buckets[b].len() && next.buckets[b][k] == pool.buckets[b][i];
        assert(next.occupied(b, k) && next.buckets[b][k].id == id);
    }
    assert(next.waiting_or_playing()) by {
        let split = best_split(lobby);
        let place_a = PlayerAssignment { match_id: pool.next_match_id, team: Team::A };
        let place_b = PlayerAssignment { match_id: pool.next_match_id, team: Team::B };
        let first = assigned(pool.assignments, side(lobby, split, true), place_a);
        lemma_assigned(pool.assignments, side(lobby, split, true), place_a);
        lemma_assigned(first, side(lobby, split, false), place_b);
        lemma_teams_cover(lobby, split);
    }
    lemma_counters_agree(
        pool.players_enqueued,
        pool.players_matched,
        pool.matches_created,
        pool.waiting_ids.len(),
        next.waiting_ids.len(),
    );
}

} // verus!
