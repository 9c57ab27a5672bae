//! The queue: in which order players wait, who is picked, and when.
use crate::clock::{elapsed, NANOS_PER_SEC};
use crate::config::{BUCKET_COUNT, MATCH_SIZE};
use crate::invariants::{
    lemma_filter_keeps, lemma_id_among, lemma_lobby, lemma_players_between, lemma_ranked_keeps,
};
use crate::laws::rules::{law_order_of_picking, law_range_reaches_everyone, law_who_fits_whom};
use crate::player::{request_fault, PlayerView, RequestView};
use crate::pool::{distinct_ids, high_bucket, ids_of, low_bucket, stands_between, MatchmakerView};
use crate::rules::{accepted_range, bucket_of, compatible, distance, range_at, rank, wait_millis};
use crate::selection::{
    in_order, lemma_ranked_in_order, lemma_slot, picked_no_later, players_between, ranked, slot,
};
use vstd::prelude::*;

verus! {

/// Each of `queue` came later than those before.
pub open spec fn oldest_first(queue: Seq<PlayerView>) -> bool {
    forall|i: int, j: int|
        0 <= i < j < queue.len() ==> (#[trigger] queue[i]).enqueued_at <= (
        #[trigger] queue[j]).enqueued_at && queue[i].seq < queue[j].seq
}

/// The players of every bucket stand in the order in which they came, none
/// after the time `now`; no two of all have the same number, and the next one is
/// still to be given out.
pub open spec fn in_order_of_arrival(pool: MatchmakerView, now: nat) -> bool {
    &&& forall|b: int|
        0 <= b < pool.buckets.len() ==> oldest_first(#[trigger] pool.buckets[b])
    &&& forall|b: int, i: int|
        #![trigger pool.buckets[b][i]]
        pool.occupied(b, i) ==> pool.buckets[b][i].enqueued_at <= now && pool.buckets[b][i].seq
            < pool.next_player_seq
    &&& forall|b: int, i: int, c: int, j: int|
        #![trigger pool.buckets[b][i], pool.buckets[c][j]]
        pool.occupied(b, i) && pool.occupied(c, j) && pool.buckets[b][i].seq
            == pool.buckets[c][j].seq ==> b == c && i == j
}

proof fn lemma_filter_oldest_first(queue: Seq<PlayerView>, keep: spec_fn(PlayerView) -> bool)
    requires
        oldest_first(queue),
    ensures
        oldest_first(queue.filter(keep)),
    decreases queue.len(),
{
    reveal(Seq::filter);
    if queue.len() > 0 {
        let rest = queue.drop_last();
        assert(forall|i: int| 0 <= i < rest.len() ==> rest[i] == queue[i]);
        lemma_filter_oldest_first(rest, keep);
        lemma_filter_keeps(rest, keep);
        let kept = queue.filter(keep);
        let rest_kept = rest.filter(keep);
        assert forall|i: int, j: int| 0 <= i < j < kept.len() implies (#[trigger] kept[i]).enqueued_at
            <= (#[trigger] kept[j]).enqueued_at && kept[i].seq < kept[j].seq by {
            assert(kept[i] == rest_kept[i]);
            if j < rest_kept.len() {
                assert(kept[j] == rest_kept[j]);
            } else {
                let m = choose|m: int| 0 <= m < rest.len() && rest[m] == rest_kept[i];
                assert(queue[m] == kept[i]);
                assert(kept[j] == queue[queue.len() - 1]);
            }
        }
    }
}

/// An unused engine is in order of arrival at any time.
pub proof fn law_order_of_arrival_starts(now: nat)
    ensures
        in_order_of_arrival(MatchmakerView::fresh(), now),
{
}

/// A newcomer joins behind all who came before, as long as numbers last and
/// time does not run backwards.
pub proof fn law_newcomers_join_at_the_end(
    pool: MatchmakerView,
    request: RequestView,
    now: nat,
    later: nat,
)
    requires
        pool.wf(),
        in_order_of_arrival(pool, now),
        now <= later,
        pool.next_player_seq < u64::MAX,
        request_fault(request) is None,
    ensures
        in_order_of_arrival(pool.enqueued(request, later), later),
        pool.enqueued(request, later).buckets[bucket_of(request.skill as int)].last()
            == pool.newcomer(request, later),
{
    let next = pool.enqueued(request, later);
    let bucket = bucket_of(request.skill as int);
    let place = pool.buckets[bucket].len() as int;
    assert forall|b: int, i: int|
        #![trigger next.buckets[b][i]]
        next.occupied(b, i) implies next.buckets[b][i].enqueued_at <= later
        && next.buckets[b][i].seq < next.next_player_seq by {
        if !(b == bucket && i == place) {
            assert(pool.occupied(b, i));
            assert(next.buckets[b][i] == pool.buckets[b][i]);
        }
    }
    assert forall|b: int| 0 <= b < next.buckets.len() implies oldest_first(
        #[trigger] next.buckets[b],
    ) by {
        assert(oldest_first(pool.buckets[b]));
        let queue = next.buckets[b];
        assert forall|i: int, j: int| 0 <= i < j < queue.len() implies (#[trigger] queue[i]).enqueued_at
            <= (#[trigger] queue[j]).enqueued_at && queue[i].seq < queue[j].seq by {
            assert(pool.occupied(b, i));
            assert(queue[i] == pool.buckets[b][i]);
            if !(b == bucket && j == place) {
                assert(queue[j] == pool.buckets[b][j]);
            }
        }
    }
    assert forall|b: int, i: int, c: int, j: int|
        #![trigger next.buckets[b][i], next.buckets[c][j]]
        next.occupied(b, i) && next.occupied(c, j) && next.buckets[b][i].seq
            == next.buckets[c][j].seq implies b == c && i == j by {
        if !(b == bucket && i == place) {
            assert(pool.occupied(b, i));
            assert(next.buckets[b][i] == pool.buckets[b][i]);
        }
        if !(c == bucket && j == place) {
            assert(pool.occupied(c, j));
            assert(next.buckets[c][j] == pool.buckets[c][j]);
        }
    }
}

/// Forming a match keeps the others in the order in which they came.
pub proof fn law_the_others_keep_their_order(
    pool: MatchmakerView,
    bucket: int,
    now: nat,
    epoch_ms: u128,
)
    requires
        in_order_of_arrival(pool, now),
    ensures
        in_order_of_arrival(pool.attempted(bucket, now, epoch_ms), now),
{
    let next = pool.attempted(bucket, now, epoch_ms);
    if let Some(lobby) = pool.lobby_for(bucket, now) {
        let gone = ids_of(lobby);
        let stays = |p: PlayerView| !gone.contains(p.id);
        assert forall|b: int| 0 <= b < pool.buckets.len() implies #[trigger] next.buckets[b]
            == pool.buckets[b].filter(stays) by {}
        assert forall|b: int| 0 <= b < next.buckets.len() implies oldest_first(
            #[trigger] next.buckets[b],
        ) by {
            assert(oldest_first(pool.buckets[b]));
            lemma_filter_oldest_first(pool.buckets[b], stays);
        }
        assert forall|b: int, i: int|
            #![trigger next.buckets[b][i]]
            next.occupied(b, i) implies exists|m: int|
            pool.occupied(b, m) && #[trigger] pool.buckets[b][m] == next.buckets[b][i] by {
            lemma_filter_keeps(pool.buckets[b], stays);
            assert(next.buckets[b] == pool.buckets[b].filter(stays));
            let m = choose|m: int|
                0 <= m < pool.buckets[b].len() && pool.buckets[b][m] == pool.buckets[b].filter(
                    stays,
                )[i];
            assert(pool.occupied(b, m) && pool.buckets[b][m] == next.buckets[b][i]);
        }
        assert forall|b: int, i: int, c: int, j: int|
            #![trigger next.buckets[b][i], next.buckets[c][j]]
            next.occupied(b, i) && next.occupied(c, j) && next.buckets[b][i].seq
                == next.buckets[c][j].seq implies b == c && i == j by {
            let m = choose|m: int|
                pool.occupied(b, m) && #[trigger] pool.buckets[b][m] == next.buckets[b][i];
            let n = choose|n: int|
                pool.occupied(c, n) && #[trigger] pool.buckets[c][n] == next.buckets[c][j];
            assert(b == c && m == n);
            assert(oldest_first(next.buckets[b]));
        }
    }
}

/// The candidates around the first player of a bucket are the players who fit
/// and stand in a bucket in reach, each once. Whoever fits by the distance that
/// the first player accepts stands in such a bucket.
pub proof fn law_candidates(pool: MatchmakerView, bucket: int, now: nat, player: PlayerView)
    requires
        pool.wf(),
        0 <= bucket < BUCKET_COUNT,
        pool.buckets[bucket].len() > 0,
    ensures
        ({
            let anchor = pool.buckets[bucket][0];
            let low = low_bucket(anchor, now);
            let high = high_bucket(anchor, now);
            let found = pool.candidates_for(bucket, now);
            &&& distinct_ids(found)
            &&& found.contains(player) <==> compatible(anchor, player, now) && stands_between(
                pool,
                low,
                high + 1,
                player,
            )
            &&& stands_between(pool, 0, BUCKET_COUNT as int, player) && distance(
                anchor.skill as int,
                player.skill as int,
            ) <= range_at(anchor, now) ==> stands_between(pool, low, high + 1, player)
        }),
{
    let anchor = pool.buckets[bucket][0];
    assert(pool.occupied(bucket, 0));
    let low = low_bucket(anchor, now);
    let end = high_bucket(anchor, now) + 1;
    let fits = |p: PlayerView| compatible(anchor, p, now);
    let near = players_between(pool.buckets, low, end);
    let found = pool.candidates_for(bucket, now);
    lemma_lobby(pool, bucket, now);
    lemma_players_between(pool, low, end);
    lemma_filter_keeps(near, fits);
    if found.contains(player) {
        let j = choose|j: int| 0 <= j < found.len() && found[j] == player;
        assert(fits(near.filter(fits)[j]));
        let m = choose|m: int| 0 <= m < near.len() && near[m] == near.filter(fits)[j];
        assert(stands_between(pool, low, end, near[m]));
    }
    if compatible(anchor, player, now) && stands_between(pool, low, end, player) {
        let (b, i) = choose|b: int, i: int|
            #![trigger pool.buckets[b][i]]
            low <= b < end && pool.occupied(b, i) && pool.buckets[b][i] == player;
        assert(near.contains(pool.buckets[b][i]));
        let m = choose|m: int| 0 <= m < near.len() && near[m] == player;
        assert(fits(near[m]));
        assert(found.contains(near[m]));
    }
    if stands_between(pool, 0, BUCKET_COUNT as int, player) && distance(
        anchor.skill as int,
        player.skill as int,
    ) <= range_at(anchor, now) {
        let (b, i) = choose|b: int, i: int|
            #![trigger pool.buckets[b][i]]
            0 <= b < BUCKET_COUNT && pool.occupied(b, i) && pool.buckets[b][i] == player;
        assert(bucket_of(player.skill as int) == b);
        assert(low <= b < end);
        assert(stands_between(pool, low, end, player));
    }
}

/// Those of `players` who have the rank `place`, in their order.
pub open spec fn ranked_at(
    anchor: PlayerView,
    now: nat,
    players: Seq<PlayerView>,
    place: (u32, u64, u64),
) -> Seq<PlayerView> {
    players.filter(|p: PlayerView| rank(anchor, p, now) == place)
}

/// Ranking sorts: the players are the same, they are in the order of picking,
/// and those of equal rank keep their order.
pub proof fn law_ranking_sorts(
    anchor: PlayerView,
    now: nat,
    players: Seq<PlayerView>,
    place: (u32, u64, u64),
)
    ensures
        ranked(anchor, now, players).to_multiset() == players.to_multiset(),
        in_order(anchor, now, ranked(anchor, now, players)),
        ranked_at(anchor, now, ranked(anchor, now, players), place) == ranked_at(
            anchor,
            now,
            players,
            place,
        ),
    decreases players.len(),
{
    lemma_ranked_in_order(anchor, now, players);
    lemma_ranked_keeps(anchor, now, players);
    if players.len() > 0 {
        let here = |p: PlayerView| rank(anchor, p, now) == place;
        let rest = players.drop_last();
        let last = players.last();
        law_ranking_sorts(anchor, now, rest, place);
        let line = ranked(anchor, now, rest);
        let at = slot(anchor, now, line, last);
        lemma_slot(anchor, now, line, last);
        let front = line.take(at);
        let back = line.skip(at);
        assert(line =~= front + back);
        assert(line.insert(at, last) =~= front.push(last) + back);
        Seq::filter_distributes_over_add(front, back, here);
        Seq::filter_distributes_over_add(front.push(last), back, here);
        front.lemma_filter_push(last, here);
        rest.lemma_filter_push(last, here);
        assert(rest.push(last) =~= players);
        if here(last) {
            lemma_filter_keeps(back, here);
            assert(back.filter(here) =~= seq![]) by {
                if back.filter(here).len() > 0 {
                    assert(here(back.filter(here)[0]));
                    let i = choose|i: int| 0 <= i < back.len() && back[i] == back.filter(here)[0];
                    assert(back[i] == line[at + i]);
                }
            }
            assert(front.filter(here) + back.filter(here) =~= front.filter(here));
            assert(front.filter(here).push(last) + back.filter(here) =~= front.filter(here).push(
                last,
            ));
        }
    }
}

/// Of the candidates, those are picked who are closest in rating to the first
/// player; among the equally close, those who have waited longer; among those,
/// the ones who came first, as the numbers of the players tell.
pub proof fn law_the_closest_are_picked(
    pool: MatchmakerView,
    bucket: int,
    now: nat,
    other: PlayerView,
)
    requires
        pool.wf(),
        0 <= bucket < BUCKET_COUNT,
        pool.buckets[bucket].len() > 0,
        now <= u64::MAX,
        pool.candidates_for(bucket, now).contains(other),
        !pool.picks_for(bucket, now).contains(other),
    ensures
        pool.picks_for(bucket, now).len() == MATCH_SIZE,
        forall|k: int|
            0 <= k < MATCH_SIZE ==> {
                let anchor = pool.buckets[bucket][0];
                let pick = #[trigger] pool.picks_for(bucket, now)[k];
                let near = distance(anchor.skill as int, pick.skill as int);
                let far = distance(anchor.skill as int, other.skill as int);
                &&& pool.candidates_for(bucket, now).contains(pick)
                &&& near <= far
                &&& near == far ==> wait_millis(pick.enqueued_at, now) >= wait_millis(
                    other.enqueued_at,
                    now,
                )
                &&& near == far && wait_millis(pick.enqueued_at, now) == wait_millis(
                    other.enqueued_at,
                    now,
                ) ==> pick.seq <= other.seq && (in_order_of_arrival(pool, now) ==> pick.seq
                    < other.seq)
            },
{
    let anchor = pool.buckets[bucket][0];
    let found = pool.candidates_for(bucket, now);
    let line = ranked(anchor, now, found);
    let picks = pool.picks_for(bucket, now);
    lemma_ranked_in_order(anchor, now, found);
    lemma_ranked_keeps(anchor, now, found);
    assert(line.contains(other));
    let at = choose|at: int| 0 <= at < line.len() && line[at] == other;
    assert(at >= MATCH_SIZE) by {
        if at < picks.len() {
            assert(picks[at] == line[at]);
        }
    }
    assert forall|k: int| 0 <= k < MATCH_SIZE implies {
        let pick = #[trigger] picks[k];
        let near = distance(anchor.skill as int, pick.skill as int);
        let far = distance(anchor.skill as int, other.skill as int);
        &&& found.contains(pick)
        &&& near <= far
        &&& near == far ==> wait_millis(pick.enqueued_at, now) >= wait_millis(
            other.enqueued_at,
            now,
        )
        &&& near == far && wait_millis(pick.enqueued_at, now) == wait_millis(
            other.enqueued_at,
            now,
        ) ==> pick.seq <= other.seq && (in_order_of_arrival(pool, now) ==> pick.seq < other.seq)
    } by {
        assert(picks[k] == line[k]);
        assert(line.contains(line[k]));
        assert(picked_no_later(anchor, now, line[k], line[at]));
        if in_order_of_arrival(pool, now) {
            law_candidates(pool, bucket, now, line[k]);
            law_candidates(pool, bucket, now, other);
            let low = low_bucket(anchor, now);
            let end = high_bucket(anchor, now) + 1;
            let (b, i) = choose|b: int, i: int|
                #![trigger pool.buckets[b][i]]
                low <= b < end && pool.occupied(b, i) && pool.buckets[b][i] == line[k];
            let (c, j) = choose|c: int, j: int|
                #![trigger pool.buckets[c][j]]
                low <= c < end && pool.occupied(c, j) && pool.buckets[c][j] == other;
            assert(picks.contains(picks[k]));
            assert(pool.buckets[b][i].seq != pool.buckets[c][j].seq);
        }
    }
}

/// The player who came first into a bucket is picked first: a match forms
/// around this player exactly when there are ten candidates.
pub proof fn law_enough_candidates_make_a_match(pool: MatchmakerView, bucket: int, now: nat)
    requires
        pool.wf(),
        in_order_of_arrival(pool, now),
        0 <= bucket < BUCKET_COUNT,
        pool.buckets[bucket].len() > 0,
        now <= u64::MAX,
    ensures
        pool.picks_for(bucket, now).len() > 0,
        pool.picks_for(bucket, now)[0] == pool.buckets[bucket][0],
        pool.lobby_for(bucket, now) is Some <==> pool.candidates_for(bucket, now).len()
            >= MATCH_SIZE,
{
    let anchor = pool.buckets[bucket][0];
    assert(pool.occupied(bucket, 0));
    let low = low_bucket(anchor, now);
    let end = high_bucket(anchor, now) + 1;
    let found = pool.candidates_for(bucket, now);
    let line = ranked(anchor, now, found);
    let picks = pool.picks_for(bucket, now);
    lemma_lobby(pool, bucket, now);
    law_candidates(pool, bucket, now, anchor);
    assert(stands_between(pool, low, end, anchor));
    lemma_ranked_in_order(anchor, now, found);
    lemma_ranked_keeps(anchor, now, found);
    assert(line.contains(anchor));
    let at = choose|at: int| 0 <= at < line.len() && line[at] == anchor;
    let first = line[0];
    assert(picked_no_later(anchor, now, line[0], line[at]));
    assert(line.contains(first));
    law_candidates(pool, bucket, now, first);
    let (b, i) = choose|b: int, i: int|
        #![trigger pool.buckets[b][i]]
        low <= b < end && pool.occupied(b, i) && pool.buckets[b][i] == first;
    assert(first.skill == anchor.skill);
    assert(b == bucket);
    assert(oldest_first(pool.buckets[bucket]));
    assert(i == 0);
    assert(picks[0] == anchor);
    lemma_id_among(picks);
}

proof fn lemma_filter_agrees(
    players: Seq<PlayerView>,
    one: spec_fn(PlayerView) -> bool,
    other: spec_fn(PlayerView) -> bool,
)
    requires
        forall|i: int| 0 <= i < players.len() ==> one(#[trigger] players[i]) == other(players[i]),
    ensures
        players.filter(one) == players.filter(other),
    decreases players.len(),
{
    reveal(Seq::filter);
    if players.len() > 0 {
        let rest = players.drop_last();
        assert forall|i: int| 0 <= i < rest.len() implies one(#[trigger] rest[i]) == other(
            rest[i],
        ) by {
            assert(rest[i] == players[i]);
        }
        lemma_filter_agrees(rest, one, other);
        assert(one(players[players.len() - 1]) == other(players[players.len() - 1]));
    }
}

/// All who wait for the same region and mode as `player`.
pub open spec fn peers(pool: MatchmakerView, player: PlayerView) -> Seq<PlayerView> {
    players_between(pool.buckets, 0, BUCKET_COUNT as int).filter(
        |p: PlayerView| p.region == player.region && p.mode == player.mode,
    )
}

/// For one who has waited forty seconds at the head of a bucket, everyone of
/// the same region and mode is a candidate.
pub proof fn law_a_long_wait_reaches_everyone(pool: MatchmakerView, bucket: int, now: nat)
    requires
        pool.wf(),
        0 <= bucket < BUCKET_COUNT,
        pool.buckets[bucket].len() > 0,
        elapsed(pool.buckets[bucket][0].enqueued_at, now) >= 40 * NANOS_PER_SEC,
    ensures
        pool.candidates_for(bucket, now) == peers(pool, pool.buckets[bucket][0]),
{
    let anchor = pool.buckets[bucket][0];
    assert(pool.occupied(bucket, 0));
    law_range_reaches_everyone(elapsed(anchor.enqueued_at, now));
    assert(low_bucket(anchor, now) == 0);
    assert(high_bucket(anchor, now) + 1 == BUCKET_COUNT);
    let all = players_between(pool.buckets, 0, BUCKET_COUNT as int);
    lemma_players_between(pool, 0, BUCKET_COUNT as int);
    let fits = |p: PlayerView| compatible(anchor, p, now);
    let same = |p: PlayerView| p.region == anchor.region && p.mode == anchor.mode;
    assert forall|k: int| 0 <= k < all.len() implies fits(#[trigger] all[k]) == same(all[k]) by {
        assert(stands_between(pool, 0, BUCKET_COUNT as int, all[k]));
        let (b, i) = choose|b: int, i: int|
            #![trigger pool.buckets[b][i]]
            0 <= b < BUCKET_COUNT && pool.occupied(b, i) && pool.buckets[b][i] == all[k];
        assert(pool.buckets[b][i].skill == all[k].skill);
    }
    lemma_filter_agrees(all, fits, same);
}

/// Nobody at the head of a bucket waits on while there are enough others: after
/// forty seconds, ten players of the same region and mode make a match.
pub proof fn law_a_long_wait_ends_in_a_match(pool: MatchmakerView, bucket: int, now: nat)
    requires
        pool.wf(),
        in_order_of_arrival(pool, now),
        0 <= bucket < BUCKET_COUNT,
        pool.buckets[bucket].len() > 0,
        now <= u64::MAX,
        elapsed(pool.buckets[bucket][0].enqueued_at, now) >= 40 * NANOS_PER_SEC,
        peers(pool, pool.buckets[bucket][0]).len() >= MATCH_SIZE,
    ensures
        pool.lobby_for(bucket, now) is Some,
{
    law_a_long_wait_reaches_everyone(pool, bucket, now);
    law_enough_candidates_make_a_match(pool, bucket, now);
}

/// Whether a waiting player is a candidate for the first player of a bucket: the
/// two share region and mode, the larger of the distances that they accept
/// covers their ratings, and the bucket of the candidate reaches into the
/// ratings that the first player accepts.
pub proof fn law_who_is_a_candidate(pool: MatchmakerView, bucket: int, now: nat, b: int, i: int)
    requires
        pool.wf(),
        0 <= bucket < BUCKET_COUNT,
        pool.buckets[bucket].len() > 0,
        0 <= b < pool.buckets.len(),
        0 <= i < pool.buckets[b].len(),
    ensures
        pool.candidates_for(bucket, now).contains(pool.buckets[b][i]) <==> {
            let anchor = pool.buckets[bucket][0];
            let player = pool.buckets[b][i];
            let accepted = accepted_range(elapsed(anchor.enqueued_at, now));
            let offered = accepted_range(elapsed(player.enqueued_at, now));
            let larger = if accepted < offered {
                offered
            } else {
                accepted
            };
            &&& anchor.region == player.region
            &&& anchor.mode == player.mode
            &&& anchor.skill - player.skill <= larger
            &&& player.skill - anchor.skill <= larger
            &&& 100 * b <= anchor.skill + accepted
            &&& anchor.skill - accepted < 100 * (b + 1)
        },
{
    let anchor = pool.buckets[bucket][0];
    let player = pool.buckets[b][i];
    assert(pool.occupied(bucket, 0));
    assert(pool.occupied(b, i));
    law_candidates(pool, bucket, now, player);
    law_who_fits_whom(anchor, player, now);
    let low = low_bucket(anchor, now);
    let high = high_bucket(anchor, now);
    if low <= b <= high {
        assert(stands_between(pool, low, high + 1, pool.buckets[b][i]));
    }
    if stands_between(pool, low, high + 1, player) {
        let (c, k) = choose|c: int, k: int|
            #![trigger pool.buckets[c][k]]
            low <= c < high + 1 && pool.occupied(c, k) && pool.buckets[c][k] == player;
        assert(pool.buckets[c][k].id == pool.buckets[b][i].id);
        assert(c == b);
    }
}

/// Only waiting players are candidates.
pub proof fn law_candidates_wait(pool: MatchmakerView, bucket: int, now: nat, k: int)
    requires
        pool.wf(),
        0 <= bucket < BUCKET_COUNT,
        pool.buckets[bucket].len() > 0,
        0 <= k < pool.candidates_for(bucket, now).len(),
    ensures
        exists|b: int, i: int|
            #![trigger pool.buckets[b][i]]
            0 <= b < pool.buckets.len() && 0 <= i < pool.buckets[b].len() && pool.buckets[b][i]
                == pool.candidates_for(bucket, now)[k],
        pool.waiting_ids.contains(pool.candidates_for(bucket, now)[k].id),
{
    let anchor = pool.buckets[bucket][0];
    let player = pool.candidates_for(bucket, now)[k];
    assert(pool.candidates_for(bucket, now).contains(player));
    law_candidates(pool, bucket, now, player);
    let (b, i) = choose|b: int, i: int|
        #![trigger pool.buckets[b][i]]
        low_bucket(anchor, now) <= b < high_bucket(anchor, now) + 1 && pool.occupied(b, i)
            && pool.buckets[b][i] == player;
    assert(pool.waiting_ids.contains(pool.buckets[b][i].id));
}

/// Of the candidates as many are picked as there are, up to ten, nobody twice.
/// They stand by the distance of their ratings to that of the first player, then
/// by their waits, the longer ones first, then by their numbers.
pub proof fn law_picks_stand_in_order(pool: MatchmakerView, bucket: int, now: nat, i: int, j: int)
    requires
        pool.wf(),
        0 <= bucket < BUCKET_COUNT,
        pool.buckets[bucket].len() > 0,
        now <= u64::MAX,
        0 <= i < j < pool.picks_for(bucket, now).len(),
    ensures
        ({
            let found = pool.candidates_for(bucket, now).len();
            pool.picks_for(bucket, now).len() == if found < 10 {
                found
            } else {
                10
            }
        }),
        ({
            let anchor = pool.buckets[bucket][0];
            let one = pool.picks_for(bucket, now)[i];
            let other = pool.picks_for(bucket, now)[j];
            let near = if one.skill < anchor.skill {
                anchor.skill - one.skill
            } else {
                one.skill - anchor.skill
            };
            let far = if other.skill < anchor.skill {
                anchor.skill - other.skill
            } else {
                other.skill - anchor.skill
            };
            let waited = wait_millis(one.enqueued_at, now);
            let other_waited = wait_millis(other.enqueued_at, now);
            &&& one.id != other.id
            &&& pool.candidates_for(bucket, now).contains(one)
            &&& {
                ||| near < far
                ||| near == far && waited > other_waited
                ||| near == far && waited == other_waited && one.seq <= other.seq
            }
        }),
{
    let anchor = pool.buckets[bucket][0];
    let found = pool.candidates_for(bucket, now);
    let line = ranked(anchor, now, found);
    let picks = pool.picks_for(bucket, now);
    lemma_lobby(pool, bucket, now);
    lemma_ranked_in_order(anchor, now, found);
    lemma_ranked_keeps(anchor, now, found);
    assert(picks[i] == line[i] && picks[j] == line[j]);
    assert(line.contains(line[i]));
    assert(picked_no_later(anchor, now, line[i], line[j]));
    law_order_of_picking(anchor, line[i], line[j], now);
}

/// A lobby is what is picked: it forms exactly if there are ten picks and the
/// first player of the bucket is one of them.
pub proof fn law_a_lobby_is_the_picks(pool: MatchmakerView, bucket: int, now: nat)
    requires
        pool.wf(),
        0 <= bucket < BUCKET_COUNT,
    ensures
        pool.buckets[bucket].len() == 0 ==> pool.lobby_for(bucket, now) is None,
        pool.buckets[bucket].len() > 0 ==> {
            let picks = pool.picks_for(bucket, now);
            if picks.len() == 10 && picks.contains(pool.buckets[bucket][0]) {
                pool.lobby_for(bucket, now) == Some(picks)
            } else {
                pool.lobby_for(bucket, now) is None
            }
        },
{
    if pool.buckets[bucket].len() > 0 {
        let anchor = pool.buckets[bucket][0];
        let picks = pool.picks_for(bucket, now);
        assert(pool.occupied(bucket, 0));
        lemma_lobby(pool, bucket, now);
        lemma_id_among(picks);
        if picks.contains(anchor) {
            let k = choose|k: int| 0 <= k < picks.len() && picks[k] == anchor;
            assert(picks[k].id == anchor.id);
        }
        if ids_of(picks).contains(anchor.id) {
            let k = choose|k: int| 0 <= k < picks.len() && (#[trigger] picks[k]).id == anchor.id;
            assert(stands_between(
                pool,
                low_bucket(anchor, now),
                high_bucket(anchor, now) + 1,
                picks[k],
            ));
            let (b, i) = choose|b: int, i: int|
                #![trigger pool.buckets[b][i]]
                low_bucket(anchor, now) <= b < high_bucket(anchor, now) + 1 && pool.occupied(b, i)
                    && pool.buckets[b][i] == picks[k];
            assert(pool.buckets[b][i].id == pool.buckets[bucket][0].id);
            assert(picks[k] == anchor);
        }
    }
}

/// Every player of a lobby has the region and the mode of its first player of the
/// bucket, and a rating within the larger of the distances that the two accept
/// after their waits.
pub proof fn law_a_lobby_is_within_reach(pool: MatchmakerView, bucket: int, now: nat, k: int)
    requires
        pool.wf(),
        0 <= bucket < BUCKET_COUNT,
        pool.lobby_for(bucket, now) is Some,
        0 <= k < pool.lobby_for(bucket, now)->0.len(),
    ensures
        ({
            let anchor = pool.buckets[bucket][0];
            let player = pool.lobby_for(bucket, now)->0[k];
            let accepted = accepted_range(elapsed(anchor.enqueued_at, now));
            let offered = accepted_range(elapsed(player.enqueued_at, now));
            let larger = if accepted < offered {
                offered
            } else {
                accepted
            };
            &&& player.region == anchor.region
            &&& player.mode == anchor.mode
            &&& player.skill - anchor.skill <= larger
            &&& anchor.skill - player.skill <= larger
        }),
{
    lemma_lobby(pool, bucket, now);
    let player = pool.picks_for(bucket, now)[k];
    assert(compatible(pool.buckets[bucket][0], player, now));
    law_who_fits_whom(pool.buckets[bucket][0], player, now);
}

/// As many are picked as there are candidates, up to ten.
pub proof fn law_how_many_are_picked(pool: MatchmakerView, bucket: int, now: nat)
    requires
        pool.buckets[bucket].len() > 0,
    ensures
        pool.candidates_for(bucket, now).len() <= 10 ==> pool.picks_for(bucket, now).len()
            == pool.candidates_for(bucket, now).len(),
        pool.candidates_for(bucket, now).len() >= 10 ==> pool.picks_for(bucket, now).len() == 10,
{
    lemma_ranked_in_order(pool.buckets[bucket][0], now, pool.candidates_for(bucket, now));
}

} // verus!
