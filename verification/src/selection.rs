//! Picking a lobby: the candidates around an anchor, closest first.
use crate::clock::Instant;
use crate::config::MATCH_SIZE;
use crate::player::{Player, PlayerView};
use crate::rules::{candidate_rank, compatible, is_compatible, not_after, rank, ranks_not_after};
use std::collections::VecDeque;
use vstd::prelude::*;

verus! {

/// The order of picking for `anchor` at the time `now`.
pub open spec fn picked_no_later(
    anchor: PlayerView,
    now: nat,
    x: PlayerView,
    y: PlayerView,
) -> bool {
    not_after(rank(anchor, x, now), rank(anchor, y, now))
}

/// Where `player` goes in the ordered `line`: behind all that are picked no
/// later.
pub open spec fn slot(anchor: PlayerView, now: nat, line: Seq<PlayerView>, player: PlayerView) -> int
    decreases line.len(),
{
    if line.len() == 0 || picked_no_later(anchor, now, line.last(), player) {
        line.len() as int
    } else {
        slot(anchor, now, line.drop_last(), player)
    }
}

/// `players` in the order of picking; those of equal rank keep their order.
pub open spec fn ranked(anchor: PlayerView, now: nat, players: Seq<PlayerView>) -> Seq<PlayerView>
    decreases players.len(),
{
    if players.len() == 0 {
        seq![]
    } else {
        let line = ranked(anchor, now, players.drop_last());
        line.insert(slot(anchor, now, line, players.last()), players.last())
    }
}

/// Whether `line` is in the order of picking.
pub open spec fn in_order(anchor: PlayerView, now: nat, line: Seq<PlayerView>) -> bool {
    forall|i: int, j: int|
        0 <= i <= j < line.len() ==> #[trigger] picked_no_later(anchor, now, line[i], line[j])
}

/// At most the first `n` of a sequence.
pub open spec fn first_of<T>(s: Seq<T>, n: int) -> Seq<T> {
    if s.len() <= n {
        s
    } else {
        s.take(n)
    }
}

/// The players in the buckets from `low` up to but not including `end`.
pub open spec fn players_between(buckets: Seq<Seq<PlayerView>>, low: int, end: int) -> Seq<
    PlayerView,
> {
    buckets.subrange(low, end).flatten()
}

/// The players in these buckets whom `anchor` can meet.
pub open spec fn candidates(
    buckets: Seq<Seq<PlayerView>>,
    low: int,
    end: int,
    anchor: PlayerView,
    now: nat,
) -> Seq<PlayerView> {
    players_between(buckets, low, end).filter(|p: PlayerView| compatible(anchor, p, now))
}

pub(crate) proof fn lemma_slot(anchor: PlayerView, now: nat, line: Seq<PlayerView>, player: PlayerView)
    requires
        in_order(anchor, now, line),
    ensures
        0 <= slot(anchor, now, line, player) <= line.len(),
        forall|i: int|
            0 <= i < slot(anchor, now, line, player) ==> picked_no_later(
                anchor,
                now,
                #[trigger] line[i],
                player,
            ),
        forall|i: int|
            slot(anchor, now, line, player) <= i < line.len() ==> !picked_no_later(
                anchor,
                now,
                #[trigger] line[i],
                player,
            ),
    decreases line.len(),
{
    if line.len() == 0 {
    } else if picked_no_later(anchor, now, line.last(), player) {
        assert forall|i: int| 0 <= i < line.len() implies picked_no_later(
            anchor,
            now,
            #[trigger] line[i],
            player,
        ) by {
            assert(picked_no_later(anchor, now, line[i], line[line.len() - 1]));
        }
    } else {
        let shorter = line.drop_last();
        assert forall|i: int, j: int| 0 <= i <= j < shorter.len() implies #[trigger] picked_no_later(
            anchor,
            now,
            shorter[i],
            shorter[j],
        ) by {
            assert(picked_no_later(anchor, now, line[i], line[j]));
        }
        lemma_slot(anchor, now, shorter, player);
        let at = slot(anchor, now, shorter, player);
        assert forall|i: int| 0 <= i < at implies picked_no_later(
            anchor,
            now,
            #[trigger] line[i],
            player,
        ) by {
            assert(shorter[i] == line[i]);
        }
        assert forall|i: int| at <= i < line.len() implies !picked_no_later(
            anchor,
            now,
            #[trigger] line[i],
            player,
        ) by {
            if i < shorter.len() {
                assert(shorter[i] == line[i]);
            }
        }
    }
}

pub(crate) proof fn lemma_ranked_in_order(anchor: PlayerView, now: nat, players: Seq<PlayerView>)
    ensures
        in_order(anchor, now, ranked(anchor, now, players)),
        ranked(anchor, now, players).len() == players.len(),
    decreases players.len(),
{
    if players.len() > 0 {
        lemma_ranked_in_order(anchor, now, players.drop_last());
        let line = ranked(anchor, now, players.drop_last());
        let player = players.last();
        lemma_slot(anchor, now, line, player);
        let at = slot(anchor, now, line, player);
        let longer = line.insert(at, player);
        assert forall|i: int, j: int| 0 <= i <= j < longer.len() implies #[trigger] picked_no_later(
            anchor,
            now,
            longer[i],
            longer[j],
        ) by {
            let oi = if i < at { i } else { i - 1 };
            let oj = if j < at { j } else { j - 1 };
            if i != at && j != at {
                assert(longer[i] == line[oi]);
                assert(longer[j] == line[oj]);
                assert(picked_no_later(anchor, now, line[oi], line[oj]));
            } else if i == at && j != at {
                assert(longer[j] == line[oj]);
            } else if i != at && j == at {
                assert(longer[i] == line[oi]);
            }
        }
    }
}

/// Inserting into the first `n` of an ordered line gives the first `n` of the
/// line with the player inserted.
proof fn lemma_insert_into_first(
    anchor: PlayerView,
    now: nat,
    line: Seq<PlayerView>,
    player: PlayerView,
    n: int,
)
    requires
        in_order(anchor, now, line),
        0 <= n,
    ensures
        ({
            let short = first_of(line, n);
            let at = slot(anchor, now, line, player);
            let short_at = slot(anchor, now, short, player);
            &&& in_order(anchor, now, short)
            &&& 0 <= short_at <= short.len()
            &&& first_of(short.insert(short_at, player), n) == first_of(line.insert(at, player), n)
        }),
{
    let short = first_of(line, n);
    assert forall|i: int, j: int| 0 <= i <= j < short.len() implies #[trigger] picked_no_later(
        anchor,
        now,
        short[i],
        short[j],
    ) by {
        assert(picked_no_later(anchor, now, line[i], line[j]));
    }
    lemma_slot(anchor, now, line, player);
    lemma_slot(anchor, now, short, player);
    let at = slot(anchor, now, line, player);
    let short_at = slot(anchor, now, short, player);
    assert(forall|i: int| 0 <= i < short.len() ==> short[i] == line[i]);
    if short_at < at && short_at < short.len() {
        assert(short[short_at] == line[short_at]);
    }
    if at < short_at {
        assert(short[at] == line[at]);
    }
    assert(short_at == if at < short.len() {
        at
    } else {
        short.len() as int
    });
    assert(first_of(short.insert(short_at, player), n) =~= first_of(line.insert(at, player), n));
}

/// Puts `player` into its place in `lobby`, which keeps at most `MATCH_SIZE`.
fn offer(anchor: &Player, now: Instant, lobby: &mut Vec<Player>, player: &Player)
    requires
        in_order(anchor@, now@, old(lobby).deep_view()),
        old(lobby).len() <= MATCH_SIZE,
    ensures
        final(lobby).deep_view() == first_of(
            old(lobby).deep_view().insert(
                slot(anchor@, now@, old(lobby).deep_view(), player@),
                player@,
            ),
            MATCH_SIZE as int,
        ),
{
    let ghost line = lobby.deep_view();
    let place = candidate_rank(anchor, player, now);
    let mut at: usize = lobby.len();
    proof {
        lemma_slot(anchor@, now@, line, player@);
        assert(line.take(at as int) == line);
    }
    while at > 0 && !ranks_not_after(candidate_rank(anchor, &lobby[at - 1], now), place)
        invariant
            line == lobby.deep_view(),
            at <= lobby.len(),
            place == rank(anchor@, player@, now@),
            slot(anchor@, now@, line, player@) == slot(anchor@, now@, line.take(at as int), player@),
        decreases at,
    {
        assert(line.take(at as int).drop_last() == line.take(at - 1));
        assert(line.take(at as int).last() == line[at - 1]);
        at -= 1;
    }
    assert(at == slot(anchor@, now@, line, player@)) by {
        if at > 0 {
            assert(line.take(at as int).last() == line[at - 1]);
        }
    }
    if at < MATCH_SIZE {
        lobby.insert(at, player.clone());
        assert(lobby.deep_view() =~= line.insert(at as int, player@));
        lobby.truncate(MATCH_SIZE);
    }
    assert(lobby.deep_view() =~= first_of(line.insert(at as int, player@), MATCH_SIZE as int));
}

/// The candidates around `anchor` in the buckets from `low` to `high`, closest
/// first, and at most as many as a match takes.
pub fn pick_lobby(
    buckets: &Vec<VecDeque<Player>>,
    low: usize,
    high: usize,
    anchor: &Player,
    now: Instant,
) -> (lobby: Vec<Player>)
    requires
        low <= high < buckets.len(),
    ensures
        lobby.deep_view() == first_of(
            ranked(
                anchor@,
                now@,
                candidates(buckets.deep_view(), low as int, high + 1, anchor@, now@),
            ),
            MATCH_SIZE as int,
        ),
{
    let ghost queues = buckets.deep_view();
    let ghost fits = |p: PlayerView| compatible(anchor@, p, now@);
    let mut lobby: Vec<Player> = Vec::new();
    assert(queues.subrange(low as int, low as int) =~= seq![]);
    assert(players_between(queues, low as int, low as int).filter(fits) =~= seq![]) by {
        reveal(Seq::filter);
    }
    assert(lobby.deep_view() =~= seq![]);
    let mut bucket: usize = low;
    while bucket <= high
        invariant
            queues == buckets.deep_view(),
            low <= bucket <= high + 1,
            high < buckets.len(),
            fits == |p: PlayerView| compatible(anchor@, p, now@),
            lobby.deep_view() == first_of(
                ranked(
                    anchor@,
                    now@,
                    players_between(queues, low as int, bucket as int).filter(fits),
                ),
                MATCH_SIZE as int,
            ),
        decreases high + 1 - bucket,
    {
        let ghost before = players_between(queues, low as int, bucket as int);
        let ghost queue = queues[bucket as int];
        assert(before + queue.take(0) =~= before);
        let queue_len: usize = buckets[bucket].len();
        for i in 0..queue_len
            invariant
                queues == buckets.deep_view(),
                bucket < buckets.len(),
                queue == buckets@[bucket as int].deep_view(),
                queue_len == queue.len(),
                fits == |p: PlayerView| compatible(anchor@, p, now@),
                lobby.deep_view() == first_of(
                    ranked(anchor@, now@, (before + queue.take(i as int)).filter(fits)),
                    MATCH_SIZE as int,
                ),
        {
            let player = &buckets[bucket][i];
            let ghost seen = before + queue.take(i as int);
            let ghost line = ranked(anchor@, now@, seen.filter(fits));
            proof {
                assert(player@ == queue[i as int]);
                assert(before + queue.take(i + 1) =~= seen.push(player@));
                seen.lemma_filter_push(player@, fits);
                lemma_ranked_in_order(anchor@, now@, seen.filter(fits));
                lemma_insert_into_first(anchor@, now@, line, player@, MATCH_SIZE as int);
                assert(seen.filter(fits).push(player@).drop_last() =~= seen.filter(fits));
                assert(lobby.len() == lobby.deep_view().len());
            }
            if is_compatible(anchor, player, now) {
                offer(anchor, now, &mut lobby, player);
            }
        }
        assert(queue.take(queue_len as int) =~= queue);
        assert(queues.subrange(low as int, bucket + 1) =~= queues.subrange(
            low as int,
            bucket as int,
        ).push(queue));
        proof {
            queues.subrange(low as int, bucket as int).lemma_flatten_push(queue);
        }
        bucket += 1;
    }
    lobby
}

} // verus!
