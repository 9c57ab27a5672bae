//! Dividing ten players into two teams of equal strength.
use crate::config::{MATCH_SIZE, TEAM_SIZE};
use crate::player::{Player, PlayerView};
use crate::rules::{abs_diff, distance};
use vstd::prelude::*;

verus! {

/// Whether the division `split` puts the `i`-th player into team A: bit `i`.
pub open spec fn in_team_a(split: u16, i: int) -> bool {
    (split >> (i as u16)) & 1 == 1
}

/// The players of one team, in their order: those whose bit is `a`.
pub open spec fn side(players: Seq<PlayerView>, split: u16, a: bool) -> Seq<PlayerView>
    decreases players.len(),
{
    if players.len() == 0 {
        seq![]
    } else {
        let rest = side(players.drop_last(), split, a);
        if in_team_a(split, players.len() - 1) == a {
            rest.push(players.last())
        } else {
            rest
        }
    }
}

/// The ratings of `players` added up.
pub open spec fn total_skill(players: Seq<PlayerView>) -> nat
    decreases players.len(),
{
    if players.len() == 0 {
        0
    } else {
        total_skill(players.drop_last()) + players.last().skill as nat
    }
}

/// How many of the first `n` players `split` puts into team A.
pub open spec fn team_a_size(split: u16, n: nat) -> nat
    decreases n,
{
    if n == 0 {
        0
    } else {
        team_a_size(split, (n - 1) as nat) + if in_team_a(split, n - 1) { 1nat } else { 0 }
    }
}

/// A division of a lobby into two full teams.
pub open spec fn is_even_split(split: u16) -> bool {
    split < 1024 && team_a_size(split, MATCH_SIZE as nat) == TEAM_SIZE
}

/// A division that is tried: an even one with the first player in team A. The
/// others are mirror images of these.
pub open spec fn is_candidate_split(split: u16) -> bool {
    is_even_split(split) && in_team_a(split, 0)
}

/// The difference in total rating between the two teams of a division.
pub open spec fn skill_gap(players: Seq<PlayerView>, split: u16) -> nat {
    distance(
        total_skill(side(players, split, true)) as int,
        total_skill(side(players, split, false)) as int,
    )
}

/// A division with the smallest difference; of several, the one with the
/// smallest number.
pub open spec fn is_best_split(players: Seq<PlayerView>, split: u16) -> bool {
    &&& is_candidate_split(split)
    &&& forall|other: u16| #[trigger]
        is_candidate_split(other) ==> skill_gap(players, split) < skill_gap(players, other) || (
        skill_gap(players, split) == skill_gap(players, other) && split <= other)
}

/// The division that is played.
pub open spec fn best_split(players: Seq<PlayerView>) -> u16 {
    choose|split: u16| is_best_split(players, split)
}

pub(crate) proof fn lemma_side_totals(players: Seq<PlayerView>, split: u16)
    ensures
        total_skill(side(players, split, true)) + total_skill(side(players, split, false))
            == total_skill(players),
        side(players, split, true).len() == team_a_size(split, players.len()),
        side(players, split, true).len() + side(players, split, false).len() == players.len(),
    decreases players.len(),
{
    if players.len() > 0 {
        lemma_side_totals(players.drop_last(), split);
        let last = players.last();
        assert forall|s: Seq<PlayerView>| #[trigger]
            total_skill(s.push(last)) == total_skill(s) + last.skill by {
            assert(s.push(last).drop_last() == s);
        }
    }
}

proof fn lemma_best_split_unique(players: Seq<PlayerView>, split: u16)
    requires
        is_best_split(players, split),
    ensures
        best_split(players) == split,
{
    let chosen = best_split(players);
    assert(is_best_split(players, chosen));
    assert(is_candidate_split(chosen));
    assert(is_candidate_split(split));
}

/// Some division is always there to be tried.
proof fn lemma_some_candidate_split()
    ensures
        is_candidate_split(31),
{
    reveal_with_fuel(team_a_size, 11);
    assert((31u16 >> 0u16) & 1 == 1) by (bit_vector);
    assert((31u16 >> 1u16) & 1 == 1) by (bit_vector);
    assert((31u16 >> 2u16) & 1 == 1) by (bit_vector);
    assert((31u16 >> 3u16) & 1 == 1) by (bit_vector);
    assert((31u16 >> 4u16) & 1 == 1) by (bit_vector);
    assert((31u16 >> 5u16) & 1 != 1) by (bit_vector);
    assert((31u16 >> 6u16) & 1 != 1) by (bit_vector);
    assert((31u16 >> 7u16) & 1 != 1) by (bit_vector);
    assert((31u16 >> 8u16) & 1 != 1) by (bit_vector);
    assert((31u16 >> 9u16) & 1 != 1) by (bit_vector);
}

/// The best of the divisions tried so far.
spec fn is_best_below(players: Seq<PlayerView>, split: u16, end: int) -> bool {
    &&& split < end
    &&& is_candidate_split(split)
    &&& forall|other: u16|
        other < end && #[trigger] is_candidate_split(other) ==> skill_gap(players, split)
            < skill_gap(players, other) || (skill_gap(players, split) == skill_gap(players, other)
            && split <= other)
}

proof fn lemma_best_below(players: Seq<PlayerView>, end: int)
    requires
        0 <= end <= 1024,
    ensures
        (exists|split: u16| #[trigger] is_best_below(players, split, end)) || forall|other: u16|
            other < end ==> !(#[trigger] is_candidate_split(other)),
    decreases end,
{
    if end > 0 {
        lemma_best_below(players, end - 1);
        let last = (end - 1) as u16;
        if exists|split: u16| #[trigger] is_best_below(players, split, end - 1) {
            let best = choose|split: u16| #[trigger] is_best_below(players, split, end - 1);
            if is_candidate_split(last) && skill_gap(players, last) < skill_gap(players, best) {
                assert(is_best_below(players, last, end));
            } else {
                assert(is_best_below(players, best, end));
            }
        } else if is_candidate_split(last) {
            assert(is_best_below(players, last, end));
        }
    }
}

/// There is a best division.
pub(crate) proof fn lemma_best_split_is_best(players: Seq<PlayerView>)
    ensures
        is_best_split(players, best_split(players)),
{
    lemma_some_candidate_split();
    lemma_best_below(players, 1024);
    let best = choose|split: u16| #[trigger] is_best_below(players, split, 1024);
    assert(is_best_split(players, best));
}

/// The number of players in team A and their total rating.
fn team_a_strength(players: &[Player], split: u16) -> (strength: (usize, u32))
    requires
        players.len() == MATCH_SIZE,
        total_skill(players.deep_view()) <= u32::MAX,
    ensures
        strength.0 == team_a_size(split, MATCH_SIZE as nat),
        strength.1 == total_skill(side(players.deep_view(), split, true)),
{
    let ghost lobby = players.deep_view();
    let mut size: usize = 0;
    let mut skill: u32 = 0;
    for i in 0..MATCH_SIZE
        invariant
            lobby == players.deep_view(),
            players.len() == MATCH_SIZE,
            total_skill(lobby) <= u32::MAX,
            size <= i,
            size == team_a_size(split, i as nat),
            skill == total_skill(side(lobby.take(i as int), split, true)),
    {
        proof {
            lemma_total_skill_prefix(lobby, i + 1);
            lemma_side_totals(lobby.take(i + 1), split);
            assert(lobby.take(i + 1).drop_last() == lobby.take(i as int));
            assert(side(lobby.take(i as int), split, true).push(lobby[i as int]).drop_last()
                == side(lobby.take(i as int), split, true));
        }
        if (split >> (i as u16)) & 1 == 1 {
            size += 1;
            skill += players[i].skill;
        }
    }
    assert(lobby.take(MATCH_SIZE as int) == lobby);
    (size, skill)
}

proof fn lemma_total_skill_prefix(players: Seq<PlayerView>, n: int)
    requires
        0 <= n <= players.len(),
    ensures
        total_skill(players.take(n)) <= total_skill(players),
    decreases players.len(),
{
    if n == players.len() {
        assert(players.take(n) == players);
    } else {
        lemma_total_skill_prefix(players.drop_last(), n);
        assert(players.drop_last().take(n) == players.take(n));
    }
}

/// Divides a lobby into the two teams whose total ratings differ least, and
/// gives that difference.
pub fn balance_teams(players: &[Player]) -> (teams: (Vec<Player>, Vec<Player>, u32))
    requires
        players.len() == MATCH_SIZE,
        total_skill(players.deep_view()) <= u32::MAX,
    ensures
        is_best_split(players.deep_view(), best_split(players.deep_view())),
        teams.0.deep_view() == side(players.deep_view(), best_split(players.deep_view()), true),
        teams.1.deep_view() == side(players.deep_view(), best_split(players.deep_view()), false),
        teams.2 == skill_gap(players.deep_view(), best_split(players.deep_view())),
        teams.0.len() == TEAM_SIZE,
        teams.1.len() == TEAM_SIZE,
{
    let ghost lobby = players.deep_view();
    let mut total: u32 = 0;
    for i in 0..MATCH_SIZE
        invariant
            lobby == players.deep_view(),
            players.len() == MATCH_SIZE,
            total_skill(lobby) <= u32::MAX,
            total == total_skill(lobby.take(i as int)),
    {
        proof {
            lemma_total_skill_prefix(lobby, i + 1);
            assert(lobby.take(i + 1).drop_last() == lobby.take(i as int));
        }
        total += players[i].skill;
    }
    assert(lobby.take(MATCH_SIZE as int) == lobby);

    let mut best: Option<u16> = None;
    let mut best_gap: u32 = u32::MAX;
    for split in 0u16..1024u16
        invariant
            lobby == players.deep_view(),
            players.len() == MATCH_SIZE,
            total == total_skill(lobby),
            total_skill(lobby) <= u32::MAX,
            match best {
                None => forall|other: u16| other < split ==> !(#[trigger] is_candidate_split(other)),
                Some(b) => is_best_below(lobby, b, split as int) && best_gap == skill_gap(lobby, b),
            },
    {
        let (size, team_a_skill) = team_a_strength(players, split);
        if (split >> 0u16) & 1 == 1 && size == TEAM_SIZE {
            proof {
                lemma_side_totals(lobby, split);
            }
            let team_b_skill: u32 = total - team_a_skill;
            let gap: u32 = abs_diff(team_a_skill, team_b_skill);
            if best.is_none() || gap < best_gap {
                best = Some(split);
                best_gap = gap;
            }
        }
    }
    proof {
        lemma_some_candidate_split();
    }
    let split: u16 = best.unwrap();
    proof {
        assert(is_best_split(lobby, split));
        lemma_best_split_unique(lobby, split);
        lemma_side_totals(lobby, split);
    }

    let mut team_a: Vec<Player> = Vec::new();
    let mut team_b: Vec<Player> = Vec::new();
    for i in 0..MATCH_SIZE
        invariant
            lobby == players.deep_view(),
            players.len() == MATCH_SIZE,
            team_a.deep_view() == side(lobby.take(i as int), split, true),
            team_b.deep_view() == side(lobby.take(i as int), split, false),
    {
        let player = players[i].clone();
        proof {
            assert(lobby.take(i + 1).drop_last() == lobby.take(i as int));
        }
        if (split >> (i as u16)) & 1 == 1 {
            team_a.push(player);
        } else {
            team_b.push(player);
        }
        assert(team_a.deep_view() =~= side(lobby.take(i + 1), split, true));
        assert(team_b.deep_view() =~= side(lobby.take(i + 1), split, false));
    }
    assert(team_a.deep_view().len() == team_a.len());
    assert(team_b.deep_view().len() == team_b.len());
    (team_a, team_b, best_gap)
}

} // verus!
