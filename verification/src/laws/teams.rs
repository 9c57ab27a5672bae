//! Teams: every player plays, in one team, and no other teams are closer.
use crate::balance::{
    best_split, in_team_a, is_candidate_split, is_even_split, lemma_best_split_is_best,
    lemma_side_totals, side, skill_gap, team_a_size, total_skill,
};
use crate::config::{MATCH_SIZE, TEAM_SIZE};
use crate::player::PlayerView;
use vstd::prelude::*;

verus! {

/// The division with the teams exchanged.
pub open spec fn mirrored(split: u16) -> u16 {
    1023 ^ split
}

proof fn lemma_mirrored_side(players: Seq<PlayerView>, split: u16)
    requires
        players.len() <= MATCH_SIZE,
    ensures
        side(players, mirrored(split), true) == side(players, split, false),
        side(players, mirrored(split), false) == side(players, split, true),
        team_a_size(mirrored(split), players.len()) + team_a_size(split, players.len())
            == players.len(),
    decreases players.len(),
{
    if players.len() > 0 {
        lemma_mirrored_side(players.drop_last(), split);
        let i = (players.len() - 1) as u16;
        assert((((1023u16 ^ split) >> i) & 1u16 == 1u16) == !((split >> i) & 1u16 == 1u16)) by (bit_vector)
            requires
                i < 10,
        ;
    }
}

/// Exchanging the teams gives another division into full teams, with the same
/// difference. One of the two puts the first player into team A.
pub proof fn law_mirrored_teams(players: Seq<PlayerView>, split: u16)
    requires
        players.len() == MATCH_SIZE,
        is_even_split(split),
    ensures
        is_even_split(mirrored(split)),
        in_team_a(mirrored(split), 0) == !in_team_a(split, 0),
        skill_gap(players, mirrored(split)) == skill_gap(players, split),
{
    lemma_mirrored_side(players, split);
    assert((1023u16 ^ split) < 1024u16) by (bit_vector)
        requires
            split < 1024,
    ;
    assert((((1023u16 ^ split) >> 0u16) & 1u16 == 1u16) == !((split >> 0u16) & 1u16 == 1u16))
        by (bit_vector);
}

/// Of all divisions of a lobby into two full teams, none has teams that are
/// closer in total rating than those that are played.
pub proof fn law_teams_are_closest(players: Seq<PlayerView>, other: u16)
    requires
        players.len() == MATCH_SIZE,
        is_even_split(other),
    ensures
        is_even_split(best_split(players)),
        skill_gap(players, best_split(players)) <= skill_gap(players, other),
{
    lemma_best_split_is_best(players);
    law_mirrored_teams(players, other);
    assert(is_candidate_split(other) || is_candidate_split(mirrored(other)));
}

proof fn lemma_sides_join(players: Seq<PlayerView>, split: u16)
    ensures
        side(players, split, true).to_multiset().add(side(players, split, false).to_multiset())
            == players.to_multiset(),
    decreases players.len(),
{
    let a = side(players, split, true);
    let b = side(players, split, false);
    if players.len() == 0 {
        assert(a.to_multiset() =~= vstd::multiset::Multiset::empty()) by {
            a.to_multiset_ensures();
        }
        assert(players.to_multiset() =~= vstd::multiset::Multiset::empty()) by {
            players.to_multiset_ensures();
        }
        assert(a.to_multiset().add(b.to_multiset()) =~= players.to_multiset());
    } else {
        let rest = players.drop_last();
        let last = players.last();
        lemma_sides_join(rest, split);
        vstd::seq_lib::to_multiset_build(rest, last);
        vstd::seq_lib::to_multiset_build(side(rest, split, true), last);
        vstd::seq_lib::to_multiset_build(side(rest, split, false), last);
        assert(rest.push(last) =~= players);
        assert(a.to_multiset().add(b.to_multiset()) =~= players.to_multiset());
    }
}

/// Every player of a lobby plays, in one of its two teams of five.
pub proof fn law_teams_share_the_lobby(players: Seq<PlayerView>)
    requires
        players.len() == MATCH_SIZE,
    ensures
        side(players, best_split(players), true).len() == TEAM_SIZE,
        side(players, best_split(players), false).len() == TEAM_SIZE,
        side(players, best_split(players), true).to_multiset().add(
            side(players, best_split(players), false).to_multiset(),
        ) == players.to_multiset(),
        total_skill(side(players, best_split(players), true)) + total_skill(
            side(players, best_split(players), false),
        ) == total_skill(players),
{
    lemma_best_split_is_best(players);
    lemma_side_totals(players, best_split(players));
    lemma_sides_join(players, best_split(players));
}

/// A division is read as a number in binary: the first player is in team A if it
/// is odd, and the others go by half of it.
pub proof fn law_divisions_are_numbers(split: u16, i: int)
    requires
        0 <= i < 15,
    ensures
        in_team_a(split, 0) <==> split % 2 == 1,
        in_team_a(split, i + 1) <==> in_team_a(split / 2, i),
{
    let n = i as u16;
    assert((split >> 0u16) & 1u16 == split % 2) by (bit_vector);
    assert((split >> ((n + 1) as u16)) & 1u16 == ((split / 2) >> n) & 1u16) by (bit_vector)
        requires
            n < 15,
    ;
    assert((i + 1) as u16 == (n + 1) as u16);
}

/// The players of a team stand in the order in which they stand in the lobby,
/// each in the team that the division says.
pub proof fn law_teams_keep_the_order(players: Seq<PlayerView>, player: PlayerView, split: u16)
    ensures
        side(Seq::empty(), split, true) == Seq::<PlayerView>::empty(),
        side(Seq::empty(), split, false) == Seq::<PlayerView>::empty(),
        in_team_a(split, players.len() as int) ==> side(players.push(player), split, true) == side(
            players,
            split,
            true,
        ).push(player) && side(players.push(player), split, false) == side(players, split, false),
        !in_team_a(split, players.len() as int) ==> side(players.push(player), split, false)
            == side(players, split, false).push(player) && side(players.push(player), split, true)
            == side(players, split, true),
{
    assert(players.push(player).drop_last() =~= players);
}

/// The ratings of a team add up, and the difference between two teams is what the
/// stronger one has more.
pub proof fn law_strength_of_teams(players: Seq<PlayerView>, player: PlayerView, split: u16)
    ensures
        total_skill(Seq::empty()) == 0,
        total_skill(players.push(player)) == total_skill(players) + player.skill,
        ({
            let a = total_skill(side(players, split, true));
            let b = total_skill(side(players, split, false));
            skill_gap(players, split) as int == if a >= b {
                a - b
            } else {
                b - a
            }
        }),
{
    assert(players.push(player).drop_last() =~= players);
}

/// A division of ten players is even exactly if both teams have five.
pub proof fn law_even_divisions(players: Seq<PlayerView>, split: u16)
    requires
        players.len() == 10,
        split < 1024,
    ensures
        is_even_split(split) <==> side(players, split, true).len() == 5,
        is_even_split(split) <==> side(players, split, false).len() == 5,
{
    lemma_side_totals(players, split);
}

/// The first player of a lobby plays in team A. Of the divisions with that player
/// in team A that are equally close, the one with the smallest number is played.
pub proof fn law_the_first_of_the_closest(players: Seq<PlayerView>, other: u16)
    requires
        players.len() == MATCH_SIZE,
        is_even_split(other),
        in_team_a(other, 0),
        skill_gap(players, other) <= skill_gap(players, best_split(players)),
    ensures
        in_team_a(best_split(players), 0),
        best_split(players) <= other,
        skill_gap(players, other) == skill_gap(players, best_split(players)),
{
    lemma_best_split_is_best(players);
    assert(is_candidate_split(other));
}

} // verus!
