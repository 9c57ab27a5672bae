//! Players, the requests that bring them, and the matches they end up in.
use crate::clock::Instant;
use crate::config::MAX_SKILL;
use crate::text::{blank, decimal, is_blank, push_decimal};
use vstd::prelude::*;

verus! {

/// A player waiting for a match.
#[derive(Debug)]
pub struct Player {
    /// The unique name of the player.
    pub id: String,
    /// The rating.
    pub skill: u32,
    /// The region to play in.
    pub region: String,
    /// The game mode to play.
    pub mode: String,
    /// When the player joined the queue.
    pub enqueued_at: Instant,
    /// The place of the player in the order of arrival.
    pub seq: u64,
}

/// What a `Player` says, as a mathematical value.
pub struct PlayerView {
    pub id: Seq<char>,
    pub skill: u32,
    pub region: Seq<char>,
    pub mode: Seq<char>,
    pub enqueued_at: nat,
    pub seq: u64,
}

impl View for Player {
    type V = PlayerView;

    open spec fn view(&self) -> PlayerView {
        PlayerView {
            id: self.id@,
            skill: self.skill,
            region: self.region@,
            mode: self.mode@,
            enqueued_at: self.enqueued_at@,
            seq: self.seq,
        }
    }
}

impl DeepView for Player {
    type V = PlayerView;

    open spec fn deep_view(&self) -> PlayerView {
        self@
    }
}

impl Clone for Player {
    fn clone(&self) -> (copy: Self)
        ensures
            copy@ == self@,
    {
        Player {
            id: self.id.clone(),
            skill: self.skill,
            region: self.region.clone(),
            mode: self.mode.clone(),
            enqueued_at: self.enqueued_at,
            seq: self.seq,
        }
    }
}

/// A player in a team.
#[derive(Debug)]
pub struct TeamMember {
    /// The name of the player.
    pub id: String,
    /// The rating.
    pub skill: u32,
}

/// What a `TeamMember` says.
pub struct MemberView {
    pub id: Seq<char>,
    pub skill: u32,
}

impl View for TeamMember {
    type V = MemberView;

    open spec fn view(&self) -> MemberView {
        MemberView { id: self.id@, skill: self.skill }
    }
}

impl DeepView for TeamMember {
    type V = MemberView;

    open spec fn deep_view(&self) -> MemberView {
        self@
    }
}

impl Clone for TeamMember {
    fn clone(&self) -> (copy: Self)
        ensures
            copy@ == self@,
    {
        TeamMember { id: self.id.clone(), skill: self.skill }
    }
}

/// What is kept of the players of a team.
pub open spec fn members(players: Seq<PlayerView>) -> Seq<MemberView> {
    players.map_values(|p: PlayerView| MemberView { id: p.id, skill: p.skill })
}

/// What is kept of the players of a team.
pub fn to_team_members(players: &[Player]) -> (team: Vec<TeamMember>)
    ensures
        team.deep_view() == members(players.deep_view()),
{
    let mut team: Vec<TeamMember> = Vec::new();
    for i in 0..players.len()
        invariant
            team.deep_view() == members(players.deep_view()).take(i as int),
    {
        let ghost before = team.deep_view();
        team.push(TeamMember { id: players[i].id.clone(), skill: players[i].skill });
        assert(team.deep_view() =~= before.push(members(players.deep_view())[i as int]));
    }
    assert(team.deep_view() =~= members(players.deep_view()));
    team
}

/// A match that was formed.
#[derive(Debug)]
pub struct MatchRecord {
    /// The number of the match.
    pub id: u64,
    /// The first team.
    pub team_a: Vec<TeamMember>,
    /// The second team.
    pub team_b: Vec<TeamMember>,
    /// The difference between the teams' total ratings.
    pub skill_diff: u32,
    /// The difference between the highest and the lowest rating.
    pub skill_spread: u32,
    /// The average wait of the players in milliseconds.
    pub average_wait_ms: u64,
    /// When the match was formed, in milliseconds of Unix time.
    pub created_epoch_ms: u128,
}

/// What a `MatchRecord` says.
pub struct MatchView {
    pub id: u64,
    pub team_a: Seq<MemberView>,
    pub team_b: Seq<MemberView>,
    pub skill_diff: u32,
    pub skill_spread: u32,
    pub average_wait_ms: u64,
    pub created_epoch_ms: u128,
}

impl View for MatchRecord {
    type V = MatchView;

    open spec fn view(&self) -> MatchView {
        MatchView {
            id: self.id,
            team_a: self.team_a.deep_view(),
            team_b: self.team_b.deep_view(),
            skill_diff: self.skill_diff,
            skill_spread: self.skill_spread,
            average_wait_ms: self.average_wait_ms,
            created_epoch_ms: self.created_epoch_ms,
        }
    }
}

impl DeepView for MatchRecord {
    type V = MatchView;

    open spec fn deep_view(&self) -> MatchView {
        self@
    }
}

fn clone_team(team: &Vec<TeamMember>) -> (copy: Vec<TeamMember>)
    ensures
        copy.deep_view() == team.deep_view(),
{
    let mut copy: Vec<TeamMember> = Vec::new();
    for i in 0..team.len()
        invariant
            copy.deep_view() == team.deep_view().take(i as int),
    {
        let ghost before = copy.deep_view();
        copy.push(team[i].clone());
        assert(copy.deep_view() =~= before.push(team.deep_view()[i as int]));
    }
    assert(copy.deep_view() =~= team.deep_view());
    copy
}

impl Clone for MatchRecord {
    fn clone(&self) -> (copy: Self)
        ensures
            copy@ == self@,
    {
        MatchRecord {
            id: self.id,
            team_a: clone_team(&self.team_a),
            team_b: clone_team(&self.team_b),
            skill_diff: self.skill_diff,
            skill_spread: self.skill_spread,
            average_wait_ms: self.average_wait_ms,
            created_epoch_ms: self.created_epoch_ms,
        }
    }
}

/// One of the two teams of a match.
#[derive(Clone, Copy, Debug, PartialEq, Eq, Structural)]
pub enum Team {
    A,
    B,
}

impl Team {
    /// The name of the team.
    pub open spec fn name(self) -> Seq<char> {
        match self {
            Team::A => "A"@,
            Team::B => "B"@,
        }
    }

    /// The name of the team.
    pub fn as_str(self) -> (name: &'static str)
        ensures
            name@ == self.name(),
    {
        match self {
            Team::A => "A",
            Team::B => "B",
        }
    }
}

/// Where a player plays.
#[derive(Clone, Copy, Debug, PartialEq, Eq, Structural)]
pub struct PlayerAssignment {
    /// The number of the match.
    pub match_id: u64,
    /// The team in it.
    pub team: Team,
}

/// A request to join the queue.
#[derive(Debug)]
pub struct PlayerRequest {
    /// The unique name of the player.
    pub player_id: String,
    /// The rating.
    pub skill: u32,
    /// The region to play in.
    pub region: String,
    /// The game mode to play.
    pub mode: String,
}

/// What a `PlayerRequest` says.
pub struct RequestView {
    pub player_id: Seq<char>,
    pub skill: u32,
    pub region: Seq<char>,
    pub mode: Seq<char>,
}

impl View for PlayerRequest {
    type V = RequestView;

    open spec fn view(&self) -> RequestView {
        RequestView {
            player_id: self.player_id@,
            skill: self.skill,
            region: self.region@,
            mode: self.mode@,
        }
    }
}

/// Why a request was refused.
#[derive(Debug)]
pub enum EnqueueError {
    /// The player already waits or plays.
    Duplicate,
    /// The request makes no sense, for the reason given.
    Invalid(String),
}

/// What is wrong with a request: the first of these faults, or none.
pub open spec fn request_fault(request: RequestView) -> Option<Seq<char>> {
    if is_blank(request.player_id) {
        Some("player_id must not be empty"@)
    } else if request.skill > MAX_SKILL {
        Some("skill must be <= "@ + decimal(MAX_SKILL as nat))
    } else if is_blank(request.region) {
        Some("region must not be empty"@)
    } else if is_blank(request.mode) {
        Some("mode must not be empty"@)
    } else {
        None
    }
}

/// Accepts a request without fault, and refuses any other with its fault.
pub fn validate_request(request: &PlayerRequest) -> (verdict: Result<(), EnqueueError>)
    ensures
        match verdict {
            Ok(()) => request_fault(request@) is None,
            Err(EnqueueError::Invalid(message)) => request_fault(request@) == Some(message@),
            Err(EnqueueError::Duplicate) => false,
        },
{
    if blank(&request.player_id) {
        return Err(EnqueueError::Invalid("player_id must not be empty".to_string()));
    }
    if request.skill > MAX_SKILL {
        let mut message = "skill must be <= ".to_string();
        push_decimal(&mut message, MAX_SKILL as u128);
        return Err(EnqueueError::Invalid(message));
    }
    if blank(&request.region) {
        return Err(EnqueueError::Invalid("region must not be empty".to_string()));
    }
    if blank(&request.mode) {
        return Err(EnqueueError::Invalid("mode must not be empty".to_string()));
    }
    Ok(())
}

} // verus!
