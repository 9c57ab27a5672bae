//! The engine and its rules.
use matchmaker::balance::balance_teams;
use matchmaker::clock::{Duration, Instant};
use matchmaker::config::{
    BASE_RANGE, BUCKET_COUNT, MATCH_SIZE, MAX_RANGE, MAX_SKILL, RECENT_MATCH_LIMIT,
    RELAX_STEP_RANGE, RELAX_STEP_SECS, TEAM_SIZE,
};
use matchmaker::engine::Matchmaker;
use matchmaker::player::{
    to_team_members, validate_request, EnqueueError, Player, PlayerRequest, TeamMember,
};
use matchmaker::rules::{
    abs_diff, candidate_rank, is_compatible, ranks_not_after, relaxation_range, skill_bucket,
    waited_millis,
};
use std::cell::Cell;

fn player(id: usize, skill: u32) -> Player {
    Player {
        id: format!("p{}", id),
        skill,
        region: "na".to_string(),
        mode: "ranked".to_string(),
        enqueued_at: Instant::from_nanos(0),
        seq: id as u64,
    }
}

fn request(id: &str, skill: u32, region: &str, mode: &str) -> PlayerRequest {
    PlayerRequest {
        player_id: id.to_string(),
        skill,
        region: region.to_string(),
        mode: mode.to_string(),
    }
}

fn at_millis(millis: u64) -> Instant {
    Instant::from_nanos(millis * 1_000_000)
}

fn join(engine: &mut Matchmaker, id: &str, skill: u32, millis: u64) {
    engine
        .enqueue(request(id, skill, "na", "ranked"), || at_millis(millis))
        .unwrap();
}

/// A clock that tells 0 twice, and then `nanos`.
fn clock_taking(nanos: u64) -> impl Fn() -> Instant {
    let calls = Cell::new(0);
    move || {
        calls.set(calls.get() + 1);
        Instant::from_nanos(if calls.get() < 3 { 0 } else { nanos })
    }
}

fn names(team: &[TeamMember]) -> Vec<&str> {
    team.iter().map(|member| member.id.as_str()).collect()
}

fn waiting_players(engine: &Matchmaker) -> String {
    let text = engine.metrics_json(Duration::from_secs(0));
    let from = text.find("\"waiting_players\":").unwrap() + "\"waiting_players\":".len();
    text[from..].split(',').next().unwrap().to_string()
}

#[test]
fn balances_teams_by_total_skill() {
    let players = vec![
        player(1, 1000),
        player(2, 1010),
        player(3, 1020),
        player(4, 1030),
        player(5, 1040),
        player(6, 1050),
        player(7, 1060),
        player(8, 1070),
        player(9, 1080),
        player(10, 1090),
    ];

    let (team_a, team_b, diff) = balance_teams(&players);
    assert_eq!(team_a.len(), TEAM_SIZE);
    assert_eq!(team_b.len(), TEAM_SIZE);
    assert_eq!(diff, 10);
}

#[test]
fn relaxation_range_increases_with_wait_time() {
    assert_eq!(relaxation_range(Duration::from_secs(0)), BASE_RANGE);
    assert_eq!(
        relaxation_range(Duration::from_secs(RELAX_STEP_SECS)),
        BASE_RANGE + RELAX_STEP_RANGE
    );
    assert_eq!(relaxation_range(Duration::from_secs(1000)), MAX_RANGE);
}

#[test]
fn forms_one_match_and_evicts_players_atomically() {
    let mut engine = Matchmaker::new();
    for idx in 0..MATCH_SIZE {
        engine
            .enqueue(
                PlayerRequest {
                    player_id: format!("player-{}", idx),
                    skill: 1500 + idx as u32,
                    region: "na".to_string(),
                    mode: "ranked".to_string(),
                },
                || at_millis(0),
            )
            .unwrap();
    }

    let record = engine
        .try_form_match_from_bucket(skill_bucket(1500), at_millis(1), 0)
        .expect("expected a match");
    assert_eq!(record.team_a.len(), TEAM_SIZE);
    assert_eq!(record.team_b.len(), TEAM_SIZE);
    assert_eq!(engine.players_matched(), MATCH_SIZE as u64);
    assert_eq!(engine.players_enqueued(), MATCH_SIZE as u64);
    assert_eq!(engine.waiting_len(), 0);
}

#[test]
fn the_first_of_the_best_divisions_is_played() {
    let mut players = Vec::new();
    for idx in 0..10 {
        players.push(player(idx, 1500 + idx as u32));
    }
    let (team_a, team_b, diff) = balance_teams(&players);
    assert_eq!(diff, 1);
    let team_a_names: Vec<&str> = team_a.iter().map(|p| p.id.as_str()).collect();
    let team_b_names: Vec<&str> = team_b.iter().map(|p| p.id.as_str()).collect();
    assert_eq!(team_a_names, vec!["p0", "p4", "p5", "p6", "p7"]);
    assert_eq!(team_b_names, vec!["p1", "p2", "p3", "p8", "p9"]);
}

#[test]
fn no_division_is_closer_than_the_one_played() {
    let skills: [u32; 10] = [1200, 1850, 40, 3999, 2750, 2751, 900, 5000, 0, 1777];
    let players: Vec<Player> = skills
        .iter()
        .enumerate()
        .map(|(idx, skill)| player(idx, *skill))
        .collect();
    let (team_a, _, diff) = balance_teams(&players);
    let total: u32 = skills.iter().sum();
    let played: u32 = team_a.iter().map(|p| p.skill).sum();
    assert_eq!(diff, played.abs_diff(total - played));
    for mask in 0u32..1024 {
        if mask.count_ones() == 5 {
            let sum: u32 = (0..10).filter(|i| mask & (1 << i) != 0).map(|i| skills[i]).sum();
            assert!(diff <= sum.abs_diff(total - sum));
        }
    }
}

#[test]
fn even_hopeless_lobbies_get_two_full_teams() {
    let mut players = Vec::new();
    for idx in 0..9 {
        players.push(player(idx, 0));
    }
    players.push(player(9, u32::MAX));
    let (team_a, team_b, diff) = balance_teams(&players);
    assert_eq!(team_a.len(), TEAM_SIZE);
    assert_eq!(team_b.len(), TEAM_SIZE);
    assert_eq!(diff, u32::MAX);
}

#[test]
fn team_members_keep_name_and_rating() {
    let team = to_team_members(&[player(3, 1500), player(1, 7)]);
    assert_eq!(names(&team), vec!["p3", "p1"]);
    assert_eq!(team[0].skill, 1500);
    assert_eq!(team[1].skill, 7);
}

#[test]
fn relaxation_range_grows_by_steps() {
    assert_eq!(relaxation_range(Duration::new(1, 999_999_999)), 150);
    assert_eq!(relaxation_range(Duration::from_secs(2)), 400);
    assert_eq!(relaxation_range(Duration::from_secs(3)), 400);
    assert_eq!(relaxation_range(Duration::from_secs(4)), 650);
    assert_eq!(relaxation_range(Duration::from_secs(38)), 4900);
    assert_eq!(relaxation_range(Duration::from_secs(39)), 4900);
    assert_eq!(relaxation_range(Duration::from_secs(40)), 5000);
    assert_eq!(relaxation_range(Duration::from_secs(u64::MAX)), 5000);
}

#[test]
fn buckets_are_a_hundred_wide() {
    assert_eq!(skill_bucket(0), 0);
    assert_eq!(skill_bucket(99), 0);
    assert_eq!(skill_bucket(100), 1);
    assert_eq!(skill_bucket(4999), 49);
    assert_eq!(skill_bucket(5000), 50);
    assert_eq!(skill_bucket(u32::MAX), BUCKET_COUNT - 1);
}

#[test]
fn distances_have_no_sign() {
    assert_eq!(abs_diff(3, 10), 7);
    assert_eq!(abs_diff(10, 3), 7);
    assert_eq!(abs_diff(5, 5), 0);
}

#[test]
fn players_fit_by_region_mode_and_the_wider_range() {
    let anchor = player(1, 1000);
    let near = player(2, 1150);
    let far = player(3, 1151);
    assert!(is_compatible(&anchor, &near, at_millis(0)));
    assert!(is_compatible(&near, &anchor, at_millis(0)));
    assert!(!is_compatible(&anchor, &far, at_millis(0)));
    assert!(!is_compatible(&anchor, &far, at_millis(1999)));
    assert!(is_compatible(&anchor, &far, at_millis(2000)));

    let mut newcomer = player(4, 1400);
    newcomer.enqueued_at = at_millis(2000);
    assert!(is_compatible(&anchor, &newcomer, at_millis(2000)));
    newcomer.skill = 1401;
    assert!(!is_compatible(&anchor, &newcomer, at_millis(2000)));

    let mut abroad = player(5, 1000);
    abroad.region = "eu".to_string();
    assert!(!is_compatible(&anchor, &abroad, at_millis(0)));
    let mut casual = player(6, 1000);
    casual.mode = "casual".to_string();
    assert!(!is_compatible(&anchor, &casual, at_millis(0)));
}

#[test]
fn candidates_rank_by_distance_then_wait_then_arrival() {
    let anchor = player(1, 1000);
    let mut candidate = player(7, 1030);
    candidate.enqueued_at = at_millis(100);
    let place = candidate_rank(&anchor, &candidate, at_millis(350));
    assert_eq!(place, (30, u64::MAX - 250, 7));
    assert_eq!(waited_millis(&candidate, at_millis(350)), 250);
    assert_eq!(waited_millis(&candidate, at_millis(50)), 0);

    assert!(ranks_not_after((1, 9, 9), (2, 0, 0)));
    assert!(!ranks_not_after((2, 0, 0), (1, 9, 9)));
    assert!(ranks_not_after((1, 1, 9), (1, 2, 0)));
    assert!(ranks_not_after((1, 1, 1), (1, 1, 1)));
    assert!(!ranks_not_after((1, 1, 2), (1, 1, 1)));
}

#[test]
fn faulty_requests_are_told_their_first_fault() {
    let fault = |id: &str, skill: u32, region: &str, mode: &str| match validate_request(&request(
        id, skill, region, mode,
    )) {
        Ok(()) => "none".to_string(),
        Err(EnqueueError::Invalid(message)) => message,
        Err(EnqueueError::Duplicate) => "duplicate".to_string(),
    };
    assert_eq!(fault("p", MAX_SKILL, "na", "ranked"), "none");
    assert_eq!(fault("", 1, "na", "ranked"), "player_id must not be empty");
    assert_eq!(fault(" \t\u{3000}", 9999, "", ""), "player_id must not be empty");
    assert_eq!(fault("p", MAX_SKILL + 1, "", ""), "skill must be <= 5000");
    assert_eq!(fault("p", 1, "\n", ""), "region must not be empty");
    assert_eq!(fault("p", 1, "na", "  "), "mode must not be empty");
}

#[test]
fn refused_requests_leave_the_queue_alone() {
    let mut engine = Matchmaker::new();
    join(&mut engine, "ann", 1500, 0);
    let again = engine.enqueue(request("ann", 10, "eu", "casual"), || at_millis(5));
    assert!(matches!(again, Err(EnqueueError::Duplicate)));
    let invalid = engine.enqueue(request("bob", 5001, "na", "ranked"), || at_millis(5));
    assert!(matches!(invalid, Err(EnqueueError::Invalid(_))));
    assert_eq!(engine.players_enqueued(), 1);
    assert_eq!(engine.waiting_len(), 1);
    assert_eq!(engine.player_state_json("bob"), None);
    let metrics = engine.metrics_json(Duration::from_secs(0));
    assert!(metrics.contains("\"enqueue_rejections\":1,"));
}

#[test]
fn players_are_queued_and_then_matched() {
    let mut engine = Matchmaker::new();
    assert_eq!(engine.player_state_json("p0"), None);
    for idx in 0..10u32 {
        join(&mut engine, &format!("p{}", idx), 1500 + idx, 0);
    }
    assert_eq!(
        engine.player_state_json("p0"),
        Some("{\"state\":\"queued\"}".to_string())
    );
    let record = engine
        .try_form_match_from_bucket(15, at_millis(10_000), 77)
        .unwrap();
    assert_eq!(record.id, 1);
    assert_eq!(record.skill_diff, 1);
    assert_eq!(record.skill_spread, 9);
    assert_eq!(record.average_wait_ms, 10_000);
    assert_eq!(record.created_epoch_ms, 77);
    assert_eq!(names(&record.team_a), vec!["p0", "p4", "p5", "p6", "p7"]);
    assert_eq!(names(&record.team_b), vec!["p1", "p2", "p3", "p8", "p9"]);
    assert_eq!(
        engine.player_state_json("p4"),
        Some("{\"state\":\"matched\",\"match_id\":1,\"team\":\"A\"}".to_string())
    );
    assert_eq!(
        engine.player_state_json("p9"),
        Some("{\"state\":\"matched\",\"match_id\":1,\"team\":\"B\"}".to_string())
    );
    let again = engine.enqueue(request("p4", 1500, "na", "ranked"), || at_millis(20_000));
    assert!(matches!(again, Err(EnqueueError::Duplicate)));
    assert!(engine
        .try_form_match_from_bucket(15, at_millis(20_000), 78)
        .is_none());
}

#[test]
fn nine_are_not_enough() {
    let mut engine = Matchmaker::new();
    for idx in 0..9u32 {
        join(&mut engine, &format!("p{}", idx), 1500, 0);
    }
    assert!(engine
        .try_form_match_from_bucket(15, at_millis(1), 0)
        .is_none());
    assert_eq!(engine.waiting_len(), 9);
    join(&mut engine, "p9", 1500, 1);
    assert!(engine
        .try_form_match_from_bucket(14, at_millis(1), 0)
        .is_none());
    assert!(engine
        .try_form_match_from_bucket(15, at_millis(1), 0)
        .is_some());
}

#[test]
fn regions_and_modes_do_not_mix() {
    let mut engine = Matchmaker::new();
    for idx in 0..9u32 {
        join(&mut engine, &format!("p{}", idx), 1500, 0);
    }
    engine
        .enqueue(request("abroad", 1500, "eu", "ranked"), || at_millis(0))
        .unwrap();
    engine
        .enqueue(request("casual", 1500, "na", "casual"), || at_millis(0))
        .unwrap();
    assert!(engine
        .try_form_match_from_bucket(15, at_millis(100_000), 0)
        .is_none());
    assert_eq!(engine.waiting_len(), 11);
}

#[test]
fn the_ten_closest_are_picked() {
    let mut engine = Matchmaker::new();
    join(&mut engine, "anchor", 1500, 0);
    join(&mut engine, "far", 1640, 0);
    for idx in 0..9u32 {
        join(&mut engine, &format!("p{}", idx), 1500 + 10 * idx, 1);
    }
    let record = engine
        .try_form_match_from_bucket(15, at_millis(2), 0)
        .unwrap();
    assert_eq!(record.skill_spread, 80);
    assert_eq!(engine.waiting_len(), 1);
    assert_eq!(
        engine.player_state_json("far"),
        Some("{\"state\":\"queued\"}".to_string())
    );
}

#[test]
fn the_equally_close_go_by_their_wait() {
    let mut engine = Matchmaker::new();
    join(&mut engine, "anchor", 1500, 0);
    join(&mut engine, "late", 1500, 30);
    for idx in 0..9u32 {
        join(&mut engine, &format!("p{}", idx), 1500, 20);
    }
    engine
        .try_form_match_from_bucket(15, at_millis(40), 0)
        .unwrap();
    assert_eq!(
        engine.player_state_json("late"),
        Some("{\"state\":\"queued\"}".to_string())
    );
    assert_eq!(engine.waiting_len(), 1);
}

#[test]
fn a_long_wait_reaches_every_rating() {
    let mut engine = Matchmaker::new();
    join(&mut engine, "anchor", 0, 0);
    for idx in 1..10u32 {
        join(&mut engine, &format!("p{}", idx), 500 * idx + 500, 39_000);
    }
    assert!(engine
        .try_form_match_from_bucket(0, at_millis(39_999), 0)
        .is_none());
    let record = engine
        .try_form_match_from_bucket(0, at_millis(40_000), 0)
        .unwrap();
    assert_eq!(record.skill_spread, 5000);
    assert_eq!(engine.waiting_len(), 0);
}

#[test]
fn those_who_stay_keep_their_order() {
    let mut engine = Matchmaker::new();
    for idx in 0..25u64 {
        join(&mut engine, &format!("p{}", idx), 1500, idx);
    }
    for round in 0..2u64 {
        let record = engine
            .try_form_match_from_bucket(15, at_millis(100 + round), 0)
            .unwrap();
        assert_eq!(record.id, round + 1);
        let first = 10 * round;
        let team_a: Vec<String> = (first..first + 5).map(|idx| format!("p{}", idx)).collect();
        let team_b: Vec<String> = (first + 5..first + 10)
            .map(|idx| format!("p{}", idx))
            .collect();
        assert_eq!(names(&record.team_a), team_a);
        assert_eq!(names(&record.team_b), team_b);
    }
    assert_eq!(engine.waiting_len(), 5);
}

#[test]
fn counters_add_up() {
    let mut engine = Matchmaker::new();
    for idx in 0..25u64 {
        engine
            .enqueue(
                request(&format!("p{}", idx), 1500, "na", "ranked"),
                clock_taking(30 + idx),
            )
            .unwrap();
    }
    assert!(engine
        .try_form_match_from_bucket(15, at_millis(100), 0)
        .is_some());
    assert!(engine
        .try_form_match_from_bucket(15, at_millis(200), 0)
        .is_some());
    assert!(engine
        .try_form_match_from_bucket(15, at_millis(300), 0)
        .is_none());
    assert_eq!(waiting_players(&engine), "5");
    assert_eq!(engine.waiting_len(), 5);
    assert_eq!(
        engine.metrics_json(Duration::new(4, 100_999_999)),
        "{\"players_enqueued\":25,\"players_matched\":20,\"waiting_players\":5,\
         \"matches_created\":2,\"enqueue_rejections\":0,\"avg_wait_ms\":150,\
         \"avg_team_skill_diff\":0,\"avg_match_skill_spread\":0,\"avg_enqueue_ns\":42,\
         \"uptime_ms\":4100}"
    );
}

#[test]
fn only_accepted_requests_are_timed() {
    let mut engine = Matchmaker::new();
    engine
        .enqueue(request("ann", 1500, "na", "ranked"), clock_taking(900))
        .unwrap();
    assert_eq!(engine.counters().total_enqueue_ns, 900);
    assert!(engine
        .enqueue(request("ann", 1500, "na", "ranked"), clock_taking(900))
        .is_err());
    assert!(engine
        .enqueue(request("", 1500, "na", "ranked"), clock_taking(900))
        .is_err());
    assert_eq!(engine.counters().total_enqueue_ns, 900);
    assert_eq!(engine.counters().enqueue_rejections, 1);
    assert_eq!(
        engine.counters().metrics_json(Duration::from_secs(2)),
        engine.metrics_json(Duration::from_secs(2))
    );
}

#[test]
fn the_equally_close_and_patient_go_by_their_numbers() {
    let mut engine = Matchmaker::new();
    join(&mut engine, "anchor", 1500, 0);
    for idx in 0..5u32 {
        join(&mut engine, &format!("above{}", idx), 1510, 0);
        join(&mut engine, &format!("below{}", idx), 1490, 0);
    }
    engine
        .try_form_match_from_bucket(15, at_millis(1), 0)
        .unwrap();
    assert_eq!(engine.waiting_len(), 1);
    assert_eq!(
        engine.player_state_json("below4"),
        Some("{\"state\":\"queued\"}".to_string())
    );
}

#[test]
fn an_unused_engine_has_nothing_to_average() {
    let engine = Matchmaker::new();
    assert_eq!(
        engine.metrics_json(Duration::from_secs(0)),
        "{\"players_enqueued\":0,\"players_matched\":0,\"waiting_players\":0,\
         \"matches_created\":0,\"enqueue_rejections\":0,\"avg_wait_ms\":0,\
         \"avg_team_skill_diff\":0,\"avg_match_skill_spread\":0,\"avg_enqueue_ns\":0,\
         \"uptime_ms\":0}"
    );
    assert_eq!(engine.recent_matches_json(5), "{\"matches\":[]}");
}

#[test]
fn recent_matches_come_newest_first_and_not_more_than_kept() {
    let mut engine = Matchmaker::new();
    for round in 0..RECENT_MATCH_LIMIT + 2 {
        for idx in 0..10 {
            join(&mut engine, &format!("p{}-{}", round, idx), 1500, 0);
        }
        engine
            .try_form_match_from_bucket(15, at_millis(1), 9)
            .unwrap();
    }
    let one = engine.recent_matches_json(1);
    assert_eq!(
        one,
        "{\"matches\":[{\"match_id\":102,\"created_epoch_ms\":9,\"skill_diff\":0,\
         \"skill_spread\":0,\"average_wait_ms\":1,\"team_a\":[\
         {\"player_id\":\"p101-0\",\"skill\":1500},{\"player_id\":\"p101-1\",\"skill\":1500},\
         {\"player_id\":\"p101-2\",\"skill\":1500},{\"player_id\":\"p101-3\",\"skill\":1500},\
         {\"player_id\":\"p101-4\",\"skill\":1500}],\"team_b\":[\
         {\"player_id\":\"p101-5\",\"skill\":1500},{\"player_id\":\"p101-6\",\"skill\":1500},\
         {\"player_id\":\"p101-7\",\"skill\":1500},{\"player_id\":\"p101-8\",\"skill\":1500},\
         {\"player_id\":\"p101-9\",\"skill\":1500}]}]}"
    );
    let all = engine.recent_matches_json(1000);
    assert_eq!(all.matches("\"match_id\":").count(), RECENT_MATCH_LIMIT);
    assert!(all.starts_with("{\"matches\":[{\"match_id\":102,"));
    assert!(all.contains("},{\"match_id\":3,"));
    assert!(!all.contains("\"match_id\":2,"));
}

#[test]
fn spans_and_points_in_time_are_plain_numbers() {
    let span = Duration::new(3, 141_592_653);
    assert_eq!(span.as_secs(), 3);
    assert_eq!(span.as_millis(), 3_141);
    assert_eq!(span.as_nanos(), 3_141_592_653);
    assert_eq!(Duration::from_nanos(2_000_000_001).as_secs(), 2);
    let early = Instant::from_nanos(10);
    let late = Instant::from_nanos(35);
    assert_eq!(late.duration_since(early).as_nanos(), 25);
    assert_eq!(early.duration_since(late).as_nanos(), 0);
    assert_eq!(late.as_nanos(), 35);
}
