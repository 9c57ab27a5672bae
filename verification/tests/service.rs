//! The text and the bytes that the service speaks.
use matchmaker::clock::{Duration, Instant};
use matchmaker::engine::Matchmaker;
use matchmaker::http::{
    action_for, has_whole_escapes, http_response, is_param_decodable, is_routable, join_response,
    percent_decode, percent_decode_bytes, player_response, query_param, route_request, Action,
};
use matchmaker::json::{
    json_escape, json_string, json_u32, match_record_json, parse_player_request, team_json,
};
use matchmaker::options::parse_args;
use matchmaker::player::{EnqueueError, MatchRecord, TeamMember};
use matchmaker::reader::{
    find_subsequence, parse_content_length, HttpRequest, ReadStep, RequestReader,
};
use matchmaker::text::{
    blank, chars_of, find_char, lines, next_word, parse_size, read_number, read_text, split,
    string_of, trim,
};
use matchmaker::worker::{Worker, REST_MILLIS};

fn ask(engine: &mut Matchmaker, method: &str, path: &str, body: &str) -> String {
    let request = HttpRequest {
        method: method.to_string(),
        path: path.to_string(),
        body: body.to_string(),
    };
    assert!(is_routable(&request));
    route_request(
        &request,
        engine,
        || Instant::from_nanos(0),
        Duration::from_secs(1),
    )
}

fn response(status: &str, body: &str) -> String {
    format!(
        "HTTP/1.1 {}\r\nContent-Type: application/json\r\nContent-Length: {}\r\nConnection: close\r\n\r\n{}",
        status,
        body.len(),
        body
    )
}

fn args(words: &[&str]) -> Vec<String> {
    words.iter().map(|word| word.to_string()).collect()
}

#[test]
fn parses_basic_enqueue_payload() {
    let request = parse_player_request(
        r#"{"player_id":"abc","skill":1732,"region":"eu","mode":"ranked"}"#,
    )
    .unwrap();
    assert_eq!(request.player_id, "abc");
    assert_eq!(request.skill, 1732);
    assert_eq!(request.region, "eu");
    assert_eq!(request.mode, "ranked");
}

#[test]
fn payloads_may_hold_white_space_and_escapes() {
    let request = parse_player_request(
        "{\"player_id\" : \"x\\\"y\\n\", \"skill\":\t7 , \"region\"\n:\"eu\",\"mode\":\"casual\"}",
    )
    .unwrap();
    assert_eq!(request.player_id, "x\"y\n");
    assert_eq!(request.skill, 7);
    assert_eq!(request.region, "eu");
    assert_eq!(request.mode, "casual");
}

#[test]
fn payloads_give_all_four_fields() {
    let none = |body: &str| parse_player_request(body).is_none();
    assert!(none(r#"{"player_id":"p1","skill":1830,"mode":"ranked"}"#));
    assert!(none(r#"{"player_id":"p1","skill":1830,"region":"na"}"#));
    assert!(none(r#"{"player_id":"p1","region":"na","mode":"ranked"}"#));
    assert!(none(r#"{"skill":1830,"region":"na","mode":"ranked"}"#));
    assert!(none(r#"{"id":"p1","skill":1830,"region":"na","mode":"ranked"}"#));
    assert!(none(r#"{"player_id":"p1","skill":1830,"region":7,"mode":"ranked"}"#));
}

#[test]
fn ratings_are_integers() {
    let skill = |written: &str| {
        let body = format!(
            "{{\"player_id\":\"p1\",\"skill\":{},\"region\":\"na\",\"mode\":\"ranked\"}}",
            written
        );
        parse_player_request(&body).map(|request| request.skill)
    };
    assert_eq!(skill("1830"), Some(1830));
    assert_eq!(skill("1830.5"), None);
    assert_eq!(skill("1830e1"), None);
    assert_eq!(skill("-1830"), None);
    assert_eq!(skill("\"1830\""), None);
    assert_eq!(skill("4294967296"), None);
}

#[test]
fn players_may_be_named_like_fields() {
    for name in ["region", "mode", "skill", "player_id", "x\\\"region", "\\\"mode\\\":"] {
        let body = format!(
            "{{\"player_id\":\"{}\",\"skill\":7,\"region\":\"mode\",\"mode\":\"ranked\"}}",
            name
        );
        let request = parse_player_request(&body).unwrap();
        assert_eq!(json_escape(&request.player_id), name);
        assert_eq!(request.skill, 7);
        assert_eq!(request.region, "mode");
        assert_eq!(request.mode, "ranked");
    }
}

#[test]
fn strings_are_found_by_their_key() {
    let body = "{\"a\":\"1\\t\\r\\q\\\\\", \"b\" x : \"2\", \"b\" \t: \"4\", \"c\":3, \"d\":\"open";
    assert_eq!(json_string(body, "a"), Some("1\t\rq\\".to_string()));
    assert_eq!(json_string(body, "b"), Some("2".to_string()));
    assert_eq!(json_string(body, "c"), None);
    assert_eq!(json_string(body, "d"), None);
    assert_eq!(json_string(body, "e"), None);
    assert_eq!(json_string("\"a\"", "a"), None);
    assert_eq!(json_string("\"a\":", "a"), None);
    assert_eq!(json_string("\"a\":\"x\\", "a"), None);
}

#[test]
fn other_text_is_only_searched() {
    assert_eq!(json_string("\"id\",:\"v\"", "id"), Some("v".to_string()));
    assert_eq!(json_string("\"id\",:\"v\" \"id\":\"w\"", "id"), Some("v".to_string()));
    assert_eq!(json_string("{\"x\":[\"id\"],\"id\":\"v\"}", "id"), Some("v".to_string()));
    let broken = "{\"a\":\"b\",\"x\":7x,\"b\":\"c\"}";
    assert_eq!(json_string(broken, "b"), None);
    let trailing = "{\"a\":\"b\",\"x\":\"y\",\"b\":\"c\",}";
    assert_eq!(json_string(trailing, "b"), Some("y".to_string()));
}

#[test]
fn objects_are_read_by_their_fields() {
    let body = " {\"a\" : \"b\", \"n\":-1.5e+3 ,\"t\":true,\"f\":false,\"u\":null,\"b\":\"c\"} \n";
    assert_eq!(json_string(body, "b"), Some("c".to_string()));
    assert_eq!(json_string(body, "a"), Some("b".to_string()));
    assert_eq!(json_string(body, "t"), None);
    assert_eq!(json_u32(body, "n"), None);
    assert_eq!(json_string("{\"a\":\"b\",\"x\":\"y\"}", "b"), None);
    assert_eq!(json_string("{\"a\":\"1\",\"a\":\"2\"}", "a"), Some("1".to_string()));
    assert_eq!(json_string("{}", "a"), None);
}

#[test]
fn numbers_are_found_by_their_key() {
    assert_eq!(json_u32("{\"n\": \r\n\u{c}42}", "n"), Some(42));
    assert_eq!(json_u32("{\"n\":4294967295}", "n"), Some(u32::MAX));
    assert_eq!(json_u32("{\"n\":4294967296}", "n"), None);
    assert_eq!(json_u32("{\"n\":\"42\"}", "n"), None);
    assert_eq!(json_u32("{\"n\":7x}", "n"), None);
    assert_eq!(json_u32("{\"n\":7.0}", "n"), None);
    assert_eq!(json_u32("{\"n\":7}", "n"), Some(7));
    assert_eq!(json_u32("{\"n\":7,", "n"), Some(7));
    assert_eq!(json_u32("[\"n\":7]", "n"), Some(7));
    assert_eq!(json_u32("{\"n\":7\r\n}", "n"), Some(7));
    assert_eq!(json_u32("\"n\":7", "n"), Some(7));
    assert_eq!(json_u32("{\"m\":1}", "n"), None);
}

#[test]
fn what_is_escaped_is_read_back() {
    let text = "a\"b\\c\nd\re\tf\u{e9}\u{1f3ae}";
    assert_eq!(
        json_escape(text),
        "a\\\"b\\\\c\\nd\\re\\tf\u{e9}\u{1f3ae}"
    );
    let body = format!("{{\"k\":\"{}\"}}", json_escape(text));
    assert_eq!(json_string(&body, "k"), Some(text.to_string()));
}

#[test]
fn teams_and_matches_are_written_in_json() {
    let team = vec![
        TeamMember {
            id: "a\"b".to_string(),
            skill: 12,
        },
        TeamMember {
            id: "c".to_string(),
            skill: 0,
        },
    ];
    assert_eq!(
        team_json(&team),
        "[{\"player_id\":\"a\\\"b\",\"skill\":12},{\"player_id\":\"c\",\"skill\":0}]"
    );
    assert_eq!(team_json(&[]), "[]");
    let record = MatchRecord {
        id: 3,
        team_a: vec![TeamMember {
            id: "x".to_string(),
            skill: 5,
        }],
        team_b: Vec::new(),
        skill_diff: 5,
        skill_spread: 6,
        average_wait_ms: 7,
        created_epoch_ms: 1_700_000_000_000,
    };
    assert_eq!(
        match_record_json(&record),
        "{\"match_id\":3,\"created_epoch_ms\":1700000000000,\"skill_diff\":5,\"skill_spread\":6,\
         \"average_wait_ms\":7,\"team_a\":[{\"player_id\":\"x\",\"skill\":5}],\"team_b\":[]}"
    );
}

#[test]
fn responses_count_their_bytes() {
    assert_eq!(http_response(200, "{}"), response("200 OK", "{}"));
    assert_eq!(http_response(202, "{}"), response("202 Accepted", "{}"));
    assert_eq!(http_response(400, ""), response("400 Bad Request", ""));
    assert_eq!(http_response(404, "\u{e9}"), response("404 Not Found", "\u{e9}"));
    assert!(http_response(404, "\u{e9}").contains("Content-Length: 2\r\n"));
    assert_eq!(http_response(409, "x"), response("409 Conflict", "x"));
    assert_eq!(
        http_response(500, "x"),
        response("500 Internal Server Error", "x")
    );
}

#[test]
fn responses_give_their_length() {
    for body in ["", "{}", "\u{e9}\r\n\r\n", "Content-Length: 3\r\n\r\nabc"] {
        for status in [200u16, 202, 400, 404, 409, 500, 65535] {
            let text = http_response(status, body);
            assert_eq!(parse_content_length(&text), Some(body.len()));
            let at = find_subsequence(text.as_bytes(), b"\r\n\r\n").unwrap();
            assert_eq!(&text[at + 4..], body);
        }
    }
}

#[test]
fn requests_ask_for_actions() {
    let action = |method: &str, path: &str, body: &str| {
        action_for(&HttpRequest {
            method: method.to_string(),
            path: path.to_string(),
            body: body.to_string(),
        })
    };
    assert!(matches!(action("GET", "/metrics", ""), Action::ShowMetrics));
    assert!(matches!(action("GET", "/matches?limit=7", ""), Action::ShowMatches(7)));
    assert!(matches!(action("GET", "/matches", ""), Action::ShowMatches(20)));
    assert!(matches!(action("GET", "/player/a%20b", ""), Action::ShowPlayer(id) if id == "a b"));
    assert!(matches!(action("GET", "/nothing", ""), Action::Respond(text)
        if text == response("404 Not Found", "{\"error\":\"not found\"}")));
    let body = "{\"player_id\":\"p1\",\"skill\":9,\"region\":\"na\",\"mode\":\"ranked\"}";
    assert!(matches!(action("POST", "/enqueue", body), Action::Join(wish) if wish.skill == 9));
    assert_eq!(
        join_response(&Err(EnqueueError::Invalid("a\"b".to_string()))),
        response("400 Bad Request", "{\"error\":\"a\\\"b\"}")
    );
    assert_eq!(
        player_response(&None),
        response("404 Not Found", "{\"error\":\"player not found\"}")
    );
}

#[test]
fn the_service_answers_its_paths() {
    let mut engine = Matchmaker::new();
    assert_eq!(
        ask(&mut engine, "GET", "/health", ""),
        response("200 OK", "{\"status\":\"ok\"}")
    );
    assert_eq!(
        ask(&mut engine, "GET", "/health?x=1", ""),
        response("200 OK", "{\"status\":\"ok\"}")
    );
    let metrics = engine.metrics_json(Duration::from_secs(1));
    assert_eq!(
        ask(&mut engine, "GET", "/metrics", ""),
        response("200 OK", &metrics)
    );
    assert_eq!(
        ask(&mut engine, "POST", "/metrics", ""),
        response("404 Not Found", "{\"error\":\"not found\"}")
    );
    assert_eq!(
        ask(&mut engine, "GET", "/", ""),
        response("404 Not Found", "{\"error\":\"not found\"}")
    );
    assert_eq!(
        ask(&mut engine, "GET", "/player", ""),
        response("404 Not Found", "{\"error\":\"not found\"}")
    );
}

#[test]
fn joining_is_accepted_once() {
    let mut engine = Matchmaker::new();
    let body = "{\"player_id\":\"p 1\",\"skill\":1830,\"region\":\"na\",\"mode\":\"ranked\"}";
    assert_eq!(
        ask(&mut engine, "GET", "/player/p%201", ""),
        response("404 Not Found", "{\"error\":\"player not found\"}")
    );
    assert_eq!(
        ask(&mut engine, "POST", "/enqueue", body),
        response("202 Accepted", "{\"status\":\"queued\"}")
    );
    assert_eq!(
        ask(&mut engine, "GET", "/player/p%201", ""),
        response("200 OK", "{\"state\":\"queued\"}")
    );
    assert_eq!(
        ask(&mut engine, "GET", "/player/p+1?full", ""),
        response("200 OK", "{\"state\":\"queued\"}")
    );
    assert_eq!(
        ask(&mut engine, "POST", "/enqueue", body),
        response(
            "409 Conflict",
            "{\"error\":\"player is already queued or matched\"}"
        )
    );
    assert_eq!(
        ask(&mut engine, "POST", "/enqueue", "{}"),
        response("400 Bad Request", "{\"error\":\"invalid player payload\"}")
    );
    assert_eq!(
        ask(
            &mut engine,
            "POST",
            "/enqueue",
            "{\"player_id\":\"q\",\"skill\":5001,\"region\":\"na\",\"mode\":\"ranked\"}"
        ),
        response("400 Bad Request", "{\"error\":\"skill must be <= 5000\"}")
    );
    assert_eq!(engine.players_enqueued(), 1);
}

#[test]
fn the_number_of_matches_shown_is_a_choice() {
    let mut engine = Matchmaker::new();
    for idx in 0..300 {
        let body = format!(
            "{{\"player_id\":\"p{}\",\"skill\":1500,\"region\":\"na\",\"mode\":\"ranked\"}}",
            idx
        );
        ask(&mut engine, "POST", "/enqueue", &body);
    }
    for _ in 0..30 {
        engine
            .try_form_match_from_bucket(15, Instant::from_nanos(0), 0)
            .unwrap();
    }
    let shown = |engine: &mut Matchmaker, path: &str| {
        ask(engine, "GET", path, "").matches("\"match_id\":").count()
    };
    assert_eq!(shown(&mut engine, "/matches"), 20);
    assert_eq!(shown(&mut engine, "/matches?limit=5"), 5);
    assert_eq!(shown(&mut engine, "/matches?limit=%35"), 5);
    assert_eq!(shown(&mut engine, "/matches?a=1&limit=25&limit=3"), 25);
    assert_eq!(shown(&mut engine, "/matches?limit=1000"), 30);
    assert_eq!(shown(&mut engine, "/matches?limit=x"), 20);
    assert_eq!(shown(&mut engine, "/matches?limit"), 20);
    assert_eq!(shown(&mut engine, "/matches?limit=0"), 0);
    assert_eq!(shown(&mut engine, "/matches?limit=%2b4"), 4);
}

#[test]
fn percent_escapes_are_resolved() {
    assert_eq!(percent_decode("plain"), "plain");
    assert_eq!(percent_decode("a+b%20c%2B"), "a b c+");
    assert_eq!(percent_decode("%C3%a9"), "\u{e9}");
    assert_eq!(percent_decode("\u{e9}"), "\u{e9}");
    assert_eq!(percent_decode("%zz%4"), "%zz%4");
    assert_eq!(percent_decode("%"), "%");
    assert_eq!(percent_decode("%+a"), "\n");
    assert_eq!(percent_decode("%ff"), "\u{fffd}");
    assert_eq!(percent_decode("%3f%2B%25%f0%9F%8e%AE"), "?+%\u{1f3ae}");
    assert_eq!(percent_decode_bytes(&[37, 52, 49, 37, 52]), vec![65, 37, 52]);
}

#[test]
fn escapes_that_split_a_character_are_seen() {
    assert!(has_whole_escapes("%41%"));
    assert!(has_whole_escapes("%\u{e9}"));
    assert!(!has_whole_escapes("%a\u{e9}"));
    assert!(has_whole_escapes("%ab\u{e9}"));
    let request = HttpRequest {
        method: "GET".to_string(),
        path: "/player/%a\u{e9}".to_string(),
        body: String::new(),
    };
    assert!(!is_routable(&request));
    let request = HttpRequest {
        method: "POST".to_string(),
        path: "/player/%a\u{e9}".to_string(),
        body: String::new(),
    };
    assert!(is_routable(&request));
    let request = HttpRequest {
        method: "GET".to_string(),
        path: "/matches?limit=%a\u{e9}".to_string(),
        body: String::new(),
    };
    assert!(!is_routable(&request));
}

#[test]
fn query_parameters_are_found() {
    assert_eq!(query_param("/x?a=1&b=2+3&a=4", "a"), Some("1".to_string()));
    assert_eq!(query_param("/x?a=1&b=2+3", "b"), Some("2 3".to_string()));
    assert_eq!(query_param("/x?a", "a"), Some(String::new()));
    assert_eq!(query_param("/x?a=b=c", "a"), Some("b=c".to_string()));
    assert_eq!(query_param("/x?y?a=1", "a"), None);
    assert_eq!(query_param("/x", "a"), None);
    assert_eq!(query_param("/x?", ""), Some(String::new()));
    assert!(is_param_decodable("/x?a=%41", "a"));
    assert!(!is_param_decodable("/x?a=%4\u{e9}", "a"));
    assert!(is_param_decodable("/x?a=%4\u{e9}", "b"));
}

#[test]
fn a_part_is_found_where_it_first_stands() {
    assert_eq!(find_subsequence(&[1, 2, 1, 2, 3], &[1, 2, 3]), Some(2));
    assert_eq!(find_subsequence(&[1, 2, 1, 2, 3], &[1, 2]), Some(0));
    assert_eq!(find_subsequence(&[1, 2], &[1, 2, 3]), None);
    assert_eq!(find_subsequence(&[], &[1]), None);
}

#[test]
fn the_length_of_the_body_is_announced() {
    assert_eq!(
        parse_content_length("GET / HTTP/1.1\r\nContent-Length: 12\r\n\r\n"),
        Some(12)
    );
    assert_eq!(parse_content_length("cOnTeNt-LeNgTh:+7\n"), Some(7));
    assert_eq!(parse_content_length("Content-Length : 7\r\n"), None);
    assert_eq!(
        parse_content_length("Content-Length: x\r\nContent-Length: 7\r\n"),
        None
    );
    assert_eq!(parse_content_length("Host: a\r\n\r\n"), None);
}

#[test]
fn requests_are_read_piece_by_piece() {
    let mut reader = RequestReader::new();
    assert_eq!(reader.feed(b"POST /enqueue?x HTTP/1.1\r\nContent-"), ReadStep::More);
    assert!(reader.finish().is_none());
    assert_eq!(reader.feed(b"Length: 5\r\n\r"), ReadStep::More);
    assert_eq!(reader.feed(b"\nhel"), ReadStep::More);
    assert_eq!(reader.feed(b"lo, and more"), ReadStep::Stop);
    let request = reader.finish().unwrap();
    assert_eq!(request.method, "POST");
    assert_eq!(request.path, "/enqueue?x");
    assert_eq!(request.body, "hello");
}

#[test]
fn requests_are_read_as_they_were_sent() {
    let body = "{\"player_id\":\"\u{e9}\"}";
    let text = format!(
        "POST /enqueue HTTP/1.1\r\nContent-Length: {}\r\n\r\n{}",
        body.len(),
        body
    );
    let mut reader = RequestReader::new();
    assert_eq!(reader.feed(text.as_bytes()), ReadStep::Stop);
    let request = reader.finish().unwrap();
    assert_eq!(request.method, "POST");
    assert_eq!(request.path, "/enqueue");
    assert_eq!(request.body, body);
}

#[test]
fn short_requests_make_do() {
    let mut reader = RequestReader::new();
    assert_eq!(reader.feed(b"\r\n\r\n"), ReadStep::Stop);
    let request = reader.finish().unwrap();
    assert_eq!(request.method, "");
    assert_eq!(request.path, "/");
    assert_eq!(request.body, "");

    let mut reader = RequestReader::new();
    assert_eq!(
        reader.feed(b"GET /a\r\nContent-Length: 9\r\n\r\nx\xff"),
        ReadStep::More
    );
    let request = reader.finish().unwrap();
    assert_eq!(request.path, "/a");
    assert_eq!(request.body, "x\u{fffd}");
}

#[test]
fn too_long_requests_are_cut_off() {
    let chunk = [97u8; 65536];
    let mut reader = RequestReader::new();
    assert_eq!(reader.feed(&chunk), ReadStep::More);
    assert_eq!(reader.feed(&chunk[..1]), ReadStep::Stop);
    assert!(reader.finish().is_none());

    let mut reader = RequestReader::new();
    let head = format!("GET / HTTP/1.1\r\nContent-Length: {}\r\n\r\n", usize::MAX);
    assert_eq!(reader.feed(head.as_bytes()), ReadStep::Overflow);
}

#[test]
fn options_are_read_from_left_to_right() {
    let none = parse_args(&args(&[]), Some(8));
    assert_eq!(none, ("127.0.0.1:8080".to_string(), 8));
    assert_eq!(parse_args(&args(&[]), Some(1)).1, 2);
    assert_eq!(parse_args(&args(&[]), None).1, 4);
    let both = parse_args(
        &args(&["--addr", "0.0.0.0:1", "-v", "--workers", "3"]),
        Some(8),
    );
    assert_eq!(both, ("0.0.0.0:1".to_string(), 3));
    assert_eq!(parse_args(&args(&["--workers", "0"]), None).1, 1);
    assert_eq!(parse_args(&args(&["--workers", "many"]), Some(6)).1, 6);
    assert_eq!(parse_args(&args(&["--workers"]), Some(6)).1, 6);
    let odd = parse_args(&args(&["--addr", "--workers", "5", "--addr"]), Some(6));
    assert_eq!(odd, ("--workers".to_string(), 6));
}

#[test]
fn workers_go_round_and_rest_after_empty_passes() {
    assert_eq!(REST_MILLIS, 5);
    let mut worker = Worker::new(53);
    let mut visited = Vec::new();
    for attempt in 0..51 {
        visited.push(worker.bucket());
        assert_eq!(worker.advance(false), attempt == 50);
    }
    assert_eq!(visited[0], 2);
    assert_eq!(visited[50], 1);
    visited.sort();
    assert_eq!(visited, (0..51).collect::<Vec<usize>>());
    assert_eq!(worker, Worker::new(3));
    for attempt in 0..51 {
        assert!(!worker.advance(attempt == 7));
    }
    assert_eq!(worker, Worker::new(4));
    assert_eq!(Worker::new(50).bucket(), 50);
}

#[test]
fn text_is_taken_apart() {
    let text = chars_of("a,b,,c");
    assert_eq!(find_char(&text, ','), 1);
    assert_eq!(find_char(&text, 'x'), 6);
    let parts: Vec<String> = split(&text, ',').iter().map(|part| string_of(part)).collect();
    assert_eq!(parts, vec!["a", "b", "", "c"]);
    let all: Vec<String> = lines(&chars_of("one\r\ntwo\n\nlast\r"))
        .iter()
        .map(|line| string_of(line))
        .collect();
    assert_eq!(all, vec!["one", "two", "", "last\r"]);
    assert!(lines(&[]).is_empty());
    assert_eq!(string_of(trim(&chars_of(" \u{a0}x y\t\n"))), "x y");
    assert!(blank("\u{2003} \u{85}"));
    assert!(!blank("\u{200b}"));
    let words = chars_of("  GET  /x y");
    let (first, rest) = next_word(&words);
    assert_eq!(string_of(first), "GET");
    assert_eq!(string_of(next_word(rest).0), "/x");
}

#[test]
fn numbers_are_read_within_limits() {
    assert_eq!(parse_size(&chars_of("+12")), Some(12));
    assert_eq!(parse_size(&chars_of("+")), None);
    assert_eq!(parse_size(&chars_of("-1")), None);
    assert_eq!(parse_size(&chars_of("")), None);
    assert_eq!(parse_size(&chars_of(&usize::MAX.to_string())), Some(usize::MAX));
    assert_eq!(parse_size(&chars_of("99999999999999999999999")), None);
    assert_eq!(read_number(&chars_of("0100"), 100), Some(100));
    assert_eq!(read_number(&chars_of("101"), 100), None);
}

#[test]
fn bytes_are_read_as_text() {
    assert_eq!(read_text("h\u{e9}".as_bytes()), "h\u{e9}");
    assert_eq!(read_text(&[104, 0xc3]), "h\u{fffd}");
}
