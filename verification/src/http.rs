//! Answering HTTP requests.
use crate::clock::{elapsed, tells, Duration, Instant, NANOS_PER_MILLI};
use crate::config::RECENT_MATCH_LIMIT;
use crate::counters::metrics_text;
use crate::engine::Matchmaker;
use crate::json::{escaped, json_escape, parse_player_request, recent_text, requested, state_text};
use crate::player::{request_fault, EnqueueError, PlayerRequest, RequestView};
use crate::pool::MatchmakerView;
use crate::reader::{HttpRequest, HttpRequestView};
use crate::text::{
    after, before, chars_of, cut, decimal, parse_size, pieces, push_decimal, read_text, readable,
    same_chars, spells, split, string_of, unsigned_size,
};
use vstd::prelude::*;
use vstd::slice::slice_subrange;
use vstd::utf8::{encode_utf8, is_continuation_byte};

verus! {

/// A percent sign.
pub const PERCENT: u8 = 37;

/// A plus sign.
pub const PLUS: u8 = 43;

/// A space.
pub const SPACE: u8 = 32;

/// Recent matches that are shown unless a request says otherwise.
pub const DEFAULT_MATCHES: usize = 20;

/// The value of a hexadecimal digit.
pub open spec fn hex_value(digit: u8) -> Option<u8> {
    if 48 <= digit <= 57 {
        Some((digit - 48) as u8)
    } else if 65 <= digit <= 70 {
        Some((digit - 55) as u8)
    } else if 97 <= digit <= 102 {
        Some((digit - 87) as u8)
    } else {
        None
    }
}

fn hex_digit(digit: u8) -> (value: Option<u8>)
    ensures
        value == hex_value(digit),
        value matches Some(v) ==> v < 16,
{
    if 48 <= digit && digit <= 57 {
        Some(digit - 48)
    } else if 65 <= digit && digit <= 70 {
        Some(digit - 55)
    } else if 97 <= digit && digit <= 102 {
        Some(digit - 87)
    } else {
        None
    }
}

/// The byte that two characters write in hexadecimal. The first may be a plus
/// sign.
pub open spec fn hex_byte(first: u8, second: u8) -> Option<u8> {
    match (hex_value(first), hex_value(second)) {
        (Some(high), Some(low)) => Some((high * 16 + low) as u8),
        (None, Some(low)) => if first == PLUS {
            Some(low)
        } else {
            None
        },
        _ => None,
    }
}

/// `bytes` with their percent escapes resolved and plus signs turned into
/// spaces. A percent sign that starts no escape stands for itself.
pub open spec fn decoded(bytes: Seq<u8>) -> Seq<u8>
    decreases bytes.len(),
{
    if bytes.len() == 0 {
        seq![]
    } else if bytes[0] == PERCENT && bytes.len() > 2 && hex_byte(bytes[1], bytes[2]) is Some {
        seq![hex_byte(bytes[1], bytes[2])->0] + decoded(bytes.skip(3))
    } else {
        seq![
            if bytes[0] == PLUS {
                SPACE
            } else {
                bytes[0]
            },
        ] + decoded(bytes.skip(1))
    }
}

/// `bytes` with their percent escapes resolved.
pub fn percent_decode_bytes(bytes: &[u8]) -> (output: Vec<u8>)
    ensures
        output@ == decoded(bytes@),
{
    let mut output: Vec<u8> = Vec::new();
    let mut idx: usize = 0;
    assert(bytes@.skip(0) =~= bytes@);
    assert(output@ + decoded(bytes@) =~= decoded(bytes@));
    while idx < bytes.len()
        invariant
            idx <= bytes.len(),
            output@ + decoded(bytes@.skip(idx as int)) == decoded(bytes@),
        decreases bytes.len() - idx,
    {
        let ghost left = bytes@.skip(idx as int);
        let ghost shown = output@;
        let byte: u8 = bytes[idx];
        assert(left[0] == byte);
        let mut escape: Option<u8> = None;
        if byte == PERCENT && bytes.len() - idx > 2 {
            assert(left[1] == bytes@[idx + 1] && left[2] == bytes@[idx + 2]);
            match (hex_digit(bytes[idx + 1]), hex_digit(bytes[idx + 2])) {
                (Some(high), Some(low)) => {
                    escape = Some(high * 16 + low);
                },
                (None, Some(low)) => {
                    if bytes[idx + 1] == PLUS {
                        escape = Some(low);
                    }
                },
                _ => {},
            }
            assert(escape == hex_byte(left[1], left[2]));
        }
        match escape {
            Some(value) => {
                output.push(value);
                assert(left.skip(3) =~= bytes@.skip(idx + 3));
                idx += 3;
                assert(output@ + decoded(left.skip(3)) =~= shown + (seq![value] + decoded(
                    left.skip(3),
                )));
            },
            None => {
                let kept: u8 = if byte == PLUS {
                    SPACE
                } else {
                    byte
                };
                output.push(kept);
                assert(left.skip(1) =~= bytes@.skip(idx + 1));
                idx += 1;
                assert(output@ + decoded(left.skip(1)) =~= shown + (seq![kept] + decoded(
                    left.skip(1),
                )));
            },
        }
    }
    assert(output@ + decoded(bytes@.skip(idx as int)) =~= output@);
    output
}

/// Every percent sign with two bytes after it is followed by two bytes that
/// end where a character ends.
pub open spec fn escapes_whole(bytes: Seq<u8>) -> bool {
    forall|i: int|
        0 <= i && i + 3 < bytes.len() && #[trigger] bytes[i] == PERCENT ==> !is_continuation_byte(
            bytes[i + 3],
        )
}

/// Whether every percent sign with two bytes after it is followed by two bytes
/// that end where a character ends.
pub fn has_whole_escapes(value: &str) -> (whole: bool)
    ensures
        whole == escapes_whole(encode_utf8(value@)),
{
    let bytes = value.as_bytes();
    let mut i: usize = 0;
    while i < bytes.len() && bytes.len() - i > 3
        invariant
            i <= bytes.len(),
            bytes@ == encode_utf8(value@),
            forall|j: int|
                0 <= j < i && j + 3 < bytes@.len() && #[trigger] bytes@[j] == PERCENT
                    ==> !is_continuation_byte(bytes@[j + 3]),
        decreases bytes.len() - i,
    {
        if bytes[i] == PERCENT && 0x80 <= bytes[i + 3] && bytes[i + 3] <= 0xbf {
            assert(bytes@[i as int] == PERCENT && is_continuation_byte(bytes@[i + 3]));
            return false;
        }
        i += 1;
    }
    true
}

/// The text that `value` stands for once its percent escapes are resolved.
pub open spec fn decoded_text(value: Seq<char>) -> Seq<char> {
    readable(decoded(encode_utf8(value)))
}

/// The text that `value` stands for once its percent escapes are resolved.
/// Text without percent and plus signs stands for itself.
pub fn percent_decode(value: &str) -> (text: String)
    requires
        escapes_whole(encode_utf8(value@)),
    ensures
        text@ == decoded_text(value@),
{
    read_text(percent_decode_bytes(value.as_bytes()).as_slice())
}

/// The value that the first of `pairs` for `key` gives it.
pub open spec fn first_pair(pairs: Seq<Seq<char>>, key: Seq<char>) -> Option<Seq<char>>
    decreases pairs.len(),
{
    if pairs.len() == 0 {
        None
    } else if before(pairs[0], '=') == key {
        Some(
            match after(pairs[0], '=') {
                Some(value) => value,
                None => seq![],
            },
        )
    } else {
        first_pair(pairs.skip(1), key)
    }
}

/// The value of `key` in the query part of `path`, as it is written there.
pub open spec fn raw_param(path: Seq<char>, key: Seq<char>) -> Option<Seq<char>> {
    match after(path, '?') {
        None => None,
        Some(query) => first_pair(pieces(query, '&'), key),
    }
}

/// The value of `key` in the query part of `path`, as it is written there.
fn raw_query_param(path: &str, key: &str) -> (value: Option<String>)
    ensures
        match value {
            Some(value) => raw_param(path@, key@) == Some(value@),
            None => raw_param(path@, key@) is None,
        },
{
    let chars = chars_of(path);
    let (_, tail) = cut(chars.as_slice(), '?');
    let query: &[char] = match tail {
        Some(query) => query,
        None => {
            return None;
        },
    };
    let pairs = split(query, '&');
    let ghost all = pieces(query@, '&');
    assert(pairs@.len() == all.len());
    assert(all.skip(0) =~= all);
    for i in 0..pairs.len()
        invariant
            pairs.deep_view() == all,
            raw_param(path@, key@) == first_pair(all, key@),
            first_pair(all, key@) == first_pair(all.skip(i as int), key@),
    {
        assert(all.skip(i as int)[0] == all[i as int]);
        assert(pairs@[i as int].deep_view() =~= pairs@[i as int]@);
        assert(all.skip(i as int).skip(1) =~= all.skip(i + 1));
        let (name, value) = cut(pairs[i].as_slice(), '=');
        if spells(name, key) {
            return match value {
                Some(value) => Some(string_of(value)),
                None => Some(String::new()),
            };
        }
    }
    None
}

/// Whether the value of `key` in `path` can be decoded.
pub open spec fn param_decodable(path: Seq<char>, key: Seq<char>) -> bool {
    raw_param(path, key) matches Some(value) ==> escapes_whole(encode_utf8(value))
}

/// Whether the value of `key` in `path` can be decoded.
pub fn is_param_decodable(path: &str, key: &str) -> (b: bool)
    ensures
        b == param_decodable(path@, key@),
{
    match raw_query_param(path, key) {
        Some(raw) => has_whole_escapes(raw.as_str()),
        None => true,
    }
}

/// The value of `key` in the query part of `path`, with its percent escapes
/// resolved.
pub fn query_param(path: &str, key: &str) -> (value: Option<String>)
    requires
        param_decodable(path@, key@),
    ensures
        match value {
            Some(text) => raw_param(path@, key@) matches Some(raw) && text@ == decoded_text(raw),
            None => raw_param(path@, key@) is None,
        },
{
    match raw_query_param(path, key) {
        Some(raw) => Some(percent_decode(raw.as_str())),
        None => None,
    }
}

/// The words that go with a status.
pub open spec fn reason(status: u16) -> Seq<char> {
    if status == 200 {
        "OK"@
    } else if status == 202 {
        "Accepted"@
    } else if status == 400 {
        "Bad Request"@
    } else if status == 404 {
        "Not Found"@
    } else if status == 409 {
        "Conflict"@
    } else {
        "Internal Server Error"@
    }
}

/// A response with a body in JSON. It gives the length of the body in bytes.
pub open spec fn response_text(status: u16, body: Seq<char>) -> Seq<char> {
    "HTTP/1.1 "@ + decimal(status as nat) + " "@ + reason(status)
        + "\r\nContent-Type: application/json\r\nContent-Length: "@ + decimal(
        encode_utf8(body).len(),
    ) + "\r\nConnection: close\r\n\r\n"@ + body
}

/// A response with a body in JSON.
pub fn http_response(status: u16, body: &str) -> (text: String)
    ensures
        text@ == response_text(status, body@),
{
    let words: &str = if status == 200 {
        "OK"
    } else if status == 202 {
        "Accepted"
    } else if status == 400 {
        "Bad Request"
    } else if status == 404 {
        "Not Found"
    } else if status == 409 {
        "Conflict"
    } else {
        "Internal Server Error"
    };
    let mut text = "HTTP/1.1 ".to_string();
    push_decimal(&mut text, status as u128);
    text.append(" ");
    text.append(words);
    text.append("\r\nContent-Type: application/json\r\nContent-Length: ");
    push_decimal(&mut text, body.as_bytes().len() as u128);
    text.append("\r\nConnection: close\r\n\r\n");
    text.append(body);
    text
}

/// Whether `text` starts with `start`.
pub open spec fn starts_with(text: Seq<char>, start: Seq<char>) -> bool {
    start.len() <= text.len() && text.take(start.len() as int) == start
}

/// Whether `request` asks for `path` by `method`.
pub open spec fn asks(request: HttpRequestView, method: Seq<char>, path: Seq<char>) -> bool {
    request.method == method && before(request.path, '?') == path
}

/// Whether `request` asks for a player.
pub open spec fn asks_player(request: HttpRequestView) -> bool {
    request.method == "GET"@ && starts_with(before(request.path, '?'), "/player/"@)
}

/// The name in a path that asks for a player, as it is written there.
pub open spec fn raw_player(request: HttpRequestView) -> Seq<char> {
    before(request.path, '?').skip("/player/"@.len() as int)
}

/// How many recent matches a path asks for.
pub open spec fn match_limit(path: Seq<char>) -> nat {
    let asked = match raw_param(path, "limit"@) {
        None => None,
        Some(raw) => unsigned_size(decoded_text(raw)),
    };
    match asked {
        None => DEFAULT_MATCHES as nat,
        Some(limit) => if limit < RECENT_MATCH_LIMIT {
            limit as nat
        } else {
            RECENT_MATCH_LIMIT as nat
        },
    }
}

/// What `request` needs decoded can be decoded.
pub open spec fn routable(request: HttpRequestView) -> bool {
    &&& asks(request, "GET"@, "/matches"@) ==> param_decodable(request.path, "limit"@)
    &&& asks_player(request) ==> escapes_whole(encode_utf8(raw_player(request)))
}

/// What a request asks the service to do.
#[derive(Debug)]
pub enum Action {
    /// Answer with this response.
    Respond(String),
    /// Report the counters.
    ShowMetrics,
    /// Report the newest matches, at most so many.
    ShowMatches(usize),
    /// Put the player of this request into the queue.
    Join(PlayerRequest),
    /// Tell what is known of the player of this name.
    ShowPlayer(String),
}

/// What an `Action` says.
pub enum ActionView {
    Respond(Seq<char>),
    ShowMetrics,
    ShowMatches(nat),
    Join(RequestView),
    ShowPlayer(Seq<char>),
}

impl View for Action {
    type V = ActionView;

    open spec fn view(&self) -> ActionView {
        match self {
            Action::Respond(text) => ActionView::Respond(text@),
            Action::ShowMetrics => ActionView::ShowMetrics,
            Action::ShowMatches(limit) => ActionView::ShowMatches(*limit as nat),
            Action::Join(request) => ActionView::Join(request@),
            Action::ShowPlayer(id) => ActionView::ShowPlayer(id@),
        }
    }
}

/// What `request` asks the service to do.
pub open spec fn action_of(request: HttpRequestView) -> ActionView {
    if asks(request, "GET"@, "/health"@) {
        ActionView::Respond(response_text(200, "{\"status\":\"ok\"}"@))
    } else if asks(request, "GET"@, "/metrics"@) {
        ActionView::ShowMetrics
    } else if asks(request, "GET"@, "/matches"@) {
        ActionView::ShowMatches(match_limit(request.path))
    } else if asks(request, "POST"@, "/enqueue"@) {
        match requested(request.body) {
            Some(wish) => ActionView::Join(wish),
            None => ActionView::Respond(
                response_text(400, "{\"error\":\"invalid player payload\"}"@),
            ),
        }
    } else if asks_player(request) {
        ActionView::ShowPlayer(decoded_text(raw_player(request)))
    } else {
        ActionView::Respond(response_text(404, "{\"error\":\"not found\"}"@))
    }
}

/// What a player who wishes to join the queue at the time `now` is answered, and
/// the state after it, if accepting the player takes `spent` nanoseconds.
pub open spec fn join_answer(pool: MatchmakerView, wish: RequestView, now: nat, spent: nat) -> (
    Seq<char>,
    MatchmakerView,
) {
    match request_fault(wish) {
        Some(fault) => (response_text(400, "{\"error\":\""@ + escaped(fault) + "\"}"@), pool),
        None => if pool.knows(wish.player_id) {
            (
                response_text(409, "{\"error\":\"player is already queued or matched\"}"@),
                pool.rejected(),
            )
        } else {
            (
                response_text(202, "{\"status\":\"queued\"}"@),
                pool.enqueued(wish, now).timed(spent),
            )
        },
    }
}

/// What is answered to who asks for a player of whom `state` is told.
pub open spec fn player_answer(state: Option<Seq<char>>) -> Seq<char> {
    match state {
        Some(text) => response_text(200, text),
        None => response_text(404, "{\"error\":\"player not found\"}"@),
    }
}

/// What `action` leads to at the time `now`: the answer, and the state after it.
/// Accepting a player takes `spent` nanoseconds.
pub open spec fn performed(
    pool: MatchmakerView,
    action: ActionView,
    now: nat,
    spent: nat,
    uptime_ms: nat,
) -> (Seq<char>, MatchmakerView) {
    match action {
        ActionView::Respond(text) => (text, pool),
        ActionView::ShowMetrics => (
            response_text(200, metrics_text(pool.counters(), uptime_ms)),
            pool,
        ),
        ActionView::ShowMatches(limit) => (response_text(200, recent_text(pool, limit)), pool),
        ActionView::Join(wish) => join_answer(pool, wish, now, spent),
        ActionView::ShowPlayer(id) => (player_answer(state_text(pool, id)), pool),
    }
}

/// What `request` is answered at the time `now`, and the state after it.
/// Accepting a player takes `spent` nanoseconds.
pub open spec fn answer(
    pool: MatchmakerView,
    request: HttpRequestView,
    now: nat,
    spent: nat,
    uptime_ms: nat,
) -> (Seq<char>, MatchmakerView) {
    performed(pool, action_of(request), now, spent, uptime_ms)
}

/// Whether `action` lets a player in.
pub open spec fn lets_in(pool: MatchmakerView, action: ActionView) -> bool {
    action matches ActionView::Join(wish) && pool.accepts(wish)
}

/// Whether `outcome` is what `action` leads to by `clock`. Only letting a player
/// in depends on what the clock tells: at the start, when the player joins, and
/// at the end.
pub open spec fn follows<C: Fn() -> Instant>(
    clock: C,
    pool: MatchmakerView,
    action: ActionView,
    uptime_ms: nat,
    outcome: (Seq<char>, MatchmakerView),
) -> bool {
    if lets_in(pool, action) {
        exists|start: Instant, at: Instant, end: Instant| #[trigger]
            tells(clock, start) && #[trigger] tells(clock, at) && #[trigger] tells(clock, end)
                && outcome == performed(pool, action, at@, elapsed(start@, end@), uptime_ms)
    } else {
        outcome == performed(pool, action, 0, 0, uptime_ms)
    }
}

/// The name in a request for a player, as it is written there.
fn asked_player(request: &HttpRequest) -> (name: Option<String>)
    ensures
        match name {
            Some(name) => asks_player(request@) && name@ == raw_player(request@),
            None => !asks_player(request@),
        },
{
    let method = chars_of(request.method.as_str());
    let chars = chars_of(request.path.as_str());
    let (path, _) = cut(chars.as_slice(), '?');
    let start = chars_of("/player/");
    if !spells(method.as_slice(), "GET") || path.len() < start.len() {
        return None;
    }
    let head = slice_subrange(path, 0, start.len());
    assert(head@ =~= path@.take(start@.len() as int));
    if !same_chars(head, start.as_slice()) {
        return None;
    }
    let name = slice_subrange(path, start.len(), path.len());
    assert(name@ =~= path@.skip(start@.len() as int));
    Some(string_of(name))
}

/// Whether `request` asks for `path` by `method`.
fn is_for(request: &HttpRequest, method: &str, path: &str) -> (b: bool)
    ensures
        b == asks(request@, method@, path@),
{
    let asked = chars_of(request.method.as_str());
    let chars = chars_of(request.path.as_str());
    let (address, _) = cut(chars.as_slice(), '?');
    spells(asked.as_slice(), method) && spells(address, path)
}

/// Whether what `request` needs decoded can be decoded.
pub fn is_routable(request: &HttpRequest) -> (b: bool)
    ensures
        b == routable(request@),
{
    if is_for(request, "GET", "/matches") && !is_param_decodable(request.path.as_str(), "limit") {
        return false;
    }
    match asked_player(request) {
        Some(raw) => has_whole_escapes(raw.as_str()),
        None => true,
    }
}

/// What `request` asks the service to do.
pub fn action_for(request: &HttpRequest) -> (action: Action)
    requires
        routable(request@),
    ensures
        action@ == action_of(request@),
{
    if is_for(request, "GET", "/health") {
        return Action::Respond(http_response(200, "{\"status\":\"ok\"}"));
    }
    if is_for(request, "GET", "/metrics") {
        return Action::ShowMetrics;
    }
    if is_for(request, "GET", "/matches") {
        let mut limit: usize = DEFAULT_MATCHES;
        if let Some(asked) = query_param(request.path.as_str(), "limit") {
            if let Some(number) = parse_size(chars_of(asked.as_str()).as_slice()) {
                limit = if number < RECENT_MATCH_LIMIT {
                    number
                } else {
                    RECENT_MATCH_LIMIT
                };
            }
        }
        return Action::ShowMatches(limit);
    }
    if is_for(request, "POST", "/enqueue") {
        return match parse_player_request(request.body.as_str()) {
            Some(wish) => Action::Join(wish),
            None => Action::Respond(
                http_response(400, "{\"error\":\"invalid player payload\"}"),
            ),
        };
    }
    match asked_player(request) {
        Some(raw) => Action::ShowPlayer(percent_decode(raw.as_str())),
        None => Action::Respond(http_response(404, "{\"error\":\"not found\"}")),
    }
}

/// What a player who wishes to join the queue is answered after the engine gave
/// its verdict.
pub fn join_response(verdict: &Result<(), EnqueueError>) -> (response: String)
    ensures
        response@ == match *verdict {
            Ok(()) => response_text(202, "{\"status\":\"queued\"}"@),
            Err(EnqueueError::Duplicate) => response_text(
                409,
                "{\"error\":\"player is already queued or matched\"}"@,
            ),
            Err(EnqueueError::Invalid(message)) => response_text(
                400,
                "{\"error\":\""@ + escaped(message@) + "\"}"@,
            ),
        },
{
    match verdict {
        Ok(()) => http_response(202, "{\"status\":\"queued\"}"),
        Err(EnqueueError::Duplicate) => http_response(
            409,
            "{\"error\":\"player is already queued or matched\"}",
        ),
        Err(EnqueueError::Invalid(message)) => {
            let mut body = "{\"error\":\"".to_string();
            body.append(json_escape(message.as_str()).as_str());
            body.append("\"}");
            http_response(400, body.as_str())
        },
    }
}

/// What is answered to who asks for a player of whom `state` is told.
pub fn player_response(state: &Option<String>) -> (response: String)
    ensures
        response@ == player_answer(
            match *state {
                Some(text) => Some(text@),
                None => None,
            },
        ),
{
    match state {
        Some(text) => http_response(200, text.as_str()),
        None => http_response(404, "{\"error\":\"player not found\"}"),
    }
}

/// Does what `action` says and gives the answer, for a service that has been up
/// for `uptime`.
pub fn perform<C: Fn() -> Instant>(
    action: Action,
    engine: &mut Matchmaker,
    clock: C,
    uptime: Duration,
) -> (response: String)
    requires
        old(engine)@.wf(),
        call_requires(clock, ()),
    ensures
        final(engine)@.wf(),
        follows(
            clock,
            old(engine)@,
            action@,
            uptime@ / NANOS_PER_MILLI as nat,
            (response@, final(engine)@),
        ),
{
    match action {
        Action::Respond(text) => text,
        Action::ShowMetrics => http_response(200, engine.metrics_json(uptime).as_str()),
        Action::ShowMatches(limit) => http_response(
            200,
            engine.recent_matches_json(limit).as_str(),
        ),
        Action::Join(wish) => {
            let verdict = engine.enqueue(wish, clock);
            join_response(&verdict)
        },
        Action::ShowPlayer(id) => player_response(&engine.player_state_json(id.as_str())),
    }
}

/// Answers `request`, for a service that has been up for `uptime`.
pub fn route_request<C: Fn() -> Instant>(
    request: &HttpRequest,
    engine: &mut Matchmaker,
    clock: C,
    uptime: Duration,
) -> (response: String)
    requires
        old(engine)@.wf(),
        routable(request@),
        call_requires(clock, ()),
    ensures
        final(engine)@.wf(),
        follows(
            clock,
            old(engine)@,
            action_of(request@),
            uptime@ / NANOS_PER_MILLI as nat,
            (response@, final(engine)@),
        ),
{
    perform(action_for(request), engine, clock, uptime)
}

} // verus!
