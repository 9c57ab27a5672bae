//! Requests: which of them are in order, what their paths ask for, and what they
//! are answered.
use crate::counters::metrics_text;
use crate::http::{
    action_of, answer, asks, decoded_text, first_pair, match_limit, raw_param, response_text,
    routable, starts_with, ActionView,
};
use crate::json::{number_value, recent_text, requested, string_value};
use crate::laws::steps::{law_joining, law_timing};
use crate::laws::text::{law_numbers_read_back, law_plain_text_stands_for_itself};
use crate::laws::wire::lemma_digits_lack;
use crate::laws::words::{law_cutting, law_splitting};
use crate::player::{request_fault, RequestView};
use crate::pool::MatchmakerView;
use crate::reader::HttpRequestView;
use crate::text::{after, before, decimal, is_white_space, pieces, unsigned_size};
use vstd::prelude::*;

verus! {

/// Whether `text` holds a character that is no white space.
pub open spec fn says_something(text: Seq<char>) -> bool {
    exists|i: int| 0 <= i < text.len() && !is_white_space(#[trigger] text[i])
}

/// A request is in order exactly if its name, its region and its mode each say
/// something and its rating is at most 5000. Of several faults the first is told,
/// in the order of the fields.
pub proof fn law_valid_requests(request: RequestView)
    ensures
        request_fault(request) is None <==> says_something(request.player_id) && request.skill
            <= 5000 && says_something(request.region) && says_something(request.mode),
        !says_something(request.player_id) ==> request_fault(request) == Some(
            "player_id must not be empty"@,
        ),
        says_something(request.player_id) && request.skill > 5000 ==> request_fault(request)
            == Some("skill must be <= 5000"@),
        says_something(request.player_id) && request.skill <= 5000 && !says_something(
            request.region,
        ) ==> request_fault(request) == Some("region must not be empty"@),
        says_something(request.player_id) && request.skill <= 5000 && says_something(request.region)
            && !says_something(request.mode) ==> request_fault(request) == Some(
            "mode must not be empty"@,
        ),
{
    reveal_strlit("skill must be <= ");
    reveal_strlit("skill must be <= 5000");
    reveal_with_fuel(decimal, 5);
    assert("skill must be <= "@ + decimal(5000) =~= "skill must be <= 5000"@);
}

/// What a body asks for is what its four fields say.
pub proof fn law_fields_of_a_request(body: Seq<char>)
    requires
        requested(body) is Some,
    ensures
        Some(requested(body)->0.player_id) == string_value(body, "player_id"@),
        Some(requested(body)->0.skill) == number_value(body, "skill"@),
        Some(requested(body)->0.region) == string_value(body, "region"@),
        Some(requested(body)->0.mode) == string_value(body, "mode"@),
{
}

/// The query part of a path: empty, or a question mark and more.
pub open spec fn is_query(text: Seq<char>) -> bool {
    text.len() > 0 ==> text[0] == '?'
}

pub(crate) proof fn lemma_address(base: Seq<char>, query: Seq<char>)
    requires
        !base.contains('?'),
        is_query(query),
    ensures
        before(base + query, '?') == base,
        query.len() == 0 ==> after(base + query, '?') is None,
        query.len() > 0 ==> after(base + query, '?') == Some(query.skip(1)),
{
    if query.len() == 0 {
        assert(base + query =~= base);
        law_cutting(base, '?', Seq::empty());
    } else {
        assert(base + query =~= base + seq!['?'] + query.skip(1));
        law_cutting(base, '?', query.skip(1));
    }
}

/// The parameters of a path are the pairs behind its first question mark, cut at
/// the ampersands. A pair gives its name the value behind the first equality
/// sign, and an empty one if it has none. The first pair of a name counts.
pub proof fn law_parameters(
    base: Seq<char>,
    name: Seq<char>,
    value: Seq<char>,
    more: Seq<char>,
    key: Seq<char>,
)
    requires
        !base.contains('?'),
        !name.contains('='),
        !name.contains('&'),
        !value.contains('&'),
    ensures
        raw_param(base, key) is None,
        raw_param(base + seq!['?'] + (name + seq!['='] + value), key) == if name == key {
            Some(value)
        } else {
            None
        },
        raw_param(base + seq!['?'] + name, key) == if name == key {
            Some(Seq::<char>::empty())
        } else {
            None
        },
        raw_param(base + seq!['?'] + (name + seq!['='] + value + seq!['&'] + more), key) == if name
            == key {
            Some(value)
        } else {
            raw_param(base + seq!['?'] + more, key)
        },
        raw_param(base + seq!['?'] + (name + seq!['&'] + more), key) == if name == key {
            Some(Seq::<char>::empty())
        } else {
            raw_param(base + seq!['?'] + more, key)
        },
{
    let pair = name + seq!['='] + value;
    assert(!pair.contains('&')) by {
        if pair.contains('&') {
            let i = choose|i: int| 0 <= i < pair.len() && pair[i] == '&';
            if i < name.len() {
                assert(name[i] == '&');
            } else {
                assert(value[i - name.len() - 1] == '&');
            }
        }
    }
    law_cutting(base, '?', pair);
    law_cutting(base, '?', name);
    law_cutting(base, '?', more);
    law_cutting(base, '?', pair + seq!['&'] + more);
    law_cutting(base, '?', name + seq!['&'] + more);
    law_cutting(name, '=', value);
    law_splitting(pair, '&', more);
    law_splitting(name, '&', more);
    let others = pieces(more, '&');
    assert((seq![pair] + others).skip(1) =~= others);
    assert((seq![name] + others).skip(1) =~= others);
    assert((seq![pair] + others)[0] == pair);
    assert((seq![name] + others)[0] == name);
    assert(seq![pair].skip(1) =~= seq![]);
    assert(seq![name].skip(1) =~= seq![]);
    reveal_with_fuel(first_pair, 2);
}

/// How many matches are shown: as many as the parameter `limit` says, and at most
/// 100; 20 if there is no such parameter or it is no number.
pub proof fn law_limits(path: Seq<char>, n: nat)
    ensures
        match_limit(path) <= 100,
        raw_param(path, "limit"@) is None ==> match_limit(path) == 20,
        raw_param(path, "limit"@) == Some(decimal(n)) && n < 100 ==> match_limit(path) == n,
        raw_param(path, "limit"@) == Some(decimal(n)) && 100 <= n <= usize::MAX ==> match_limit(
            path,
        ) == 100,
        raw_param(path, "limit"@) == Some(decimal(n)) && n > usize::MAX ==> match_limit(path) == 20,
        raw_param(path, "limit"@) matches Some(raw) ==> unsigned_size(decoded_text(raw)) is None
            ==> match_limit(path) == 20,
{
    let text = decimal(n);
    law_numbers_read_back(n);
    lemma_digits_lack(n, '%');
    lemma_digits_lack(n, '+');
    law_plain_text_stands_for_itself(text);
    assert('0' <= text[0] <= '9');
}

/// The paths, and which of them are asked for.
proof fn lemma_names_differ()
    ensures
        "GET"@ != "POST"@,
        "/health"@ != "/metrics"@,
        "/health"@ != "/matches"@,
        "/health"@ != "/enqueue"@,
        "/metrics"@ != "/matches"@,
        "/metrics"@ != "/enqueue"@,
        "/matches"@ != "/enqueue"@,
        !starts_with("/health"@, "/player/"@),
        !starts_with("/metrics"@, "/player/"@),
        !starts_with("/matches"@, "/player/"@),
        !starts_with("/enqueue"@, "/player/"@),
{
    reveal_strlit("GET");
    reveal_strlit("POST");
    reveal_strlit("/health");
    reveal_strlit("/metrics");
    reveal_strlit("/matches");
    reveal_strlit("/enqueue");
    reveal_strlit("/player/");
    assert("GET"@[0] != "POST"@[0]);
    assert("/health"@[1] == 'h');
    assert("/metrics"@[1] == 'm' && "/metrics"@[2] == 'e');
    assert("/matches"@[1] == 'm' && "/matches"@[2] == 'a');
    assert("/enqueue"@[1] == 'e');
    assert("/player/"@[1] == 'p');
    assert("/metrics"@.take(8)[1] == 'm');
    assert("/matches"@.take(8)[1] == 'm');
    assert("/enqueue"@.take(8)[1] == 'e');
}

/// Which method and path ask for what. What stands behind a question mark does
/// not matter, except to the number of matches. Every other method and path gets
/// the answer that there is no such thing.
pub proof fn law_paths(
    method: Seq<char>,
    base: Seq<char>,
    query: Seq<char>,
    body: Seq<char>,
    name: Seq<char>,
)
    requires
        !base.contains('?'),
        is_query(query),
    ensures
        ({
            let action = action_of(HttpRequestView { method, path: base + query, body });
            let health = method == "GET"@ && base == "/health"@;
            let metrics = method == "GET"@ && base == "/metrics"@;
            let matches = method == "GET"@ && base == "/matches"@;
            let enqueue = method == "POST"@ && base == "/enqueue"@;
            let player = method == "GET"@ && base.len() >= 8 && base.take(8) == "/player/"@;
            &&& health ==> action == ActionView::Respond(
                response_text(200, "{\"status\":\"ok\"}"@),
            )
            &&& metrics ==> action is ShowMetrics
            &&& matches ==> action == ActionView::ShowMatches(match_limit(base + query))
            &&& matches && query.len() == 0 ==> action == ActionView::ShowMatches(20)
            &&& enqueue && requested(body) is None ==> action == ActionView::Respond(
                response_text(400, "{\"error\":\"invalid player payload\"}"@),
            )
            &&& enqueue && requested(body) is Some ==> action == ActionView::Join(
                requested(body)->0,
            )
            &&& method == "GET"@ && base == "/player/"@ + name ==> action == ActionView::ShowPlayer(
                decoded_text(name),
            )
            &&& !health && !metrics && !matches && !enqueue && !player ==> action
                == ActionView::Respond(response_text(404, "{\"error\":\"not found\"}"@))
        }),
{
    lemma_names_differ();
    lemma_address(base, query);
    reveal_strlit("/player/");
    assert("/player/"@.len() == 8);
    if base == "/player/"@ + name {
        assert(base.take(8) =~= "/player/"@);
        assert(base.skip(8) =~= name);
    }
}

/// What the three requests that only look are answered. The state stays as it is.
pub proof fn law_looking(
    pool: MatchmakerView,
    query: Seq<char>,
    body: Seq<char>,
    now: nat,
    spent: nat,
    uptime_ms: nat,
)
    requires
        is_query(query),
    ensures
        answer(
            pool,
            HttpRequestView { method: "GET"@, path: "/health"@ + query, body },
            now,
            spent,
            uptime_ms,
        ) == (response_text(200, "{\"status\":\"ok\"}"@), pool),
        answer(
            pool,
            HttpRequestView { method: "GET"@, path: "/metrics"@ + query, body },
            now,
            spent,
            uptime_ms,
        ) == (response_text(200, metrics_text(pool.counters(), uptime_ms)), pool),
        answer(
            pool,
            HttpRequestView { method: "GET"@, path: "/matches"@ + query, body },
            now,
            spent,
            uptime_ms,
        ) == (response_text(200, recent_text(pool, match_limit("/matches"@ + query))), pool),
{
    reveal_strlit("/health");
    reveal_strlit("/metrics");
    reveal_strlit("/matches");
    lemma_lacks_mark("/health"@);
    lemma_lacks_mark("/metrics"@);
    lemma_lacks_mark("/matches"@);
    law_paths("GET"@, "/health"@, query, body, Seq::empty());
    law_paths("GET"@, "/metrics"@, query, body, Seq::empty());
    law_paths("GET"@, "/matches"@, query, body, Seq::empty());
}

proof fn lemma_lacks_mark(text: Seq<char>)
    requires
        text.len() <= 8,
        forall|i: int| 0 <= i < 8 && i < text.len() ==> #[trigger] text[i] != '?',
    ensures
        !text.contains('?'),
{
}

/// Only a request for a player or for matches can hold something that cannot be
/// decoded.
pub proof fn law_which_requests_are_routable(
    method: Seq<char>,
    base: Seq<char>,
    query: Seq<char>,
    body: Seq<char>,
)
    requires
        !base.contains('?'),
        is_query(query),
    ensures
        ({
            let request = HttpRequestView { method, path: base + query, body };
            &&& method != "GET"@ ==> routable(request)
            &&& base != "/matches"@ && !(base.len() >= 8 && base.take(8) == "/player/"@)
                ==> routable(request)
            &&& base == "/matches"@ && raw_param(base + query, "limit"@) is None ==> routable(
                request,
            )
        }),
{
    lemma_names_differ();
    lemma_address(base, query);
    reveal_strlit("/player/");
}

/// Who is let in joins at the time of asking, and the time that it took is added
/// to the time so far.
pub proof fn law_joining_takes_time(
    pool: MatchmakerView,
    request: HttpRequestView,
    now: nat,
    spent: nat,
    uptime_ms: nat,
)
    requires
        pool.wf(),
        asks(request, "POST"@, "/enqueue"@),
        requested(request.body) is Some,
        pool.accepts(requested(request.body)->0),
    ensures
        ({
            let wish = requested(request.body)->0;
            let next = answer(pool, request, now, spent, uptime_ms).1;
            let newcomer = next.buckets[wish.skill as int / 100].last();
            &&& pool.total_enqueue_ns + spent <= u64::MAX ==> next.total_enqueue_ns
                == pool.total_enqueue_ns + spent
            &&& newcomer.id == wish.player_id
            &&& newcomer.skill == wish.skill
            &&& newcomer.enqueued_at == now
        }),
{
    let wish = requested(request.body)->0;
    lemma_names_differ();
    law_valid_requests(wish);
    law_joining(pool, wish, now);
    law_timing(pool.enqueued(wish, now), spent);
}

} // verus!
