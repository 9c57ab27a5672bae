//! The service: how requests come in, what they are answered, and how workers
//! go through the buckets.
use crate::config::BUCKET_COUNT;
use crate::http::{answer, asks, decoded_text, escapes_whole, raw_player, response_text, routable};
use crate::json::{requested, state_text};
use crate::player::request_fault;
use crate::pool::{counted, MatchmakerView};
use crate::reader::{
    head_end, lemma_head_stays, message_len, next_step, request_in, HttpRequestView, ReadStep,
    READ_LIMIT,
};
use crate::text::{before, lemma_index_of};
use crate::worker::Worker;
use vstd::prelude::*;
use vstd::utf8::encode_utf8;

verus! {

/// A request whose announced length has come in is settled: nothing that comes
/// after it changes it.
pub proof fn law_complete_requests_are_settled(data: Seq<u8>, more: Seq<u8>)
    requires
        message_len(data) is Some,
        message_len(data)->0 <= data.len(),
    ensures
        message_len(data + more) == message_len(data),
        request_in(data + more) == request_in(data),
{
    lemma_head_stays(data, more);
    let end = head_end(data)->0;
    let body_end = message_len(data)->0;
    assert((data + more).subrange(end, body_end) =~= data.subrange(end, body_end));
}

/// Reading goes on only while the request is incomplete and within the limit,
/// and it stops once the limit is passed.
pub proof fn law_reading_stops(data: Seq<u8>)
    ensures
        next_step(data) == ReadStep::More ==> data.len() <= READ_LIMIT && (message_len(data) is None
            || message_len(data)->0 > data.len()),
        data.len() > READ_LIMIT ==> next_step(data) != ReadStep::More,
{
}

/// Nothing but a request to join the queue changes the state.
pub proof fn law_only_joining_changes_the_state(
    pool: MatchmakerView,
    request: HttpRequestView,
    now: nat,
    spent: nat,
    uptime_ms: nat,
)
    ensures
        !asks(request, "POST"@, "/enqueue"@) ==> answer(pool, request, now, spent, uptime_ms).1 == pool,
{
}

/// A request to join is refused for three reasons and accepted otherwise. A
/// refusal leaves the queue and the matches as they are; only that of a known
/// player is counted.
pub proof fn law_joining_is_answered(
    pool: MatchmakerView,
    request: HttpRequestView,
    now: nat,
    spent: nat,
    uptime_ms: nat,
)
    requires
        asks(request, "POST"@, "/enqueue"@),
    ensures
        ({
            let (text, next) = answer(pool, request, now, spent, uptime_ms);
            match requested(request.body) {
                None => {
                    &&& text == response_text(400, "{\"error\":\"invalid player payload\"}"@)
                    &&& next == pool
                },
                Some(wish) => if request_fault(wish) is Some {
                    &&& text == response_text(
                        400,
                        "{\"error\":\""@ + crate::json::escaped(request_fault(wish)->0) + "\"}"@,
                    )
                    &&& next == pool
                } else if pool.knows(wish.player_id) {
                    &&& text == response_text(
                        409,
                        "{\"error\":\"player is already queued or matched\"}"@,
                    )
                    &&& next.buckets == pool.buckets
                    &&& next.waiting_ids == pool.waiting_ids
                    &&& next.assignments == pool.assignments
                    &&& next.recent_matches == pool.recent_matches
                    &&& next.enqueue_rejections == counted(pool.enqueue_rejections, 1)
                } else {
                    &&& text == response_text(202, "{\"status\":\"queued\"}"@)
                    &&& next.waiting_ids == pool.waiting_ids.insert(wish.player_id)
                    &&& next.assignments == pool.assignments
                    &&& next.enqueue_rejections == pool.enqueue_rejections
                },
            }
        }),
{
    reveal_strlit("GET");
    reveal_strlit("POST");
    assert("GET"@[0] != "POST"@[0]);
}

/// A second request to join for the same player is a conflict.
pub proof fn law_joining_twice_is_a_conflict(
    pool: MatchmakerView,
    request: HttpRequestView,
    again: HttpRequestView,
    now: nat,
    later: nat,
    spent: nat,
    uptime_ms: nat,
)
    requires
        asks(request, "POST"@, "/enqueue"@),
        asks(again, "POST"@, "/enqueue"@),
        requested(request.body) is Some,
        requested(again.body) is Some,
        request_fault(requested(request.body)->0) is None,
        request_fault(requested(again.body)->0) is None,
        requested(again.body)->0.player_id == requested(request.body)->0.player_id,
    ensures
        ({
            let next = answer(pool, request, now, spent, uptime_ms).1;
            answer(next, again, later, spent, uptime_ms) == (
                response_text(409, "{\"error\":\"player is already queued or matched\"}"@),
                next.rejected(),
            )
        }),
{
    law_joining_is_answered(pool, request, now, spent, uptime_ms);
    let next = answer(pool, request, now, spent, uptime_ms).1;
    law_joining_is_answered(next, again, later, spent, uptime_ms);
    reveal_strlit("GET");
    reveal_strlit("POST");
    assert("GET"@[0] != "POST"@[0]);
}

proof fn lemma_no_cut(text: Seq<char>, c: char)
    requires
        forall|i: int| 0 <= i < text.len() ==> text[i] != c,
    ensures
        before(text, c) == text,
{
    lemma_index_of(text, c);
    assert(text.take(text.len() as int) =~= text);
}

/// Who asks for a player is told what is known of the player whose name the
/// path stands for, or that nothing is.
pub proof fn law_players_can_be_asked_for(
    pool: MatchmakerView,
    written: Seq<char>,
    body: Seq<char>,
    now: nat,
    spent: nat,
    uptime_ms: nat,
)
    requires
        !written.contains('?'),
        escapes_whole(encode_utf8(written)),
    ensures
        ({
            let request = HttpRequestView { method: "GET"@, path: "/player/"@ + written, body };
            &&& routable(request)
            &&& answer(pool, request, now, spent, uptime_ms) == (
                match state_text(pool, decoded_text(written)) {
                    Some(text) => response_text(200, text),
                    None => response_text(404, "{\"error\":\"player not found\"}"@),
                },
                pool,
            )
        }),
{
    let start = "/player/"@;
    let path = start + written;
    let request = HttpRequestView { method: "GET"@, path, body };
    reveal_strlit("/player/");
    reveal_strlit("/health");
    reveal_strlit("/metrics");
    reveal_strlit("/matches");
    reveal_strlit("GET");
    reveal_strlit("POST");
    assert("GET"@[0] != "POST"@[0]);
    assert forall|i: int| 0 <= i < path.len() implies path[i] != '?' by {
        if i < start.len() {
            assert(i == 0 || i == 1 || i == 2 || i == 3 || i == 4 || i == 5 || i == 6 || i == 7);
        } else {
            assert(path[i] == written[i - start.len()]);
        }
    }
    lemma_no_cut(path, '?');
    assert(path[1] == 'p');
    assert("/health"@[1] == 'h');
    assert("/metrics"@[1] == 'm');
    assert("/matches"@[1] == 'm');
    assert(path.take(start.len() as int) =~= start);
    assert(raw_player(request) =~= written);
}

/// Who has joined is told to be queued, asked for by any path that stands for
/// their name.
pub proof fn law_who_joins_is_queued(
    pool: MatchmakerView,
    request: HttpRequestView,
    written: Seq<char>,
    now: nat,
    later: nat,
    spent: nat,
    uptime_ms: nat,
)
    requires
        pool.wf(),
        asks(request, "POST"@, "/enqueue"@),
        requested(request.body) is Some,
        request_fault(requested(request.body)->0) is None,
        !pool.knows(requested(request.body)->0.player_id),
        !written.contains('?'),
        escapes_whole(encode_utf8(written)),
        decoded_text(written) == requested(request.body)->0.player_id,
    ensures
        ({
            let next = answer(pool, request, now, spent, uptime_ms).1;
            let ask = HttpRequestView { method: "GET"@, path: "/player/"@ + written, body: seq![] };
            answer(next, ask, later, spent, uptime_ms) == (
                response_text(200, "{\"state\":\"queued\"}"@),
                next,
            )
        }),
{
    let next = answer(pool, request, now, spent, uptime_ms).1;
    law_joining_is_answered(pool, request, now, spent, uptime_ms);
    law_players_can_be_asked_for(next, written, seq![], later, spent, uptime_ms);
}

/// How many buckets from `cursor` on come before `bucket` in a pass.
pub open spec fn offset_to(cursor: usize, bucket: int) -> usize {
    (if bucket >= cursor {
        bucket - cursor
    } else {
        bucket + BUCKET_COUNT - cursor
    }) as usize
}

/// In a pass a worker tries every bucket, and each only once: the `bucket` has
/// its turn at one place of the pass and at no other.
pub proof fn law_a_pass_tries_every_bucket_once(worker: Worker, bucket: int)
    requires
        worker.wf(),
        0 <= bucket < BUCKET_COUNT,
    ensures
        offset_to(worker.cursor, bucket) < BUCKET_COUNT,
        worker.target() == bucket <==> worker.offset == offset_to(worker.cursor, bucket),
{
}

/// Where a worker is after some attempts, each of which formed a match or not.
pub open spec fn after_attempts(worker: Worker, formed: Seq<bool>) -> Worker
    decreases formed.len(),
{
    if formed.len() == 0 {
        worker
    } else {
        after_attempts(worker, formed.drop_last()).advanced(formed.last())
    }
}

proof fn lemma_in_a_pass(worker: Worker, formed: Seq<bool>)
    requires
        worker.cursor < BUCKET_COUNT,
        worker.offset == 0,
        !worker.made_match,
        formed.len() < BUCKET_COUNT,
    ensures
        after_attempts(worker, formed) == (Worker {
            cursor: worker.cursor,
            offset: formed.len() as usize,
            made_match: formed.contains(true),
        }),
    decreases formed.len(),
{
    if formed.len() > 0 {
        let front = formed.drop_last();
        lemma_in_a_pass(worker, front);
        assert(formed.contains(true) == (front.contains(true) || formed.last())) by {
            if front.contains(true) {
                let i = choose|i: int| 0 <= i < front.len() && front[i] == true;
                assert(formed[i] == true);
            }
            if formed.last() {
                assert(formed[formed.len() - 1] == true);
            }
            if formed.contains(true) && !formed.last() {
                let i = choose|i: int| 0 <= i < formed.len() && formed[i] == true;
                assert(front[i] == true);
            }
        }
    }
}

/// A worker rests after a pass exactly if the pass formed no match, and starts
/// the next one bucket further.
pub proof fn law_a_worker_rests_after_an_empty_pass(worker: Worker, formed: Seq<bool>)
    requires
        worker.cursor < BUCKET_COUNT,
        worker.offset == 0,
        !worker.made_match,
        formed.len() == BUCKET_COUNT,
    ensures
        after_attempts(worker, formed.drop_last()).rests(formed.last()) <==> !formed.contains(true),
        after_attempts(worker, formed) == (Worker {
            cursor: ((worker.cursor + 1) % BUCKET_COUNT as int) as usize,
            offset: 0,
            made_match: false,
        }),
{
    let front = formed.drop_last();
    lemma_in_a_pass(worker, front);
    if front.contains(true) {
        let i = choose|i: int| 0 <= i < front.len() && front[i] == true;
        assert(formed[i] == true);
    }
    if formed.last() {
        assert(formed[formed.len() - 1] == true);
    }
    if formed.contains(true) && !formed.last() {
        let i = choose|i: int| 0 <= i < formed.len() && formed[i] == true;
        assert(front[i] == true);
    }
}

} // verus!
