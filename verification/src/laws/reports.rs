//! Reports: what is written of the counters and the matches is what they are.
use crate::counters::{average, metrics_text, waiting_count, Counters};
use crate::laws::payload::{
    field_text, lemma_member, lemma_more_members, lemma_number_field, lemma_number_scalar, plain,
};
use crate::laws::steps::{has_seen, law_counting, summed};
use crate::laws::text::law_numbers_read_back;
use crate::object::{first_for, leading_digits, members, object_fields, skip_ascii_space, Field};
use crate::player::MatchView;
use crate::pool::MatchmakerView;
use crate::text::{decimal, number};
use vstd::prelude::*;

verus! {

/// The number that the object `text` gives for `key`.
pub open spec fn number_in(text: Seq<char>, key: Seq<char>) -> Option<nat> {
    match object_fields(text) {
        None => None,
        Some(fields) => match first_for(fields, key) {
            None => None,
            Some(value) => if leading_digits(value) > 0 {
                Some(number(value.take(leading_digits(value))))
            } else {
                None
            },
        },
    }
}

/// The value of the first of some numbered fields, with the others after it.
spec fn numbers_from(figures: Seq<(Seq<char>, nat)>) -> Seq<char>
    decreases figures.len(),
{
    decimal(figures[0].1) + if figures.len() <= 1 {
        seq!['}']
    } else {
        seq![','] + field_text(figures[1].0, numbers_from(figures.skip(1)))
    }
}

/// The fields of an object of numbers.
spec fn fields_of(figures: Seq<(Seq<char>, nat)>) -> Seq<Field>
    decreases figures.len(),
{
    if figures.len() == 0 {
        seq![]
    } else {
        seq![Field { key: figures[0].0, value: numbers_from(figures) }] + fields_of(
            figures.skip(1),
        )
    }
}

proof fn lemma_numbers_members(figures: Seq<(Seq<char>, nat)>)
    requires
        figures.len() > 0,
        forall|i: int| 0 <= i < figures.len() ==> plain((#[trigger] figures[i]).0),
    ensures
        members(field_text(figures[0].0, numbers_from(figures))) == Some(fields_of(figures)),
    decreases figures.len(),
{
    let (key, n) = figures[0];
    let value = numbers_from(figures);
    let field = Field { key, value };
    assert(plain(figures[0].0));
    law_numbers_read_back(n);
    if figures.len() == 1 {
        let end = seq!['}'];
        lemma_number_scalar(n, end);
        lemma_member(key, value, decimal(n).len() as int, end);
        assert(end.skip(1) =~= seq![]);
        assert(skip_ascii_space(end.skip(1)).len() == 0);
        assert(fields_of(figures.skip(1)) =~= seq![]);
        assert(fields_of(figures) =~= seq![field]);
    } else {
        let others = figures.skip(1);
        assert forall|i: int| 0 <= i < others.len() implies plain((#[trigger] others[i]).0) by {
            assert(others[i] == figures[i + 1]);
        }
        lemma_numbers_members(others);
        let next = field_text(others[0].0, numbers_from(others));
        assert(next[0] == '"');
        lemma_number_scalar(n, seq![','] + next);
        lemma_more_members(key, value, decimal(n).len() as int, next, fields_of(others));
    }
}

proof fn lemma_first_figure(figures: Seq<(Seq<char>, nat)>, i: int)
    requires
        0 <= i < figures.len(),
        forall|j: int| 0 <= j < i ==> (#[trigger] figures[j]).0 != figures[i].0,
    ensures
        first_for(fields_of(figures), figures[i].0) is Some,
        leading_digits(first_for(fields_of(figures), figures[i].0)->0) > 0,
        number(
            first_for(fields_of(figures), figures[i].0)->0.take(
                leading_digits(first_for(fields_of(figures), figures[i].0)->0),
            ),
        ) == figures[i].1,
    decreases i,
{
    let fields = fields_of(figures);
    let others = figures.skip(1);
    assert(fields.skip(1) =~= fields_of(others));
    assert(fields[0].key == figures[0].0);
    if i == 0 {
        let n = figures[0].1;
        law_numbers_read_back(n);
        if figures.len() == 1 {
            lemma_number_scalar(n, seq!['}']);
        } else {
            lemma_number_scalar(n, seq![','] + field_text(figures[1].0, numbers_from(others)));
        }
    } else {
        assert(figures[0].0 != figures[i].0);
        assert(others[i - 1] == figures[i]);
        assert forall|j: int| 0 <= j < i - 1 implies (#[trigger] others[j]).0 != others[i - 1].0 by {
            assert(others[j] == figures[j + 1]);
        }
        lemma_first_figure(others, i - 1);
    }
}

/// A number in an object of numbers is read back by its key.
proof fn lemma_figure_reads_back(text: Seq<char>, figures: Seq<(Seq<char>, nat)>, i: int)
    requires
        text == seq!['{'] + field_text(figures[0].0, numbers_from(figures)),
        forall|j: int| 0 <= j < figures.len() ==> plain((#[trigger] figures[j]).0),
        0 <= i < figures.len(),
        forall|j: int| 0 <= j < i ==> (#[trigger] figures[j]).0 != figures[i].0,
    ensures
        number_in(text, figures[i].0) == Some(figures[i].1),
{
    let inner = field_text(figures[0].0, numbers_from(figures));
    assert(text[0] == '{');
    assert(skip_ascii_space(text) == text);
    assert(text.skip(1) =~= inner);
    assert(inner[0] == '"');
    assert(skip_ascii_space(inner) == inner);
    lemma_numbers_members(figures);
    lemma_first_figure(figures, i);
}

/// What is reported, by its keys.
spec fn figures_of(counters: Counters, uptime_ms: nat) -> Seq<(Seq<char>, nat)> {
    seq![
        ("players_enqueued"@, counters.players_enqueued as nat),
        ("players_matched"@, counters.players_matched as nat),
        ("waiting_players"@, waiting_count(counters)),
        ("matches_created"@, counters.matches_created as nat),
        ("enqueue_rejections"@, counters.enqueue_rejections as nat),
        ("avg_wait_ms"@, average(counters.total_wait_ms, counters.players_matched)),
        ("avg_team_skill_diff"@, average(counters.total_skill_diff, counters.matches_created)),
        ("avg_match_skill_spread"@, average(counters.total_skill_spread, counters.matches_created)),
        ("avg_enqueue_ns"@, average(counters.total_enqueue_ns, counters.players_enqueued)),
        ("uptime_ms"@, uptime_ms),
    ]
}

proof fn lemma_report_keys()
    ensures
        plain("players_enqueued"@) && "players_enqueued"@.len() == 16 && "players_enqueued"@[0] == 'p',
        plain("players_matched"@) && "players_matched"@.len() == 15 && "players_matched"@[0] == 'p',
        plain("waiting_players"@) && "waiting_players"@.len() == 15 && "waiting_players"@[0] == 'w',
        plain("matches_created"@) && "matches_created"@.len() == 15 && "matches_created"@[0] == 'm',
        plain("enqueue_rejections"@) && "enqueue_rejections"@.len() == 18 && "enqueue_rejections"@[0] == 'e',
        plain("avg_wait_ms"@) && "avg_wait_ms"@.len() == 11 && "avg_wait_ms"@[0] == 'a',
        plain("avg_team_skill_diff"@) && "avg_team_skill_diff"@.len() == 19 && "avg_team_skill_diff"@[0] == 'a',
        plain("avg_match_skill_spread"@) && "avg_match_skill_spread"@.len() == 22 && "avg_match_skill_spread"@[0] == 'a',
        plain("avg_enqueue_ns"@) && "avg_enqueue_ns"@.len() == 14 && "avg_enqueue_ns"@[0] == 'a',
        plain("uptime_ms"@) && "uptime_ms"@.len() == 9 && "uptime_ms"@[0] == 'u',
{
    reveal_strlit("players_enqueued");
    reveal_strlit("players_matched");
    reveal_strlit("waiting_players");
    reveal_strlit("matches_created");
    reveal_strlit("enqueue_rejections");
    reveal_strlit("avg_wait_ms");
    reveal_strlit("avg_team_skill_diff");
    reveal_strlit("avg_match_skill_spread");
    reveal_strlit("avg_enqueue_ns");
    reveal_strlit("uptime_ms");
}

proof fn lemma_report_parts()
    ensures
        "{\"players_enqueued\":"@ == seq!['{'] + seq!['"'] + "players_enqueued"@ + seq!['"', ':'],
        ",\"players_matched\":"@ == seq![','] + seq!['"'] + "players_matched"@ + seq!['"', ':'],
        ",\"waiting_players\":"@ == seq![','] + seq!['"'] + "waiting_players"@ + seq!['"', ':'],
        ",\"matches_created\":"@ == seq![','] + seq!['"'] + "matches_created"@ + seq!['"', ':'],
        ",\"enqueue_rejections\":"@ == seq![','] + seq!['"'] + "enqueue_rejections"@ + seq!['"', ':'],
        ",\"avg_wait_ms\":"@ == seq![','] + seq!['"'] + "avg_wait_ms"@ + seq!['"', ':'],
        ",\"avg_team_skill_diff\":"@ == seq![','] + seq!['"'] + "avg_team_skill_diff"@ + seq!['"', ':'],
        ",\"avg_match_skill_spread\":"@ == seq![','] + seq!['"'] + "avg_match_skill_spread"@ + seq!['"', ':'],
        ",\"avg_enqueue_ns\":"@ == seq![','] + seq!['"'] + "avg_enqueue_ns"@ + seq!['"', ':'],
        ",\"uptime_ms\":"@ == seq![','] + seq!['"'] + "uptime_ms"@ + seq!['"', ':'],
        "}"@ == seq!['}'],
{
    reveal_strlit("players_enqueued");
    reveal_strlit("players_matched");
    reveal_strlit("waiting_players");
    reveal_strlit("matches_created");
    reveal_strlit("enqueue_rejections");
    reveal_strlit("avg_wait_ms");
    reveal_strlit("avg_team_skill_diff");
    reveal_strlit("avg_match_skill_spread");
    reveal_strlit("avg_enqueue_ns");
    reveal_strlit("uptime_ms");
    reveal_strlit("{\"players_enqueued\":");
    reveal_strlit(",\"players_matched\":");
    reveal_strlit(",\"waiting_players\":");
    reveal_strlit(",\"matches_created\":");
    reveal_strlit(",\"enqueue_rejections\":");
    reveal_strlit(",\"avg_wait_ms\":");
    reveal_strlit(",\"avg_team_skill_diff\":");
    reveal_strlit(",\"avg_match_skill_spread\":");
    reveal_strlit(",\"avg_enqueue_ns\":");
    reveal_strlit(",\"uptime_ms\":");
    reveal_strlit("}");
    assert("{\"players_enqueued\":"@ =~= seq!['{'] + seq!['"'] + "players_enqueued"@ + seq!['"', ':']);
    assert(",\"players_matched\":"@ =~= seq![','] + seq!['"'] + "players_matched"@ + seq!['"', ':']);
    assert(",\"waiting_players\":"@ =~= seq![','] + seq!['"'] + "waiting_players"@ + seq!['"', ':']);
    assert(",\"matches_created\":"@ =~= seq![','] + seq!['"'] + "matches_created"@ + seq!['"', ':']);
    assert(",\"enqueue_rejections\":"@ =~= seq![','] + seq!['"'] + "enqueue_rejections"@ + seq!['"', ':']);
    assert(",\"avg_wait_ms\":"@ =~= seq![','] + seq!['"'] + "avg_wait_ms"@ + seq!['"', ':']);
    assert(",\"avg_team_skill_diff\":"@ =~= seq![','] + seq!['"'] + "avg_team_skill_diff"@ + seq!['"', ':']);
    assert(",\"avg_match_skill_spread\":"@ =~= seq![','] + seq!['"'] + "avg_match_skill_spread"@ + seq!['"', ':']);
    assert(",\"avg_enqueue_ns\":"@ =~= seq![','] + seq!['"'] + "avg_enqueue_ns"@ + seq!['"', ':']);
    assert(",\"uptime_ms\":"@ =~= seq![','] + seq!['"'] + "uptime_ms"@ + seq!['"', ':']);
    assert("}"@ =~= seq!['}']);
}

pub(crate) proof fn lemma_put_off(front: Seq<char>, label: Seq<char>, digits: Seq<char>, rest: Seq<char>)
    ensures
        front + label + digits + rest == front + (label + digits + rest),
{
    assert(front + label + digits + rest =~= front + (label + digits + rest));
}

/// The report as an object of numbers.
proof fn lemma_report_text(counters: Counters, uptime_ms: nat)
    ensures
        metrics_text(counters, uptime_ms) == seq!['{'] + field_text(
            figures_of(counters, uptime_ms)[0].0,
            numbers_from(figures_of(counters, uptime_ms)),
        ),
{
    let all = figures_of(counters, uptime_ms);
    lemma_report_parts();
    let d0 = decimal(all[0].1);
    let d1 = decimal(all[1].1);
    let d2 = decimal(all[2].1);
    let d3 = decimal(all[3].1);
    let d4 = decimal(all[4].1);
    let d5 = decimal(all[5].1);
    let d6 = decimal(all[6].1);
    let d7 = decimal(all[7].1);
    let d8 = decimal(all[8].1);
    let d9 = decimal(all[9].1);
    let l0 = "{\"players_enqueued\":"@;
    let l1 = ",\"players_matched\":"@;
    let l2 = ",\"waiting_players\":"@;
    let l3 = ",\"matches_created\":"@;
    let l4 = ",\"enqueue_rejections\":"@;
    let l5 = ",\"avg_wait_ms\":"@;
    let l6 = ",\"avg_team_skill_diff\":"@;
    let l7 = ",\"avg_match_skill_spread\":"@;
    let l8 = ",\"avg_enqueue_ns\":"@;
    let l9 = ",\"uptime_ms\":"@;
    let p0 = l0 + d0;
    let p1 = p0 + l1 + d1;
    let p2 = p1 + l2 + d2;
    let p3 = p2 + l3 + d3;
    let p4 = p3 + l4 + d4;
    let p5 = p4 + l5 + d5;
    let p6 = p5 + l6 + d6;
    let p7 = p6 + l7 + d7;
    let p8 = p7 + l8 + d8;
    let p9 = p8 + l9 + d9;
    let s0 = all.skip(0);
    let s1 = all.skip(1);
    let s2 = all.skip(2);
    let s3 = all.skip(3);
    let s4 = all.skip(4);
    let s5 = all.skip(5);
    let s6 = all.skip(6);
    let s7 = all.skip(7);
    let s8 = all.skip(8);
    let s9 = all.skip(9);
    assert(s0 =~= all);
    assert(s0.skip(1) =~= s1);
    assert(s1.skip(1) =~= s2);
    assert(s2.skip(1) =~= s3);
    assert(s3.skip(1) =~= s4);
    assert(s4.skip(1) =~= s5);
    assert(s5.skip(1) =~= s6);
    assert(s6.skip(1) =~= s7);
    assert(s7.skip(1) =~= s8);
    assert(s8.skip(1) =~= s9);
    let r9 = seq!['}'];
    assert(numbers_from(s9) == d9 + r9);
    lemma_put_off(p8, l9, d9, r9);
    lemma_number_field(seq![','], all[9].0, d9, r9);
    let r8 = seq![','] + field_text(all[9].0, numbers_from(s9));
    assert(p9 + r9 == p8 + r8);
    assert(numbers_from(s8) == d8 + r8);
    lemma_put_off(p7, l8, d8, r8);
    lemma_number_field(seq![','], all[8].0, d8, r8);
    let r7 = seq![','] + field_text(all[8].0, numbers_from(s8));
    assert(p8 + r8 == p7 + r7);
    assert(numbers_from(s7) == d7 + r7);
    lemma_put_off(p6, l7, d7, r7);
    lemma_number_field(seq![','], all[7].0, d7, r7);
    let r6 = seq![','] + field_text(all[7].0, numbers_from(s7));
    assert(p7 + r7 == p6 + r6);
    assert(numbers_from(s6) == d6 + r6);
    lemma_put_off(p5, l6, d6, r6);
    lemma_number_field(seq![','], all[6].0, d6, r6);
    let r5 = seq![','] + field_text(all[6].0, numbers_from(s6));
    assert(p6 + r6 == p5 + r5);
    assert(numbers_from(s5) == d5 + r5);
    lemma_put_off(p4, l5, d5, r5);
    lemma_number_field(seq![','], all[5].0, d5, r5);
    let r4 = seq![','] + field_text(all[5].0, numbers_from(s5));
    assert(p5 + r5 == p4 + r4);
    assert(numbers_from(s4) == d4 + r4);
    lemma_put_off(p3, l4, d4, r4);
    lemma_number_field(seq![','], all[4].0, d4, r4);
    let r3 = seq![','] + field_text(all[4].0, numbers_from(s4));
    assert(p4 + r4 == p3 + r3);
    assert(numbers_from(s3) == d3 + r3);
    lemma_put_off(p2, l3, d3, r3);
    lemma_number_field(seq![','], all[3].0, d3, r3);
    let r2 = seq![','] + field_text(all[3].0, numbers_from(s3));
    assert(p3 + r3 == p2 + r2);
    assert(numbers_from(s2) == d2 + r2);
    lemma_put_off(p1, l2, d2, r2);
    lemma_number_field(seq![','], all[2].0, d2, r2);
    let r1 = seq![','] + field_text(all[2].0, numbers_from(s2));
    assert(p2 + r2 == p1 + r1);
    assert(numbers_from(s1) == d1 + r1);
    lemma_put_off(p0, l1, d1, r1);
    lemma_number_field(seq![','], all[1].0, d1, r1);
    let r0 = seq![','] + field_text(all[1].0, numbers_from(s1));
    assert(p1 + r1 == p0 + r0);
    assert(numbers_from(s0) == d0 + r0);
    lemma_number_field(seq!['{'], all[0].0, d0, r0);
    assert(metrics_text(counters, uptime_ms) == p9 + "}"@);
}

/// What is reported of the counters reads back by its keys: the counters
/// themselves, how many were let in and not yet matched, the averages over
/// players, matches and requests, rounded down and zero of none, and the uptime.
pub proof fn law_reports_read_back(counters: Counters, uptime_ms: nat)
    ensures
        ({
            let text = metrics_text(counters, uptime_ms);
            let wait = number_in(text, "avg_wait_ms"@)->0;
            let diff = number_in(text, "avg_team_skill_diff"@)->0;
            let spread = number_in(text, "avg_match_skill_spread"@)->0;
            let time = number_in(text, "avg_enqueue_ns"@)->0;
            let left = counters.players_enqueued - counters.players_matched;
            &&& number_in(text, "players_enqueued"@) == Some(counters.players_enqueued as nat)
            &&& number_in(text, "players_matched"@) == Some(counters.players_matched as nat)
            &&& number_in(text, "waiting_players"@) == Some(
                if left > 0 {
                    left as nat
                } else {
                    0
                },
            )
            &&& number_in(text, "matches_created"@) == Some(counters.matches_created as nat)
            &&& number_in(text, "enqueue_rejections"@) == Some(counters.enqueue_rejections as nat)
            &&& number_in(text, "uptime_ms"@) == Some(uptime_ms)
            &&& number_in(text, "avg_wait_ms"@) is Some
            &&& number_in(text, "avg_team_skill_diff"@) is Some
            &&& number_in(text, "avg_match_skill_spread"@) is Some
            &&& number_in(text, "avg_enqueue_ns"@) is Some
            &&& counters.players_matched == 0 ==> wait == 0
            &&& counters.players_matched > 0 ==> wait * counters.players_matched
                <= counters.total_wait_ms < (wait + 1) * counters.players_matched
            &&& counters.matches_created == 0 ==> diff == 0 && spread == 0
            &&& counters.matches_created > 0 ==> diff * counters.matches_created
                <= counters.total_skill_diff < (diff + 1) * counters.matches_created
            &&& counters.matches_created > 0 ==> spread * counters.matches_created
                <= counters.total_skill_spread < (spread + 1) * counters.matches_created
            &&& counters.players_enqueued == 0 ==> time == 0
            &&& counters.players_enqueued > 0 ==> time * counters.players_enqueued
                <= counters.total_enqueue_ns < (time + 1) * counters.players_enqueued
        }),
{
    let all = figures_of(counters, uptime_ms);
    let text = metrics_text(counters, uptime_ms);
    lemma_report_keys();
    lemma_report_text(counters, uptime_ms);
    lemma_figure_reads_back(text, all, 0);
    lemma_figure_reads_back(text, all, 1);
    lemma_figure_reads_back(text, all, 2);
    lemma_figure_reads_back(text, all, 3);
    lemma_figure_reads_back(text, all, 4);
    lemma_figure_reads_back(text, all, 5);
    lemma_figure_reads_back(text, all, 6);
    lemma_figure_reads_back(text, all, 7);
    lemma_figure_reads_back(text, all, 8);
    lemma_figure_reads_back(text, all, 9);
    lemma_average(counters.total_wait_ms, counters.players_matched);
    lemma_average(counters.total_skill_diff, counters.matches_created);
    lemma_average(counters.total_skill_spread, counters.matches_created);
    lemma_average(counters.total_enqueue_ns, counters.players_enqueued);
}

proof fn lemma_average(total: u64, count: u64)
    ensures
        count == 0 ==> average(total, count) == 0,
        count > 0 ==> average(total, count) * count <= total < (average(total, count) + 1) * count,
{
    if count > 0 {
        let part = total as int / count as int;
        assert(part * count <= total < (part + 1) * count) by (nonlinear_arith)
            requires
                part == total as int / count as int,
                count > 0,
        ;
    }
}

/// The reported averages are those of the matches that were seen: their
/// differences and their spreads, added up and divided by their number.
pub proof fn law_reports_tell_the_history(
    pool: MatchmakerView,
    history: Seq<MatchView>,
    uptime_ms: nat,
)
    requires
        has_seen(pool, history),
        history.len() > 0,
        summed(history, |m: MatchView| m.skill_diff as nat) <= u64::MAX,
        summed(history, |m: MatchView| m.skill_spread as nat) <= u64::MAX,
    ensures
        ({
            let text = metrics_text(pool.counters(), uptime_ms);
            &&& number_in(text, "matches_created"@) == Some(history.len())
            &&& number_in(text, "avg_team_skill_diff"@) == Some(
                summed(history, |m: MatchView| m.skill_diff as nat) / history.len(),
            )
            &&& number_in(text, "avg_match_skill_spread"@) == Some(
                summed(history, |m: MatchView| m.skill_spread as nat) / history.len(),
            )
        }),
{
    let diffs = summed(history, |m: MatchView| m.skill_diff as nat);
    let spreads = summed(history, |m: MatchView| m.skill_spread as nat);
    law_counting(0, diffs);
    law_counting(0, spreads);
    law_reports_read_back(pool.counters(), uptime_ms);
    let text = metrics_text(pool.counters(), uptime_ms);
    let diff = number_in(text, "avg_team_skill_diff"@)->0;
    let spread = number_in(text, "avg_match_skill_spread"@)->0;
    let count = history.len();
    assert(diff == diffs / count) by (nonlinear_arith)
        requires
            diff * count <= diffs < (diff + 1) * count,
            count > 0,
    ;
    assert(spread == spreads / count) by (nonlinear_arith)
        requires
            spread * count <= spreads < (spread + 1) * count,
            count > 0,
    ;
}

} // verus!
