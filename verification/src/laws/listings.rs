//! Listings: what is told of players, teams and matches.
use crate::config::BUCKET_COUNT;
use crate::json::{
    escaped, listed, match_text, member_text, number_value, recent_text, state_text, string_value,
    team_text,
};
use crate::laws::matches::law_places_are_kept;
use crate::laws::payload::{
    field_text, lemma_last_member, lemma_member, lemma_more_members, lemma_number_field,
    lemma_number_scalar, lemma_reads_string, lemma_string_field, lemma_string_scalar, plain,
    string_text,
};
use crate::laws::reports::{lemma_put_off, number_in};
use crate::laws::text::law_numbers_read_back;
use crate::object::{first_for, members, object_fields, skip_ascii_space, Field};
use crate::player::{MatchView, MemberView, RequestView, Team};
use crate::pool::MatchmakerView;
use crate::selection::first_of;
use crate::text::decimal;
use vstd::prelude::*;

verus! {

/// What is told of a player depends on nothing but where that player plays and
/// whether that player waits.
pub proof fn law_told_by_ones_own_place(pool: MatchmakerView, other: MatchmakerView, id: Seq<char>)
    requires
        pool.assignments.contains_key(id) == other.assignments.contains_key(id),
        pool.assignments.contains_key(id) ==> pool.assignments[id] == other.assignments[id],
        pool.waiting_ids.contains(id) == other.waiting_ids.contains(id),
    ensures
        state_text(pool, id) == state_text(other, id),
{
}

/// What is told of a player who plays stays the same through every later step.
pub proof fn law_told_once_and_for_all(
    pool: MatchmakerView,
    request: RequestView,
    now: nat,
    nanos: nat,
    bucket: int,
    epoch_ms: u128,
    id: Seq<char>,
)
    requires
        pool.wf(),
        0 <= bucket < BUCKET_COUNT,
        pool.assignments.contains_key(id),
    ensures
        state_text(pool, id) is Some,
        state_text(pool.enqueued(request, now), id) == state_text(pool, id),
        state_text(pool.rejected(), id) == state_text(pool, id),
        state_text(pool.timed(nanos), id) == state_text(pool, id),
        state_text(pool.attempted(bucket, now, epoch_ms), id) == state_text(pool, id),
{
    law_places_are_kept(pool, request, now, bucket, epoch_ms, id);
}

/// A text without characters that JSON escapes is written as it is.
proof fn lemma_escaped_plain(text: Seq<char>)
    requires
        plain(text),
        !text.contains('\n'),
        !text.contains('\r'),
        !text.contains('\t'),
    ensures
        escaped(text) == text,
    decreases text.len(),
{
    if text.len() > 0 {
        let front = text.drop_last();
        assert forall|i: int| 0 <= i < front.len() implies #[trigger] front[i] != '"' && front[i]
            != '\\' && front[i] != '\n' && front[i] != '\r' && front[i] != '\t' by {
            assert(front[i] == text[i]);
            assert(text.contains(text[i]));
        }
        lemma_escaped_plain(front);
        assert(text[text.len() - 1] == text.last());
        assert(text.contains(text.last()));
        assert(escaped(text) =~= text);
    }
}

/// The literals of what is told of a player.
proof fn lemma_state_parts()
    ensures
        "{\"state\":\"matched\",\"match_id\":"@ == (seq!['{'] + seq!['"'] + "state"@ + seq![
            '"',
            ':',
            '"',
        ]) + "matched"@ + (seq!['"'] + (seq![','] + seq!['"'] + "match_id"@ + seq!['"', ':'])),
        ",\"team\":\""@ == seq![','] + seq!['"'] + "team"@ + seq!['"', ':', '"'],
        "\"}"@ == seq!['"'] + seq!['}'],
        "{\"state\":\"queued\"}"@ == (seq!['{'] + seq!['"'] + "state"@ + seq!['"', ':', '"'])
            + "queued"@ + (seq!['"'] + seq!['}']),
        plain("state"@) && "state"@.len() == 5,
        plain("match_id"@) && "match_id"@.len() == 8,
        plain("team"@) && "team"@.len() == 4,
        escaped("matched"@) == "matched"@,
        escaped("queued"@) == "queued"@,
        escaped("A"@) == "A"@,
        escaped("B"@) == "B"@,
{
    reveal_strlit("{\"state\":\"matched\",\"match_id\":");
    reveal_strlit(",\"team\":\"");
    reveal_strlit("\"}");
    reveal_strlit("{\"state\":\"queued\"}");
    reveal_strlit("state");
    reveal_strlit("match_id");
    reveal_strlit("team");
    reveal_strlit("matched");
    reveal_strlit("queued");
    reveal_strlit("A");
    reveal_strlit("B");
    assert("{\"state\":\"matched\",\"match_id\":"@ =~= (seq!['{'] + seq!['"'] + "state"@ + seq![
        '"',
        ':',
        '"',
    ]) + "matched"@ + (seq!['"'] + (seq![','] + seq!['"'] + "match_id"@ + seq!['"', ':'])));
    assert(",\"team\":\""@ =~= seq![','] + seq!['"'] + "team"@ + seq!['"', ':', '"']);
    assert("\"}"@ =~= seq!['"'] + seq!['}']);
    assert("{\"state\":\"queued\"}"@ =~= (seq!['{'] + seq!['"'] + "state"@ + seq!['"', ':', '"'])
        + "queued"@ + (seq!['"'] + seq!['}']));
    lemma_escaped_plain("matched"@);
    lemma_escaped_plain("queued"@);
    lemma_escaped_plain("A"@);
    lemma_escaped_plain("B"@);
}

/// The fields of an object that is written without white space.
pub(crate) proof fn lemma_object(text: Seq<char>, key: Seq<char>, value: Seq<char>, all: Seq<Field>)
    requires
        text == seq!['{'] + field_text(key, value),
        members(field_text(key, value)) == Some(all),
    ensures
        object_fields(text) == Some(all),
{
    let inner = field_text(key, value);
    assert(text[0] == '{');
    assert(skip_ascii_space(text) == text);
    assert(text.skip(1) =~= inner);
    assert(inner[0] == '"');
    assert(skip_ascii_space(inner) == inner);
}

proof fn lemma_matched_text(match_id: nat, team: Seq<char>)
    requires
        escaped(team) == team,
    ensures
        ({
            let text = "{\"state\":\"matched\",\"match_id\":"@ + decimal(match_id) + ",\"team\":\""@
                + team + "\"}"@;
            &&& string_value(text, "state"@) == Some("matched"@)
            &&& number_in(text, "match_id"@) == Some(match_id)
            &&& string_value(text, "team"@) == Some(team)
        }),
{
    lemma_state_parts();
    let digits = decimal(match_id);
    let text = "{\"state\":\"matched\",\"match_id\":"@ + digits + ",\"team\":\""@ + team + "\"}"@;
    let v3 = string_text(team, seq!['}']);
    let t3 = field_text("team"@, v3);
    let v2 = digits + (seq![','] + t3);
    let t2 = field_text("match_id"@, v2);
    let v1 = string_text("matched"@, seq![','] + t2);
    let t1 = field_text("state"@, v1);
    let f1 = Field { key: "state"@, value: v1 };
    let f2 = Field { key: "match_id"@, value: v2 };
    let f3 = Field { key: "team"@, value: v3 };

    lemma_string_field(seq![','], "team"@, team, seq!['}']);
    lemma_number_field(seq![','], "match_id"@, digits, seq![','] + t3);
    lemma_string_field(seq!['{'], "state"@, "matched"@, seq![','] + t2);
    let label = seq![','] + seq!['"'] + "match_id"@ + seq!['"', ':'];
    let start = seq!['{'] + seq!['"'] + "state"@ + seq!['"', ':', '"'];
    let end = ",\"team\":\""@ + team + "\"}"@;
    assert(end == seq![','] + t3);
    assert(text =~= start + "matched"@ + (seq!['"'] + (label + digits + end)));
    assert(text == seq!['{'] + t1);

    lemma_last_member("team"@, team);
    law_numbers_read_back(match_id);
    lemma_number_scalar(match_id, seq![','] + t3);
    lemma_more_members("match_id"@, v2, digits.len() as int, t3, seq![f3]);
    lemma_string_scalar("matched"@, seq![','] + t2);
    lemma_more_members(
        "state"@,
        v1,
        escaped("matched"@).len() as int + 2,
        t2,
        seq![f2] + seq![f3],
    );
    let all = seq![f1] + (seq![f2] + seq![f3]);
    lemma_object(text, "state"@, v1, all);
    let from_two = seq![f2, f3];
    let from_three = seq![f3];
    assert(all.skip(1) =~= from_two);
    assert(from_two.skip(1) =~= from_three);
    assert(first_for(all, "state"@) == Some(v1));
    assert(first_for(from_two, "match_id"@) == Some(v2));
    assert(first_for(from_three, "team"@) == Some(v3));
    assert(first_for(from_two, "team"@) == Some(v3));
    lemma_reads_string(text, "state"@, "matched"@, seq![','] + t2);
    lemma_reads_string(text, "team"@, team, seq!['}']);
}

/// What is told of a player reads back: of one who plays, that they are matched,
/// the number of their own match and their own team; of one who waits, that they
/// are queued; of anyone else, nothing.
pub proof fn law_told_reads_back(pool: MatchmakerView, id: Seq<char>)
    ensures
        pool.assignments.contains_key(id) ==> {
            let text = state_text(pool, id)->0;
            &&& state_text(pool, id) is Some
            &&& string_value(text, "state"@) == Some("matched"@)
            &&& number_in(text, "match_id"@) == Some(pool.assignments[id].match_id as nat)
            &&& pool.assignments[id].team == Team::A ==> string_value(text, "team"@) == Some("A"@)
            &&& pool.assignments[id].team == Team::B ==> string_value(text, "team"@) == Some("B"@)
        },
        !pool.assignments.contains_key(id) && pool.waiting_ids.contains(id) ==> {
            &&& state_text(pool, id) is Some
            &&& string_value(state_text(pool, id)->0, "state"@) == Some("queued"@)
        },
        !pool.assignments.contains_key(id) && !pool.waiting_ids.contains(id) ==> state_text(
            pool,
            id,
        ) is None,
{
    lemma_state_parts();
    if pool.assignments.contains_key(id) {
        let place = pool.assignments[id];
        lemma_matched_text(place.match_id as nat, place.team.name());
    } else {
        let text = "{\"state\":\"queued\"}"@;
        let value = string_text("queued"@, seq!['}']);
        let all = seq![Field { key: "state"@, value }];
        lemma_string_field(seq!['{'], "state"@, "queued"@, seq!['}']);
        lemma_last_member("state"@, "queued"@);
        lemma_object(text, "state"@, value, all);
        assert(first_for(all, "state"@) == Some(value));
        lemma_reads_string(text, "state"@, "queued"@, seq!['}']);
    }
}

/// A list has its parts in order with commas between them.
pub proof fn law_lists(texts: Seq<Seq<char>>, text: Seq<char>)
    ensures
        listed(Seq::empty()) == Seq::<char>::empty(),
        listed(seq![text]) == text,
        texts.len() > 0 ==> listed(texts.push(text)) == listed(texts) + seq![','] + text,
{
    assert(texts.push(text).drop_last() =~= texts);
    assert(listed(texts).push(',') + text =~= listed(texts) + seq![','] + text);
}

/// The list of recent matches holds for a limit of none no match; one more shows
/// the match that comes next after the newest ones shown, behind them; and there
/// is no more to show than is kept.
pub proof fn law_recent_matches_in_order(pool: MatchmakerView, limit: nat)
    ensures
        recent_text(pool, 0) == "{\"matches\":["@ + "]}"@,
        limit < pool.recent_matches.len() ==> {
            let shown = recent_text(pool, limit);
            let open = shown.take(shown.len() - "]}"@.len());
            &&& shown == open + "]}"@
            &&& recent_text(pool, limit + 1) == open + (if limit == 0 {
                seq![]
            } else {
                seq![',']
            }) + match_text(pool.recent_matches[limit as int]) + "]}"@
        },
        limit >= pool.recent_matches.len() ==> recent_text(pool, limit) == recent_text(
            pool,
            pool.recent_matches.len(),
        ),
{
    let write = |m: MatchView| match_text(m);
    let kept = pool.recent_matches;
    assert(first_of(kept, 0).map_values(write) =~= seq![]);
    assert("{\"matches\":["@ + listed(Seq::empty()) =~= "{\"matches\":["@);
    if limit < kept.len() {
        let few = first_of(kept, limit as int).map_values(write);
        let more = first_of(kept, limit as int + 1).map_values(write);
        let text = match_text(kept[limit as int]);
        assert(more =~= few.push(text));
        law_lists(few, text);
        let start = "{\"matches\":["@;
        let open = start + listed(few);
        let shown = recent_text(pool, limit);
        assert(shown.take(shown.len() - "]}"@.len()) =~= open);
        if limit == 0 {
            assert(few =~= seq![]);
            assert(more =~= seq![text]);
            assert(open =~= start);
            assert(start + text + "]}"@ =~= open + seq![] + text + "]}"@);
        } else {
            assert(start + (listed(few) + seq![','] + text) + "]}"@ =~= open + seq![','] + text
                + "]}"@);
        }
    }
}

/// A team is written as the list of its members, one after another.
pub proof fn law_teams_in_json(team: Seq<MemberView>, member: MemberView)
    ensures
        team_text(Seq::empty()) == "["@ + "]"@,
        ({
            let shown = team_text(team);
            let open = shown.take(shown.len() - "]"@.len());
            &&& shown == open + "]"@
            &&& team_text(team.push(member)) == open + (if team.len() == 0 {
                seq![]
            } else {
                seq![',']
            }) + member_text(member) + "]"@
        }),
{
    let write = |m: MemberView| member_text(m);
    let few = team.map_values(write);
    let text = member_text(member);
    let more = team.push(member).map_values(write);
    assert(Seq::<MemberView>::empty().map_values(write) =~= seq![]);
    assert("["@ + listed(Seq::empty()) =~= "["@);
    assert(more =~= few.push(text));
    law_lists(few, text);
    let open = "["@ + listed(few);
    let shown = team_text(team);
    assert(shown.take(shown.len() - "]"@.len()) =~= open);
    if team.len() == 0 {
        assert(few =~= seq![]);
        assert(more =~= seq![text]);
        assert(open =~= "["@);
        assert("["@ + text + "]"@ =~= open + seq![] + text + "]"@);
    } else {
        assert("["@ + (listed(few) + seq![','] + text) + "]"@ =~= open + seq![','] + text + "]"@);
    }
}

/// A member of a team reads back: the name, whatever it holds, and the rating.
pub proof fn law_members_read_back(member: MemberView)
    ensures
        string_value(member_text(member), "player_id"@) == Some(member.id),
        number_value(member_text(member), "skill"@) == Some(member.skill),
{
    let text = member_text(member);
    let digits = decimal(member.skill as nat);
    let v2 = digits + seq!['}'];
    let t2 = field_text("skill"@, v2);
    let v1 = string_text(member.id, seq![','] + t2);
    let t1 = field_text("player_id"@, v1);
    let f1 = Field { key: "player_id"@, value: v1 };
    let f2 = Field { key: "skill"@, value: v2 };
    lemma_member_parts();
    lemma_number_field(seq![','], "skill"@, digits, seq!['}']);
    lemma_string_field(seq!['{'], "player_id"@, member.id, seq![','] + t2);
    let start = "{\"player_id\":\""@;
    let label = seq![','] + seq!['"'] + "skill"@ + seq!['"', ':'];
    assert(text =~= start + escaped(member.id) + (seq!['"'] + (label + digits + seq!['}'])));
    assert(text == seq!['{'] + t1);
    law_numbers_read_back(member.skill as nat);
    lemma_number_scalar(member.skill as nat, seq!['}']);
    lemma_member("skill"@, v2, digits.len() as int, seq!['}']);
    assert(seq!['}'].skip(1) =~= seq![]);
    assert(skip_ascii_space(seq!['}'].skip(1)).len() == 0);
    assert(members(t2) == Some(seq![f2]));
    lemma_string_scalar(member.id, seq![','] + t2);
    lemma_more_members("player_id"@, v1, escaped(member.id).len() as int + 2, t2, seq![f2]);
    let all = seq![f1] + seq![f2];
    lemma_object(text, "player_id"@, v1, all);
    assert(all.skip(1) =~= seq![f2]);
    assert(first_for(all, "player_id"@) == Some(v1));
    assert(first_for(seq![f2], "skill"@) == Some(v2));
    lemma_reads_string(text, "player_id"@, member.id, seq![','] + t2);
}

proof fn lemma_member_parts()
    ensures
        "{\"player_id\":\""@ == seq!['{'] + seq!['"'] + "player_id"@ + seq!['"', ':', '"'],
        "\",\"skill\":"@ == seq!['"'] + (seq![','] + seq!['"'] + "skill"@ + seq!['"', ':']),
        "}"@ == seq!['}'],
        plain("player_id"@) && "player_id"@.len() == 9,
        plain("skill"@) && "skill"@.len() == 5,
{
    reveal_strlit("{\"player_id\":\"");
    reveal_strlit("\",\"skill\":");
    reveal_strlit("}");
    reveal_strlit("player_id");
    reveal_strlit("skill");
    assert("{\"player_id\":\""@ =~= seq!['{'] + seq!['"'] + "player_id"@ + seq!['"', ':', '"']);
    assert("\",\"skill\":"@ =~= seq!['"'] + (seq![','] + seq!['"'] + "skill"@ + seq!['"', ':']));
    assert("}"@ =~= seq!['}']);
}

/// The value of the first of some fields, with the others after it.
pub open spec fn values_from(fields: Seq<(Seq<char>, Seq<char>)>) -> Seq<char>
    decreases fields.len(),
{
    fields[0].1 + if fields.len() <= 1 {
        seq!['}']
    } else {
        seq![','] + field_text(fields[1].0, values_from(fields.skip(1)))
    }
}

/// An object with these keys and values, in this order.
pub open spec fn object_text(fields: Seq<(Seq<char>, Seq<char>)>) -> Seq<char> {
    seq!['{'] + field_text(fields[0].0, values_from(fields))
}

proof fn lemma_match_parts()
    ensures
        "{\"match_id\":"@ == seq!['{'] + seq!['"'] + "match_id"@ + seq!['"', ':'],
        ",\"created_epoch_ms\":"@ == seq![','] + seq!['"'] + "created_epoch_ms"@ + seq!['"', ':'],
        ",\"skill_diff\":"@ == seq![','] + seq!['"'] + "skill_diff"@ + seq!['"', ':'],
        ",\"skill_spread\":"@ == seq![','] + seq!['"'] + "skill_spread"@ + seq!['"', ':'],
        ",\"average_wait_ms\":"@ == seq![','] + seq!['"'] + "average_wait_ms"@ + seq!['"', ':'],
        ",\"team_a\":"@ == seq![','] + seq!['"'] + "team_a"@ + seq!['"', ':'],
        ",\"team_b\":"@ == seq![','] + seq!['"'] + "team_b"@ + seq!['"', ':'],
        "}"@ == seq!['}'],
{
    reveal_strlit("match_id");
    reveal_strlit("created_epoch_ms");
    reveal_strlit("skill_diff");
    reveal_strlit("skill_spread");
    reveal_strlit("average_wait_ms");
    reveal_strlit("team_a");
    reveal_strlit("team_b");
    reveal_strlit("{\"match_id\":");
    reveal_strlit(",\"created_epoch_ms\":");
    reveal_strlit(",\"skill_diff\":");
    reveal_strlit(",\"skill_spread\":");
    reveal_strlit(",\"average_wait_ms\":");
    reveal_strlit(",\"team_a\":");
    reveal_strlit(",\"team_b\":");
    reveal_strlit("}");
    assert("{\"match_id\":"@ =~= seq!['{'] + seq!['"'] + "match_id"@ + seq!['"', ':']);
    assert(",\"created_epoch_ms\":"@ =~= seq![','] + seq!['"'] + "created_epoch_ms"@ + seq!['"', ':']);
    assert(",\"skill_diff\":"@ =~= seq![','] + seq!['"'] + "skill_diff"@ + seq!['"', ':']);
    assert(",\"skill_spread\":"@ =~= seq![','] + seq!['"'] + "skill_spread"@ + seq!['"', ':']);
    assert(",\"average_wait_ms\":"@ =~= seq![','] + seq!['"'] + "average_wait_ms"@ + seq!['"', ':']);
    assert(",\"team_a\":"@ =~= seq![','] + seq!['"'] + "team_a"@ + seq!['"', ':']);
    assert(",\"team_b\":"@ =~= seq![','] + seq!['"'] + "team_b"@ + seq!['"', ':']);
    assert("}"@ =~= seq!['}']);
}

/// A match is written as an object: its number, its time, its difference, its
/// spread, its average wait and its two teams, each by its key.
pub proof fn law_matches_in_json(record: MatchView)
    ensures
        match_text(record) == object_text(
            seq![
                ("match_id"@, decimal(record.id as nat)),
                ("created_epoch_ms"@, decimal(record.created_epoch_ms as nat)),
                ("skill_diff"@, decimal(record.skill_diff as nat)),
                ("skill_spread"@, decimal(record.skill_spread as nat)),
                ("average_wait_ms"@, decimal(record.average_wait_ms as nat)),
                ("team_a"@, team_text(record.team_a)),
                ("team_b"@, team_text(record.team_b)),
            ],
        ),
{
    let all = seq![
        ("match_id"@, decimal(record.id as nat)),
        ("created_epoch_ms"@, decimal(record.created_epoch_ms as nat)),
        ("skill_diff"@, decimal(record.skill_diff as nat)),
        ("skill_spread"@, decimal(record.skill_spread as nat)),
        ("average_wait_ms"@, decimal(record.average_wait_ms as nat)),
        ("team_a"@, team_text(record.team_a)),
        ("team_b"@, team_text(record.team_b)),
    ];
    lemma_match_parts();
    let d0 = all[0].1;
    let d1 = all[1].1;
    let d2 = all[2].1;
    let d3 = all[3].1;
    let d4 = all[4].1;
    let d5 = all[5].1;
    let d6 = all[6].1;
    let l0 = "{\"match_id\":"@;
    let l1 = ",\"created_epoch_ms\":"@;
    let l2 = ",\"skill_diff\":"@;
    let l3 = ",\"skill_spread\":"@;
    let l4 = ",\"average_wait_ms\":"@;
    let l5 = ",\"team_a\":"@;
    let l6 = ",\"team_b\":"@;
    let p0 = l0 + d0;
    let p1 = p0 + l1 + d1;
    let p2 = p1 + l2 + d2;
    let p3 = p2 + l3 + d3;
    let p4 = p3 + l4 + d4;
    let p5 = p4 + l5 + d5;
    let p6 = p5 + l6 + d6;
    let s0 = all.skip(0);
    let s1 = all.skip(1);
    let s2 = all.skip(2);
    let s3 = all.skip(3);
    let s4 = all.skip(4);
    let s5 = all.skip(5);
    let s6 = all.skip(6);
    assert(s0 =~= all);
    assert(s0.skip(1) =~= s1);
    assert(s1.skip(1) =~= s2);
    assert(s2.skip(1) =~= s3);
    assert(s3.skip(1) =~= s4);
    assert(s4.skip(1) =~= s5);
    assert(s5.skip(1) =~= s6);
    let r6 = seq!['}'];
    assert(values_from(s6) == d6 + r6);
    lemma_put_off(p5, l6, d6, r6);
    lemma_number_field(seq![','], all[6].0, d6, r6);
    let r5 = seq![','] + field_text(all[6].0, values_from(s6));
    assert(p6 + r6 == p5 + r5);
    assert(values_from(s5) == d5 + r5);
    lemma_put_off(p4, l5, d5, r5);
    lemma_number_field(seq![','], all[5].0, d5, r5);
    let r4 = seq![','] + field_text(all[5].0, values_from(s5));
    assert(p5 + r5 == p4 + r4);
    assert(values_from(s4) == d4 + r4);
    lemma_put_off(p3, l4, d4, r4);
    lemma_number_field(seq![','], all[4].0, d4, r4);
    let r3 = seq![','] + field_text(all[4].0, values_from(s4));
    assert(p4 + r4 == p3 + r3);
    assert(values_from(s3) == d3 + r3);
    lemma_put_off(p2, l3, d3, r3);
    lemma_number_field(seq![','], all[3].0, d3, r3);
    let r2 = seq![','] + field_text(all[3].0, values_from(s3));
    assert(p3 + r3 == p2 + r2);
    assert(values_from(s2) == d2 + r2);
    lemma_put_off(p1, l2, d2, r2);
    lemma_number_field(seq![','], all[2].0, d2, r2);
    let r1 = seq![','] + field_text(all[2].0, values_from(s2));
    assert(p2 + r2 == p1 + r1);
    assert(values_from(s1) == d1 + r1);
    lemma_put_off(p0, l1, d1, r1);
    lemma_number_field(seq![','], all[1].0, d1, r1);
    let r0 = seq![','] + field_text(all[1].0, values_from(s1));
    assert(p1 + r1 == p0 + r0);
    assert(values_from(s0) == d0 + r0);
    lemma_number_field(seq!['{'], all[0].0, d0, r0);
    assert(match_text(record) == p6 + "}"@);
}

} // verus!
