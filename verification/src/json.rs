//! The JSON text that the service reads and writes.
use crate::object::{
    count_digits, first_for, is_ascii_space, leading_digits, look_up, object_fields,
    skip_ascii_space, skip_spaces, Lookup,
};
use crate::player::{MatchRecord, MatchView, MemberView, PlayerRequest, RequestView, TeamMember};
use crate::pool::MatchmakerView;
use crate::selection::first_of;
use crate::text::{
    after, chars_of, cut, decimal, find_from, is_number, number, push_decimal, read_number,
    same_chars,
};
use vstd::prelude::*;
use vstd::slice::slice_subrange;

verus! {

/// A key in its quotation marks.
pub open spec fn quoted(key: Seq<char>) -> Seq<char> {
    seq!['"'] + key + seq!['"']
}

/// What stands after the first quoted `key` in a text and the next colon. White
/// space before the value is left out.
pub open spec fn loose_value(body: Seq<char>, key: Seq<char>) -> Option<Seq<char>> {
    match find_from(body, quoted(key), 0) {
        None => None,
        Some(at) => match after(body.skip(at), ':') {
            Some(rest) => Some(skip_ascii_space(rest)),
            None => None,
        },
    }
}

/// The text from the value of `key` on. In an object it is the value of the first
/// field of that name. Any other text is only searched for the quoted key and
/// the next colon.
pub open spec fn value_of(body: Seq<char>, key: Seq<char>) -> Option<Seq<char>> {
    match object_fields(body) {
        Some(fields) => first_for(fields, key),
        None => loose_value(body, key),
    }
}

/// Where `part` first stands in `whole`.
fn find_text(whole: &[char], part: &[char]) -> (at: Option<usize>)
    ensures
        match at {
            Some(i) => find_from(whole@, part@, 0) == Some(i as int) && i + part@.len()
                <= whole@.len(),
            None => find_from(whole@, part@, 0) is None,
        },
{
    let mut at: usize = 0;
    while part.len() <= whole.len() - at
        invariant
            at <= whole.len(),
            find_from(whole@, part@, 0) == find_from(whole@, part@, at as int),
        decreases whole.len() - at,
    {
        if same_chars(slice_subrange(whole, at, at + part.len()), part) {
            return Some(at);
        }
        assert(at < whole.len()) by {
            if at == whole.len() {
                assert(whole@.subrange(at as int, at + part@.len()) =~= part@);
            }
        }
        at += 1;
    }
    None
}

/// Where the value of `key` starts in `body`.
fn find_value<'a>(body: &'a [char], key: &str) -> (value: Option<&'a [char]>)
    ensures
        match value {
            Some(rest) => value_of(body@, key@) == Some(rest@),
            None => value_of(body@, key@) is None,
        },
{
    let mut chars = chars_of(key);
    match look_up(body, chars.as_slice()) {
        Lookup::Found(value) => Some(value),
        Lookup::Missing => None,
        Lookup::NoObject => {
            let mut name: Vec<char> = Vec::new();
            name.push('"');
            name.append(&mut chars);
            name.push('"');
            assert(name@ =~= quoted(key@));
            match find_text(body, name.as_slice()) {
                None => None,
                Some(at) => {
                    let rest = slice_subrange(body, at, body.len());
                    assert(rest@ =~= body@.skip(at as int));
                    match cut(rest, ':').1 {
                        Some(value) => Some(skip_spaces(value)),
                        None => None,
                    }
                },
            }
        },
    }
}

/// The character that a backslash and `c` stand for.
pub open spec fn escape_meaning(c: char) -> char {
    if c == 'n' {
        '\n'
    } else if c == 'r' {
        '\r'
    } else if c == 't' {
        '\t'
    } else {
        c
    }
}

/// `first` in front of a text, if there is one.
pub open spec fn led_by(first: char, rest: Option<Seq<char>>) -> Option<Seq<char>> {
    match rest {
        None => None,
        Some(text) => Some(seq![first] + text),
    }
}

/// The text up to the next quotation mark, with its escapes resolved; none if
/// it does not end.
pub open spec fn quoted_text(text: Seq<char>) -> Option<Seq<char>>
    decreases text.len(),
{
    if text.len() == 0 {
        None
    } else if text[0] == '"' {
        Some(seq![])
    } else if text[0] == '\\' {
        if text.len() == 1 {
            None
        } else {
            led_by(escape_meaning(text[1]), quoted_text(text.skip(2)))
        }
    } else {
        led_by(text[0], quoted_text(text.skip(1)))
    }
}

/// The string that `body` gives for `key`.
pub open spec fn string_value(body: Seq<char>, key: Seq<char>) -> Option<Seq<char>> {
    match value_of(body, key) {
        None => None,
        Some(value) => if value.len() > 0 && value[0] == '"' {
            quoted_text(value.skip(1))
        } else {
            None
        },
    }
}

/// `head` in front of a text, if there is one.
spec fn preceded(head: Seq<char>, rest: Option<Seq<char>>) -> Option<Seq<char>> {
    match rest {
        None => None,
        Some(text) => Some(head + text),
    }
}

/// The string that `body` gives for `key`.
pub fn json_string(body: &str, key: &str) -> (value: Option<String>)
    ensures
        match value {
            Some(text) => string_value(body@, key@) == Some(text@),
            None => string_value(body@, key@) is None,
        },
{
    let chars = chars_of(body);
    let rest: &[char] = match find_value(chars.as_slice(), key) {
        Some(rest) => rest,
        None => {
            return None;
        },
    };
    if rest.len() == 0 || rest[0] != '"' {
        return None;
    }
    let ghost start = rest@.skip(1);
    let mut output = String::new();
    let mut i: usize = 1;
    assert(quoted_text(start) == preceded(output@, quoted_text(start))) by {
        if let Some(text) = quoted_text(start) {
            assert(output@ + text =~= text);
        }
    }
    while i < rest.len()
        invariant
            1 <= i <= rest.len(),
            string_value(body@, key@) == quoted_text(start),
            quoted_text(start) == preceded(output@, quoted_text(rest@.skip(i as int))),
        decreases rest.len() - i,
    {
        let ghost left = rest@.skip(i as int);
        let c: char = rest[i];
        assert(left[0] == c);
        if c == '"' {
            assert(output@ + Seq::<char>::empty() =~= output@);
            return Some(output);
        }
        let ghost shown = output@;
        if c == '\\' {
            if i + 1 >= rest.len() {
                return None;
            }
            let d: char = rest[i + 1];
            assert(left[1] == d);
            let meant: char = if d == 'n' {
                '\n'
            } else if d == 'r' {
                '\r'
            } else if d == 't' {
                '\t'
            } else {
                d
            };
            output.push(meant);
            assert(left.skip(2) =~= rest@.skip(i + 2));
            i += 2;
        } else {
            output.push(c);
            assert(left.skip(1) =~= rest@.skip(i + 1));
            i += 1;
        }
        assert(quoted_text(start) == preceded(output@, quoted_text(rest@.skip(i as int)))) by {
            if let Some(text) = quoted_text(rest@.skip(i as int)) {
                assert(output@ =~= shown.push(output@.last()));
                assert(shown + (seq![output@.last()] + text) =~= output@ + text);
            }
        }
    }
    assert(rest@.skip(i as int).len() == 0);
    None
}

/// Whether a value ends where `rest` starts: at the end of the text, at white
/// space, or at a sign that ends a field, an object or an array.
pub open spec fn ends_value(rest: Seq<char>) -> bool {
    rest.len() == 0 || is_ascii_space(rest[0]) || rest[0] == ',' || rest[0] == '}' || rest[0] == ']'
}

/// The number that `body` gives for `key`: an integer without a sign that fits
/// into 32 bits. The digits are the whole value.
pub open spec fn number_value(body: Seq<char>, key: Seq<char>) -> Option<u32> {
    match value_of(body, key) {
        None => None,
        Some(value) => {
            let digits = value.take(leading_digits(value));
            let rest = value.skip(leading_digits(value));
            if is_number(digits) && number(digits) <= u32::MAX && ends_value(rest) {
                Some(number(digits) as u32)
            } else {
                None
            }
        },
    }
}

/// The number that `body` gives for `key`, if it is an integer that fits into
/// 32 bits.
pub fn json_u32(body: &str, key: &str) -> (value: Option<u32>)
    ensures
        value == number_value(body@, key@),
{
    let chars = chars_of(body);
    let rest: &[char] = match find_value(chars.as_slice(), key) {
        Some(rest) => rest,
        None => {
            return None;
        },
    };
    let end: usize = count_digits(rest);
    if end < rest.len() && !(rest[end] == ' ' || rest[end] == '\t' || rest[end] == '\n' || rest[end]
        == '\u{c}' || rest[end] == '\r' || rest[end] == ',' || rest[end] == '}' || rest[end] == ']') {
        return None;
    }
    let digits = slice_subrange(rest, 0, end);
    assert(digits@ =~= rest@.take(leading_digits(rest@)));
    match read_number(digits, u32::MAX as u64) {
        Some(value) => Some(value as u32),
        None => None,
    }
}

/// The request to join the queue that `body` makes. All four fields are
/// required: the name, the rating, the region and the mode.
pub open spec fn requested(body: Seq<char>) -> Option<RequestView> {
    match (
        string_value(body, "player_id"@),
        number_value(body, "skill"@),
        string_value(body, "region"@),
        string_value(body, "mode"@),
    ) {
        (Some(player_id), Some(skill), Some(region), Some(mode)) => Some(
            RequestView { player_id, skill, region, mode },
        ),
        _ => None,
    }
}

/// The request to join the queue that `body` makes, if it gives all four fields.
pub fn parse_player_request(body: &str) -> (request: Option<PlayerRequest>)
    ensures
        match request {
            Some(request) => requested(body@) == Some(request@),
            None => requested(body@) is None,
        },
{
    match (
        json_string(body, "player_id"),
        json_u32(body, "skill"),
        json_string(body, "region"),
        json_string(body, "mode"),
    ) {
        (Some(player_id), Some(skill), Some(region), Some(mode)) => Some(
            PlayerRequest { player_id, skill, region, mode },
        ),
        _ => None,
    }
}

/// How a character is written inside a JSON string.
pub open spec fn escaped_char(c: char) -> Seq<char> {
    if c == '"' {
        seq!['\\', '"']
    } else if c == '\\' {
        seq!['\\', '\\']
    } else if c == '\n' {
        seq!['\\', 'n']
    } else if c == '\r' {
        seq!['\\', 'r']
    } else if c == '\t' {
        seq!['\\', 't']
    } else {
        seq![c]
    }
}

/// How a text is written inside a JSON string.
pub open spec fn escaped(text: Seq<char>) -> Seq<char>
    decreases text.len(),
{
    if text.len() == 0 {
        seq![]
    } else {
        escaped(text.drop_last()) + escaped_char(text.last())
    }
}

/// How a text is written inside a JSON string.
pub fn json_escape(value: &str) -> (text: String)
    ensures
        text@ == escaped(value@),
{
    let chars = chars_of(value);
    let mut output = String::new();
    for i in 0..chars.len()
        invariant
            output@ == escaped(chars@.take(i as int)),
    {
        let ghost shown = output@;
        let c: char = chars[i];
        if c == '"' {
            output.push('\\');
            output.push('"');
        } else if c == '\\' {
            output.push('\\');
            output.push('\\');
        } else if c == '\n' {
            output.push('\\');
            output.push('n');
        } else if c == '\r' {
            output.push('\\');
            output.push('r');
        } else if c == '\t' {
            output.push('\\');
            output.push('t');
        } else {
            output.push(c);
        }
        assert(output@ =~= shown + escaped_char(c));
        assert(chars@.take(i + 1).drop_last() =~= chars@.take(i as int));
    }
    assert(chars@.take(chars@.len() as int) =~= chars@);
    output
}

/// `texts` one after another, with commas between them.
pub open spec fn listed(texts: Seq<Seq<char>>) -> Seq<char>
    decreases texts.len(),
{
    if texts.len() == 0 {
        seq![]
    } else if texts.len() == 1 {
        texts[0]
    } else {
        listed(texts.drop_last()).push(',') + texts.last()
    }
}

/// A team member in JSON.
pub open spec fn member_text(member: MemberView) -> Seq<char> {
    "{\"player_id\":\""@ + escaped(member.id) + "\",\"skill\":"@ + decimal(member.skill as nat) + "}"@
}

/// A team in JSON.
pub open spec fn team_text(team: Seq<MemberView>) -> Seq<char> {
    "["@ + listed(team.map_values(|m: MemberView| member_text(m))) + "]"@
}

/// A team in JSON.
pub fn team_json(team: &[TeamMember]) -> (text: String)
    ensures
        text@ == team_text(team.deep_view()),
{
    let ghost texts = team.deep_view().map_values(|m: MemberView| member_text(m));
    let mut body = "[".to_string();
    assert("["@ + listed(texts.take(0)) =~= "["@);
    for i in 0..team.len()
        invariant
            texts == team.deep_view().map_values(|m: MemberView| member_text(m)),
            body@ == "["@ + listed(texts.take(i as int)),
    {
        let ghost shown = listed(texts.take(i as int));
        if i > 0 {
            body.push(',');
        }
        body.append("{\"player_id\":\"");
        body.append(json_escape(team[i].id.as_str()).as_str());
        body.append("\",\"skill\":");
        push_decimal(&mut body, team[i].skill as u128);
        body.append("}");
        proof {
            assert(texts[i as int] == member_text(team.deep_view()[i as int]));
            assert(texts.take(i + 1).drop_last() =~= texts.take(i as int));
            if i > 0 {
                assert(body@ =~= "["@ + (shown.push(',') + texts[i as int]));
            } else {
                assert(body@ =~= "["@ + texts[i as int]);
            }
        }
    }
    assert(texts.take(texts.len() as int) =~= texts);
    body.append("]");
    body
}

/// A match in JSON.
pub open spec fn match_text(record: MatchView) -> Seq<char> {
    "{\"match_id\":"@ + decimal(record.id as nat) + ",\"created_epoch_ms\":"@ + decimal(
        record.created_epoch_ms as nat,
    ) + ",\"skill_diff\":"@ + decimal(record.skill_diff as nat) + ",\"skill_spread\":"@ + decimal(
        record.skill_spread as nat,
    ) + ",\"average_wait_ms\":"@ + decimal(record.average_wait_ms as nat) + ",\"team_a\":"@
        + team_text(record.team_a) + ",\"team_b\":"@ + team_text(record.team_b) + "}"@
}

/// A match in JSON.
pub fn match_record_json(record: &MatchRecord) -> (text: String)
    ensures
        text@ == match_text(record@),
{
    let mut text = "{\"match_id\":".to_string();
    push_decimal(&mut text, record.id as u128);
    text.append(",\"created_epoch_ms\":");
    push_decimal(&mut text, record.created_epoch_ms);
    text.append(",\"skill_diff\":");
    push_decimal(&mut text, record.skill_diff as u128);
    text.append(",\"skill_spread\":");
    push_decimal(&mut text, record.skill_spread as u128);
    text.append(",\"average_wait_ms\":");
    push_decimal(&mut text, record.average_wait_ms as u128);
    text.append(",\"team_a\":");
    let team_a = record.team_a.as_slice();
    assert(team_a.deep_view() =~= record.team_a.deep_view());
    text.append(team_json(team_a).as_str());
    text.append(",\"team_b\":");
    let team_b = record.team_b.as_slice();
    assert(team_b.deep_view() =~= record.team_b.deep_view());
    text.append(team_json(team_b).as_str());
    text.append("}");
    text
}

/// What is told of the player named `id`, if there is one.
pub open spec fn state_text(pool: MatchmakerView, id: Seq<char>) -> Option<Seq<char>> {
    if pool.assignments.contains_key(id) {
        let place = pool.assignments[id];
        Some(
            "{\"state\":\"matched\",\"match_id\":"@ + decimal(place.match_id as nat)
                + ",\"team\":\""@ + place.team.name() + "\"}"@,
        )
    } else if pool.waiting_ids.contains(id) {
        Some("{\"state\":\"queued\"}"@)
    } else {
        None
    }
}

/// The newest matches, at most `limit`, in JSON.
pub open spec fn recent_text(pool: MatchmakerView, limit: nat) -> Seq<char> {
    "{\"matches\":["@ + listed(
        first_of(pool.recent_matches, limit as int).map_values(|m: MatchView| match_text(m)),
    ) + "]}"@
}

} // verus!
