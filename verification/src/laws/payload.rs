//! Requests to join the queue: what a client writes is what is read.
use crate::json::{escaped, escaped_char, number_value, requested, string_value, value_of};
use crate::laws::text::{law_numbers_read_back, law_strings_read_back, lemma_escaped_first};
use crate::object::{
    exponent_len, first_for, first_member, fraction_len, is_ascii_space, leading_digits, members,
    number_len, object_fields, scalar_len, skip_ascii_space, string_len, Field,
};
use crate::player::RequestView;
use crate::text::{decimal, digit, is_digit};
use vstd::prelude::*;

verus! {

/// A request to join the queue as a client writes it.
pub open spec fn payload(id: Seq<char>, skill: u32, region: Seq<char>, mode: Seq<char>) -> Seq<
    char,
> {
    "{\"player_id\":\""@ + escaped(id) + "\",\"skill\":"@ + decimal(skill as nat)
        + ",\"region\":\""@ + escaped(region) + "\",\"mode\":\""@ + escaped(mode) + "\"}"@
}

/// A key without characters that JSON escapes.
pub open spec fn plain(key: Seq<char>) -> bool {
    forall|i: int| 0 <= i < key.len() ==> #[trigger] key[i] != '"' && key[i] != '\\'
}

/// A string as it is written, with what follows it.
pub open spec fn string_text(text: Seq<char>, rest: Seq<char>) -> Seq<char> {
    seq!['"'] + (escaped(text) + seq!['"'] + rest)
}

/// A field as it is written.
pub open spec fn field_text(key: Seq<char>, value: Seq<char>) -> Seq<char> {
    seq!['"'] + (key + seq!['"'] + (seq![':'] + value))
}

pub(crate) proof fn lemma_plain_len(key: Seq<char>, rest: Seq<char>)
    requires
        plain(key),
    ensures
        string_len(key + seq!['"'] + rest) == Some(key.len() as int + 1),
    decreases key.len(),
{
    let text = key + seq!['"'] + rest;
    if key.len() == 0 {
        assert(text[0] == '"');
    } else {
        let shorter = key.skip(1);
        assert forall|i: int| 0 <= i < shorter.len() implies #[trigger] shorter[i] != '"'
            && shorter[i] != '\\' by {
            assert(shorter[i] == key[i + 1]);
        }
        assert(text[0] == key[0]);
        assert(text.skip(1) =~= shorter + seq!['"'] + rest);
        lemma_plain_len(shorter, rest);
    }
}

proof fn lemma_escaped_len(text: Seq<char>, rest: Seq<char>)
    ensures
        string_len(escaped(text) + seq!['"'] + rest) == Some(escaped(text).len() as int + 1),
    decreases text.len(),
{
    let written = escaped(text) + seq!['"'] + rest;
    if text.len() == 0 {
        assert(written[0] == '"');
    } else {
        lemma_escaped_first(text);
        let c = text[0];
        let left = escaped(text.skip(1)) + seq!['"'] + rest;
        lemma_escaped_len(text.skip(1), rest);
        assert(written =~= escaped_char(c) + left);
        if escaped_char(c).len() == 2 {
            assert(written[0] == '\\');
            assert(written.skip(2) =~= left);
        } else {
            assert(written[0] == c);
            assert(written.skip(1) =~= left);
        }
    }
}

/// The field with which a text starts, if its value takes `len` characters and
/// no white space stands around it.
pub(crate) proof fn lemma_member(key: Seq<char>, value: Seq<char>, len: int, rest: Seq<char>)
    requires
        plain(key),
        value.len() > 0,
        !is_ascii_space(value[0]),
        scalar_len(value) == len,
        0 < len <= value.len(),
        value.skip(len) == rest,
        rest.len() > 0,
        !is_ascii_space(rest[0]),
    ensures
        first_member(field_text(key, value)) == Some((Field { key, value }, rest)),
{
    let text = field_text(key, value);
    let after_key = seq![':'] + value;
    assert(text[0] == '"');
    assert(text.skip(1) =~= key + seq!['"'] + after_key);
    lemma_plain_len(key, after_key);
    assert(text.skip(2 + key.len() as int) =~= after_key);
    assert(after_key[0] == ':');
    assert(skip_ascii_space(after_key) == after_key);
    assert(after_key.skip(1) =~= value);
    assert(skip_ascii_space(value) == value);
    assert(skip_ascii_space(rest) == rest);
    assert(text.subrange(1, 1 + key.len() as int) =~= key);
}

pub(crate) proof fn lemma_string_scalar(text: Seq<char>, rest: Seq<char>)
    ensures
        scalar_len(string_text(text, rest)) == escaped(text).len() + 2,
        string_text(text, rest).skip(escaped(text).len() as int + 2) == rest,
{
    let value = string_text(text, rest);
    assert(value[0] == '"');
    assert(value.skip(1) =~= escaped(text) + seq!['"'] + rest);
    lemma_escaped_len(text, rest);
    assert(value.skip(escaped(text).len() as int + 2) =~= rest);
}

pub(crate) proof fn lemma_digits_end(text: Seq<char>, n: int)
    requires
        0 <= n < text.len(),
        forall|i: int| 0 <= i < n ==> is_digit(#[trigger] text[i]),
        !is_digit(text[n]),
    ensures
        leading_digits(text) == n,
    decreases n,
{
    if n > 0 {
        assert(is_digit(text[0]));
        let tail = text.skip(1);
        assert forall|i: int| 0 <= i < n - 1 implies is_digit(#[trigger] tail[i]) by {
            assert(tail[i] == text[i + 1]);
        }
        lemma_digits_end(tail, n - 1);
    }
}

pub(crate) proof fn lemma_no_leading_zero(n: nat)
    requires
        n > 0,
    ensures
        decimal(n)[0] != '0',
    decreases n,
{
    if n < 10 {
        assert(digit(n) != '0');
    } else {
        lemma_no_leading_zero(n / 10);
        law_numbers_read_back(n / 10);
        assert(decimal(n)[0] == decimal(n / 10)[0]);
    }
}

pub(crate) proof fn lemma_number_scalar(n: nat, rest: Seq<char>)
    requires
        rest.len() > 0,
        rest[0] == ',' || rest[0] == '}',
    ensures
        leading_digits(decimal(n) + rest) == decimal(n).len(),
        scalar_len(decimal(n) + rest) == decimal(n).len(),
        (decimal(n) + rest).skip(decimal(n).len() as int) == rest,
        (decimal(n) + rest).take(decimal(n).len() as int) == decimal(n),
        is_digit((decimal(n) + rest)[0]),
{
    let digits = decimal(n);
    let value = digits + rest;
    let len = digits.len() as int;
    law_numbers_read_back(n);
    assert forall|i: int| 0 <= i < len implies is_digit(#[trigger] value[i]) by {
        assert(value[i] == digits[i]);
    }
    assert(value[len] == rest[0]);
    lemma_digits_end(value, len);
    assert(value.skip(0) =~= value);
    assert(value.skip(len) =~= rest);
    assert(value.take(len) =~= digits);
    assert(is_digit(value[0]));
    if n > 0 {
        lemma_no_leading_zero(n);
    }
    assert(fraction_len(rest) == 0 && exponent_len(rest) == 0);
    assert(number_len(value) == len);
}

/// The keys of a request.
proof fn lemma_keys()
    ensures
        plain("player_id"@),
        plain("skill"@),
        plain("region"@),
        plain("mode"@),
        "player_id"@.len() == 9,
        "skill"@.len() == 5,
        "region"@.len() == 6,
        "mode"@.len() == 4,
{
    reveal_strlit("player_id");
    reveal_strlit("skill");
    reveal_strlit("region");
    reveal_strlit("mode");
}

/// The last field of an object.
pub(crate) proof fn lemma_last_member(key: Seq<char>, text: Seq<char>)
    requires
        plain(key),
    ensures
        members(field_text(key, string_text(text, seq!['}']))) == Some(
            seq![Field { key, value: string_text(text, seq!['}']) }],
        ),
{
    let end = seq!['}'];
    lemma_string_scalar(text, end);
    lemma_member(key, string_text(text, end), escaped(text).len() as int + 2, end);
    assert(end.skip(1) =~= seq![]);
    assert(skip_ascii_space(end.skip(1)).len() == 0);
}

/// A field with others after it.
pub(crate) proof fn lemma_more_members(
    key: Seq<char>,
    value: Seq<char>,
    len: int,
    next: Seq<char>,
    others: Seq<Field>,
)
    requires
        plain(key),
        value.len() > 0,
        !is_ascii_space(value[0]),
        scalar_len(value) == len,
        0 < len <= value.len(),
        value.skip(len) == seq![','] + next,
        next.len() > 0,
        next[0] == '"',
        members(next) == Some(others),
    ensures
        members(field_text(key, value)) == Some(seq![Field { key, value }] + others),
{
    let rest = seq![','] + next;
    lemma_member(key, value, len, rest);
    assert(rest.skip(1) =~= next);
    assert(skip_ascii_space(next) == next);
}

/// The value of the mode and what follows it.
spec fn mode_value(mode: Seq<char>) -> Seq<char> {
    string_text(mode, seq!['}'])
}

/// The value of the region and what follows it.
spec fn region_value(region: Seq<char>, mode: Seq<char>) -> Seq<char> {
    string_text(region, seq![','] + field_text("mode"@, mode_value(mode)))
}

/// The value of the rating and what follows it.
spec fn skill_value(skill: u32, region: Seq<char>, mode: Seq<char>) -> Seq<char> {
    decimal(skill as nat) + (seq![','] + field_text("region"@, region_value(region, mode)))
}

/// The value of the name and what follows it.
spec fn name_value(id: Seq<char>, skill: u32, region: Seq<char>, mode: Seq<char>) -> Seq<char> {
    string_text(id, seq![','] + field_text("skill"@, skill_value(skill, region, mode)))
}

/// The fixed parts of a payload.
proof fn lemma_fixed_parts()
    ensures
        "{\"player_id\":\""@ == seq!['{'] + seq!['"'] + "player_id"@ + seq!['"', ':', '"'],
        "\",\"skill\":"@ == seq!['"', ','] + seq!['"'] + "skill"@ + seq!['"', ':'],
        ",\"region\":\""@ == seq![','] + seq!['"'] + "region"@ + seq!['"', ':', '"'],
        "\",\"mode\":\""@ == seq!['"', ','] + seq!['"'] + "mode"@ + seq!['"', ':', '"'],
        "\"}"@ == seq!['"'] + seq!['}'],
{
    reveal_strlit("{\"player_id\":\"");
    reveal_strlit("\",\"skill\":");
    reveal_strlit(",\"region\":\"");
    reveal_strlit("\",\"mode\":\"");
    reveal_strlit("\"}");
    reveal_strlit("player_id");
    reveal_strlit("skill");
    reveal_strlit("region");
    reveal_strlit("mode");
    assert("{\"player_id\":\""@ =~= seq!['{'] + seq!['"'] + "player_id"@ + seq!['"', ':', '"']);
    assert("\",\"skill\":"@ =~= seq!['"', ','] + seq!['"'] + "skill"@ + seq!['"', ':']);
    assert(",\"region\":\""@ =~= seq![','] + seq!['"'] + "region"@ + seq!['"', ':', '"']);
    assert("\",\"mode\":\""@ =~= seq!['"', ','] + seq!['"'] + "mode"@ + seq!['"', ':', '"']);
    assert("\"}"@ =~= seq!['"'] + seq!['}']);
}

/// A field with a string as it is written, behind `front`.
pub(crate) proof fn lemma_string_field(front: Seq<char>, key: Seq<char>, text: Seq<char>, rest: Seq<char>)
    ensures
        (front + seq!['"'] + key + seq!['"', ':', '"']) + escaped(text) + (seq!['"'] + rest)
            == front + field_text(key, string_text(text, rest)),
{
    assert((front + seq!['"'] + key + seq!['"', ':', '"']) + escaped(text) + (seq!['"'] + rest)
        =~= front + field_text(key, string_text(text, rest)));
}

/// A field with a number as it is written, behind `front`.
pub(crate) proof fn lemma_number_field(front: Seq<char>, key: Seq<char>, digits: Seq<char>, rest: Seq<char>)
    ensures
        (front + seq!['"'] + key + seq!['"', ':']) + digits + rest == front + field_text(
            key,
            digits + rest,
        ),
{
    assert((front + seq!['"'] + key + seq!['"', ':']) + digits + rest =~= front + field_text(
        key,
        digits + rest,
    ));
}

proof fn lemma_nine_parts(
    a: Seq<char>,
    b: Seq<char>,
    c: Seq<char>,
    d: Seq<char>,
    e: Seq<char>,
    f: Seq<char>,
    g: Seq<char>,
    h: Seq<char>,
    i: Seq<char>,
)
    ensures
        a + b + c + d + e + f + g + h + i == a + b + (c + d + (e + f + (g + h + i))),
{
    let front = a + b;
    let middle = c + d;
    let back = e + f;
    let end = g + h + i;
    assert(front + c + d =~= front + middle);
    assert(front + middle + e + f =~= front + middle + back);
    assert(front + middle + back + g + h + i =~= front + middle + back + end);
    assert(front + middle + back + end =~= front + (middle + (back + end)));
}

proof fn lemma_quote_first(back: Seq<char>)
    ensures
        seq!['"', ','] + back == seq!['"'] + (seq![','] + back),
{
    assert(seq!['"', ','] + back =~= seq!['"'] + (seq![','] + back));
}

proof fn lemma_payload_text(id: Seq<char>, skill: u32, region: Seq<char>, mode: Seq<char>)
    ensures
        payload(id, skill, region, mode) == seq!['{'] + field_text(
            "player_id"@,
            name_value(id, skill, region, mode),
        ),
{
    let digits = decimal(skill as nat);
    let t2 = field_text("skill"@, skill_value(skill, region, mode));
    let t3 = field_text("region"@, region_value(region, mode));
    let t4 = field_text("mode"@, mode_value(mode));
    lemma_fixed_parts();
    lemma_string_field(seq!['"', ','], "mode"@, mode, seq!['}']);
    lemma_quote_first(t4);
    lemma_string_field(seq![','], "region"@, region, seq![','] + t4);
    lemma_number_field(seq!['"', ','], "skill"@, digits, seq![','] + t3);
    lemma_quote_first(t2);
    lemma_string_field(seq!['{'], "player_id"@, id, seq![','] + t2);
    lemma_nine_parts(
        "{\"player_id\":\""@,
        escaped(id),
        "\",\"skill\":"@,
        digits,
        ",\"region\":\""@,
        escaped(region),
        "\",\"mode\":\""@,
        escaped(mode),
        "\"}"@,
    );
}

/// The fields of a payload.
proof fn lemma_payload_fields(id: Seq<char>, skill: u32, region: Seq<char>, mode: Seq<char>)
    ensures
        object_fields(payload(id, skill, region, mode)) == Some(
            seq![
                Field { key: "player_id"@, value: name_value(id, skill, region, mode) },
                Field { key: "skill"@, value: skill_value(skill, region, mode) },
                Field { key: "region"@, value: region_value(region, mode) },
                Field { key: "mode"@, value: mode_value(mode) },
            ],
        ),
{
    let body = payload(id, skill, region, mode);
    let v1 = name_value(id, skill, region, mode);
    let v2 = skill_value(skill, region, mode);
    let v3 = region_value(region, mode);
    let v4 = mode_value(mode);
    let t1 = field_text("player_id"@, v1);
    let t2 = field_text("skill"@, v2);
    let t3 = field_text("region"@, v3);
    let t4 = field_text("mode"@, v4);
    let f1 = Field { key: "player_id"@, value: v1 };
    let f2 = Field { key: "skill"@, value: v2 };
    let f3 = Field { key: "region"@, value: v3 };
    let f4 = Field { key: "mode"@, value: v4 };
    lemma_keys();
    lemma_payload_text(id, skill, region, mode);
    lemma_last_member("mode"@, mode);
    lemma_string_scalar(region, seq![','] + t4);
    lemma_more_members("region"@, v3, escaped(region).len() as int + 2, t4, seq![f4]);
    law_numbers_read_back(skill as nat);
    lemma_number_scalar(skill as nat, seq![','] + t3);
    let o2 = seq![f3] + seq![f4];
    lemma_more_members("skill"@, v2, decimal(skill as nat).len() as int, t3, o2);
    lemma_string_scalar(id, seq![','] + t2);
    let o1 = seq![f2] + o2;
    lemma_more_members("player_id"@, v1, escaped(id).len() as int + 2, t2, o1);
    assert(body[0] == '{');
    assert(skip_ascii_space(body) == body);
    assert(body.skip(1) =~= t1);
    assert(t1[0] == '"');
    assert(skip_ascii_space(t1) == t1);
    assert(seq![f1] + o1 =~= seq![f1, f2, f3, f4]);
}

/// A string that stands in a field is read.
pub(crate) proof fn lemma_reads_string(body: Seq<char>, key: Seq<char>, text: Seq<char>, rest: Seq<char>)
    requires
        value_of(body, key) == Some(string_text(text, rest)),
    ensures
        string_value(body, key) == Some(text),
{
    assert(string_text(text, rest).skip(1) =~= escaped(text) + seq!['"'] + rest);
    law_strings_read_back(text, rest);
}

/// A request to join the queue is read as it was written, whatever its texts
/// hold.
pub proof fn law_requests_read_back(
    id: Seq<char>,
    skill: u32,
    region: Seq<char>,
    mode: Seq<char>,
)
    ensures
        requested(payload(id, skill, region, mode)) == Some(
            RequestView { player_id: id, skill, region, mode },
        ),
{
    let body = payload(id, skill, region, mode);
    let f1 = Field { key: "player_id"@, value: name_value(id, skill, region, mode) };
    let f2 = Field { key: "skill"@, value: skill_value(skill, region, mode) };
    let f3 = Field { key: "region"@, value: region_value(region, mode) };
    let f4 = Field { key: "mode"@, value: mode_value(mode) };
    lemma_keys();
    lemma_payload_fields(id, skill, region, mode);
    let fields = seq![f1, f2, f3, f4];
    let from_two = seq![f2, f3, f4];
    let from_three = seq![f3, f4];
    let from_four = seq![f4];
    assert(fields.skip(1) =~= from_two);
    assert(from_two.skip(1) =~= from_three);
    assert(from_three.skip(1) =~= from_four);
    assert(first_for(fields, "player_id"@) == Some(f1.value));
    assert(first_for(from_two, "skill"@) == Some(f2.value));
    assert(first_for(from_three, "region"@) == Some(f3.value));
    assert(first_for(from_two, "region"@) == Some(f3.value));
    assert(first_for(from_four, "mode"@) == Some(f4.value));
    assert(first_for(from_three, "mode"@) == Some(f4.value));
    assert(first_for(from_two, "mode"@) == Some(f4.value));
    lemma_reads_string(
        body,
        "player_id"@,
        id,
        seq![','] + field_text("skill"@, skill_value(skill, region, mode)),
    );
    lemma_reads_string(
        body,
        "region"@,
        region,
        seq![','] + field_text("mode"@, mode_value(mode)),
    );
    lemma_reads_string(body, "mode"@, mode, seq!['}']);
    law_numbers_read_back(skill as nat);
    lemma_number_scalar(
        skill as nat,
        seq![','] + field_text("region"@, region_value(region, mode)),
    );
}

/// A request that leaves out one of the four fields is none.
pub proof fn law_all_fields_are_required(body: Seq<char>)
    ensures
        requested(body) is Some <==> string_value(body, "player_id"@) is Some && number_value(
            body,
            "skill"@,
        ) is Some && string_value(body, "region"@) is Some && string_value(body, "mode"@) is Some,
{
}

} // verus!
