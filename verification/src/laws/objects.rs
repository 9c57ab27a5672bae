//! Objects: how their fields are read, with white space and values of any kind.
use crate::json::{escaped, quoted, quoted_text, value_of};
use crate::laws::payload::{
    lemma_digits_end, lemma_plain_len, lemma_string_scalar, plain, string_text,
};
use crate::object::{
    exponent_len, first_for, first_member, fraction_len, is_ascii_space, leading_digits,
    lemma_leading_digits, lemma_skip_shortens, lemma_string_len, members, number_len, object_fields,
    scalar_len, skip_ascii_space, string_len, Field,
};
use crate::text::is_digit;
use vstd::prelude::*;

verus! {

/// White space as it may stand between the parts of an object.
pub open spec fn is_gap(text: Seq<char>) -> bool {
    forall|i: int| 0 <= i < text.len() ==> is_ascii_space(#[trigger] text[i])
}

/// Digits, at least one.
pub open spec fn are_digits(text: Seq<char>) -> bool {
    text.len() > 0 && forall|i: int| 0 <= i < text.len() ==> '0' <= #[trigger] text[i] <= '9'
}

proof fn lemma_gap(gap: Seq<char>, rest: Seq<char>)
    requires
        is_gap(gap),
        rest.len() == 0 || !is_ascii_space(rest[0]),
    ensures
        skip_ascii_space(gap + rest) == rest,
    decreases gap.len(),
{
    let text = gap + rest;
    if gap.len() == 0 {
        assert(text =~= rest);
    } else {
        assert(text[0] == gap[0]);
        assert(is_ascii_space(gap[0]));
        let shorter = gap.skip(1);
        assert forall|i: int| 0 <= i < shorter.len() implies is_ascii_space(
            #[trigger] shorter[i],
        ) by {
            assert(shorter[i] == gap[i + 1]);
        }
        assert(text.skip(1) =~= shorter + rest);
        lemma_gap(shorter, rest);
    }
}

/// White space at the start of a text is passed over, however much there is.
pub proof fn law_gaps_are_skipped(gap: Seq<char>, rest: Seq<char>)
    requires
        is_gap(gap),
        rest.len() == 0 || !is_ascii_space(rest[0]),
    ensures
        skip_ascii_space(gap + rest) == rest,
        skip_ascii_space(gap) == Seq::<char>::empty(),
{
    lemma_gap(gap, rest);
    lemma_gap(gap, Seq::empty());
    assert(gap + Seq::<char>::empty() =~= gap);
}

/// A string as a value goes up to its closing quotation mark. Text is a string
/// exactly if it can be read as one.
pub proof fn law_strings_as_values(text: Seq<char>, rest: Seq<char>)
    ensures
        scalar_len(string_text(text, rest)) == escaped(text).len() + 2,
        string_text(text, rest).skip(escaped(text).len() as int + 2) == rest,
        scalar_len(seq!['"'] + rest) > 0 <==> quoted_text(rest) is Some,
{
    lemma_string_scalar(text, rest);
    lemma_strings_end(rest);
    let value = seq!['"'] + rest;
    assert(value[0] == '"');
    assert(value.skip(1) =~= rest);
}

proof fn lemma_strings_end(text: Seq<char>)
    ensures
        string_len(text) is Some <==> quoted_text(text) is Some,
        string_len(text) matches Some(n) ==> n >= 1,
    decreases text.len(),
{
    if text.len() > 0 && text[0] != '"' {
        if text[0] == '\\' {
            if text.len() > 1 {
                lemma_strings_end(text.skip(2));
            }
        } else {
            lemma_strings_end(text.skip(1));
        }
    }
}

proof fn lemma_digits_then(digits: Seq<char>, rest: Seq<char>)
    requires
        forall|i: int| 0 <= i < digits.len() ==> '0' <= #[trigger] digits[i] <= '9',
        rest.len() > 0,
        !is_digit(rest[0]),
    ensures
        leading_digits(digits + rest) == digits.len(),
        (digits + rest).skip(digits.len() as int) == rest,
{
    let text = digits + rest;
    assert forall|i: int| 0 <= i < digits.len() implies is_digit(#[trigger] text[i]) by {
        assert(text[i] == digits[i]);
    }
    assert(text[digits.len() as int] == rest[0]);
    lemma_digits_end(text, digits.len() as int);
    assert(text.skip(digits.len() as int) =~= rest);
}

/// A fraction: nothing, or a point and digits.
pub open spec fn is_fraction(text: Seq<char>) -> bool {
    text.len() > 0 ==> text[0] == '.' && are_digits(text.skip(1))
}

/// An exponent: nothing, or its letter, perhaps a sign, and digits.
pub open spec fn is_exponent(text: Seq<char>) -> bool {
    text.len() > 0 ==> (text[0] == 'e' || text[0] == 'E') && (are_digits(text.skip(1)) || (
    text.len() > 1 && (text[1] == '+' || text[1] == '-') && are_digits(text.skip(2))))
}

/// What may follow a value: white space, or a sign that ends a field or an object.
pub open spec fn follows_value(rest: Seq<char>) -> bool {
    rest.len() > 0 && (is_ascii_space(rest[0]) || rest[0] == ',' || rest[0] == '}')
}

proof fn lemma_exponent(exponent: Seq<char>, rest: Seq<char>)
    requires
        is_exponent(exponent),
        follows_value(rest),
    ensures
        exponent_len(exponent + rest) == exponent.len(),
{
    let text = exponent + rest;
    if exponent.len() == 0 {
        assert(text =~= rest);
    } else {
        assert(text[0] == exponent[0]);
        if exponent.len() > 1 && (exponent[1] == '+' || exponent[1] == '-') {
            assert(text[1] == exponent[1]);
            assert(exponent.skip(1)[0] == exponent[1]);
            assert(text.skip(2) =~= exponent.skip(2) + rest);
            lemma_digits_then(exponent.skip(2), rest);
        } else {
            assert(exponent.skip(1).len() > 0);
            assert(text[1] == exponent.skip(1)[0]);
            assert('0' <= exponent.skip(1)[0] <= '9');
            assert(text.skip(1) =~= exponent.skip(1) + rest);
            lemma_digits_then(exponent.skip(1), rest);
        }
    }
}

proof fn lemma_fraction(fraction: Seq<char>, rest: Seq<char>)
    requires
        is_fraction(fraction),
        rest.len() > 0,
        !is_digit(rest[0]),
        rest[0] != '.',
    ensures
        fraction_len(fraction + rest) == fraction.len(),
{
    let text = fraction + rest;
    if fraction.len() == 0 {
        assert(text =~= rest);
    } else {
        assert(text[0] == '.');
        assert(text.skip(1) =~= fraction.skip(1) + rest);
        lemma_digits_then(fraction.skip(1), rest);
    }
}

/// A number as a value: perhaps a minus sign, digits without a leading zero, a
/// fraction and an exponent. It is taken as a whole. Digits with a leading zero
/// are no value.
pub proof fn law_numbers_as_values(
    negative: bool,
    digits: Seq<char>,
    fraction: Seq<char>,
    exponent: Seq<char>,
    rest: Seq<char>,
)
    requires
        are_digits(digits),
        is_fraction(fraction),
        is_exponent(exponent),
        follows_value(rest),
    ensures
        ({
            let sign = if negative {
                seq!['-']
            } else {
                Seq::empty()
            };
            let number = sign + digits + fraction + exponent;
            &&& digits.len() == 1 || digits[0] != '0' ==> scalar_len(number + rest) == number.len()
                && (number + rest).skip(number.len() as int) == rest
            &&& digits.len() > 1 && digits[0] == '0' ==> scalar_len(number + rest) == 0
        }),
{
    let sign = if negative {
        seq!['-']
    } else {
        Seq::empty()
    };
    let number = sign + digits + fraction + exponent;
    let text = number + rest;
    let n = sign.len() as int;
    let end = exponent + rest;
    let behind = fraction + end;
    assert('0' <= digits[0] <= '9');
    assert(text[n] == digits[0]);
    assert(negative ==> text[0] == '-');
    assert(text[0] != '"');
    assert(exponent.len() > 0 ==> end[0] == exponent[0]);
    assert(exponent.len() == 0 ==> end =~= rest);
    assert(fraction.len() > 0 ==> behind[0] == fraction[0]);
    assert(fraction.len() == 0 ==> behind =~= end);
    assert(text.skip(n) =~= digits + behind);
    lemma_digits_then(digits, behind);
    if digits.len() == 1 || digits[0] != '0' {
        assert(text.skip(n + digits.len()) =~= behind);
        lemma_fraction(fraction, end);
        assert(text.skip(n + digits.len() + fraction.len()) =~= end);
        lemma_exponent(exponent, rest);
        assert(text.skip(number.len() as int) =~= rest);
        assert(number_len(text) == number.len());
    } else {
        assert(number_len(text) == 0);
        assert(text.len() >= 4 ==> text.take(4)[0] == text[0]);
        assert(text.len() >= 5 ==> text.take(5)[0] == text[0]);
        assert(seq!['t', 'r', 'u', 'e'][0] == 't');
        assert(seq!['f', 'a', 'l', 's', 'e'][0] == 'f');
        assert(seq!['n', 'u', 'l', 'l'][0] == 'n');
    }
}

/// Three words are values. Nothing else that starts with a letter is one, nor
/// anything that starts with a bracket, a brace or another sign.
pub proof fn law_words_as_values(rest: Seq<char>)
    ensures
        scalar_len(seq!['t', 'r', 'u', 'e'] + rest) == 4,
        scalar_len(seq!['f', 'a', 'l', 's', 'e'] + rest) == 5,
        scalar_len(seq!['n', 'u', 'l', 'l'] + rest) == 4,
        rest.len() > 0 && rest[0] != '"' && rest[0] != '-' && !('0' <= rest[0] <= '9') && rest[0]
            != 't' && rest[0] != 'f' && rest[0] != 'n' ==> scalar_len(rest) == 0,
        scalar_len(Seq::empty()) == 0,
{
    let t = seq!['t', 'r', 'u', 'e'] + rest;
    let f = seq!['f', 'a', 'l', 's', 'e'] + rest;
    let n = seq!['n', 'u', 'l', 'l'] + rest;
    assert(t[0] == 't' && f[0] == 'f' && n[0] == 'n');
    assert(t.skip(0) =~= t && f.skip(0) =~= f && n.skip(0) =~= n);
    assert(rest.skip(0) =~= rest);
    assert(t.take(4) =~= seq!['t', 'r', 'u', 'e']);
    assert(f.take(5) =~= seq!['f', 'a', 'l', 's', 'e']);
    assert(f.take(4)[0] == 'f');
    assert(n.take(4) =~= seq!['n', 'u', 'l', 'l']);
    assert(n.take(4)[0] == 'n');
    if n.len() >= 5 {
        assert(n.take(5)[0] == 'n');
    }
    if rest.len() >= 4 {
        assert(rest.take(4)[0] == rest[0]);
    }
    if rest.len() >= 5 {
        assert(rest.take(5)[0] == rest[0]);
    }
    assert(seq!['t', 'r', 'u', 'e'][0] == 't');
    assert(seq!['f', 'a', 'l', 's', 'e'][0] == 'f');
    assert(seq!['n', 'u', 'l', 'l'][0] == 'n');
    assert(Seq::<char>::empty().skip(0) =~= Seq::<char>::empty());
}

/// A field is a key in quotation marks, a colon and a value, with white space
/// between them and behind them.
pub proof fn law_fields_are_read(
    key: Seq<char>,
    gap: Seq<char>,
    space: Seq<char>,
    value: Seq<char>,
    tail: Seq<char>,
    rest: Seq<char>,
)
    requires
        plain(key),
        is_gap(gap),
        is_gap(space),
        is_gap(tail),
        value.len() > 0,
        !is_ascii_space(value[0]),
        0 < scalar_len(value) <= value.len(),
        value.skip(scalar_len(value)) == tail + rest,
        rest.len() > 0,
        !is_ascii_space(rest[0]),
    ensures
        first_member(quoted(key) + gap + seq![':'] + space + value) == Some(
            (Field { key, value }, rest),
        ),
{
    let text = quoted(key) + gap + seq![':'] + space + value;
    let colon = seq![':'] + space + value;
    let after_key = gap + colon;
    assert(text[0] == '"');
    assert(text.skip(1) =~= key + seq!['"'] + after_key);
    lemma_plain_len(key, after_key);
    assert(text.skip(2 + key.len() as int) =~= after_key);
    assert(colon[0] == ':');
    lemma_gap(gap, colon);
    assert(colon.skip(1) =~= space + value);
    lemma_gap(space, value);
    lemma_gap(tail, rest);
    assert(text.subrange(1, 1 + key.len() as int) =~= key);
}

/// A key is followed by a colon, and a colon by a value; otherwise there is no
/// field.
pub proof fn law_what_is_no_field(text: Seq<char>, key: Seq<char>, gap: Seq<char>, rest: Seq<char>)
    requires
        plain(key),
        is_gap(gap),
        rest.len() > 0,
        !is_ascii_space(rest[0]),
    ensures
        text.len() == 0 || text[0] != '"' ==> first_member(text) is None,
        rest[0] != ':' ==> first_member(quoted(key) + gap + rest) is None,
        rest[0] == ':' && scalar_len(skip_ascii_space(rest.skip(1))) == 0 ==> first_member(
            quoted(key) + gap + rest,
        ) is None,
{
    let written = quoted(key) + gap + rest;
    let after_key = gap + rest;
    assert(written[0] == '"');
    assert(written.skip(1) =~= key + seq!['"'] + after_key);
    lemma_plain_len(key, after_key);
    assert(written.skip(2 + key.len() as int) =~= after_key);
    lemma_gap(gap, rest);
}

proof fn lemma_scalar_len(text: Seq<char>)
    ensures
        0 <= scalar_len(text) <= text.len(),
{
    if text.len() > 0 && text[0] == '"' {
        lemma_string_len(text.skip(1));
    } else {
        let sign: int = if text.len() > 0 && text[0] == '-' {
            1
        } else {
            0
        };
        lemma_leading_digits(text.skip(sign));
        let whole = sign + leading_digits(text.skip(sign));
        let rest = text.skip(whole);
        if rest.len() > 0 {
            lemma_leading_digits(rest.skip(1));
        }
        let end = text.skip(whole + fraction_len(rest));
        if end.len() > 0 {
            lemma_leading_digits(end.skip(1));
        }
        if end.len() > 1 {
            lemma_leading_digits(end.skip(2));
        }
    }
}

proof fn lemma_member_shortens(text: Seq<char>)
    ensures
        first_member(text) matches Some((field, rest)) ==> rest.len() < text.len(),
{
    if text.len() > 0 && text[0] == '"' && string_len(text.skip(1)) is Some {
        lemma_string_len(text.skip(1));
        let len = string_len(text.skip(1))->0;
        lemma_skip_shortens(text.skip(len + 1));
        let after_key = skip_ascii_space(text.skip(len + 1));
        if after_key.len() > 0 && after_key[0] == ':' {
            lemma_skip_shortens(after_key.skip(1));
            let value = skip_ascii_space(after_key.skip(1));
            lemma_scalar_len(value);
            lemma_skip_shortens(value.skip(scalar_len(value)));
        }
    }
}

/// Behind a field comes a comma and more fields, or the brace that ends the object
/// and nothing after it. Anything else is no object.
pub proof fn law_fields_follow_each_other(
    text: Seq<char>,
    field: Field,
    gap: Seq<char>,
    next: Seq<char>,
    rest: Seq<char>,
)
    requires
        is_gap(gap),
        next.len() > 0,
        !is_ascii_space(next[0]),
        first_member(text) == Some((field, rest)),
    ensures
        rest == seq![','] + gap + next ==> members(text) == match members(next) {
            Some(fields) => Some(seq![field] + fields),
            None => None,
        },
        rest == seq!['}'] + gap ==> members(text) == Some(seq![field]),
        rest == seq!['}'] + gap + next ==> members(text) is None,
        rest.len() == 0 || (rest[0] != ',' && rest[0] != '}') ==> members(text) is None,
{
    lemma_member_shortens(text);
    if rest == seq![','] + gap + next {
        assert(rest[0] == ',');
        assert(rest.skip(1) =~= gap + next);
        lemma_gap(gap, next);
    }
    if rest == seq!['}'] + gap {
        assert(rest[0] == '}');
        assert(rest.skip(1) =~= gap);
        law_gaps_are_skipped(gap, next);
    }
    if rest == seq!['}'] + gap + next {
        assert(rest[0] == '}');
        assert(rest.skip(1) =~= gap + next);
        lemma_gap(gap, next);
    }
}

/// An object is its fields in braces, with white space around them. It may have no
/// field.
pub proof fn law_objects(
    front: Seq<char>,
    gap: Seq<char>,
    inner: Seq<char>,
    back: Seq<char>,
    other: Seq<char>,
)
    requires
        is_gap(front),
        is_gap(gap),
        is_gap(back),
        inner.len() > 0,
        inner[0] == '"',
        other.len() == 0 || (!is_ascii_space(other[0]) && other[0] != '{'),
    ensures
        object_fields(front + seq!['{'] + gap + inner) == members(inner),
        object_fields(front + seq!['{'] + gap + seq!['}'] + back) == Some(Seq::<Field>::empty()),
        object_fields(front + other) is None,
{
    let text = seq!['{'] + gap + inner;
    assert(front + seq!['{'] + gap + inner =~= front + text);
    assert(text[0] == '{');
    lemma_gap(front, text);
    assert(text.skip(1) =~= gap + inner);
    lemma_gap(gap, inner);
    let end = seq!['}'] + back;
    let none = seq!['{'] + gap + end;
    assert(front + seq!['{'] + gap + seq!['}'] + back =~= front + none);
    assert(none[0] == '{');
    lemma_gap(front, none);
    assert(none.skip(1) =~= gap + end);
    assert(end[0] == '}');
    lemma_gap(gap, end);
    assert(end.skip(1) =~= back);
    law_gaps_are_skipped(back, inner);
    lemma_gap(front, other);
}

/// The first field of a name counts, wherever it stands.
pub proof fn law_the_first_field_counts(body: Seq<char>, fields: Seq<Field>, key: Seq<char>, k: int)
    requires
        object_fields(body) == Some(fields),
        0 <= k < fields.len(),
        fields[k].key == key,
        forall|i: int| 0 <= i < k ==> (#[trigger] fields[i]).key != key,
    ensures
        value_of(body, key) == Some(fields[k].value),
{
    lemma_first_for(fields, key, k);
}

proof fn lemma_first_for(fields: Seq<Field>, key: Seq<char>, k: int)
    requires
        0 <= k < fields.len(),
        fields[k].key == key,
        forall|i: int| 0 <= i < k ==> (#[trigger] fields[i]).key != key,
    ensures
        first_for(fields, key) == Some(fields[k].value),
    decreases k,
{
    if k > 0 {
        let later = fields.skip(1);
        assert(later[k - 1] == fields[k]);
        assert forall|i: int| 0 <= i < k - 1 implies (#[trigger] later[i]).key != key by {
            assert(later[i] == fields[i + 1]);
        }
        assert(fields[0].key != key);
        lemma_first_for(later, key, k - 1);
    }
}

/// An object without a field of a name says nothing of it.
pub proof fn law_missing_fields(body: Seq<char>, fields: Seq<Field>, key: Seq<char>)
    requires
        object_fields(body) == Some(fields),
        forall|i: int| 0 <= i < fields.len() ==> (#[trigger] fields[i]).key != key,
    ensures
        value_of(body, key) is None,
{
    lemma_none_for(fields, key);
}

proof fn lemma_none_for(fields: Seq<Field>, key: Seq<char>)
    requires
        forall|i: int| 0 <= i < fields.len() ==> (#[trigger] fields[i]).key != key,
    ensures
        first_for(fields, key) is None,
    decreases fields.len(),
{
    if fields.len() > 0 {
        let later = fields.skip(1);
        assert forall|i: int| 0 <= i < later.len() implies (#[trigger] later[i]).key != key by {
            assert(later[i] == fields[i + 1]);
        }
        lemma_none_for(later, key);
    }
}

} // verus!
