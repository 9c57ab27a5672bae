//! The fields of a JSON object without nesting: a key, a colon and a string, a
//! number or a word for each.
use crate::text::{is_digit, same_chars};
use vstd::prelude::*;
use vstd::slice::slice_subrange;

verus! {

/// White space in ASCII.
pub open spec fn is_ascii_space(c: char) -> bool {
    c == ' ' || c == '\t' || c == '\n' || c == '\u{c}' || c == '\r'
}

/// `text` without the ASCII white space at its start.
pub open spec fn skip_ascii_space(text: Seq<char>) -> Seq<char>
    decreases text.len(),
{
    if text.len() > 0 && is_ascii_space(text[0]) {
        skip_ascii_space(text.skip(1))
    } else {
        text
    }
}

pub(crate) proof fn lemma_skip_shortens(text: Seq<char>)
    ensures
        skip_ascii_space(text).len() <= text.len(),
    decreases text.len(),
{
    if text.len() > 0 && is_ascii_space(text[0]) {
        lemma_skip_shortens(text.skip(1));
    }
}

/// `text` without the ASCII white space at its start.
pub fn skip_spaces(text: &[char]) -> (rest: &[char])
    ensures
        rest@ == skip_ascii_space(text@),
        rest@.len() <= text@.len(),
{
    let mut from: usize = 0;
    assert(text@.skip(0) =~= text@);
    while from < text.len() && (text[from] == ' ' || text[from] == '\t' || text[from] == '\n'
        || text[from] == '\u{c}' || text[from] == '\r')
        invariant
            from <= text.len(),
            skip_ascii_space(text@) == skip_ascii_space(text@.skip(from as int)),
        decreases text.len() - from,
    {
        assert(text@.skip(from as int).skip(1) =~= text@.skip(from + 1));
        from += 1;
    }
    let rest = slice_subrange(text, from, text.len());
    assert(rest@ =~= text@.skip(from as int));
    rest
}

/// `text` from `from` on.
fn tail(text: &[char], from: usize) -> (rest: &[char])
    requires
        from <= text@.len(),
    ensures
        rest@ == text@.skip(from as int),
{
    let rest = slice_subrange(text, from, text.len());
    assert(rest@ =~= text@.skip(from as int));
    rest
}

/// How many decimal digits `text` starts with.
pub open spec fn leading_digits(text: Seq<char>) -> int
    decreases text.len(),
{
    if text.len() > 0 && is_digit(text[0]) {
        1 + leading_digits(text.skip(1))
    } else {
        0
    }
}

/// How many decimal digits `text` starts with.
pub fn count_digits(text: &[char]) -> (count: usize)
    ensures
        count == leading_digits(text@),
        count <= text@.len(),
{
    let mut end: usize = 0;
    assert(text@.skip(0) =~= text@);
    while end < text.len() && '0' <= text[end] && text[end] <= '9'
        invariant
            end <= text.len(),
            leading_digits(text@) == end + leading_digits(text@.skip(end as int)),
        decreases text.len() - end,
    {
        assert(text@.skip(end as int).skip(1) =~= text@.skip(end + 1));
        end += 1;
    }
    end
}

pub(crate) proof fn lemma_leading_digits(text: Seq<char>)
    ensures
        0 <= leading_digits(text) <= text.len(),
    decreases text.len(),
{
    if text.len() > 0 && is_digit(text[0]) {
        lemma_leading_digits(text.skip(1));
    }
}

/// How many characters of `text` a string takes up to and with its closing
/// quotation mark; `text` starts behind the opening one. A backslash and what
/// follows it go together.
pub open spec fn string_len(text: Seq<char>) -> Option<int>
    decreases text.len(),
{
    if text.len() == 0 {
        None
    } else if text[0] == '"' {
        Some(1)
    } else if text[0] == '\\' {
        if text.len() == 1 {
            None
        } else {
            match string_len(text.skip(2)) {
                Some(n) => Some(n + 2),
                None => None,
            }
        }
    } else {
        match string_len(text.skip(1)) {
            Some(n) => Some(n + 1),
            None => None,
        }
    }
}

pub(crate) proof fn lemma_string_len(text: Seq<char>)
    ensures
        string_len(text) matches Some(n) ==> 1 <= n <= text.len(),
    decreases text.len(),
{
    if text.len() > 0 && text[0] != '"' {
        if text[0] == '\\' {
            if text.len() > 1 {
                lemma_string_len(text.skip(2));
            }
        } else {
            lemma_string_len(text.skip(1));
        }
    }
}

/// How many characters of `text` a string takes up to and with its closing
/// quotation mark.
fn count_string(text: &[char]) -> (count: Option<usize>)
    ensures
        match count {
            Some(n) => string_len(text@) == Some(n as int) && 1 <= n <= text@.len(),
            None => string_len(text@) is None,
        },
{
    let mut at: usize = 0;
    assert(text@.skip(0) =~= text@);
    while at < text.len()
        invariant
            at <= text.len(),
            string_len(text@) == match string_len(text@.skip(at as int)) {
                Some(n) => Some(n + at),
                None => None,
            },
        decreases text.len() - at,
    {
        let ghost left = text@.skip(at as int);
        if text[at] == '"' {
            return Some(at + 1);
        }
        if text[at] == '\\' {
            if text.len() - at == 1 {
                return None;
            }
            assert(left.skip(2) =~= text@.skip(at + 2));
            at += 2;
        } else {
            assert(left.skip(1) =~= text@.skip(at + 1));
            at += 1;
        }
    }
    None
}

/// How many characters the exponent takes with which `text` starts; none unless
/// it starts with one.
pub open spec fn exponent_len(text: Seq<char>) -> int {
    if text.len() > 0 && (text[0] == 'e' || text[0] == 'E') {
        let signed = text.len() > 1 && (text[1] == '+' || text[1] == '-');
        let start: int = if signed {
            2
        } else {
            1
        };
        let digits = leading_digits(text.skip(start));
        if digits > 0 {
            start + digits
        } else {
            0
        }
    } else {
        0
    }
}

/// How many characters the fraction takes with which `text` starts; none unless
/// it starts with one.
pub open spec fn fraction_len(text: Seq<char>) -> int {
    if text.len() > 0 && text[0] == '.' && leading_digits(text.skip(1)) > 0 {
        1 + leading_digits(text.skip(1))
    } else {
        0
    }
}

/// How many characters the number takes with which `text` starts: a sign, digits
/// without a leading zero, a fraction, an exponent. None unless it starts with
/// one.
pub open spec fn number_len(text: Seq<char>) -> int {
    let sign: int = if text.len() > 0 && text[0] == '-' {
        1
    } else {
        0
    };
    let digits = leading_digits(text.skip(sign));
    if digits == 0 || (digits > 1 && text[sign] == '0') {
        0
    } else {
        let whole = sign + digits;
        let exact = whole + fraction_len(text.skip(whole));
        exact + exponent_len(text.skip(exact))
    }
}

/// How many characters of `text` the number takes with which it starts.
fn count_number(text: &[char]) -> (count: usize)
    ensures
        count == number_len(text@),
        count <= text@.len(),
{
    let sign: usize = if text.len() > 0 && text[0] == '-' {
        1
    } else {
        0
    };
    let digits: usize = count_digits(tail(text, sign));
    if digits == 0 || (digits > 1 && text[sign] == '0') {
        return 0;
    }
    let whole: usize = sign + digits;
    let mut exact: usize = whole;
    let rest = tail(text, whole);
    if rest.len() > 0 && rest[0] == '.' {
        let more: usize = count_digits(tail(rest, 1));
        if more > 0 {
            exact = whole + 1 + more;
        }
    }
    assert(exact == whole + fraction_len(rest@));
    let rest = tail(text, exact);
    if rest.len() > 0 && (rest[0] == 'e' || rest[0] == 'E') {
        let start: usize = if rest.len() > 1 && (rest[1] == '+' || rest[1] == '-') {
            2
        } else {
            1
        };
        let more: usize = count_digits(tail(rest, start));
        if more > 0 {
            return exact + start + more;
        }
    }
    exact
}

/// How many characters the word takes with which `text` starts: `true`, `false`
/// or `null`. None unless it starts with one.
pub open spec fn word_len(text: Seq<char>) -> int {
    if text.len() >= 4 && text.take(4) == seq!['t', 'r', 'u', 'e'] {
        4
    } else if text.len() >= 5 && text.take(5) == seq!['f', 'a', 'l', 's', 'e'] {
        5
    } else if text.len() >= 4 && text.take(4) == seq!['n', 'u', 'l', 'l'] {
        4
    } else {
        0
    }
}

/// How many characters of `text` the word takes with which it starts.
fn count_word(text: &[char]) -> (count: usize)
    ensures
        count == word_len(text@),
        count <= text@.len(),
{
    let ghost four = text@.take(4);
    let ghost five = text@.take(5);
    if text.len() >= 4 && text[0] == 't' && text[1] == 'r' && text[2] == 'u' && text[3] == 'e' {
        assert(four =~= seq!['t', 'r', 'u', 'e']);
        return 4;
    }
    assert(text@.len() >= 4 ==> four != seq!['t', 'r', 'u', 'e']) by {
        if text@.len() >= 4 && four == seq!['t', 'r', 'u', 'e'] {
            assert(four[0] == 't' && four[1] == 'r' && four[2] == 'u' && four[3] == 'e');
        }
    }
    if text.len() >= 5 && text[0] == 'f' && text[1] == 'a' && text[2] == 'l' && text[3] == 's'
        && text[4] == 'e' {
        assert(five =~= seq!['f', 'a', 'l', 's', 'e']);
        return 5;
    }
    assert(text@.len() >= 5 ==> five != seq!['f', 'a', 'l', 's', 'e']) by {
        if text@.len() >= 5 && five == seq!['f', 'a', 'l', 's', 'e'] {
            assert(five[0] == 'f' && five[1] == 'a' && five[2] == 'l' && five[3] == 's' && five[4]
                == 'e');
        }
    }
    if text.len() >= 4 && text[0] == 'n' && text[1] == 'u' && text[2] == 'l' && text[3] == 'l' {
        assert(four =~= seq!['n', 'u', 'l', 'l']);
        return 4;
    }
    assert(text@.len() >= 4 ==> four != seq!['n', 'u', 'l', 'l']) by {
        if text@.len() >= 4 && four == seq!['n', 'u', 'l', 'l'] {
            assert(four[0] == 'n' && four[1] == 'u' && four[2] == 'l' && four[3] == 'l');
        }
    }
    0
}

/// How many characters the value takes with which `text` starts; none unless it
/// starts with a whole string, a number or a word.
pub open spec fn scalar_len(text: Seq<char>) -> int {
    if text.len() > 0 && text[0] == '"' {
        match string_len(text.skip(1)) {
            Some(n) => n + 1,
            None => 0,
        }
    } else if number_len(text) > 0 {
        number_len(text)
    } else {
        word_len(text)
    }
}

/// How many characters of `text` the value takes with which it starts.
fn count_scalar(text: &[char]) -> (count: usize)
    ensures
        count == scalar_len(text@),
        count <= text@.len(),
{
    if text.len() > 0 && text[0] == '"' {
        return match count_string(tail(text, 1)) {
            Some(n) => n + 1,
            None => 0,
        };
    }
    let count: usize = count_number(text);
    if count > 0 {
        count
    } else {
        count_word(text)
    }
}

/// A field of an object: its key as it is written between the quotation marks,
/// and the text from its value on.
pub struct Field {
    pub key: Seq<char>,
    pub value: Seq<char>,
}

/// The field with which `text` starts, and what follows it.
pub open spec fn first_member(text: Seq<char>) -> Option<(Field, Seq<char>)> {
    if text.len() > 0 && text[0] == '"' && string_len(text.skip(1)) is Some {
        let len = string_len(text.skip(1))->0;
        let after_key = skip_ascii_space(text.skip(len + 1));
        if after_key.len() > 0 && after_key[0] == ':' {
            let value = skip_ascii_space(after_key.skip(1));
            if scalar_len(value) > 0 {
                Some(
                    (
                        Field { key: text.subrange(1, len), value },
                        skip_ascii_space(value.skip(scalar_len(value))),
                    ),
                )
            } else {
                None
            }
        } else {
            None
        }
    } else {
        None
    }
}

/// `field` before others, if there are any to speak of.
pub open spec fn preceded_by(field: Field, others: Option<Seq<Field>>) -> Option<Seq<Field>> {
    match others {
        Some(fields) => Some(seq![field] + fields),
        None => None,
    }
}

/// The fields from `text` on up to the brace that ends the object, with commas
/// between them and nothing but white space after the brace.
pub open spec fn members(text: Seq<char>) -> Option<Seq<Field>>
    decreases text.len(),
{
    match first_member(text) {
        None => None,
        Some((field, rest)) => {
            if rest.len() > 0 && rest[0] == ',' && skip_ascii_space(rest.skip(1)).len()
                < text.len() {
                preceded_by(field, members(skip_ascii_space(rest.skip(1))))
            } else if rest.len() > 0 && rest[0] == '}' && skip_ascii_space(rest.skip(1)).len()
                == 0 {
                Some(seq![field])
            } else {
                None
            }
        },
    }
}

/// The fields of the object that `body` is; none if it is no object without
/// nesting.
pub open spec fn object_fields(body: Seq<char>) -> Option<Seq<Field>> {
    let text = skip_ascii_space(body);
    if text.len() > 0 && text[0] == '{' {
        let inner = skip_ascii_space(text.skip(1));
        if inner.len() > 0 && inner[0] == '}' {
            if skip_ascii_space(inner.skip(1)).len() == 0 {
                Some(seq![])
            } else {
                None
            }
        } else {
            members(inner)
        }
    } else {
        None
    }
}

/// The text from the value of the first of `fields` for `key` on.
pub open spec fn first_for(fields: Seq<Field>, key: Seq<char>) -> Option<Seq<char>>
    decreases fields.len(),
{
    if fields.len() == 0 {
        None
    } else if fields[0].key == key {
        Some(fields[0].value)
    } else {
        first_for(fields.skip(1), key)
    }
}

/// What a look into an object gives.
pub enum Lookup<'a> {
    /// The text is no object without nesting.
    NoObject,
    /// The object has no such field.
    Missing,
    /// The text from the value of the field on.
    Found(&'a [char]),
}

/// The field with which a text starts: its key, the text from its value on, and
/// what follows it.
struct Member<'a> {
    key: &'a [char],
    value: &'a [char],
    rest: &'a [char],
}

/// The field with which `text` starts, and what follows it.
fn read_member<'a>(text: &'a [char]) -> (member: Option<Member<'a>>)
    ensures
        match member {
            Some(m) => {
                &&& first_member(text@) == Some(
                    (Field { key: m.key@, value: m.value@ }, m.rest@),
                )
                &&& m.rest@.len() < text@.len()
            },
            None => first_member(text@) is None,
        },
{
    if text.len() == 0 || text[0] != '"' {
        return None;
    }
    let len: usize = match count_string(tail(text, 1)) {
        Some(len) => len,
        None => {
            return None;
        },
    };
    let after_key = skip_spaces(tail(text, len + 1));
    if after_key.len() == 0 || after_key[0] != ':' {
        return None;
    }
    let value = skip_spaces(tail(after_key, 1));
    let taken: usize = count_scalar(value);
    if taken == 0 {
        return None;
    }
    Some(
        Member {
            key: slice_subrange(text, 1, len),
            value,
            rest: skip_spaces(tail(value, taken)),
        },
    )
}

/// What comes of looking for a field when `found` so far and `fields` are left.
spec fn looked_up(
    found: Option<Seq<char>>,
    fields: Option<Seq<Field>>,
    key: Seq<char>,
) -> Option<Option<Seq<char>>> {
    match fields {
        None => None,
        Some(fields) => Some(
            if found is Some {
                found
            } else {
                first_for(fields, key)
            },
        ),
    }
}

/// Looks for the first field `key` in the object that `body` is.
pub fn look_up<'a>(body: &'a [char], key: &[char]) -> (lookup: Lookup<'a>)
    ensures
        match lookup {
            Lookup::NoObject => object_fields(body@) is None,
            Lookup::Missing => object_fields(body@) matches Some(fields) && first_for(
                fields,
                key@,
            ) is None,
            Lookup::Found(value) => object_fields(body@) matches Some(fields) && first_for(
                fields,
                key@,
            ) == Some(value@),
        },
{
    let text = skip_spaces(body);
    if text.len() == 0 || text[0] != '{' {
        return Lookup::NoObject;
    }
    let inner = skip_spaces(tail(text, 1));
    if inner.len() > 0 && inner[0] == '}' {
        return if skip_spaces(tail(inner, 1)).len() == 0 {
            Lookup::Missing
        } else {
            Lookup::NoObject
        };
    }
    let mut found: Option<&'a [char]> = None;
    let mut left: &'a [char] = inner;
    let ghost mut seen: Option<Seq<char>> = None;
    loop
        invariant
            object_fields(body@) == members(inner@),
            found matches Some(value) ==> seen == Some(value@),
            found is None ==> seen is None,
            looked_up(None, members(inner@), key@) == looked_up(seen, members(left@), key@),
        decreases left@.len(),
    {
        let member = match read_member(left) {
            Some(member) => member,
            None => {
                return Lookup::NoObject;
            },
        };
        let ghost field = Field { key: member.key@, value: member.value@ };
        let ghost earlier = seen;
        if found.is_none() && same_chars(member.key, key) {
            found = Some(member.value);
            proof {
                seen = Some(member.value@);
            }
        }
        let rest = member.rest;
        if rest.len() > 0 && rest[0] == ',' {
            let next = skip_spaces(tail(rest, 1));
            proof {
                if let Some(others) = members(next@) {
                    assert((seq![field] + others).skip(1) =~= others);
                    assert((seq![field] + others)[0] == field);
                }
                assert(looked_up(earlier, members(left@), key@) == looked_up(
                    seen,
                    members(next@),
                    key@,
                ));
            }
            left = next;
        } else if rest.len() > 0 && rest[0] == '}' && skip_spaces(tail(rest, 1)).len() == 0 {
            proof {
                assert(seq![field].skip(1) =~= seq![]);
                assert(first_for(seq![field].skip(1), key@) is None);
            }
            return match found {
                Some(value) => Lookup::Found(value),
                None => Lookup::Missing,
            };
        } else {
            return Lookup::NoObject;
        }
    }
}

} // verus!
