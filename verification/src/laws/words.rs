//! Words: how texts are taken apart and put together, character by character.
use crate::http::{decoded, escapes_whole, hex_value, PERCENT};
use crate::json::{escaped, number_value, quoted, quoted_text, string_value, value_of};
use crate::laws::payload::lemma_no_leading_zero;
use crate::laws::wire::{
    is_word, lemma_first_line, lemma_first_piece, lemma_index_at, lemma_return_and_feed,
    lemma_word_comes_first,
};
use crate::object::{is_ascii_space, object_fields, skip_ascii_space};
use crate::text::{
    after, before, decimal, find_from, first_word, index_of, is_blank, is_digit, is_white_space,
    lemma_index_of, lines_of, number, pieces, trim_end, trim_start, trimmed, unsigned,
    unsigned_size, without_return,
};
use vstd::prelude::*;
use vstd::utf8::is_continuation_byte;

verus! {

/// White space, by the numbers of its characters.
pub proof fn law_white_space(c: char)
    ensures
        is_white_space(c) <==> {
            let n = c as u32;
            ||| 9 <= n <= 13
            ||| n == 32
            ||| n == 133
            ||| n == 160
            ||| n == 5760
            ||| 8192 <= n <= 8202
            ||| n == 8232
            ||| n == 8233
            ||| n == 8239
            ||| n == 8287
            ||| n == 12288
        },
        is_ascii_space(c) <==> {
            let n = c as u32;
            n == 9 || n == 10 || n == 12 || n == 13 || n == 32
        },
        is_digit(c) <==> 48 <= c as u32 <= 57,
{
}

/// A text is blank exactly if all that it holds is white space, so that nothing
/// is left of it when it is trimmed.
pub proof fn law_blank(text: Seq<char>, c: char)
    ensures
        is_blank(Seq::empty()),
        is_blank(text.push(c)) <==> is_blank(text) && is_white_space(c),
{
    let longer = text.push(c);
    if is_blank(longer) {
        assert forall|i: int| 0 <= i < text.len() implies is_white_space(#[trigger] text[i]) by {
            assert(longer[i] == text[i]);
        }
        assert(longer[text.len() as int] == c);
    }
}

/// A number is written without leading zeros, in digits that count by tens.
pub proof fn law_decimals(n: nat)
    ensures
        decimal(n).len() > 1 ==> decimal(n)[0] != '0',
        n >= 10 ==> decimal(n).drop_last() == decimal(n / 10),
        decimal(n).last() as u32 == 48 + n % 10,
{
    if n > 0 {
        lemma_no_leading_zero(n);
    }
    if n >= 10 {
        assert(decimal(n).drop_last() =~= decimal(n / 10));
    }
}

/// Digits count by tens.
pub proof fn law_digits_count_by_tens(digits: Seq<char>, d: nat)
    requires
        d < 10,
    ensures
        number(Seq::empty()) == 0,
        number(digits.push((48 + d) as char)) == 10 * number(digits) + d,
{
    let c = (48 + d) as char;
    assert(c as nat == 48 + d);
    assert(digits.push(c).drop_last() =~= digits);
}

/// What is read as a number without a sign: digits alone, at least one, or a plus
/// sign and digits. It is read as a `usize` exactly if it fits.
pub proof fn law_unsigned_numbers(digits: Seq<char>)
    requires
        digits.len() > 0,
        forall|i: int| 0 <= i < digits.len() ==> '0' <= #[trigger] digits[i] <= '9',
    ensures
        unsigned(digits) == Some(number(digits)),
        unsigned(seq!['+'] + digits) == Some(number(digits)),
        number(digits) <= usize::MAX ==> unsigned_size(digits) == Some(number(digits) as usize),
        number(digits) > usize::MAX ==> unsigned_size(digits) is None,
        unsigned(Seq::empty()) is None,
        unsigned(seq!['+']) is None,
{
    assert forall|i: int| 0 <= i < digits.len() implies is_digit(#[trigger] digits[i]) by {}
    assert('0' <= digits[0] <= '9');
    assert((seq!['+'] + digits).skip(1) =~= digits);
    assert(seq!['+'].skip(1) =~= seq![]);
}

/// A text that holds anything but digits, apart from a plus sign in front, is no
/// number.
pub proof fn law_other_text_is_no_number(text: Seq<char>, i: int)
    requires
        0 <= i < text.len(),
        !('0' <= text[i] <= '9'),
        i > 0 || text[i] != '+',
    ensures
        unsigned(text) is None,
        unsigned_size(text) is None,
{
    assert(!is_digit(text[i]));
    if text[0] == '+' {
        assert(text.skip(1)[i - 1] == text[i]);
    }
}

proof fn lemma_trim_start(front: Seq<char>, rest: Seq<char>)
    requires
        is_blank(front),
        rest.len() == 0 || !is_white_space(rest[0]),
    ensures
        trim_start(front + rest) == rest,
    decreases front.len(),
{
    let text = front + rest;
    if front.len() == 0 {
        assert(text =~= rest);
    } else {
        assert(text[0] == front[0]);
        assert(is_white_space(front[0]));
        let shorter = front.skip(1);
        assert forall|i: int| 0 <= i < shorter.len() implies is_white_space(
            #[trigger] shorter[i],
        ) by {
            assert(shorter[i] == front[i + 1]);
        }
        assert(text.skip(1) =~= shorter + rest);
        lemma_trim_start(shorter, rest);
    }
}

proof fn lemma_trim_end(front: Seq<char>, back: Seq<char>)
    requires
        is_blank(back),
        front.len() == 0 || !is_white_space(front.last()),
    ensures
        trim_end(front + back) == front,
    decreases back.len(),
{
    let text = front + back;
    if back.len() == 0 {
        assert(text =~= front);
    } else {
        assert(text.last() == back.last());
        assert(is_white_space(back[back.len() - 1]));
        let shorter = back.drop_last();
        assert forall|i: int| 0 <= i < shorter.len() implies is_white_space(
            #[trigger] shorter[i],
        ) by {
            assert(shorter[i] == back[i]);
        }
        assert(text.drop_last() =~= front + shorter);
        lemma_trim_end(front, shorter);
    }
}

/// Trimming takes the white space off both ends and nothing else.
pub proof fn law_trimming(front: Seq<char>, core: Seq<char>, back: Seq<char>)
    requires
        is_blank(front),
        is_blank(back),
        core.len() > 0,
        !is_white_space(core[0]),
        !is_white_space(core.last()),
    ensures
        trimmed(front + core + back) == core,
        trimmed(front) == Seq::<char>::empty(),
{
    assert(front + core + back =~= front + (core + back));
    assert((core + back)[0] == core[0]);
    lemma_trim_start(front, core + back);
    lemma_trim_end(core, back);
    lemma_trim_start(front, Seq::empty());
    assert(front + Seq::<char>::empty() =~= front);
}

/// A text is cut at the first place of a character, if it has one.
pub proof fn law_cutting(front: Seq<char>, c: char, back: Seq<char>)
    requires
        !front.contains(c),
    ensures
        before(front + seq![c] + back, c) == front,
        after(front + seq![c] + back, c) == Some(back),
        before(front, c) == front,
        after(front, c) is None,
{
    let text = front + seq![c] + back;
    assert forall|i: int| 0 <= i < front.len() implies text[i] != c by {
        assert(text[i] == front[i]);
        assert(front.contains(front[i]));
    }
    lemma_index_at(text, c, front.len() as int);
    assert(text.take(front.len() as int) =~= front);
    assert(text.skip(1 + front.len() as int) =~= back);
    lemma_index_of(front, c);
    if index_of(front, c) < front.len() {
        assert(front.contains(front[index_of(front, c)]));
    }
    assert(front.take(front.len() as int) =~= front);
}

/// A text is split at every place of a character.
pub proof fn law_splitting(front: Seq<char>, c: char, back: Seq<char>)
    requires
        !front.contains(c),
    ensures
        pieces(front, c) == seq![front],
        pieces(front + seq![c] + back, c) == seq![front] + pieces(back, c),
{
    lemma_first_piece(front, back, c);
    lemma_index_of(front, c);
    if index_of(front, c) < front.len() {
        assert(front.contains(front[index_of(front, c)]));
    }
}

/// Lines end with a line feed, with or without a carriage return before it. What
/// stands behind the last line end is a line if it holds anything.
pub proof fn law_lines(line: Seq<char>, rest: Seq<char>)
    requires
        !line.contains('\n'),
    ensures
        lines_of(line + seq!['\r', '\n'] + rest) == seq![line] + lines_of(rest),
        line.len() == 0 || line.last() != '\r' ==> lines_of(line + seq!['\n'] + rest) == seq![line]
            + lines_of(rest),
        line.len() > 0 ==> lines_of(line) == seq![line],
        lines_of(Seq::empty()) == Seq::<Seq<char>>::empty(),
{
    let empty = Seq::<char>::empty();
    lemma_return_and_feed();
    lemma_first_line(line, rest);
    law_splitting(line, '\n', rest);
    law_splitting(empty, '\n', rest);
    let strip = |line: Seq<char>| without_return(line);
    let text = line + seq!['\n'] + rest;
    let parts = pieces(text, '\n');
    let more = pieces(rest, '\n');
    assert(more.len() > 0);
    if line.len() == 0 || line.last() != '\r' {
        assert(parts.drop_last() =~= seq![line] + more.drop_last());
        assert(parts.drop_last().map_values(strip) =~= seq![line] + more.drop_last().map_values(
            strip,
        ));
        assert(parts.last() == more.last());
        assert(lines_of(text) =~= seq![line] + lines_of(rest));
    }
    assert(seq![line].drop_last().map_values(strip) =~= seq![]);
    assert(seq![empty].drop_last().map_values(strip) =~= seq![]);
    if line.len() > 0 {
        assert(lines_of(line) =~= seq![line]);
    }
    assert(lines_of(empty) =~= seq![]);
}

/// The first word of a text stands behind white space and before white space.
pub proof fn law_first_words(front: Seq<char>, word: Seq<char>, rest: Seq<char>)
    requires
        is_blank(front),
        is_word(word),
        rest.len() > 0,
        is_white_space(rest[0]),
    ensures
        first_word(front + word + rest) == (word, rest),
{
    assert(!is_white_space(word[0]));
    assert(front + word + rest =~= front + (word + rest));
    assert((word + rest)[0] == word[0]);
    lemma_trim_start(front, word + rest);
    lemma_trim_start(Seq::empty(), word + rest);
    assert(Seq::<char>::empty() + (word + rest) =~= word + rest);
    lemma_word_comes_first(word, rest);
}

/// What is searched is found where it first stands.
pub proof fn law_searching(whole: Seq<char>, part: Seq<char>, at: int, earlier: int)
    ensures
        find_from(whole, part, 0) == Some(at) ==> 0 <= at && at + part.len() <= whole.len()
            && whole.subrange(at, at + part.len()) == part && (0 <= earlier < at
            ==> whole.subrange(earlier, earlier + part.len()) != part),
        find_from(whole, part, 0) is None && 0 <= earlier && earlier + part.len() <= whole.len()
            ==> whole.subrange(earlier, earlier + part.len()) != part,
{
    lemma_searching(whole, part, 0, at, earlier);
}

proof fn lemma_searching(whole: Seq<char>, part: Seq<char>, from: int, at: int, earlier: int)
    requires
        0 <= from,
    ensures
        find_from(whole, part, from) == Some(at) ==> from <= at && at + part.len() <= whole.len()
            && whole.subrange(at, at + part.len()) == part && (from <= earlier < at
            ==> whole.subrange(earlier, earlier + part.len()) != part),
        find_from(whole, part, from) is None && from <= earlier && earlier + part.len()
            <= whole.len() ==> whole.subrange(earlier, earlier + part.len()) != part,
    decreases whole.len() + 1 - from,
{
    if from + part.len() <= whole.len() && whole.subrange(from, from + part.len()) != part {
        lemma_searching(whole, part, from + 1, at, earlier);
    }
}

/// How characters are written in a JSON string: five of them with a backslash, all
/// others as they are, one after another.
pub proof fn law_escaping(text: Seq<char>, c: char)
    ensures
        escaped(Seq::empty()) == Seq::<char>::empty(),
        escaped(text.push(c)) == escaped(text) + (if c == '"' {
            seq!['\\', '"']
        } else if c == '\\' {
            seq!['\\', '\\']
        } else if c == '\n' {
            seq!['\\', 'n']
        } else if c == '\r' {
            seq!['\\', 'r']
        } else if c == '\t' {
            seq!['\\', 't']
        } else {
            seq![c]
        }),
{
    assert(text.push(c).drop_last() =~= text);
}

/// How a JSON string is read: up to the next quotation mark, with a backslash and
/// the character behind it taken together.
pub proof fn law_reading_strings(c: char, rest: Seq<char>)
    ensures
        quoted_text(Seq::empty()) is None,
        quoted_text(seq!['"'] + rest) == Some(Seq::<char>::empty()),
        quoted_text(seq!['\\']) is None,
        quoted_text(seq!['\\', c] + rest) == match quoted_text(rest) {
            None => None,
            Some(text) => Some(
                seq![
                    if c == 'n' {
                        '\n'
                    } else if c == 'r' {
                        '\r'
                    } else if c == 't' {
                        '\t'
                    } else {
                        c
                    },
                ] + text,
            ),
        },
        c != '"' && c != '\\' ==> quoted_text(seq![c] + rest) == match quoted_text(rest) {
            None => None,
            Some(text) => Some(seq![c] + text),
        },
{
    assert((seq!['"'] + rest)[0] == '"');
    let pair = seq!['\\', c] + rest;
    assert(pair[0] == '\\' && pair[1] == c);
    assert(pair.skip(2) =~= rest);
    let single = seq![c] + rest;
    assert(single[0] == c);
    assert(single.skip(1) =~= rest);
    assert(seq!['\\'].len() == 1);
}

/// What a value says as a string and as a number: a string stands in quotation
/// marks; a number is made of digits alone, up to the end of the value, and fits
/// into 32 bits.
pub proof fn law_values(
    body: Seq<char>,
    key: Seq<char>,
    digits: Seq<char>,
    rest: Seq<char>,
    start: Seq<char>,
)
    requires
        digits.len() > 0,
        forall|i: int| 0 <= i < digits.len() ==> '0' <= #[trigger] digits[i] <= '9',
        rest.len() > 0,
        !('0' <= rest[0] <= '9'),
    ensures
        value_of(body, key) is None ==> string_value(body, key) is None && number_value(
            body,
            key,
        ) is None,
        value_of(body, key) == Some(seq!['"'] + start) ==> string_value(body, key) == quoted_text(
            start,
        ) && number_value(body, key) is None,
        value_of(body, key) == Some(digits + rest) ==> string_value(body, key) is None
            && number_value(body, key) == if number(digits) <= u32::MAX && (rest[0] == ','
            || rest[0] == '}' || rest[0] == ']' || rest[0] == ' ' || rest[0] == '\t' || rest[0]
            == '\n' || rest[0] == '\r' || rest[0] == '\u{c}') {
            Some(number(digits) as u32)
        } else {
            None
        },
        value_of(body, key) == Some(rest) ==> number_value(body, key) is None,
{
    let opened = seq!['"'] + start;
    assert(opened[0] == '"');
    assert(opened.skip(1) =~= start);
    assert(opened.take(0) =~= seq![]);
    let value = digits + rest;
    assert forall|i: int| 0 <= i < digits.len() implies is_digit(#[trigger] value[i]) && is_digit(
        digits[i],
    ) by {
        assert(value[i] == digits[i]);
    }
    assert(value[digits.len() as int] == rest[0]);
    crate::laws::payload::lemma_digits_end(value, digits.len() as int);
    assert(value.take(digits.len() as int) =~= digits);
    assert(value.skip(digits.len() as int) =~= rest);
    assert(is_digit(digits[0]));
    assert(value[0] == digits[0]);
    assert(rest.take(0) =~= seq![]);
}

/// A text that is no object is searched for the first quoted key and the next
/// colon behind it, wherever that stands.
pub proof fn law_other_text_is_searched(
    front: Seq<char>,
    key: Seq<char>,
    gap: Seq<char>,
    rest: Seq<char>,
)
    requires
        !key.contains(':'),
        !gap.contains(':'),
        ({
            let body = front + quoted(key) + gap + seq![':'] + rest;
            &&& object_fields(body) is None
            &&& find_from(body, quoted(key), 0) == Some(front.len() as int)
        }),
    ensures
        value_of(front + quoted(key) + gap + seq![':'] + rest, key) == Some(skip_ascii_space(rest)),
{
    let body = front + quoted(key) + gap + seq![':'] + rest;
    let left = quoted(key) + gap;
    assert(body.skip(front.len() as int) =~= left + seq![':'] + rest);
    assert(!left.contains(':')) by {
        if left.contains(':') {
            let i = choose|i: int| 0 <= i < left.len() && left[i] == ':';
            if i >= quoted(key).len() {
                assert(gap[i - quoted(key).len()] == ':');
            } else if 1 <= i < quoted(key).len() - 1 {
                assert(key[i - 1] == ':');
            }
        }
    }
    law_cutting(left, ':', rest);
}

/// White space in front of a value is passed over.
pub proof fn law_spaces_are_skipped(space: char, text: Seq<char>)
    ensures
        is_ascii_space(space) ==> skip_ascii_space(seq![space] + text) == skip_ascii_space(text),
        text.len() == 0 || !is_ascii_space(text[0]) ==> skip_ascii_space(text) == text,
{
    let longer = seq![space] + text;
    assert(longer[0] == space);
    assert(longer.skip(1) =~= text);
}

/// The value of a hexadecimal digit.
pub proof fn law_hexadecimal(d: u8, other: u8)
    ensures
        d < 10 ==> hex_value((48 + d) as u8) == Some(d),
        10 <= d < 16 ==> hex_value((55 + d) as u8) == Some(d),
        10 <= d < 16 ==> hex_value((87 + d) as u8) == Some(d),
        other < 48 || 57 < other < 65 || 70 < other < 97 || 102 < other ==> hex_value(
            other,
        ) is None,
{
}

/// Percent escapes are resolved from left to right: two hexadecimal digits behind
/// a percent sign give a byte, a plus sign gives a space, a percent sign without
/// such digits stands for itself, and so does every other byte.
pub proof fn law_decoding(byte: u8, high: u8, low: u8, rest: Seq<u8>)
    ensures
        decoded(Seq::empty()) == Seq::<u8>::empty(),
        byte != 37 && byte != 43 ==> decoded(seq![byte] + rest) == seq![byte] + decoded(rest),
        decoded(seq![43u8] + rest) == seq![32u8] + decoded(rest),
        hex_value(high) is Some && hex_value(low) is Some ==> decoded(seq![37u8, high, low] + rest)
            == seq![(16 * hex_value(high)->0 + hex_value(low)->0) as u8] + decoded(rest),
        hex_value(low) is Some ==> decoded(seq![37u8, 43u8, low] + rest) == seq![hex_value(low)->0]
            + decoded(rest),
        hex_value(low) is None || (hex_value(high) is None && high != 43) ==> decoded(
            seq![37u8, high, low] + rest,
        ) == seq![37u8] + decoded(seq![high, low] + rest),
        decoded(seq![37u8]) == seq![37u8],
        decoded(seq![37u8, byte]) == seq![37u8] + decoded(seq![byte]),
{
    let one = seq![byte] + rest;
    assert(one[0] == byte && one.skip(1) =~= rest);
    let plus = seq![43u8] + rest;
    assert(plus[0] == 43u8 && plus.skip(1) =~= rest);
    let three = seq![37u8, high, low] + rest;
    assert(three[0] == 37u8 && three[1] == high && three[2] == low);
    assert(three.skip(3) =~= rest);
    assert(three.skip(1) =~= seq![high, low] + rest);
    let signed = seq![37u8, 43u8, low] + rest;
    assert(signed[0] == 37u8 && signed[1] == 43u8 && signed[2] == low);
    assert(signed.skip(3) =~= rest);
    assert(seq![37u8].skip(1) =~= seq![]);
    assert(seq![37u8] + decoded(Seq::empty()) =~= seq![37u8]);
    assert(seq![37u8, byte].skip(1) =~= seq![byte]);
}

/// Which bytes can be decoded: all but those in which two bytes behind a percent
/// sign end inside a character.
pub proof fn law_decodable(front: Seq<u8>, first: u8, second: u8, next: u8, back: Seq<u8>)
    ensures
        !front.contains(37) ==> escapes_whole(front),
        (forall|i: int| 0 <= i < front.len() ==> #[trigger] front[i] < 128) ==> escapes_whole(
            front,
        ),
        128 <= next < 192 ==> !escapes_whole(front + seq![37u8, first, second, next] + back),
{
    let bytes = front + seq![37u8, first, second, next] + back;
    assert(bytes[front.len() as int] == 37);
    assert(bytes[front.len() as int + 3] == next);
    if !front.contains(37) {
        assert forall|i: int|
            0 <= i && i + 3 < front.len() && #[trigger] front[i] == PERCENT implies !is_continuation_byte(
            front[i + 3],
        ) by {
            assert(front.contains(front[i]));
        }
    }
}

} // verus!
