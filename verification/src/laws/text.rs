//! Text: what is written is what is read back.
use crate::http::{decoded, decoded_text, escapes_whole, hex_byte, hex_value, PERCENT, PLUS};
use crate::json::{escape_meaning, escaped, escaped_char, quoted_text};
use crate::text::{decimal, digit, is_digit, is_number, number, unsigned};
use vstd::prelude::*;
use vstd::utf8::{
    char_is_scalar, encode_scalar, encode_utf8, encode_utf8_decode_utf8, encode_utf8_valid_utf8,
    is_ascii_chars, is_ascii_chars_encode_utf8, is_continuation_byte,
};

verus! {

/// A number written in decimal is read back.
pub proof fn law_numbers_read_back(n: nat)
    ensures
        is_number(decimal(n)),
        number(decimal(n)) == n,
        unsigned(decimal(n)) == Some(n),
    decreases n,
{
    if n < 10 {
        let c = digit(n);
        assert('0' <= c <= '9');
        let one = seq![c];
        assert(one.drop_last() =~= seq![]);
        assert(number(one.drop_last()) == 0);
        assert(is_digit(one[0]));
    } else {
        law_numbers_read_back(n / 10);
        let c = digit(n % 10);
        assert('0' <= c <= '9');
        let front = decimal(n / 10);
        assert(decimal(n).drop_last() =~= front);
        assert forall|i: int| 0 <= i < decimal(n).len() implies is_digit(
            #[trigger] decimal(n)[i],
        ) by {
            if i < front.len() {
                assert(decimal(n)[i] == front[i]);
            }
        }
    }
    assert(is_digit(decimal(n)[0]));
}

/// The escape of the first character comes first.
pub(crate) proof fn lemma_escaped_first(text: Seq<char>)
    requires
        text.len() > 0,
    ensures
        escaped(text) == escaped_char(text[0]) + escaped(text.skip(1)),
    decreases text.len(),
{
    if text.len() == 1 {
        assert(escaped(text.drop_last()) =~= seq![]);
        assert(escaped(text.skip(1)) =~= seq![]);
        assert(escaped(text) =~= escaped_char(text[0]) + escaped(text.skip(1)));
    } else {
        lemma_escaped_first(text.drop_last());
        assert(text.drop_last().skip(1) =~= text.skip(1).drop_last());
        assert(text.skip(1).last() == text.last());
        assert(escaped(text) =~= escaped_char(text[0]) + escaped(text.skip(1)));
    }
}

/// A text written into a JSON string is read back, up to the quotation mark
/// that ends it, whatever follows.
pub proof fn law_strings_read_back(text: Seq<char>, rest: Seq<char>)
    ensures
        quoted_text(escaped(text) + seq!['"'] + rest) == Some(text),
    decreases text.len(),
{
    let written = escaped(text) + seq!['"'] + rest;
    if text.len() == 0 {
        assert(written[0] == '"');
        assert(text =~= seq![]);
    } else {
        lemma_escaped_first(text);
        let c = text[0];
        let tail = text.skip(1);
        let left = escaped(tail) + seq!['"'] + rest;
        law_strings_read_back(tail, rest);
        assert(written =~= escaped_char(c) + left);
        assert(seq![c] + tail =~= text);
        if escaped_char(c).len() == 2 {
            assert(written[0] == '\\');
            assert(written.skip(2) =~= left);
            assert(escape_meaning(written[1]) == c);
        } else {
            assert(written[0] == c);
            assert(written.skip(1) =~= left);
        }
    }
}

/// No byte of the encoding of a character but an ASCII one is that one.
proof fn lemma_scalar_lacks(c: char, other: char)
    requires
        c != other,
        other as u32 <= 0x7f,
    ensures
        !encode_scalar(c as u32).contains(other as u8),
{
    char_is_scalar(c);
    let v = c as u32;
    if v <= 0x7f {
        assert((v & 0x7f) as u8 == v) by (bit_vector)
            requires
                v <= 0x7f,
        ;
    }
    assert(0xC0u8 | ((v >> 6) & 0x1F) as u8 >= 0x80u8) by (bit_vector);
    assert(0xE0u8 | ((v >> 12) & 0x0F) as u8 >= 0x80u8) by (bit_vector);
    assert(0xF0u8 | ((v >> 18) & 0x07) as u8 >= 0x80u8) by (bit_vector);
    assert(0x80u8 | (v & 0x3F) as u8 >= 0x80u8) by (bit_vector);
    assert(0x80u8 | ((v >> 6) & 0x3F) as u8 >= 0x80u8) by (bit_vector);
    assert(0x80u8 | ((v >> 12) & 0x3F) as u8 >= 0x80u8) by (bit_vector);
}

/// The encoding of a text without an ASCII character lacks its byte.
pub(crate) proof fn lemma_encoding_lacks(value: Seq<char>, other: char)
    requires
        other as u32 <= 0x7f,
        !value.contains(other),
    ensures
        !encode_utf8(value).contains(other as u8),
    decreases value.len(),
{
    if value.len() > 0 {
        let tail = value.drop_first();
        assert(!tail.contains(other)) by {
            if tail.contains(other) {
                let i = choose|i: int| 0 <= i < tail.len() && tail[i] == other;
                assert(value[i + 1] == other);
            }
        }
        assert(value[0] != other);
        lemma_scalar_lacks(value[0], other);
        lemma_encoding_lacks(tail, other);
        let first = encode_scalar(value[0] as u32);
        let more = encode_utf8(tail);
        let bytes = encode_utf8(value);
        if bytes.contains(other as u8) {
            let i = choose|i: int| 0 <= i < bytes.len() && bytes[i] == other as u8;
            if i < first.len() {
                assert(first[i] == other as u8);
            } else {
                assert(more[i - first.len()] == other as u8);
            }
        }
    }
}

proof fn lemma_decoded_without_signs(bytes: Seq<u8>)
    requires
        !bytes.contains(PERCENT),
        !bytes.contains(PLUS),
    ensures
        decoded(bytes) == bytes,
    decreases bytes.len(),
{
    if bytes.len() > 0 {
        let tail = bytes.skip(1);
        assert(forall|i: int| 0 <= i < tail.len() ==> tail[i] == bytes[i + 1]);
        assert(bytes[0] != PERCENT && bytes[0] != PLUS);
        lemma_decoded_without_signs(tail);
        assert(seq![bytes[0]] + tail =~= bytes);
    }
}

/// Text without percent and plus signs stands for itself in a path.
pub proof fn law_plain_text_stands_for_itself(value: Seq<char>)
    requires
        !value.contains('%'),
        !value.contains('+'),
    ensures
        escapes_whole(encode_utf8(value)),
        decoded_text(value) == value,
{
    lemma_encoding_lacks(value, '%');
    lemma_encoding_lacks(value, '+');
    lemma_decoded_without_signs(encode_utf8(value));
    encode_utf8_valid_utf8(value);
    encode_utf8_decode_utf8(value);
}

/// The percent escape at `at` in `written` gives `byte`: a percent sign and two
/// hexadecimal digits in either case.
pub open spec fn gives_byte(written: Seq<u8>, at: int, byte: u8) -> bool {
    &&& written[at] == PERCENT
    &&& hex_value(written[at + 1]) == Some((byte / 16) as u8)
    &&& hex_value(written[at + 2]) == Some((byte % 16) as u8)
}

/// `written` gives each of `bytes` by a percent escape.
pub open spec fn gives_in_escapes(written: Seq<u8>, bytes: Seq<u8>) -> bool {
    &&& written.len() == 3 * bytes.len()
    &&& forall|i: int| 0 <= i < bytes.len() ==> gives_byte(written, 3 * i, #[trigger] bytes[i])
}

proof fn lemma_escapes_read_back(written: Seq<u8>, bytes: Seq<u8>)
    requires
        gives_in_escapes(written, bytes),
    ensures
        decoded(written) == bytes,
    decreases bytes.len(),
{
    if bytes.len() > 0 {
        let tail = bytes.skip(1);
        let left = written.skip(3);
        assert(gives_byte(written, 3 * 0int, bytes[0]));
        assert forall|i: int| 0 <= i < tail.len() implies gives_byte(
            left,
            3 * i,
            #[trigger] tail[i],
        ) by {
            assert(gives_byte(written, 3 * (i + 1), bytes[i + 1]));
        }
        lemma_escapes_read_back(left, tail);
        assert(hex_byte(written[1], written[2]) == Some(bytes[0]));
        assert(seq![bytes[0]] + tail =~= bytes);
    }
}

/// A text whose bytes are written as percent escapes, with digits in either
/// case, is read back from a path.
pub proof fn law_percent_escapes_read_back(written: Seq<char>, text: Seq<char>)
    requires
        is_ascii_chars(written),
        gives_in_escapes(encode_utf8(written), encode_utf8(text)),
    ensures
        escapes_whole(encode_utf8(written)),
        decoded_text(written) == text,
{
    is_ascii_chars_encode_utf8(written);
    let bytes = encode_utf8(written);
    assert forall|i: int| 0 <= i < bytes.len() implies !is_continuation_byte(#[trigger] bytes[i]) by {
        assert(bytes[i] == written[i] as u8);
    }
    lemma_escapes_read_back(bytes, encode_utf8(text));
    encode_utf8_valid_utf8(text);
    encode_utf8_decode_utf8(text);
}

/// The hexadecimal digit of a number below sixteen, in upper case.
pub open spec fn hex_char(n: int) -> char {
    (if n < 10 {
        48 + n
    } else {
        55 + n
    }) as char
}

/// `text` with every byte written as a percent escape.
pub open spec fn percent_encoded(text: Seq<char>) -> Seq<char> {
    let bytes = encode_utf8(text);
    Seq::new(
        3 * bytes.len(),
        |i: int|
            if i % 3 == 0 {
                '%'
            } else if i % 3 == 1 {
                hex_char(bytes[i / 3] as int / 16)
            } else {
                hex_char(bytes[i / 3] as int % 16)
            },
    )
}

/// Every text can be written for a path.
pub proof fn law_every_text_can_be_written(text: Seq<char>)
    ensures
        !percent_encoded(text).contains('?'),
        escapes_whole(encode_utf8(percent_encoded(text))),
        decoded_text(percent_encoded(text)) == text,
{
    let written = percent_encoded(text);
    let bytes = encode_utf8(text);
    assert forall|i: int| 0 <= i < written.len() implies '\0' <= #[trigger] written[i] <= '\u{7f}'
        && written[i] != '?' by {
        let byte = bytes[i / 3];
        assert(0 <= byte as int / 16 < 16 && 0 <= byte as int % 16 < 16);
    }
    is_ascii_chars_encode_utf8(written);
    let shown = encode_utf8(written);
    assert forall|i: int| 0 <= i < bytes.len() implies gives_byte(
        shown,
        3 * i,
        #[trigger] bytes[i],
    ) by {
        let byte = bytes[i];
        assert((3 * i) % 3 == 0 && (3 * i + 1) % 3 == 1 && (3 * i + 2) % 3 == 2);
        assert((3 * i + 1) / 3 == i && (3 * i + 2) / 3 == i);
        assert(written[3 * i] == '%');
        assert(written[3 * i + 1] == hex_char(byte as int / 16));
        assert(written[3 * i + 2] == hex_char(byte as int % 16));
    }
    law_percent_escapes_read_back(written, text);
}

} // verus!
