//! On the wire: requests are read as they were sent, responses tell their
//! length.
use crate::http::{reason, response_text};
use crate::laws::text::{law_numbers_read_back, lemma_encoding_lacks};
use crate::reader::{
    ascii_lower, body_len, content_length, head_end, head_mark, head_text, is_length_field,
    lemma_find_from_stays, message_len, next_step, request_in, HttpRequestView, ReadStep,
};
use crate::text::{
    after, before, decimal, find_from, first_space, first_word, index_of, is_digit, is_white_space,
    lemma_index_of, lines_of, pieces, trim_end, trim_start, trimmed, unsigned_size, without_return,
};
use vstd::prelude::*;
use vstd::utf8::{
    encode_utf8, encode_utf8_decode_utf8, encode_utf8_valid_utf8, is_ascii_chars,
    is_ascii_chars_encode_utf8,
};

verus! {

/// The first line of a request.
pub open spec fn request_line(method: Seq<char>, path: Seq<char>) -> Seq<char> {
    method + " "@ + path + " HTTP/1.1"@
}

/// The line that announces a body of `len` bytes.
pub open spec fn length_line(len: nat) -> Seq<char> {
    "Content-Length: "@ + decimal(len)
}

/// A request with a body as a client sends it.
pub open spec fn sent(method: Seq<char>, path: Seq<char>, body: Seq<char>) -> Seq<u8> {
    encode_utf8(
        request_line(method, path) + "\r\n"@ + length_line(encode_utf8(body).len()) + "\r\n"@
            + "\r\n"@,
    ) + encode_utf8(body)
}

/// A text with something in it and no white space.
pub open spec fn is_word(text: Seq<char>) -> bool {
    text.len() > 0 && forall|i: int| 0 <= i < text.len() ==> !is_white_space(#[trigger] text[i])
}

pub(crate) proof fn lemma_encode_join(front: Seq<char>, back: Seq<char>)
    ensures
        encode_utf8(front + back) == encode_utf8(front) + encode_utf8(back),
    decreases front.len(),
{
    if front.len() == 0 {
        assert(front + back =~= back);
        assert(encode_utf8(front) + encode_utf8(back) =~= encode_utf8(back));
    } else {
        lemma_encode_join(front.drop_first(), back);
        assert((front + back).drop_first() =~= front.drop_first() + back);
        assert(encode_utf8(front + back) =~= encode_utf8(front) + encode_utf8(back));
    }
}

/// A text that starts with an ASCII character starts with its byte.
pub(crate) proof fn lemma_first_byte(text: Seq<char>)
    requires
        text.len() > 0,
        '\0' <= text[0] <= '\u{7f}',
    ensures
        encode_utf8(text).len() > 0,
        encode_utf8(text)[0] == text[0] as u8,
{
    let one = seq![text[0]];
    assert(is_ascii_chars(one));
    is_ascii_chars_encode_utf8(one);
    lemma_encode_join(one, text.drop_first());
    assert(one + text.drop_first() =~= text);
    assert(encode_utf8(one)[0] == one[0] as u8);
}

pub(crate) proof fn lemma_return_and_feed()
    ensures
        "\r\n"@ == seq!['\r', '\n'],
        encode_utf8("\r\n"@) == seq![13u8, 10u8],
{
    reveal_strlit("\r\n");
    assert("\r\n"@ =~= seq!['\r', '\n']);
    assert(is_ascii_chars("\r\n"@));
    is_ascii_chars_encode_utf8("\r\n"@);
    assert(encode_utf8("\r\n"@) =~= seq![13u8, 10u8]);
}

/// Searching behind a front is searching in what follows it.
proof fn lemma_find_behind<T>(front: Seq<T>, back: Seq<T>, part: Seq<T>, from: int)
    requires
        0 <= from,
    ensures
        find_from(front + back, part, front.len() + from) == match find_from(back, part, from) {
            Some(at) => Some(front.len() + at),
            None => None,
        },
    decreases back.len() + 1 - from,
{
    let whole = front + back;
    if from + part.len() <= back.len() {
        assert(whole.subrange(front.len() + from, front.len() + from + part.len())
            =~= back.subrange(from, from + part.len()));
        if back.subrange(from, from + part.len()) != part {
            lemma_find_behind(front, back, part, from + 1);
        }
    }
}

/// An empty line: two line ends, one after the other.
pub open spec fn two_ends<T>(r: T, n: T) -> Seq<T> {
    seq![r, n, r, n]
}

/// There is no empty line before the end of a line that another line follows.
pub(crate) proof fn lemma_find_past_line<T>(line: Seq<T>, rest: Seq<T>, r: T, n: T, from: int)
    requires
        r != n,
        !line.contains(r),
        rest.len() > 0,
        rest[0] != r,
        0 <= from <= line.len() + 2,
        find_from(rest, two_ends(r, n), 0) is Some,
    ensures
        find_from(line + seq![r, n] + rest, two_ends(r, n), from) == Some(
            line.len() + 2 + find_from(rest, two_ends(r, n), 0)->0,
        ),
    decreases line.len() + 2 - from,
{
    let whole = line + seq![r, n] + rest;
    let mark = two_ends(r, n);
    lemma_find_from_stays(rest, mark, 0, seq![]);
    if from == line.len() + 2 {
        lemma_find_behind(line + seq![r, n], rest, mark, 0);
    } else {
        let here = whole.subrange(from, from + 4);
        assert(here != mark) by {
            if from < line.len() {
                assert(here[0] == line[from]);
            } else if from == line.len() {
                assert(here[2] == rest[0]);
            } else {
                assert(here[0] == n);
            }
            assert(mark[0] == r && mark[2] == r);
        }
        lemma_find_past_line(line, rest, r, n, from + 1);
    }
}

/// The empty line behind the last line.
pub(crate) proof fn lemma_find_last_end<T>(line: Seq<T>, rest: Seq<T>, r: T, n: T, from: int)
    requires
        !line.contains(r),
        0 <= from <= line.len(),
    ensures
        find_from(line + two_ends(r, n) + rest, two_ends(r, n), from) == Some(line.len() as int),
    decreases line.len() - from,
{
    let whole = line + two_ends(r, n) + rest;
    let here = whole.subrange(from, from + 4);
    if from == line.len() {
        assert(here =~= two_ends(r, n));
    } else {
        assert(here[0] == line[from]);
        assert(two_ends(r, n)[0] == r);
        lemma_find_last_end(line, rest, r, n, from + 1);
    }
}

pub(crate) proof fn lemma_index_at(text: Seq<char>, c: char, at: int)
    requires
        0 <= at < text.len(),
        text[at] == c,
        forall|i: int| 0 <= i < at ==> text[i] != c,
    ensures
        index_of(text, c) == at,
{
    lemma_index_of(text, c);
    let found = index_of(text, c);
    if found < at {
        assert(text[found] != c);
    }
}

pub(crate) proof fn lemma_first_piece(front: Seq<char>, back: Seq<char>, c: char)
    requires
        !front.contains(c),
    ensures
        pieces(front + seq![c] + back, c) == seq![front] + pieces(back, c),
{
    let text = front + seq![c] + back;
    assert forall|i: int| 0 <= i < front.len() implies text[i] != c by {
        assert(text[i] == front[i]);
    }
    lemma_index_at(text, c, front.len() as int);
    assert(text.take(front.len() as int) =~= front);
    assert(text.skip(1 + front.len() as int) =~= back);
}

/// The first line of a text, and the lines of what follows it.
pub(crate) proof fn lemma_first_line(line: Seq<char>, rest: Seq<char>)
    requires
        !line.contains('\n'),
    ensures
        lines_of(line + "\r\n"@ + rest) == seq![line] + lines_of(rest),
{
    lemma_return_and_feed();
    let text = line + "\r\n"@ + rest;
    let first = line.push('\r');
    assert(text =~= first + seq!['\n'] + rest);
    assert(!first.contains('\n')) by {
        assert forall|i: int| 0 <= i < first.len() implies first[i] != '\n' by {
            if i < line.len() {
                assert(first[i] == line[i]);
            }
        }
    }
    lemma_first_piece(first, rest, '\n');
    let parts = pieces(text, '\n');
    let more = pieces(rest, '\n');
    assert(more.len() > 0);
    let strip = |line: Seq<char>| without_return(line);
    assert(parts.drop_last() =~= seq![first] + more.drop_last());
    assert(without_return(first) =~= line);
    assert(parts.drop_last().map_values(strip) =~= seq![line] + more.drop_last().map_values(strip));
    assert(parts.last() == more.last());
    assert(lines_of(text) =~= seq![line] + lines_of(rest));
}

/// A first line that announces no length leaves it to the others.
proof fn lemma_length_comes_later(line: Seq<char>, rest: Seq<char>)
    requires
        !line.contains('\n'),
        !is_length_field(line),
    ensures
        content_length(line + "\r\n"@ + rest) == content_length(rest),
{
    lemma_first_line(line, rest);
    let all = lines_of(line + "\r\n"@ + rest);
    assert(all[0] == line);
    assert(all.skip(1) =~= lines_of(rest));
}

/// A first line that announces the length decides.
proof fn lemma_length_comes_first(len: nat, rest: Seq<char>)
    requires
        len <= usize::MAX,
    ensures
        content_length(length_line(len) + "\r\n"@ + rest) == Some(len as usize),
{
    let line = length_line(len);
    lemma_length_line(len);
    lemma_length_line_lacks(len, '\n');
    lemma_first_line(line, rest);
    assert(lines_of(line + "\r\n"@ + rest)[0] == line);
}

pub(crate) proof fn lemma_joined_lack(front: Seq<char>, back: Seq<char>, c: char)
    requires
        !front.contains(c),
        !back.contains(c),
    ensures
        !(front + back).contains(c),
{
    let all = front + back;
    if all.contains(c) {
        let i = choose|i: int| 0 <= i < all.len() && all[i] == c;
        if i < front.len() {
            assert(front[i] == c);
        } else {
            assert(back[i - front.len()] == c);
        }
    }
}

pub(crate) proof fn lemma_digits_lack(n: nat, c: char)
    requires
        !is_digit(c),
    ensures
        !decimal(n).contains(c),
{
    law_numbers_read_back(n);
    if decimal(n).contains(c) {
        let i = choose|i: int| 0 <= i < decimal(n).len() && decimal(n)[i] == c;
        assert(is_digit(decimal(n)[i]));
    }
}

proof fn lemma_length_line_lacks(len: nat, c: char)
    requires
        c == '\r' || c == '\n',
    ensures
        !length_line(len).contains(c),
{
    let start = "Content-Length: "@;
    reveal_strlit("Content-Length: ");
    assert(!start.contains(c)) by {
        assert forall|i: int| 0 <= i < start.len() implies start[i] != c by {
            assert(i == 0 || i == 1 || i == 2 || i == 3 || i == 4 || i == 5 || i == 6 || i == 7 || i == 8 || i == 9 || i == 10 || i == 11 || i == 12 || i == 13 || i == 14 || i == 15);
        }
    }
    lemma_digits_lack(len, c);
    lemma_joined_lack(start, decimal(len), c);
}

pub(crate) proof fn lemma_first_space_at(text: Seq<char>, at: int)
    requires
        0 <= at < text.len(),
        is_white_space(text[at]),
        forall|i: int| 0 <= i < at ==> !is_white_space(#[trigger] text[i]),
    ensures
        first_space(text) == at,
    decreases at,
{
    if at > 0 {
        assert(!is_white_space(text[0]));
        let tail = text.skip(1);
        assert forall|i: int| 0 <= i < at - 1 implies !is_white_space(#[trigger] tail[i]) by {
            assert(tail[i] == text[i + 1]);
        }
        lemma_first_space_at(tail, at - 1);
    }
}

pub(crate) proof fn lemma_word_comes_first(word: Seq<char>, rest: Seq<char>)
    requires
        is_word(word),
        rest.len() > 0,
        is_white_space(rest[0]),
    ensures
        first_word(word + rest) == (word, rest),
{
    let text = word + rest;
    assert(text[0] == word[0]);
    assert(!is_white_space(word[0]));
    assert forall|i: int| 0 <= i < word.len() implies !is_white_space(#[trigger] text[i]) by {
        assert(text[i] == word[i]);
    }
    lemma_first_space_at(text, word.len() as int);
    assert(text.take(word.len() as int) =~= word);
    assert(text.skip(word.len() as int) =~= rest);
}

proof fn lemma_request_line(method: Seq<char>, path: Seq<char>)
    requires
        is_word(method),
        is_word(path),
    ensures
        first_word(request_line(method, path)).0 == method,
        first_word(first_word(request_line(method, path)).1).0 == path,
{
    reveal_strlit(" ");
    reveal_strlit(" HTTP/1.1");
    let end = " HTTP/1.1"@;
    let rest = " "@ + path + end;
    assert(request_line(method, path) =~= method + rest);
    lemma_word_comes_first(method, rest);
    assert(rest.skip(1) =~= path + end);
    assert((path + end)[0] == path[0]);
    assert(!is_white_space(path[0]));
    assert(trim_start(path + end) == path + end);
    assert(rest[0] == ' ');
    assert(trim_start(rest) == trim_start(path + end));
    lemma_word_comes_first(path, end);
}

/// The line that announces the length is read back.
proof fn lemma_length_line(len: nat)
    requires
        len <= usize::MAX,
    ensures
        is_length_field(length_line(len)),
        unsigned_size(trimmed(after(length_line(len), ':')->0)) == Some(len as usize),
{
    let line = length_line(len);
    let digits = decimal(len);
    reveal_strlit("Content-Length: ");
    reveal_strlit("content-length");
    law_numbers_read_back(len);
    assert forall|i: int| 0 <= i < 14 implies line[i] != ':' by {
        assert(i == 0 || i == 1 || i == 2 || i == 3 || i == 4 || i == 5 || i == 6 || i == 7 || i
            == 8 || i == 9 || i == 10 || i == 11 || i == 12 || i == 13);
    }
    lemma_index_at(line, ':', 14);
    let name = before(line, ':');
    assert forall|i: int| 0 <= i < name.len() implies ascii_lower(#[trigger] name[i])
        == ascii_lower("content-length"@[i]) by {
        assert(name[i] == line[i]);
        assert(i == 0 || i == 1 || i == 2 || i == 3 || i == 4 || i == 5 || i == 6 || i == 7 || i
            == 8 || i == 9 || i == 10 || i == 11 || i == 12 || i == 13);
    }
    let value = after(line, ':')->0;
    assert(value =~= seq![' '] + digits);
    assert(value.skip(1) =~= digits);
    assert(is_digit(digits[0]) && is_digit(digits[digits.len() - 1]));
    assert(trim_start(digits) == digits);
    assert(trim_start(value) == digits);
    assert(trim_end(digits) == digits);
}

/// The first line announces no length unless the method looks like it.
proof fn lemma_no_length_in_request_line(method: Seq<char>, path: Seq<char>)
    requires
        !is_length_field(method),
    ensures
        !is_length_field(request_line(method, path)),
{
    let line = request_line(method, path);
    reveal_strlit(" ");
    reveal_strlit("content-length");
    lemma_index_of(line, ':');
    lemma_index_of(method, ':');
    let at = index_of(line, ':');
    if is_length_field(line) {
        let name = before(line, ':');
        if at < method.len() {
            assert(line[at] == method[at]);
            assert forall|i: int| 0 <= i < at implies method[i] != ':' by {
                assert(line[i] == method[i]);
            }
            lemma_index_at(method, ':', at);
            assert(before(method, ':') =~= name);
            assert(false);
        } else {
            let k = method.len() as int;
            assert(line[k] == ' ');
            if k < at {
                assert(name[k] == ' ');
                assert(ascii_lower(name[k]) == ascii_lower("content-length"@[k]));
                assert(k == 0 || k == 1 || k == 2 || k == 3 || k == 4 || k == 5 || k == 6 || k
                    == 7 || k == 8 || k == 9 || k == 10 || k == 11 || k == 12 || k == 13);
            }
            assert(false);
        }
    }
}

pub(crate) proof fn lemma_word_lacks(word: Seq<char>, c: char)
    requires
        is_word(word),
        is_white_space(c),
    ensures
        !word.contains(c),
{
    if word.contains(c) {
        let i = choose|i: int| 0 <= i < word.len() && word[i] == c;
        assert(!is_white_space(word[i]));
    }
}

/// The first line of a request holds no line end.
proof fn lemma_request_line_lacks(method: Seq<char>, path: Seq<char>, c: char)
    requires
        is_word(method),
        is_word(path),
        c == '\r' || c == '\n',
    ensures
        !request_line(method, path).contains(c),
{
    reveal_strlit(" ");
    reveal_strlit(" HTTP/1.1");
    lemma_word_lacks(method, c);
    lemma_word_lacks(path, c);
    let end = " HTTP/1.1"@;
    assert(!" "@.contains(c)) by {
        assert forall|i: int| 0 <= i < " "@.len() implies " "@[i] != c by {}
    }
    assert(!end.contains(c)) by {
        assert forall|i: int| 0 <= i < end.len() implies end[i] != c by {
            assert(i == 0 || i == 1 || i == 2 || i == 3 || i == 4 || i == 5 || i == 6 || i == 7 || i == 8);
        }
    }
    lemma_joined_lack(method, " "@, c);
    lemma_joined_lack(method + " "@, path, c);
    lemma_joined_lack(method + " "@ + path, end, c);
}

/// A request is read as it was sent: the method and the path, each a word, and
/// the body, whatever it holds. Reading stops with its last byte. A method that
/// looks like the announcement of a length is left out: it would be taken for
/// one.
pub proof fn law_sent_requests_are_read(method: Seq<char>, path: Seq<char>, body: Seq<char>)
    requires
        is_word(method),
        is_word(path),
        !is_length_field(method),
        sent(method, path, body).len() <= usize::MAX,
    ensures
        request_in(sent(method, path, body)) == Some(HttpRequestView { method, path, body }),
        message_len(sent(method, path, body)) == Some(sent(method, path, body).len() as int),
        next_step(sent(method, path, body)) == ReadStep::Stop,
{
    let content = encode_utf8(body);
    let one = request_line(method, path);
    let two = length_line(content.len());
    let mark = "\r\n"@;
    let head = one + mark + two + mark + mark;
    let data = sent(method, path, body);
    let bytes = encode_utf8(head);

    lemma_return_and_feed();
    lemma_encode_join(one + mark + two + mark, mark);
    lemma_encode_join(one + mark + two, mark);
    lemma_encode_join(one + mark, two);
    lemma_encode_join(one, mark);
    lemma_request_line_lacks(method, path, '\r');
    lemma_request_line_lacks(method, path, '\n');
    lemma_length_line_lacks(content.len(), '\r');
    lemma_encoding_lacks(one, '\r');
    lemma_encoding_lacks(two, '\r');
    let b1 = encode_utf8(one);
    let b2 = encode_utf8(two);
    assert(bytes == b1 + seq![13u8, 10u8] + b2 + seq![13u8, 10u8] + seq![13u8, 10u8]);
    reveal_strlit("Content-Length: ");
    assert(two[0] == 'C');
    lemma_first_byte(two);
    let behind = b2 + two_ends(13u8, 10u8) + content;
    lemma_find_last_end(b2, content, 13u8, 10u8, 0);
    assert(behind[0] == b2[0]);
    lemma_find_past_line(b1, behind, 13u8, 10u8, 0);
    assert(data =~= b1 + seq![13u8, 10u8] + behind);
    assert(head_mark() =~= two_ends(13u8, 10u8));
    let end = bytes.len() as int;
    assert(head_end(data) == Some(end));
    assert(data.take(end) =~= bytes);
    encode_utf8_valid_utf8(head);
    encode_utf8_decode_utf8(head);
    assert(head_text(data, end) == head);

    assert(content.len() <= usize::MAX);
    let tail = two + mark + mark;
    assert(head =~= one + mark + tail);
    lemma_no_length_in_request_line(method, path);
    lemma_length_comes_later(one, tail);
    lemma_length_comes_first(content.len(), mark);
    assert(body_len(head) == content.len());
    lemma_first_line(one, tail);
    assert(lines_of(head)[0] == one);
    lemma_request_line(method, path);
    assert(data.subrange(end, data.len() as int) =~= content);
    encode_utf8_valid_utf8(body);
    encode_utf8_decode_utf8(body);
}

/// The first line of a response.
spec fn status_line(status: u16) -> Seq<char> {
    "HTTP/1.1 "@ + decimal(status as nat) + " "@ + reason(status)
}

proof fn lemma_status_line_lacks(status: u16, c: char)
    requires
        c == '\r' || c == '\n' || c == ':',
    ensures
        !status_line(status).contains(c),
{
    reveal_strlit("HTTP/1.1 ");
    reveal_strlit(" ");
    reveal_strlit("OK");
    reveal_strlit("Accepted");
    reveal_strlit("Bad Request");
    reveal_strlit("Not Found");
    reveal_strlit("Conflict");
    reveal_strlit("Internal Server Error");
    let start = "HTTP/1.1 "@;
    assert(!start.contains(c)) by {
        assert forall|i: int| 0 <= i < start.len() implies start[i] != c by {
            assert(i == 0 || i == 1 || i == 2 || i == 3 || i == 4 || i == 5 || i == 6 || i == 7 || i == 8);
        }
    }
    assert(!" "@.contains(c)) by {
        assert forall|i: int| 0 <= i < " "@.len() implies " "@[i] != c by {}
    }
    let words = reason(status);
    assert(!words.contains(c)) by {
        assert forall|i: int| 0 <= i < words.len() implies words[i] != c by {
            assert(i == 0 || i == 1 || i == 2 || i == 3 || i == 4 || i == 5 || i == 6 || i == 7 || i == 8 || i == 9 || i == 10 || i == 11 || i == 12 || i == 13 || i == 14 || i == 15 || i == 16 || i == 17 || i == 18 || i == 19 || i == 20);
        }
    }
    lemma_digits_lack(status as nat, c);
    lemma_joined_lack(start, decimal(status as nat), c);
    lemma_joined_lack(start + decimal(status as nat), " "@, c);
    lemma_joined_lack(start + decimal(status as nat) + " "@, words, c);
}

/// The lines of a response.
proof fn lemma_response_lines(status: u16, body: Seq<char>)
    ensures
        response_text(status, body) == status_line(status) + "\r\n"@ + (
        "Content-Type: application/json"@ + "\r\n"@ + (length_line(encode_utf8(body).len())
            + "\r\n"@ + ("Connection: close"@ + ("\r\n"@ + "\r\n"@) + body))),
{
    reveal_strlit("\r\n");
    reveal_strlit("Content-Type: application/json");
    reveal_strlit("Content-Length: ");
    reveal_strlit("Connection: close");
    reveal_strlit("\r\nContent-Type: application/json\r\nContent-Length: ");
    reveal_strlit("\r\nConnection: close\r\n\r\n");
    let digits = decimal(encode_utf8(body).len());
    let middle = "\r\nContent-Type: application/json\r\nContent-Length: "@;
    let last = "\r\nConnection: close\r\n\r\n"@;
    assert(middle =~= "\r\n"@ + "Content-Type: application/json"@ + "\r\n"@
        + "Content-Length: "@);
    assert(last =~= "\r\n"@ + "Connection: close"@ + "\r\n"@ + "\r\n"@);
    assert(response_text(status, body) == status_line(status) + middle + digits + last + body);
    assert(response_text(status, body) =~= status_line(status) + "\r\n"@ + (
    "Content-Type: application/json"@ + "\r\n"@ + (length_line(encode_utf8(body).len())
        + "\r\n"@ + ("Connection: close"@ + ("\r\n"@ + "\r\n"@) + body))));
}

proof fn lemma_fixed_lines_lack(c: char)
    requires
        c == '\r' || c == '\n',
    ensures
        !"Content-Type: application/json"@.contains(c),
        !"Connection: close"@.contains(c),
        !is_length_field("Content-Type: application/json"@),
{
    let one = "Content-Type: application/json"@;
    let two = "Connection: close"@;
    reveal_strlit("Content-Type: application/json");
    reveal_strlit("Connection: close");
    reveal_strlit("content-length");
    assert forall|i: int| 0 <= i < one.len() implies one[i] != c by {
        assert(i == 0 || i == 1 || i == 2 || i == 3 || i == 4 || i == 5 || i == 6 || i == 7 || i == 8 || i == 9 || i == 10 || i == 11 || i == 12 || i == 13 || i == 14 || i == 15 || i == 16 || i == 17 || i == 18 || i == 19 || i == 20 || i == 21 || i == 22 || i == 23 || i == 24 || i == 25 || i == 26 || i == 27 || i == 28 || i == 29);
    }
    assert forall|i: int| 0 <= i < two.len() implies two[i] != c by {
        assert(i == 0 || i == 1 || i == 2 || i == 3 || i == 4 || i == 5 || i == 6 || i == 7 || i == 8 || i == 9 || i == 10 || i == 11 || i == 12 || i == 13 || i == 14 || i == 15 || i == 16);
    }
    assert forall|i: int| 0 <= i < 12 implies one[i] != ':' by {
        assert(i == 0 || i == 1 || i == 2 || i == 3 || i == 4 || i == 5 || i == 6 || i == 7 || i == 8 || i == 9 || i == 10 || i == 11);
    }
    lemma_index_at(one, ':', 12);
}

/// The length of a response, from its third line.
proof fn lemma_response_length(status: u16, body: Seq<char>)
    requires
        encode_utf8(body).len() <= usize::MAX,
    ensures
        content_length(response_text(status, body)) == Some(encode_utf8(body).len() as usize),
{
    let mark = "\r\n"@;
    let len = encode_utf8(body).len();
    let one = status_line(status);
    let two = "Content-Type: application/json"@;
    let after_three = "Connection: close"@ + (mark + mark) + body;
    let after_two = length_line(len) + mark + after_three;
    let after_one = two + mark + after_two;
    lemma_response_lines(status, body);
    lemma_status_line_lacks(status, '\n');
    lemma_status_line_lacks(status, ':');
    lemma_fixed_lines_lack('\n');
    assert(!is_length_field(one)) by {
        lemma_index_of(one, ':');
        if index_of(one, ':') < one.len() {
            assert(one.contains(one[index_of(one, ':')]));
        }
    }
    lemma_length_comes_later(one, after_one);
    lemma_length_comes_later(two, after_two);
    lemma_length_comes_first(len, after_three);
}

/// Four lines, each non-empty and without `r`, and what follows the empty line
/// behind them.
proof fn lemma_four_lines<T>(
    one: Seq<T>,
    two: Seq<T>,
    three: Seq<T>,
    four: Seq<T>,
    rest: Seq<T>,
    r: T,
    n: T,
)
    requires
        r != n,
        !one.contains(r),
        !two.contains(r),
        !three.contains(r),
        !four.contains(r),
        two.len() > 0,
        three.len() > 0,
        four.len() > 0,
    ensures
        ({
            let whole = one + seq![r, n] + (two + seq![r, n] + (three + seq![r, n] + (four
                + two_ends(r, n) + rest)));
            let at = find_from(whole, two_ends(r, n), 0);
            at is Some && whole.skip(at->0 + 4) == rest
        }),
{
    let after_three = four + two_ends(r, n) + rest;
    let after_two = three + seq![r, n] + after_three;
    let after_one = two + seq![r, n] + after_two;
    let whole = one + seq![r, n] + after_one;
    assert(four.contains(four[0]) && three.contains(three[0]) && two.contains(two[0]));
    lemma_find_last_end(four, rest, r, n, 0);
    assert(after_three[0] == four[0]);
    lemma_find_past_line(three, after_three, r, n, 0);
    assert(after_two[0] == three[0]);
    lemma_find_past_line(two, after_two, r, n, 0);
    assert(after_one[0] == two[0]);
    lemma_find_past_line(one, after_one, r, n, 0);
    let at = find_from(whole, two_ends(r, n), 0)->0;
    assert(at == one.len() + 2 + two.len() + 2 + three.len() + 2 + four.len());
    assert(whole.skip(at + 4) =~= rest);
}

proof fn lemma_response_bytes(status: u16, body: Seq<char>)
    ensures
        ({
            let ends = seq![13u8, 10u8];
            encode_utf8(response_text(status, body)) == encode_utf8(status_line(status)) + ends + (
            encode_utf8("Content-Type: application/json"@) + ends + (encode_utf8(
                length_line(encode_utf8(body).len()),
            ) + ends + (encode_utf8("Connection: close"@) + two_ends(13u8, 10u8) + encode_utf8(
                body,
            ))))
        }),
{
    let mark = "\r\n"@;
    let one = status_line(status);
    let two = "Content-Type: application/json"@;
    let three = length_line(encode_utf8(body).len());
    let four = "Connection: close"@;
    let after_three = four + (mark + mark) + body;
    let after_two = three + mark + after_three;
    let after_one = two + mark + after_two;
    lemma_response_lines(status, body);
    lemma_return_and_feed();
    lemma_encode_join(one + mark, after_one);
    lemma_encode_join(one, mark);
    lemma_encode_join(two + mark, after_two);
    lemma_encode_join(two, mark);
    lemma_encode_join(three + mark, after_three);
    lemma_encode_join(three, mark);
    lemma_encode_join(four + (mark + mark), body);
    lemma_encode_join(four, mark + mark);
    lemma_encode_join(mark, mark);
    assert(seq![13u8, 10u8] + seq![13u8, 10u8] =~= two_ends(13u8, 10u8));
}

/// A response gives the length of its own body, whatever the body holds, and the
/// body follows its first empty line, in text and in bytes.
pub proof fn law_responses_give_their_length(status: u16, body: Seq<char>)
    requires
        encode_utf8(body).len() <= usize::MAX,
    ensures
        content_length(response_text(status, body)) == Some(encode_utf8(body).len() as usize),
        ({
            let text = response_text(status, body);
            let at = find_from(text, "\r\n"@ + "\r\n"@, 0);
            at is Some && text.skip(at->0 + 4) == body
        }),
        ({
            let data = encode_utf8(response_text(status, body));
            head_end(data) is Some && data.skip(head_end(data)->0) == encode_utf8(body)
        }),
{
    let one = status_line(status);
    let two = "Content-Type: application/json"@;
    let three = length_line(encode_utf8(body).len());
    let four = "Connection: close"@;
    lemma_response_length(status, body);
    lemma_response_lines(status, body);
    lemma_response_bytes(status, body);
    lemma_status_line_lacks(status, '\r');
    lemma_fixed_lines_lack('\r');
    lemma_length_line_lacks(encode_utf8(body).len(), '\r');
    lemma_return_and_feed();
    reveal_strlit("Content-Type: application/json");
    reveal_strlit("Content-Length: ");
    reveal_strlit("Connection: close");
    assert("\r\n"@ + "\r\n"@ =~= two_ends('\r', '\n'));
    lemma_four_lines(one, two, three, four, body, '\r', '\n');
    lemma_encoding_lacks(one, '\r');
    lemma_encoding_lacks(two, '\r');
    lemma_encoding_lacks(three, '\r');
    lemma_encoding_lacks(four, '\r');
    lemma_first_byte(two);
    lemma_first_byte(three);
    lemma_first_byte(four);
    lemma_four_lines(
        encode_utf8(one),
        encode_utf8(two),
        encode_utf8(three),
        encode_utf8(four),
        encode_utf8(body),
        13u8,
        10u8,
    );
    assert(head_mark() =~= two_ends(13u8, 10u8));
}

/// The lines of a response: the version, the status and the words that go with
/// it; that the body is JSON; its length; that the connection ends.
pub proof fn law_lines_of_a_response(status: u16, body: Seq<char>)
    ensures
        ({
            let lines = lines_of(response_text(status, body));
            &&& lines.len() >= 5
            &&& lines[0] == "HTTP/1.1 "@ + decimal(status as nat) + " "@ + reason(status)
            &&& lines[1] == "Content-Type: application/json"@
            &&& lines[2] == "Content-Length: "@ + decimal(encode_utf8(body).len())
            &&& lines[3] == "Connection: close"@
            &&& lines[4] == Seq::<char>::empty()
        }),
        status == 200 ==> reason(status) == "OK"@,
        status == 202 ==> reason(status) == "Accepted"@,
        status == 400 ==> reason(status) == "Bad Request"@,
        status == 404 ==> reason(status) == "Not Found"@,
        status == 409 ==> reason(status) == "Conflict"@,
        status != 200 && status != 202 && status != 400 && status != 404 && status != 409
            ==> reason(status) == "Internal Server Error"@,
{
    let mark = "\r\n"@;
    let len = encode_utf8(body).len();
    let one = status_line(status);
    let two = "Content-Type: application/json"@;
    let three = length_line(len);
    let four = "Connection: close"@;
    let empty = Seq::<char>::empty();
    let after_three = four + (mark + mark) + body;
    let after_two = three + mark + after_three;
    let after_one = two + mark + after_two;
    lemma_response_lines(status, body);
    lemma_status_line_lacks(status, '\n');
    lemma_fixed_lines_lack('\n');
    lemma_length_line_lacks(len, '\n');
    lemma_first_line(one, after_one);
    lemma_first_line(two, after_two);
    lemma_first_line(three, after_three);
    assert(after_three =~= four + mark + (mark + body));
    lemma_first_line(four, mark + body);
    assert(mark + body =~= empty + mark + body);
    lemma_first_line(empty, body);
}

} // verus!
