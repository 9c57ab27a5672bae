//! Heads of requests: whatever lines follow, the first one names method and path.
use crate::laws::text::lemma_encoding_lacks;
use crate::laws::wire::{
    is_word, lemma_encode_join, lemma_find_last_end, lemma_find_past_line, lemma_first_line,
    lemma_index_at, lemma_return_and_feed, lemma_word_comes_first, two_ends,
};
use crate::reader::{
    ascii_lower, content_length, first_length, head_end, head_mark, head_text, is_length_field,
    message_len, next_step, request_in, ReadStep,
};
use crate::text::{
    after, before, first_space, first_word, index_of, is_white_space, lemma_index_of, lines_of,
    pieces, readable, trim_start, trimmed, unsigned_size,
};
use vstd::prelude::*;
use vstd::utf8::{
    decode_utf8, encode_scalar, encode_utf8, encode_utf8_decode_utf8, encode_utf8_valid_utf8,
    valid_utf8,
};

verus! {

/// Lines of a head, each with its end, and the empty line behind them.
pub open spec fn head_of(lines: Seq<Seq<char>>) -> Seq<char>
    decreases lines.len(),
{
    if lines.len() == 0 {
        "\r\n"@
    } else {
        lines[0] + "\r\n"@ + head_of(lines.skip(1))
    }
}

/// A line with something in it and no line end.
pub open spec fn is_line(line: Seq<char>) -> bool {
    line.len() > 0 && !line.contains('\r') && !line.contains('\n')
}

/// All of `lines` are lines.
pub open spec fn are_lines(lines: Seq<Seq<char>>) -> bool {
    forall|i: int| 0 <= i < lines.len() ==> is_line(#[trigger] lines[i])
}

proof fn lemma_rest_are_lines(lines: Seq<Seq<char>>)
    requires
        are_lines(lines),
        lines.len() > 0,
    ensures
        is_line(lines[0]),
        are_lines(lines.skip(1)),
{
    assert(is_line(lines[0]));
    assert forall|i: int| 0 <= i < lines.skip(1).len() implies is_line(
        #[trigger] lines.skip(1)[i],
    ) by {
        assert(lines.skip(1)[i] == lines[i + 1]);
    }
}

proof fn lemma_line_bytes(line: Seq<char>)
    requires
        is_line(line),
    ensures
        encode_utf8(line).len() > 0,
        !encode_utf8(line).contains(13u8),
{
    lemma_encoding_lacks(line, '\r');
    assert(encode_utf8(line) == encode_scalar(line[0] as u32) + encode_utf8(line.drop_first()));
    vstd::utf8::char_is_scalar(line[0]);
    assert(encode_scalar(line[0] as u32).len() > 0);
}

/// The empty line behind some lines is found, and not before.
proof fn lemma_end_of_head(lines: Seq<Seq<char>>, content: Seq<u8>)
    requires
        lines.len() > 0,
        are_lines(lines),
    ensures
        find_end(encode_utf8(head_of(lines)) + content) == Some(
            encode_utf8(head_of(lines)).len() - 4,
        ),
        encode_utf8(head_of(lines)).len() > 4,
        encode_utf8(head_of(lines))[0] != 13u8,
    decreases lines.len(),
{
    let line = lines[0];
    let rest = lines.skip(1);
    let bytes = encode_utf8(line);
    let ends = seq![13u8, 10u8];
    lemma_rest_are_lines(lines);
    lemma_line_bytes(line);
    lemma_return_and_feed();
    lemma_encode_join(line + "\r\n"@, head_of(rest));
    lemma_encode_join(line, "\r\n"@);
    let all = encode_utf8(head_of(lines));
    assert(all == bytes + ends + encode_utf8(head_of(rest)));
    assert(all[0] == bytes[0]);
    assert(bytes.contains(bytes[0]));
    if rest.len() == 0 {
        assert(all + content =~= bytes + two_ends(13u8, 10u8) + content);
        lemma_find_last_end(bytes, content, 13u8, 10u8, 0);
    } else {
        lemma_end_of_head(rest, content);
        let behind = encode_utf8(head_of(rest)) + content;
        assert(behind[0] == encode_utf8(head_of(rest))[0]);
        assert(all + content =~= bytes + ends + behind);
        lemma_find_past_line(bytes, behind, 13u8, 10u8, 0);
    }
}

/// Where the empty line starts.
spec fn find_end(data: Seq<u8>) -> Option<int> {
    crate::text::find_from(data, two_ends(13u8, 10u8), 0)
}

proof fn lemma_lines_of_head(lines: Seq<Seq<char>>)
    requires
        are_lines(lines),
    ensures
        lines_of(head_of(lines)) == lines.push(seq![]),
    decreases lines.len(),
{
    let empty = Seq::<char>::empty();
    if lines.len() == 0 {
        lemma_first_line(empty, empty);
        assert(empty + "\r\n"@ + empty =~= "\r\n"@);
        lemma_index_of(empty, '\n');
        assert(pieces(empty, '\n') =~= seq![empty]);
        assert(lines_of(empty) =~= seq![]) by {
            assert(seq![empty].drop_last() =~= seq![]);
        }
        assert(seq![empty] + lines_of(empty) =~= lines.push(seq![]));
    } else {
        lemma_rest_are_lines(lines);
        lemma_lines_of_head(lines.skip(1));
        lemma_first_line(lines[0], head_of(lines.skip(1)));
        assert(seq![lines[0]] + lines.skip(1).push(seq![]) =~= lines.push(seq![]));
    }
}

/// The length that a head announces: that of the first of its lines that is a
/// length field, if it is a number; none without such a line.
pub proof fn law_announced_length(lines: Seq<Seq<char>>, i: int)
    requires
        are_lines(lines),
        0 <= i <= lines.len(),
        forall|j: int| 0 <= j < i ==> !is_length_field(#[trigger] lines[j]),
    ensures
        i < lines.len() && is_length_field(lines[i]) ==> content_length(head_of(lines))
            == unsigned_size(trimmed(after(lines[i], ':')->0)),
        i == lines.len() ==> content_length(head_of(lines)) is None,
{
    lemma_lines_of_head(lines);
    lemma_first_length(lines.push(seq![]), i);
    let all = lines.push(seq![]);
    if i == lines.len() {
        assert(all.skip(i) =~= seq![Seq::<char>::empty()]);
        lemma_index_of(Seq::<char>::empty(), ':');
        assert(seq![Seq::<char>::empty()].skip(1) =~= seq![]);
        assert(first_length(seq![Seq::<char>::empty()].skip(1)) is None);
    } else {
        assert(all.skip(i)[0] == lines[i]);
    }
}

proof fn lemma_first_length(lines: Seq<Seq<char>>, i: int)
    requires
        0 <= i <= lines.len(),
        forall|j: int| 0 <= j < i && j < lines.len() - 1 ==> !is_length_field(#[trigger] lines[j]),
        i <= lines.len() - 1,
    ensures
        first_length(lines) == first_length(lines.skip(i)),
    decreases i,
{
    if i == 0 {
        assert(lines.skip(0) =~= lines);
    } else {
        assert(!is_length_field(lines[0]));
        let rest = lines.skip(1);
        assert forall|j: int| 0 <= j < i - 1 && j < rest.len() - 1 implies !is_length_field(
            #[trigger] rest[j],
        ) by {
            assert(rest[j] == lines[j + 1]);
        }
        lemma_first_length(rest, i - 1);
        assert(rest.skip(i - 1) =~= lines.skip(i));
    }
}

/// A length field is a line that names the length in letters of either case,
/// followed by a colon.
pub proof fn law_length_fields(name: Seq<char>, value: Seq<char>)
    requires
        !name.contains(':'),
    ensures
        is_length_field(name + seq![':'] + value) <==> name.len() == 14 && forall|i: int|
            0 <= i < 14 ==> #[trigger] name[i] == "content-length"@[i] || name[i]
                == "CONTENT-LENGTH"@[i],
        after(name + seq![':'] + value, ':') == Some(value),
        !is_length_field(name),
{
    let line = name + seq![':'] + value;
    reveal_strlit("content-length");
    reveal_strlit("CONTENT-LENGTH");
    assert forall|i: int| 0 <= i < name.len() implies line[i] != ':' by {
        assert(line[i] == name[i]);
        assert(name.contains(name[i]));
    }
    lemma_index_at(line, ':', name.len() as int);
    assert(before(line, ':') =~= name);
    assert(line.skip(1 + name.len() as int) =~= value);
    let low = "content-length"@;
    let high = "CONTENT-LENGTH"@;
    if name.len() == 14 {
        assert forall|i: int| 0 <= i < 14 implies (ascii_lower(#[trigger] name[i]) == ascii_lower(
            low[i],
        ) <==> name[i] == low[i] || name[i] == high[i]) by {
            assert(i == 0 || i == 1 || i == 2 || i == 3 || i == 4 || i == 5 || i == 6 || i == 7 || i
                == 8 || i == 9 || i == 10 || i == 11 || i == 12 || i == 13);
        }
    }
    lemma_index_of(name, ':');
    if index_of(name, ':') < name.len() {
        assert(name.contains(name[index_of(name, ':')]));
    }
}

/// Every head is read the same way, whatever lines follow the first one and
/// whether or not they announce a length: the first word of the first line is
/// the method, the second one the path, and the body is as much of what follows
/// the head as is announced and there. Without an announced length it is empty.
pub proof fn law_every_head_is_read(
    method: Seq<char>,
    path: Seq<char>,
    version: Seq<char>,
    headers: Seq<Seq<char>>,
    content: Seq<u8>,
)
    requires
        is_word(method),
        is_word(path),
        !version.contains('\r'),
        !version.contains('\n'),
        are_lines(headers),
    ensures
        ({
            let line = method + seq![' '] + path + seq![' '] + version;
            let lines = seq![line] + headers;
            let data = encode_utf8(head_of(lines)) + content;
            let announced = match content_length(head_of(lines)) {
                Some(len) => len as int,
                None => 0,
            };
            let taken = if announced < content.len() {
                announced
            } else {
                content.len() as int
            };
            &&& request_in(data) is Some
            &&& request_in(data)->0.method == method
            &&& request_in(data)->0.path == path
            &&& request_in(data)->0.body == readable(content.take(taken))
            &&& (forall|i: int| 0 <= i < lines.len() ==> !is_length_field(#[trigger] lines[i]))
                ==> request_in(data)->0.body == Seq::<char>::empty()
            &&& message_len(data) == Some(encode_utf8(head_of(lines)).len() + announced)
        }),
{
    let line = method + seq![' '] + path + seq![' '] + version;
    let lines = seq![line] + headers;
    let head = head_of(lines);
    let bytes = encode_utf8(head);
    let data = bytes + content;
    assert(is_line(line)) by {
        lemma_word_line(method, path, version, '\r');
        lemma_word_line(method, path, version, '\n');
    }
    assert forall|i: int| 0 <= i < lines.len() implies is_line(#[trigger] lines[i]) by {
        if i > 0 {
            assert(lines[i] == headers[i - 1]);
        }
    }
    lemma_end_of_head(lines, content);
    assert(head_mark() =~= two_ends(13u8, 10u8));
    let end = bytes.len() as int;
    assert(head_end(data) == Some(end));
    assert(data.take(end) =~= bytes);
    encode_utf8_valid_utf8(head);
    encode_utf8_decode_utf8(head);
    assert(head_text(data, end) == head);
    lemma_lines_of_head(lines);
    assert(lines_of(head)[0] == line);

    let rest = seq![' '] + path + seq![' '] + version;
    assert(line =~= method + rest);
    lemma_word_comes_first(method, rest);
    let second = seq![' '] + version;
    assert(rest.skip(1) =~= path + second);
    lemma_word_comes_first(path, second);
    assert((path + second)[0] == path[0]);
    assert(!is_white_space(path[0]));
    assert(trim_start(path + second) == path + second);
    assert(trim_start(rest) == trim_start(path + second));

    let announced = match content_length(head) {
        Some(len) => len as int,
        None => 0,
    };
    let taken = if announced < content.len() {
        announced
    } else {
        content.len() as int
    };
    assert(data.subrange(end, end + taken) =~= content.take(taken));
    if forall|i: int| 0 <= i < lines.len() ==> !is_length_field(#[trigger] lines[i]) {
        law_announced_length(lines, lines.len() as int);
        assert(content.take(0) =~= Seq::<u8>::empty());
        assert(valid_utf8(Seq::<u8>::empty()));
        assert(decode_utf8(Seq::<u8>::empty()) =~= Seq::<char>::empty());
    }
}

proof fn lemma_word_line(method: Seq<char>, path: Seq<char>, version: Seq<char>, c: char)
    requires
        is_word(method),
        is_word(path),
        !version.contains(c),
        c == '\r' || c == '\n',
    ensures
        !(method + seq![' '] + path + seq![' '] + version).contains(c),
{
    crate::laws::wire::lemma_word_lacks(method, c);
    crate::laws::wire::lemma_word_lacks(path, c);
    let space = seq![' '];
    assert(!space.contains(c));
    crate::laws::wire::lemma_joined_lack(method, space, c);
    crate::laws::wire::lemma_joined_lack(method + space, path, c);
    crate::laws::wire::lemma_joined_lack(method + space + path, space, c);
    crate::laws::wire::lemma_joined_lack(method + space + path + space, version, c);
}

/// A first line with one word alone names the method, and the path is the root.
pub proof fn law_a_method_alone(method: Seq<char>, headers: Seq<Seq<char>>, content: Seq<u8>)
    requires
        is_word(method),
        are_lines(headers),
    ensures
        ({
            let data = encode_utf8(head_of(seq![method] + headers)) + content;
            &&& request_in(data) is Some
            &&& request_in(data)->0.method == method
            &&& request_in(data)->0.path == "/"@
        }),
{
    let lines = seq![method] + headers;
    let head = head_of(lines);
    let bytes = encode_utf8(head);
    let data = bytes + content;
    crate::laws::wire::lemma_word_lacks(method, '\r');
    crate::laws::wire::lemma_word_lacks(method, '\n');
    assert forall|i: int| 0 <= i < lines.len() implies is_line(#[trigger] lines[i]) by {
        if i > 0 {
            assert(lines[i] == headers[i - 1]);
        }
    }
    lemma_end_of_head(lines, content);
    assert(head_mark() =~= two_ends(13u8, 10u8));
    let end = bytes.len() as int;
    assert(head_end(data) == Some(end));
    assert(data.take(end) =~= bytes);
    encode_utf8_valid_utf8(head);
    encode_utf8_decode_utf8(head);
    lemma_lines_of_head(lines);
    assert(lines_of(head)[0] == method);
    lemma_only_word(method);
}

proof fn lemma_only_word(word: Seq<char>)
    requires
        is_word(word),
    ensures
        first_word(word).0 == word,
        first_word(first_word(word).1).0.len() == 0,
{
    assert(!is_white_space(word[0]));
    lemma_no_space(word);
    assert(word.take(word.len() as int) =~= word);
    assert(word.skip(word.len() as int) =~= Seq::<char>::empty());
}

proof fn lemma_no_space(text: Seq<char>)
    requires
        forall|i: int| 0 <= i < text.len() ==> !is_white_space(#[trigger] text[i]),
    ensures
        first_space(text) == text.len(),
    decreases text.len(),
{
    if text.len() > 0 {
        assert(!is_white_space(text[0]));
        assert forall|i: int| 0 <= i < text.skip(1).len() implies !is_white_space(
            #[trigger] text.skip(1)[i],
        ) by {
            assert(text.skip(1)[i] == text[i + 1]);
        }
        lemma_no_space(text.skip(1));
    }
}

/// Reading stops exactly when the whole message is there or more than 65536 bytes
/// are, and overflows exactly when the announced message is longer than a number
/// can say.
pub proof fn law_when_reading_stops(data: Seq<u8>)
    ensures
        next_step(data) == ReadStep::Overflow <==> message_len(data) is Some && message_len(data)->0
            > usize::MAX,
        next_step(data) == ReadStep::Stop <==> (message_len(data) is None || message_len(data)->0
            <= usize::MAX) && (data.len() > 65536 || (message_len(data) is Some
            && message_len(data)->0 <= data.len())),
{
}

/// Without an empty line there is no request.
pub proof fn law_no_head_no_request(data: Seq<u8>)
    requires
        forall|i: int|
            0 <= i && i + 4 <= data.len() ==> #[trigger] data.subrange(i, i + 4) != seq![
                13u8,
                10u8,
                13u8,
                10u8,
            ],
    ensures
        request_in(data) is None,
        message_len(data) is None,
{
    lemma_not_found(data, 0);
}

proof fn lemma_not_found(data: Seq<u8>, from: int)
    requires
        0 <= from,
        forall|i: int|
            0 <= i && i + 4 <= data.len() ==> #[trigger] data.subrange(i, i + 4) != seq![
                13u8,
                10u8,
                13u8,
                10u8,
            ],
    ensures
        crate::text::find_from(data, head_mark(), from) is None,
    decreases data.len() + 1 - from,
{
    assert(head_mark() =~= seq![13u8, 10u8, 13u8, 10u8]);
    if from + 4 <= data.len() {
        assert(data.subrange(from, from + 4) != head_mark());
        lemma_not_found(data, from + 1);
    }
}

} // verus!
