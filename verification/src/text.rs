//! Text as sequences of characters: numbers, searching, splitting, trimming.
use vstd::prelude::*;
use vstd::slice::slice_subrange;

verus! {

/// `String::push` appends the character at the end.
pub assume_specification[ String::push ](text: &mut String, c: char)
    ensures
        final(text)@ == old(text)@.push(c),
;

/// The text that `String::from_utf8_lossy` makes of `bytes`.
pub uninterp spec fn utf8_lossy(bytes: Seq<u8>) -> Seq<char>;

/// `String::from_utf8_lossy`: bytes in UTF-8 become the text that they encode;
/// how other bytes are replaced is named and not described, but some bytes give
/// some text.
#[verifier::external_body]
fn from_utf8_lossy(bytes: &[u8]) -> (text: String)
    ensures
        text@ == utf8_lossy(bytes@),
        vstd::utf8::valid_utf8(bytes@) ==> text@ == vstd::utf8::decode_utf8(bytes@),
        bytes@.len() > 0 ==> text@.len() > 0,
{
    String::from_utf8_lossy(bytes).into_owned()
}

/// The text that `bytes` stand for: what they encode, if they are UTF-8, and
/// what `String::from_utf8_lossy` makes of them otherwise.
pub open spec fn readable(bytes: Seq<u8>) -> Seq<char> {
    if vstd::utf8::valid_utf8(bytes) {
        vstd::utf8::decode_utf8(bytes)
    } else {
        utf8_lossy(bytes)
    }
}

/// The text that `bytes` stand for.
pub fn read_text(bytes: &[u8]) -> (text: String)
    ensures
        text@ == readable(bytes@),
        bytes@.len() > 0 ==> text@.len() > 0,
{
    from_utf8_lossy(bytes)
}

/// The characters of `text`.
pub fn chars_of(text: &str) -> (chars: Vec<char>)
    ensures
        chars@ == text@,
{
    let mut chars: Vec<char> = Vec::new();
    for c in it: text.chars()
        invariant
            it.seq() == text@,
            chars@ == text@.take(it.index() as int),
    {
        chars.push(c);
    }
    chars
}

/// The text that `chars` spell.
pub fn string_of(chars: &[char]) -> (text: String)
    ensures
        text@ == chars@,
{
    let mut text = String::new();
    for i in 0..chars.len()
        invariant
            text@ == chars@.take(i as int),
    {
        text.push(chars[i]);
    }
    assert(chars@.take(chars@.len() as int) == chars@);
    text
}

/// Whether the two are the same characters.
pub fn same_chars(a: &[char], b: &[char]) -> (same: bool)
    ensures
        same == (a@ == b@),
{
    if a.len() != b.len() {
        return false;
    }
    for i in 0..a.len()
        invariant
            a.len() == b.len(),
            forall|j: int| 0 <= j < i ==> a@[j] == b@[j],
    {
        if a[i] != b[i] {
            return false;
        }
    }
    assert(a@ =~= b@);
    true
}

/// Whether `chars` spell `text`.
pub fn spells(chars: &[char], text: &str) -> (b: bool)
    ensures
        b == (chars@ == text@),
{
    same_chars(chars, chars_of(text).as_slice())
}

/// The character of a decimal digit.
pub open spec fn digit(d: nat) -> char {
    ('0' as nat + d) as char
}

/// `n` written in decimal, without leading zeros.
pub open spec fn decimal(n: nat) -> Seq<char>
    decreases n,
{
    if n < 10 {
        seq![digit(n)]
    } else {
        decimal(n / 10).push(digit(n % 10))
    }
}

/// Appends `n` in decimal.
pub fn push_decimal(text: &mut String, n: u128)
    ensures
        final(text)@ == old(text)@ + decimal(n as nat),
    decreases n,
{
    if n >= 10 {
        push_decimal(text, n / 10);
    }
    text.push((48 + (n % 10) as u8) as char);
    assert(text@ =~= old(text)@ + decimal(n as nat));
}

/// A decimal digit.
pub open spec fn is_digit(c: char) -> bool {
    '0' <= c <= '9'
}

/// The number that decimal digits write.
pub open spec fn number(digits: Seq<char>) -> nat
    decreases digits.len(),
{
    if digits.len() == 0 {
        0
    } else {
        number(digits.drop_last()) * 10 + (digits.last() as nat - '0' as nat) as nat
    }
}

/// Nothing but decimal digits, and at least one.
pub open spec fn is_number(text: Seq<char>) -> bool {
    text.len() > 0 && forall|i: int| 0 <= i < text.len() ==> is_digit(#[trigger] text[i])
}

proof fn lemma_number_prefix(digits: Seq<char>, n: int)
    requires
        0 <= n <= digits.len(),
    ensures
        number(digits.take(n)) <= number(digits),
    decreases digits.len(),
{
    if n == digits.len() {
        assert(digits.take(n) == digits);
    } else {
        lemma_number_prefix(digits.drop_last(), n);
        assert(digits.drop_last().take(n) == digits.take(n));
    }
}

/// The number that `text` writes, if it is one and not above `limit`.
pub fn read_number(text: &[char], limit: u64) -> (value: Option<u64>)
    ensures
        match value {
            Some(v) => is_number(text@) && v == number(text@) && v <= limit,
            None => !is_number(text@) || number(text@) > limit,
        },
{
    if text.len() == 0 {
        return None;
    }
    let mut i: usize = 0;
    while i < text.len()
        invariant
            i <= text.len(),
            forall|j: int| 0 <= j < i ==> is_digit(#[trigger] text@[j]),
        decreases text.len() - i,
    {
        if text[i] < '0' || '9' < text[i] {
            assert(!is_digit(text@[i as int]));
            return None;
        }
        i += 1;
    }
    let mut value: u64 = 0;
    for k in 0..text.len()
        invariant
            is_number(text@),
            value == number(text@.take(k as int)),
            value <= limit,
    {
        let d: u64 = (text[k] as u32 - 48) as u64;
        proof {
            assert(is_digit(text@[k as int]));
            assert(text@.take(k + 1).drop_last() == text@.take(k as int));
            lemma_number_prefix(text@, k + 1);
        }
        if d > limit || value > (limit - d) / 10 {
            return None;
        }
        value = value * 10 + d;
    }
    assert(text@.take(text@.len() as int) == text@);
    Some(value)
}

/// The number that `text` writes, with or without a plus sign.
pub open spec fn unsigned(text: Seq<char>) -> Option<nat> {
    let digits = if text.len() > 0 && text[0] == '+' {
        text.skip(1)
    } else {
        text
    };
    if is_number(digits) {
        Some(number(digits))
    } else {
        None
    }
}

/// The number that `text` writes as a `usize`.
pub open spec fn unsigned_size(text: Seq<char>) -> Option<usize> {
    match unsigned(text) {
        Some(n) => if n <= usize::MAX {
            Some(n as usize)
        } else {
            None
        },
        None => None,
    }
}

/// The number that `text` writes, with or without a plus sign, if it is one
/// and fits.
pub fn parse_size(text: &[char]) -> (value: Option<usize>)
    ensures
        value == unsigned_size(text@),
{
    let digits: &[char] = if text.len() > 0 && text[0] == '+' {
        slice_subrange(text, 1, text.len())
    } else {
        text
    };
    assert(text@.len() > 0 ==> text@.skip(1) =~= text@.subrange(1, text@.len() as int));
    match read_number(digits, usize::MAX as u64) {
        Some(value) => Some(value as usize),
        None => None,
    }
}

/// The first place, at or after `from`, where `part` stands in `whole`.
pub open spec fn find_from<T>(whole: Seq<T>, part: Seq<T>, from: int) -> Option<int>
    decreases whole.len() + 1 - from,
{
    if from + part.len() > whole.len() {
        None
    } else if whole.subrange(from, from + part.len()) == part {
        Some(from)
    } else {
        find_from(whole, part, from + 1)
    }
}

/// The first place of `c` in `text`; the end if there is none.
pub open spec fn index_of(text: Seq<char>, c: char) -> int
    decreases text.len(),
{
    if text.len() == 0 || text[0] == c {
        0
    } else {
        1 + index_of(text.skip(1), c)
    }
}

/// The first place of `c` in `text`; the end if there is none.
pub fn find_char(text: &[char], c: char) -> (at: usize)
    ensures
        at == index_of(text@, c),
        at <= text@.len(),
        at < text@.len() ==> text@[at as int] == c,
{
    let mut at: usize = 0;
    assert(text@.skip(0) =~= text@);
    while at < text.len() && text[at] != c
        invariant
            at <= text.len(),
            index_of(text@, c) == at + index_of(text@.skip(at as int), c),
        decreases text.len() - at,
    {
        assert(text@.skip(at as int).skip(1) =~= text@.skip(at + 1));
        at += 1;
    }
    at
}

/// What comes before the first `c`; all of `text` if there is none.
pub open spec fn before(text: Seq<char>, c: char) -> Seq<char> {
    text.take(index_of(text, c))
}

/// What comes after the first `c`, if there is one.
pub open spec fn after(text: Seq<char>, c: char) -> Option<Seq<char>> {
    if index_of(text, c) < text.len() {
        Some(text.skip(index_of(text, c) + 1))
    } else {
        None
    }
}

/// The text before the first `c` and, if there is one, the text after it.
pub fn cut(text: &[char], c: char) -> (parts: (&[char], Option<&[char]>))
    ensures
        parts.0@ == before(text@, c),
        match parts.1 {
            Some(rest) => after(text@, c) == Some(rest@),
            None => after(text@, c) is None,
        },
{
    let at: usize = find_char(text, c);
    let head = slice_subrange(text, 0, at);
    if at < text.len() {
        let rest = slice_subrange(text, at + 1, text.len());
        assert(rest@ =~= text@.skip(at + 1));
        (head, Some(rest))
    } else {
        (head, None)
    }
}

pub(crate) proof fn lemma_index_of(text: Seq<char>, c: char)
    ensures
        0 <= index_of(text, c) <= text.len(),
        index_of(text, c) < text.len() ==> text[index_of(text, c)] == c,
        forall|i: int| 0 <= i < index_of(text, c) ==> text[i] != c,
    decreases text.len(),
{
    if text.len() > 0 && text[0] != c {
        lemma_index_of(text.skip(1), c);
        assert forall|i: int| 0 <= i < index_of(text, c) implies text[i] != c by {
            if i > 0 {
                assert(text.skip(1)[i - 1] == text[i]);
            }
        }
    }
}

/// `text` cut at every `c`.
pub open spec fn pieces(text: Seq<char>, c: char) -> Seq<Seq<char>>
    decreases text.len(),
{
    let at = index_of(text, c);
    if 0 <= at < text.len() {
        seq![text.take(at)] + pieces(text.skip(at + 1), c)
    } else {
        seq![text]
    }
}

/// `text` cut at every `c`.
pub fn split(text: &[char], c: char) -> (parts: Vec<Vec<char>>)
    ensures
        parts.deep_view() == pieces(text@, c),
{
    let mut parts: Vec<Vec<char>> = Vec::new();
    let mut rest: &[char] = text;
    assert(parts.deep_view() + pieces(rest@, c) =~= pieces(text@, c));
    loop
        invariant
            parts.deep_view() + pieces(rest@, c) == pieces(text@, c),
        decreases rest@.len(),
    {
        let (head, tail) = cut(rest, c);
        let ghost shown = parts.deep_view();
        parts.push(vstd::slice::slice_to_vec(head));
        proof {
            lemma_index_of(rest@, c);
            assert(parts@[parts@.len() - 1].deep_view() =~= head@);
            assert(parts.deep_view() =~= shown.push(head@));
        }
        match tail {
            Some(tail) => {
                assert(shown + pieces(rest@, c) =~= parts.deep_view() + pieces(tail@, c));
                rest = tail;
            },
            None => {
                assert(rest@.take(rest@.len() as int) =~= rest@);
                assert(shown + pieces(rest@, c) =~= parts.deep_view());
                return parts;
            },
        }
    }
}

/// Unicode white space.
pub open spec fn is_white_space(c: char) -> bool {
    ||| '\u{9}' <= c <= '\u{d}'
    ||| c == ' '
    ||| c == '\u{85}'
    ||| c == '\u{a0}'
    ||| c == '\u{1680}'
    ||| '\u{2000}' <= c <= '\u{200a}'
    ||| c == '\u{2028}'
    ||| c == '\u{2029}'
    ||| c == '\u{202f}'
    ||| c == '\u{205f}'
    ||| c == '\u{3000}'
}

/// Whether `c` is Unicode white space.
pub fn white_space(c: char) -> (b: bool)
    ensures
        b == is_white_space(c),
{
    ('\u{9}' <= c && c <= '\u{d}') || c == ' ' || c == '\u{85}' || c == '\u{a0}' || c == '\u{1680}'
        || ('\u{2000}' <= c && c <= '\u{200a}') || c == '\u{2028}' || c == '\u{2029}' || c
        == '\u{202f}' || c == '\u{205f}' || c == '\u{3000}'
}

/// Text with nothing in it but white space.
pub open spec fn is_blank(text: Seq<char>) -> bool {
    forall|i: int| 0 <= i < text.len() ==> is_white_space(#[trigger] text[i])
}

/// Whether `text` holds nothing but white space.
pub fn blank(text: &str) -> (b: bool)
    ensures
        b == is_blank(text@),
{
    let chars = chars_of(text);
    for i in 0..chars.len()
        invariant
            chars@ == text@,
            forall|j: int| 0 <= j < i ==> is_white_space(#[trigger] text@[j]),
    {
        if !white_space(chars[i]) {
            assert(!is_white_space(text@[i as int]));
            return false;
        }
    }
    true
}

/// `text` without the white space at its start.
pub open spec fn trim_start(text: Seq<char>) -> Seq<char>
    decreases text.len(),
{
    if text.len() > 0 && is_white_space(text[0]) {
        trim_start(text.skip(1))
    } else {
        text
    }
}

/// `text` without the white space at its end.
pub open spec fn trim_end(text: Seq<char>) -> Seq<char>
    decreases text.len(),
{
    if text.len() > 0 && is_white_space(text.last()) {
        trim_end(text.drop_last())
    } else {
        text
    }
}

/// `text` without the white space around it.
pub open spec fn trimmed(text: Seq<char>) -> Seq<char> {
    trim_end(trim_start(text))
}

/// `text` without the white space at its start.
pub fn skip_space(text: &[char]) -> (rest: &[char])
    ensures
        rest@ == trim_start(text@),
        rest@.len() <= text@.len(),
{
    let mut from: usize = 0;
    assert(text@.skip(0) =~= text@);
    while from < text.len() && white_space(text[from])
        invariant
            from <= text.len(),
            trim_start(text@) == trim_start(text@.skip(from as int)),
        decreases text.len() - from,
    {
        assert(text@.skip(from as int).skip(1) =~= text@.skip(from + 1));
        from += 1;
    }
    assert(text@.skip(from as int) =~= text@.subrange(from as int, text@.len() as int));
    slice_subrange(text, from, text.len())
}

/// `text` without the white space around it.
pub fn trim(text: &[char]) -> (rest: &[char])
    ensures
        rest@ == trimmed(text@),
{
    let start = skip_space(text);
    let mut end: usize = start.len();
    assert(start@.take(end as int) =~= start@);
    while end > 0 && white_space(start[end - 1])
        invariant
            end <= start.len(),
            trim_end(start@) == trim_end(start@.take(end as int)),
        decreases end,
    {
        assert(start@.take(end as int).drop_last() =~= start@.take(end - 1));
        end -= 1;
    }
    assert(start@.take(end as int) =~= start@.subrange(0, end as int));
    slice_subrange(start, 0, end)
}

/// The first place of white space in `text`; the end if there is none.
pub open spec fn first_space(text: Seq<char>) -> int
    decreases text.len(),
{
    if text.len() == 0 || is_white_space(text[0]) {
        0
    } else {
        1 + first_space(text.skip(1))
    }
}

/// The first word of `text`, empty if it has none, and what follows it.
pub open spec fn first_word(text: Seq<char>) -> (Seq<char>, Seq<char>) {
    let rest = trim_start(text);
    (rest.take(first_space(rest)), rest.skip(first_space(rest)))
}

/// The first word of `text`, empty if it has none, and what follows it.
pub fn next_word(text: &[char]) -> (parts: (&[char], &[char]))
    ensures
        (parts.0@, parts.1@) == first_word(text@),
{
    let rest = skip_space(text);
    let mut at: usize = 0;
    assert(rest@.skip(0) =~= rest@);
    while at < rest.len() && !white_space(rest[at])
        invariant
            at <= rest.len(),
            first_space(rest@) == at + first_space(rest@.skip(at as int)),
        decreases rest.len() - at,
    {
        assert(rest@.skip(at as int).skip(1) =~= rest@.skip(at + 1));
        at += 1;
    }
    assert(rest@.take(at as int) =~= rest@.subrange(0, at as int));
    assert(rest@.skip(at as int) =~= rest@.subrange(at as int, rest@.len() as int));
    (slice_subrange(rest, 0, at), slice_subrange(rest, at, rest.len()))
}

/// A line without the carriage return at its end.
pub open spec fn without_return(line: Seq<char>) -> Seq<char> {
    if line.len() > 0 && line.last() == '\r' {
        line.drop_last()
    } else {
        line
    }
}

/// The lines of `text`. A line ends with a line feed, or a carriage return and
/// a line feed; the last one need not.
pub open spec fn lines_of(text: Seq<char>) -> Seq<Seq<char>> {
    let parts = pieces(text, '\n');
    let ended = parts.drop_last().map_values(|line: Seq<char>| without_return(line));
    if parts.last().len() == 0 {
        ended
    } else {
        ended.push(parts.last())
    }
}

/// Some text has some line.
pub(crate) proof fn lemma_some_line(text: Seq<char>)
    requires
        text.len() > 0,
    ensures
        lines_of(text).len() > 0,
{
    lemma_index_of(text, '\n');
    let at = index_of(text, '\n');
    if at < text.len() {
        let rest = pieces(text.skip(at + 1), '\n');
        assert(rest.len() > 0);
        assert(pieces(text, '\n') == seq![text.take(at)] + rest);
    }
}

/// The lines of `text`.
pub fn lines(text: &[char]) -> (all: Vec<Vec<char>>)
    ensures
        all.deep_view() == lines_of(text@),
{
    let mut parts = split(text, '\n');
    let ghost cut = pieces(text@, '\n');
    assert(cut.len() > 0);
    assert(parts@.len() == parts.deep_view().len());
    let last = parts.pop().unwrap();
    assert(last.deep_view() == cut.last());
    assert(last.deep_view().len() == last@.len());
    assert(parts.deep_view() =~= cut.drop_last());
    let ghost ended = cut.drop_last().map_values(|line: Seq<char>| without_return(line));
    let mut all: Vec<Vec<char>> = Vec::new();
    for i in 0..parts.len()
        invariant
            parts.deep_view() == cut.drop_last(),
            ended == cut.drop_last().map_values(|line: Seq<char>| without_return(line)),
            all.deep_view() == ended.take(i as int),
    {
        let ghost shown = all.deep_view();
        let mut line = vstd::slice::slice_to_vec(parts[i].as_slice());
        assert(line.deep_view() =~= parts@[i as int].deep_view());
        assert(line.deep_view() == cut.drop_last()[i as int]);
        assert(line.deep_view() =~= line@);
        if line.len() > 0 && line[line.len() - 1] == '\r' {
            line.pop();
        }
        assert(line.deep_view() =~= without_return(cut.drop_last()[i as int]));
        all.push(line);
        assert(all.deep_view() =~= shown.push(ended[i as int]));
        assert(ended.take(i + 1) =~= shown.push(ended[i as int]));
    }
    assert(all.deep_view() =~= ended);
    if last.len() > 0 {
        all.push(last);
        assert(all.deep_view() =~= ended.push(cut.last()));
    }
    all
}

} // verus!
