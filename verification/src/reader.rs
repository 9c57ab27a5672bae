//! Reading HTTP requests from bytes as they come in.
use crate::text::{
    after, before, chars_of, cut, find_from, first_word, lemma_some_line, lines, lines_of,
    next_word, parse_size, read_text, readable, string_of, trim, trimmed, unsigned_size,
};
use vstd::prelude::*;
use vstd::slice::slice_subrange;

verus! {

/// With more bytes than this, reading stops.
pub const READ_LIMIT: usize = 65536;

/// Where `needle` first stands in `haystack`.
pub fn find_subsequence(haystack: &[u8], needle: &[u8]) -> (at: Option<usize>)
    requires
        needle.len() > 0,
    ensures
        match at {
            Some(i) => find_from(haystack@, needle@, 0) == Some(i as int) && i + needle.len()
                <= haystack.len(),
            None => find_from(haystack@, needle@, 0) is None,
        },
{
    let mut at: usize = 0;
    while needle.len() <= haystack.len() - at
        invariant
            needle.len() > 0,
            at <= haystack.len(),
            find_from(haystack@, needle@, 0) == find_from(haystack@, needle@, at as int),
        decreases haystack.len() - at,
    {
        let mut same: usize = 0;
        while same < needle.len() && haystack[at + same] == needle[same]
            invariant
                same <= needle.len(),
                needle.len() <= haystack.len() - at,
                at <= haystack.len(),
                forall|i: int| 0 <= i < same ==> haystack@[at + i] == needle@[i],
            decreases needle.len() - same,
        {
            same += 1;
        }
        if same == needle.len() {
            assert(haystack@.subrange(at as int, at + needle@.len()) =~= needle@);
            return Some(at);
        }
        assert(haystack@.subrange(at as int, at + needle@.len())[same as int]
            != needle@[same as int]);
        at += 1;
    }
    None
}

/// The lower-case form of an ASCII letter; any other character itself.
pub open spec fn ascii_lower(c: char) -> char {
    if 'A' <= c <= 'Z' {
        (c as u32 + 32) as char
    } else {
        c
    }
}

/// The same text but for the case of ASCII letters.
pub open spec fn same_but_case(a: Seq<char>, b: Seq<char>) -> bool {
    a.len() == b.len() && forall|i: int|
        0 <= i < a.len() ==> ascii_lower(#[trigger] a[i]) == ascii_lower(b[i])
}

fn lower_ascii(c: char) -> (lower: char)
    ensures
        lower == ascii_lower(c),
{
    if 'A' <= c && c <= 'Z' {
        (c as u8 + 32) as char
    } else {
        c
    }
}

fn eq_but_case(a: &[char], b: &[char]) -> (same: bool)
    ensures
        same == same_but_case(a@, b@),
{
    if a.len() != b.len() {
        return false;
    }
    for i in 0..a.len()
        invariant
            a.len() == b.len(),
            forall|j: int| 0 <= j < i ==> ascii_lower(#[trigger] a@[j]) == ascii_lower(b@[j]),
    {
        if lower_ascii(a[i]) != lower_ascii(b[i]) {
            assert(ascii_lower(a@[i as int]) != ascii_lower(b@[i as int]));
            return false;
        }
    }
    true
}

/// Whether `line` is a header field that gives the length of the body.
pub open spec fn is_length_field(line: Seq<char>) -> bool {
    after(line, ':') is Some && same_but_case(before(line, ':'), "content-length"@)
}

/// The length that the first length field among `lines` gives.
pub open spec fn first_length(lines: Seq<Seq<char>>) -> Option<usize>
    decreases lines.len(),
{
    if lines.len() == 0 {
        None
    } else if is_length_field(lines[0]) {
        unsigned_size(trimmed(after(lines[0], ':')->0))
    } else {
        first_length(lines.skip(1))
    }
}

/// The length of the body that `headers` give.
pub open spec fn content_length(headers: Seq<char>) -> Option<usize> {
    first_length(lines_of(headers))
}

/// The length of the body that `headers` give.
pub fn parse_content_length(headers: &str) -> (length: Option<usize>)
    ensures
        length == content_length(headers@),
{
    let chars = chars_of(headers);
    let all = lines(chars.as_slice());
    let ghost shown = lines_of(headers@);
    assert(all@.len() == shown.len());
    assert(shown.skip(0) =~= shown);
    let field = chars_of("content-length");
    for i in 0..all.len()
        invariant
            all.deep_view() == shown,
            field@ == "content-length"@,
            content_length(headers@) == first_length(shown.skip(i as int)),
    {
        assert(shown.skip(i as int)[0] == shown[i as int]);
        assert(all@[i as int].deep_view() =~= all@[i as int]@);
        assert(shown.skip(i as int).skip(1) =~= shown.skip(i + 1));
        let (name, value) = cut(all[i].as_slice(), ':');
        if let Some(value) = value {
            if eq_but_case(name, field.as_slice()) {
                return parse_size(trim(value));
            }
        }
    }
    None
}

/// A request.
#[derive(Debug)]
pub struct HttpRequest {
    /// The method, such as `GET`.
    pub method: String,
    /// The path with its query.
    pub path: String,
    /// The body.
    pub body: String,
}

/// What an `HttpRequest` says.
pub struct HttpRequestView {
    pub method: Seq<char>,
    pub path: Seq<char>,
    pub body: Seq<char>,
}

impl View for HttpRequest {
    type V = HttpRequestView;

    open spec fn view(&self) -> HttpRequestView {
        HttpRequestView { method: self.method@, path: self.path@, body: self.body@ }
    }
}

/// The empty line that ends the head of a request.
pub open spec fn head_mark() -> Seq<u8> {
    seq![13u8, 10u8, 13u8, 10u8]
}

/// Where the head of a request ends: behind the first empty line.
pub open spec fn head_end(data: Seq<u8>) -> Option<int> {
    match find_from(data, head_mark(), 0) {
        Some(at) => Some(at + head_mark().len()),
        None => None,
    }
}

/// The text of a head of `end` bytes.
pub open spec fn head_text(data: Seq<u8>, end: int) -> Seq<char> {
    readable(data.take(end))
}

/// The bytes of body that a head announces; none unless it says so.
pub open spec fn body_len(head: Seq<char>) -> usize {
    match content_length(head) {
        Some(n) => n,
        None => 0,
    }
}

/// The bytes of head and body together, once the head is there.
pub open spec fn message_len(data: Seq<u8>) -> Option<int> {
    match head_end(data) {
        Some(end) => Some(end + body_len(head_text(data, end))),
        None => None,
    }
}

/// What to do after some bytes of a request have come in.
#[derive(Clone, Copy, Debug, PartialEq, Eq, Structural)]
pub enum ReadStep {
    /// Read on.
    More,
    /// Stop reading: the request is there, or there is too much of it.
    Stop,
    /// The announced length is beyond all numbers.
    Overflow,
}

/// What to do once `data` has come in.
pub open spec fn next_step(data: Seq<u8>) -> ReadStep {
    match message_len(data) {
        Some(n) if n > usize::MAX => ReadStep::Overflow,
        Some(n) if n <= data.len() => ReadStep::Stop,
        _ => if data.len() > READ_LIMIT {
            ReadStep::Stop
        } else {
            ReadStep::More
        },
    }
}

/// The request that `data` holds: the method and the path from the first line,
/// and as much of the announced body as is there. None without a whole head.
pub open spec fn request_in(data: Seq<u8>) -> Option<HttpRequestView> {
    match head_end(data) {
        None => None,
        Some(end) => {
            let head = head_text(data, end);
            if lines_of(head).len() == 0 {
                None
            } else {
                let (method, rest) = first_word(lines_of(head)[0]);
                let target = first_word(rest).0;
                let body_end = if end + body_len(head) < data.len() {
                    end + body_len(head)
                } else {
                    data.len() as int
                };
                Some(
                    HttpRequestView {
                        method,
                        path: if target.len() == 0 {
                            "/"@
                        } else {
                            target
                        },
                        body: readable(data.subrange(end, body_end)),
                    },
                )
            }
        },
    }
}

/// What is found once stays found when more comes in.
pub(crate) proof fn lemma_find_from_stays<T>(whole: Seq<T>, part: Seq<T>, from: int, more: Seq<T>)
    requires
        0 <= from,
        find_from(whole, part, from) is Some,
    ensures
        find_from(whole + more, part, from) == find_from(whole, part, from),
        from <= find_from(whole, part, from)->0 <= whole.len() - part.len(),
    decreases whole.len() + 1 - from,
{
    assert((whole + more).subrange(from, from + part.len()) =~= whole.subrange(
        from,
        from + part.len(),
    ));
    if whole.subrange(from, from + part.len()) != part {
        lemma_find_from_stays(whole, part, from + 1, more);
    }
}

/// The head of a request stays the same when more comes in.
pub(crate) proof fn lemma_head_stays(data: Seq<u8>, more: Seq<u8>)
    requires
        head_end(data) is Some,
    ensures
        head_mark().len() <= head_end(data)->0 <= data.len(),
        head_end(data + more) == head_end(data),
        head_text(data + more, head_end(data)->0) == head_text(data, head_end(data)->0),
        message_len(data + more) == message_len(data),
{
    lemma_find_from_stays(data, head_mark(), 0, more);
    let end = head_end(data)->0;
    assert((data + more).take(end) =~= data.take(end));
}

/// The bytes of a request as far as they have come in.
pub struct RequestReader {
    data: Vec<u8>,
    /// The end of the head and the length of the body, once they are known.
    head: Option<(usize, usize)>,
}

impl View for RequestReader {
    type V = Seq<u8>;

    closed spec fn view(&self) -> Seq<u8> {
        self.data@
    }
}

impl RequestReader {
    /// What is known of the head is what the bytes say.
    pub closed spec fn wf(&self) -> bool {
        match self.head {
            Some((end, len)) => head_end(self@) == Some(end as int) && len == body_len(
                head_text(self@, end as int),
            ),
            None => head_end(self@) is None,
        }
    }

    /// A reader that has read nothing.
    pub fn new() -> (reader: RequestReader)
        ensures
            reader.wf(),
            reader@ == Seq::<u8>::empty(),
    {
        RequestReader { data: Vec::new(), head: None }
    }

    /// Takes in the next bytes and says how to go on.
    pub fn feed(&mut self, chunk: &[u8]) -> (step: ReadStep)
        requires
            old(self).wf(),
        ensures
            final(self).wf(),
            final(self)@ == old(self)@ + chunk@,
            step == next_step(final(self)@),
    {
        let ghost before = self@;
        for i in 0..chunk.len()
            invariant
                self@ == before + chunk@.take(i as int),
                self.head == old(self).head,
        {
            self.data.push(chunk[i]);
            assert(self@ =~= before + chunk@.take(i + 1));
        }
        assert(chunk@.take(chunk@.len() as int) =~= chunk@);
        if self.head.is_none() {
            let mark: [u8; 4] = [13, 10, 13, 10];
            assert(mark@ =~= head_mark());
            if let Some(at) = find_subsequence(self.data.as_slice(), &mark) {
                let end: usize = at + 4;
                let head = slice_subrange(self.data.as_slice(), 0, end);
                assert(head@ =~= self@.take(end as int));
                let text = read_text(head);
                let len: usize = match parse_content_length(text.as_str()) {
                    Some(len) => len,
                    None => 0,
                };
                self.head = Some((end, len));
            }
        } else {
            proof {
                lemma_head_stays(before, chunk@);
            }
        }
        if let Some((end, len)) = self.head {
            if len > usize::MAX - end {
                return ReadStep::Overflow;
            }
            if self.data.len() >= end + len {
                return ReadStep::Stop;
            }
        }
        if self.data.len() > READ_LIMIT {
            ReadStep::Stop
        } else {
            ReadStep::More
        }
    }

    /// The request that came in: there is one exactly if its head is whole.
    pub fn finish(&self) -> (request: Option<HttpRequest>)
        requires
            self.wf(),
        ensures
            match request {
                Some(request) => request_in(self@) == Some(request@),
                None => request_in(self@) is None,
            },
            request is Some <==> head_end(self@) is Some,
    {
        let (end, len) = match self.head {
            Some(known) => known,
            None => {
                return None;
            },
        };
        proof {
            lemma_head_stays(self@, Seq::empty());
        }
        let data = self.data.as_slice();
        let head = slice_subrange(data, 0, end);
        assert(head@ =~= self@.take(end as int));
        let text = read_text(head);
        proof {
            lemma_some_line(text@);
        }
        let chars = chars_of(text.as_str());
        let all = lines(chars.as_slice());
        assert(all@.len() == all.deep_view().len());
        assert(all@[0].deep_view() =~= all@[0]@);
        assert(all.deep_view()[0] == all@[0].deep_view());
        let (method, rest) = next_word(all[0].as_slice());
        let (target, _) = next_word(rest);
        let path: String = if target.len() == 0 {
            "/".to_string()
        } else {
            string_of(target)
        };
        let body_end: usize = if len < data.len() - end {
            end + len
        } else {
            data.len()
        };
        let body = read_text(slice_subrange(data, end, body_end));
        Some(HttpRequest { method: string_of(method), path, body })
    }
}

} // verus!
