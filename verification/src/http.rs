//! HTTP requests, read piece by piece, and the head of a response.

use crate::text;
use vstd::prelude::*;
use vstd::string::*;
use vstd::utf8::*;

verus! {

/// Neither the head of a request nor its body may be larger than this.
pub const MAX_BODY: usize = 65536;

// ---------------------------------------------------------------------------------------------
// Searching bytes
// ---------------------------------------------------------------------------------------------

/// `needle` stands in `haystack` at `i`.
pub open spec fn occurs_at(haystack: Seq<u8>, needle: Seq<u8>, i: int) -> bool {
    0 <= i && i + needle.len() <= haystack.len() && haystack.subrange(i, i + needle.len())
        == needle
}

/// `found` is the first place of `needle` in `haystack`, or there is none.
pub open spec fn is_first(haystack: Seq<u8>, needle: Seq<u8>, found: Option<int>) -> bool {
    match found {
        Some(i) => occurs_at(haystack, needle, i) && forall|j: int|
            0 <= j < i ==> !#[trigger] occurs_at(haystack, needle, j),
        None => forall|j: int| !#[trigger] occurs_at(haystack, needle, j),
    }
}

/// Finds the first place of `needle` in `haystack`.
pub fn find(haystack: &[u8], needle: &[u8]) -> (found: Option<usize>)
    requires
        needle@.len() > 0,
    ensures
        is_first(
            haystack@,
            needle@,
            match found {
                Some(i) => Some(i as int),
                None => None,
            },
        ),
{
    let n: usize = haystack.len();
    let m: usize = needle.len();
    let mut i: usize = 0;
    while i < n && n - i >= m
        invariant
            n == haystack@.len(),
            m == needle@.len(),
            m > 0,
            i <= n,
            forall|j: int| 0 <= j < i ==> !#[trigger] occurs_at(haystack@, needle@, j),
        decreases n - i,
    {
        let mut k: usize = 0;
        while k < m && haystack[i + k] == needle[k]
            invariant
                n == haystack@.len(),
                m == needle@.len(),
                i + m <= n,
                k <= m,
                forall|q: int| 0 <= q < k ==> haystack@[i + q] == needle@[q],
            decreases m - k,
        {
            k = k + 1;
        }
        if k == m {
            assert(haystack@.subrange(i as int, i + m) =~= needle@);
            return Some(i);
        }
        proof {
            assert(haystack@.subrange(i as int, i + m)[k as int] != needle@[k as int]);
        }
        i = i + 1;
    }
    None
}

// ---------------------------------------------------------------------------------------------
// The head of a request
// ---------------------------------------------------------------------------------------------

/// Why a request cannot be read.
#[derive(Clone, Copy, Debug, PartialEq, Eq, Structural)]
pub enum RequestError {
    ClosedBeforeHead,
    RequestTooLarge,
    NoMethod,
    NoPath,
    BodyTooLarge,
    ClosedInBody,
}

impl RequestError {
    /// The error in words.
    pub open spec fn text(self) -> Seq<char> {
        match self {
            RequestError::ClosedBeforeHead => "client closed before request headers"@,
            RequestError::RequestTooLarge => "request too large"@,
            RequestError::NoMethod => "no method"@,
            RequestError::NoPath => "no path"@,
            RequestError::BodyTooLarge => "body too large"@,
            RequestError::ClosedInBody => "client closed inside body"@,
        }
    }

    /// Says the error in words.
    pub fn message(self) -> (words: &'static str)
        ensures
            words@ == self.text(),
    {
        match self {
            RequestError::ClosedBeforeHead => "client closed before request headers",
            RequestError::RequestTooLarge => "request too large",
            RequestError::NoMethod => "no method",
            RequestError::NoPath => "no path",
            RequestError::BodyTooLarge => "body too large",
            RequestError::ClosedInBody => "client closed inside body",
        }
    }
}

/// What the head of a request says.
#[derive(Debug)]
pub struct Head {
    pub method: String,
    /// The path, without the query.
    pub path: String,
    /// The length of the body.
    pub length: usize,
}

/// What the head of a request says, as a value.
pub struct HeadModel {
    pub method: Seq<char>,
    pub path: Seq<char>,
    pub length: usize,
}

impl View for Head {
    type V = HeadModel;

    open spec fn view(&self) -> HeadModel {
        HeadModel { method: self.method@, path: self.path@, length: self.length }
    }
}

/// The end of the line that starts at `i`: the next carriage return that a line feed follows, or
/// the end of `s`.
pub open spec fn line_end(s: Seq<char>, i: int) -> int
    decreases s.len() - i,
{
    if i < 0 || i >= s.len() {
        s.len() as int
    } else if s[i] == '\r' && i + 1 < s.len() && s[i + 1] == '\n' {
        i
    } else {
        line_end(s, i + 1)
    }
}

/// The body length that a header line declares, if it is that header and its value is a size.
pub open spec fn header_length(line: Seq<char>) -> Option<usize> {
    let colon = text::next_char(line, ':', 0);
    if colon >= line.len() {
        None
    } else if text::ascii_lower(text::trimmed(line.subrange(0, colon))) == "content-length"@ {
        text::size_value(text::trimmed(line.subrange(colon + 1, line.len() as int)))
    } else {
        None
    }
}

/// The body length that the first of the lines from `i` on to declare one declares.
pub open spec fn declared_length(s: Seq<char>, i: int) -> Option<usize>
    decreases s.len() - i,
{
    if i < 0 || i >= s.len() {
        None
    } else {
        let end = line_end(s, i);
        let here = header_length(s.subrange(i, end));
        if here is Some {
            here
        } else if end < i || end + 2 > s.len() {
            None
        } else {
            declared_length(s, end + 2)
        }
    }
}

/// What the head `s` says. Its first line holds the method and the path, in words; a declared
/// body length is looked for in the lines after it.
pub open spec fn head_model(s: Seq<char>) -> Result<HeadModel, RequestError> {
    let end = line_end(s, 0);
    let line = s.subrange(0, end);
    let method_from = text::next_text(line, 0);
    let method_to = text::next_space(line, method_from);
    let path_from = text::next_text(line, method_to);
    let path_to = text::next_space(line, path_from);
    let target = line.subrange(path_from, path_to);
    if method_from >= end {
        Err(RequestError::NoMethod)
    } else if path_from >= end {
        Err(RequestError::NoPath)
    } else {
        Ok(
            HeadModel {
                method: line.subrange(method_from, method_to),
                path: target.subrange(0, text::next_char(target, '?', 0)),
                length: match declared_length(s, end + 2) {
                    Some(n) => n,
                    None => 0,
                },
            },
        )
    }
}

fn find_line_end(s: &[char], from: usize) -> (at: usize)
    requires
        from <= s@.len(),
    ensures
        at == line_end(s@, from as int),
        from <= at <= s@.len(),
        at < s@.len() ==> at + 1 < s@.len(),
{
    let n: usize = s.len();
    let mut i: usize = from;
    while i < n && !(s[i] == '\r' && i + 1 < n && s[i + 1] == '\n')
        invariant
            n == s@.len(),
            from <= i <= n,
            line_end(s@, from as int) == line_end(s@, i as int),
        decreases n - i,
    {
        i = i + 1;
    }
    i
}

fn read_header_length(line: &[char]) -> (length: Option<usize>)
    ensures
        length == header_length(line@),
{
    let colon: usize = text::find_char(line, ':');
    if colon >= line.len() {
        return None;
    }
    let name = text::to_ascii_lower(text::trim(vstd::slice::slice_subrange(line, 0, colon)));
    let wanted = text::char_vec("content-length");
    if text::same_chars(name.as_slice(), wanted.as_slice()) {
        text::parse_size(text::trim(vstd::slice::slice_subrange(line, colon + 1, line.len())))
    } else {
        None
    }
}

fn read_declared_length(s: &[char], from: usize) -> (length: Option<usize>)
    ensures
        length == declared_length(s@, from as int),
{
    let n: usize = s.len();
    let mut i: usize = from;
    while i < n
        invariant
            n == s@.len(),
            declared_length(s@, from as int) == declared_length(s@, i as int),
        decreases n - i,
    {
        let end: usize = find_line_end(s, i);
        let here = read_header_length(vstd::slice::slice_subrange(s, i, end));
        if here.is_some() || end >= n {
            return here;
        }
        i = end + 2;
    }
    None
}

/// Reads the head of a request: everything before its blank line.
pub fn parse_head(head: &str) -> (parsed: Result<Head, RequestError>)
    ensures
        match parsed {
            Ok(h) => head_model(head@) == Ok::<HeadModel, RequestError>(h@),
            Err(e) => head_model(head@) == Err::<HeadModel, RequestError>(e),
        },
{
    let chars = text::char_vec(head);
    let all: &[char] = chars.as_slice();
    let end: usize = find_line_end(all, 0);
    let line: &[char] = vstd::slice::slice_subrange(all, 0, end);
    let method_from: usize = text::find_text(line, 0);
    if method_from >= end {
        return Err(RequestError::NoMethod);
    }
    let method_to: usize = text::find_space(line, method_from);
    let path_from: usize = text::find_text(line, method_to);
    if path_from >= end {
        return Err(RequestError::NoPath);
    }
    let path_to: usize = text::find_space(line, path_from);
    let target: &[char] = vstd::slice::slice_subrange(line, path_from, path_to);
    let query: usize = text::find_char(target, '?');
    let length: usize = if end < all.len() {
        match read_declared_length(all, end + 2) {
            Some(n) => n,
            None => 0,
        }
    } else {
        0
    };
    let method = head.substring_char(method_from, method_to).to_owned();
    let path = head.substring_char(path_from, path_from + query).to_owned();
    assert(method@ =~= line@.subrange(method_from as int, method_to as int));
    assert(path@ =~= target@.subrange(0, query as int));
    Ok(Head { method, path, length })
}

// ---------------------------------------------------------------------------------------------
// Reading a request
// ---------------------------------------------------------------------------------------------

/// A request.
#[derive(Debug)]
pub struct Request {
    pub method: String,
    pub path: String,
    pub body: Vec<u8>,
}

/// A request, as a value.
pub struct RequestModel {
    pub method: Seq<char>,
    pub path: Seq<char>,
    pub body: Seq<u8>,
}

impl View for Request {
    type V = RequestModel;

    open spec fn view(&self) -> RequestModel {
        RequestModel { method: self.method@, path: self.path@, body: self.body@ }
    }
}

/// How far the reading of a request has got.
#[derive(Debug)]
pub enum Progress {
    /// The request is not complete.
    More,
    /// The request is complete.
    Done(Request),
    /// The request cannot be read.
    Failed(RequestError),
}

/// How far the reading of a request has got, as a value.
pub enum ProgressModel {
    More,
    Done(RequestModel),
    Failed(RequestError),
}

impl View for Progress {
    type V = ProgressModel;

    open spec fn view(&self) -> ProgressModel {
        match self {
            Progress::More => ProgressModel::More,
            Progress::Done(request) => ProgressModel::Done(request@),
            Progress::Failed(error) => ProgressModel::Failed(*error),
        }
    }
}

/// The bytes that end the head of a request: the end of its last line, and an empty line.
pub open spec fn blank_line() -> Seq<u8> {
    seq![13u8, 10u8, 13u8, 10u8]
}

/// Where the head of the request in `bytes` ends, if it does.
pub open spec fn head_end(bytes: Seq<u8>) -> Option<int> {
    if exists|i: int| #[trigger] occurs_at(bytes, blank_line(), i) {
        Some(choose|i: int| is_first(bytes, blank_line(), Some(i)))
    } else {
        None
    }
}

/// The text that `String::from_utf8_lossy` makes of `bytes`.
pub uninterp spec fn lossy_text(bytes: Seq<u8>) -> Seq<char>;

/// Valid UTF-8 is read as the text that it encodes.
pub open spec fn read_as_utf8(bytes: Seq<u8>) -> bool {
    valid_utf8(bytes) ==> lossy_text(bytes) == decode_utf8(bytes)
}

/// The head of a request, of which `all` came in.
pub open spec fn head_bytes(all: Seq<u8>) -> Seq<u8> {
    all.subrange(0, head_end(all)->0)
}

/// The request is given up when `chunk` comes in after `before`: its head is not complete, and
/// too much came in.
pub open spec fn too_large(before: Seq<u8>, chunk: Seq<u8>) -> bool {
    head_end(before) is None && (before + chunk).len() > MAX_BODY
}

/// How far the reading of a request has got when `chunk` comes in after `before`.
///
/// As long as the head is not complete, all that came in counts against the limit; after that,
/// only the declared length of the body does. What follows the body is ignored.
pub open spec fn reading(before: Seq<u8>, chunk: Seq<u8>) -> ProgressModel {
    let all = before + chunk;
    if too_large(before, chunk) {
        ProgressModel::Failed(RequestError::RequestTooLarge)
    } else {
        match head_end(all) {
            None => ProgressModel::More,
            Some(end) => match head_model(lossy_text(all.subrange(0, end))) {
                Err(error) => ProgressModel::Failed(error),
                Ok(head) => {
                    let from = end + 4;
                    let to = from + head.length;
                    if head.length > MAX_BODY {
                        ProgressModel::Failed(RequestError::BodyTooLarge)
                    } else if all.len() < to {
                        ProgressModel::More
                    } else {
                        ProgressModel::Done(
                            RequestModel {
                                method: head.method,
                                path: head.path,
                                body: all.subrange(from, to),
                            },
                        )
                    }
                },
            },
        }
    }
}

/// `String::from_utf8_lossy` turns bytes into text: valid UTF-8 into the text it encodes. What
/// it makes of other bytes (it puts replacement characters in) depends on the bytes alone.
#[verifier::external_body]
fn decode_lossy(bytes: &[u8]) -> (text: String)
    ensures
        text@ == lossy_text(bytes@),
        valid_utf8(bytes@) ==> text@ == decode_utf8(bytes@),
{
    String::from_utf8_lossy(bytes).into_owned()
}

/// There is at most one first place.
proof fn lemma_first_is_unique(haystack: Seq<u8>, needle: Seq<u8>, a: int, b: int)
    requires
        is_first(haystack, needle, Some(a)),
        is_first(haystack, needle, Some(b)),
    ensures
        a == b,
{
    if a < b {
        assert(!occurs_at(haystack, needle, a));
    } else if b < a {
        assert(!occurs_at(haystack, needle, b));
    }
}

/// A head ends where its blank line is found first.
proof fn lemma_head_end(bytes: Seq<u8>, found: Option<int>)
    requires
        is_first(bytes, blank_line(), found),
    ensures
        head_end(bytes) == found,
{
    if let Some(i) = found {
        assert(occurs_at(bytes, blank_line(), i));
        let chosen = choose|k: int| is_first(bytes, blank_line(), Some(k));
        lemma_first_is_unique(bytes, blank_line(), i, chosen);
    }
}

/// Some place is the first.
proof fn lemma_first_exists(bytes: Seq<u8>, i: int)
    requires
        occurs_at(bytes, blank_line(), i),
    ensures
        exists|k: int| is_first(bytes, blank_line(), Some(k)),
    decreases i,
{
    if exists|j: int| 0 <= j < i && #[trigger] occurs_at(bytes, blank_line(), j) {
        let j = choose|j: int| 0 <= j < i && #[trigger] occurs_at(bytes, blank_line(), j);
        lemma_first_exists(bytes, j);
    } else {
        assert(is_first(bytes, blank_line(), Some(i)));
    }
}

/// What comes in after a complete head does not move its end.
proof fn lemma_head_end_stays(before: Seq<u8>, chunk: Seq<u8>)
    requires
        head_end(before) is Some,
    ensures
        head_end(before + chunk) == head_end(before),
        0 <= head_end(before)->0,
        head_end(before)->0 + 4 <= before.len(),
        (before + chunk).subrange(0, head_end(before)->0) == before.subrange(
            0,
            head_end(before)->0,
        ),
{
    let all = before + chunk;
    let w = choose|i: int| #[trigger] occurs_at(before, blank_line(), i);
    lemma_first_exists(before, w);
    let end = head_end(before)->0;
    assert(is_first(before, blank_line(), Some(end)));
    assert(all.subrange(end, end + 4) =~= before.subrange(end, end + 4));
    assert forall|j: int| 0 <= j < end implies !#[trigger] occurs_at(all, blank_line(), j) by {
        assert(!occurs_at(before, blank_line(), j));
        assert(all.subrange(j, j + 4) =~= before.subrange(j, j + 4));
    }
    assert(occurs_at(all, blank_line(), end));
    lemma_head_end(all, Some(end));
    assert(all.subrange(0, end) =~= before.subrange(0, end));
}

/// Reads one request out of the pieces in which it comes in.
pub struct RequestReader {
    received: Vec<u8>,
    /// The head, and where the body starts.
    head: Option<(Head, usize)>,
}

impl View for RequestReader {
    type V = Seq<u8>;

    /// Everything that came in.
    closed spec fn view(&self) -> Seq<u8> {
        self.received@
    }
}

impl RequestReader {
    /// The reader waits for more: either the head is not complete, or the body is not.
    pub closed spec fn waiting(self) -> bool {
        match self.head {
            None => head_end(self@) is None && self@.len() <= MAX_BODY,
            Some((head, from)) => {
                &&& head_end(self@) == Some(from - 4)
                &&& read_as_utf8(head_bytes(self@))
                &&& head_model(lossy_text(self@.subrange(0, from - 4))) == Ok::<
                    HeadModel,
                    RequestError,
                >(head@)
                &&& head.length <= MAX_BODY
                &&& self@.len() < from + head.length
            },
        }
    }

    /// A reader to which nothing has come in.
    pub fn new() -> (reader: Self)
        ensures
            reader.waiting(),
            reader@ == Seq::<u8>::empty(),
    {
        let reader = RequestReader { received: Vec::new(), head: None };
        proof {
            assert forall|j: int| !#[trigger] occurs_at(reader@, blank_line(), j) by {
                assert(blank_line().len() == 4);
            }
        }
        reader
    }

    /// Takes the next piece. As long as more is wanted, the reader stays usable.
    pub fn feed(&mut self, chunk: &[u8]) -> (progress: Progress)
        requires
            old(self).waiting(),
        ensures
            progress@ == reading(old(self)@, chunk@),
            head_end(old(self)@ + chunk@) is Some && !too_large(old(self)@, chunk@)
                ==> read_as_utf8(head_bytes(old(self)@ + chunk@)),
            progress is More ==> final(self).waiting() && final(self)@ == old(self)@ + chunk@,
    {
        let ghost before = self@;
        self.received.extend_from_slice(chunk);
        assert(self.received@ =~= before + chunk@);
        let ghost all = self.received@;
        if self.head.is_none() {
            if self.received.len() > MAX_BODY {
                return Progress::Failed(RequestError::RequestTooLarge);
            }
            let blank: [u8; 4] = [13, 10, 13, 10];
            assert(blank@ =~= blank_line());
            let found = find(self.received.as_slice(), &blank);
            let end: usize = match found {
                None => {
                    proof {
                        lemma_head_end(all, None);
                    }
                    return Progress::More;
                },
                Some(end) => end,
            };
            proof {
                lemma_head_end(all, Some(end as int));
                assert(occurs_at(all, blank_line(), end as int));
            }
            let head_text = decode_lossy(
                vstd::slice::slice_subrange(self.received.as_slice(), 0, end),
            );
            match parse_head(head_text.as_str()) {
                Err(error) => {
                    return Progress::Failed(error);
                },
                Ok(head) => {
                    if head.length > MAX_BODY {
                        return Progress::Failed(RequestError::BodyTooLarge);
                    }
                    self.head = Some((head, end + 4));
                },
            }
        } else {
            proof {
                lemma_head_end_stays(before, chunk@);
            }
        }
        assert(self@ == all);
        let (method, path, from, length): (String, String, usize, usize) = match &self.head {
            Some((head, from)) => (head.method.clone(), head.path.clone(), *from, head.length),
            None => (String::new(), String::new(), 0, 0),
        };
        if self.received.len() - from < length {
            return Progress::More;
        }
        let body = vstd::slice::slice_to_vec(
            vstd::slice::slice_subrange(self.received.as_slice(), from, from + length),
        );
        Progress::Done(Request { method, path, body })
    }

    /// Why the request cannot be read if the client sends nothing more.
    pub fn closed(&self) -> (error: RequestError)
        requires
            self.waiting(),
        ensures
            error == if head_end(self@) is None {
                RequestError::ClosedBeforeHead
            } else {
                RequestError::ClosedInBody
            },
    {
        if self.head.is_none() {
            RequestError::ClosedBeforeHead
        } else {
            RequestError::ClosedInBody
        }
    }
}

/// How a request is cut into pieces does not matter, as long as all of it is within the limit.
pub proof fn cutting_does_not_matter(first: Seq<u8>, second: Seq<u8>)
    requires
        (first + second).len() <= MAX_BODY,
        reading(Seq::empty(), first) is More,
    ensures
        reading(first, second) == reading(Seq::empty(), first + second),
{
    assert(Seq::<u8>::empty() + (first + second) =~= first + second);
}

/// What follows a complete request does not change it, as long as all of it is within the limit.
pub proof fn what_follows_is_ignored(request: Seq<u8>, rest: Seq<u8>)
    requires
        (request + rest).len() <= MAX_BODY,
        reading(Seq::empty(), request) is Done,
    ensures
        reading(Seq::empty(), request + rest) == reading(Seq::empty(), request),
{
    assert(Seq::<u8>::empty() + request =~= request);
    assert(Seq::<u8>::empty() + (request + rest) =~= request + rest);
    lemma_head_end_stays(request, rest);
    let end = head_end(request)->0;
    let head = head_model(lossy_text(request.subrange(0, end)))->Ok_0;
    assert((request + rest).subrange(end + 4, end + 4 + head.length) =~= request.subrange(
        end + 4,
        end + 4 + head.length,
    ));
}

/// A request that cannot be read cannot be read either when more follows, as long as all of it
/// is within the limit, and the reason is the same.
pub proof fn a_failed_request_stays_failed(request: Seq<u8>, rest: Seq<u8>)
    requires
        (request + rest).len() <= MAX_BODY,
        reading(Seq::empty(), request) is Failed,
    ensures
        reading(Seq::empty(), request + rest) == reading(Seq::empty(), request),
{
    assert(Seq::<u8>::empty() + request =~= request);
    assert(Seq::<u8>::empty() + (request + rest) =~= request + rest);
    lemma_head_end_stays(request, rest);
}

// ---------------------------------------------------------------------------------------------
// The head of a response
// ---------------------------------------------------------------------------------------------

/// The reason phrase of a status.
pub open spec fn reason(status: u16) -> Seq<char> {
    if status == 200 {
        "OK"@
    } else if status == 400 {
        "Bad Request"@
    } else if status == 404 {
        "Not Found"@
    } else if status == 405 {
        "Method Not Allowed"@
    } else if status == 500 {
        "Internal Server Error"@
    } else {
        "Error"@
    }
}

/// The head of a response with a body of `length` bytes.
pub open spec fn response_head_text(status: u16, content_type: Seq<char>, length: usize) -> Seq<
    char,
> {
    "HTTP/1.1 "@ + text::decimal(status as nat) + " "@ + reason(status) + "\r\nContent-Type: "@
        + content_type + "\r\nContent-Length: "@ + text::decimal(length as nat)
        + "\r\nConnection: close\r\n\r\n"@
}

/// Writes the head of a response with a body of `length` bytes.
pub fn response_head(status: u16, content_type: &str, length: usize) -> (head: String)
    ensures
        head@ == response_head_text(status, content_type@, length),
{
    let phrase: &str = match status {
        200 => "OK",
        400 => "Bad Request",
        404 => "Not Found",
        405 => "Method Not Allowed",
        500 => "Internal Server Error",
        _ => "Error",
    };
    let mut head = "HTTP/1.1 ".to_owned();
    text::append_decimal(&mut head, status as u64);
    head.append(" ");
    head.append(phrase);
    head.append("\r\nContent-Type: ");
    head.append(content_type);
    head.append("\r\nContent-Length: ");
    text::append_decimal(&mut head, length as u64);
    head.append("\r\nConnection: close\r\n\r\n");
    head
}

/// `s` has no line end in it.
pub open spec fn one_line(s: Seq<char>) -> bool {
    forall|i: int| 0 <= i < s.len() ==> #[trigger] s[i] != '\r' && s[i] != '\n'
}

/// A blank line stands in `s` at `i`.
pub open spec fn blank_line_at(s: Seq<char>, i: int) -> bool {
    0 <= i && i + 4 <= s.len() && s[i] == '\r' && s[i + 1] == '\n' && s[i + 2] == '\r' && s[i + 3]
        == '\n'
}

proof fn lemma_decimal_one_line(n: nat)
    ensures
        one_line(text::decimal(n)),
    decreases n,
{
    if n >= 10 {
        lemma_decimal_one_line(n / 10);
    }
}

proof fn lemma_reason_one_line(status: u16)
    ensures
        one_line(reason(status)),
{
    reveal_strlit("OK");
    reveal_strlit("Bad Request");
    reveal_strlit("Not Found");
    reveal_strlit("Method Not Allowed");
    reveal_strlit("Internal Server Error");
    reveal_strlit("Error");
}

/// The body of a response starts where its head says it does: the only blank line of the head
/// is its end.
pub proof fn a_response_head_ends_at_its_blank_line(
    status: u16,
    content_type: Seq<char>,
    length: usize,
    i: int,
)
    requires
        one_line(content_type),
    ensures
        blank_line_at(response_head_text(status, content_type, length), i) <==> i
            == response_head_text(status, content_type, length).len() - 4,
{
    let head = response_head_text(status, content_type, length);
    let start = "HTTP/1.1 "@ + text::decimal(status as nat) + " "@ + reason(status);
    let kind = "\r\nContent-Type: "@;
    let size = "\r\nContent-Length: "@;
    let digits = text::decimal(length as nat);
    let close = "\r\nConnection: close\r\n\r\n"@;
    reveal_strlit("HTTP/1.1 ");
    reveal_strlit(" ");
    reveal_strlit("\r\nContent-Type: ");
    reveal_strlit("\r\nContent-Length: ");
    reveal_strlit("\r\nConnection: close\r\n\r\n");
    lemma_decimal_one_line(status as nat);
    lemma_decimal_one_line(length as nat);
    lemma_reason_one_line(status);
    assert(one_line(start));
    let a = start.len() as int;
    let b = a + kind.len();
    let c = b + content_type.len();
    let d = c + size.len();
    let e = d + digits.len();
    assert(head =~= start + kind + content_type + size + digits + close);
    assert(head.len() == e + close.len());
    assert forall|k: int| 0 <= k < head.len() implies head[k] == (if k < a {
        start[k]
    } else if k < b {
        kind[k - a]
    } else if k < c {
        content_type[k - b]
    } else if k < d {
        size[k - c]
    } else if k < e {
        digits[k - d]
    } else {
        close[k - e]
    }) by {}
    if blank_line_at(head, i) {
        if i < a {
            assert(start[i] == '\r');
        } else if i < b {
            assert(kind[i - a] == '\r');
            assert(kind[i - a + 2] == '\r');
        } else if i < c {
            assert(content_type[i - b] == '\r');
        } else if i < d {
            assert(size[i - c] == '\r');
            assert(size[i - c + 2] == '\r');
        } else if i < e {
            assert(digits[i - d] == '\r');
        } else {
            assert(close[i - e] == '\r');
            assert(close[i - e + 2] == '\r');
        }
    }
}

// ---------------------------------------------------------------------------------------------
// What a request says
// ---------------------------------------------------------------------------------------------

/// What is found stands there byte for byte, and nowhere before.
pub proof fn what_is_found_stands_there_first(
    haystack: Seq<u8>,
    needle: Seq<u8>,
    found: Option<int>,
)
    requires
        is_first(haystack, needle, found),
    ensures
        found matches Some(i) ==> {
            &&& 0 <= i
            &&& i + needle.len() <= haystack.len()
            &&& forall|k: int| 0 <= k < needle.len() ==> haystack[i + k] == #[trigger] needle[k]
        },
        forall|j: int|
            {
                &&& 0 <= j
                &&& j + needle.len() <= haystack.len()
                &&& found matches Some(i) ==> j < i
            } ==> #[trigger] haystack.subrange(j, j + needle.len()) != needle,
{
    if let Some(i) = found {
        assert forall|k: int| 0 <= k < needle.len() implies haystack[i + k]
            == #[trigger] needle[k] by {
            assert(haystack.subrange(i, i + needle.len())[k] == needle[k]);
        }
    }
    assert forall|j: int|
        {
            &&& 0 <= j
            &&& j + needle.len() <= haystack.len()
            &&& found matches Some(i) ==> j < i
        } implies #[trigger] haystack.subrange(j, j + needle.len()) != needle by {
        assert(!occurs_at(haystack, needle, j));
    }
}

proof fn lemma_line_end(s: Seq<char>, i: int, at: int)
    requires
        0 <= i <= at <= s.len(),
        forall|k: int|
            i <= k < at && k + 1 < s.len() ==> !(#[trigger] s[k] == '\r' && s[k + 1] == '\n'),
        at < s.len() ==> at + 1 < s.len() && s[at] == '\r' && s[at + 1] == '\n',
    ensures
        line_end(s, i) == at,
    decreases at - i,
{
    if i < at {
        assert(i + 1 < s.len() ==> !(s[i] == '\r' && s[i + 1] == '\n'));
        lemma_line_end(s, i + 1, at);
    }
}

/// A line goes on at least as far as there is no carriage return.
proof fn lemma_line_goes_on(s: Seq<char>, i: int, at: int)
    requires
        0 <= i <= at <= s.len(),
        forall|k: int| i <= k < at ==> #[trigger] s[k] != '\r',
    ensures
        at <= line_end(s, i) <= s.len(),
    decreases s.len() - i,
{
    if i < at {
        assert(s[i] != '\r');
        lemma_line_goes_on(s, i + 1, at);
    } else {
        lemma_line_end_bounds(s, i);
    }
}

proof fn lemma_line_end_bounds(s: Seq<char>, i: int)
    requires
        0 <= i <= s.len(),
    ensures
        i <= line_end(s, i) <= s.len(),
    decreases s.len() - i,
{
    if i < s.len() {
        lemma_line_end_bounds(s, i + 1);
    }
}

/// A gap in a request line.
pub open spec fn blank(s: Seq<char>) -> bool {
    forall|k: int| 0 <= k < s.len() ==> text::is_space(#[trigger] s[k]) && s[k] != '\r'
}

/// A word of a request line.
pub open spec fn word(s: Seq<char>) -> bool {
    s.len() > 0 && forall|k: int| 0 <= k < s.len() ==> !text::is_space(#[trigger] s[k])
}

/// The first line of a request gives its method and, as its second word, its path, without what
/// follows a question mark. The path ends with its word: at white space, the end of the line
/// included, or at the end of the head.
pub proof fn the_request_line_gives_method_and_path(
    margin: Seq<char>,
    method: Seq<char>,
    gap: Seq<char>,
    path: Seq<char>,
    rest: Seq<char>,
)
    requires
        blank(margin),
        word(method),
        gap.len() > 0,
        blank(gap),
        forall|k: int|
            0 <= k < path.len() ==> !text::is_space(#[trigger] path[k]) && path[k] != '?',
        rest.len() == 0 ==> path.len() > 0,
        rest.len() > 0 ==> rest[0] == '?' || (path.len() > 0 && text::is_space(rest[0])),
    ensures
        head_model(margin + method + gap + path + rest) matches Ok(head) && head.method == method
            && head.path == path,
{
    let s = margin + method + gap + path + rest;
    let a = margin.len() as int;
    let b = a + method.len();
    let c = b + gap.len();
    let d = c + path.len();
    assert forall|k: int| 0 <= k < a implies #[trigger] s[k] == margin[k] by {}
    assert forall|k: int| a <= k < b implies #[trigger] s[k] == method[k - a] by {}
    assert forall|k: int| b <= k < c implies #[trigger] s[k] == gap[k - b] by {}
    assert forall|k: int| c <= k < d implies #[trigger] s[k] == path[k - c] by {}
    assert forall|k: int| d <= k < s.len() implies #[trigger] s[k] == rest[k - d] by {}
    assert forall|k: int| 0 <= k < d implies #[trigger] s[k] != '\r' by {
        if k < a {
            assert(text::is_space(margin[k]) && margin[k] != '\r');
        } else if k < b {
            assert(!text::is_space(method[k - a]));
        } else if k < c {
            assert(text::is_space(gap[k - b]) && gap[k - b] != '\r');
        } else {
            assert(!text::is_space(path[k - c]));
        }
    }
    lemma_line_goes_on(s, 0, d);
    let end = line_end(s, 0);
    let line = s.subrange(0, end);
    assert(forall|k: int| 0 <= k < end ==> #[trigger] line[k] == s[k]);
    assert forall|k: int| 0 <= k < a implies text::is_space(#[trigger] line[k]) by {
        assert(text::is_space(margin[k]) && margin[k] != '\r');
    }
    assert(line[a] == method[0]);
    text::lemma_next_text(line, 0, a);
    assert forall|k: int| a <= k < b implies !text::is_space(#[trigger] line[k]) by {
        assert(!text::is_space(method[k - a]));
    }
    assert(line[b] == gap[0]);
    text::lemma_next_space(line, a, b);
    assert forall|k: int| b <= k < c implies text::is_space(#[trigger] line[k]) by {
        assert(text::is_space(gap[k - b]) && gap[k - b] != '\r');
    }
    if rest.len() > 0 && rest[0] == '?' {
        assert(s[d] == '?');
        lemma_line_goes_on(s, 0, d + 1);
    }
    if path.len() > 0 {
        assert(line[c] == path[0]);
    } else {
        assert(line[c] == '?');
    }
    text::lemma_next_text(line, b, c);
    assert forall|k: int| c <= k < d implies !text::is_space(#[trigger] line[k]) && line[k]
        != '?' by {
        assert(line[k] == path[k - c]);
    }
    if rest.len() > 0 && rest[0] == '?' {
        let e = text::next_space(line, c);
        lemma_word_goes_on(line, c, d + 1);
        let target = line.subrange(c, e);
        assert(target[path.len() as int] == '?');
        assert forall|k: int| 0 <= k < path.len() implies #[trigger] target[k] != '?' by {
            assert(target[k] == line[c + k]);
        }
        text::lemma_next_char(target, '?', 0, path.len() as int);
        assert(target.subrange(0, path.len() as int) =~= path);
    } else {
        if d < end {
            assert(line[d] == rest[0]);
        }
        text::lemma_next_space(line, c, d);
        let target = line.subrange(c, d);
        assert forall|k: int| 0 <= k < path.len() implies #[trigger] target[k] != '?' by {
            assert(target[k] == line[c + k]);
        }
        text::lemma_next_char(target, '?', 0, path.len() as int);
        assert(target.subrange(0, path.len() as int) =~= path);
    }
    assert(line.subrange(a, b) =~= method);
}

/// A request line without a word has no method, and one with a single word has no path.
pub proof fn a_request_line_needs_two_words(
    margin: Seq<char>,
    method: Seq<char>,
    gap: Seq<char>,
    rest: Seq<char>,
)
    requires
        blank(margin),
        word(method),
        blank(gap),
        rest.len() == 0 || (rest.len() > 1 && rest[0] == '\r' && rest[1] == '\n'),
    ensures
        head_model(margin + rest) == Err::<HeadModel, RequestError>(RequestError::NoMethod),
        head_model(margin + method + gap + rest) == Err::<HeadModel, RequestError>(
            RequestError::NoPath,
        ),
{
    let s = margin + rest;
    let n = margin.len() as int;
    assert forall|k: int| 0 <= k < n implies #[trigger] s[k] != '\r' by {
        assert(s[k] == margin[k]);
        assert(text::is_space(margin[k]) && margin[k] != '\r');
    }
    assert(rest.len() > 0 ==> s[n] == rest[0] && s[n + 1] == rest[1]);
    lemma_line_end(s, 0, n);
    let line = s.subrange(0, n);
    assert forall|k: int| 0 <= k < n implies text::is_space(#[trigger] line[k]) by {
        assert(line[k] == margin[k]);
        assert(text::is_space(margin[k]) && margin[k] != '\r');
    }
    text::lemma_next_text(line, 0, n);

    let t = margin + method + gap + rest;
    let b = n + method.len();
    let c = b + gap.len();
    assert forall|k: int| 0 <= k < n implies #[trigger] t[k] == margin[k] by {}
    assert forall|k: int| n <= k < b implies #[trigger] t[k] == method[k - n] by {}
    assert forall|k: int| b <= k < c implies #[trigger] t[k] == gap[k - b] by {}
    assert(rest.len() > 0 ==> t[c] == rest[0] && t[c + 1] == rest[1]);
    assert forall|k: int| 0 <= k < c implies #[trigger] t[k] != '\r' by {
        if k < n {
            assert(text::is_space(margin[k]) && margin[k] != '\r');
        } else if k < b {
            assert(!text::is_space(method[k - n]));
        } else {
            assert(text::is_space(gap[k - b]) && gap[k - b] != '\r');
        }
    }
    lemma_line_end(t, 0, c);
    let words = t.subrange(0, c);
    assert(forall|k: int| 0 <= k < c ==> #[trigger] words[k] == t[k]);
    assert forall|k: int| 0 <= k < n implies text::is_space(#[trigger] words[k]) by {
        assert(text::is_space(margin[k]) && margin[k] != '\r');
    }
    assert(words[n] == method[0]);
    text::lemma_next_text(words, 0, n);
    assert forall|k: int| n <= k < b implies !text::is_space(#[trigger] words[k]) by {
        assert(!text::is_space(method[k - n]));
    }
    if b < c {
        assert(words[b] == gap[0]);
    }
    text::lemma_next_space(words, n, b);
    assert forall|k: int| b <= k < c implies text::is_space(#[trigger] words[k]) by {
        assert(text::is_space(gap[k - b]) && gap[k - b] != '\r');
    }
    text::lemma_next_text(words, b, c);
}

/// A word goes on at least as far as there is no white space.
proof fn lemma_word_goes_on(s: Seq<char>, i: int, at: int)
    requires
        0 <= i <= at <= s.len(),
        forall|k: int| i <= k < at ==> !text::is_space(#[trigger] s[k]),
    ensures
        at <= text::next_space(s, i) <= s.len(),
    decreases s.len() - i,
{
    if i < at {
        assert(!text::is_space(s[i]));
        lemma_word_goes_on(s, i + 1, at);
    } else if i < s.len() && !text::is_space(s[i]) {
        lemma_word_goes_on(s, i + 1, i + 1);
    }
}

/// A header is the one that declares the length of the body if its name, without white space
/// around it and in any letter case, is `content-length`; the length is its value, without white
/// space around it.
pub proof fn a_length_header_declares_its_value(name: Seq<char>, value: Seq<char>)
    requires
        forall|k: int| 0 <= k < name.len() ==> #[trigger] name[k] != ':',
    ensures
        header_length(name + seq![':'] + value) == if text::ascii_lower(text::trimmed(name))
            == "content-length"@ {
            text::size_value(text::trimmed(value))
        } else {
            None
        },
        header_length(name) is None,
{
    let line = name + seq![':'] + value;
    assert forall|k: int| 0 <= k < name.len() implies #[trigger] line[k] != ':' by {
        assert(line[k] == name[k]);
    }
    text::lemma_next_char(line, ':', 0, name.len() as int);
    assert(line.subrange(0, name.len() as int) =~= name);
    assert(line.subrange(name.len() as int + 1, line.len() as int) =~= value);
    text::lemma_next_char(name, ':', 0, name.len() as int);
}

proof fn lemma_line_end_shifts(before: Seq<char>, s: Seq<char>, i: int)
    requires
        0 <= i <= s.len(),
    ensures
        line_end(before + s, before.len() + i) == before.len() + line_end(s, i),
    decreases s.len() - i,
{
    let all = before + s;
    if i < s.len() {
        assert(all[before.len() + i] == s[i]);
        if i + 1 < s.len() {
            assert(all[before.len() + i + 1] == s[i + 1]);
        }
        lemma_line_end_shifts(before, s, i + 1);
    }
}

proof fn lemma_declared_length_shifts(before: Seq<char>, s: Seq<char>, i: int)
    requires
        0 <= i,
    ensures
        declared_length(before + s, before.len() + i) == declared_length(s, i),
    decreases s.len() - i,
{
    let all = before + s;
    if i < s.len() {
        let end = line_end(s, i);
        lemma_line_end_shifts(before, s, i);
        lemma_line_end_bounds(s, i);
        assert(all.subrange(before.len() + i, before.len() + end) =~= s.subrange(i, end));
        if end + 2 <= s.len() {
            lemma_declared_length_shifts(before, s, end + 2);
        }
    }
}

/// Headers are read line by line: the first that declares a length that is a number is the one
/// that counts.
pub proof fn the_first_declared_length_counts(line: Seq<char>, rest: Seq<char>)
    requires
        forall|k: int|
            0 <= k && k + 1 < line.len() ==> !(#[trigger] line[k] == '\r' && line[k + 1] == '\n'),
        line.len() > 0,
    ensures
        declared_length(line + seq!['\r', '\n'] + rest, 0) == if header_length(line) is Some {
            header_length(line)
        } else {
            declared_length(rest, 0)
        },
        declared_length(line, 0) == header_length(line),
        declared_length(Seq::empty(), 0) is None,
{
    let first = line + seq!['\r', '\n'];
    let s = first + rest;
    let n = line.len() as int;
    assert forall|k: int| 0 <= k < n && k + 1 < s.len() implies !(#[trigger] s[k] == '\r'
        && s[k + 1] == '\n') by {
        assert(s[k] == line[k]);
        if k + 1 < n {
            assert(s[k + 1] == line[k + 1]);
        }
    }
    assert(s[n] == '\r' && s[n + 1] == '\n');
    lemma_line_end(s, 0, n);
    assert(s.subrange(0, n) =~= line);
    lemma_declared_length_shifts(first, rest, 0);
    lemma_line_end(line, 0, n);
    assert(line.subrange(0, n) =~= line);
}

/// The length of the body is looked for after the first line; a request that declares none has
/// no body.
pub proof fn the_length_is_declared_after_the_first_line(line: Seq<char>, headers: Seq<char>)
    requires
        forall|k: int|
            0 <= k && k + 1 < line.len() ==> !(#[trigger] line[k] == '\r' && line[k + 1] == '\n'),
    ensures
        head_model(line + seq!['\r', '\n'] + headers) matches Ok(head) ==> {
            &&& declared_length(headers, 0) matches Some(n) ==> head.length == n
            &&& declared_length(headers, 0) is None ==> head.length == 0
        },
        head_model(line) matches Ok(head) ==> head.length == 0,
{
    let first = line + seq!['\r', '\n'];
    let s = first + headers;
    let n = line.len() as int;
    assert forall|k: int| 0 <= k < n && k + 1 < s.len() implies !(#[trigger] s[k] == '\r'
        && s[k + 1] == '\n') by {
        assert(s[k] == line[k]);
        if k + 1 < n {
            assert(s[k + 1] == line[k + 1]);
        }
    }
    assert(s[n] == '\r' && s[n + 1] == '\n');
    lemma_line_end(s, 0, n);
    lemma_declared_length_shifts(first, headers, 0);
    lemma_line_end(line, 0, n);
}

/// A request is read back as it was sent, however it is cut: its head up to the first blank line,
/// and of what follows as much as it declares, in full; what comes after that is not part of it. A
/// head that declares more than 65536 bytes is refused, and so is one that comes in with more than
/// 65536 bytes in all.
pub proof fn a_request_is_read_back(
    before: Seq<u8>,
    chunk: Seq<u8>,
    head: Seq<u8>,
    ended: Seq<u8>,
    body: Seq<u8>,
)
    requires
        ended == head + seq![13u8, 10u8, 13u8, 10u8],
        forall|j: int|
            0 <= j < head.len() ==> #[trigger] ended.subrange(j, j + 4) != seq![
                13u8,
                10u8,
                13u8,
                10u8,
            ],
        before + chunk == ended + body,
    ensures
        ({
            let got = reading(before, chunk);
            if before.len() < ended.len() && before.len() + chunk.len() > 65536 {
                got == ProgressModel::Failed(RequestError::RequestTooLarge)
            } else {
                match head_model(lossy_text(head)) {
                    Err(error) => got == ProgressModel::Failed(error),
                    Ok(said) => {
                        &&& said.length > 65536 ==> got == ProgressModel::Failed(
                            RequestError::BodyTooLarge,
                        )
                        &&& body.len() < said.length <= 65536 ==> got is More
                        &&& said.length <= 65536 && said.length <= body.len() ==> got
                            == ProgressModel::Done(
                            RequestModel {
                                method: said.method,
                                path: said.path,
                                body: body.take(said.length as int),
                            },
                        )
                    },
                }
            }
        }),
{
    let all = before + chunk;
    let n = head.len() as int;
    assert(all.subrange(n, n + 4) =~= blank_line());
    assert forall|j: int| 0 <= j < n implies !#[trigger] occurs_at(all, blank_line(), j) by {
        assert(all.subrange(j, j + 4) =~= ended.subrange(j, j + 4));
    }
    assert(occurs_at(all, blank_line(), n));
    lemma_head_end(all, Some(n));
    assert forall|j: int| #[trigger] occurs_at(before, blank_line(), j) implies occurs_at(
        all,
        blank_line(),
        j,
    ) by {
        assert(all.subrange(j, j + 4) =~= before.subrange(j, j + 4));
    }
    if before.len() < ended.len() {
        assert forall|j: int| !#[trigger] occurs_at(before, blank_line(), j) by {
            if occurs_at(before, blank_line(), j) {
                assert(occurs_at(all, blank_line(), j));
            }
        }
    } else {
        assert(before.subrange(n, n + 4) =~= all.subrange(n, n + 4));
        assert(occurs_at(before, blank_line(), n));
    }
    assert(all.subrange(0, n) =~= head);
    if let Ok(said) = head_model(lossy_text(head)) {
        if said.length <= body.len() {
            assert(all.subrange(n + 4, n + 4 + said.length) =~= body.take(said.length as int));
        }
    }
}

/// A head that is not complete waits for more, up to 65536 bytes.
pub proof fn an_incomplete_head_waits(before: Seq<u8>, chunk: Seq<u8>, bytes: Seq<u8>)
    requires
        bytes == before + chunk,
        forall|j: int|
            0 <= j && j + 4 <= bytes.len() ==> #[trigger] bytes.subrange(j, j + 4) != seq![
                13u8,
                10u8,
                13u8,
                10u8,
            ],
    ensures
        bytes.len() <= 65536 ==> reading(before, chunk) is More,
        bytes.len() > 65536 ==> reading(before, chunk) == ProgressModel::Failed(
            RequestError::RequestTooLarge,
        ),
{
    assert forall|j: int| !#[trigger] occurs_at(bytes, blank_line(), j) by {
        if 0 <= j && j + 4 <= bytes.len() {
            assert(bytes.subrange(j, j + 4) != seq![13u8, 10u8, 13u8, 10u8]);
        }
    }
    assert forall|j: int| !#[trigger] occurs_at(before, blank_line(), j) by {
        if occurs_at(before, blank_line(), j) {
            assert(bytes.subrange(j, j + 4) =~= before.subrange(j, j + 4));
            assert(occurs_at(bytes, blank_line(), j));
        }
    }
}

/// A response says its status and what that means, the type and the length of its body, and
/// that the connection closes after it.
pub proof fn a_response_head_says_it_all(status: u16, content_type: Seq<char>, length: usize)
    ensures
        response_head_text(status, content_type, length) == "HTTP/1.1 "@ + text::decimal(
            status as nat,
        ) + " "@ + (if status == 200 {
            "OK"@
        } else if status == 400 {
            "Bad Request"@
        } else if status == 404 {
            "Not Found"@
        } else if status == 405 {
            "Method Not Allowed"@
        } else if status == 500 {
            "Internal Server Error"@
        } else {
            "Error"@
        }) + "\r\nContent-Type: "@ + content_type + "\r\nContent-Length: "@ + text::decimal(
            length as nat,
        ) + "\r\nConnection: close\r\n\r\n"@,
{
}

/// The errors say what is wrong with a request.
pub proof fn errors_say_what_is_wrong()
    ensures
        RequestError::ClosedBeforeHead.text() == "client closed before request headers"@,
        RequestError::RequestTooLarge.text() == "request too large"@,
        RequestError::NoMethod.text() == "no method"@,
        RequestError::NoPath.text() == "no path"@,
        RequestError::BodyTooLarge.text() == "body too large"@,
        RequestError::ClosedInBody.text() == "client closed inside body"@,
{
}

} // verus!
