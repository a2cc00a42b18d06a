//! Requests, responses and their parts.

use vstd::prelude::*;
use vstd::slice::slice_subrange;
use vstd::string::*;
use vstd::utf8::*;

use crate::bytes::copy_bytes;
use crate::net::line::{line_end, NEWLINE};
use crate::text::{
    chars_of, dec, is_space, lower_text, lowercase, parse_number, parsed_number, push_decimal,
    same_text, space, text_from_utf8, text_of, trim, trimmed, trimmed_start,
};

verus! {

// ---------------------------------------------------------------------------
// Words
// ---------------------------------------------------------------------------

/// How many of the first characters are no white space.
pub open spec fn word_len(s: Seq<char>) -> nat
    decreases s.len(),
{
    if s.len() == 0 || is_space(s[0]) {
        0
    } else {
        1 + word_len(s.drop_first())
    }
}

/// Word `n` (from zero) of the words between white space.
pub open spec fn word(s: Seq<char>, n: nat) -> Option<Seq<char>>
    decreases n,
{
    let t = trimmed_start(s);
    if t.len() == 0 {
        None
    } else if n == 0 {
        Some(t.take(word_len(t) as int))
    } else {
        word(t.skip(word_len(t) as int), (n - 1) as nat)
    }
}

/// Word `n` (from zero) of the words between white space.
pub fn nth_word(s: &str, n: usize) -> (r: Option<String>)
    ensures
        match word(s@, n as nat) {
            Some(w) => r is Some && r->0@ == w,
            None => r is None,
        },
{
    let chars = chars_of(s);
    let mut from: usize = 0;
    let mut left: usize = n;
    assert(chars@.skip(0) =~= chars@);
    loop
        invariant
            from <= chars@.len(),
            word(chars@.skip(from as int), left as nat) == word(s@, n as nat),
        decreases left,
    {
        let ghost start = chars@.skip(from as int);
        while from < chars.len() && space(chars[from])
            invariant
                from <= chars@.len(),
                trimmed_start(chars@.skip(from as int)) == trimmed_start(start),
            decreases chars@.len() - from,
        {
            assert(chars@.skip(from as int).drop_first() =~= chars@.skip(from + 1));
            from += 1;
        }
        let ghost t = chars@.skip(from as int);
        assert(trimmed_start(start) == t);
        if from == chars.len() {
            return None;
        }
        let mut end: usize = from;
        assert(t.skip(0) =~= t);
        while end < chars.len() && !space(chars[end])
            invariant
                from <= end <= chars@.len(),
                t == chars@.skip(from as int),
                (end - from) + word_len(t.skip(end - from)) == word_len(t),
            decreases chars@.len() - end,
        {
            assert(t.skip(end - from).drop_first() =~= t.skip(end - from + 1));
            end += 1;
        }
        assert(word_len(t) == end - from);
        if left == 0 {
            let found = text_of(slice_subrange(chars.as_slice(), from, end));
            assert(found@ =~= t.take(end - from));
            return Some(found);
        }
        assert(t.skip(end - from) =~= chars@.skip(end as int));
        left = left - 1;
        from = end;
    }
}

// ---------------------------------------------------------------------------
// Requests
// ---------------------------------------------------------------------------

/// The head of a request that posts `body_len` bytes.
pub open spec fn post_head(
    path: Seq<char>,
    authority: Seq<char>,
    content_type: Seq<char>,
    body_len: nat,
) -> Seq<char> {
    "POST "@ + path + " HTTP/1.1\r\nHost: "@ + authority + "\r\nContent-Type: "@ + content_type
        + "\r\nContent-Length: "@ + dec(body_len) + "\r\nConnection: close\r\n\r\n"@
}

/// The head of a request that posts `body_len` bytes.
pub fn post_request(path: &str, authority: &str, content_type: &str, body_len: usize) -> (r: String)
    ensures
        r@ == post_head(path@, authority@, content_type@, body_len as nat),
{
    let mut out = "POST ".to_owned();
    out.append(path);
    out.append(" HTTP/1.1\r\nHost: ");
    out.append(authority);
    out.append("\r\nContent-Type: ");
    out.append(content_type);
    out.append("\r\nContent-Length: ");
    push_decimal(&mut out, body_len as u64);
    out.append("\r\nConnection: close\r\n\r\n");
    out
}

/// The first line of a response, without its newline.
pub open spec fn status_line(response: Seq<u8>) -> Seq<u8> {
    let n = line_end(response) as int;
    if n > 0 && response[n - 1] == NEWLINE {
        response.take(n - 1)
    } else {
        response.take(n)
    }
}

/// The status that a response begins with: the second word of its first line.
pub open spec fn response_status(response: Seq<u8>) -> Option<nat> {
    let line = status_line(response);
    if !valid_utf8(line) {
        None
    } else {
        match word(decode_utf8(line), 1) {
            None => None,
            Some(w) => parsed_number(w, 65_535),
        }
    }
}

/// The status that a response begins with.
pub fn parse_status(response: &[u8]) -> (r: Option<u16>)
    ensures
        match response_status(response@) {
            Some(n) => r is Some && r->0 == n,
            None => r is None,
        },
{
    let mut n: usize = 0;
    assert(response@.skip(0) =~= response@);
    while n < response.len() && response[n] != NEWLINE
        invariant
            n <= response@.len(),
            n + line_end(response@.skip(n as int)) == line_end(response@),
            forall|i: int| 0 <= i < n ==> response@[i] != NEWLINE,
        decreases response@.len() - n,
    {
        assert(response@.skip(n as int).drop_first() =~= response@.skip(n + 1));
        n += 1;
    }
    let line = copy_bytes(slice_subrange(response, 0, n));
    proof {
        if n < response@.len() {
            assert(line_end(response@) == n + 1);
        } else {
            assert(line_end(response@) == n);
        }
        assert(line@ =~= status_line(response@));
    }
    match text_from_utf8(line) {
        None => None,
        Some(text) => match nth_word(text.as_str(), 1) {
            None => None,
            Some(w) => match parse_number(w.as_str(), 65_535) {
                Some(v) => Some(v as u16),
                None => None,
            },
        },
    }
}

// ---------------------------------------------------------------------------
// Responses
// ---------------------------------------------------------------------------

/// What a status is called.
pub open spec fn reason(status: u16) -> Seq<char> {
    if status == 200 {
        "OK"@
    } else if status == 400 {
        "Bad Request"@
    } else if status == 404 {
        "Not Found"@
    } else if status == 405 {
        "Method Not Allowed"@
    } else if status == 413 {
        "Payload Too Large"@
    } else if status == 431 {
        "Request Header Fields Too Large"@
    } else if status == 503 {
        "Service Unavailable"@
    } else {
        "Unknown"@
    }
}

/// A whole response.
pub open spec fn response(status: u16, content_type: Seq<char>, body: Seq<char>) -> Seq<char> {
    "HTTP/1.1 "@ + dec(status as nat) + " "@ + reason(status) + "\r\nContent-Type: "@ + content_type
        + "\r\nContent-Length: "@ + dec(encode_utf8(body).len())
        + "\r\nConnection: close\r\n\r\n"@ + body
}

/// A whole response.
pub fn write_response(status: u16, content_type: &str, body: &str) -> (r: String)
    ensures
        r@ == response(status, content_type@, body@),
{
    let mut out = "HTTP/1.1 ".to_owned();
    push_decimal(&mut out, status as u64);
    out.append(" ");
    if status == 200 {
        out.append("OK");
    } else if status == 400 {
        out.append("Bad Request");
    } else if status == 404 {
        out.append("Not Found");
    } else if status == 405 {
        out.append("Method Not Allowed");
    } else if status == 413 {
        out.append("Payload Too Large");
    } else if status == 431 {
        out.append("Request Header Fields Too Large");
    } else if status == 503 {
        out.append("Service Unavailable");
    } else {
        out.append("Unknown");
    }
    out.append("\r\nContent-Type: ");
    out.append(content_type);
    out.append("\r\nContent-Length: ");
    push_decimal(&mut out, body.as_bytes().len() as u64);
    out.append("\r\nConnection: close\r\n\r\n");
    out.append(body);
    out
}

// ---------------------------------------------------------------------------
// Reading a request
// ---------------------------------------------------------------------------

/// Longest first line of a request.
pub const MAX_REQUEST_LINE_BYTES: usize = 8_192;

/// Longest header line of a request.
pub const MAX_HEADER_LINE_BYTES: usize = 8_192;

/// Most bytes of header lines of a request.
pub const MAX_HEADER_BYTES: usize = 32_768;

/// Most connections served at once.
pub const MAX_CONCURRENT_CONNECTIONS: usize = 128;

/// What has been read of a request's headers.
#[derive(Debug, Clone, Copy, PartialEq, Eq, Structural)]
pub struct HeaderState {
    /// Bytes of header lines so far.
    pub bytes: usize,
    /// Declared length of the body.
    pub content_length: u64,
}

/// What a header line means for the reading of a request.
#[derive(Debug, Clone, Copy, PartialEq, Eq, Structural)]
pub enum HeaderStep {
    /// There are more header bytes than allowed.
    TooLarge,
    /// The headers are complete.
    Complete,
    /// Another line follows.
    More(HeaderState),
}

/// The length that a header line declares, if it declares one. What is no
/// number counts as zero.
pub open spec fn declared_length(line: Seq<char>) -> Option<nat> {
    let l = lower_text(line);
    let key = "content-length:"@;
    if l.len() >= key.len() && l.take(key.len() as int) == key {
        match parsed_number(trimmed(l.skip(key.len() as int)), u64::MAX as nat) {
            Some(n) => Some(n),
            None => Some(0),
        }
    } else {
        None
    }
}

/// What a header line means.
pub open spec fn header_step(s: HeaderState, line: Seq<char>) -> HeaderStep {
    let bytes = s.bytes + encode_utf8(line).len();
    if bytes > MAX_HEADER_BYTES {
        HeaderStep::TooLarge
    } else if line == "\r\n"@ || line == "\n"@ {
        HeaderStep::Complete
    } else {
        HeaderStep::More(
            HeaderState {
                bytes: bytes as usize,
                content_length: match declared_length(line) {
                    Some(n) => n as u64,
                    None => s.content_length,
                },
            },
        )
    }
}

fn parse_declared_length(line: &str) -> (r: Option<u64>)
    ensures
        match declared_length(line@) {
            Some(n) => r is Some && r->0 == n,
            None => r is None,
        },
{
    let lower = lowercase(line);
    let chars = chars_of(lower.as_str());
    let key = chars_of("content-length:");
    if chars.len() < key.len() {
        return None;
    }
    let head = text_of(slice_subrange(chars.as_slice(), 0, key.len()));
    assert(head@ =~= lower@.take(key@.len() as int));
    if !same_text(head.as_str(), "content-length:") {
        return None;
    }
    let tail = text_of(slice_subrange(chars.as_slice(), key.len(), chars.len()));
    assert(tail@ =~= lower@.skip(key@.len() as int));
    match parse_number(trim(tail.as_str()).as_str(), u64::MAX) {
        Some(n) => Some(n),
        None => Some(0),
    }
}

impl HeaderState {
    /// Nothing has been read.
    pub fn new() -> (r: Self)
        ensures
            r == (HeaderState { bytes: 0, content_length: 0 }),
    {
        HeaderState { bytes: 0, content_length: 0 }
    }

    /// Take a header line.
    pub fn step(self, line: &str) -> (r: HeaderStep)
        requires
            self.bytes <= MAX_HEADER_BYTES,
        ensures
            r == header_step(self, line@),
            r matches HeaderStep::More(s) ==> s.bytes <= MAX_HEADER_BYTES,
    {
        let len: usize = line.as_bytes().len();
        if len > MAX_HEADER_BYTES - self.bytes {
            return HeaderStep::TooLarge;
        }
        if same_text(line, "\r\n") || same_text(line, "\n") {
            return HeaderStep::Complete;
        }
        let content_length: u64 = match parse_declared_length(line) {
            Some(n) => n,
            None => self.content_length,
        };
        HeaderStep::More(HeaderState { bytes: self.bytes + len, content_length })
    }
}

/// Method and path of a request: the first two words of its first line, empty
/// where they are missing.
pub open spec fn request_parts(line: Seq<char>) -> (Seq<char>, Seq<char>) {
    (
        match word(line, 0) {
            Some(w) => w,
            None => Seq::empty(),
        },
        match word(line, 1) {
            Some(w) => w,
            None => Seq::empty(),
        },
    )
}

/// Method and path of a request.
pub fn parse_request_line(line: &str) -> (r: (String, String))
    ensures
        (r.0@, r.1@) == request_parts(line@),
{
    let method = match nth_word(line, 0) {
        Some(w) => w,
        None => String::new(),
    };
    let path = match nth_word(line, 1) {
        Some(w) => w,
        None => String::new(),
    };
    proof {
        assert(word(line@, 0) is None ==> method@ =~= Seq::<char>::empty());
        assert(word(line@, 1) is None ==> path@ =~= Seq::<char>::empty());
    }
    (method, path)
}

/// Whether one connection more may be served.
pub fn may_admit_connection(active: usize) -> (r: bool)
    ensures
        r == (active < MAX_CONCURRENT_CONNECTIONS),
{
    active < MAX_CONCURRENT_CONNECTIONS
}

} // verus!
