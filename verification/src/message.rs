//! Request and response framing of the `wisp://` protocol.
//!
//! A frame is a first line, header lines `name: value`, a blank line and a
//! body whose length the `content-length` header gives. Writing appends the
//! frame's bytes to a byte buffer; reading takes a frame from the front of a
//! byte buffer exactly as reading it line by line from a stream would.
use vstd::prelude::*;
use vstd::utf8::*;
use crate::text::{
    chars_of, decimal, decode_utf8_exec, encode_chars, eq_ignore_ascii_case,
    eq_ignore_ascii_case_vec, find, find_char, lemma_find_from, parse_u16, parse_u16_vec,
    parse_usize, parse_usize_vec, split_once, split_once_vec, string_of, sub_chars, trim,
    trim_crlf, trim_crlf_vec, trim_vec, usize_decimal,
};

verus! {

/// The protocol version written on every first line.
pub const VERSION: &'static str = "WISP/1.0";

/// A header as characters: `(name, value)`.
pub type Header = (Seq<char>, Seq<char>);

/// `"WISP/1.0"`.
pub open spec fn version_text() -> Seq<char> {
    seq!['W', 'I', 'S', 'P', '/', '1', '.', '0']
}

/// `"\r\n"`.
pub open spec fn crlf() -> Seq<char> {
    seq!['\r', '\n']
}

/// `"content-length"`.
pub open spec fn content_length_name() -> Seq<char> {
    seq!['c', 'o', 'n', 't', 'e', 'n', 't', '-', 'l', 'e', 'n', 'g', 't', 'h']
}

/// The headers of a vector, as characters.
pub open spec fn headers_view(h: Seq<(String, String)>) -> Seq<Header> {
    Seq::new(h.len(), |i: int| (h[i].0@, h[i].1@))
}

/// Errors met while reading a frame.
#[derive(Debug, Clone, Copy, PartialEq, Eq, Structural)]
pub enum MessageError {
    /// A line was not valid UTF-8.
    InvalidUtf8,
    /// The data ended before the body was complete.
    UnexpectedEof,
}

/// A request frame.
#[derive(Debug, Clone)]
pub struct Request {
    pub method: String,
    pub path: String,
    pub headers: Vec<(String, String)>,
    pub body: Vec<u8>,
}

/// A response frame.
#[derive(Debug, Clone)]
pub struct Response {
    pub status: u16,
    pub reason: String,
    pub headers: Vec<(String, String)>,
    pub body: Vec<u8>,
}

/// A request as mathematical values.
pub struct RequestView {
    pub method: Seq<char>,
    pub path: Seq<char>,
    pub headers: Seq<Header>,
    pub body: Seq<u8>,
}

/// A response as mathematical values.
pub struct ResponseView {
    pub status: u16,
    pub reason: Seq<char>,
    pub headers: Seq<Header>,
    pub body: Seq<u8>,
}

impl View for Request {
    type V = RequestView;

    open spec fn view(&self) -> RequestView {
        RequestView {
            method: self.method@,
            path: self.path@,
            headers: headers_view(self.headers@),
            body: self.body@,
        }
    }
}

impl View for Response {
    type V = ResponseView;

    open spec fn view(&self) -> ResponseView {
        ResponseView {
            status: self.status,
            reason: self.reason@,
            headers: headers_view(self.headers@),
            body: self.body@,
        }
    }
}

// ---------------------------------------------------------------------------
// What a frame looks like on the wire
// ---------------------------------------------------------------------------

/// `"name: value\r\n"`.
pub open spec fn header_line(h: Header) -> Seq<char> {
    h.0 + seq![':', ' '] + h.1 + crlf()
}

/// The header lines, in order.
pub open spec fn headers_text(hs: Seq<Header>) -> Seq<char>
    decreases hs.len(),
{
    if hs.len() == 0 {
        Seq::empty()
    } else {
        header_line(hs[0]) + headers_text(hs.drop_first())
    }
}

/// The text of a request frame up to its body.
pub open spec fn request_head(r: RequestView) -> Seq<char> {
    r.method + seq![' '] + r.path + seq![' '] + version_text() + crlf() + headers_text(r.headers)
        + crlf()
}

/// The text of a response frame up to its body.
pub open spec fn response_head(r: ResponseView) -> Seq<char> {
    version_text() + seq![' '] + decimal(r.status as nat) + seq![' '] + r.reason + crlf()
        + headers_text(r.headers) + crlf()
}

/// The bytes of a request frame.
pub open spec fn request_bytes(r: RequestView) -> Seq<u8> {
    encode_utf8(request_head(r)) + r.body
}

/// The bytes of a response frame.
pub open spec fn response_bytes(r: ResponseView) -> Seq<u8> {
    encode_utf8(response_head(r)) + r.body
}

// ---------------------------------------------------------------------------
// How a frame is read
// ---------------------------------------------------------------------------

/// The end of the line that starts at `i`: just past the next newline byte,
/// or the end of the data.
pub open spec fn line_end(d: Seq<u8>, i: int) -> int
    decreases d.len() - i,
{
    if i < 0 || i >= d.len() {
        d.len() as int
    } else if d[i] == 10 {
        i + 1
    } else {
        line_end(d, i + 1)
    }
}

/// The header a line holds: the trimmed parts around its first `':'`, if any.
pub open spec fn header_of_line(line: Seq<char>) -> Seq<Header> {
    match split_once(line, ':') {
        Some((k, v)) => seq![(trim(k), trim(v))],
        None => Seq::empty(),
    }
}

/// Reads header lines from `pos` up to a blank line or the end of the data,
/// giving the headers and the position after the block.
pub open spec fn read_fields(d: Seq<u8>, pos: int) -> Result<(Seq<Header>, int), MessageError>
    decreases d.len() - pos,
{
    if pos < 0 || pos >= d.len() {
        Ok((Seq::empty(), pos))
    } else {
        let e = line_end(d, pos);
        let bytes = d.subrange(pos, e);
        if !valid_utf8(bytes) {
            Err(MessageError::InvalidUtf8)
        } else {
            let line = trim_crlf(decode_utf8(bytes));
            if line.len() == 0 || e <= pos || e > d.len() {
                Ok((Seq::empty(), e))
            } else {
                match read_fields(d, e) {
                    Ok((rest, p)) => Ok((header_of_line(line) + rest, p)),
                    Err(x) => Err(x),
                }
            }
        }
    }
}

/// Reads the first line and the header block at the front of `d`.
pub open spec fn read_head(d: Seq<u8>) -> Result<(Seq<char>, Seq<Header>, int), MessageError> {
    let e = line_end(d, 0);
    let bytes = d.subrange(0, e);
    if !valid_utf8(bytes) {
        Err(MessageError::InvalidUtf8)
    } else {
        match read_fields(d, e) {
            Ok((h, p)) => Ok((trim_crlf(decode_utf8(bytes)), h, p)),
            Err(x) => Err(x),
        }
    }
}

/// `splitn(3, ' ')`: up to three parts, the last holding the rest of the line.
pub open spec fn split3(s: Seq<char>) -> (Seq<char>, Option<Seq<char>>, Option<Seq<char>>) {
    match find(s, ' ') {
        None => (s, None, None),
        Some(i) => {
            let rest = s.skip(i + 1);
            match find(rest, ' ') {
                None => (s.take(i), Some(rest), None),
                Some(j) => (s.take(i), Some(rest.take(j)), Some(rest.skip(j + 1))),
            }
        },
    }
}

/// The value of the first header named `name`, ignoring ASCII case.
pub open spec fn header_get(h: Seq<Header>, name: Seq<char>) -> Option<Seq<char>>
    decreases h.len(),
{
    if h.len() == 0 {
        None
    } else if eq_ignore_ascii_case(h[0].0, name) {
        Some(h[0].1)
    } else {
        header_get(h.drop_first(), name)
    }
}

/// The body length the headers announce: the first `content-length` that
/// parses as a `usize`, else 0.
pub open spec fn content_length(h: Seq<Header>) -> nat {
    match header_get(h, content_length_name()) {
        Some(v) => match parse_usize(v) {
            Some(n) => n as nat,
            None => 0,
        },
        None => 0,
    }
}

/// Reads the body of `n` bytes at `p`.
pub open spec fn read_body(d: Seq<u8>, p: int, n: nat) -> Result<Seq<u8>, MessageError> {
    if n > 0 && p + n > d.len() {
        Err(MessageError::UnexpectedEof)
    } else {
        Ok(d.subrange(p, p + n))
    }
}

/// The request at the front of `d` and the number of bytes it takes.
pub open spec fn read_request(d: Seq<u8>) -> Result<(RequestView, int), MessageError> {
    match read_head(d) {
        Err(x) => Err(x),
        Ok((first, h, p)) => {
            let parts = split3(first);
            let path = match parts.1 {
                Some(x) => x,
                None => seq!['/'],
            };
            let n = content_length(h);
            match read_body(d, p, n) {
                Err(x) => Err(x),
                Ok(body) => Ok(
                    (RequestView { method: parts.0, path, headers: h, body }, p + n),
                ),
            }
        },
    }
}

/// The response at the front of `d` and the number of bytes it takes.
pub open spec fn read_response(d: Seq<u8>) -> Result<(ResponseView, int), MessageError> {
    match read_head(d) {
        Err(x) => Err(x),
        Ok((first, h, p)) => {
            let parts = split3(first);
            let status = match parts.1 {
                Some(x) => match parse_u16(x) {
                    Some(v) => v,
                    None => 0,
                },
                None => 0,
            };
            let reason = match parts.2 {
                Some(x) => x,
                None => Seq::empty(),
            };
            let n = content_length(h);
            match read_body(d, p, n) {
                Err(x) => Err(x),
                Ok(body) => Ok(
                    (ResponseView { status, reason, headers: h, body }, p + n),
                ),
            }
        },
    }
}

/// Whether two results agree, views compared.
pub open spec fn request_result_view(r: Result<(Request, usize), MessageError>) -> Result<
    (RequestView, int),
    MessageError,
> {
    match r {
        Ok((q, n)) => Ok((q@, n as int)),
        Err(e) => Err(e),
    }
}

/// Whether two results agree, views compared.
pub open spec fn response_result_view(r: Result<(Response, usize), MessageError>) -> Result<
    (ResponseView, int),
    MessageError,
> {
    match r {
        Ok((q, n)) => Ok((q@, n as int)),
        Err(e) => Err(e),
    }
}

// ---------------------------------------------------------------------------
// Building frames
// ---------------------------------------------------------------------------

/// A copy of `s` (`str::to_string`).
fn own(s: &str) -> (r: String)
    ensures
        r@ == s@,
{
    s.to_owned()
}

/// `"content-length"` as a `String`.
fn content_length_string() -> (r: String)
    ensures
        r@ == content_length_name(),
{
    let s = "content-length";
    proof {
        reveal_strlit("content-length");
    }
    assert(s@ =~= content_length_name());
    s.to_owned()
}

/// The decimal text of `n` as a `String` (`usize::to_string`).
fn usize_string(n: usize) -> (r: String)
    ensures
        r@ == decimal(n as nat),
{
    let v = usize_decimal(n);
    string_of(&v)
}

impl Request {
    /// A request with no headers and an empty body.
    pub fn new(method: &str, path: &str) -> (r: Request)
        ensures
            r@ == (RequestView {
                method: method@,
                path: path@,
                headers: Seq::empty(),
                body: Seq::empty(),
            }),
    {
        let r = Request { method: own(method), path: own(path), headers: Vec::new(), body: Vec::new() };
        assert(r@.headers =~= Seq::<Header>::empty());
        r
    }

    /// The request with the header `name: value` appended.
    pub fn header(self, name: &str, value: &str) -> (r: Request)
        ensures
            r@ == (RequestView { headers: self@.headers.push((name@, value@)), ..self@ }),
    {
        let mut s = self;
        s.header_mut(name, value);
        s
    }

    /// The request with `body` as its body and a `content-length` header, giving its
    /// length in decimal, appended.
    pub fn with_body(self, body: Vec<u8>) -> (r: Request)
        ensures
            r@ == (RequestView {
                headers: self@.headers.push((content_length_name(), decimal(body@.len()))),
                body: body@,
                ..self@
            }),
    {
        let mut s = self;
        let len = body.len();
        s.body = body;
        let name = content_length_string();
        let value = usize_string(len);
        s.headers.push((name, value));
        assert(s@.headers =~= self@.headers.push((content_length_name(), decimal(len as nat))));
        s
    }

    fn header_mut(&mut self, name: &str, value: &str)
        ensures
            final(self)@ == (RequestView {
                headers: old(self)@.headers.push((name@, value@)),
                ..old(self)@
            }),
    {
        let ghost before = self@;
        self.headers.push((own(name), own(value)));
        assert(self@.headers =~= before.headers.push((name@, value@)));
    }

    /// Appends the frame's bytes to `w`.
    pub fn write_to(&self, w: &mut Vec<u8>)
        ensures
            final(w)@ == old(w)@ + request_bytes(self@),
    {
        let mut head: Vec<char> = Vec::new();
        push_str(&mut head, self.method.as_str());
        head.push(' ');
        push_str(&mut head, self.path.as_str());
        head.push(' ');
        push_version(&mut head);
        push_crlf(&mut head);
        push_headers(&mut head, &self.headers);
        push_crlf(&mut head);
        assert(head@ =~= request_head(self@));
        let bytes = encode_chars(&head);
        w.extend_from_slice(bytes.as_slice());
        w.extend_from_slice(self.body.as_slice());
        assert(final(w)@ =~= old(w)@ + request_bytes(self@));
    }

    /// Reads the request at the front of `data`, returning it and the number of
    /// bytes it took.
    pub fn read_from(data: &[u8]) -> (r: Result<(Request, usize), MessageError>)
        ensures
            request_result_view(r) == read_request(data@),
    {
        let (first, headers, p) = match read_header_block(data) {
            Ok(x) => x,
            Err(e) => return Err(e),
        };
        let first_chars = chars_of(first.as_str());
        let (m, p1, _p2) = split3_vec(&first_chars);
        let path = match p1 {
            Some(x) => string_of(&x),
            None => {
                let mut v: Vec<char> = Vec::new();
                v.push('/');
                string_of(&v)
            },
        };
        let n = content_length_exec(&headers);
        let body = match read_body_exec(data, p, n) {
            Ok(b) => b,
            Err(e) => return Err(e),
        };
        let method = string_of(&m);
        let dl = data.len();
        assert(p + n <= dl);
        let req = Request { method, path, headers, body };
        Ok((req, p + n))
    }
}

impl Response {
    /// A response with the given status and reason, no headers and an empty body.
    pub fn new(status: u16, reason: &str) -> (r: Response)
        ensures
            r@ == (ResponseView {
                status,
                reason: reason@,
                headers: Seq::empty(),
                body: Seq::empty(),
            }),
    {
        let r = Response { status, reason: own(reason), headers: Vec::new(), body: Vec::new() };
        assert(r@.headers =~= Seq::<Header>::empty());
        r
    }

    /// `200 OK`.
    pub fn ok() -> (r: Response)
        ensures
            r@ == (ResponseView {
                status: 200,
                reason: seq!['O', 'K'],
                headers: Seq::empty(),
                body: Seq::empty(),
            }),
    {
        let reason = "OK";
        proof {
            reveal_strlit("OK");
        }
        assert(reason@ =~= seq!['O', 'K']);
        Response::new(200, reason)
    }

    /// `404 NOT_FOUND`.
    pub fn not_found() -> (r: Response)
        ensures
            r@ == (ResponseView {
                status: 404,
                reason: not_found_text(),
                headers: Seq::empty(),
                body: Seq::empty(),
            }),
    {
        let reason = "NOT_FOUND";
        proof {
            reveal_strlit("NOT_FOUND");
        }
        assert(reason@ =~= not_found_text());
        Response::new(404, reason)
    }

    /// The response with the header `name: value` appended.
    pub fn header(self, name: &str, value: &str) -> (r: Response)
        ensures
            r@ == (ResponseView { headers: self@.headers.push((name@, value@)), ..self@ }),
    {
        let mut s = self;
        let ghost before = s@;
        s.headers.push((own(name), own(value)));
        assert(s@.headers =~= before.headers.push((name@, value@)));
        s
    }

    /// The response with `body` as its body and a `content-length` header, giving
    /// its length in decimal, appended.
    pub fn with_body(self, body: Vec<u8>) -> (r: Response)
        ensures
            r@ == (ResponseView {
                headers: self@.headers.push((content_length_name(), decimal(body@.len()))),
                body: body@,
                ..self@
            }),
    {
        let mut s = self;
        let len = body.len();
        s.body = body;
        let name = content_length_string();
        let value = usize_string(len);
        s.headers.push((name, value));
        assert(s@.headers =~= self@.headers.push((content_length_name(), decimal(len as nat))));
        s
    }

    /// Appends the frame's bytes to `w`.
    pub fn write_to(&self, w: &mut Vec<u8>)
        ensures
            final(w)@ == old(w)@ + response_bytes(self@),
    {
        let mut head: Vec<char> = Vec::new();
        push_version(&mut head);
        head.push(' ');
        let st = usize_decimal(self.status as usize);
        push_all(&mut head, &st);
        head.push(' ');
        push_str(&mut head, self.reason.as_str());
        push_crlf(&mut head);
        push_headers(&mut head, &self.headers);
        push_crlf(&mut head);
        assert(head@ =~= response_head(self@));
        let bytes = encode_chars(&head);
        w.extend_from_slice(bytes.as_slice());
        w.extend_from_slice(self.body.as_slice());
        assert(final(w)@ =~= old(w)@ + response_bytes(self@));
    }

    /// Reads the response at the front of `data`, returning it and the number of
    /// bytes it took.
    pub fn read_from(data: &[u8]) -> (r: Result<(Response, usize), MessageError>)
        ensures
            response_result_view(r) == read_response(data@),
    {
        let (first, headers, p) = match read_header_block(data) {
            Ok(x) => x,
            Err(e) => return Err(e),
        };
        let first_chars = chars_of(first.as_str());
        let (_v, p1, p2) = split3_vec(&first_chars);
        let status: u16 = match p1 {
            Some(x) => match parse_u16_vec(&x) {
                Some(v) => v,
                None => 0,
            },
            None => 0,
        };
        let reason = match p2 {
            Some(x) => string_of(&x),
            None => {
                let v: Vec<char> = Vec::new();
                assert(v@ =~= Seq::<char>::empty());
                string_of(&v)
            },
        };
        let n = content_length_exec(&headers);
        let body = match read_body_exec(data, p, n) {
            Ok(b) => b,
            Err(e) => return Err(e),
        };
        let dl = data.len();
        assert(p + n <= dl);
        let resp = Response { status, reason, headers, body };
        Ok((resp, p + n))
    }
}

/// `"NOT_FOUND"`.
pub open spec fn not_found_text() -> Seq<char> {
    seq!['N', 'O', 'T', '_', 'F', 'O', 'U', 'N', 'D']
}

fn push_all(out: &mut Vec<char>, s: &[char])
    ensures
        final(out)@ == old(out)@ + s@,
{
    let ghost start = out@;
    let mut i: usize = 0;
    while i < s.len()
        invariant
            i <= s@.len(),
            out@ == start + s@.take(i as int),
        decreases s.len() - i,
    {
        out.push(s[i]);
        i = i + 1;
        assert(out@ =~= start + s@.take(i as int));
    }
    assert(s@.take(i as int) =~= s@);
}

fn push_str(out: &mut Vec<char>, s: &str)
    ensures
        final(out)@ == old(out)@ + s@,
{
    let v = chars_of(s);
    push_all(out, &v);
}

fn push_crlf(out: &mut Vec<char>)
    ensures
        final(out)@ == old(out)@ + crlf(),
{
    out.push('\r');
    out.push('\n');
    assert(final(out)@ =~= old(out)@ + crlf());
}

fn push_version(out: &mut Vec<char>)
    ensures
        final(out)@ == old(out)@ + version_text(),
{
    out.push('W');
    out.push('I');
    out.push('S');
    out.push('P');
    out.push('/');
    out.push('1');
    out.push('.');
    out.push('0');
    assert(final(out)@ =~= old(out)@ + version_text());
}

/// Header lines of a prefix, then the next one.
proof fn lemma_headers_text_push(hs: Seq<Header>, k: int)
    requires
        0 <= k < hs.len(),
    ensures
        headers_text(hs.take(k + 1)) == headers_text(hs.take(k)) + header_line(hs[k]),
    decreases k,
{
    if k == 0 {
        assert(hs.take(1).drop_first() =~= Seq::<Header>::empty());
        assert(hs.take(0) =~= Seq::<Header>::empty());
        assert(hs.take(1)[0] == hs[0]);
        assert(headers_text(hs.take(1).drop_first()) =~= Seq::<char>::empty());
        assert(headers_text(hs.take(1)) =~= header_line(hs[0]));
    } else {
        lemma_headers_text_push(hs.drop_first(), k - 1);
        assert(hs.take(k + 1).drop_first() =~= hs.drop_first().take(k));
        assert(hs.take(k).drop_first() =~= hs.drop_first().take(k - 1));
        assert(hs.take(k + 1)[0] == hs[0]);
        assert(hs.take(k)[0] == hs[0]);
    }
}

fn push_headers(out: &mut Vec<char>, headers: &Vec<(String, String)>)
    ensures
        final(out)@ == old(out)@ + headers_text(headers_view(headers@)),
{
    let ghost start = out@;
    let ghost hs = headers_view(headers@);
    let mut i: usize = 0;
    assert(hs.take(0) =~= Seq::<Header>::empty());
    while i < headers.len()
        invariant
            i <= headers@.len(),
            hs == headers_view(headers@),
            out@ == start + headers_text(hs.take(i as int)),
        decreases headers.len() - i,
    {
        let (k, v) = &headers[i];
        push_str(out, k.as_str());
        out.push(':');
        out.push(' ');
        push_str(out, v.as_str());
        push_crlf(out);
        proof {
            lemma_headers_text_push(hs, i as int);
        }
        i = i + 1;
        assert(out@ =~= start + headers_text(hs.take(i as int)));
    }
    assert(hs.take(i as int) =~= hs);
}

// ---------------------------------------------------------------------------
// Reading frames
// ---------------------------------------------------------------------------

fn line_end_exec(d: &[u8], i: usize) -> (e: usize)
    requires
        i <= d@.len(),
    ensures
        e == line_end(d@, i as int),
        i <= e <= d@.len(),
        i < d@.len() ==> i < e,
{
    let mut j = i;
    while j < d.len() && d[j] != 10
        invariant
            i <= j <= d@.len(),
            line_end(d@, i as int) == line_end(d@, j as int),
        decreases d.len() - j,
    {
        j = j + 1;
    }
    if j < d.len() {
        j + 1
    } else {
        j
    }
}

/// Reads one line at `pos`: its text with the trailing CR/LF removed and the
/// position after it.
fn read_line_at(d: &[u8], pos: usize) -> (r: Result<(Vec<char>, usize), MessageError>)
    requires
        pos <= d@.len(),
    ensures
        ({
            let e = line_end(d@, pos as int);
            let bytes = d@.subrange(pos as int, e);
            match r {
                Ok((line, e2)) => valid_utf8(bytes) && e2 == e && line@ == trim_crlf(
                    decode_utf8(bytes),
                ),
                Err(x) => !valid_utf8(bytes) && x == MessageError::InvalidUtf8,
            }
        }),
        r matches Ok((_, e2)) ==> pos <= e2 <= d@.len() && (pos < d@.len() ==> pos < e2),
{
    let e = line_end_exec(d, pos);
    let bytes = &d[pos..e];
    match decode_utf8_exec(bytes) {
        Some(s) => {
            let v = chars_of(s.as_str());
            let t = trim_crlf_vec(&v);
            Ok((t, e))
        },
        None => Err(MessageError::InvalidUtf8),
    }
}

/// The header a line holds, executable.
fn header_of_line_exec(line: &[char]) -> (r: Option<(String, String)>)
    ensures
        r matches Some(h) ==> header_of_line(line@) == seq![(h.0@, h.1@)],
        r is None ==> header_of_line(line@) == Seq::<Header>::empty(),
{
    match split_once_vec(line, ':') {
        Some((k, v)) => {
            let k2 = trim_vec(&k);
            let v2 = trim_vec(&v);
            Some((string_of(&k2), string_of(&v2)))
        },
        None => None,
    }
}

/// Prepends `acc` to the headers of a result.
pub open spec fn prepend_fields(acc: Seq<Header>, r: Result<(Seq<Header>, int), MessageError>) -> Result<
    (Seq<Header>, int),
    MessageError,
> {
    match r {
        Ok((h, p)) => Ok((acc + h, p)),
        Err(x) => Err(x),
    }
}

fn read_fields_exec(d: &[u8], pos: usize) -> (r: Result<(Vec<(String, String)>, usize), MessageError>)
    requires
        pos <= d@.len(),
    ensures
        match r {
            Ok((h, p)) => read_fields(d@, pos as int) == Ok::<(Seq<Header>, int), MessageError>(
                (headers_view(h@), p as int),
            ) && p <= d@.len(),
            Err(x) => read_fields(d@, pos as int) == Err::<(Seq<Header>, int), MessageError>(x),
        },
{
    let mut acc: Vec<(String, String)> = Vec::new();
    let mut p = pos;
    assert(prepend_fields(Seq::empty(), read_fields(d@, p as int)) =~= read_fields(d@, pos as int))
        by {
        match read_fields(d@, p as int) {
            Ok((h, q)) => {
                assert(Seq::<Header>::empty() + h =~= h);
            },
            Err(_) => {},
        }
    }
    loop
        invariant
            p <= d@.len(),
            read_fields(d@, pos as int) == prepend_fields(headers_view(acc@), read_fields(d@, p as int)),
        decreases d@.len() - p,
    {
        if p >= d.len() {
            assert(headers_view(acc@) + Seq::<Header>::empty() =~= headers_view(acc@));
            return Ok((acc, p));
        }
        let (line, e) = match read_line_at(d, p) {
            Ok(x) => x,
            Err(x) => return Err(x),
        };
        if line.len() == 0 {
            assert(headers_view(acc@) + Seq::<Header>::empty() =~= headers_view(acc@));
            return Ok((acc, e));
        }
        let ghost before = headers_view(acc@);
        let ghost hl = header_of_line(line@);
        match header_of_line_exec(&line) {
            Some(h) => {
                acc.push(h);
            },
            None => {},
        }
        assert(headers_view(acc@) =~= before + hl);
        proof {
            match read_fields(d@, e as int) {
                Ok((rest, q)) => {
                    assert(before + (hl + rest) =~= (before + hl) + rest);
                },
                Err(_) => {},
            }
        }
        p = e;
    }
}

/// Reads the header lines from `pos` up to a blank line or the end of the data.
pub fn read_header_block_from(d: &[u8], pos: usize) -> (r: Result<Vec<(String, String)>, MessageError>)
    requires
        pos <= d@.len(),
    ensures
        match r {
            Ok(h) => read_fields(d@, pos as int) matches Ok((hv, _)) && hv == headers_view(h@),
            Err(x) => read_fields(d@, pos as int) == Err::<(Seq<Header>, int), MessageError>(x),
        },
{
    match read_fields_exec(d, pos) {
        Ok((h, _)) => Ok(h),
        Err(x) => Err(x),
    }
}

/// Reads the first line and the header block at the front of `data`: the first
/// line without its line ending, the headers, and the position after the block.
pub fn read_header_block(data: &[u8]) -> (r: Result<(String, Vec<(String, String)>, usize), MessageError>)
    ensures
        match r {
            Ok((first, h, p)) => read_head(data@) == Ok::<(Seq<char>, Seq<Header>, int), MessageError>(
                (first@, headers_view(h@), p as int),
            ) && p <= data@.len(),
            Err(x) => read_head(data@) == Err::<(Seq<char>, Seq<Header>, int), MessageError>(x),
        },
{
    let (first, e) = match read_line_at(data, 0) {
        Ok(x) => x,
        Err(x) => return Err(x),
    };
    match read_fields_exec(data, e) {
        Ok((h, p)) => Ok((string_of(&first), h, p)),
        Err(x) => Err(x),
    }
}

fn split3_vec(s: &[char]) -> (r: (Vec<char>, Option<Vec<char>>, Option<Vec<char>>))
    ensures
        split3(s@) == (r.0@, match r.1 {
            Some(x) => Some(x@),
            None => None::<Seq<char>>,
        }, match r.2 {
            Some(x) => Some(x@),
            None => None::<Seq<char>>,
        }),
{
    match find_char(s, ' ') {
        None => (sub_chars(s, 0, s.len()), None, None),
        Some(i) => {
            proof {
                lemma_find_from(s@, ' ', 0);
            }
            assert(i < s.len());
            let first = sub_chars(s, 0, i);
            let rest = sub_chars(s, i + 1, s.len());
            assert(first@ =~= s@.take(i as int));
            assert(rest@ =~= s@.skip(i + 1));
            match find_char(&rest, ' ') {
                None => (first, Some(rest), None),
                Some(j) => {
                    proof {
                        lemma_find_from(rest@, ' ', 0);
                    }
                    let second = sub_chars(&rest, 0, j);
                    let third = sub_chars(&rest, j + 1, rest.len());
                    assert(second@ =~= rest@.take(j as int));
                    assert(third@ =~= rest@.skip(j + 1));
                    (first, Some(second), Some(third))
                },
            }
        },
    }
}

/// The value of the first header named `name`, ignoring ASCII case.
pub fn header_get_exec(headers: &Vec<(String, String)>, name: &[char]) -> (r: Option<String>)
    ensures
        r matches Some(v) ==> header_get(headers_view(headers@), name@) == Some(v@),
        r is None ==> header_get(headers_view(headers@), name@) is None,
{
    let ghost hs = headers_view(headers@);
    let mut i: usize = 0;
    assert(hs.skip(0) =~= hs);
    while i < headers.len()
        invariant
            i <= headers@.len(),
            hs == headers_view(headers@),
            header_get(hs, name@) == header_get(hs.skip(i as int), name@),
        decreases headers.len() - i,
    {
        let (k, v) = &headers[i];
        let kc = chars_of(k.as_str());
        assert(hs.skip(i as int)[0] == hs[i as int]);
        assert(hs.skip(i as int).drop_first() =~= hs.skip(i + 1));
        if eq_ignore_ascii_case_vec(&kc, name) {
            return Some(v.clone());
        }
        i = i + 1;
    }
    None
}

/// The body length the headers announce.
pub fn content_length_exec(headers: &Vec<(String, String)>) -> (n: usize)
    ensures
        n as nat == content_length(headers_view(headers@)),
{
    let name = chars_of(content_length_string().as_str());
    match header_get_exec(headers, &name) {
        Some(v) => {
            let vc = chars_of(v.as_str());
            match parse_usize_vec(&vc) {
                Some(n) => n,
                None => 0,
            }
        },
        None => 0,
    }
}

fn read_body_exec(d: &[u8], p: usize, n: usize) -> (r: Result<Vec<u8>, MessageError>)
    requires
        p <= d@.len(),
    ensures
        match r {
            Ok(b) => read_body(d@, p as int, n as nat) == Ok::<Seq<u8>, MessageError>(b@) && p
                + n <= d@.len(),
            Err(x) => read_body(d@, p as int, n as nat) == Err::<Seq<u8>, MessageError>(x),
        },
        r is Ok ==> p + n <= d@.len(),
{
    if n > 0 && n > d.len() - p {
        return Err(MessageError::UnexpectedEof);
    }
    let slice = &d[p..p + n];
    let mut b: Vec<u8> = Vec::new();
    b.extend_from_slice(slice);
    assert(b@ =~= d@.subrange(p as int, p + n));
    Ok(b)
}


/// Whether a line read from a stream ends a header block: nothing is left
/// once its CR and LF characters are dropped. An empty read, at the end of
/// the stream, ends it too.
pub open spec fn ends_header_block(line: Seq<u8>) -> bool {
    forall|i: int| 0 <= i < line.len() ==> #[trigger] line[i] == 13u8 || line[i] == 10u8
}

/// Whether the line `line` ends a header block (see `ends_header_block`).
pub fn is_block_end(line: &[u8]) -> (r: bool)
    ensures
        r == ends_header_block(line@),
{
    let mut i: usize = 0;
    while i < line.len()
        invariant
            i <= line@.len(),
            forall|k: int| 0 <= k < i ==> #[trigger] line@[k] == 13u8 || line@[k] == 10u8,
        decreases line.len() - i,
    {
        if line[i] != 13 && line[i] != 10 {
            return false;
        }
        i = i + 1;
    }
    true
}

} // verus!
