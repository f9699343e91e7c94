//! The plaintext negotiation before TLS: the client's `WISP-HELLO`, the
//! server's `WISP-READY` or `WISP-REJECT`, and what each side decides on
//! reading the other's message.
use vstd::prelude::*;
use vstd::utf8::*;
use crate::text::{chars_of, encode_chars, lacks, string_of, trim, trim_vec};
use crate::message::{
    crlf, header_get, header_get_exec, headers_text, headers_view, line_end, read_fields, Header,
    MessageError,
};
use crate::roundtrip::{header_wire_ok, headers_wire_ok, lemma_read_fields_wire};

verus! {

/// What can go wrong in the negotiation.
#[derive(Debug)]
pub enum HandshakeError {
    /// The peer's message could not be read.
    Io(MessageError),
    /// The server refused, giving this reason.
    Rejected(String),
    /// The peer's first line was not what the protocol expects.
    Malformed(String),
}

/// A handshake outcome as mathematical values.
pub enum HandshakeErrorView {
    Io(MessageError),
    Rejected(Seq<char>),
    Malformed(Seq<char>),
}

impl View for HandshakeError {
    type V = HandshakeErrorView;

    open spec fn view(&self) -> HandshakeErrorView {
        match self {
            HandshakeError::Io(e) => HandshakeErrorView::Io(*e),
            HandshakeError::Rejected(s) => HandshakeErrorView::Rejected(s@),
            HandshakeError::Malformed(s) => HandshakeErrorView::Malformed(s@),
        }
    }
}

/// Whether `s` begins with `pat`.
pub open spec fn starts_with(s: Seq<char>, pat: Seq<char>) -> bool {
    pat.len() <= s.len() && s.take(pat.len() as int) == pat
}

pub open spec fn hello_word() -> Seq<char> {
    seq!['W', 'I', 'S', 'P', '-', 'H', 'E', 'L', 'L', 'O']
}

pub open spec fn ready_word() -> Seq<char> {
    seq!['W', 'I', 'S', 'P', '-', 'R', 'E', 'A', 'D', 'Y']
}

pub open spec fn reject_word() -> Seq<char> {
    seq!['W', 'I', 'S', 'P', '-', 'R', 'E', 'J', 'E', 'C', 'T']
}

/// `" 1.0\r\n"`, which ends each of the three first lines.
pub open spec fn version_tail() -> Seq<char> {
    seq![' ', '1', '.', '0', '\r', '\n']
}

pub open spec fn host_name() -> Seq<char> {
    seq!['h', 'o', 's', 't']
}

pub open spec fn client_name() -> Seq<char> {
    seq!['c', 'l', 'i', 'e', 'n', 't']
}

pub open spec fn client_id() -> Seq<char> {
    seq!['w', 'i', 's', 'p', '-', 'r', 's', '/', '0', '.', '1']
}

pub open spec fn encryption_name() -> Seq<char> {
    seq!['e', 'n', 'c', 'r', 'y', 'p', 't', 'i', 'o', 'n']
}

pub open spec fn tls_id() -> Seq<char> {
    seq!['t', 'l', 's', '1', '.', '3']
}

pub open spec fn reason_name() -> Seq<char> {
    seq!['r', 'e', 'a', 's', 'o', 'n']
}

pub open spec fn expected_hello() -> Seq<char> {
    seq!['e', 'x', 'p', 'e', 'c', 't', 'e', 'd', '-', 'w', 'i', 's', 'p', '-', 'h', 'e', 'l', 'l', 'o']
}

pub open spec fn unknown_text() -> Seq<char> {
    seq!['u', 'n', 'k', 'n', 'o', 'w', 'n']
}

/// The headers of the client's hello.
pub open spec fn hello_headers(host: Seq<char>) -> Seq<Header> {
    seq![(host_name(), host), (client_name(), client_id())]
}

/// The client's hello as text.
pub open spec fn hello_text(host: Seq<char>) -> Seq<char> {
    hello_word() + version_tail() + headers_text(hello_headers(host)) + crlf()
}

/// The server's acceptance as text.
pub open spec fn ready_text() -> Seq<char> {
    ready_word() + version_tail() + headers_text(seq![(encryption_name(), tls_id())]) + crlf()
}

/// The server's refusal as text.
pub open spec fn reject_text() -> Seq<char> {
    reject_word() + version_tail() + headers_text(seq![(reason_name(), expected_hello())]) + crlf()
}

/// The first line of a peer's message, trimmed, and where its header block starts.
pub open spec fn first_line(d: Seq<u8>) -> Result<(Seq<char>, int), MessageError> {
    let e = line_end(d, 0);
    let bytes = d.subrange(0, e);
    if valid_utf8(bytes) {
        Ok((trim(decode_utf8(bytes)), e))
    } else {
        Err(MessageError::InvalidUtf8)
    }
}

/// What the client decides on reading the server's reply `d`.
pub open spec fn client_decision(d: Seq<u8>) -> Result<(), HandshakeErrorView> {
    match first_line(d) {
        Err(x) => Err(HandshakeErrorView::Io(x)),
        Ok((line, e)) => if starts_with(line, ready_word()) {
            match read_fields(d, e) {
                Err(x) => Err(HandshakeErrorView::Io(x)),
                Ok(_) => Ok(()),
            }
        } else if starts_with(line, reject_word()) {
            match read_fields(d, e) {
                Err(x) => Err(HandshakeErrorView::Io(x)),
                Ok((h, _)) => Err(
                    HandshakeErrorView::Rejected(
                        match header_get(h, reason_name()) {
                            Some(v) => v,
                            None => unknown_text(),
                        },
                    ),
                ),
            }
        } else {
            Err(HandshakeErrorView::Malformed(line))
        },
    }
}

/// What the server decides on reading the client's hello `d`: the outcome, and
/// the reply it writes (none when it could not read the hello).
pub open spec fn server_decision(d: Seq<u8>) -> (Result<Seq<char>, HandshakeErrorView>, Option<Seq<char>>) {
    match first_line(d) {
        Err(x) => (Err(HandshakeErrorView::Io(x)), None),
        Ok((line, e)) => if !starts_with(line, hello_word()) {
            (Err(HandshakeErrorView::Malformed(line)), Some(reject_text()))
        } else {
            match read_fields(d, e) {
                Err(x) => (Err(HandshakeErrorView::Io(x)), None),
                Ok((h, _)) => (
                    Ok(
                        match header_get(h, host_name()) {
                            Some(v) => v,
                            None => Seq::empty(),
                        },
                    ),
                    Some(ready_text()),
                ),
            }
        },
    }
}

/// The view of a client outcome.
pub open spec fn client_result_view(r: Result<(), HandshakeError>) -> Result<(), HandshakeErrorView> {
    match r {
        Ok(()) => Ok(()),
        Err(e) => Err(e@),
    }
}

/// The view of a server outcome.
pub open spec fn server_result_view(r: Result<String, HandshakeError>) -> Result<Seq<char>, HandshakeErrorView> {
    match r {
        Ok(s) => Ok(s@),
        Err(e) => Err(e@),
    }
}

fn literal(s: &str) -> (v: Vec<char>)
    ensures
        v@ == s@,
{
    chars_of(s)
}

fn push_all(out: &mut Vec<char>, s: &[char])
    ensures
        final(out)@ == old(out)@ + s@,
{
    let ghost start = out@;
    let mut i: usize = 0;
    while i < s.len()
        invariant
            i <= s@.len(),
            out@ == start + s@.take(i as int),
        decreases s.len() - i,
    {
        out.push(s[i]);
        i = i + 1;
        assert(out@ =~= start + s@.take(i as int));
    }
    assert(s@.take(i as int) =~= s@);
}

fn push_header_line(out: &mut Vec<char>, k: &[char], v: &[char])
    ensures
        final(out)@ == old(out)@ + headers_text(seq![(k@, v@)]),
{
    push_all(out, k);
    out.push(':');
    out.push(' ');
    push_all(out, v);
    out.push('\r');
    out.push('\n');
    proof {
        lemma_headers_text_one((k@, v@));
    }
    assert(final(out)@ =~= old(out)@ + headers_text(seq![(k@, v@)]));
}

proof fn lemma_headers_text_one(a: Header)
    ensures
        headers_text(seq![a]) == crate::message::header_line(a),
{
    let s = seq![a];
    assert(s[0] == a);
    assert(s.drop_first() =~= Seq::<Header>::empty());
    assert(headers_text(Seq::<Header>::empty()) =~= Seq::<char>::empty());
    assert(headers_text(s) =~= crate::message::header_line(a));
}

proof fn lemma_headers_text_two(a: Header, b: Header)
    ensures
        headers_text(seq![a, b]) == headers_text(seq![a]) + headers_text(seq![b]),
{
    let s = seq![a, b];
    assert(s[0] == a);
    assert(s.drop_first() =~= seq![b]);
    lemma_headers_text_one(a);
    lemma_headers_text_one(b);
}

/// The bytes of the client's hello for `host`.
pub fn client_hello(host: &str) -> (r: Vec<u8>)
    ensures
        r@ == encode_utf8(hello_text(host@)),
{
    let mut t: Vec<char> = Vec::new();
    let w = literal("WISP-HELLO 1.0\r\n");
    proof {
        reveal_strlit("WISP-HELLO 1.0\r\n");
    }
    push_all(&mut t, &w);
    let hn = literal("host");
    let hv = chars_of(host);
    let cn = literal("client");
    let cv = literal("wisp-rs/0.1");
    proof {
        reveal_strlit("host");
        reveal_strlit("client");
        reveal_strlit("wisp-rs/0.1");
    }
    push_header_line(&mut t, &hn, &hv);
    push_header_line(&mut t, &cn, &cv);
    t.push('\r');
    t.push('\n');
    proof {
        lemma_headers_text_two((host_name(), host@), (client_name(), client_id()));
    }
    assert(w@ =~= hello_word() + version_tail());
    assert(hn@ =~= host_name());
    assert(cn@ =~= client_name());
    assert(cv@ =~= client_id());
    assert(t@ =~= hello_text(host@));
    encode_chars(&t)
}

/// The bytes of the server's acceptance.
pub fn server_ready() -> (r: Vec<u8>)
    ensures
        r@ == encode_utf8(ready_text()),
{
    let mut t: Vec<char> = Vec::new();
    let w = literal("WISP-READY 1.0\r\n");
    let k = literal("encryption");
    let v = literal("tls1.3");
    proof {
        reveal_strlit("WISP-READY 1.0\r\n");
        reveal_strlit("encryption");
        reveal_strlit("tls1.3");
    }
    push_all(&mut t, &w);
    push_header_line(&mut t, &k, &v);
    t.push('\r');
    t.push('\n');
    assert(w@ =~= ready_word() + version_tail());
    assert(k@ =~= encryption_name());
    assert(v@ =~= tls_id());
    assert(t@ =~= ready_text());
    encode_chars(&t)
}

/// The bytes of the server's refusal.
pub fn server_reject() -> (r: Vec<u8>)
    ensures
        r@ == encode_utf8(reject_text()),
{
    let mut t: Vec<char> = Vec::new();
    let w = literal("WISP-REJECT 1.0\r\n");
    let k = literal("reason");
    let v = literal("expected-wisp-hello");
    proof {
        reveal_strlit("WISP-REJECT 1.0\r\n");
        reveal_strlit("reason");
        reveal_strlit("expected-wisp-hello");
    }
    push_all(&mut t, &w);
    push_header_line(&mut t, &k, &v);
    t.push('\r');
    t.push('\n');
    assert(w@ =~= reject_word() + version_tail());
    assert(k@ =~= reason_name());
    assert(v@ =~= expected_hello());
    assert(t@ =~= reject_text());
    encode_chars(&t)
}

fn starts_with_exec(s: &[char], pat: &[char]) -> (b: bool)
    ensures
        b == starts_with(s@, pat@),
{
    if pat.len() > s.len() {
        return false;
    }
    let mut i: usize = 0;
    while i < pat.len()
        invariant
            pat@.len() <= s@.len(),
            i <= pat@.len(),
            forall|j: int| 0 <= j < i ==> s@[j] == pat@[j],
        decreases pat.len() - i,
    {
        if s[i] != pat[i] {
            assert(s@.take(pat@.len() as int)[i as int] != pat@[i as int]);
            return false;
        }
        i = i + 1;
    }
    assert(s@.take(pat@.len() as int) =~= pat@);
    true
}

fn first_line_exec(d: &[u8]) -> (r: Result<(Vec<char>, usize), MessageError>)
    ensures
        match r {
            Ok((l, e)) => first_line(d@) == Ok::<(Seq<char>, int), MessageError>((l@, e as int))
                && e <= d@.len(),
            Err(x) => first_line(d@) == Err::<(Seq<char>, int), MessageError>(x),
        },
{
    let mut j: usize = 0;
    while j < d.len() && d[j] != 10
        invariant
            j <= d@.len(),
            line_end(d@, 0) == line_end(d@, j as int),
        decreases d.len() - j,
    {
        j = j + 1;
    }
    let e = if j < d.len() {
        j + 1
    } else {
        j
    };
    match crate::text::decode_utf8_exec(&d[0..e]) {
        Some(s) => {
            let v = chars_of(s.as_str());
            Ok((trim_vec(&v), e))
        },
        None => Err(MessageError::InvalidUtf8),
    }
}

/// Whether a header block follows the first line `d` of a peer's message:
/// for the server reading a hello, after `WISP-HELLO`; for the client reading
/// a reply, after `WISP-READY` or `WISP-REJECT`. A first line that is not
/// UTF-8, or starts otherwise, is decided on alone.
pub open spec fn header_block_follows(d: Seq<u8>, server: bool) -> bool {
    match first_line(d) {
        Ok((line, _)) => if server {
            starts_with(line, hello_word())
        } else {
            starts_with(line, ready_word()) || starts_with(line, reject_word())
        },
        Err(_) => false,
    }
}

/// Whether to read the header block after the first line `first` of a
/// peer's message (see `header_block_follows`).
pub fn expects_header_block(first: &[u8], server: bool) -> (r: bool)
    ensures
        r == header_block_follows(first@, server),
{
    let (line, _) = match first_line_exec(first) {
        Ok(x) => x,
        Err(_) => return false,
    };
    if server {
        let hello = literal("WISP-HELLO");
        proof {
            reveal_strlit("WISP-HELLO");
        }
        assert(hello@ =~= hello_word());
        starts_with_exec(&line, &hello)
    } else {
        let ready = literal("WISP-READY");
        let reject = literal("WISP-REJECT");
        proof {
            reveal_strlit("WISP-READY");
            reveal_strlit("WISP-REJECT");
        }
        assert(ready@ =~= ready_word());
        assert(reject@ =~= reject_word());
        starts_with_exec(&line, &ready) || starts_with_exec(&line, &reject)
    }
}

/// The client's decision on the server's reply `reply` (its first line and
/// header block).
pub fn check_server_reply(reply: &[u8]) -> (r: Result<(), HandshakeError>)
    ensures
        client_result_view(r) == client_decision(reply@),
{
    let (line, e) = match first_line_exec(reply) {
        Ok(x) => x,
        Err(x) => return Err(HandshakeError::Io(x)),
    };
    let ready = literal("WISP-READY");
    let reject = literal("WISP-REJECT");
    proof {
        reveal_strlit("WISP-READY");
        reveal_strlit("WISP-REJECT");
    }
    assert(ready@ =~= ready_word());
    assert(reject@ =~= reject_word());
    if starts_with_exec(&line, &ready) {
        match crate::message::read_header_block_from(reply, e) {
            Ok(_) => Ok(()),
            Err(x) => Err(HandshakeError::Io(x)),
        }
    } else if starts_with_exec(&line, &reject) {
        match crate::message::read_header_block_from(reply, e) {
            Ok(h) => {
                let name = literal("reason");
                proof {
                    reveal_strlit("reason");
                }
                assert(name@ =~= reason_name());
                let reason = match header_get_exec(&h, &name) {
                    Some(v) => v,
                    None => {
                        let u = literal("unknown");
                        proof {
                            reveal_strlit("unknown");
                        }
                        assert(u@ =~= unknown_text());
                        string_of(&u)
                    },
                };
                Err(HandshakeError::Rejected(reason))
            },
            Err(x) => Err(HandshakeError::Io(x)),
        }
    } else {
        Err(HandshakeError::Malformed(string_of(&line)))
    }
}

/// The server's decision on the client's hello `hello` (its first line and
/// header block): the outcome, and the bytes to send back, if any.
pub fn answer_hello(hello: &[u8]) -> (r: (Result<String, HandshakeError>, Option<Vec<u8>>))
    ensures
        server_result_view(r.0) == server_decision(hello@).0,
        match r.1 {
            Some(b) => server_decision(hello@).1 == Some(decode_utf8(b@)) && b@ == encode_utf8(
                server_decision(hello@).1.unwrap(),
            ),
            None => server_decision(hello@).1 is None,
        },
{
    let (line, e) = match first_line_exec(hello) {
        Ok(x) => x,
        Err(x) => return (Err(HandshakeError::Io(x)), None),
    };
    let word = literal("WISP-HELLO");
    proof {
        reveal_strlit("WISP-HELLO");
    }
    assert(word@ =~= hello_word());
    if !starts_with_exec(&line, &word) {
        let reply = server_reject();
        proof {
            encode_utf8_decode_utf8(reject_text());
        }
        return (Err(HandshakeError::Malformed(string_of(&line))), Some(reply));
    }
    match crate::message::read_header_block_from(hello, e) {
        Ok(h) => {
            let name = literal("host");
            proof {
                reveal_strlit("host");
            }
            assert(name@ =~= host_name());
            let host = match header_get_exec(&h, &name) {
                Some(v) => v,
                None => {
                    let v: Vec<char> = Vec::new();
                    assert(v@ =~= Seq::<char>::empty());
                    string_of(&v)
                },
            };
            let reply = server_ready();
            proof {
                encode_utf8_decode_utf8(ready_text());
            }
            (Ok(host), Some(reply))
        },
        Err(x) => (Err(HandshakeError::Io(x)), None),
    }
}

// ---------------------------------------------------------------------------
// The two sides agree
// ---------------------------------------------------------------------------

proof fn lemma_starts_with_word(w: Seq<char>, rest: Seq<char>)
    ensures
        starts_with(w + rest, w),
{
    assert((w + rest).take(w.len() as int) =~= w);
}

/// The trimmed first line of a message `word + " 1.0\r\n" + ...`.
proof fn lemma_first_line_of(word: Seq<char>, hs: Seq<Header>)
    requires
        lacks(word, '\n'),
        word.len() > 0,
        !crate::text::is_ws(word[0]),
        headers_wire_ok(hs),
    ensures
        ({
            let d = encode_utf8(word + version_tail() + headers_text(hs) + crlf());
            let l = word + seq![' ', '1', '.', '0'];
            let e = encode_utf8(word + version_tail()).len() as int;
            &&& first_line(d) == Ok::<(Seq<char>, int), MessageError>((l, e))
            &&& read_fields(d, e) == Ok::<(Seq<Header>, int), MessageError>((hs, d.len() as int))
        }),
{
    let l = word + seq![' ', '1', '.', '0'];
    let t = l.push('\r');
    let tail = headers_text(hs) + crlf();
    let text = word + version_tail() + headers_text(hs) + crlf();
    assert(text =~= t.push('\n') + tail);
    assert(word + version_tail() =~= t.push('\n'));
    assert(lacks(t, '\n')) by {
        assert forall|i: int| 0 <= i < t.len() implies #[trigger] t[i] != '\n' by {
            if i < word.len() {
                assert(t[i] == word[i]);
            }
        }
    }
    let empty = Seq::<u8>::empty();
    crate::text::lemma_encode_concat(t.push('\n'), tail);
    let d = encode_utf8(text);
    assert(d =~= empty + encode_utf8(t.push('\n')) + (encode_utf8(tail) + empty));
    crate::roundtrip::lemma_read_line_pub(empty, t, encode_utf8(tail) + empty);
    let e = line_end(d, 0);
    // trimming the first line
    let dec = t.push('\n');
    assert(dec =~= l + seq!['\r', '\n']);
    assert(crate::text::is_ws('\r') && crate::text::is_ws('\n'));
    crate::text::lemma_trim_end_take(dec, l.len() as int);
    assert(dec.take(l.len() as int) =~= l);
    assert(crate::text::trim_start(dec) == dec);
    assert(crate::text::trim_end(l) == l);
    assert(trim(dec) == l);
    assert(d =~= encode_utf8(t.push('\n')) + encode_utf8(tail) + empty);
    lemma_read_fields_wire(encode_utf8(t.push('\n')), hs, empty);
}

proof fn lemma_wire_ok_two(a: Header, b: Header)
    requires
        header_wire_ok(a),
        header_wire_ok(b),
    ensures
        headers_wire_ok(seq![a, b]),
{
    let s = seq![a, b];
    assert forall|i: int| 0 <= i < 2 implies header_wire_ok(#[trigger] s[i]) by {
        if i == 0 {
        } else {
        }
    }
}

proof fn lemma_wire_ok_one(a: Header)
    requires
        header_wire_ok(a),
    ensures
        headers_wire_ok(seq![a]),
{
    let s = seq![a];
    assert forall|i: int| 0 <= i < 1 implies header_wire_ok(#[trigger] s[i]) by {}
}

proof fn lemma_fixed_trim(s: Seq<char>)
    requires
        s.len() > 0,
        forall|i: int| 0 <= i < s.len() ==> !crate::text::is_ws(#[trigger] s[i]),
    ensures
        trim(s) == s,
{
    assert(!crate::text::is_ws(s[0]));
    assert(!crate::text::is_ws(s.last()));
}

/// The server reads the client's hello for `host` as a request for `host`, and
/// answers with its acceptance.
pub proof fn lemma_server_accepts_hello(host: Seq<char>)
    requires
        lacks(host, '\n'),
        trim(host) == host,
    ensures
        server_decision(encode_utf8(hello_text(host))) == (
            Ok::<Seq<char>, HandshakeErrorView>(host),
            Some(ready_text()),
        ),
{
    let hs = hello_headers(host);
    lemma_fixed_trim(host_name());
    lemma_fixed_trim(client_name());
    lemma_fixed_trim(client_id());
    lemma_wire_ok_two((host_name(), host), (client_name(), client_id()));
    lemma_first_line_of(hello_word(), hs);
    assert(hello_text(host) == hello_word() + version_tail() + headers_text(hs) + crlf());
    lemma_starts_with_word(hello_word(), seq![' ', '1', '.', '0']);
    assert(crate::text::eq_ignore_ascii_case(hs[0].0, host_name()));
}

/// The client accepts the server's acceptance.
pub proof fn lemma_client_accepts_ready()
    ensures
        client_decision(encode_utf8(ready_text())) == Ok::<(), HandshakeErrorView>(()),
{
    let h = (encryption_name(), tls_id());
    lemma_fixed_trim(encryption_name());
    lemma_fixed_trim(tls_id());
    lemma_wire_ok_one(h);
    lemma_first_line_of(ready_word(), seq![h]);
    lemma_starts_with_word(ready_word(), seq![' ', '1', '.', '0']);
}

/// The client reads the server's refusal as a rejection with the reason it gives.
pub proof fn lemma_client_reads_reject()
    ensures
        client_decision(encode_utf8(reject_text())) == Err::<(), HandshakeErrorView>(
            HandshakeErrorView::Rejected(expected_hello()),
        ),
{
    let h = (reason_name(), expected_hello());
    lemma_fixed_trim(reason_name());
    lemma_fixed_trim(expected_hello());
    lemma_wire_ok_one(h);
    lemma_first_line_of(reject_word(), seq![h]);
    lemma_starts_with_word(reject_word(), seq![' ', '1', '.', '0']);
    let l = reject_word() + seq![' ', '1', '.', '0'];
    assert(!starts_with(l, ready_word())) by {
        let rw = reject_word();
        assert(rw.len() == 11);
        assert(rw[7] == 'J');
        assert(l[7] == rw[7]);
        assert(l.take(10)[7] == 'J');
        assert(ready_word()[7] == 'A');
    }
    assert(crate::text::eq_ignore_ascii_case(seq![h][0].0, reason_name()));
}

} // verus!
