//! What reading gives back of a written frame.
use vstd::prelude::*;
use vstd::utf8::*;
use crate::text::{
    all_digits, decimal, find, is_digit, is_ws, lacks, lemma_decimal_digits, lemma_encode_concat,
    lemma_encode_newline, lemma_encode_no_newline, lemma_find_at, lemma_parse_decimal,
    lemma_trim_crlf_append, lemma_trim_shape, parse_u16, parse_unsigned, split_once, trim,
    trim_crlf, trim_end, trim_start,
};
use crate::message::{
    content_length, crlf, header_line, header_of_line, headers_text, line_end, read_body,
    read_fields, read_head, read_request, read_response, request_bytes, request_head,
    response_bytes, response_head, split3, version_text, Header, RequestView, ResponseView,
};

verus! {

/// A header that survives a write and a read: its name holds no `':'`, neither
/// part holds a newline, and both are already trimmed.
pub open spec fn header_wire_ok(h: Header) -> bool {
    &&& lacks(h.0, ':')
    &&& lacks(h.0, '\n')
    &&& trim(h.0) == h.0
    &&& lacks(h.1, '\n')
    &&& trim(h.1) == h.1
}

/// Every header survives a write and a read.
pub open spec fn headers_wire_ok(hs: Seq<Header>) -> bool {
    forall|i: int| 0 <= i < hs.len() ==> header_wire_ok(#[trigger] hs[i])
}

/// A request that survives a write and a read: method and path hold no space
/// and no newline, the headers survive, and the first `content-length` header
/// gives the body's length (or there is none and the body is empty).
pub open spec fn request_wire_ok(r: RequestView) -> bool {
    &&& lacks(r.method, ' ')
    &&& lacks(r.method, '\n')
    &&& lacks(r.path, ' ')
    &&& lacks(r.path, '\n')
    &&& headers_wire_ok(r.headers)
    &&& content_length(r.headers) == r.body.len()
}

/// A response that survives a write and a read: the reason holds no newline
/// and does not end in `'\r'`, the headers survive, and the first
/// `content-length` header gives the body's length (or there is none and the body
/// is empty).
pub open spec fn response_wire_ok(r: ResponseView) -> bool {
    &&& lacks(r.reason, '\n')
    &&& (r.reason.len() > 0 ==> r.reason.last() != '\r')
    &&& headers_wire_ok(r.headers)
    &&& content_length(r.headers) == r.body.len()
}

proof fn lemma_line_end_scan(d: Seq<u8>, i: int, k: int)
    requires
        0 <= i <= k < d.len(),
        forall|j: int| i <= j < k ==> #[trigger] d[j] != 10u8,
        d[k] == 10u8,
    ensures
        line_end(d, i) == k + 1,
    decreases k - i,
{
    if i < k {
        lemma_line_end_scan(d, i + 1, k);
    }
}

/// A line of text `t + '\n'` (with no other newline) encoded at `pre.len()` is
/// read back whole.
pub(crate) proof fn lemma_read_line_pub(pre: Seq<u8>, t: Seq<char>, post: Seq<u8>)
    requires
        lacks(t, '\n'),
    ensures
        ({
            let d = pre + encode_utf8(t.push('\n')) + post;
            let pos = pre.len() as int;
            let e = line_end(d, pos);
            &&& e == pos + encode_utf8(t.push('\n')).len()
            &&& e == pos + encode_utf8(t).len() + 1
            &&& d.subrange(pos, e) == encode_utf8(t.push('\n'))
            &&& valid_utf8(d.subrange(pos, e))
            &&& decode_utf8(d.subrange(pos, e)) == t.push('\n')
        }),
{
    let line = t.push('\n');
    let d = pre + encode_utf8(line) + post;
    let pos = pre.len() as int;
    assert(line =~= t + seq!['\n']);
    lemma_encode_concat(t, seq!['\n']);
    lemma_encode_newline();
    lemma_encode_no_newline(t);
    let et = encode_utf8(t);
    assert(encode_utf8(line) =~= et + seq![10u8]);
    let k = pos + et.len();
    assert forall|j: int| pos <= j < k implies #[trigger] d[j] != 10u8 by {
        assert(d[j] == et[j - pos]);
    }
    assert(d[k] == 10u8);
    lemma_line_end_scan(d, pos, k);
    assert(d.subrange(pos, k + 1) =~= encode_utf8(line));
    encode_utf8_valid_utf8(line);
    encode_utf8_decode_utf8(line);
}

proof fn lemma_encode_assoc(a: Seq<char>, b: Seq<char>, pre: Seq<u8>, post: Seq<u8>)
    ensures
        pre + encode_utf8(a + b) + post == (pre + encode_utf8(a)) + encode_utf8(b) + post,
{
    lemma_encode_concat(a, b);
    assert(pre + encode_utf8(a + b) + post =~= (pre + encode_utf8(a)) + encode_utf8(b) + post);
}

/// A trimmed value keeps its trim once a space is put in front of it.
proof fn lemma_trim_space_front(v: Seq<char>)
    requires
        trim(v) == v,
    ensures
        trim(seq![' '] + v) == v,
{
    let s = seq![' '] + v;
    assert(s.drop_first() =~= v);
    assert(is_ws(' '));
    assert(trim_start(s) == trim_start(v));
    lemma_trim_shape(v);
    if v.len() > 0 {
        assert(!is_ws(v[0]));
        assert(trim_start(v) == v);
    } else {
        assert(trim_start(v) == v);
    }
}

/// The header line of a surviving header is read back as that header.
proof fn lemma_header_of_line(h: Header)
    requires
        header_wire_ok(h),
    ensures
        header_of_line(h.0 + seq![':', ' '] + h.1) == seq![h],
        (h.0 + seq![':', ' '] + h.1).len() > 0,
        (h.0 + seq![':', ' '] + h.1).last() != '\r',
        (h.0 + seq![':', ' '] + h.1).last() != '\n',
{
    let a = h.0 + seq![':', ' '] + h.1;
    let k = h.0.len() as int;
    assert(a[k] == ':');
    assert forall|j: int| 0 <= j < k implies #[trigger] a[j] != ':' by {
        assert(a[j] == h.0[j]);
    }
    lemma_find_at(a, ':', k);
    assert(a.take(k) =~= h.0);
    assert(a.skip(k + 1) =~= seq![' '] + h.1);
    lemma_trim_space_front(h.1);
    assert(split_once(a, ':') == Some((h.0, seq![' '] + h.1)));
    if h.1.len() > 0 {
        lemma_trim_shape(h.1);
        assert(a.last() == h.1.last());
        assert(is_ws('\r') && is_ws('\n'));
    } else {
        assert(a.last() == ' ');
    }
}

/// The header block of surviving headers, followed by the blank line, is read
/// back as those headers.
pub(crate) proof fn lemma_read_fields_wire(pre: Seq<u8>, hs: Seq<Header>, post: Seq<u8>)
    requires
        headers_wire_ok(hs),
    ensures
        read_fields(pre + encode_utf8(headers_text(hs) + crlf()) + post, pre.len() as int) == Ok::<
            (Seq<Header>, int),
            crate::message::MessageError,
        >((hs, pre.len() + encode_utf8(headers_text(hs) + crlf()).len() as int)),
    decreases hs.len(),
{
    let d = pre + encode_utf8(headers_text(hs) + crlf()) + post;
    let pos = pre.len() as int;
    if hs.len() == 0 {
        let t = seq!['\r'];
        assert(headers_text(hs) + crlf() =~= t.push('\n'));
        lemma_read_line_pub(pre, t, post);
        let e = line_end(d, pos);
        assert(d.len() > pos);
        lemma_trim_crlf_append(Seq::<char>::empty(), crlf());
        assert(Seq::<char>::empty() + crlf() =~= t.push('\n'));
        assert(trim_crlf(decode_utf8(d.subrange(pos, e))).len() == 0);
        assert(hs =~= Seq::<Header>::empty());
        assert(e == pos + encode_utf8(headers_text(hs) + crlf()).len());
    } else {
        let h = hs[0];
        assert(header_wire_ok(h));
        let rest = hs.drop_first();
        assert(headers_wire_ok(rest)) by {
            assert forall|i: int| 0 <= i < rest.len() implies header_wire_ok(#[trigger] rest[i]) by {
                assert(rest[i] == hs[i + 1]);
            }
        }
        let a = h.0 + seq![':', ' '] + h.1;
        let t = a.push('\r');
        let line = header_line(h);
        assert(line =~= t.push('\n'));
        assert(lacks(t, '\n')) by {
            assert forall|i: int| 0 <= i < t.len() implies #[trigger] t[i] != '\n' by {
                if i < h.0.len() {
                    assert(t[i] == h.0[i]);
                } else if i < h.0.len() + 2 {
                } else if i < a.len() {
                    assert(t[i] == h.1[i - h.0.len() - 2]);
                }
            }
        }
        let tail = headers_text(rest) + crlf();
        assert(headers_text(hs) + crlf() =~= line + tail);
        lemma_encode_assoc(line, tail, pre, post);
        lemma_read_line_pub(pre, t, encode_utf8(tail) + post);
        assert(d =~= pre + encode_utf8(t.push('\n')) + (encode_utf8(tail) + post));
        let e = line_end(d, pos);
        lemma_header_of_line(h);
        lemma_trim_crlf_append(a, crlf());
        assert(a + crlf() =~= t.push('\n'));
        let pre2 = pre + encode_utf8(line);
        lemma_read_fields_wire(pre2, rest, post);
        assert(d =~= pre2 + encode_utf8(tail) + post);
        assert(e == pre2.len());
        lemma_encode_concat(line, tail);
        assert(seq![h] + rest =~= hs);
        assert(decode_utf8(d.subrange(pos, e)) == t.push('\n'));
        assert(trim_crlf(decode_utf8(d.subrange(pos, e))) == a);
        assert(header_of_line(a) == seq![h]);
        assert(e > pos);
        assert(e <= d.len());
        assert(read_fields(d, e) == Ok::<(Seq<Header>, int), crate::message::MessageError>(
            (rest, pre2.len() + encode_utf8(tail).len() as int)));
        assert(pre2.len() + encode_utf8(tail).len() == pre.len() + encode_utf8(headers_text(hs) + crlf()).len());
    }
}

/// The first line of a request frame, as written.
spec fn request_first(r: RequestView) -> Seq<char> {
    r.method + seq![' '] + r.path + seq![' '] + version_text()
}

proof fn lemma_version_no_space()
    ensures
        lacks(version_text(), ' '),
        lacks(version_text(), '\n'),
        version_text().last() != '\r' && version_text().last() != '\n',
        version_text().len() == 8,
{
}

/// Reading back a written request gives the request and the whole frame's length.
pub proof fn lemma_request_roundtrip(r: RequestView)
    requires
        request_wire_ok(r),
    ensures
        read_request(request_bytes(r)) == Ok::<(RequestView, int), crate::message::MessageError>(
            (r, request_bytes(r).len() as int),
        ),
{
    let d = request_bytes(r);
    let first = request_first(r);
    let t0 = first.push('\r');
    let l0 = t0.push('\n');
    let tail = headers_text(r.headers) + crlf();
    assert(request_head(r) =~= l0 + tail);
    lemma_version_no_space();
    assert(lacks(t0, '\n')) by {
        assert forall|i: int| 0 <= i < t0.len() implies #[trigger] t0[i] != '\n' by {
            let m = r.method.len() as int;
            let p = r.path.len() as int;
            if i < m {
                assert(t0[i] == r.method[i]);
            } else if i == m {
            } else if i < m + 1 + p {
                assert(t0[i] == r.path[i - m - 1]);
            } else if i == m + 1 + p {
            } else if i < m + 2 + p + 8 {
                assert(t0[i] == version_text()[i - m - 2 - p]);
            }
        }
    }
    let empty = Seq::<u8>::empty();
    lemma_encode_assoc(l0, tail, empty, r.body);
    assert(d =~= empty + encode_utf8(t0.push('\n')) + (encode_utf8(tail) + r.body)) by {
        lemma_encode_concat(l0, tail);
    }
    lemma_read_line_pub(empty, t0, encode_utf8(tail) + r.body);
    let e = line_end(d, 0);
    assert(empty.len() == 0);
    lemma_trim_crlf_append(first, crlf());
    assert(first + crlf() =~= l0);
    let pre2 = encode_utf8(l0);
    lemma_read_fields_wire(pre2, r.headers, r.body);
    assert(d =~= pre2 + encode_utf8(tail) + r.body) by {
        lemma_encode_concat(l0, tail);
    }
    lemma_encode_concat(l0, tail);
    let p = (pre2.len() + encode_utf8(tail).len()) as int;
    assert(read_head(d) == Ok::<(Seq<char>, Seq<Header>, int), crate::message::MessageError>(
        (first, r.headers, p),
    ));
    // splitting the first line
    let m = r.method.len() as int;
    assert(first[m] == ' ');
    assert forall|j: int| 0 <= j < m implies #[trigger] first[j] != ' ' by {
        assert(first[j] == r.method[j]);
    }
    lemma_find_at(first, ' ', m);
    let rest = first.skip(m + 1);
    assert(rest =~= r.path + seq![' '] + version_text());
    let pl = r.path.len() as int;
    assert(rest[pl] == ' ');
    assert forall|j: int| 0 <= j < pl implies #[trigger] rest[j] != ' ' by {
        assert(rest[j] == r.path[j]);
    }
    lemma_find_at(rest, ' ', pl);
    assert(first.take(m) =~= r.method);
    assert(rest.take(pl) =~= r.path);
    assert(split3(first).0 == r.method);
    assert(split3(first).1 == Some(r.path));
    assert(d.len() == p + r.body.len());
    assert(d.subrange(p, p + r.body.len() as int) =~= r.body);
    assert(read_body(d, p, content_length(r.headers)) == Ok::<
        Seq<u8>,
        crate::message::MessageError,
    >(r.body));
}

/// The first line of a response frame, as written.
spec fn response_first(r: ResponseView) -> Seq<char> {
    version_text() + seq![' '] + decimal(r.status as nat) + seq![' '] + r.reason
}

/// Reading back a written response gives the response and the whole frame's length.
pub proof fn lemma_response_roundtrip(r: ResponseView)
    requires
        response_wire_ok(r),
    ensures
        read_response(response_bytes(r)) == Ok::<(ResponseView, int), crate::message::MessageError>(
            (r, response_bytes(r).len() as int),
        ),
{
    let d = response_bytes(r);
    let first = response_first(r);
    let dec = decimal(r.status as nat);
    lemma_decimal_digits(r.status as nat);
    let t0 = first.push('\r');
    let l0 = t0.push('\n');
    let tail = headers_text(r.headers) + crlf();
    assert(response_head(r) =~= l0 + tail);
    lemma_version_no_space();
    assert(lacks(dec, ' ') && lacks(dec, '\n')) by {
        assert forall|i: int| 0 <= i < dec.len() implies #[trigger] dec[i] != ' ' && dec[i] != '\n' by {
            assert(is_digit(dec[i]));
        }
    }
    assert(lacks(t0, '\n')) by {
        assert forall|i: int| 0 <= i < t0.len() implies #[trigger] t0[i] != '\n' by {
            let n = dec.len() as int;
            if i < 8 {
                assert(t0[i] == version_text()[i]);
            } else if i == 8 {
            } else if i < 9 + n {
                assert(t0[i] == dec[i - 9]);
            } else if i == 9 + n {
            } else if i < 10 + n + r.reason.len() {
                assert(t0[i] == r.reason[i - 10 - n]);
            }
        }
    }
    let empty = Seq::<u8>::empty();
    assert(d =~= empty + encode_utf8(t0.push('\n')) + (encode_utf8(tail) + r.body)) by {
        lemma_encode_concat(l0, tail);
    }
    lemma_read_line_pub(empty, t0, encode_utf8(tail) + r.body);
    assert(first.last() != '\r' && first.last() != '\n') by {
        if r.reason.len() > 0 {
            assert(first.last() == r.reason.last());
            assert(r.reason.last() != '\n') by {
                assert(r.reason[r.reason.len() - 1] != '\n');
            }
        } else {
            assert(first.last() == ' ');
        }
    }
    lemma_trim_crlf_append(first, crlf());
    assert(first + crlf() =~= l0);
    let pre2 = encode_utf8(l0);
    lemma_read_fields_wire(pre2, r.headers, r.body);
    assert(d =~= pre2 + encode_utf8(tail) + r.body) by {
        lemma_encode_concat(l0, tail);
    }
    lemma_encode_concat(l0, tail);
    let p = (pre2.len() + encode_utf8(tail).len()) as int;
    assert(read_head(d) == Ok::<(Seq<char>, Seq<Header>, int), crate::message::MessageError>(
        (first, r.headers, p),
    ));
    // splitting the first line
    assert(first[8] == ' ');
    assert forall|j: int| 0 <= j < 8 implies #[trigger] first[j] != ' ' by {
        assert(first[j] == version_text()[j]);
    }
    lemma_find_at(first, ' ', 8);
    let rest = first.skip(9);
    assert(rest =~= dec + seq![' '] + r.reason);
    let n = dec.len() as int;
    assert(rest[n] == ' ');
    assert forall|j: int| 0 <= j < n implies #[trigger] rest[j] != ' ' by {
        assert(rest[j] == dec[j]);
    }
    lemma_find_at(rest, ' ', n);
    assert(rest.take(n) =~= dec);
    assert(rest.skip(n + 1) =~= r.reason);
    lemma_parse_decimal(r.status as nat);
    assert(parse_u16(dec) == Some(r.status));
    assert(d.len() == p + r.body.len());
    assert(d.subrange(p, p + r.body.len() as int) =~= r.body);
}

} // verus!
