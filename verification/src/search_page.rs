//! The search engine's pages: reading `?q=` from a request path, escaping
//! text for HTML, and answering `/` and `/search`.
use vstd::prelude::*;
use vstd::utf8::*;
use crate::html::chars_eq;
use crate::text::{
    chars_of, decimal, encode_chars, find, find_char, from_utf8_lossy, lacks, lemma_find_from,
    push_chars, push_str, replace_all, replace_vec, split_on, split_once, split_once_vec,
    split_vec, string_of, sub_chars, usize_decimal, utf8_lossy,
};
use crate::values::hex_pair;
use crate::index::{doc_views, ranked, search_fits, Doc, DocView, Index};
use crate::message::{content_length_name, Request, RequestView, Response, ResponseView};

verus! {

// ---------------------------------------------------------------------------
// Percent-decoding
// ---------------------------------------------------------------------------

/// Whether `b` continues a UTF-8 sequence.
pub open spec fn is_continuation(b: u8) -> bool {
    0x80 <= b && b < 0xC0
}

/// The byte that two bytes of hexadecimal text name, as
/// `u8::from_str_radix(.., 16)` reads them.
pub open spec fn byte_pair(x: u8, y: u8) -> Option<u8> {
    if x < 0x80 && y < 0x80 {
        hex_pair(x as char, y as char)
    } else {
        None
    }
}

/// The bytes of `b` from `i` decoded: `+` is a space, `%` and two hex digits
/// the byte they name, anything else itself.
pub open spec fn url_bytes(b: Seq<u8>, i: int) -> Seq<u8>
    decreases b.len() - i,
{
    if i < 0 || i >= b.len() {
        Seq::empty()
    } else if b[i] == 43 {
        seq![32u8] + url_bytes(b, i + 1)
    } else if b[i] == 37 && i + 2 < b.len() && byte_pair(b[i + 1], b[i + 2]) is Some {
        seq![byte_pair(b[i + 1], b[i + 2]).unwrap()] + url_bytes(b, i + 3)
    } else {
        seq![b[i]] + url_bytes(b, i + 1)
    }
}

/// Whether decoding from `i` never reads two bytes after a `%` that end
/// inside a character (which slicing the text there would not allow).
pub open spec fn url_ok(b: Seq<u8>, i: int) -> bool
    decreases b.len() - i,
{
    if i < 0 || i >= b.len() {
        true
    } else if b[i] == 37 && i + 2 < b.len() {
        if i + 3 < b.len() && is_continuation(b[i + 3]) {
            false
        } else if byte_pair(b[i + 1], b[i + 2]) is Some {
            url_ok(b, i + 3)
        } else {
            url_ok(b, i + 1)
        }
    } else {
        url_ok(b, i + 1)
    }
}

/// The text a query value stands for.
pub open spec fn url_decoded(s: Seq<char>) -> Seq<char> {
    utf8_lossy(url_bytes(encode_utf8(s), 0))
}

fn byte_pair_exec(x: u8, y: u8) -> (r: Option<u8>)
    ensures
        r == byte_pair(x, y),
{
    if x < 0x80 && y < 0x80 {
        let xc = crate::text::char_from_ascii(x as u32);
        let yc = crate::text::char_from_ascii(y as u32);
        crate::values::hex_pair_exec(xc, yc)
    } else {
        None
    }
}

/// Decodes `%XX` escapes and `+` in a query value.
pub fn url_decode(s: &str) -> (r: String)
    requires
        url_ok(encode_utf8(s@), 0),
    ensures
        r@ == url_decoded(s@),
{
    let sc = chars_of(s);
    let b = encode_chars(&sc);
    let ghost bv = b@;
    let n = b.len();
    let mut out: Vec<u8> = Vec::new();
    let mut i: usize = 0;
    while i < n
        invariant
            n == bv.len(),
            bv == b@,
            bv == encode_utf8(s@),
            i <= n,
            url_ok(bv, i as int),
            out@ + url_bytes(bv, i as int) == url_bytes(bv, 0),
        decreases n - i,
    {
        let ghost before = out@;
        if b[i] == 43 {
            out.push(32);
            assert(out@ + url_bytes(bv, i + 1) =~= before + url_bytes(bv, i as int));
            i = i + 1;
        } else if b[i] == 37 && n - i > 2 {
            match byte_pair_exec(b[i + 1], b[i + 2]) {
                Some(v) => {
                    out.push(v);
                    assert(out@ + url_bytes(bv, i + 3) =~= before + url_bytes(bv, i as int));
                    i = i + 3;
                },
                None => {
                    out.push(b[i]);
                    assert(out@ + url_bytes(bv, i + 1) =~= before + url_bytes(bv, i as int));
                    i = i + 1;
                },
            }
        } else {
            out.push(b[i]);
            assert(out@ + url_bytes(bv, i + 1) =~= before + url_bytes(bv, i as int));
            i = i + 1;
        }
    }
    assert(out@ =~= out@ + url_bytes(bv, i as int));
    from_utf8_lossy(&out)
}


// ---------------------------------------------------------------------------
// Query parameters
// ---------------------------------------------------------------------------

/// The value of the first of `pairs[k..]` that reads `name=value`.
pub open spec fn pairs_value(pairs: Seq<Seq<char>>, name: Seq<char>, k: int) -> Option<Seq<char>>
    decreases pairs.len() - k,
{
    if k < 0 || k >= pairs.len() {
        None
    } else {
        match split_once(pairs[k], '=') {
            Some((key, v)) => if key == name {
                Some(v)
            } else {
                pairs_value(pairs, name, k + 1)
            },
            None => pairs_value(pairs, name, k + 1),
        }
    }
}

/// The undecoded value of parameter `name` in the query after `?`.
pub open spec fn raw_param(pq: Seq<char>, name: Seq<char>) -> Option<Seq<char>> {
    match split_once(pq, '?') {
        Some((_, q)) => pairs_value(split_on(q, '&'), name, 0),
        None => None,
    }
}

/// Whether the value of `name`, if any, decodes (see `url_ok`).
pub open spec fn param_ok(pq: Seq<char>, name: Seq<char>) -> bool {
    match raw_param(pq, name) {
        Some(v) => url_ok(encode_utf8(v), 0),
        None => true,
    }
}

fn raw_param_exec(pq: &[char], name: &[char]) -> (r: Option<Vec<char>>)
    ensures
        r matches Some(v) ==> raw_param(pq@, name@) == Some(v@),
        r is None ==> raw_param(pq@, name@) is None,
{
    match split_once_vec(pq, '?') {
        Some((_, q)) => {
            let pairs = split_vec(&q, '&');
            let ghost pv = pairs@.map_values(|v: Vec<char>| v@);
            let mut k: usize = 0;
            while k < pairs.len()
                invariant
                    pv == pairs@.map_values(|v: Vec<char>| v@),
                    pv == split_on(q@, '&'),
                    raw_param(pq@, name@) == pairs_value(pv, name@, 0),
                    k <= pv.len(),
                    pairs_value(pv, name@, 0) == pairs_value(pv, name@, k as int),
                decreases pairs.len() - k,
            {
                assert(pv[k as int] == pairs@[k as int]@);
                match split_once_vec(&pairs[k], '=') {
                    Some((key, v)) => {
                        if chars_eq(&key, name) {
                            return Some(v);
                        }
                    },
                    None => {},
                }
                k = k + 1;
            }
            None
        },
        None => None,
    }
}

fn url_ok_exec(b: &[u8]) -> (r: bool)
    ensures
        r == url_ok(b@, 0),
{
    let n = b.len();
    let mut i: usize = 0;
    while i < n
        invariant
            n == b@.len(),
            i <= n,
            url_ok(b@, 0) == url_ok(b@, i as int),
        decreases n - i,
    {
        if b[i] == 37 && n - i > 2 {
            if n - i > 3 && 0x80 <= b[i + 3] && b[i + 3] < 0xC0 {
                return false;
            }
            if byte_pair_exec(b[i + 1], b[i + 2]).is_some() {
                i = i + 3;
            } else {
                i = i + 1;
            }
        } else {
            i = i + 1;
        }
    }
    true
}

/// The decoded value of query parameter `name` in `path?query`.
pub fn query_param(path_and_query: &str, name: &str) -> (r: Option<String>)
    requires
        param_ok(path_and_query@, name@),
    ensures
        r is None <==> raw_param(path_and_query@, name@) is None,
        r matches Some(v) ==> v@ == url_decoded(raw_param(path_and_query@, name@).unwrap()),
{
    let pq = chars_of(path_and_query);
    let nc = chars_of(name);
    match raw_param_exec(&pq, &nc) {
        Some(v) => {
            let vs = string_of(&v);
            Some(url_decode(vs.as_str()))
        },
        None => None,
    }
}

// ---------------------------------------------------------------------------
// HTML text
// ---------------------------------------------------------------------------

/// `&`, `<` and `>` replaced by their entities, in that order.
pub open spec fn escape(s: Seq<char>) -> Seq<char> {
    replace_all(
        replace_all(replace_all(s, seq!['&'], "&amp;"@), seq!['<'], "&lt;"@),
        seq!['>'],
        "&gt;"@,
    )
}

proof fn lemma_replace_lacks(s: Seq<char>, pat: Seq<char>, rep: Seq<char>, c: char)
    requires
        pat.len() > 0,
        lacks(rep, c),
        lacks(s, c) || pat == seq![c],
    ensures
        lacks(replace_all(s, pat, rep), c),
    decreases s.len(),
{
    let r = replace_all(s, pat, rep);
    if s.len() < pat.len() {
        if pat == seq![c] {
            assert(s.len() == 0);
        }
    } else if s.take(pat.len() as int) == pat {
        let rest = s.skip(pat.len() as int);
        assert(lacks(s, c) ==> lacks(rest, c)) by {
            if lacks(s, c) {
                assert forall|i: int| 0 <= i < rest.len() implies rest[i] != c by {
                    assert(rest[i] == s[i + pat.len()]);
                }
            }
        }
        lemma_replace_lacks(rest, pat, rep, c);
        let t = replace_all(rest, pat, rep);
        assert forall|i: int| 0 <= i < r.len() implies r[i] != c by {
            if i < rep.len() {
                assert(r[i] == rep[i]);
            } else {
                assert(r[i] == t[i - rep.len()]);
            }
        }
    } else {
        let rest = s.drop_first();
        if pat == seq![c] {
            assert(s[0] != c) by {
                if s[0] == c {
                    assert(s.take(1) =~= pat);
                }
            }
        }
        assert(lacks(s, c) ==> lacks(rest, c)) by {
            if lacks(s, c) {
                assert forall|i: int| 0 <= i < rest.len() implies rest[i] != c by {
                    assert(rest[i] == s[i + 1]);
                }
            }
        }
        lemma_replace_lacks(rest, pat, rep, c);
        let t = replace_all(rest, pat, rep);
        assert forall|i: int| 0 <= i < r.len() implies r[i] != c by {
            if i > 0 {
                assert(r[i] == t[i - 1]);
            }
        }
    }
}

/// Escaped text holds no `<` and no `>`: embedded in a page it cannot open
/// or close a tag.
pub proof fn lemma_escape_no_tags(s: Seq<char>)
    ensures
        lacks(escape(s), '<'),
        lacks(escape(s), '>'),
{
    reveal_strlit("&amp;");
    reveal_strlit("&lt;");
    reveal_strlit("&gt;");
    let a = replace_all(s, seq!['&'], "&amp;"@);
    let b = replace_all(a, seq!['<'], "&lt;"@);
    lemma_replace_lacks(a, seq!['<'], "&lt;"@, '<');
    lemma_replace_lacks(b, seq!['>'], "&gt;"@, '<');
    lemma_replace_lacks(b, seq!['>'], "&gt;"@, '>');
}

/// Escapes text for use inside HTML.
pub fn escape_html(s: &str) -> (r: String)
    ensures
        r@ == escape(s@),
{
    let sc = chars_of(s);
    let amp = vec!['&'];
    let lt = vec!['<'];
    let gt = vec!['>'];
    let a = replace_vec(&sc, &amp, &chars_of("&amp;"));
    let b = replace_vec(&a, &lt, &chars_of("&lt;"));
    let c = replace_vec(&b, &gt, &chars_of("&gt;"));
    assert(amp@ =~= seq!['&']);
    assert(lt@ =~= seq!['<']);
    assert(gt@ =~= seq!['>']);
    string_of(&c)
}

/// The page around every body: its head, style sheet and header bar.
pub const SHELL_HEAD: &'static str = "<html><head><title>wisp search</title></head><body>\n<style>\n  body { background-color: #ffffff; color: #202020; }\n  .header { background-color: #2b3a55; color: #ffffff; padding: 16px; }\n  .result { margin: 12px; padding: 12px; border-width: 1px; border-color: #ddd; }\n</style>\n<div class=\"header\"><h1>WISP SEARCH</h1></div>\n";

/// What closes every page.
pub const SHELL_TAIL: &'static str = "\n</body></html>";

/// `body` inside the page shell.
pub open spec fn shell(body: Seq<char>) -> Seq<char> {
    SHELL_HEAD@ + body + SHELL_TAIL@
}

/// Wraps `body` in the search engine's page.
pub fn page_shell(body: &str) -> (r: String)
    ensures
        r@ == shell(body@),
{
    let mut buf: Vec<char> = Vec::new();
    push_str(&mut buf, SHELL_HEAD);
    push_str(&mut buf, body);
    push_str(&mut buf, SHELL_TAIL);
    assert(buf@ =~= shell(body@));
    string_of(&buf)
}


// ---------------------------------------------------------------------------
// Answering requests
// ---------------------------------------------------------------------------

/// The path without its query.
pub open spec fn path_part(p: Seq<char>) -> Seq<char> {
    match find(p, '?') {
        Some(i) => p.take(i),
        None => p,
    }
}

pub open spec fn help_body() -> Seq<char> {
    "<div class=\"result\"><p>USE PATH /search?q=YOURQUERY TO SEARCH.</p></div>"@
}

pub open spec fn no_results() -> Seq<char> {
    "<div class=\"result\"><p>NO RESULTS.</p></div>"@
}

/// At most the first 160 characters.
pub open spec fn snippet(text: Seq<char>) -> Seq<char> {
    if text.len() <= 160 {
        text
    } else {
        text.take(160)
    }
}

/// One result: title and score, address, and the start of the text.
pub open spec fn result_html(d: DocView, score: u32) -> Seq<char> {
    "<div class=\"result\"><p>"@ + escape(d.title) + " (SCORE "@ + decimal(score as nat)
        + ")</p><p>wisp://"@ + escape(d.addr) + escape(d.path) + "</p><p>"@ + escape(
        snippet(d.text),
    ) + "...</p></div>"@
}

pub open spec fn results_html(docs: Seq<DocView>, rs: Seq<(usize, u32)>) -> Seq<char>
    decreases rs.len(),
{
    if rs.len() == 0 {
        Seq::empty()
    } else {
        results_html(docs, rs.drop_last()) + result_html(docs[rs.last().0 as int], rs.last().1)
    }
}

/// The body of a results page: the query, and the first 20 results (or a
/// note that there are none).
pub open spec fn search_body(docs: Seq<DocView>, query: Seq<char>, rs: Seq<(usize, u32)>) -> Seq<
    char,
> {
    "<p>RESULTS FOR: "@ + escape(query) + "</p>"@ + (if rs.len() == 0 {
        no_results()
    } else {
        Seq::empty()
    }) + results_html(
        docs,
        if rs.len() > 20 {
            rs.take(20)
        } else {
            rs
        },
    )
}

/// `200 OK` with `body` in the page shell as HTML.
pub open spec fn html_response(body: Seq<char>) -> ResponseView {
    let bytes = encode_utf8(shell(body));
    ResponseView {
        status: 200,
        reason: seq!['O', 'K'],
        headers: seq![("content-type"@, "text/html"@), (content_length_name(), decimal(bytes.len()))],
        body: bytes,
    }
}

/// The decoded `q` of a path, empty where there is none.
pub open spec fn search_query(pq: Seq<char>) -> Seq<char> {
    match raw_param(pq, "q"@) {
        Some(v) => url_decoded(v),
        None => Seq::empty(),
    }
}

/// The requests the search engine cannot answer: a search whose `q` does not
/// decode, or for which some score would exceed `u32::MAX`.
pub open spec fn route_fails(req: RequestView, docs: Seq<DocView>) -> bool {
    &&& req.method == "GET"@
    &&& path_part(req.path) == "/search"@
    &&& (!param_ok(req.path, "q"@) || !search_fits(docs, search_query(req.path)))
}

fn html_response_exec(body: &Vec<char>) -> (r: Response)
    ensures
        r@ == html_response(body@),
{
    let b = string_of(body);
    let page = page_shell(b.as_str());
    let pc = chars_of(page.as_str());
    let bytes = encode_chars(&pc);
    let r = Response::ok().header("content-type", "text/html").with_body(bytes);
    assert(r@.headers =~= html_response(body@).headers);
    r
}

fn push_escaped(buf: &mut Vec<char>, s: &str)
    ensures
        final(buf)@ == old(buf)@ + escape(s@),
{
    let e = escape_html(s);
    push_str(buf, e.as_str());
}

fn push_result(buf: &mut Vec<char>, d: &Doc, score: u32)
    ensures
        final(buf)@ == old(buf)@ + result_html(d@, score),
{
    push_str(buf, "<div class=\"result\"><p>");
    push_escaped(buf, d.title.as_str());
    push_str(buf, " (SCORE ");
    let digits = usize_decimal(score as usize);
    push_chars(buf, &digits);
    push_str(buf, ")</p><p>wisp://");
    push_escaped(buf, d.addr.as_str());
    push_escaped(buf, d.path.as_str());
    push_str(buf, "</p><p>");
    let tc = chars_of(d.text.as_str());
    let cut = if tc.len() <= 160 {
        tc.len()
    } else {
        160
    };
    let sn = string_of(&sub_chars(&tc, 0, cut));
    assert(sn@ =~= snippet(d.text@));
    push_escaped(buf, sn.as_str());
    push_str(buf, "...</p></div>");
    assert(buf@ =~= old(buf)@ + result_html(d@, score));
}

fn search_body_exec(docs: &Vec<Doc>, query: &String, rs: &Vec<(usize, u32)>) -> (r: Vec<char>)
    requires
        forall|k: int| 0 <= k < rs@.len() ==> (#[trigger] rs@[k]).0 < docs@.len(),
    ensures
        r@ == search_body(doc_views(docs@), query@, rs@),
{
    let ghost dv = doc_views(docs@);
    let mut buf: Vec<char> = Vec::new();
    push_str(&mut buf, "<p>RESULTS FOR: ");
    push_escaped(&mut buf, query.as_str());
    push_str(&mut buf, "</p>");
    if rs.len() == 0 {
        push_str(&mut buf, "<div class=\"result\"><p>NO RESULTS.</p></div>");
    }
    let ghost head = buf@;
    let lim = if rs.len() > 20 {
        20
    } else {
        rs.len()
    };
    let ghost shown = rs@.take(lim as int);
    let mut k: usize = 0;
    assert(shown.take(0) =~= Seq::<(usize, u32)>::empty());
    while k < lim
        invariant
            dv == doc_views(docs@),
            lim <= rs@.len(),
            shown == rs@.take(lim as int),
            forall|x: int| 0 <= x < rs@.len() ==> (#[trigger] rs@[x]).0 < docs@.len(),
            k <= lim,
            buf@ == head + results_html(dv, shown.take(k as int)),
        decreases lim - k,
    {
        let (d, sc) = rs[k];
        assert(rs@[k as int].0 < docs@.len());
        assert(shown.take(k + 1).drop_last() =~= shown.take(k as int));
        assert(shown.take(k + 1).last() == (d, sc));
        assert(dv[d as int] == docs@[d as int]@);
        push_result(&mut buf, &docs[d], sc);
        assert(buf@ =~= head + results_html(dv, shown.take(k + 1)));
        k = k + 1;
    }
    assert(shown.take(k as int) =~= shown);
    if rs.len() <= 20 {
        assert(shown =~= rs@);
    }
    buf
}

/// Answers a request: `/` with how to search, `/search?q=...` with the
/// results, anything else with `404 NOT_FOUND`. `None` for the requests of
/// `route_fails`.
pub fn route(req: &Request, index: &Index) -> (r: Option<Response>)
    ensures
        r is None <==> route_fails(req@, index@),
        r matches Some(resp) ==> {
            let get = req@.method == "GET"@;
            let p = path_part(req@.path);
            if get && p == "/"@ {
                resp@ == html_response(help_body())
            } else if get && p == "/search"@ {
                exists|rs: Seq<(usize, u32)>|
                    #[trigger] ranked(rs, index@, search_query(req@.path)) && resp@ == html_response(
                        search_body(index@, search_query(req@.path), rs),
                    )
            } else {
                resp@ == (ResponseView {
                    status: 404,
                    reason: "NOT_FOUND"@,
                    headers: Seq::empty(),
                    body: Seq::empty(),
                })
            }
        },
{
    let mc = chars_of(req.method.as_str());
    let get = chars_eq(&mc, &chars_of("GET"));
    let pc = chars_of(req.path.as_str());
    proof {
        lemma_find_from(pc@, '?', 0);
        reveal_strlit("/");
        reveal_strlit("/search");
    }
    let p = match find_char(&pc, '?') {
        Some(i) => sub_chars(&pc, 0, i),
        None => sub_chars(&pc, 0, pc.len()),
    };
    assert(p@ =~= path_part(req@.path));
    if get && chars_eq(&p, &chars_of("/")) {
        let mut body: Vec<char> = Vec::new();
        push_str(&mut body, "<div class=\"result\"><p>USE PATH /search?q=YOURQUERY TO SEARCH.</p></div>");
        assert(body@ =~= help_body());
        return Some(html_response_exec(&body));
    }
    if get && chars_eq(&p, &chars_of("/search")) {
        let query = match raw_param_exec(&pc, &chars_of("q")) {
            Some(v) => {
                let vb = encode_chars(&v);
                if !url_ok_exec(&vb) {
                    return None;
                }
                let vs = string_of(&v);
                url_decode(vs.as_str())
            },
            None => String::new(),
        };
        assert(query@ == search_query(req@.path));
        return match index.try_search(query.as_str()) {
            Some(rs) => {
                let docs = index.docs();
                let body = search_body_exec(docs, &query, &rs);
                let resp = html_response_exec(&body);
                assert(ranked(rs@, index@, search_query(req@.path)));
                Some(resp)
            },
            None => None,
        };
    }
    Some(Response::new(404, "NOT_FOUND"))
}

} // verus!
