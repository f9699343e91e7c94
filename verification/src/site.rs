//! The static-file server's answers: which file a path names, its content
//! type, and the response for each request once the file has been read.
use vstd::prelude::*;
use vstd::utf8::*;
use crate::html::chars_eq;
use crate::index::slashes_end;
use crate::message::{content_length_name, not_found_text, Request, RequestView, Response, ResponseView};
use crate::text::{chars_of, decimal, encode_chars, string_of, sub_chars};

verus! {

/// The file a path names, relative to the site's root: the path without its
/// leading slashes, or `index.html` where nothing is left.
pub open spec fn rel_path(path: Seq<char>) -> Seq<char> {
    let r = path.skip(slashes_end(path, 0));
    if r.len() == 0 {
        "index.html"@
    } else {
        r
    }
}

pub open spec fn ends_with(s: Seq<char>, suffix: Seq<char>) -> bool {
    s.len() >= suffix.len() && s.skip(s.len() - suffix.len()) == suffix
}

/// The content type of a file: HTML, CSS, or bytes.
pub open spec fn content_type_of(rel: Seq<char>) -> Seq<char> {
    if ends_with(rel, ".html"@) {
        "text/html"@
    } else if ends_with(rel, ".css"@) {
        "text/css"@
    } else {
        "application/octet-stream"@
    }
}

/// The answer for a file: its bytes, or `404` with `not found`.
pub open spec fn file_view(rel: Seq<char>, contents: Option<Seq<u8>>) -> ResponseView {
    match contents {
        Some(b) => ResponseView {
            status: 200,
            reason: seq!['O', 'K'],
            headers: seq![("content-type"@, content_type_of(rel)), (content_length_name(), decimal(b.len()))],
            body: b,
        },
        None => ResponseView {
            status: 404,
            reason: not_found_text(),
            headers: seq![(content_length_name(), decimal(encode_utf8("not found"@).len()))],
            body: encode_utf8("not found"@),
        },
    }
}

/// The answer for `/` where the site has no index page.
pub open spec fn hello_view() -> ResponseView {
    let b = encode_utf8("hello over wisp://\n"@);
    ResponseView {
        status: 200,
        reason: seq!['O', 'K'],
        headers: seq![("content-type"@, "text/plain"@), (content_length_name(), decimal(b.len()))],
        body: b,
    }
}

/// What the server does with a request: answer at once, or read a file
/// first (for `/`, answering hello where the file is missing).
pub enum ServerAction {
    Respond(Response),
    ReadFile { rel: String, root_page: bool },
}

/// A server action as mathematical values.
pub enum ServerActionView {
    Respond(ResponseView),
    ReadFile(Seq<char>, bool),
}

impl View for ServerAction {
    type V = ServerActionView;

    open spec fn view(&self) -> ServerActionView {
        match self {
            ServerAction::Respond(r) => ServerActionView::Respond(r@),
            ServerAction::ReadFile { rel, root_page } => ServerActionView::ReadFile(rel@, *root_page),
        }
    }
}

/// `GET /` reads `index.html`; `GET /echo` answers with the request's body;
/// any other `GET` reads the file it names; every other method is refused.
pub open spec fn server_plan(req: RequestView) -> ServerActionView {
    if req.method == "GET"@ {
        if req.path == "/"@ {
            ServerActionView::ReadFile("index.html"@, true)
        } else if req.path == "/echo"@ {
            let n = req.body.len();
            ServerActionView::Respond(
                ResponseView {
                    status: 200,
                    reason: seq!['O', 'K'],
                    headers: seq![
                        ("content-type"@, "application/octet-stream"@),
                        (content_length_name(), decimal(n)),
                    ],
                    body: req.body,
                },
            )
        } else {
            ServerActionView::ReadFile(rel_path(req.path), false)
        }
    } else {
        ServerActionView::Respond(
            ResponseView {
                status: 405,
                reason: "METHOD_NOT_ALLOWED"@,
                headers: Seq::empty(),
                body: Seq::empty(),
            },
        )
    }
}

/// The answer once the file of a `ReadFile` plan has been read (`None` where
/// it could not be).
pub open spec fn file_answer(rel: Seq<char>, root_page: bool, contents: Option<Seq<u8>>) -> ResponseView {
    if root_page && contents is None {
        hello_view()
    } else {
        file_view(rel, contents)
    }
}

/// The file that `path` names, relative to the site's root.
pub fn static_target(path: &str) -> (r: String)
    ensures
        r@ == rel_path(path@),
{
    let pc = chars_of(path);
    let mut k: usize = 0;
    while k < pc.len() && pc[k] == '/'
        invariant
            k <= pc@.len(),
            slashes_end(pc@, 0) == slashes_end(pc@, k as int),
        decreases pc.len() - k,
    {
        k = k + 1;
    }
    if k == pc.len() {
        assert(pc@.skip(k as int).len() == 0);
        "index.html".to_owned()
    } else {
        let r = sub_chars(&pc, k, pc.len());
        assert(r@ =~= pc@.skip(k as int));
        string_of(&r)
    }
}

fn ends_with_exec(s: &[char], suffix: &[char]) -> (r: bool)
    ensures
        r == ends_with(s@, suffix@),
{
    let n = s.len();
    let m = suffix.len();
    if n < m {
        return false;
    }
    let tail = sub_chars(s, n - m, n);
    assert(tail@ =~= s@.skip(n - m));
    chars_eq(&tail, suffix)
}

/// The content type of the file `rel`.
pub fn content_type(rel: &str) -> (r: &'static str)
    ensures
        r@ == content_type_of(rel@),
{
    let rc = chars_of(rel);
    if ends_with_exec(&rc, &chars_of(".html")) {
        "text/html"
    } else if ends_with_exec(&rc, &chars_of(".css")) {
        "text/css"
    } else {
        "application/octet-stream"
    }
}

fn copy_bytes(v: &[u8]) -> (r: Vec<u8>)
    ensures
        r@ == v@,
{
    let mut r: Vec<u8> = Vec::new();
    let mut i: usize = 0;
    while i < v.len()
        invariant
            i <= v@.len(),
            r@ == v@.take(i as int),
        decreases v.len() - i,
    {
        r.push(v[i]);
        i = i + 1;
        assert(r@ =~= v@.take(i as int));
    }
    assert(v@.take(i as int) =~= v@);
    r
}

/// The answer for the file `rel`, given its contents where it could be read.
pub fn file_response(rel: &str, contents: Option<Vec<u8>>) -> (r: Response)
    ensures
        r@ == file_view(
            rel@,
            match contents {
                Some(b) => Some(b@),
                None => None,
            },
        ),
{
    match contents {
        Some(bytes) => {
            let r = Response::ok().header("content-type", content_type(rel)).with_body(bytes);
            assert(r@.headers =~= seq![
                ("content-type"@, content_type_of(rel@)),
                (content_length_name(), decimal(r@.body.len())),
            ]);
            r
        },
        None => {
            let body = encode_chars(&chars_of("not found"));
            let r = Response::not_found().with_body(body);
            assert(r@.headers =~= seq![
                (content_length_name(), decimal(encode_utf8("not found"@).len())),
            ]);
            r
        },
    }
}

/// What to do with a request.
pub fn plan(req: &Request) -> (r: ServerAction)
    ensures
        r@ == server_plan(req@),
{
    let get = chars_eq(&chars_of(req.method.as_str()), &chars_of("GET"));
    if !get {
        return ServerAction::Respond(Response::new(405, "METHOD_NOT_ALLOWED"));
    }
    let pc = chars_of(req.path.as_str());
    if chars_eq(&pc, &chars_of("/")) {
        return ServerAction::ReadFile { rel: "index.html".to_owned(), root_page: true };
    }
    if chars_eq(&pc, &chars_of("/echo")) {
        let r = Response::ok().header("content-type", "application/octet-stream").with_body(
            copy_bytes(&req.body),
        );
        assert(r@.headers =~= seq![
            ("content-type"@, "application/octet-stream"@),
            (content_length_name(), decimal(req@.body.len())),
        ]);
        return ServerAction::Respond(r);
    }
    ServerAction::ReadFile { rel: static_target(req.path.as_str()), root_page: false }
}

/// The answer to a `ReadFile` plan once the file has been read.
pub fn answer_with_file(rel: &str, root_page: bool, contents: Option<Vec<u8>>) -> (r: Response)
    ensures
        r@ == file_answer(
            rel@,
            root_page,
            match contents {
                Some(b) => Some(b@),
                None => None,
            },
        ),
{
    let resp = file_response(rel, contents);
    if root_page && resp.status == 404 {
        let body = encode_chars(&chars_of("hello over wisp://\n"));
        let r = Response::ok().header("content-type", "text/plain").with_body(body);
        assert(r@.headers =~= hello_view().headers);
        r
    } else {
        resp
    }
}

} // verus!
