//! The client's side of a fetch: reading a `wisp://` address and the request
//! it sends.
use vstd::prelude::*;
use crate::message::{Request, RequestView};
use crate::text::{chars_of, find, find_char, lemma_find_from, string_of, sub_chars};

verus! {

pub open spec fn scheme() -> Seq<char> {
    "wisp://"@
}

/// The address with a leading `wisp://` removed, if there is one.
pub open spec fn without_scheme(url: Seq<char>) -> Seq<char> {
    if url.len() >= scheme().len() && url.take(scheme().len() as int) == scheme() {
        url.skip(scheme().len() as int)
    } else {
        url
    }
}

/// `(host:port, path)`: the path starts at the first `/` and is `/` where
/// there is none.
pub open spec fn url_parts(url: Seq<char>) -> (Seq<char>, Seq<char>) {
    let w = without_scheme(url);
    match find(w, '/') {
        Some(i) => (w.take(i), w.skip(i)),
        None => (w, seq!['/']),
    }
}

/// Parses a `wisp://host:port/path` address (the scheme is optional) into
/// `(host:port, path)`.
pub fn parse_wisp_url(url: &str) -> (r: (String, String))
    ensures
        (r.0@, r.1@) == url_parts(url@),
{
    let uc = chars_of(url);
    let sc = chars_of("wisp://");
    proof {
        reveal_strlit("wisp://");
    }
    let n = uc.len();
    let k = sc.len();
    let mut has = n >= k;
    let mut i: usize = 0;
    while has && i < k
        invariant
            n == uc@.len(),
            k == sc@.len(),
            sc@ == scheme(),
            i <= k,
            has ==> n >= k && forall|j: int| 0 <= j < i ==> uc@[j] == sc@[j],
            has || !(n >= k && uc@.take(k as int) == sc@),
        decreases k - i + if has {
            1int
        } else {
            0int
        },
    {
        if uc[i] != sc[i] {
            assert(uc@.take(k as int)[i as int] != sc@[i as int]);
            has = false;
        } else {
            i = i + 1;
        }
    }
    if has {
        assert(uc@.take(k as int) =~= sc@);
    }
    let w = if has {
        sub_chars(&uc, k, n)
    } else {
        sub_chars(&uc, 0, n)
    };
    assert(w@ =~= without_scheme(url@));
    proof {
        lemma_find_from(w@, '/', 0);
    }
    match find_char(&w, '/') {
        Some(j) => {
            let a = sub_chars(&w, 0, j);
            let b = sub_chars(&w, j, w.len());
            assert(b@ =~= w@.skip(j as int));
            (string_of(&a), string_of(&b))
        },
        None => {
            let slash = vec!['/'];
            assert(slash@ =~= seq!['/']);
            (string_of(&w), string_of(&slash))
        },
    }
}

/// Whether `wisp://` may be left off: an address that does not itself start
/// with `wisp://` reads the same with the scheme in front as without it.
pub proof fn lemma_scheme_optional(url: Seq<char>)
    requires
        !(url.len() >= scheme().len() && url.take(scheme().len() as int) == scheme()),
    ensures
        url_parts(scheme() + url) == url_parts(url),
{
    let full = scheme() + url;
    assert(full.take(scheme().len() as int) =~= scheme());
    assert(full.skip(scheme().len() as int) =~= url);
}

/// The host of `host:port`: the text before the first `:`.
pub open spec fn host_of(addr: Seq<char>) -> Seq<char> {
    match find(addr, ':') {
        Some(i) => addr.take(i),
        None => addr,
    }
}

/// The host of `host:port`.
pub fn host_name(addr: &str) -> (r: String)
    ensures
        r@ == host_of(addr@),
{
    let ac = chars_of(addr);
    proof {
        lemma_find_from(ac@, ':', 0);
    }
    match find_char(&ac, ':') {
        Some(i) => string_of(&sub_chars(&ac, 0, i)),
        None => string_of(&ac),
    }
}

/// The request a fetch of `path` from `addr` sends: `GET path` with a `host`
/// header naming the host.
pub fn fetch_request(addr: &str, path: &str) -> (r: Request)
    ensures
        r@ == (RequestView {
            method: "GET"@,
            path: path@,
            headers: seq![("host"@, host_of(addr@))],
            body: Seq::empty(),
        }),
{
    let host = host_name(addr);
    let r = Request::new("GET", path).header("host", host.as_str());
    assert(r@.headers =~= seq![("host"@, host_of(addr@))]);
    r
}

} // verus!
