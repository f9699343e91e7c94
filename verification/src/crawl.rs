//! The list of sites the search engine crawls, and the title a crawled page
//! is indexed under.
use vstd::prelude::*;
use crate::index::{extract_title_and_text, title_and_text, Doc, DocView};
use crate::text::{
    chars_of, from_utf8_lossy, push_str, split_on, split_vec, string_of, trim, trim_vec,
    utf8_lossy, words, words_vec,
};

verus! {

/// What a line of the sites file names, if anything: blank lines and lines
/// starting with `#` name nothing; otherwise the first word is the address
/// and the second, where there is one, the path (`/` where there is not).
pub open spec fn site_of_line(line: Seq<char>) -> Option<(Seq<char>, Seq<char>)> {
    let t = trim(line);
    if t.len() == 0 || t[0] == '#' {
        None
    } else {
        let ws = words(t);
        if ws.len() == 0 {
            None
        } else {
            Some((ws[0], if ws.len() > 1 {
                ws[1]
            } else {
                seq!['/']
            }))
        }
    }
}

/// The sites named by the lines `ls[0..n]`, in order.
pub open spec fn sites_of_lines(ls: Seq<Seq<char>>, n: int) -> Seq<(Seq<char>, Seq<char>)>
    decreases n,
{
    if n <= 0 || n > ls.len() {
        Seq::empty()
    } else {
        let prev = sites_of_lines(ls, n - 1);
        match site_of_line(ls[n - 1]) {
            Some(p) => prev.push(p),
            None => prev,
        }
    }
}

/// The sites a sites file names, in order.
pub open spec fn sites_of(contents: Seq<char>) -> Seq<(Seq<char>, Seq<char>)> {
    let ls = split_on(contents, '\n');
    sites_of_lines(ls, ls.len() as int)
}

/// Reads a sites file: `(address, path)` for each line that names a site.
pub fn parse_sites(contents: &str) -> (r: Vec<(String, String)>)
    ensures
        r@.map_values(|p: (String, String)| (p.0@, p.1@)) == sites_of(contents@),
{
    let cc = chars_of(contents);
    let lines = split_vec(&cc, '\n');
    let ghost lv = lines@.map_values(|v: Vec<char>| v@);
    let mut out: Vec<(String, String)> = Vec::new();
    let mut i: usize = 0;
    while i < lines.len()
        invariant
            lv == lines@.map_values(|v: Vec<char>| v@),
            lv == split_on(contents@, '\n'),
            i <= lv.len(),
            out@.map_values(|p: (String, String)| (p.0@, p.1@)) == sites_of_lines(lv, i as int),
        decreases lines.len() - i,
    {
        let ghost before = out@.map_values(|p: (String, String)| (p.0@, p.1@));
        assert(lv[i as int] == lines@[i as int]@);
        let t = trim_vec(&lines[i]);
        if t.len() > 0 && t[0] != '#' {
            let ws = words_vec(&t);
            if ws.len() > 0 {
                assert(ws@[0]@ == words(t@)[0]);
                let addr = string_of(&ws[0]);
                let path = if ws.len() > 1 {
                    assert(ws@[1]@ == words(t@)[1]);
                    string_of(&ws[1])
                } else {
                    let slash = vec!['/'];
                    assert(slash@ =~= seq!['/']);
                    string_of(&slash)
                };
                out.push((addr, path));
                assert(out@.map_values(|p: (String, String)| (p.0@, p.1@)) =~= before.push(
                    site_of_line(lv[i as int]).unwrap(),
                ));
            }
        }
        i = i + 1;
    }
    out
}

/// The title a crawled page is indexed under: its own, or `address` and
/// `path` where it has none.
pub open spec fn page_title_of(title: Seq<char>, addr: Seq<char>, path: Seq<char>) -> Seq<char> {
    if title.len() == 0 {
        addr + path
    } else {
        title
    }
}

/// The title a crawled page is indexed under.
pub fn page_title(title: String, addr: &str, path: &str) -> (r: String)
    ensures
        r@ == page_title_of(title@, addr@, path@),
{
    if title.as_str().is_empty() {
        let mut buf: Vec<char> = Vec::new();
        push_str(&mut buf, addr);
        push_str(&mut buf, path);
        string_of(&buf)
    } else {
        title
    }
}


/// The document a fetched page becomes: its body read as text (invalid
/// UTF-8 replaced), its title and plain text extracted, and the title
/// falling back to the address and path.
pub open spec fn crawled_doc_view(addr: Seq<char>, path: Seq<char>, body: Seq<u8>) -> DocView {
    let tt = title_and_text(utf8_lossy(body));
    DocView { addr, path, title: page_title_of(tt.0, addr, path), text: tt.1 }
}

/// The document a page fetched from `addr` and `path` becomes.
pub fn crawled_doc(addr: &str, path: &str, body: &[u8]) -> (r: Doc)
    ensures
        r@ == crawled_doc_view(addr@, path@, body@),
{
    let page = from_utf8_lossy(body);
    let (title, text) = extract_title_and_text(page.as_str());
    let title = page_title(title, addr, path);
    Doc { addr: addr.to_owned(), path: path.to_owned(), title, text }
}

} // verus!
