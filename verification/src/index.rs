//! The search index: documents, their terms, and ranked search.
//!
//! A term is a maximal run of alphanumeric characters of the lowercased text.
//! A document's terms are those of its title and text; searching scores each
//! document by the occurrences of the query's terms, with a bonus where the
//! term is found in the lowercased title.
use vstd::prelude::*;
use crate::html::chars_eq;
use crate::text::{
    chars_of, contains_seq, contains_vec, is_alnum, is_alphanumeric, lowercase, replace_all,
    replace_vec, string_of, sub_chars, to_lowercase, words, words_vec,
};

verus! {

/// An indexed page.
pub struct Doc {
    pub addr: String,
    pub path: String,
    pub title: String,
    pub text: String,
}

/// A page as text.
pub struct DocView {
    pub addr: Seq<char>,
    pub path: Seq<char>,
    pub title: Seq<char>,
    pub text: Seq<char>,
}

impl View for Doc {
    type V = DocView;

    open spec fn view(&self) -> DocView {
        DocView { addr: self.addr@, path: self.path@, title: self.title@, text: self.text@ }
    }
}

pub open spec fn doc_views(v: Seq<Doc>) -> Seq<DocView> {
    v.map_values(|d: Doc| d@)
}

// ---------------------------------------------------------------------------
// Terms
// ---------------------------------------------------------------------------

/// The end of the run of non-alphanumeric characters at `i`.
pub open spec fn sep_end(s: Seq<char>, i: int) -> int
    decreases s.len() - i,
{
    if 0 <= i < s.len() && !is_alnum(s[i]) {
        sep_end(s, i + 1)
    } else {
        i
    }
}

/// The end of the run of alphanumeric characters at `i`.
pub open spec fn term_end(s: Seq<char>, i: int) -> int
    decreases s.len() - i,
{
    if 0 <= i < s.len() && is_alnum(s[i]) {
        term_end(s, i + 1)
    } else {
        i
    }
}

proof fn lemma_sep_end(s: Seq<char>, i: int)
    requires
        0 <= i <= s.len(),
    ensures
        i <= sep_end(s, i) <= s.len(),
        sep_end(s, i) < s.len() ==> is_alnum(s[sep_end(s, i)]),
    decreases s.len() - i,
{
    if i < s.len() && !is_alnum(s[i]) {
        lemma_sep_end(s, i + 1);
    }
}

proof fn lemma_term_end(s: Seq<char>, i: int)
    requires
        0 <= i <= s.len(),
    ensures
        i <= term_end(s, i) <= s.len(),
        i < s.len() && is_alnum(s[i]) ==> term_end(s, i) > i,
    decreases s.len() - i,
{
    if i < s.len() && is_alnum(s[i]) {
        lemma_term_end(s, i + 1);
    }
}

/// The maximal runs of alphanumeric characters of `s` from `i`, in order.
pub open spec fn runs_from(s: Seq<char>, i: int) -> Seq<Seq<char>>
    decreases s.len() - i,
{
    let p = sep_end(s, i);
    if p >= s.len() || p < i {
        Seq::empty()
    } else {
        let e = term_end(s, p);
        if e <= p || e > s.len() {
            Seq::empty()
        } else {
            seq![s.subrange(p, e)] + runs_from(s, e)
        }
    }
}

/// The terms of a text: the runs of alphanumeric characters of its lowercase
/// form (splitting at every other character and dropping empty pieces).
pub open spec fn terms(s: Seq<char>) -> Seq<Seq<char>> {
    runs_from(lowercase(s), 0)
}

fn sep_end_exec(s: &[char], i: usize) -> (j: usize)
    requires
        i <= s@.len(),
    ensures
        j == sep_end(s@, i as int),
{
    let mut j = i;
    while j < s.len() && !is_alphanumeric(s[j])
        invariant
            i <= j <= s@.len(),
            sep_end(s@, i as int) == sep_end(s@, j as int),
        decreases s.len() - j,
    {
        j = j + 1;
    }
    j
}

fn term_end_exec(s: &[char], i: usize) -> (j: usize)
    requires
        i <= s@.len(),
    ensures
        j == term_end(s@, i as int),
{
    let mut j = i;
    while j < s.len() && is_alphanumeric(s[j])
        invariant
            i <= j <= s@.len(),
            term_end(s@, i as int) == term_end(s@, j as int),
        decreases s.len() - j,
    {
        j = j + 1;
    }
    j
}

fn runs_vec(s: &[char]) -> (r: Vec<Vec<char>>)
    ensures
        r@.map_values(|w: Vec<char>| w@) == runs_from(s@, 0),
{
    let mut out: Vec<Vec<char>> = Vec::new();
    let mut i: usize = 0;
    assert(out@.map_values(|w: Vec<char>| w@) + runs_from(s@, 0) =~= runs_from(s@, 0));
    loop
        invariant
            i <= s@.len(),
            runs_from(s@, 0) == out@.map_values(|w: Vec<char>| w@) + runs_from(s@, i as int),
        decreases s@.len() - i,
    {
        let ghost before = out@.map_values(|w: Vec<char>| w@);
        let p = sep_end_exec(s, i);
        proof {
            lemma_sep_end(s@, i as int);
        }
        if p >= s.len() {
            assert(before + Seq::<Seq<char>>::empty() =~= before);
            return out;
        }
        let e = term_end_exec(s, p);
        proof {
            lemma_term_end(s@, p as int);
        }
        out.push(sub_chars(s, p, e));
        proof {
            let after = out@.map_values(|w: Vec<char>| w@);
            assert(after =~= before + seq![s@.subrange(p as int, e as int)]);
            assert((before + seq![s@.subrange(p as int, e as int)]) + runs_from(s@, e as int) =~= before
                + (seq![s@.subrange(p as int, e as int)] + runs_from(s@, e as int)));
        }
        i = e;
    }
}

/// Executable `terms`.
fn tokenize(s: &[char]) -> (r: Vec<Vec<char>>)
    ensures
        r@.map_values(|w: Vec<char>| w@) == terms(s@),
{
    let lower = to_lowercase(s);
    runs_vec(&lower)
}

/// How many times `t` occurs in `ts`.
pub open spec fn occ(ts: Seq<Seq<char>>, t: Seq<char>) -> nat
    decreases ts.len(),
{
    if ts.len() == 0 {
        0
    } else {
        occ(ts.drop_last(), t) + if ts.last() == t {
            1nat
        } else {
            0nat
        }
    }
}

/// The terms of a document: of its title, a space and its text.
pub open spec fn doc_terms(d: DocView) -> Seq<Seq<char>> {
    terms(d.title + seq![' '] + d.text)
}

proof fn lemma_occ_prefix(ts: Seq<Seq<char>>, t: Seq<char>, k: int)
    requires
        0 <= k <= ts.len(),
    ensures
        occ(ts.take(k), t) <= occ(ts, t),
    decreases ts.len() - k,
{
    if k < ts.len() {
        assert(ts.drop_last().take(k) =~= ts.take(k));
        lemma_occ_prefix(ts.drop_last(), t, k);
    } else {
        assert(ts.take(k) =~= ts);
    }
}

proof fn lemma_occ_step(ts: Seq<Seq<char>>, t: Seq<char>, k: int)
    requires
        0 <= k < ts.len(),
    ensures
        occ(ts.take(k + 1), t) == occ(ts.take(k), t) + if ts[k] == t {
            1nat
        } else {
            0nat
        },
{
    assert(ts.take(k + 1).drop_last() =~= ts.take(k));
}


// ---------------------------------------------------------------------------
// Postings
// ---------------------------------------------------------------------------

/// Term to hits: for each term, the documents it occurs in (ascending) and
/// how many times.
pub type Postings = Seq<(Seq<char>, Seq<(int, int)>)>;

pub open spec fn postings_view(p: Seq<(Vec<char>, Vec<(usize, u32)>)>) -> Postings {
    p.map_values(
        |e: (Vec<char>, Vec<(usize, u32)>)|
            (e.0@, e.1@.map_values(|h: (usize, u32)| (h.0 as int, h.1 as int))),
    )
}

/// The first entry at or after `k` for term `t`.
pub open spec fn find_term(p: Postings, t: Seq<char>, k: int) -> Option<int>
    decreases p.len() - k,
{
    if k < 0 || k >= p.len() {
        None
    } else if p[k].0 == t {
        Some(k)
    } else {
        find_term(p, t, k + 1)
    }
}

/// The first hit at or after `k` for document `d`.
pub open spec fn find_hit(h: Seq<(int, int)>, d: int, k: int) -> Option<int>
    decreases h.len() - k,
{
    if k < 0 || k >= h.len() {
        None
    } else if h[k].0 == d {
        Some(k)
    } else {
        find_hit(h, d, k + 1)
    }
}

/// How many times the postings say `t` occurs in document `d`.
pub open spec fn posting(p: Postings, t: Seq<char>, d: int) -> int {
    match find_term(p, t, 0) {
        Some(a) => match find_hit(p[a].1, d, 0) {
            Some(x) => p[a].1[x].1,
            None => 0,
        },
        None => 0,
    }
}

/// The occurrences of `t` in document `d` counted so far: all of the
/// documents before `i`, and the first `j` terms of document `i`.
pub open spec fn counted(docs: Seq<DocView>, t: Seq<char>, d: int, i: int, j: int) -> int {
    if 0 <= d < i && d < docs.len() {
        occ(doc_terms(docs[d]), t) as int
    } else if d == i && 0 <= d < docs.len() {
        occ(doc_terms(docs[d]).take(j), t) as int
    } else {
        0
    }
}

/// The postings hold the counts so far: terms distinct, hits in ascending
/// document order with positive counts, every count as `counted` says, and
/// no term without a hit.
pub open spec fn postings_ok(docs: Seq<DocView>, p: Postings, i: int, j: int) -> bool {
    &&& forall|a: int, b: int| 0 <= a < b < p.len() ==> #[trigger] p[a].0 != #[trigger] p[b].0
    &&& forall|a: int, x: int, y: int|
        0 <= a < p.len() && 0 <= x < y < p[a].1.len() ==> #[trigger] p[a].1[x].0
            < #[trigger] p[a].1[y].0
    &&& forall|a: int, x: int|
        0 <= a < p.len() && 0 <= x < p[a].1.len() ==> 0 <= #[trigger] p[a].1[x].0 <= i
            && p[a].1[x].0 < docs.len() && p[a].1[x].1 > 0
    &&& forall|t: Seq<char>, d: int| #[trigger] posting(p, t, d) == counted(docs, t, d, i, j)
    &&& forall|a: int| 0 <= a < p.len() ==> (#[trigger] p[a]).1.len() > 0
}

proof fn lemma_find_term(p: Postings, t: Seq<char>, k: int)
    requires
        0 <= k,
    ensures
        find_term(p, t, k) matches Some(a) ==> k <= a < p.len() && p[a].0 == t,
        find_term(p, t, k) is None ==> forall|a: int| k <= a < p.len() ==> #[trigger] p[a].0 != t,
    decreases p.len() - k,
{
    if k < p.len() && p[k].0 != t {
        lemma_find_term(p, t, k + 1);
    }
}

proof fn lemma_find_hit(h: Seq<(int, int)>, d: int, k: int)
    requires
        0 <= k,
    ensures
        find_hit(h, d, k) matches Some(x) ==> k <= x < h.len() && h[x].0 == d,
        find_hit(h, d, k) is None ==> forall|x: int| k <= x < h.len() ==> #[trigger] h[x].0 != d,
    decreases h.len() - k,
{
    if k < h.len() && h[k].0 != d {
        lemma_find_hit(h, d, k + 1);
    }
}

/// In distinct terms, the entry found for `t` is the one holding it.
proof fn lemma_find_term_at(p: Postings, t: Seq<char>, a: int)
    requires
        0 <= a < p.len(),
        p[a].0 == t,
        forall|x: int, y: int| 0 <= x < y < p.len() ==> #[trigger] p[x].0 != #[trigger] p[y].0,
    ensures
        find_term(p, t, 0) == Some(a),
{
    lemma_find_term(p, t, 0);
    match find_term(p, t, 0) {
        Some(b) => {
            if b < a {
                assert(p[b].0 != p[a].0);
            } else if b > a {
                assert(p[a].0 != p[b].0);
            }
        },
        None => {},
    }
}

/// In ascending hits, the hit found for `d` is the one holding it.
proof fn lemma_find_hit_at(h: Seq<(int, int)>, d: int, x: int)
    requires
        0 <= x < h.len(),
        h[x].0 == d,
        forall|u: int, v: int| 0 <= u < v < h.len() ==> #[trigger] h[u].0 < #[trigger] h[v].0,
    ensures
        find_hit(h, d, 0) == Some(x),
{
    lemma_find_hit(h, d, 0);
    match find_hit(h, d, 0) {
        Some(y) => {
            if y < x {
                assert(h[y].0 < h[x].0);
            } else if y > x {
                assert(h[x].0 < h[y].0);
            }
        },
        None => {},
    }
}


proof fn lemma_find_term_same(p: Postings, p2: Postings, t: Seq<char>, k: int)
    requires
        0 <= k,
        p2.len() == p.len(),
        forall|a: int| 0 <= a < p.len() ==> #[trigger] p2[a].0 == p[a].0,
    ensures
        find_term(p2, t, k) == find_term(p, t, k),
    decreases p.len() - k,
{
    if k < p.len() {
        lemma_find_term_same(p, p2, t, k + 1);
    }
}

proof fn lemma_find_term_push(p: Postings, e: (Seq<char>, Seq<(int, int)>), t: Seq<char>, k: int)
    requires
        0 <= k <= p.len(),
    ensures
        find_term(p.push(e), t, k) == match find_term(p, t, k) {
            Some(a) => Some(a),
            None => if e.0 == t {
                Some(p.len() as int)
            } else {
                None
            },
        },
    decreases p.len() - k,
{
    assert(p.push(e)[k] == if k < p.len() {
        p[k]
    } else {
        e
    });
    if k < p.len() {
        lemma_find_term_push(p, e, t, k + 1);
    } else {
        assert(find_term(p.push(e), t, k + 1) is None);
    }
}

proof fn lemma_find_hit_same(h: Seq<(int, int)>, h2: Seq<(int, int)>, d: int, k: int)
    requires
        0 <= k,
        h2.len() == h.len(),
        forall|x: int| 0 <= x < h.len() ==> #[trigger] h2[x].0 == h[x].0,
    ensures
        find_hit(h2, d, k) == find_hit(h, d, k),
    decreases h.len() - k,
{
    if k < h.len() {
        lemma_find_hit_same(h, h2, d, k + 1);
    }
}

proof fn lemma_find_hit_push(h: Seq<(int, int)>, e: (int, int), d: int, k: int)
    requires
        0 <= k <= h.len(),
    ensures
        find_hit(h.push(e), d, k) == match find_hit(h, d, k) {
            Some(x) => Some(x),
            None => if e.0 == d {
                Some(h.len() as int)
            } else {
                None
            },
        },
    decreases h.len() - k,
{
    assert(h.push(e)[k] == if k < h.len() {
        h[k]
    } else {
        e
    });
    if k < h.len() {
        lemma_find_hit_push(h, e, d, k + 1);
    } else {
        assert(find_hit(h.push(e), d, k + 1) is None);
    }
}

/// One more occurrence of `t` in document `i`, where its entry `a` already
/// has a hit for `i` (the last one): that hit's count goes up by one.
proof fn lemma_bump(docs: Seq<DocView>, p: Postings, i: int, j: int, a: int)
    requires
        0 <= i < docs.len(),
        0 <= j < doc_terms(docs[i]).len(),
        postings_ok(docs, p, i, j),
        0 <= a < p.len(),
        p[a].0 == doc_terms(docs[i])[j],
        p[a].1.len() > 0,
        p[a].1.last().0 == i,
    ensures
        ({
            let h = p[a].1;
            let last = h.len() - 1;
            let p2 = p.update(a, (p[a].0, h.update(last, (i, h[last].1 + 1))));
            postings_ok(docs, p2, i, j + 1)
        }),
{
    let t = p[a].0;
    let h = p[a].1;
    let last = h.len() - 1;
    let h2 = h.update(last, (i, h[last].1 + 1));
    let p2 = p.update(a, (t, h2));
    let ts = doc_terms(docs[i]);
    lemma_occ_step(ts, t, j);
    lemma_find_term_at(p, t, a);
    lemma_find_hit_at(h, i, last);
    assert(posting(p, t, i) == counted(docs, t, i, i, j));
    assert forall|a1: int| 0 <= a1 < p.len() implies #[trigger] p2[a1].0 == p[a1].0 by {}
    assert forall|x: int| 0 <= x < h.len() implies #[trigger] h2[x].0 == h[x].0 by {}
    assert forall|t2: Seq<char>, d: int| #[trigger] posting(p2, t2, d) == counted(docs, t2, d, i, j + 1) by {
        lemma_find_term_same(p, p2, t2, 0);
        lemma_occ_step(ts, t2, j);
        assert(posting(p, t2, d) == counted(docs, t2, d, i, j));
        lemma_find_term(p, t2, 0);
        if t2 == t {
            lemma_find_hit_same(h, h2, d, 0);
            lemma_find_hit(h, d, 0);
        }
    }
    assert forall|a1: int, x: int, y: int|
        0 <= a1 < p2.len() && 0 <= x < y < p2[a1].1.len() implies #[trigger] p2[a1].1[x].0
        < #[trigger] p2[a1].1[y].0 by {
        if a1 == a {
            assert(p[a].1[x].0 < p[a].1[y].0);
        } else {
            assert(p[a1].1[x].0 < p[a1].1[y].0);
        }
    }
    assert forall|a1: int, x: int|
        0 <= a1 < p2.len() && 0 <= x < p2[a1].1.len() implies 0 <= #[trigger] p2[a1].1[x].0 <= i
        && p2[a1].1[x].0 < docs.len() && p2[a1].1[x].1 > 0 by {
        if a1 == a {
            assert(p[a].1[x].0 <= i && p[a].1[x].1 > 0);
        } else {
            assert(p[a1].1[x].0 <= i);
        }
    }
    assert forall|a1: int, b: int| 0 <= a1 < b < p2.len() implies #[trigger] p2[a1].0 != #[trigger] p2[b].0 by {
        assert(p[a1].0 != p[b].0);
    }
}

/// The first occurrence of `t` in document `i`, where its entry `a` exists:
/// a hit `(i, 1)` is appended.
proof fn lemma_new_hit(docs: Seq<DocView>, p: Postings, i: int, j: int, a: int)
    requires
        0 <= i < docs.len(),
        0 <= j < doc_terms(docs[i]).len(),
        postings_ok(docs, p, i, j),
        0 <= a < p.len(),
        p[a].0 == doc_terms(docs[i])[j],
        p[a].1.len() == 0 || p[a].1.last().0 != i,
    ensures
        postings_ok(docs, p.update(a, (p[a].0, p[a].1.push((i, 1)))), i, j + 1),
{
    let t = p[a].0;
    let h = p[a].1;
    let h2 = h.push((i, 1));
    let p2 = p.update(a, (t, h2));
    let ts = doc_terms(docs[i]);
    lemma_find_term_at(p, t, a);
    assert forall|x: int| 0 <= x < h.len() implies #[trigger] h[x].0 < i by {
        assert(h[x].0 <= i);
        if x < h.len() - 1 {
            assert(h[x].0 < h[h.len() - 1].0);
        }
    }
    lemma_find_hit(h, i, 0);
    assert(posting(p, t, i) == counted(docs, t, i, i, j));
    assert forall|a1: int| 0 <= a1 < p.len() implies #[trigger] p2[a1].0 == p[a1].0 by {}
    assert forall|t2: Seq<char>, d: int| #[trigger] posting(p2, t2, d) == counted(docs, t2, d, i, j + 1) by {
        lemma_find_term_same(p, p2, t2, 0);
        lemma_occ_step(ts, t2, j);
        assert(posting(p, t2, d) == counted(docs, t2, d, i, j));
        lemma_find_term(p, t2, 0);
        if t2 == t {
            lemma_find_hit_push(h, (i, 1), d, 0);
            assert(find_term(p2, t, 0) == Some(a));
            assert(p2[a].1 == h2);
            if d == i {
                assert(find_hit(h, i, 0) is None);
                assert(h2[h.len() as int] == (i, 1int));
            } else {
                match find_hit(h, d, 0) {
                    Some(x) => {
                        lemma_find_hit(h, d, 0);
                        assert(h2[x] == h[x]);
                    },
                    None => {},
                }
            }
        } else {
            match find_term(p, t2, 0) {
                Some(b) => {
                    assert(b != a);
                    assert(p2[b] == p[b]);
                },
                None => {},
            }
        }
    }
    assert forall|a1: int, x: int, y: int|
        0 <= a1 < p2.len() && 0 <= x < y < p2[a1].1.len() implies #[trigger] p2[a1].1[x].0
        < #[trigger] p2[a1].1[y].0 by {
        if a1 == a {
            if y < h.len() {
                assert(p[a].1[x].0 < p[a].1[y].0);
            } else {
                assert(h[x].0 < i);
            }
        } else {
            assert(p[a1].1[x].0 < p[a1].1[y].0);
        }
    }
    assert forall|a1: int, x: int|
        0 <= a1 < p2.len() && 0 <= x < p2[a1].1.len() implies 0 <= #[trigger] p2[a1].1[x].0 <= i
        && p2[a1].1[x].0 < docs.len() && p2[a1].1[x].1 > 0 by {
        if a1 == a {
            if x < h.len() {
                assert(p[a].1[x].0 <= i && p[a].1[x].1 > 0);
            }
        } else {
            assert(p[a1].1[x].0 <= i);
        }
    }
    assert forall|a1: int, b: int| 0 <= a1 < b < p2.len() implies #[trigger] p2[a1].0 != #[trigger] p2[b].0 by {
        assert(p[a1].0 != p[b].0);
    }
}

/// The first occurrence of `t` anywhere: an entry `(t, [(i, 1)])` is appended.
proof fn lemma_new_term(docs: Seq<DocView>, p: Postings, i: int, j: int)
    requires
        0 <= i < docs.len(),
        0 <= j < doc_terms(docs[i]).len(),
        postings_ok(docs, p, i, j),
        find_term(p, doc_terms(docs[i])[j], 0) is None,
    ensures
        postings_ok(docs, p.push((doc_terms(docs[i])[j], seq![(i, 1)])), i, j + 1),
{
    let ts = doc_terms(docs[i]);
    let t = ts[j];
    let e = (t, seq![(i, 1)]);
    let p2 = p.push(e);
    lemma_find_term(p, t, 0);
    assert forall|t2: Seq<char>, d: int| #[trigger] posting(p2, t2, d) == counted(docs, t2, d, i, j + 1) by {
        lemma_find_term_push(p, e, t2, 0);
        lemma_occ_step(ts, t2, j);
        assert(posting(p, t2, d) == counted(docs, t2, d, i, j));
        lemma_find_term(p, t2, 0);
        if t2 == t {
            assert(posting(p, t2, i) == counted(docs, t2, i, i, j));
            assert(find_term(p2, t, 0) == Some(p.len() as int));
            assert(p2[p.len() as int] == e);
            assert(find_hit(seq![(i, 1)], d, 1) is None);
            assert(seq![(i, 1int)][0] == (i, 1int));
        } else {
            match find_term(p, t2, 0) {
                Some(b) => {
                    assert(p2[b] == p[b]);
                },
                None => {},
            }
        }
    }
    assert forall|a1: int, b: int| 0 <= a1 < b < p2.len() implies #[trigger] p2[a1].0 != #[trigger] p2[b].0 by {
        if b < p.len() {
            assert(p[a1].0 != p[b].0);
        } else {
            assert(p[a1].0 != t);
        }
    }
    assert forall|a1: int, x: int, y: int|
        0 <= a1 < p2.len() && 0 <= x < y < p2[a1].1.len() implies #[trigger] p2[a1].1[x].0
        < #[trigger] p2[a1].1[y].0 by {
        if a1 < p.len() {
            assert(p[a1].1[x].0 < p[a1].1[y].0);
        }
    }
    assert forall|a1: int, x: int|
        0 <= a1 < p2.len() && 0 <= x < p2[a1].1.len() implies 0 <= #[trigger] p2[a1].1[x].0 <= i
        && p2[a1].1[x].0 < docs.len() && p2[a1].1[x].1 > 0 by {
        if a1 < p.len() {
            assert(p[a1].1[x].0 <= i);
        }
    }
}


proof fn lemma_next_doc(docs: Seq<DocView>, p: Postings, i: int)
    requires
        0 <= i < docs.len(),
        postings_ok(docs, p, i, doc_terms(docs[i]).len() as int),
    ensures
        postings_ok(docs, p, i + 1, 0),
{
    let ts = doc_terms(docs[i]);
    assert(ts.take(ts.len() as int) =~= ts);
    assert forall|t: Seq<char>, d: int| #[trigger] posting(p, t, d) == counted(docs, t, d, i + 1, 0) by {
        assert(posting(p, t, d) == counted(docs, t, d, i, ts.len() as int));
        if d == i + 1 && d < docs.len() {
            assert(doc_terms(docs[d]).take(0) =~= Seq::<Seq<char>>::empty());
        }
    }
}

/// Every count of every document fits in a `u32`.
pub open spec fn build_fits(docs: Seq<DocView>) -> bool {
    forall|d: int, t: Seq<char>| 0 <= d < docs.len() ==> #[trigger] occ(doc_terms(docs[d]), t) <= u32::MAX
}

fn find_entry(postings: &Vec<(Vec<char>, Vec<(usize, u32)>)>, t: &Vec<char>) -> (r: Option<usize>)
    ensures
        r matches Some(a) ==> find_term(postings_view(postings@), t@, 0) == Some(a as int),
        r is None ==> find_term(postings_view(postings@), t@, 0) is None,
{
    let ghost pv = postings_view(postings@);
    let mut a: usize = 0;
    while a < postings.len()
        invariant
            pv == postings_view(postings@),
            a <= pv.len(),
            find_term(pv, t@, 0) == find_term(pv, t@, a as int),
        decreases postings.len() - a,
    {
        assert(pv[a as int].0 == postings@[a as int].0@);
        if chars_eq(&postings[a].0, t) {
            return Some(a);
        }
        a = a + 1;
    }
    None
}

fn add_occurrence(
    postings: &mut Vec<(Vec<char>, Vec<(usize, u32)>)>,
    t: &Vec<char>,
    i: usize,
    Ghost(docs): Ghost<Seq<DocView>>,
    Ghost(j): Ghost<int>,
) -> (ok: bool)
    requires
        i < docs.len(),
        0 <= j < doc_terms(docs[i as int]).len(),
        t@ == doc_terms(docs[i as int])[j],
        postings_ok(docs, postings_view(old(postings)@), i as int, j),
    ensures
        ok ==> postings_ok(docs, postings_view(final(postings)@), i as int, j + 1),
        !ok ==> occ(doc_terms(docs[i as int]), t@) > u32::MAX,
{
    let ghost p = postings_view(postings@);
    match find_entry(postings, t) {
        Some(a) => {
            proof {
                lemma_find_term(p, t@, 0);
            }
            let hl0 = postings[a].1.len();
            if hl0 > 0 && postings[a].1[hl0 - 1].0 == i && postings[a].1[hl0 - 1].1 == u32::MAX {
                proof {
                    let ts = doc_terms(docs[i as int]);
                    let h = p[a as int].1;
                    assert(h[hl0 - 1] == (i as int, u32::MAX as int));
                    lemma_find_term_at(p, t@, a as int);
                    lemma_find_hit_at(h, i as int, hl0 - 1);
                    assert(posting(p, t@, i as int) == counted(docs, t@, i as int, i as int, j));
                    lemma_occ_step(ts, t@, j);
                    lemma_occ_prefix(ts, t@, j + 1);
                }
                return false;
            }
            let entry = postings.remove(a);
            let ghost h = p[a as int].1;
            assert(entry.0@ == p[a as int].0);
            assert(entry.1@.map_values(|x: (usize, u32)| (x.0 as int, x.1 as int)) =~= h);
            let mut hits = entry.1;
            let hl = hits.len();
            if hl > 0 && hits[hl - 1].0 == i {
                let c = hits[hl - 1].1;
                proof {
                    let ts = doc_terms(docs[i as int]);
                    lemma_find_term_at(p, t@, a as int);
                    lemma_find_hit_at(h, i as int, hl - 1);
                    assert(posting(p, t@, i as int) == counted(docs, t@, i as int, i as int, j));
                    lemma_bump(docs, p, i as int, j, a as int);
                }
                hits.set(hl - 1, (i, c + 1));
                assert(hits@.map_values(|x: (usize, u32)| (x.0 as int, x.1 as int)) =~= h.update(
                    hl - 1,
                    (i as int, h[hl - 1].1 + 1),
                ));
                postings.insert(a, (entry.0, hits));
                assert(postings_view(postings@) =~= p.update(
                    a as int,
                    (p[a as int].0, h.update(hl - 1, (i as int, h[hl - 1].1 + 1))),
                ));
                true
            } else {
                proof {
                    lemma_new_hit(docs, p, i as int, j, a as int);
                }
                hits.push((i, 1));
                assert(hits@.map_values(|x: (usize, u32)| (x.0 as int, x.1 as int)) =~= h.push(
                    (i as int, 1int),
                ));
                postings.insert(a, (entry.0, hits));
                assert(postings_view(postings@) =~= p.update(
                    a as int,
                    (p[a as int].0, h.push((i as int, 1int))),
                ));
                true
            }
        },
        None => {
            proof {
                lemma_new_term(docs, p, i as int, j);
            }
            let mut hits: Vec<(usize, u32)> = Vec::new();
            hits.push((i, 1));
            assert(hits@.map_values(|x: (usize, u32)| (x.0 as int, x.1 as int)) =~= seq![
                (i as int, 1int),
            ]);
            let term = sub_chars(t, 0, t.len());
            assert(term@ =~= t@);
            postings.push((term, hits));
            assert(postings_view(postings@) =~= p.push((t@, seq![(i as int, 1int)])));
            true
        },
    }
}

/// The text a document's terms are read from: its title, a space, its text.
fn doc_chars(d: &Doc) -> (r: Vec<char>)
    ensures
        r@ == d.title@ + seq![' '] + d.text@,
{
    let mut r = chars_of(d.title.as_str());
    r.push(' ');
    let tc = chars_of(d.text.as_str());
    let ghost base = r@;
    let mut k: usize = 0;
    while k < tc.len()
        invariant
            k <= tc@.len(),
            r@ == base + tc@.take(k as int),
        decreases tc.len() - k,
    {
        r.push(tc[k]);
        k = k + 1;
        assert(r@ =~= base + tc@.take(k as int));
    }
    assert(tc@.take(k as int) =~= tc@);
    r
}

/// The documents with their postings.
pub struct Index {
    docs: Vec<Doc>,
    postings: Vec<(Vec<char>, Vec<(usize, u32)>)>,
}

impl View for Index {
    type V = Seq<DocView>;

    closed spec fn view(&self) -> Seq<DocView> {
        doc_views(self.docs@)
    }
}

impl Index {
    #[verifier::type_invariant]
    closed spec fn holds_counts(self) -> bool {
        postings_ok(doc_views(self.docs@), postings_view(self.postings@), self.docs@.len() as int, 0)
    }

    /// The postings: each term, with the documents it occurs in (in
    /// ascending order) and how many times.
    pub closed spec fn postings(&self) -> Postings {
        postings_view(self.postings@)
    }

    /// Indexes `docs`: every term of every document, with its count.
    pub fn build(docs: Vec<Doc>) -> (r: Index)
        requires
            build_fits(doc_views(docs@)),
        ensures
            r@ == doc_views(docs@),
            postings_ok(r@, r.postings(), r@.len() as int, 0),
    {
        match Self::try_build(docs) {
            Some(r) => r,
            None => {
                proof {
                    let d = choose|d: int, t: Seq<char>| 0 <= d < doc_views(docs@).len() && #[trigger] occ(doc_terms(doc_views(docs@)[d]), t) > u32::MAX;
                }
                Index { docs: Vec::new(), postings: Vec::new() }
            },
        }
    }

    /// `build`, or `None` where some term occurs in some document more than
    /// `u32::MAX` times.
    pub fn try_build(docs: Vec<Doc>) -> (r: Option<Index>)
        ensures
            r is None <==> !build_fits(doc_views(docs@)),
            r matches Some(x) ==> x@ == doc_views(docs@) && postings_ok(
                x@,
                x.postings(),
                x@.len() as int,
                0,
            ),
    {
        let ghost dv = doc_views(docs@);
        let mut postings: Vec<(Vec<char>, Vec<(usize, u32)>)> = Vec::new();
        proof {
            let p = postings_view(postings@);
            assert(p =~= Seq::<(Seq<char>, Seq<(int, int)>)>::empty());
            assert forall|t: Seq<char>, d: int| #[trigger] posting(p, t, d) == counted(dv, t, d, 0, 0) by {
                if d == 0 && d < dv.len() {
                    assert(doc_terms(dv[d]).take(0) =~= Seq::<Seq<char>>::empty());
                }
            }
        }
        let mut i: usize = 0;
        while i < docs.len()
            invariant
                dv == doc_views(docs@),
                i <= dv.len(),
                postings_ok(dv, postings_view(postings@), i as int, 0),
            decreases docs.len() - i,
        {
            let combined = doc_chars(&docs[i]);
            let toks = tokenize(&combined);
            assert(toks@.map_values(|w: Vec<char>| w@) == doc_terms(dv[i as int]));
            let mut j: usize = 0;
            while j < toks.len()
                invariant
                    dv == doc_views(docs@),
                    i < dv.len(),
                    toks@.map_values(|w: Vec<char>| w@) == doc_terms(dv[i as int]),
                    j <= toks@.len(),
                    postings_ok(dv, postings_view(postings@), i as int, j as int),
                decreases toks.len() - j,
            {
                assert(toks@[j as int]@ == doc_terms(dv[i as int])[j as int]);
                if !add_occurrence(&mut postings, &toks[j], i, Ghost(dv), Ghost(j as int)) {
                    return None;
                }
                j = j + 1;
            }
            proof {
                lemma_next_doc(dv, postings_view(postings@), i as int);
            }
            i = i + 1;
        }
        proof {
            let pv = postings_view(postings@);
            assert forall|d: int, t: Seq<char>| 0 <= d < dv.len() implies #[trigger] occ(doc_terms(dv[d]), t) <= u32::MAX by {
                assert(posting(pv, t, d) == counted(dv, t, d, dv.len() as int, 0));
                lemma_find_term(pv, t, 0);
                match find_term(pv, t, 0) {
                    Some(a) => {
                        lemma_find_hit(pv[a].1, d, 0);
                        match find_hit(pv[a].1, d, 0) {
                            Some(x) => {
                                assert(pv[a].1[x].1 == postings@[a].1@[x].1);
                            },
                            None => {},
                        }
                    },
                    None => {},
                }
            }
        }
        let x = Index { docs, postings };
        Some(x)
    }

    /// The indexed documents.
    pub fn docs(&self) -> (r: &Vec<Doc>)
        ensures
            doc_views(r@) == self@,
    {
        &self.docs
    }
}


// ---------------------------------------------------------------------------
// Search
// ---------------------------------------------------------------------------

/// The bonus for a term found in the lowercased title.
pub open spec fn title_bonus(d: DocView, t: Seq<char>) -> int {
    if contains_seq(lowercase(d.title), t) {
        5
    } else {
        0
    }
}

/// What one query term adds to a document's score: its count, plus the title
/// bonus, where the document has it at all.
pub open spec fn term_score(d: DocView, t: Seq<char>) -> int {
    let c = occ(doc_terms(d), t);
    if c > 0 {
        c + title_bonus(d, t)
    } else {
        0
    }
}

/// A document's score for the query terms `qs` (a repeated term counts again).
pub open spec fn score(d: DocView, qs: Seq<Seq<char>>) -> int
    decreases qs.len(),
{
    if qs.len() == 0 {
        0
    } else {
        score(d, qs.drop_last()) + term_score(d, qs.last())
    }
}

/// Every document's score for `query` fits in a `u32`.
pub open spec fn search_fits(docs: Seq<DocView>, query: Seq<char>) -> bool {
    forall|d: int| 0 <= d < docs.len() ==> #[trigger] score(docs[d], terms(query)) <= u32::MAX
}

/// `r` is the search result: each document with a positive score once, with
/// that score, best first, and in index order among equal scores.
pub open spec fn ranked(r: Seq<(usize, u32)>, docs: Seq<DocView>, query: Seq<char>) -> bool {
    let qs = terms(query);
    &&& forall|k: int|
        0 <= k < r.len() ==> (#[trigger] r[k]).0 < docs.len() && r[k].1 == score(docs[r[k].0 as int], qs)
            && r[k].1 > 0
    &&& forall|d: int|
        0 <= d < docs.len() && #[trigger] score(docs[d], qs) > 0 ==> exists|k: int|
            0 <= k < r.len() && (#[trigger] r[k]).0 == d
    &&& forall|k: int, l: int|
        0 <= k < l < r.len() ==> (#[trigger] r[k]).1 > (#[trigger] r[l]).1 || (r[k].1 == r[l].1
            && r[k].0 < r[l].0)
}

proof fn lemma_score_prefix(d: DocView, qs: Seq<Seq<char>>, k: int)
    requires
        0 <= k <= qs.len(),
    ensures
        0 <= score(d, qs.take(k)) <= score(d, qs),
    decreases qs.len() - k,
{
    if k < qs.len() {
        assert(qs.drop_last().take(k) =~= qs.take(k));
        lemma_score_prefix(d, qs.drop_last(), k);
    } else {
        assert(qs.take(k) =~= qs);
        lemma_score_nonneg(d, qs);
    }
}

proof fn lemma_score_nonneg(d: DocView, qs: Seq<Seq<char>>)
    ensures
        score(d, qs) >= 0,
    decreases qs.len(),
{
    if qs.len() > 0 {
        lemma_score_nonneg(d, qs.drop_last());
    }
}

pub open spec fn term_views(v: Seq<Vec<char>>) -> Seq<Seq<char>> {
    v.map_values(|w: Vec<char>| w@)
}

/// What the hits before `x` have added for document `d`.
pub open spec fn partial(docs: Seq<DocView>, t: Seq<char>, h: Seq<(int, int)>, d: int, x: int) -> int {
    if (x >= h.len() || d < h[x].0) && occ(doc_terms(docs[d]), t) > 0 {
        term_score(docs[d], t)
    } else {
        0
    }
}

fn title_has(title: &String, t: &Vec<char>) -> (r: bool)
    ensures
        r == contains_seq(lowercase(title@), t@),
{
    let tc = chars_of(title.as_str());
    let lower = to_lowercase(&tc);
    contains_vec(&lower, t)
}

impl Index {
    /// The score of every document for the terms `qs`, or `None` where some
    /// score exceeds `u32::MAX`.
    fn scores(&self, qs: &Vec<Vec<char>>) -> (r: Option<Vec<u32>>)
        ensures
            r is None <==> exists|d: int|
                0 <= d < self@.len() && #[trigger] score(self@[d], term_views(qs@)) > u32::MAX,
            r matches Some(v) ==> v@.len() == self@.len() && forall|d: int|
                0 <= d < self@.len() ==> v@[d] == score(#[trigger] self@[d], term_views(qs@)),
    {
        proof {
            use_type_invariant(self);
        }
        let ghost docs = self@;
        let ghost qv = term_views(qs@);
        let ghost p = postings_view(self.postings@);
        let n = self.docs.len();
        let mut sc: Vec<u32> = Vec::new();
        while sc.len() < n
            invariant
                sc@.len() <= n,
                forall|d: int| 0 <= d < sc@.len() ==> sc@[d] == 0,
            decreases n - sc@.len(),
        {
            sc.push(0);
        }
        let mut k: usize = 0;
        assert forall|d: int| 0 <= d < n implies sc@[d] == score(#[trigger] docs[d], qv.take(0)) by {
            assert(qv.take(0) =~= Seq::<Seq<char>>::empty());
        }
        while k < qs.len()
            invariant
                docs == self@,
                qv == term_views(qs@),
                p == postings_view(self.postings@),
                postings_ok(docs, p, docs.len() as int, 0),
                n == docs.len(),
                sc@.len() == n,
                k <= qv.len(),
                forall|d: int| 0 <= d < n ==> sc@[d] == score(#[trigger] docs[d], qv.take(k as int)),
            decreases qs.len() - k,
        {
            let t = &qs[k];
            assert(qv[k as int] == t@);
            assert(qv.take(k + 1).drop_last() =~= qv.take(k as int));
            match find_entry(&self.postings, t) {
                Some(a) => {
                    proof {
                        lemma_find_term(p, t@, 0);
                    }
                    let hits = &self.postings[a].1;
                    let ghost h = p[a as int].1;
                    assert(h == hits@.map_values(|x: (usize, u32)| (x.0 as int, x.1 as int)));
                    proof {
                        assert forall|d: int| 0 <= d < n implies partial(docs, t@, h, d, 0) == 0 by {
                            assert(posting(p, t@, d) == counted(docs, t@, d, n as int, 0));
                            lemma_find_hit(h, d, 0);
                        }
                    }
                    let mut x: usize = 0;
                    while x < hits.len()
                        invariant
                            docs == self@,
                            p == postings_view(self.postings@),
                            postings_ok(docs, p, docs.len() as int, 0),
                            n == docs.len(),
                            sc@.len() == n,
                            0 <= a < p.len(),
                            p[a as int].0 == t@,
                            find_term(p, t@, 0) == Some(a as int),
                            hits == self.postings@[a as int].1,
                            qv == term_views(qs@),
                            k < qv.len(),
                            qv[k as int] == t@,
                            qv.take(k + 1).drop_last() == qv.take(k as int),
                            h == p[a as int].1,
                            h == hits@.map_values(|x: (usize, u32)| (x.0 as int, x.1 as int)),
                            x <= h.len(),
                            forall|d: int|
                                0 <= d < n ==> sc@[d] == score(#[trigger] docs[d], qv.take(k as int))
                                    + partial(docs, t@, h, d, x as int),
                        decreases hits.len() - x,
                    {
                        let (d, c) = hits[x];
                        assert(h[x as int] == (d as int, c as int));
                        assert(0 <= d < n && c > 0);
                        proof {
                            lemma_find_hit_at(h, d as int, x as int);
                            assert(posting(p, t@, d as int) == counted(docs, t@, d as int, n as int, 0));
                        }
                        let bonus: u32 = if title_has(&self.docs[d].title, t) {
                            5
                        } else {
                            0
                        };
                        let cur = sc[d];
                        let add = cur as u64 + c as u64 + bonus as u64;
                        if add > u32::MAX as u64 {
                            proof {
                                lemma_score_prefix(docs[d as int], qv, k + 1);
                                assert(qv.take(k + 1).last() == t@);
                                assert(score(docs[d as int], qv.take(k + 1)) == add);
                            }
                            return None;
                        }
                        sc.set(d, add as u32);
                        proof {
                            assert forall|e: int| 0 <= e < n implies sc@[e] == score(
                                #[trigger] docs[e],
                                qv.take(k as int),
                            ) + partial(docs, t@, h, e, x + 1) by {
                                if e != d {
                                    assert(posting(p, t@, e) == counted(docs, t@, e, n as int, 0));
                                    lemma_find_hit(h, e, 0);
                                    if e > d && occ(doc_terms(docs[e]), t@) > 0 {
                                        let y = find_hit(h, e, 0).unwrap();
                                        if y <= x {
                                            if y < x {
                                                assert(h[y].0 < h[x as int].0);
                                            }
                                        } else if y > x + 1 {
                                            assert(h[x + 1].0 < h[y].0);
                                        }
                                    }
                                }
                            }
                        }
                        x = x + 1;
                    }
                },
                None => {
                    proof {
                        assert forall|d: int| 0 <= d < n implies term_score(#[trigger] docs[d], t@) == 0 by {
                            assert(posting(p, t@, d) == counted(docs, t@, d, n as int, 0));
                        }
                    }
                },
            }
            k = k + 1;
        }
        assert(qv.take(k as int) =~= qv);
        Some(sc)
    }
}


proof fn lemma_score_has_term(d: DocView, qs: Seq<Seq<char>>, k: int)
    requires
        0 <= k < qs.len(),
    ensures
        score(d, qs) >= term_score(d, qs[k]),
    decreases qs.len(),
{
    lemma_score_nonneg(d, qs.drop_last());
    if k < qs.len() - 1 {
        lemma_score_has_term(d, qs.drop_last(), k);
    }
}

/// Search finds what the index holds: in a search result, every document in
/// which some term of the query occurs is listed.
pub proof fn lemma_search_finds(r: Seq<(usize, u32)>, docs: Seq<DocView>, query: Seq<char>, d: int, k: int)
    requires
        ranked(r, docs, query),
        0 <= d < docs.len(),
        0 <= k < terms(query).len(),
        occ(doc_terms(docs[d]), terms(query)[k]) > 0,
    ensures
        exists|x: int| 0 <= x < r.len() && (#[trigger] r[x]).0 == d,
{
    lemma_score_has_term(docs[d], terms(query), k);
    assert(score(docs[d], terms(query)) > 0);
}

/// Whether `(d, s)` goes before `(e, t)`: higher score first, then lower index.
pub open spec fn ranks_before(x: (usize, u32), y: (usize, u32)) -> bool {
    x.1 > y.1 || (x.1 == y.1 && x.0 < y.0)
}

/// `r` lists each `(d, v[d])` with `v[d] > 0` once, best first.
pub open spec fn ranked_by(r: Seq<(usize, u32)>, v: Seq<u32>) -> bool {
    &&& forall|k: int| 0 <= k < r.len() ==> (#[trigger] r[k]).0 < v.len() && r[k].1 == v[r[k].0 as int] && r[k].1 > 0
    &&& forall|d: int| 0 <= d < v.len() && #[trigger] v[d] > 0 ==> exists|k: int| 0 <= k < r.len() && (#[trigger] r[k]).0 == d
    &&& forall|k: int, l: int| 0 <= k < l < r.len() ==> ranks_before(#[trigger] r[k], #[trigger] r[l])
}

fn rank(v: &Vec<u32>) -> (r: Vec<(usize, u32)>)
    ensures
        ranked_by(r@, v@),
{
    let mut r: Vec<(usize, u32)> = Vec::new();
    let mut d: usize = 0;
    while d < v.len()
        invariant
            d <= v@.len(),
            forall|k: int| 0 <= k < r@.len() ==> (#[trigger] r@[k]).0 < d && r@[k].1 == v@[r@[k].0 as int] && r@[k].1 > 0,
            forall|e: int| 0 <= e < d && #[trigger] v@[e] > 0 ==> exists|k: int| 0 <= k < r@.len() && (#[trigger] r@[k]).0 == e,
            forall|k: int, l: int| 0 <= k < l < r@.len() ==> ranks_before(#[trigger] r@[k], #[trigger] r@[l]),
        decreases v.len() - d,
    {
        let s = v[d];
        if s > 0 {
            let mut p: usize = 0;
            while p < r.len() && r[p].1 >= s
                invariant
                    p <= r@.len(),
                    forall|k: int| 0 <= k < p ==> (#[trigger] r@[k]).1 >= s,
                decreases r.len() - p,
            {
                p = p + 1;
            }
            let ghost old_r = r@;
            r.insert(p, (d, s));
            proof {
                assert forall|k: int| 0 <= k < r@.len() implies #[trigger] r@[k] == if k < p {
                    old_r[k]
                } else if k == p {
                    (d, s)
                } else {
                    old_r[k - 1]
                } by {}
                assert forall|k: int, l: int| 0 <= k < l < r@.len() implies ranks_before(#[trigger] r@[k], #[trigger] r@[l]) by {
                    if l < p {
                        assert(ranks_before(old_r[k], old_r[l]));
                    } else if l == p {
                        assert(old_r[k].1 >= s && old_r[k].0 < d);
                    } else if k < p {
                        assert(ranks_before(old_r[k], old_r[l - 1]));
                    } else if k == p {
                        assert(old_r[p as int].1 < s);
                        if l - 1 > p {
                            assert(ranks_before(old_r[p as int], old_r[l - 1]));
                        }
                    } else {
                        assert(ranks_before(old_r[k - 1], old_r[l - 1]));
                    }
                }
                assert forall|e: int| 0 <= e < d + 1 && #[trigger] v@[e] > 0 implies exists|k: int| 0 <= k < r@.len() && (#[trigger] r@[k]).0 == e by {
                    if e == d {
                        assert(r@[p as int].0 == e);
                    } else {
                        let k = choose|k: int| 0 <= k < old_r.len() && (#[trigger] old_r[k]).0 == e;
                        if k < p {
                            assert(r@[k].0 == e);
                        } else {
                            assert(r@[k + 1].0 == e);
                        }
                    }
                }
            }
        } else {
            assert forall|e: int| 0 <= e < d + 1 && #[trigger] v@[e] > 0 implies exists|k: int| 0 <= k < r@.len() && (#[trigger] r@[k]).0 == e by {
                assert(e != d);
            }
        }
        d = d + 1;
    }
    r
}

impl Index {
    /// `(document index, score)` for every document that the query finds,
    /// best first; among equal scores, in index order.
    pub fn search(&self, query: &str) -> (r: Vec<(usize, u32)>)
        requires
            search_fits(self@, query@),
        ensures
            ranked(r@, self@, query@),
    {
        match self.try_search(query) {
            Some(r) => r,
            None => {
                proof {
                    let d = choose|d: int| 0 <= d < self@.len() && #[trigger] score(self@[d], terms(query@)) > u32::MAX;
                }
                Vec::new()
            },
        }
    }

    /// `search`, or `None` where some document's score for the query would
    /// exceed `u32::MAX`.
    pub fn try_search(&self, query: &str) -> (r: Option<Vec<(usize, u32)>>)
        ensures
            r is None <==> !search_fits(self@, query@),
            r matches Some(v) ==> ranked(v@, self@, query@),
    {
        let qc = chars_of(query);
        let qs = tokenize(&qc);
        assert(term_views(qs@) == terms(query@));
        match self.scores(&qs) {
            Some(v) => {
                let r = rank(&v);
                assert forall|k: int| 0 <= k < r@.len() implies (#[trigger] r@[k]).0 < self@.len() && r@[k].1 == score(self@[r@[k].0 as int], terms(query@)) && r@[k].1 > 0 by {
                    assert(r@[k].1 == v@[r@[k].0 as int]);
                }
                assert forall|d: int| 0 <= d < self@.len() && #[trigger] score(self@[d], terms(query@)) > 0 implies exists|k: int| 0 <= k < r@.len() && (#[trigger] r@[k]).0 == d by {
                    assert(v@[d] > 0);
                }
                Some(r)
            },
            None => None,
        }
    }
}


// ---------------------------------------------------------------------------
// Title and text of a page
// ---------------------------------------------------------------------------

/// Where the reading of a page stands.
pub struct ExtractState {
    pub in_tag: bool,
    pub tag: Seq<char>,
    pub closing: bool,
    pub in_title: bool,
    pub in_raw: bool,
    pub title: Seq<char>,
    pub text: Seq<char>,
}

pub open spec fn extract_start() -> ExtractState {
    ExtractState {
        in_tag: false,
        tag: Seq::empty(),
        closing: false,
        in_title: false,
        in_raw: false,
        title: Seq::empty(),
        text: Seq::empty(),
    }
}

/// The index of the first character at or after `i` that is not `/`.
pub open spec fn slashes_end(s: Seq<char>, i: int) -> int
    decreases s.len() - i,
{
    if 0 <= i < s.len() && s[i] == '/' {
        slashes_end(s, i + 1)
    } else {
        i
    }
}

/// The name of a tag from the text between `<` and `>`: leading slashes
/// dropped, the first word, lowercased.
pub open spec fn tag_name_of(tag: Seq<char>) -> Seq<char> {
    let ws = words(tag.skip(slashes_end(tag, 0)));
    lowercase(
        if ws.len() > 0 {
            ws[0]
        } else {
            Seq::empty()
        },
    )
}

/// Reading character `i` of `cs`: `<` opens a tag (a closing one where `/`
/// follows); `>` ends an open tag, and `title`, `style` or `script` switch
/// their region on (or off, when closing); inside a tag characters make up
/// its text; inside style or script they are dropped; otherwise they go to
/// the title or the text.
pub open spec fn extract_step(st: ExtractState, cs: Seq<char>, i: int) -> ExtractState {
    let c = cs[i];
    if c == '<' {
        ExtractState {
            in_tag: true,
            tag: Seq::empty(),
            closing: i + 1 < cs.len() && cs[i + 1] == '/',
            ..st
        }
    } else if c == '>' && st.in_tag {
        let name = tag_name_of(st.tag);
        if name == "title"@ {
            ExtractState { in_tag: false, in_title: !st.closing, ..st }
        } else if name == "style"@ || name == "script"@ {
            ExtractState { in_tag: false, in_raw: !st.closing, ..st }
        } else {
            ExtractState { in_tag: false, ..st }
        }
    } else if st.in_tag {
        ExtractState { tag: st.tag.push(c), ..st }
    } else if st.in_raw {
        st
    } else if st.in_title {
        ExtractState { title: st.title.push(c), ..st }
    } else {
        ExtractState { text: st.text.push(c), ..st }
    }
}

/// The state after reading the first `n` characters.
pub open spec fn extract_run(cs: Seq<char>, n: int) -> ExtractState
    decreases n,
{
    if n <= 0 {
        extract_start()
    } else {
        extract_step(extract_run(cs, n - 1), cs, n - 1)
    }
}

/// Words joined by single spaces.
pub open spec fn join_words(ws: Seq<Seq<char>>) -> Seq<char>
    decreases ws.len(),
{
    if ws.len() == 0 {
        Seq::empty()
    } else if ws.len() == 1 {
        ws[0]
    } else {
        join_words(ws.drop_last()) + seq![' '] + ws.last()
    }
}

/// `&amp;`, `&lt;`, `&gt;` and `&nbsp;` replaced in turn, then whitespace
/// collapsed to single spaces and trimmed.
pub open spec fn clean(s: Seq<char>) -> Seq<char> {
    let a = replace_all(s, "&amp;"@, "&"@);
    let b = replace_all(a, "&lt;"@, "<"@);
    let c = replace_all(b, "&gt;"@, ">"@);
    let d = replace_all(c, "&nbsp;"@, " "@);
    join_words(words(d))
}

/// The title and text of a page.
pub open spec fn title_and_text(html: Seq<char>) -> (Seq<char>, Seq<char>) {
    let st = extract_run(html, html.len() as int);
    (clean(st.title), clean(st.text))
}

fn tag_name_exec(tag: &Vec<char>) -> (r: Vec<char>)
    ensures
        r@ == tag_name_of(tag@),
{
    let mut k: usize = 0;
    while k < tag.len() && tag[k] == '/'
        invariant
            k <= tag@.len(),
            slashes_end(tag@, 0) == slashes_end(tag@, k as int),
        decreases tag.len() - k,
    {
        k = k + 1;
    }
    let rest = sub_chars(tag, k, tag.len());
    assert(rest@ =~= tag@.skip(k as int));
    let ws = words_vec(&rest);
    if ws.len() > 0 {
        assert(ws@[0]@ == words(rest@)[0]);
        to_lowercase(&ws[0])
    } else {
        let e: Vec<char> = Vec::new();
        assert(e@ =~= Seq::<char>::empty());
        to_lowercase(&e)
    }
}

fn join_exec(ws: &Vec<Vec<char>>) -> (r: Vec<char>)
    ensures
        r@ == join_words(ws@.map_values(|w: Vec<char>| w@)),
{
    let ghost wv = ws@.map_values(|w: Vec<char>| w@);
    let mut r: Vec<char> = Vec::new();
    let mut i: usize = 0;
    assert(wv.take(0) =~= Seq::<Seq<char>>::empty());
    while i < ws.len()
        invariant
            wv == ws@.map_values(|w: Vec<char>| w@),
            i <= wv.len(),
            r@ == join_words(wv.take(i as int)),
        decreases ws.len() - i,
    {
        let ghost before = r@;
        if i > 0 {
            r.push(' ');
        }
        let w = &ws[i];
        let mut k: usize = 0;
        let ghost mid = r@;
        while k < w.len()
            invariant
                k <= w@.len(),
                r@ == mid + w@.take(k as int),
            decreases w.len() - k,
        {
            r.push(w[k]);
            k = k + 1;
            assert(r@ =~= mid + w@.take(k as int));
        }
        assert(w@.take(k as int) =~= w@);
        assert(wv.take(i + 1).drop_last() =~= wv.take(i as int));
        assert(wv[i as int] == w@);
        if i == 0 {
            assert(wv.take(1) =~= seq![w@]);
            assert(r@ =~= w@);
        } else {
            assert(r@ =~= before + seq![' '] + w@);
        }
        i = i + 1;
    }
    assert(wv.take(i as int) =~= wv);
    r
}

fn clean_exec(s: &Vec<char>) -> (r: String)
    ensures
        r@ == clean(s@),
{
    let amp = chars_of("&amp;");
    let amp_r = chars_of("&");
    let lt = chars_of("&lt;");
    let lt_r = chars_of("<");
    let gt = chars_of("&gt;");
    let gt_r = chars_of(">");
    let nbsp = chars_of("&nbsp;");
    let nbsp_r = chars_of(" ");
    proof {
        reveal_strlit("&amp;");
        reveal_strlit("&lt;");
        reveal_strlit("&gt;");
        reveal_strlit("&nbsp;");
    }
    let a = replace_vec(s, &amp, &amp_r);
    let b = replace_vec(&a, &lt, &lt_r);
    let c = replace_vec(&b, &gt, &gt_r);
    let d = replace_vec(&c, &nbsp, &nbsp_r);
    let ws = words_vec(&d);
    string_of(&join_exec(&ws))
}

/// The title and the plain text of a page: tags dropped, and style and
/// script contents; a few entities decoded; whitespace collapsed.
pub fn extract_title_and_text(html: &str) -> (r: (String, String))
    ensures
        (r.0@, r.1@) == title_and_text(html@),
{
    let cs = chars_of(html);
    let n = cs.len();
    let mut in_tag = false;
    let mut tag: Vec<char> = Vec::new();
    let mut closing = false;
    let mut in_title = false;
    let mut in_raw = false;
    let mut title: Vec<char> = Vec::new();
    let mut text: Vec<char> = Vec::new();
    let mut i: usize = 0;
    assert(tag@ =~= Seq::<char>::empty());
    assert(title@ =~= Seq::<char>::empty());
    assert(text@ =~= Seq::<char>::empty());
    while i < n
        invariant
            n == cs@.len(),
            cs@ == html@,
            i <= n,
            extract_run(cs@, i as int) == (ExtractState {
                in_tag,
                tag: tag@,
                closing,
                in_title,
                in_raw,
                title: title@,
                text: text@,
            }),
        decreases n - i,
    {
        let c = cs[i];
        if c == '<' {
            in_tag = true;
            tag = Vec::new();
            closing = i + 1 < n && cs[i + 1] == '/';
            assert(tag@ =~= Seq::<char>::empty());
        } else if c == '>' && in_tag {
            in_tag = false;
            let name = tag_name_exec(&tag);
            let t_title = chars_of("title");
            let t_style = chars_of("style");
            let t_script = chars_of("script");
            if chars_eq(&name, &t_title) {
                in_title = !closing;
            } else if chars_eq(&name, &t_style) || chars_eq(&name, &t_script) {
                in_raw = !closing;
            }
        } else if in_tag {
            tag.push(c);
        } else if in_raw {
        } else if in_title {
            title.push(c);
        } else {
            text.push(c);
        }
        i = i + 1;
    }
    (clean_exec(&title), clean_exec(&text))
}


proof fn lemma_strictly_sorted_same(r1: Seq<(usize, u32)>, r2: Seq<(usize, u32)>)
    requires
        forall|k: int, l: int| 0 <= k < l < r1.len() ==> ranks_before(#[trigger] r1[k], #[trigger] r1[l]),
        forall|k: int, l: int| 0 <= k < l < r2.len() ==> ranks_before(#[trigger] r2[k], #[trigger] r2[l]),
        forall|x: (usize, u32)| #[trigger] r1.contains(x) <==> r2.contains(x),
    ensures
        r1 == r2,
    decreases r1.len(),
{
    if r1.len() == 0 {
        if r2.len() > 0 {
            assert(r2.contains(r2[0]));
            assert(r1.contains(r2[0]));
        }
        assert(r1 =~= r2);
    } else {
        assert(r1.contains(r1[0]));
        assert(r2.contains(r1[0]));
        let j = choose|j: int| 0 <= j < r2.len() && r2[j] == r1[0];
        assert(r2.contains(r2[0]));
        assert(r1.contains(r2[0]));
        let i = choose|i: int| 0 <= i < r1.len() && r1[i] == r2[0];
        if i > 0 {
            assert(ranks_before(r1[0], r1[i]));
            if j > 0 {
                assert(ranks_before(r2[0], r2[j]));
            }
        }
        if j > 0 {
            assert(ranks_before(r2[0], r2[j]));
        }
        assert(r1[0] == r2[0]);
        let t1 = r1.drop_first();
        let t2 = r2.drop_first();
        assert forall|x: (usize, u32)| #[trigger] t1.contains(x) <==> t2.contains(x) by {
            if t1.contains(x) {
                let a = choose|a: int| 0 <= a < t1.len() && t1[a] == x;
                assert(r1[a + 1] == x);
                assert(ranks_before(r1[0], r1[a + 1]));
                assert(r1.contains(x));
                assert(r2.contains(x));
                let b = choose|b: int| 0 <= b < r2.len() && r2[b] == x;
                if b == 0 {
                    assert(false);
                }
                assert(t2[b - 1] == x);
            }
            if t2.contains(x) {
                let a = choose|a: int| 0 <= a < t2.len() && t2[a] == x;
                assert(r2[a + 1] == x);
                assert(ranks_before(r2[0], r2[a + 1]));
                assert(r2.contains(x));
                assert(r1.contains(x));
                let b = choose|b: int| 0 <= b < r1.len() && r1[b] == x;
                if b == 0 {
                    assert(false);
                }
                assert(t1[b - 1] == x);
            }
        }
        lemma_strictly_sorted_same(t1, t2);
        assert(r1 =~= seq![r1[0]] + t1);
        assert(r2 =~= seq![r2[0]] + t2);
    }
}

/// The search result is determined by the documents and the query: any two
/// lists that meet `ranked` for them are the same list.
pub proof fn lemma_ranked_unique(
    r1: Seq<(usize, u32)>,
    r2: Seq<(usize, u32)>,
    docs: Seq<DocView>,
    query: Seq<char>,
)
    requires
        ranked(r1, docs, query),
        ranked(r2, docs, query),
    ensures
        r1 == r2,
{
    let qs = terms(query);
    assert forall|x: (usize, u32)| #[trigger] r1.contains(x) <==> r2.contains(x) by {
        if r1.contains(x) {
            let a = choose|a: int| 0 <= a < r1.len() && r1[a] == x;
            assert(score(docs[x.0 as int], qs) > 0);
            let b = choose|b: int| 0 <= b < r2.len() && (#[trigger] r2[b]).0 == x.0;
            assert(r2[b] == x);
        }
        if r2.contains(x) {
            let a = choose|a: int| 0 <= a < r2.len() && r2[a] == x;
            assert(score(docs[x.0 as int], qs) > 0);
            let b = choose|b: int| 0 <= b < r1.len() && (#[trigger] r1[b]).0 == x.0;
            assert(r1[b] == x);
        }
    }
    lemma_strictly_sorted_same(r1, r2);
}


/// The title bonus: for a one-term query, of two documents that hold the term
/// equally often, the one whose title has it scores 5 more, and so comes
/// first in the result.
pub proof fn lemma_title_bonus(
    r: Seq<(usize, u32)>,
    docs: Seq<DocView>,
    query: Seq<char>,
    a: int,
    b: int,
    ka: int,
    kb: int,
)
    requires
        ranked(r, docs, query),
        terms(query).len() == 1,
        0 <= a < docs.len(),
        0 <= b < docs.len(),
        occ(doc_terms(docs[a]), terms(query)[0]) == occ(doc_terms(docs[b]), terms(query)[0]),
        occ(doc_terms(docs[a]), terms(query)[0]) > 0,
        contains_seq(lowercase(docs[a].title), terms(query)[0]),
        !contains_seq(lowercase(docs[b].title), terms(query)[0]),
        0 <= ka < r.len(),
        0 <= kb < r.len(),
        r[ka].0 == a,
        r[kb].0 == b,
    ensures
        score(docs[a], terms(query)) == score(docs[b], terms(query)) + 5,
        ka < kb,
{
    let qs = terms(query);
    assert(qs.drop_last().len() == 0);
    assert(score(docs[a], qs.drop_last()) == 0);
    assert(score(docs[b], qs.drop_last()) == 0);
    assert(qs.last() == qs[0]);
    assert(score(docs[a], qs) == term_score(docs[a], qs[0]));
    assert(score(docs[b], qs) == term_score(docs[b], qs[0]));
    if kb < ka {
        assert(ranks_before(r[kb], r[ka]));
    }
}

} // verus!

verus! {

proof fn lemma_replace_absent(s: Seq<char>, pat: Seq<char>, rep: Seq<char>)
    requires
        forall|i: int| !#[trigger] crate::text::occurs_at(s, pat, i),
    ensures
        replace_all(s, pat, rep) == s,
    decreases s.len(),
{
    if pat.len() == 0 || s.len() < pat.len() {
    } else {
        assert(!crate::text::occurs_at(s, pat, 0));
        assert(s.take(pat.len() as int) =~= s.subrange(0, pat.len() as int));
        let rest = s.drop_first();
        assert forall|i: int| !#[trigger] crate::text::occurs_at(rest, pat, i) by {
            if crate::text::occurs_at(rest, pat, i) {
                assert(s.subrange(i + 1, i + 1 + pat.len()) =~= rest.subrange(i, i + pat.len()));
                assert(crate::text::occurs_at(s, pat, i + 1));
            }
        }
        lemma_replace_absent(rest, pat, rep);
        assert(seq![s[0]] + rest =~= s);
    }
}

/// Text that lacks `&` holds no occurrence of a pattern that starts with `&`.
proof fn lemma_no_amp_pattern(s: Seq<char>, pat: Seq<char>)
    requires
        crate::text::lacks(s, '&'),
        pat.len() > 0,
        pat[0] == '&',
    ensures
        forall|i: int| !#[trigger] crate::text::occurs_at(s, pat, i),
{
    assert forall|i: int| !#[trigger] crate::text::occurs_at(s, pat, i) by {
        if crate::text::occurs_at(s, pat, i) {
            assert(s.subrange(i, i + pat.len())[0] == s[i]);
        }
    }
}

/// Whether every `&` of `s` starts the entity `e`.
pub open spec fn only_entity(s: Seq<char>, e: Seq<char>) -> bool {
    forall|i: int| 0 <= i < s.len() && s[i] == '&' ==> #[trigger] crate::text::occurs_at(s, e, i)
}

proof fn lemma_only_entity_shift(s: Seq<char>, e: Seq<char>, k: int)
    requires
        only_entity(s, e),
        0 <= k <= s.len(),
    ensures
        only_entity(s.skip(k), e),
{
    let t = s.skip(k);
    assert forall|i: int| 0 <= i < t.len() && t[i] == '&' implies #[trigger] crate::text::occurs_at(
        t,
        e,
        i,
    ) by {
        assert(s[i + k] == '&');
        assert(crate::text::occurs_at(s, e, i + k));
        assert(t.subrange(i, i + e.len()) =~= s.subrange(i + k, i + k + e.len()));
    }
}

/// Where every `&` starts `e`, a pattern `&…` whose second character differs
/// from that of `e` occurs nowhere.
proof fn lemma_other_entity_absent(s: Seq<char>, e: Seq<char>, pat: Seq<char>)
    requires
        only_entity(s, e),
        e.len() >= 2,
        pat.len() >= 2,
        pat[0] == '&',
        pat[1] != e[1],
    ensures
        forall|i: int| !#[trigger] crate::text::occurs_at(s, pat, i),
{
    assert forall|i: int| !#[trigger] crate::text::occurs_at(s, pat, i) by {
        if crate::text::occurs_at(s, pat, i) {
            assert(s.subrange(i, i + pat.len())[0] == s[i]);
            assert(s.subrange(i, i + pat.len())[1] == s[i + 1]);
            assert(crate::text::occurs_at(s, e, i));
            assert(s.subrange(i, i + e.len())[1] == s[i + 1]);
        }
    }
}

proof fn lemma_entity_replaced_lacks_amp(s: Seq<char>, e: Seq<char>, rep: Seq<char>)
    requires
        only_entity(s, e),
        e.len() > 0,
        e[0] == '&',
        crate::text::lacks(rep, '&'),
    ensures
        crate::text::lacks(replace_all(s, e, rep), '&'),
    decreases s.len(),
{
    let n = e.len() as int;
    let r = replace_all(s, e, rep);
    if s.len() < n {
        assert forall|i: int| 0 <= i < r.len() implies r[i] != '&' by {
            if s[i] == '&' {
                assert(crate::text::occurs_at(s, e, i));
            }
        }
    } else if s.take(n) == e {
        let rest = s.skip(n);
        lemma_only_entity_shift(s, e, n);
        lemma_entity_replaced_lacks_amp(rest, e, rep);
        let t = replace_all(rest, e, rep);
        assert forall|i: int| 0 <= i < r.len() implies r[i] != '&' by {
            if i >= rep.len() {
                assert(r[i] == t[i - rep.len()]);
            } else {
                assert(r[i] == rep[i]);
            }
        }
    } else {
        let rest = s.drop_first();
        assert(s[0] != '&') by {
            if s[0] == '&' {
                assert(crate::text::occurs_at(s, e, 0));
                assert(s.take(n) =~= s.subrange(0, n));
            }
        }
        lemma_only_entity_shift(s, e, 1);
        assert(s.skip(1) =~= rest);
        lemma_entity_replaced_lacks_amp(rest, e, rep);
        let t = replace_all(rest, e, rep);
        assert forall|i: int| 0 <= i < r.len() implies r[i] != '&' by {
            if i > 0 {
                assert(r[i] == t[i - 1]);
            }
        }
    }
}

/// In text whose only `&` characters start the `&lt;` entity, cleaning
/// decodes each `&lt;` to `<` and then collapses the whitespace: the other
/// entities do not occur, and a decoded `<` never forms one.
pub proof fn lemma_clean_decodes_lt(s: Seq<char>)
    requires
        only_entity(s, "&lt;"@),
    ensures
        clean(s) == join_words(words(replace_all(s, "&lt;"@, "<"@))),
{
    reveal_strlit("&lt;");
    reveal_strlit("&amp;");
    reveal_strlit("&gt;");
    reveal_strlit("&nbsp;");
    reveal_strlit("<");
    lemma_other_entity_absent(s, "&lt;"@, "&amp;"@);
    lemma_replace_absent(s, "&amp;"@, "&"@);
    let b = replace_all(s, "&lt;"@, "<"@);
    lemma_entity_replaced_lacks_amp(s, "&lt;"@, "<"@);
    lemma_no_amp_pattern(b, "&gt;"@);
    lemma_replace_absent(b, "&gt;"@, ">"@);
    lemma_no_amp_pattern(b, "&nbsp;"@);
    lemma_replace_absent(b, "&nbsp;"@, " "@);
}

/// In text whose only `&` characters start the `&gt;` entity, cleaning
/// decodes each `&gt;` to `>` and then collapses the whitespace.
pub proof fn lemma_clean_decodes_gt(s: Seq<char>)
    requires
        only_entity(s, "&gt;"@),
    ensures
        clean(s) == join_words(words(replace_all(s, "&gt;"@, ">"@))),
{
    reveal_strlit("&lt;");
    reveal_strlit("&amp;");
    reveal_strlit("&gt;");
    reveal_strlit("&nbsp;");
    reveal_strlit(">");
    lemma_other_entity_absent(s, "&gt;"@, "&amp;"@);
    lemma_replace_absent(s, "&amp;"@, "&"@);
    lemma_other_entity_absent(s, "&gt;"@, "&lt;"@);
    lemma_replace_absent(s, "&lt;"@, "<"@);
    let c = replace_all(s, "&gt;"@, ">"@);
    lemma_entity_replaced_lacks_amp(s, "&gt;"@, ">"@);
    lemma_no_amp_pattern(c, "&nbsp;"@);
    lemma_replace_absent(c, "&nbsp;"@, " "@);
}

/// In text whose only `&` characters start the `&nbsp;` entity, cleaning
/// turns each `&nbsp;` into a space and then collapses the whitespace.
pub proof fn lemma_clean_decodes_nbsp(s: Seq<char>)
    requires
        only_entity(s, "&nbsp;"@),
    ensures
        clean(s) == join_words(words(replace_all(s, "&nbsp;"@, " "@))),
{
    reveal_strlit("&lt;");
    reveal_strlit("&amp;");
    reveal_strlit("&gt;");
    reveal_strlit("&nbsp;");
    lemma_other_entity_absent(s, "&nbsp;"@, "&amp;"@);
    lemma_replace_absent(s, "&amp;"@, "&"@);
    lemma_other_entity_absent(s, "&nbsp;"@, "&lt;"@);
    lemma_replace_absent(s, "&lt;"@, "<"@);
    lemma_other_entity_absent(s, "&nbsp;"@, "&gt;"@);
    lemma_replace_absent(s, "&gt;"@, ">"@);
}

/// Text without `&` is cleaned by collapsing its whitespace alone.
pub proof fn lemma_clean_plain(s: Seq<char>)
    requires
        crate::text::lacks(s, '&'),
    ensures
        clean(s) == join_words(words(s)),
{
    reveal_strlit("&lt;");
    reveal_strlit("&amp;");
    reveal_strlit("&gt;");
    reveal_strlit("&nbsp;");
    lemma_no_amp_pattern(s, "&amp;"@);
    lemma_replace_absent(s, "&amp;"@, "&"@);
    lemma_no_amp_pattern(s, "&lt;"@);
    lemma_replace_absent(s, "&lt;"@, "<"@);
    lemma_no_amp_pattern(s, "&gt;"@);
    lemma_replace_absent(s, "&gt;"@, ">"@);
    lemma_no_amp_pattern(s, "&nbsp;"@);
    lemma_replace_absent(s, "&nbsp;"@, " "@);
}

} // verus!
