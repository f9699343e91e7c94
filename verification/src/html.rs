//! A small HTML parser for well-formed-ish documents: nested tags,
//! attributes, text, comments, doctype-like `<!...>` declarations,
//! self-closing and void elements, and raw `<script>`/`<style>` contents.
//!
//! The parser never fails. The spec functions below say, position by
//! position, what each step reads.
use vstd::prelude::*;
use crate::text::{
    chars_of, is_alnum, is_alphanumeric, is_whitespace, is_ws, lowercase, occurs_at,
    occurs_at_exec, replace_all, replace_vec, string_of, sub_chars, to_lowercase, words,
    words_vec,
};
use crate::css::{lemma_stop_at, lemma_ws_end, stop_at, ws_end};

verus! {

/// Attributes as text, in the order their names first appeared.
pub type Attrs = Seq<(Seq<char>, Seq<char>)>;

/// The first index at or after `i` whose name is `k`.
pub open spec fn assoc_find(e: Attrs, k: Seq<char>, i: int) -> Option<int>
    decreases e.len() - i,
{
    if i < 0 || i >= e.len() {
        None
    } else if e[i].0 == k {
        Some(i)
    } else {
        assoc_find(e, k, i + 1)
    }
}

/// The value stored under `k`.
pub open spec fn assoc_get(e: Attrs, k: Seq<char>) -> Option<Seq<char>> {
    match assoc_find(e, k, 0) {
        Some(i) => Some(e[i].1),
        None => None,
    }
}

/// `e` with `k` mapped to `v`: the value replaced where `k` is present, the
/// pair appended where it is not.
pub open spec fn assoc_insert(e: Attrs, k: Seq<char>, v: Seq<char>) -> Attrs {
    match assoc_find(e, k, 0) {
        Some(i) => e.update(i, (k, v)),
        None => e.push((k, v)),
    }
}

/// No name occurs twice.
pub open spec fn assoc_distinct(e: Attrs) -> bool {
    forall|i: int, j: int| 0 <= i < j < e.len() ==> #[trigger] e[i].0 != #[trigger] e[j].0
}

pub(crate) proof fn lemma_assoc_find(e: Attrs, k: Seq<char>, i: int)
    requires
        0 <= i,
    ensures
        assoc_find(e, k, i) matches Some(x) ==> i <= x < e.len() && e[x].0 == k && forall|j: int|
            i <= j < x ==> #[trigger] e[j].0 != k,
        assoc_find(e, k, i) is None ==> forall|j: int| i <= j < e.len() ==> #[trigger] e[j].0 != k,
    decreases e.len() - i,
{
    if i < e.len() && e[i].0 != k {
        lemma_assoc_find(e, k, i + 1);
    }
}

/// Inserting keeps names distinct.
pub(crate) proof fn lemma_assoc_insert_distinct(e: Attrs, k: Seq<char>, v: Seq<char>)
    requires
        assoc_distinct(e),
    ensures
        assoc_distinct(assoc_insert(e, k, v)),
{
    lemma_assoc_find(e, k, 0);
    let r = assoc_insert(e, k, v);
    assert forall|i: int, j: int| 0 <= i < j < r.len() implies #[trigger] r[i].0 != #[trigger] r[j].0 by {
        match assoc_find(e, k, 0) {
            Some(x) => {
                if i != x && j != x {
                    assert(r[i] == e[i] && r[j] == e[j]);
                } else if i == x {
                    assert(r[j] == e[j]);
                } else {
                    assert(r[i] == e[i]);
                }
            },
            None => {
                if j < e.len() {
                    assert(r[i] == e[i] && r[j] == e[j]);
                } else {
                    assert(r[i] == e[i]);
                }
            },
        }
    }
}

/// After inserting `k`, looking up `k` gives the value inserted, and looking up
/// any other name gives what it gave before.
pub proof fn lemma_assoc_insert_get(e: Attrs, k: Seq<char>, v: Seq<char>, k2: Seq<char>)
    ensures
        assoc_get(assoc_insert(e, k, v), k2) == if k2 == k {
            Some(v)
        } else {
            assoc_get(e, k2)
        },
{
    lemma_assoc_find(e, k, 0);
    lemma_assoc_find(e, k2, 0);
    let r = assoc_insert(e, k, v);
    lemma_assoc_find(r, k2, 0);
    match assoc_find(e, k, 0) {
        Some(x) => {
            assert(r.len() == e.len());
            assert(r[x] == (k, v));
            assert forall|j: int| 0 <= j < r.len() && j != x implies #[trigger] r[j] == e[j] by {}
            if k2 == k {
                match assoc_find(r, k2, 0) {
                    Some(y) => {
                        if y < x {
                            assert(r[y] == e[y]);
                        } else if y > x {
                            assert(r[x].0 == k2);
                        }
                    },
                    None => {
                        assert(r[x].0 == k2);
                    },
                }
            } else {
                match assoc_find(r, k2, 0) {
                    Some(y) => {
                        assert(y != x);
                        assert(r[y] == e[y]);
                        match assoc_find(e, k2, 0) {
                            Some(z) => {
                                if z < y {
                                    assert(z != x);
                                    assert(r[z] == e[z]);
                                } else if z > y {
                                    assert(e[y].0 == k2);
                                }
                            },
                            None => {
                                assert(e[y].0 == k2);
                            },
                        }
                    },
                    None => {
                        match assoc_find(e, k2, 0) {
                            Some(z) => {
                                assert(z != x);
                                assert(r[z] == e[z]);
                            },
                            None => {},
                        }
                    },
                }
            }
        },
        None => {
            assert(r == e.push((k, v)));
            assert(r.len() == e.len() + 1);
            assert forall|j: int| 0 <= j < e.len() implies #[trigger] r[j] == e[j] by {}
            if k2 == k {
                match assoc_find(r, k2, 0) {
                    Some(y) => {
                        if y < e.len() {
                            assert(r[y] == e[y]);
                        }
                    },
                    None => {
                        assert(r[e.len() as int].0 == k2);
                    },
                }
            } else {
                match assoc_find(r, k2, 0) {
                    Some(y) => {
                        assert(y < e.len()) by {
                            if y == e.len() {
                                assert(r[y].0 == k);
                            }
                        }
                        assert(r[y] == e[y]);
                        match assoc_find(e, k2, 0) {
                            Some(z) => {
                                if z < y {
                                    assert(r[z] == e[z]);
                                } else if z > y {
                                    assert(e[y].0 == k2);
                                }
                            },
                            None => {
                                assert(e[y].0 == k2);
                            },
                        }
                    },
                    None => {
                        match assoc_find(e, k2, 0) {
                            Some(z) => {
                                assert(r[z] == e[z]);
                            },
                            None => {},
                        }
                    },
                }
            }
        },
    }
}

/// Element attributes: each name once, in the order names first appeared;
/// inserting a present name replaces its value.
#[derive(Debug)]
pub struct AttrMap {
    entries: Vec<(String, String)>,
}

impl View for AttrMap {
    type V = Attrs;

    closed spec fn view(&self) -> Attrs {
        entries_view(self.entries@)
    }
}

/// The view of stored entries.
pub open spec fn entries_view(v: Seq<(String, String)>) -> Attrs {
    Seq::new(v.len(), |i: int| (v[i].0@, v[i].1@))
}

impl AttrMap {
    #[verifier::type_invariant]
    closed spec fn names_distinct(self) -> bool {
        assoc_distinct(entries_view(self.entries@))
    }

    /// An empty map.
    pub fn new() -> (r: AttrMap)
        ensures
            r@ == Seq::<(Seq<char>, Seq<char>)>::empty(),
            assoc_distinct(r@),
    {
        assert(entries_view(Seq::<(String, String)>::empty()) =~= Seq::<(Seq<char>, Seq<char>)>::empty());
        let r = AttrMap { entries: Vec::new() };
        assert(r@ =~= Seq::<(Seq<char>, Seq<char>)>::empty());
        r
    }

    /// The number of attributes.
    pub fn len(&self) -> (n: usize)
        ensures
            n == self@.len(),
    {
        self.entries.len()
    }

    fn find(&self, name: &[char]) -> (r: Option<usize>)
        ensures
            r matches Some(i) ==> assoc_find(self@, name@, 0) == Some(i as int),
            r is None ==> assoc_find(self@, name@, 0) is None,
    {
        let mut i: usize = 0;
        while i < self.entries.len()
            invariant
                i <= self@.len(),
                assoc_find(self@, name@, 0) == assoc_find(self@, name@, i as int),
            decreases self.entries.len() - i,
        {
            let k = chars_of(self.entries[i].0.as_str());
            if chars_eq(&k, name) {
                return Some(i);
            }
            i = i + 1;
        }
        None
    }

    /// Maps `name` to `value`.
    pub fn insert(&mut self, name: String, value: String)
        ensures
            final(self)@ == assoc_insert(old(self)@, name@, value@),
            assoc_distinct(final(self)@),
    {
        proof {
            use_type_invariant(&*self);
        }
        let nc = chars_of(name.as_str());
        let ghost before = self@;
        let ghost after = assoc_insert(before, nc@, value@);
        proof {
            lemma_assoc_insert_distinct(before, nc@, value@);
        }
        let found = self.find(&nc);
        let mut entries: Vec<(String, String)> = Vec::new();
        std::mem::swap(&mut entries, &mut self.entries);
        assert(entries_view(entries@) == before);
        match found {
            Some(i) => {
                proof {
                    lemma_assoc_find(before, nc@, 0);
                }
                entries.set(i, (name, value));
                assert(entries_view(entries@) =~= before.update(i as int, (nc@, value@)));
            },
            None => {
                entries.push((name, value));
                assert(entries_view(entries@) =~= before.push((nc@, value@)));
            },
        }
        assert(entries_view(entries@) == after);
        self.entries = entries;
    }

    /// The `i`-th name and value, in the order names first appeared.
    pub fn entry(&self, i: usize) -> (r: (&String, &String))
        requires
            i < self@.len(),
        ensures
            (r.0@, r.1@) == self@[i as int],
    {
        (&self.entries[i].0, &self.entries[i].1)
    }

    /// A copy of the map.
    pub fn duplicate(&self) -> (r: AttrMap)
        ensures
            r@ == self@,
            assoc_distinct(r@),
    {
        proof {
            use_type_invariant(self);
        }
        let mut entries: Vec<(String, String)> = Vec::new();
        let mut i: usize = 0;
        while i < self.entries.len()
            invariant
                i <= self.entries@.len(),
                entries@.len() == i,
                forall|j: int|
                    0 <= j < i ==> (#[trigger] entries@[j]).0@ == self.entries@[j].0@
                        && entries@[j].1@ == self.entries@[j].1@,
            decreases self.entries.len() - i,
        {
            entries.push((self.entries[i].0.clone(), self.entries[i].1.clone()));
            i = i + 1;
        }
        assert(entries_view(entries@) =~= self@);
        let r = AttrMap { entries };
        r
    }

    /// The value of `name`, if present.
    pub fn get(&self, name: &str) -> (r: Option<&String>)
        ensures
            r matches Some(v) ==> assoc_get(self@, name@) == Some(v@),
            r is None ==> assoc_get(self@, name@) is None,
    {
        let nc = chars_of(name);
        match self.find(&nc) {
            Some(i) => {
                proof {
                    lemma_assoc_find(self@, nc@, 0);
                }
                assert(self@[i as int] == (self.entries@[i as int].0@, self.entries@[i as int].1@));
                Some(&self.entries[i].1)
            },
            None => None,
        }
    }
}

/// Whether two character sequences are equal.
pub fn chars_eq(a: &[char], b: &[char]) -> (r: bool)
    ensures
        r == (a@ == b@),
{
    if a.len() != b.len() {
        return false;
    }
    let mut i: usize = 0;
    while i < a.len()
        invariant
            a@.len() == b@.len(),
            i <= a@.len(),
            forall|j: int| 0 <= j < i ==> a@[j] == b@[j],
        decreases a.len() - i,
    {
        if a[i] != b[i] {
            return false;
        }
        i = i + 1;
    }
    assert(a@ =~= b@);
    true
}

/// What a node is.
#[derive(Debug)]
pub enum NodeType {
    Text(String),
    Element(ElementData),
}

/// An element's tag name (lowercase when parsed) and attributes.
#[derive(Debug)]
pub struct ElementData {
    pub tag_name: String,
    pub attributes: AttrMap,
}

/// A node of the document tree.
#[derive(Debug)]
pub struct Node {
    pub children: Vec<Node>,
    pub node_type: NodeType,
}

/// What a node is, as text.
pub enum KindView {
    Text(Seq<char>),
    Element(Seq<char>, Attrs),
}

/// A node as text.
pub struct NodeView {
    pub children: Seq<NodeView>,
    pub kind: KindView,
}

pub open spec fn kind_view(t: NodeType) -> KindView {
    match t {
        NodeType::Text(s) => KindView::Text(s@),
        NodeType::Element(d) => KindView::Element(d.tag_name@, d.attributes@),
    }
}

/// The tree below `n`, as text.
pub open spec fn node_view(n: Node) -> NodeView
    decreases n,
{
    NodeView {
        children: Seq::new(
            n.children@.len(),
            |i: int|
                if 0 <= i < n.children@.len() {
                    node_view(n.children@[i])
                } else {
                    NodeView { children: Seq::empty(), kind: KindView::Text(Seq::empty()) }
                },
        ),
        kind: kind_view(n.node_type),
    }
}

/// The views of a sequence of nodes.
pub open spec fn views(v: Seq<Node>) -> Seq<NodeView> {
    Seq::new(v.len(), |i: int| node_view(v[i]))
}

pub(crate) proof fn lemma_node_view_children(n: Node)
    ensures
        node_view(n).children == views(n.children@),
        node_view(n).kind == kind_view(n.node_type),
{
    assert(node_view(n).children =~= views(n.children@));
}

impl ElementData {
    /// The `id` attribute.
    pub fn id(&self) -> (r: Option<&String>)
        ensures
            r matches Some(v) ==> assoc_get(self.attributes@, id_name()) == Some(v@),
            r is None ==> assoc_get(self.attributes@, id_name()) is None,
    {
        let k = "id";
        proof {
            reveal_strlit("id");
        }
        assert(k@ =~= id_name());
        self.attributes.get(k)
    }

    /// The whitespace-separated words of the `class` attribute.
    pub fn classes(&self) -> (r: Vec<String>)
        ensures
            r@.map_values(|s: String| s@) == match assoc_get(self.attributes@, class_name()) {
                Some(v) => words(v),
                None => Seq::<Seq<char>>::empty(),
            },
    {
        let k = "class";
        proof {
            reveal_strlit("class");
        }
        assert(k@ =~= class_name());
        match self.attributes.get(k) {
            Some(s) => {
                let sc = chars_of(s.as_str());
                let ws = words_vec(&sc);
                let mut out: Vec<String> = Vec::new();
                let mut i: usize = 0;
                while i < ws.len()
                    invariant
                        i <= ws@.len(),
                        out@.len() == i,
                        forall|j: int| 0 <= j < i ==> (#[trigger] out@[j])@ == ws@[j]@,
                    decreases ws.len() - i,
                {
                    let w = string_of(&ws[i]);
                    out.push(w);
                    i = i + 1;
                }
                assert(out@.map_values(|s: String| s@) =~= ws@.map_values(|w: Vec<char>| w@));
                out
            },
            None => {
                let out: Vec<String> = Vec::new();
                assert(out@.map_values(|s: String| s@) =~= Seq::<Seq<char>>::empty());
                out
            },
        }
    }
}

pub open spec fn id_name() -> Seq<char> {
    seq!['i', 'd']
}

pub open spec fn class_name() -> Seq<char> {
    seq!['c', 'l', 'a', 's', 's']
}

/// A text node.
pub fn text(data: String) -> (r: Node)
    ensures
        node_view(r) == (NodeView { children: Seq::empty(), kind: KindView::Text(data@) }),
{
    let r = Node { children: Vec::new(), node_type: NodeType::Text(data) };
    proof {
        lemma_node_view_children(r);
    }
    assert(node_view(r).children =~= Seq::<NodeView>::empty());
    r
}

/// An element node.
pub fn elem(tag_name: String, attributes: AttrMap, children: Vec<Node>) -> (r: Node)
    ensures
        node_view(r) == (NodeView {
            children: views(children@),
            kind: KindView::Element(tag_name@, attributes@),
        }),
{
    let r = Node { children, node_type: NodeType::Element(ElementData { tag_name, attributes }) };
    proof {
        lemma_node_view_children(r);
    }
    r
}

// ---------------------------------------------------------------------------
// What the parser reads
// ---------------------------------------------------------------------------

pub open spec fn lit_close() -> Seq<char> {
    seq!['<', '/']
}

pub open spec fn lit_comment_open() -> Seq<char> {
    seq!['<', '!', '-', '-']
}

pub open spec fn lit_bang() -> Seq<char> {
    seq!['<', '!']
}

pub open spec fn lit_comment_close() -> Seq<char> {
    seq!['-', '-', '>']
}

/// `decode_entities`: `&amp;`, `&lt;`, `&gt;`, `&quot;`, `&apos;` and `&nbsp;`
/// replaced one after the other, in that order.
pub open spec fn decode_entities(s: Seq<char>) -> Seq<char> {
    let a = replace_all(s, seq!['&', 'a', 'm', 'p', ';'], seq!['&']);
    let b = replace_all(a, seq!['&', 'l', 't', ';'], seq!['<']);
    let c = replace_all(b, seq!['&', 'g', 't', ';'], seq!['>']);
    let d = replace_all(c, seq!['&', 'q', 'u', 'o', 't', ';'], seq!['"']);
    let e = replace_all(d, seq!['&', 'a', 'p', 'o', 's', ';'], seq!['\'']);
    replace_all(e, seq!['&', 'n', 'b', 's', 'p', ';'], seq!['\u{a0}'])
}

/// The first index at or after `i` where `pat` occurs (or the end).
pub open spec fn seek(s: Seq<char>, i: int, pat: Seq<char>) -> int
    decreases s.len() - i,
{
    if i < 0 || i >= s.len() || occurs_at(s, pat, i) {
        i
    } else {
        seek(s, i + 1, pat)
    }
}

/// `k`, but no further than the end.
pub open spec fn cap(s: Seq<char>, k: int) -> int {
    if k < s.len() {
        k
    } else {
        s.len() as int
    }
}

/// One past `x`, unless `x` is at the end.
pub open spec fn past(s: Seq<char>, x: int) -> int {
    if 0 <= x < s.len() {
        x + 1
    } else {
        x
    }
}

/// The end of a comment that opens at `p`: up to four characters for `<!--`,
/// the text up to `-->`, and up to three characters for `-->`.
pub open spec fn comment_end(s: Seq<char>, p: int) -> int {
    cap(s, seek(s, cap(s, p + 4), lit_comment_close()) + 3)
}

/// The end of a `<!...>` declaration that opens at `p`.
pub open spec fn bang_end(s: Seq<char>, p: int) -> int {
    past(s, stop_at(s, p, '>', '>'))
}

/// Characters of a tag name.
pub open spec fn is_tag_char(c: char) -> bool {
    is_alnum(c) || c == '-'
}

/// Characters of an attribute name.
pub open spec fn is_attr_name_char(c: char) -> bool {
    c != '=' && c != '>' && c != '/' && !is_ws(c)
}

/// Characters of an unquoted attribute value.
pub open spec fn is_unquoted_char(c: char) -> bool {
    c != '>' && !is_ws(c)
}

pub open spec fn tag_end(s: Seq<char>, i: int) -> int
    decreases s.len() - i,
{
    if 0 <= i < s.len() && is_tag_char(s[i]) {
        tag_end(s, i + 1)
    } else {
        i
    }
}

pub open spec fn attr_name_end(s: Seq<char>, i: int) -> int
    decreases s.len() - i,
{
    if 0 <= i < s.len() && is_attr_name_char(s[i]) {
        attr_name_end(s, i + 1)
    } else {
        i
    }
}

pub open spec fn unquoted_end(s: Seq<char>, i: int) -> int
    decreases s.len() - i,
{
    if 0 <= i < s.len() && is_unquoted_char(s[i]) {
        unquoted_end(s, i + 1)
    } else {
        i
    }
}

/// An attribute value at `r`: quoted (entity-decoded text up to the matching
/// quote, which is consumed) or unquoted (entity-decoded text up to whitespace
/// or `>`).
pub open spec fn attr_value(s: Seq<char>, r: int) -> (Seq<char>, int) {
    if 0 <= r < s.len() && (s[r] == '"' || s[r] == '\'') {
        let e = stop_at(s, r + 1, s[r], s[r]);
        (decode_entities(s.subrange(r + 1, e)), past(s, e))
    } else {
        let e = unquoted_end(s, r);
        (decode_entities(s.subrange(r, e)), e)
    }
}

/// The attributes read from `i`, inserted into `acc`.
pub open spec fn attrs_from(s: Seq<char>, i: int, acc: Attrs) -> (Attrs, int)
    decreases s.len() - i,
{
    let p = ws_end(s, i);
    if p < i || p >= s.len() || s[p] == '>' || s[p] == '/' {
        (acc, p)
    } else {
        let n = attr_name_end(s, p);
        if n <= p || n > s.len() {
            (acc, n)
        } else {
            let q = ws_end(s, n);
            let v = if 0 <= q < s.len() && s[q] == '=' {
                attr_value(s, ws_end(s, q + 1))
            } else {
                (Seq::<char>::empty(), q)
            };
            let acc2 = assoc_insert(acc, lowercase(s.subrange(p, n)), v.0);
            if v.1 <= i || v.1 > s.len() {
                (acc2, v.1)
            } else {
                attrs_from(s, v.1, acc2)
            }
        }
    }
}

/// The void elements, which never have children.
pub open spec fn is_void(tag: Seq<char>) -> bool {
    ||| tag == seq!['a', 'r', 'e', 'a']
    ||| tag == seq!['b', 'a', 's', 'e']
    ||| tag == seq!['b', 'r']
    ||| tag == seq!['c', 'o', 'l']
    ||| tag == seq!['e', 'm', 'b', 'e', 'd']
    ||| tag == seq!['h', 'r']
    ||| tag == seq!['i', 'm', 'g']
    ||| tag == seq!['i', 'n', 'p', 'u', 't']
    ||| tag == seq!['l', 'i', 'n', 'k']
    ||| tag == seq!['m', 'e', 't', 'a']
    ||| tag == seq!['p', 'a', 'r', 'a', 'm']
    ||| tag == seq!['s', 'o', 'u', 'r', 'c', 'e']
    ||| tag == seq!['t', 'r', 'a', 'c', 'k']
    ||| tag == seq!['w', 'b', 'r']
}

/// The elements whose contents are raw text.
pub open spec fn is_raw_text(tag: Seq<char>) -> bool {
    tag == seq!['s', 'c', 'r', 'i', 'p', 't'] || tag == seq!['s', 't', 'y', 'l', 'e']
}

pub open spec fn text_view(t: Seq<char>) -> NodeView {
    NodeView { children: Seq::empty(), kind: KindView::Text(t) }
}

pub open spec fn elem_view(tag: Seq<char>, attrs: Attrs, kids: Seq<NodeView>) -> NodeView {
    NodeView { children: kids, kind: KindView::Element(tag, attrs) }
}

/// The sibling nodes read from `i`, up to the end or a closing tag `</`.
pub open spec fn nodes_from(s: Seq<char>, i: int) -> (Seq<NodeView>, int)
    decreases s.len() - i, 1int,
{
    let p = ws_end(s, i);
    if p < i || p >= s.len() || occurs_at(s, lit_close(), p) {
        (Seq::empty(), p)
    } else if occurs_at(s, lit_comment_open(), p) {
        let q = comment_end(s, p);
        if q <= i || q > s.len() {
            (Seq::empty(), q)
        } else {
            nodes_from(s, q)
        }
    } else if occurs_at(s, lit_bang(), p) {
        let q = bang_end(s, p);
        if q <= i || q > s.len() {
            (Seq::empty(), q)
        } else {
            nodes_from(s, q)
        }
    } else {
        let n = if s[p] == '<' {
            element_at(s, p)
        } else {
            let q = stop_at(s, p, '<', '<');
            (text_view(decode_entities(s.subrange(p, q))), q)
        };
        if n.1 <= i || n.1 > s.len() {
            (seq![n.0], n.1)
        } else {
            let r = nodes_from(s, n.1);
            (seq![n.0] + r.0, r.1)
        }
    }
}

/// The element whose `<` is at `p`, and where it ends.
pub open spec fn element_at(s: Seq<char>, p: int) -> (NodeView, int)
    decreases s.len() - p, 0int,
{
    let t1 = tag_end(s, p + 1);
    let tag = lowercase(s.subrange(p + 1, t1));
    let at = attrs_from(s, t1, Seq::empty());
    let b = ws_end(s, at.1);
    let sc = 0 <= b < s.len() && s[b] == '/';
    let b2 = if sc {
        b + 1
    } else {
        b
    };
    let c = if 0 <= b2 < s.len() && s[b2] == '>' {
        b2 + 1
    } else {
        b2
    };
    if !sc && is_raw_text(tag) {
        let r = seek(s, c, lit_close() + tag);
        (elem_view(tag, at.0, seq![text_view(s.subrange(c, r))]), past(s, stop_at(s, r, '>', '>')))
    } else if sc || is_void(tag) || c <= p || c > s.len() {
        (elem_view(tag, at.0, Seq::empty()), c)
    } else {
        let kids = nodes_from(s, c);
        let d = kids.1;
        let e = if occurs_at(s, lit_close(), d) {
            past(s, stop_at(s, d, '>', '>'))
        } else {
            d
        };
        (elem_view(tag, at.0, kids.0), e)
    }
}

/// The document that `source` describes: its single top-level node, or an
/// `html` element holding all of them.
pub open spec fn parse_spec(source: Seq<char>) -> NodeView {
    let ns = nodes_from(source, 0).0;
    if ns.len() == 1 {
        ns[0]
    } else {
        elem_view(seq!['h', 't', 'm', 'l'], Seq::empty(), ns)
    }
}

// ---------------------------------------------------------------------------
// Positions only move forward and stay within the input
// ---------------------------------------------------------------------------

proof fn lemma_seek(s: Seq<char>, i: int, pat: Seq<char>)
    requires
        0 <= i <= s.len(),
    ensures
        i <= seek(s, i, pat) <= s.len(),
    decreases s.len() - i,
{
    if i < s.len() && !occurs_at(s, pat, i) {
        lemma_seek(s, i + 1, pat);
    }
}

proof fn lemma_tag_end(s: Seq<char>, i: int)
    requires
        0 <= i <= s.len(),
    ensures
        i <= tag_end(s, i) <= s.len(),
    decreases s.len() - i,
{
    if i < s.len() && is_tag_char(s[i]) {
        lemma_tag_end(s, i + 1);
    }
}

proof fn lemma_attr_name_end(s: Seq<char>, i: int)
    requires
        0 <= i <= s.len(),
    ensures
        i <= attr_name_end(s, i) <= s.len(),
    decreases s.len() - i,
{
    if i < s.len() && is_attr_name_char(s[i]) {
        lemma_attr_name_end(s, i + 1);
    }
}

proof fn lemma_unquoted_end(s: Seq<char>, i: int)
    requires
        0 <= i <= s.len(),
    ensures
        i <= unquoted_end(s, i) <= s.len(),
    decreases s.len() - i,
{
    if i < s.len() && is_unquoted_char(s[i]) {
        lemma_unquoted_end(s, i + 1);
    }
}

proof fn lemma_attr_value(s: Seq<char>, r: int)
    requires
        0 <= r <= s.len(),
    ensures
        r <= attr_value(s, r).1 <= s.len(),
{
    if 0 <= r < s.len() && (s[r] == '"' || s[r] == '\'') {
        lemma_stop_at(s, r + 1, s[r], s[r]);
    } else {
        lemma_unquoted_end(s, r);
    }
}

proof fn lemma_attrs_from(s: Seq<char>, i: int, acc: Attrs)
    requires
        0 <= i <= s.len(),
    ensures
        i <= attrs_from(s, i, acc).1 <= s.len(),
    decreases s.len() - i,
{
    lemma_ws_end(s, i);
    let p = ws_end(s, i);
    if !(p < i || p >= s.len() || s[p] == '>' || s[p] == '/') {
        lemma_attr_name_end(s, p);
        let n = attr_name_end(s, p);
        if !(n <= p || n > s.len()) {
            lemma_ws_end(s, n);
            let q = ws_end(s, n);
            if 0 <= q < s.len() && s[q] == '=' {
                lemma_ws_end(s, q + 1);
                lemma_attr_value(s, ws_end(s, q + 1));
            }
            let v = if 0 <= q < s.len() && s[q] == '=' {
                attr_value(s, ws_end(s, q + 1))
            } else {
                (Seq::<char>::empty(), q)
            };
            let acc2 = assoc_insert(acc, lowercase(s.subrange(p, n)), v.0);
            if !(v.1 <= i || v.1 > s.len()) {
                lemma_attrs_from(s, v.1, acc2);
            }
        }
    }
}

proof fn lemma_comment_end(s: Seq<char>, p: int)
    requires
        0 <= p < s.len(),
    ensures
        p < comment_end(s, p) <= s.len(),
{
    lemma_seek(s, cap(s, p + 4), lit_comment_close());
}

proof fn lemma_bang_end(s: Seq<char>, p: int)
    requires
        0 <= p < s.len(),
    ensures
        p < bang_end(s, p) <= s.len(),
{
    lemma_stop_at(s, p, '>', '>');
}

/// The position after the opening tag of the element at `p`.
proof fn lemma_open_tag(s: Seq<char>, p: int)
    requires
        0 <= p < s.len(),
    ensures
        ({
            let t1 = tag_end(s, p + 1);
            let at = attrs_from(s, t1, Seq::empty());
            let b = ws_end(s, at.1);
            &&& p + 1 <= t1 <= at.1 <= b <= s.len()
        }),
{
    lemma_tag_end(s, p + 1);
    let t1 = tag_end(s, p + 1);
    lemma_attrs_from(s, t1, Seq::empty());
    lemma_ws_end(s, attrs_from(s, t1, Seq::empty()).1);
}

pub(crate) proof fn lemma_nodes_from(s: Seq<char>, i: int)
    requires
        0 <= i <= s.len(),
    ensures
        i <= nodes_from(s, i).1 <= s.len(),
    decreases s.len() - i, 1int,
{
    lemma_ws_end(s, i);
    let p = ws_end(s, i);
    if p < i || p >= s.len() || occurs_at(s, lit_close(), p) {
    } else if occurs_at(s, lit_comment_open(), p) {
        lemma_comment_end(s, p);
        let q = comment_end(s, p);
        if !(q <= i || q > s.len()) {
            lemma_nodes_from(s, q);
        }
    } else if occurs_at(s, lit_bang(), p) {
        lemma_bang_end(s, p);
        let q = bang_end(s, p);
        if !(q <= i || q > s.len()) {
            lemma_nodes_from(s, q);
        }
    } else {
        if s[p] == '<' {
            lemma_element_at(s, p);
        } else {
            lemma_stop_at(s, p, '<', '<');
        }
        let n = if s[p] == '<' {
            element_at(s, p)
        } else {
            let q = stop_at(s, p, '<', '<');
            (text_view(decode_entities(s.subrange(p, q))), q)
        };
        if !(n.1 <= i || n.1 > s.len()) {
            lemma_nodes_from(s, n.1);
        }
    }
}

pub(crate) proof fn lemma_element_at(s: Seq<char>, p: int)
    requires
        0 <= p < s.len(),
    ensures
        p < element_at(s, p).1 <= s.len(),
    decreases s.len() - p, 0int,
{
    lemma_open_tag(s, p);
    let t1 = tag_end(s, p + 1);
    let tag = lowercase(s.subrange(p + 1, t1));
    let at = attrs_from(s, t1, Seq::empty());
    let b = ws_end(s, at.1);
    let sc = 0 <= b < s.len() && s[b] == '/';
    let b2 = if sc {
        b + 1
    } else {
        b
    };
    let c = if 0 <= b2 < s.len() && s[b2] == '>' {
        b2 + 1
    } else {
        b2
    };
    if !sc && is_raw_text(tag) {
        lemma_seek(s, c, lit_close() + tag);
        let r = seek(s, c, lit_close() + tag);
        lemma_stop_at(s, r, '>', '>');
    } else if sc || is_void(tag) || c <= p || c > s.len() {
    } else {
        lemma_nodes_from(s, c);
        let d = nodes_from(s, c).1;
        if occurs_at(s, lit_close(), d) {
            lemma_stop_at(s, d, '>', '>');
        }
    }
}

// ---------------------------------------------------------------------------
// The executable parser
// ---------------------------------------------------------------------------

fn literal(s: &str) -> (v: Vec<char>)
    ensures
        v@ == s@,
{
    chars_of(s)
}

/// `decode_entities`, executable.
pub fn decode_entities_exec(s: &[char]) -> (r: Vec<char>)
    ensures
        r@ == decode_entities(s@),
{
    let amp = literal("&amp;");
    let lt = literal("&lt;");
    let gt = literal("&gt;");
    let quot = literal("&quot;");
    let apos = literal("&apos;");
    let nbsp = literal("&nbsp;");
    proof {
        reveal_strlit("&amp;");
        reveal_strlit("&lt;");
        reveal_strlit("&gt;");
        reveal_strlit("&quot;");
        reveal_strlit("&apos;");
        reveal_strlit("&nbsp;");
    }
    assert(amp@ =~= seq!['&', 'a', 'm', 'p', ';']);
    assert(lt@ =~= seq!['&', 'l', 't', ';']);
    assert(gt@ =~= seq!['&', 'g', 't', ';']);
    assert(quot@ =~= seq!['&', 'q', 'u', 'o', 't', ';']);
    assert(apos@ =~= seq!['&', 'a', 'p', 'o', 's', ';']);
    assert(nbsp@ =~= seq!['&', 'n', 'b', 's', 'p', ';']);
    let r1 = vec!['&'];
    let r2 = vec!['<'];
    let r3 = vec!['>'];
    let r4 = vec!['"'];
    let r5 = vec!['\''];
    let r6 = vec!['\u{a0}'];
    assert(r1@ =~= seq!['&']);
    assert(r2@ =~= seq!['<']);
    assert(r3@ =~= seq!['>']);
    assert(r4@ =~= seq!['"']);
    assert(r5@ =~= seq!['\'']);
    assert(r6@ =~= seq!['\u{a0}']);
    let a = replace_vec(s, &amp, &r1);
    let b = replace_vec(&a, &lt, &r2);
    let c = replace_vec(&b, &gt, &r3);
    let d = replace_vec(&c, &quot, &r4);
    let e = replace_vec(&d, &apos, &r5);
    replace_vec(&e, &nbsp, &r6)
}

fn scan_exec(s: &Vec<char>, i: usize, which: u8) -> (j: usize)
    requires
        i <= s@.len(),
        which < 3,
    ensures
        which == 0 ==> j == tag_end(s@, i as int),
        which == 1 ==> j == attr_name_end(s@, i as int),
        which == 2 ==> j == unquoted_end(s@, i as int),
        i <= j <= s@.len(),
{
    proof {
        lemma_tag_end(s@, i as int);
        lemma_attr_name_end(s@, i as int);
        lemma_unquoted_end(s@, i as int);
    }
    let mut j = i;
    while j < s.len()
        invariant
            i <= j <= s@.len(),
            which < 3,
            which == 0 ==> tag_end(s@, i as int) == tag_end(s@, j as int),
            which == 1 ==> attr_name_end(s@, i as int) == attr_name_end(s@, j as int),
            which == 2 ==> unquoted_end(s@, i as int) == unquoted_end(s@, j as int),
        decreases s.len() - j,
    {
        let c = s[j];
        let go = if which == 0 {
            is_alphanumeric(c) || c == '-'
        } else if which == 1 {
            c != '=' && c != '>' && c != '/' && !is_whitespace(c)
        } else {
            c != '>' && !is_whitespace(c)
        };
        if !go {
            return j;
        }
        j = j + 1;
    }
    j
}

fn ws_end_exec(s: &Vec<char>, i: usize) -> (j: usize)
    requires
        i <= s@.len(),
    ensures
        j == ws_end(s@, i as int),
        i <= j <= s@.len(),
{
    proof {
        lemma_ws_end(s@, i as int);
    }
    let mut j = i;
    while j < s.len() && is_whitespace(s[j])
        invariant
            i <= j <= s@.len(),
            ws_end(s@, i as int) == ws_end(s@, j as int),
        decreases s.len() - j,
    {
        j = j + 1;
    }
    j
}

fn stop_at_exec(s: &Vec<char>, i: usize, a: char) -> (j: usize)
    requires
        i <= s@.len(),
    ensures
        j == stop_at(s@, i as int, a, a),
        i <= j <= s@.len(),
{
    proof {
        lemma_stop_at(s@, i as int, a, a);
    }
    let mut j = i;
    while j < s.len() && s[j] != a
        invariant
            i <= j <= s@.len(),
            stop_at(s@, i as int, a, a) == stop_at(s@, j as int, a, a),
        decreases s.len() - j,
    {
        j = j + 1;
    }
    j
}

fn seek_exec(s: &Vec<char>, i: usize, pat: &Vec<char>) -> (j: usize)
    requires
        i <= s@.len(),
    ensures
        j == seek(s@, i as int, pat@),
        i <= j <= s@.len(),
{
    proof {
        lemma_seek(s@, i as int, pat@);
    }
    let mut j = i;
    while j < s.len() && !occurs_at_exec(s, pat, j)
        invariant
            i <= j <= s@.len(),
            seek(s@, i as int, pat@) == seek(s@, j as int, pat@),
        decreases s.len() - j,
    {
        j = j + 1;
    }
    j
}

fn past_exec(s: &Vec<char>, x: usize) -> (r: usize)
    requires
        x <= s@.len(),
    ensures
        r == past(s@, x as int),
{
    if x < s.len() {
        x + 1
    } else {
        x
    }
}

fn attr_value_exec(s: &Vec<char>, r: usize) -> (res: (Vec<char>, usize))
    requires
        r <= s@.len(),
    ensures
        (res.0@, res.1 as int) == attr_value(s@, r as int),
{
    proof {
        lemma_attr_value(s@, r as int);
    }
    if r < s.len() && (s[r] == '"' || s[r] == '\'') {
        let q = s[r];
        let e = stop_at_exec(s, r + 1, q);
        let v = decode_entities_exec(&sub_chars(s, r + 1, e));
        (v, past_exec(s, e))
    } else {
        let e = scan_exec(s, r, 2);
        let v = decode_entities_exec(&sub_chars(s, r, e));
        (v, e)
    }
}

fn attributes_exec(s: &Vec<char>, i: usize) -> (r: (AttrMap, usize))
    requires
        i <= s@.len(),
    ensures
        (r.0@, r.1 as int) == attrs_from(s@, i as int, Seq::empty()),
{
    let mut attrs = AttrMap::new();
    let mut p = i;
    loop
        invariant
            i <= p <= s@.len(),
            attrs_from(s@, i as int, Seq::empty()) == attrs_from(s@, p as int, attrs@),
        decreases s.len() - p,
    {
        proof {
            lemma_attrs_from(s@, p as int, attrs@);
        }
        let q = ws_end_exec(s, p);
        if q >= s.len() || s[q] == '>' || s[q] == '/' {
            return (attrs, q);
        }
        let n = scan_exec(s, q, 1);
        if n == q {
            return (attrs, n);
        }
        let w = ws_end_exec(s, n);
        let (value, v_end) = if w < s.len() && s[w] == '=' {
            let r0 = ws_end_exec(s, w + 1);
            attr_value_exec(s, r0)
        } else {
            (Vec::new(), w)
        };
        proof {
            if !(w < s@.len() && s@[w as int] == '=') {
                assert(value@ =~= Seq::<char>::empty());
            } else {
                lemma_attr_value(s@, ws_end(s@, w + 1));
            }
        }
        let name = to_lowercase(&sub_chars(s, q, n));
        attrs.insert(string_of(&name), string_of(&value));
        if v_end <= p {
            return (attrs, v_end);
        }
        p = v_end;
    }
}

fn is_void_exec(tag: &Vec<char>) -> (b: bool)
    ensures
        b == is_void(tag@),
{
    let names = [
        "area",
        "base",
        "br",
        "col",
        "embed",
        "hr",
        "img",
        "input",
        "link",
        "meta",
        "param",
        "source",
        "track",
        "wbr",
    ];
    let a = literal("area");
    let b = literal("base");
    let c = literal("br");
    let d = literal("col");
    let e = literal("embed");
    let f = literal("hr");
    let g = literal("img");
    let h = literal("input");
    let k = literal("link");
    let l = literal("meta");
    let m = literal("param");
    let n = literal("source");
    let o = literal("track");
    let q = literal("wbr");
    proof {
        reveal_strlit("area");
        reveal_strlit("base");
        reveal_strlit("br");
        reveal_strlit("col");
        reveal_strlit("embed");
        reveal_strlit("hr");
        reveal_strlit("img");
        reveal_strlit("input");
        reveal_strlit("link");
        reveal_strlit("meta");
        reveal_strlit("param");
        reveal_strlit("source");
        reveal_strlit("track");
        reveal_strlit("wbr");
    }
    assert(a@ =~= seq!['a', 'r', 'e', 'a']);
    assert(b@ =~= seq!['b', 'a', 's', 'e']);
    assert(c@ =~= seq!['b', 'r']);
    assert(d@ =~= seq!['c', 'o', 'l']);
    assert(e@ =~= seq!['e', 'm', 'b', 'e', 'd']);
    assert(f@ =~= seq!['h', 'r']);
    assert(g@ =~= seq!['i', 'm', 'g']);
    assert(h@ =~= seq!['i', 'n', 'p', 'u', 't']);
    assert(k@ =~= seq!['l', 'i', 'n', 'k']);
    assert(l@ =~= seq!['m', 'e', 't', 'a']);
    assert(m@ =~= seq!['p', 'a', 'r', 'a', 'm']);
    assert(n@ =~= seq!['s', 'o', 'u', 'r', 'c', 'e']);
    assert(o@ =~= seq!['t', 'r', 'a', 'c', 'k']);
    assert(q@ =~= seq!['w', 'b', 'r']);
    let _ = names;
    chars_eq(tag, &a) || chars_eq(tag, &b) || chars_eq(tag, &c) || chars_eq(tag, &d) || chars_eq(
        tag,
        &e,
    ) || chars_eq(tag, &f) || chars_eq(tag, &g) || chars_eq(tag, &h) || chars_eq(tag, &k)
        || chars_eq(tag, &l) || chars_eq(tag, &m) || chars_eq(tag, &n) || chars_eq(tag, &o)
        || chars_eq(tag, &q)
}

fn is_raw_text_exec(tag: &Vec<char>) -> (b: bool)
    ensures
        b == is_raw_text(tag@),
{
    let a = literal("script");
    let b = literal("style");
    proof {
        reveal_strlit("script");
        reveal_strlit("style");
    }
    assert(a@ =~= seq!['s', 'c', 'r', 'i', 'p', 't']);
    assert(b@ =~= seq!['s', 't', 'y', 'l', 'e']);
    chars_eq(tag, &a) || chars_eq(tag, &b)
}

fn close_lit() -> (v: Vec<char>)
    ensures
        v@ == lit_close(),
{
    let v = vec!['<', '/'];
    assert(v@ =~= lit_close());
    v
}

proof fn lemma_views_push(v: Seq<Node>, n: Node)
    ensures
        views(v.push(n)) == views(v) + seq![node_view(n)],
{
    assert(views(v.push(n)) =~= views(v) + seq![node_view(n)]);
}

fn nodes_exec(s: &Vec<char>, i: usize) -> (r: (Vec<Node>, usize))
    requires
        i <= s@.len(),
    ensures
        (views(r.0@), r.1 as int) == nodes_from(s@, i as int),
    decreases s@.len() - i, 1int,
{
    let mut out: Vec<Node> = Vec::new();
    let mut p = i;
    assert(views(out@) =~= Seq::<NodeView>::empty());
    assert(nodes_from(s@, i as int).0 =~= Seq::<NodeView>::empty() + nodes_from(s@, i as int).0);
    loop
        invariant
            i <= p <= s@.len(),
            nodes_from(s@, i as int) == (
                views(out@) + nodes_from(s@, p as int).0,
                nodes_from(s@, p as int).1,
            ),
        decreases s@.len() - p,
    {
        proof {
            lemma_nodes_from(s@, p as int);
        }
        let ghost before = views(out@);
        let q = ws_end_exec(s, p);
        let close = close_lit();
        if q >= s.len() || occurs_at_exec(s, &close, q) {
            assert(before + Seq::<NodeView>::empty() =~= before);
            return (out, q);
        }
        let copen = vec!['<', '!', '-', '-'];
        assert(copen@ =~= lit_comment_open());
        let bang = vec!['<', '!'];
        assert(bang@ =~= lit_bang());
        if occurs_at_exec(s, &copen, q) {
            proof {
                lemma_comment_end(s@, q as int);
            }
            let a = if q + 4 < s.len() {
                q + 4
            } else {
                s.len()
            };
            let cclose = vec!['-', '-', '>'];
            assert(cclose@ =~= lit_comment_close());
            let c = seek_exec(s, a, &cclose);
            let e = if c < s.len() - 3 {
                c + 3
            } else {
                s.len()
            };
            p = e;
        } else if occurs_at_exec(s, &bang, q) {
            proof {
                lemma_bang_end(s@, q as int);
            }
            let c = stop_at_exec(s, q, '>');
            p = past_exec(s, c);
        } else {
            let (node, e) = if s[q] == '<' {
                proof {
                    lemma_element_at(s@, q as int);
                }
                element_exec(s, q)
            } else {
                let t = stop_at_exec(s, q, '<');
                proof {
                    lemma_stop_at(s@, q as int, '<', '<');
                }
                let d = decode_entities_exec(&sub_chars(s, q, t));
                (text(string_of(&d)), t)
            };
            proof {
                lemma_views_push(out@, node);
            }
            out.push(node);
            proof {
                assert(before + (seq![node_view(node)] + nodes_from(s@, e as int).0) =~= views(out@)
                    + nodes_from(s@, e as int).0);
            }
            p = e;
        }
    }
}

fn element_exec(s: &Vec<char>, p: usize) -> (r: (Node, usize))
    requires
        p < s@.len(),
    ensures
        (node_view(r.0), r.1 as int) == element_at(s@, p as int),
    decreases s@.len() - p, 0int,
{
    proof {
        lemma_open_tag(s@, p as int);
        lemma_element_at(s@, p as int);
    }
    let slen = s.len();
    assert(p < slen);
    let t1 = scan_exec(s, p + 1, 0);
    let tag = to_lowercase(&sub_chars(s, p + 1, t1));
    let (attrs, a) = attributes_exec(s, t1);
    let b = ws_end_exec(s, a);
    let sc = b < s.len() && s[b] == '/';
    let b2 = if sc {
        b + 1
    } else {
        b
    };
    let c = if b2 < s.len() && s[b2] == '>' {
        b2 + 1
    } else {
        b2
    };
    if !sc && is_raw_text_exec(&tag) {
        let mut closing = close_lit();
        let ghost cl = closing@;
        let mut k: usize = 0;
        while k < tag.len()
            invariant
                k <= tag@.len(),
                closing@ == cl + tag@.take(k as int),
            decreases tag.len() - k,
        {
            closing.push(tag[k]);
            k = k + 1;
            assert(closing@ =~= cl + tag@.take(k as int));
        }
        assert(tag@.take(k as int) =~= tag@);
        let r = seek_exec(s, c, &closing);
        let raw = sub_chars(s, c, r);
        let e0 = stop_at_exec(s, r, '>');
        let e = past_exec(s, e0);
        let t = text(string_of(&raw));
        let mut kids: Vec<Node> = Vec::new();
        proof {
            lemma_views_push(kids@, t);
        }
        kids.push(t);
        assert(views(kids@) =~= seq![text_view(s@.subrange(c as int, r as int))]);
        return (elem(string_of(&tag), attrs, kids), e);
    }
    if sc || is_void_exec(&tag) || c <= p {
        let kids: Vec<Node> = Vec::new();
        assert(views(kids@) =~= Seq::<NodeView>::empty());
        return (elem(string_of(&tag), attrs, kids), c);
    }
    let (kids, d) = nodes_exec(s, c);
    proof {
        lemma_nodes_from(s@, c as int);
    }
    let close = close_lit();
    let e = if occurs_at_exec(s, &close, d) {
        let x = stop_at_exec(s, d, '>');
        past_exec(s, x)
    } else {
        d
    };
    (elem(string_of(&tag), attrs, kids), e)
}

/// Parses a document.
pub fn parse(source: String) -> (r: Node)
    ensures
        node_view(r) == parse_spec(source@),
{
    let s = chars_of(source.as_str());
    let (mut nodes, _) = nodes_exec(&s, 0);
    if nodes.len() == 1 {
        let n = nodes.swap_remove(0);
        n
    } else {
        let html = vec!['h', 't', 'm', 'l'];
        assert(html@ =~= seq!['h', 't', 'm', 'l']);
        elem(string_of(&html), AttrMap::new(), nodes)
    }
}

} // verus!

verus! {

proof fn lemma_void_literals()
    ensures
        "area"@ == seq!['a', 'r', 'e', 'a'],
        "base"@ == seq!['b', 'a', 's', 'e'],
        "br"@ == seq!['b', 'r'],
        "col"@ == seq!['c', 'o', 'l'],
        "embed"@ == seq!['e', 'm', 'b', 'e', 'd'],
        "hr"@ == seq!['h', 'r'],
        "img"@ == seq!['i', 'm', 'g'],
        "input"@ == seq!['i', 'n', 'p', 'u', 't'],
        "link"@ == seq!['l', 'i', 'n', 'k'],
        "meta"@ == seq!['m', 'e', 't', 'a'],
        "param"@ == seq!['p', 'a', 'r', 'a', 'm'],
        "source"@ == seq!['s', 'o', 'u', 'r', 'c', 'e'],
        "track"@ == seq!['t', 'r', 'a', 'c', 'k'],
        "wbr"@ == seq!['w', 'b', 'r'],
{
    reveal_strlit("area");
    reveal_strlit("base");
    reveal_strlit("br");
    reveal_strlit("col");
    reveal_strlit("embed");
    reveal_strlit("hr");
    reveal_strlit("img");
    reveal_strlit("input");
    reveal_strlit("link");
    reveal_strlit("meta");
    reveal_strlit("param");
    reveal_strlit("source");
    reveal_strlit("track");
    reveal_strlit("wbr");
    assert("area"@ =~= seq!['a', 'r', 'e', 'a']);
    assert("base"@ =~= seq!['b', 'a', 's', 'e']);
    assert("br"@ =~= seq!['b', 'r']);
    assert("col"@ =~= seq!['c', 'o', 'l']);
    assert("embed"@ =~= seq!['e', 'm', 'b', 'e', 'd']);
    assert("hr"@ =~= seq!['h', 'r']);
    assert("img"@ =~= seq!['i', 'm', 'g']);
    assert("input"@ =~= seq!['i', 'n', 'p', 'u', 't']);
    assert("link"@ =~= seq!['l', 'i', 'n', 'k']);
    assert("meta"@ =~= seq!['m', 'e', 't', 'a']);
    assert("param"@ =~= seq!['p', 'a', 'r', 'a', 'm']);
    assert("source"@ =~= seq!['s', 'o', 'u', 'r', 'c', 'e']);
    assert("track"@ =~= seq!['t', 'r', 'a', 'c', 'k']);
    assert("wbr"@ =~= seq!['w', 'b', 'r']);
}

/// Each of the HTML void elements is void: `area`, `base`, `br`, `col`,
/// `embed`, `hr`, `img`, `input`, `link`, `meta`, `param`, `source`, `track`
/// and `wbr`.
pub proof fn lemma_void_elements()
    ensures
        is_void("area"@),
        is_void("base"@),
        is_void("br"@),
        is_void("col"@),
        is_void("embed"@),
        is_void("hr"@),
        is_void("img"@),
        is_void("input"@),
        is_void("link"@),
        is_void("meta"@),
        is_void("param"@),
        is_void("source"@),
        is_void("track"@),
        is_void("wbr"@),
{
    lemma_void_literals();
}

/// An element whose tag, in lower case, is void has no children.
pub proof fn lemma_void_element_childless(s: Seq<char>, p: int)
    requires
        0 <= p < s.len(),
        is_void(lowercase(s.subrange(p + 1, tag_end(s, p + 1)))),
    ensures
        element_at(s, p).0.children.len() == 0,
        element_at(s, p).0.kind matches KindView::Element(t, _) && t == lowercase(
            s.subrange(p + 1, tag_end(s, p + 1)),
        ),
{
    let tag = lowercase(s.subrange(p + 1, tag_end(s, p + 1)));
    if is_raw_text(tag) {
        if tag == seq!['s', 'c', 'r', 'i', 'p', 't'] {
            assert(tag[1] == 'c');
        } else {
            assert(tag[1] == 't');
        }
    }
}

/// The void elements are exactly those of the HTML list: no other tag is void.
pub proof fn lemma_void_only_listed(tag: Seq<char>)
    ensures
        is_void(tag) <==> (tag == "area"@ || tag == "base"@ || tag == "br"@ || tag == "col"@ || tag
            == "embed"@ || tag == "hr"@ || tag == "img"@ || tag == "input"@ || tag == "link"@ || tag
            == "meta"@ || tag == "param"@ || tag == "source"@ || tag == "track"@ || tag == "wbr"@),
{
    lemma_void_literals();
}

} // verus!
