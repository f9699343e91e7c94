//! A small CSS parser: tag, class, `#id` and universal selectors, the
//! descendant combinator, comma-separated selector lists, and declarations
//! kept as raw text.
//!
//! The parser never fails: every input gives a stylesheet. The spec functions
//! below say, position by position, what each step of the parser reads.
use vstd::prelude::*;
use crate::text::{
    chars_of, is_alnum, is_alphanumeric, is_whitespace, is_ws, lowercase, string_of, sub_chars,
    to_lowercase, trim, trim_vec,
};

verus! {

/// One part of a simple selector: `div`, `.card`, `#main` or `*`.
#[derive(Debug, Clone, PartialEq)]
pub enum SimpleSelectorPart {
    Tag(String),
    Class(String),
    Id(String),
    Universal,
}

/// A selector part as text.
pub enum PartView {
    Tag(Seq<char>),
    Class(Seq<char>),
    Id(Seq<char>),
    Universal,
}

impl View for SimpleSelectorPart {
    type V = PartView;

    open spec fn view(&self) -> PartView {
        match self {
            SimpleSelectorPart::Tag(s) => PartView::Tag(s@),
            SimpleSelectorPart::Class(s) => PartView::Class(s@),
            SimpleSelectorPart::Id(s) => PartView::Id(s@),
            SimpleSelectorPart::Universal => PartView::Universal,
        }
    }
}

/// A compound selector such as `div.card#main`: its parts, in order.
#[derive(Debug, Clone)]
pub struct SimpleSelector {
    pub parts: Vec<SimpleSelectorPart>,
}

impl View for SimpleSelector {
    type V = Seq<PartView>;

    open spec fn view(&self) -> Seq<PartView> {
        self.parts@.map_values(|p: SimpleSelectorPart| p@)
    }
}

/// A selector with descendant combinators: its compound selectors from the
/// outermost ancestor to the element itself (rightmost last).
#[derive(Debug, Clone)]
pub struct Selector {
    pub chain: Vec<SimpleSelector>,
}

impl View for Selector {
    type V = Seq<Seq<PartView>>;

    open spec fn view(&self) -> Seq<Seq<PartView>> {
        self.chain@.map_values(|s: SimpleSelector| s@)
    }
}

/// `name: value`.
#[derive(Debug, Clone)]
pub struct Declaration {
    pub name: String,
    pub value: String,
}

impl View for Declaration {
    type V = (Seq<char>, Seq<char>);

    open spec fn view(&self) -> (Seq<char>, Seq<char>) {
        (self.name@, self.value@)
    }
}

/// Selectors and the declarations they apply.
#[derive(Debug, Clone)]
pub struct Rule {
    pub selectors: Vec<Selector>,
    pub declarations: Vec<Declaration>,
}

/// A rule as text.
pub struct RuleView {
    pub selectors: Seq<Seq<Seq<PartView>>>,
    pub declarations: Seq<(Seq<char>, Seq<char>)>,
}

impl View for Rule {
    type V = RuleView;

    open spec fn view(&self) -> RuleView {
        RuleView {
            selectors: self.selectors@.map_values(|s: Selector| s@),
            declarations: self.declarations@.map_values(|d: Declaration| d@),
        }
    }
}

/// The rules of a style sheet, in source order.
#[derive(Debug, Clone)]
pub struct Stylesheet {
    pub rules: Vec<Rule>,
}

impl View for Stylesheet {
    type V = Seq<RuleView>;

    open spec fn view(&self) -> Seq<RuleView> {
        self.rules@.map_values(|r: Rule| r@)
    }
}

impl Default for Stylesheet {
    fn default() -> (r: Stylesheet)
        ensures
            r@ == Seq::<RuleView>::empty(),
    {
        let r = Stylesheet { rules: Vec::new() };
        assert(r@ =~= Seq::<RuleView>::empty());
        r
    }
}

// ---------------------------------------------------------------------------
// Specificity
// ---------------------------------------------------------------------------

/// `(ids, classes, tags)` counted in a compound selector.
pub open spec fn part_counts(parts: Seq<PartView>) -> (nat, nat, nat)
    decreases parts.len(),
{
    if parts.len() == 0 {
        (0, 0, 0)
    } else {
        let r = part_counts(parts.drop_last());
        match parts.last() {
            PartView::Id(_) => ((r.0 + 1) as nat, r.1, r.2),
            PartView::Class(_) => (r.0, (r.1 + 1) as nat, r.2),
            PartView::Tag(_) => (r.0, r.1, (r.2 + 1) as nat),
            PartView::Universal => r,
        }
    }
}

/// `(ids, classes, tags)` counted across a whole selector.
pub open spec fn chain_counts(chain: Seq<Seq<PartView>>) -> (nat, nat, nat)
    decreases chain.len(),
{
    if chain.len() == 0 {
        (0, 0, 0)
    } else {
        let r = chain_counts(chain.drop_last());
        let c = part_counts(chain.last());
        ((r.0 + c.0) as nat, (r.1 + c.1) as nat, (r.2 + c.2) as nat)
    }
}

/// The number of parts in a selector.
pub open spec fn chain_size(chain: Seq<Seq<PartView>>) -> nat
    decreases chain.len(),
{
    if chain.len() == 0 {
        0
    } else {
        chain_size(chain.drop_last()) + chain.last().len()
    }
}

proof fn lemma_part_counts_bound(parts: Seq<PartView>)
    ensures
        part_counts(parts).0 + part_counts(parts).1 + part_counts(parts).2 <= parts.len(),
    decreases parts.len(),
{
    if parts.len() > 0 {
        lemma_part_counts_bound(parts.drop_last());
    }
}

proof fn lemma_chain_counts_bound(chain: Seq<Seq<PartView>>)
    ensures
        chain_counts(chain).0 + chain_counts(chain).1 + chain_counts(chain).2 <= chain_size(chain),
    decreases chain.len(),
{
    if chain.len() > 0 {
        lemma_chain_counts_bound(chain.drop_last());
        lemma_part_counts_bound(chain.last());
    }
}

proof fn lemma_chain_size_prefix(chain: Seq<Seq<PartView>>, k: int)
    requires
        0 <= k <= chain.len(),
    ensures
        chain_size(chain.take(k)) <= chain_size(chain),
    decreases chain.len() - k,
{
    if k < chain.len() {
        assert(chain.drop_last().take(k) =~= chain.take(k));
        lemma_chain_size_prefix(chain.drop_last(), k);
    } else {
        assert(chain.take(k) =~= chain);
    }
}

impl Selector {
    /// `(id count, class count, tag count)` across the whole chain.
    pub fn specificity(&self) -> (r: (u32, u32, u32))
        requires
            chain_size(self@) <= u32::MAX,
        ensures
            r.0 == chain_counts(self@).0,
            r.1 == chain_counts(self@).1,
            r.2 == chain_counts(self@).2,
    {
        let mut ids: u32 = 0;
        let mut classes: u32 = 0;
        let mut tags: u32 = 0;
        let ghost chain = self@;
        let mut i: usize = 0;
        assert(chain.take(0) =~= Seq::<Seq<PartView>>::empty());
        while i < self.chain.len()
            invariant
                chain == self@,
                i <= chain.len(),
                chain_size(chain) <= u32::MAX,
                ids == chain_counts(chain.take(i as int)).0,
                classes == chain_counts(chain.take(i as int)).1,
                tags == chain_counts(chain.take(i as int)).2,
            decreases self.chain.len() - i,
        {
            let simple = &self.chain[i];
            let ghost parts = simple@;
            assert(chain[i as int] == parts);
            let ghost base = chain_counts(chain.take(i as int));
            proof {
                lemma_chain_size_prefix(chain, i + 1);
                assert(chain.take(i + 1).drop_last() =~= chain.take(i as int));
                lemma_chain_counts_bound(chain.take(i + 1));
            }
            let mut j: usize = 0;
            assert(parts.take(0) =~= Seq::<PartView>::empty());
            while j < simple.parts.len()
                invariant
                    parts == simple@,
                    j <= parts.len(),
                    ids == base.0 + part_counts(parts.take(j as int)).0,
                    classes == base.1 + part_counts(parts.take(j as int)).1,
                    tags == base.2 + part_counts(parts.take(j as int)).2,
                    base.0 + part_counts(parts).0 + base.1 + part_counts(parts).1 + base.2
                        + part_counts(parts).2 <= u32::MAX,
                decreases simple.parts.len() - j,
            {
                proof {
                    assert(parts.take(j + 1).drop_last() =~= parts.take(j as int));
                    lemma_part_counts_prefix(parts, j + 1);
                }
                match &simple.parts[j] {
                    SimpleSelectorPart::Id(_) => ids = ids + 1,
                    SimpleSelectorPart::Class(_) => classes = classes + 1,
                    SimpleSelectorPart::Tag(_) => tags = tags + 1,
                    SimpleSelectorPart::Universal => {},
                }
                j = j + 1;
            }
            assert(parts.take(j as int) =~= parts);
            i = i + 1;
        }
        assert(chain.take(i as int) =~= chain);
        (ids, classes, tags)
    }
}

proof fn lemma_part_counts_prefix(parts: Seq<PartView>, k: int)
    requires
        0 <= k <= parts.len(),
    ensures
        part_counts(parts.take(k)).0 <= part_counts(parts).0,
        part_counts(parts.take(k)).1 <= part_counts(parts).1,
        part_counts(parts.take(k)).2 <= part_counts(parts).2,
    decreases parts.len() - k,
{
    if k < parts.len() {
        assert(parts.drop_last().take(k) =~= parts.take(k));
        lemma_part_counts_prefix(parts.drop_last(), k);
    } else {
        assert(parts.take(k) =~= parts);
    }
}

/// `(a, b, c)` and `(d, e, f)` added component by component.
pub open spec fn add3(x: (nat, nat, nat), y: (nat, nat, nat)) -> (nat, nat, nat) {
    ((x.0 + y.0) as nat, (x.1 + y.1) as nat, (x.2 + y.2) as nat)
}

proof fn lemma_part_counts_concat(p1: Seq<PartView>, p2: Seq<PartView>)
    ensures
        part_counts(p1 + p2) == add3(part_counts(p1), part_counts(p2)),
    decreases p2.len(),
{
    if p2.len() == 0 {
        assert(p1 + p2 =~= p1);
    } else {
        assert((p1 + p2).drop_last() =~= p1 + p2.drop_last());
        lemma_part_counts_concat(p1, p2.drop_last());
    }
}

proof fn lemma_chain_counts_concat(c1: Seq<Seq<PartView>>, c2: Seq<Seq<PartView>>)
    ensures
        chain_counts(c1 + c2) == add3(chain_counts(c1), chain_counts(c2)),
    decreases c2.len(),
{
    if c2.len() == 0 {
        assert(c1 + c2 =~= c1);
    } else {
        assert((c1 + c2).drop_last() =~= c1 + c2.drop_last());
        lemma_chain_counts_concat(c1, c2.drop_last());
    }
}

proof fn lemma_part_counts_perm(p1: Seq<PartView>, p2: Seq<PartView>)
    requires
        p1.to_multiset() == p2.to_multiset(),
    ensures
        part_counts(p1) == part_counts(p2),
    decreases p1.len(),
{
    broadcast use vstd::seq_lib::group_to_multiset_ensures;

    if p1.len() == 0 {
        assert(p2.to_multiset().len() == 0);
        assert(p2 =~= p1);
    } else {
        let x = p1.last();
        assert(p1.drop_last().push(x) =~= p1);
        assert(p1.to_multiset().count(x) > 0);
        assert(p2.contains(x));
        let j = choose|j: int| 0 <= j < p2.len() && p2[j] == x;
        let d = p2.remove(j);
        assert(d.to_multiset() =~= p1.drop_last().to_multiset());
        lemma_part_counts_perm(p1.drop_last(), d);
        assert(d =~= p2.take(j) + p2.skip(j + 1));
        assert(p2 =~= p2.take(j) + (seq![x] + p2.skip(j + 1)));
        lemma_part_counts_concat(p2.take(j), seq![x] + p2.skip(j + 1));
        lemma_part_counts_concat(seq![x], p2.skip(j + 1));
        lemma_part_counts_concat(p2.take(j), p2.skip(j + 1));
        lemma_part_counts_concat(p1.drop_last(), seq![x]);
        assert(p1.drop_last() + seq![x] =~= p1);
        assert(seq![x].drop_last() =~= Seq::<PartView>::empty());
    }
}

proof fn lemma_chain_counts_perm(c1: Seq<Seq<PartView>>, c2: Seq<Seq<PartView>>)
    requires
        c1.to_multiset() == c2.to_multiset(),
    ensures
        chain_counts(c1) == chain_counts(c2),
    decreases c1.len(),
{
    broadcast use vstd::seq_lib::group_to_multiset_ensures;

    if c1.len() == 0 {
        assert(c2.to_multiset().len() == 0);
        assert(c2 =~= c1);
    } else {
        let x = c1.last();
        assert(c1.drop_last().push(x) =~= c1);
        assert(c1.to_multiset().count(x) > 0);
        assert(c2.contains(x));
        let j = choose|j: int| 0 <= j < c2.len() && c2[j] == x;
        let d = c2.remove(j);
        assert(d.to_multiset() =~= c1.drop_last().to_multiset());
        lemma_chain_counts_perm(c1.drop_last(), d);
        assert(d =~= c2.take(j) + c2.skip(j + 1));
        assert(c2 =~= c2.take(j) + (seq![x] + c2.skip(j + 1)));
        lemma_chain_counts_concat(c2.take(j), seq![x] + c2.skip(j + 1));
        lemma_chain_counts_concat(seq![x], c2.skip(j + 1));
        lemma_chain_counts_concat(c2.take(j), c2.skip(j + 1));
        lemma_chain_counts_concat(c1.drop_last(), seq![x]);
        assert(c1.drop_last() + seq![x] =~= c1);
        assert(seq![x].drop_last() =~= Seq::<Seq<PartView>>::empty());
    }
}

/// Specificity adds up: a selector with no compound selectors counts
/// `(0, 0, 0)`; joining two chains adds their counts component by component;
/// and reordering the compound selectors of a chain, or the parts of one
/// compound selector, leaves the counts unchanged.
pub proof fn lemma_specificity_sums(
    c1: Seq<Seq<PartView>>,
    c2: Seq<Seq<PartView>>,
    c3: Seq<Seq<PartView>>,
    p1: Seq<PartView>,
    p2: Seq<PartView>,
)
    ensures
        chain_counts(Seq::<Seq<PartView>>::empty()) == (0nat, 0nat, 0nat),
        chain_counts(c1 + c2) == add3(chain_counts(c1), chain_counts(c2)),
        c1.to_multiset() == c3.to_multiset() ==> chain_counts(c1) == chain_counts(c3),
        p1.to_multiset() == p2.to_multiset() ==> part_counts(p1) == part_counts(p2),
{
    lemma_chain_counts_concat(c1, c2);
    if c1.to_multiset() == c3.to_multiset() {
        lemma_chain_counts_perm(c1, c3);
    }
    if p1.to_multiset() == p2.to_multiset() {
        lemma_part_counts_perm(p1, p2);
    }
}

// ---------------------------------------------------------------------------
// What the parser reads
// ---------------------------------------------------------------------------

/// Characters allowed in names: alphanumerics, `-` and `_`.
pub open spec fn is_ident(c: char) -> bool {
    is_alnum(c) || c == '-' || c == '_'
}

/// The end of the run of name characters at `i`.
pub open spec fn ident_end(s: Seq<char>, i: int) -> int
    decreases s.len() - i,
{
    if 0 <= i < s.len() && is_ident(s[i]) {
        ident_end(s, i + 1)
    } else {
        i
    }
}

/// The first index at or after `i` holding `a` or `b` (or the end).
pub open spec fn stop_at(s: Seq<char>, i: int, a: char, b: char) -> int
    decreases s.len() - i,
{
    if 0 <= i < s.len() && s[i] != a && s[i] != b {
        stop_at(s, i + 1, a, b)
    } else {
        i
    }
}

/// The end of the run of whitespace at `i`.
pub open spec fn ws_end(s: Seq<char>, i: int) -> int
    decreases s.len() - i,
{
    if 0 <= i < s.len() && is_ws(s[i]) {
        ws_end(s, i + 1)
    } else {
        i
    }
}

/// Inside a comment that started before `i`: the index of its closing `*/`, or the end.
pub open spec fn comment_close(s: Seq<char>, i: int) -> int
    decreases s.len() - i,
{
    if i < 0 || i >= s.len() {
        i
    } else if s[i] == '*' && i + 1 < s.len() && s[i + 1] == '/' {
        i
    } else {
        comment_close(s, i + 1)
    }
}

/// Whether a `/*` comment opens at `j`.
pub open spec fn comment_opens(s: Seq<char>, j: int) -> bool {
    0 <= j && j + 1 < s.len() && s[j] == '/' && s[j + 1] == '*'
}

/// Skips whitespace and `/* ... */` comments from `i`.
pub open spec fn skip_wsc(s: Seq<char>, i: int) -> int
    decreases s.len() - i,
{
    let j = ws_end(s, i);
    if comment_opens(s, j) {
        let c = comment_close(s, j + 2) + 2;
        let k = if c < s.len() {
            c
        } else {
            s.len() as int
        };
        if k <= i {
            k
        } else {
            skip_wsc(s, k)
        }
    } else {
        j
    }
}

/// The parts of a compound selector read from `i`, and the position after them.
pub open spec fn simple_parts(s: Seq<char>, i: int) -> (Seq<PartView>, int)
    decreases s.len() - i,
{
    if i < 0 || i >= s.len() {
        (Seq::empty(), i)
    } else {
        let c = s[i];
        if c == '*' {
            let r = simple_parts(s, i + 1);
            (seq![PartView::Universal] + r.0, r.1)
        } else if c == '#' || c == '.' {
            let j = ident_end(s, i + 1);
            let name = s.subrange(i + 1, j);
            let part = if c == '#' {
                PartView::Id(name)
            } else {
                PartView::Class(name)
            };
            if j <= i || j > s.len() {
                (seq![part], j)
            } else {
                let r = simple_parts(s, j);
                (seq![part] + r.0, r.1)
            }
        } else if is_ident(c) {
            let j = ident_end(s, i);
            let part = PartView::Tag(lowercase(s.subrange(i, j)));
            if j <= i || j > s.len() {
                (seq![part], j)
            } else {
                let r = simple_parts(s, j);
                (seq![part] + r.0, r.1)
            }
        } else {
            (Seq::empty(), i)
        }
    }
}

/// A compound selector read from `i`: its parts, or `*` when there are none.
pub open spec fn simple_selector(s: Seq<char>, i: int) -> (Seq<PartView>, int) {
    let r = simple_parts(s, i);
    if r.0.len() == 0 {
        (seq![PartView::Universal], r.1)
    } else {
        r
    }
}

/// The compound selectors after the first one, each after whitespace (the
/// descendant combinator), up to the end, a `,` or a `{`.
pub open spec fn selector_rest(s: Seq<char>, i: int) -> (Seq<Seq<PartView>>, int)
    decreases s.len() - i,
{
    let j = skip_wsc(s, i);
    if j >= s.len() || s[j] == ',' || s[j] == '{' || j <= i {
        (Seq::empty(), j)
    } else {
        let ss = simple_selector(s, j);
        if ss.1 <= i || ss.1 > s.len() {
            (seq![ss.0], ss.1)
        } else {
            let r = selector_rest(s, ss.1);
            (seq![ss.0] + r.0, r.1)
        }
    }
}

/// A selector read from `i`.
pub open spec fn selector(s: Seq<char>, i: int) -> (Seq<Seq<PartView>>, int) {
    let first = simple_selector(s, i);
    let rest = selector_rest(s, first.1);
    (seq![first.0] + rest.0, rest.1)
}

/// A comma-separated list of selectors read from `i`.
pub open spec fn selector_list(s: Seq<char>, i: int) -> (Seq<Seq<Seq<PartView>>>, int)
    decreases s.len() - i,
{
    let a = skip_wsc(s, i);
    let sel = selector(s, a);
    let c = skip_wsc(s, sel.1);
    if 0 <= c < s.len() && s[c] == ',' {
        if c + 1 <= i || c + 1 > s.len() {
            (seq![sel.0], c + 1)
        } else {
            let r = selector_list(s, c + 1);
            (seq![sel.0] + r.0, r.1)
        }
    } else {
        (seq![sel.0], c)
    }
}

/// Where the value of a declaration whose name ends at `n` starts.
pub open spec fn after_colon(s: Seq<char>, n: int) -> int {
    if 0 <= n < s.len() && s[n] == ':' {
        n + 1
    } else {
        n
    }
}

/// Where the next declaration starts after a value ending at `v`.
pub open spec fn after_semicolon(s: Seq<char>, v: int) -> int {
    if 0 <= v < s.len() && s[v] == ';' {
        v + 1
    } else {
        v
    }
}

/// The declaration read at `a` (if its name is not empty) and where it ends.
pub open spec fn declaration_at(s: Seq<char>, a: int) -> (Seq<(Seq<char>, Seq<char>)>, int) {
    let n = stop_at(s, a, ':', '}');
    let name = trim(s.subrange(a, n));
    let p = after_colon(s, n);
    let v = stop_at(s, p, ';', '}');
    let value = trim(s.subrange(p, v));
    let q = after_semicolon(s, v);
    if name.len() > 0 {
        (seq![(lowercase(name), value)], q)
    } else {
        (Seq::empty(), q)
    }
}

/// Declarations read from `i` up to the end or a `}`.
pub open spec fn declaration_list(s: Seq<char>, i: int) -> (Seq<(Seq<char>, Seq<char>)>, int)
    decreases s.len() - i,
{
    let a = skip_wsc(s, i);
    if a >= s.len() || s[a] == '}' || a < i {
        (Seq::empty(), a)
    } else {
        let d = declaration_at(s, a);
        if d.1 <= i || d.1 > s.len() {
            d
        } else {
            let r = declaration_list(s, d.1);
            (d.0 + r.0, r.1)
        }
    }
}

/// A declaration block read from `i`: an optional `{`, declarations, an optional `}`.
pub open spec fn declaration_block(s: Seq<char>, i: int) -> (Seq<(Seq<char>, Seq<char>)>, int) {
    let a = skip_wsc(s, i);
    let b = if 0 <= a < s.len() && s[a] == '{' {
        a + 1
    } else {
        a
    };
    let d = declaration_list(s, b);
    let e = if 0 <= d.1 < s.len() && s[d.1] == '}' {
        d.1 + 1
    } else {
        d.1
    };
    (d.0, e)
}

/// A rule read from `i`.
pub open spec fn rule(s: Seq<char>, i: int) -> (RuleView, int) {
    let sels = selector_list(s, i);
    let decls = declaration_block(s, sels.1);
    (RuleView { selectors: sels.0, declarations: decls.0 }, decls.1)
}

/// The rules read from `i` to the end.
pub open spec fn rule_list(s: Seq<char>, i: int) -> Seq<RuleView>
    decreases s.len() - i,
{
    let a = skip_wsc(s, i);
    if a >= s.len() || a < i {
        Seq::empty()
    } else {
        let r = rule(s, a);
        if r.1 <= i || r.1 > s.len() {
            seq![r.0]
        } else {
            seq![r.0] + rule_list(s, r.1)
        }
    }
}

/// The style sheet that `source` describes.
pub open spec fn parse_spec(source: Seq<char>) -> Seq<RuleView> {
    rule_list(source, 0)
}

// ---------------------------------------------------------------------------
// Positions only move forward and stay within the input
// ---------------------------------------------------------------------------

pub(crate) proof fn lemma_ident_end(s: Seq<char>, i: int)
    requires
        0 <= i <= s.len(),
    ensures
        i <= ident_end(s, i) <= s.len(),
        forall|k: int| i <= k < ident_end(s, i) ==> is_ident(#[trigger] s[k]),
        ident_end(s, i) < s.len() ==> !is_ident(s[ident_end(s, i)]),
    decreases s.len() - i,
{
    if i < s.len() && is_ident(s[i]) {
        lemma_ident_end(s, i + 1);
    }
}

pub(crate) proof fn lemma_stop_at(s: Seq<char>, i: int, a: char, b: char)
    requires
        0 <= i <= s.len(),
    ensures
        i <= stop_at(s, i, a, b) <= s.len(),
        forall|k: int| i <= k < stop_at(s, i, a, b) ==> #[trigger] s[k] != a && s[k] != b,
        stop_at(s, i, a, b) < s.len() ==> (s[stop_at(s, i, a, b)] == a || s[stop_at(
            s,
            i,
            a,
            b,
        )] == b),
    decreases s.len() - i,
{
    if i < s.len() && s[i] != a && s[i] != b {
        lemma_stop_at(s, i + 1, a, b);
    }
}

pub(crate) proof fn lemma_ws_end(s: Seq<char>, i: int)
    requires
        0 <= i <= s.len(),
    ensures
        i <= ws_end(s, i) <= s.len(),
        ws_end(s, i) < s.len() ==> !is_ws(s[ws_end(s, i)]),
    decreases s.len() - i,
{
    if i < s.len() && is_ws(s[i]) {
        lemma_ws_end(s, i + 1);
    }
}

pub(crate) proof fn lemma_comment_close(s: Seq<char>, i: int)
    requires
        0 <= i <= s.len(),
    ensures
        i <= comment_close(s, i) <= s.len(),
    decreases s.len() - i,
{
    if i < s.len() && !(s[i] == '*' && i + 1 < s.len() && s[i + 1] == '/') {
        lemma_comment_close(s, i + 1);
    }
}

pub(crate) proof fn lemma_skip_wsc(s: Seq<char>, i: int)
    requires
        0 <= i <= s.len(),
    ensures
        i <= skip_wsc(s, i) <= s.len(),
        skip_wsc(s, i) < s.len() ==> !is_ws(s[skip_wsc(s, i)]) && !comment_opens(
            s,
            skip_wsc(s, i),
        ),
    decreases s.len() - i,
{
    lemma_ws_end(s, i);
    let j = ws_end(s, i);
    if comment_opens(s, j) {
        lemma_comment_close(s, j + 2);
        let c = comment_close(s, j + 2) + 2;
        let k = if c < s.len() {
            c
        } else {
            s.len() as int
        };
        if k > i {
            lemma_skip_wsc(s, k);
        }
    }
}

pub(crate) proof fn lemma_simple_parts(s: Seq<char>, i: int)
    requires
        0 <= i <= s.len(),
    ensures
        i <= simple_parts(s, i).1 <= s.len(),
    decreases s.len() - i,
{
    if i < s.len() {
        let c = s[i];
        if c == '*' {
            lemma_simple_parts(s, i + 1);
        } else if c == '#' || c == '.' {
            lemma_ident_end(s, i + 1);
            lemma_simple_parts(s, ident_end(s, i + 1));
        } else if is_ident(c) {
            lemma_ident_end(s, i);
            lemma_simple_parts(s, ident_end(s, i));
        }
    }
}

pub(crate) proof fn lemma_selector_rest(s: Seq<char>, i: int)
    requires
        0 <= i <= s.len(),
    ensures
        i <= selector_rest(s, i).1 <= s.len(),
    decreases s.len() - i,
{
    lemma_skip_wsc(s, i);
    let j = skip_wsc(s, i);
    if !(j >= s.len() || s[j] == ',' || s[j] == '{' || j <= i) {
        lemma_simple_parts(s, j);
        let ss = simple_selector(s, j);
        if !(ss.1 <= i || ss.1 > s.len()) {
            lemma_selector_rest(s, ss.1);
        }
    }
}

pub(crate) proof fn lemma_selector(s: Seq<char>, i: int)
    requires
        0 <= i <= s.len(),
    ensures
        i <= selector(s, i).1 <= s.len(),
{
    lemma_simple_parts(s, i);
    lemma_selector_rest(s, simple_selector(s, i).1);
}

pub(crate) proof fn lemma_selector_list(s: Seq<char>, i: int)
    requires
        0 <= i <= s.len(),
    ensures
        i <= selector_list(s, i).1 <= s.len(),
    decreases s.len() - i,
{
    lemma_skip_wsc(s, i);
    let a = skip_wsc(s, i);
    lemma_selector(s, a);
    let sel = selector(s, a);
    lemma_skip_wsc(s, sel.1);
    let c = skip_wsc(s, sel.1);
    if 0 <= c < s.len() && s[c] == ',' {
        if !(c + 1 <= i || c + 1 > s.len()) {
            lemma_selector_list(s, c + 1);
        }
    }
}

/// A declaration always consumes something when it does not start at a `}`.
pub(crate) proof fn lemma_declaration_at(s: Seq<char>, a: int)
    requires
        0 <= a < s.len(),
        s[a] != '}',
    ensures
        a < declaration_at(s, a).1 <= s.len(),
{
    lemma_stop_at(s, a, ':', '}');
    let n = stop_at(s, a, ':', '}');
    let p = after_colon(s, n);
    lemma_stop_at(s, p, ';', '}');
}

pub(crate) proof fn lemma_declaration_list(s: Seq<char>, i: int)
    requires
        0 <= i <= s.len(),
    ensures
        i <= declaration_list(s, i).1 <= s.len(),
    decreases s.len() - i,
{
    lemma_skip_wsc(s, i);
    let a = skip_wsc(s, i);
    if !(a >= s.len() || s[a] == '}' || a < i) {
        lemma_declaration_at(s, a);
        let d = declaration_at(s, a);
        if !(d.1 <= i || d.1 > s.len()) {
            lemma_declaration_list(s, d.1);
        }
    }
}

pub(crate) proof fn lemma_declaration_block(s: Seq<char>, i: int)
    requires
        0 <= i <= s.len(),
    ensures
        i <= declaration_block(s, i).1 <= s.len(),
        skip_wsc(s, i) == i && i < s.len() ==> i < declaration_block(s, i).1,
{
    lemma_skip_wsc(s, i);
    let a = skip_wsc(s, i);
    let b = if 0 <= a < s.len() && s[a] == '{' {
        a + 1
    } else {
        a
    };
    lemma_declaration_list(s, b);
    if a == i && i < s.len() && s[a] != '{' {
        lemma_skip_wsc(s, b);
        if s[a] != '}' {
            lemma_declaration_at(s, a);
            let d = declaration_at(s, a);
            lemma_declaration_list(s, d.1);
        }
    }
}

/// Every rule read after skipped whitespace and comments consumes something,
/// so the parser always ends.
pub(crate) proof fn lemma_rule(s: Seq<char>, i: int)
    requires
        0 <= i < s.len(),
        skip_wsc(s, i) == i,
    ensures
        i < rule(s, i).1 <= s.len(),
{
    lemma_selector_list(s, i);
    let sels = selector_list(s, i);
    lemma_declaration_block(s, sels.1);
    if sels.1 == i {
        lemma_declaration_block(s, i);
    }
}

// ---------------------------------------------------------------------------
// The executable parser
// ---------------------------------------------------------------------------

fn is_ident_exec(c: char) -> (b: bool)
    ensures
        b == is_ident(c),
{
    is_alphanumeric(c) || c == '-' || c == '_'
}

fn ident_end_exec(s: &Vec<char>, i: usize) -> (j: usize)
    requires
        i <= s@.len(),
    ensures
        j == ident_end(s@, i as int),
{
    proof {
        lemma_ident_end(s@, i as int);
    }
    let mut j = i;
    while j < s.len() && is_ident_exec(s[j])
        invariant
            i <= j <= s@.len(),
            ident_end(s@, i as int) == ident_end(s@, j as int),
        decreases s.len() - j,
    {
        j = j + 1;
    }
    j
}

fn stop_at_exec(s: &Vec<char>, i: usize, a: char, b: char) -> (j: usize)
    requires
        i <= s@.len(),
    ensures
        j == stop_at(s@, i as int, a, b),
{
    proof {
        lemma_stop_at(s@, i as int, a, b);
    }
    let mut j = i;
    while j < s.len() && s[j] != a && s[j] != b
        invariant
            i <= j <= s@.len(),
            stop_at(s@, i as int, a, b) == stop_at(s@, j as int, a, b),
        decreases s.len() - j,
    {
        j = j + 1;
    }
    j
}

fn skip_wsc_exec(s: &Vec<char>, i: usize) -> (j: usize)
    requires
        i <= s@.len(),
    ensures
        j == skip_wsc(s@, i as int),
{
    proof {
        lemma_skip_wsc(s@, i as int);
    }
    let mut p = i;
    loop
        invariant
            i <= p <= s@.len(),
            skip_wsc(s@, i as int) == skip_wsc(s@, p as int),
        decreases s.len() - p,
    {
        let start = p;
        while p < s.len() && is_whitespace(s[p])
            invariant
                start <= p <= s@.len(),
                ws_end(s@, start as int) == ws_end(s@, p as int),
            decreases s.len() - p,
        {
            p = p + 1;
        }
        proof {
            lemma_ws_end(s@, start as int);
        }
        if s.len() > 0 && p < s.len() - 1 && s[p] == '/' && s[p + 1] == '*' {
            let mut q = p + 2;
            proof {
                lemma_comment_close(s@, q as int);
            }
            while q < s.len() && !(s[q] == '*' && q + 1 < s.len() && s[q + 1] == '/')
                invariant
                    p + 2 <= q <= s@.len(),
                    comment_close(s@, p + 2) == comment_close(s@, q as int),
                decreases s.len() - q,
            {
                q = q + 1;
            }
            let k = if s.len() >= 2 && q < s.len() - 2 {
                q + 2
            } else {
                s.len()
            };
            p = k;
        } else {
            return p;
        }
    }
}

fn simple_selector_exec(s: &Vec<char>, i: usize) -> (r: (SimpleSelector, usize))
    requires
        i <= s@.len(),
    ensures
        (r.0@, r.1 as int) == simple_selector(s@, i as int),
{
    proof {
        lemma_simple_parts(s@, i as int);
    }
    let mut parts: Vec<SimpleSelectorPart> = Vec::new();
    let mut p = i;
    loop
        invariant
            i <= p <= s@.len(),
            simple_parts(s@, i as int) == (
                parts@.map_values(|q: SimpleSelectorPart| q@) + simple_parts(s@, p as int).0,
                simple_parts(s@, p as int).1,
            ),
        ensures
            simple_parts(s@, p as int).0 =~= Seq::<PartView>::empty(),
            simple_parts(s@, p as int).1 == p,
        decreases s.len() - p,
    {
        let ghost before = parts@.map_values(|q: SimpleSelectorPart| q@);
        if p >= s.len() {
            break;
        }
        let c = s[p];
        if c == '*' {
            parts.push(SimpleSelectorPart::Universal);
            p = p + 1;
        } else if c == '#' || c == '.' {
            let j = ident_end_exec(s, p + 1);
            proof {
                lemma_ident_end(s@, p + 1);
            }
            let name = string_of(&sub_chars(s, p + 1, j));
            if c == '#' {
                parts.push(SimpleSelectorPart::Id(name));
            } else {
                parts.push(SimpleSelectorPart::Class(name));
            }
            p = j;
        } else if is_ident_exec(c) {
            let j = ident_end_exec(s, p);
            proof {
                lemma_ident_end(s@, p as int);
            }
            let low = to_lowercase(&sub_chars(s, p, j));
            parts.push(SimpleSelectorPart::Tag(string_of(&low)));
            p = j;
        } else {
            break;
        }
        proof {
            let after = parts@.map_values(|q: SimpleSelectorPart| q@);
            assert(after =~= before + seq![after.last()]);
            assert forall|x: Seq<PartView>| #![auto] (before + seq![after.last()]) + x =~= before + (
            seq![after.last()] + x) by {}
        }
    }
    let ghost got = parts@.map_values(|q: SimpleSelectorPart| q@);
    assert(got + Seq::<PartView>::empty() =~= got);
    if parts.len() == 0 {
        parts.push(SimpleSelectorPart::Universal);
        assert(parts@.map_values(|q: SimpleSelectorPart| q@) =~= seq![PartView::Universal]);
    }
    (SimpleSelector { parts }, p)
}

fn selector_exec(s: &Vec<char>, i: usize) -> (r: (Selector, usize))
    requires
        i <= s@.len(),
    ensures
        (r.0@, r.1 as int) == selector(s@, i as int),
{
    let (first, p0) = simple_selector_exec(s, i);
    proof {
        lemma_simple_parts(s@, i as int);
    }
    let mut chain: Vec<SimpleSelector> = Vec::new();
    chain.push(first);
    let mut p = p0;
    assert(chain@.map_values(|x: SimpleSelector| x@) =~= seq![simple_selector(s@, i as int).0]);
    loop
        invariant
            i <= p <= s@.len(),
            selector(s@, i as int) == (
                chain@.map_values(|x: SimpleSelector| x@) + selector_rest(s@, p as int).0,
                selector_rest(s@, p as int).1,
            ),
        decreases s.len() - p,
    {
        let ghost before = chain@.map_values(|x: SimpleSelector| x@);
        let start = p;
        let j = skip_wsc_exec(s, p);
        proof {
            lemma_skip_wsc(s@, p as int);
        }
        if j >= s.len() || s[j] == ',' || s[j] == '{' || j == start {
            assert(before + Seq::<Seq<PartView>>::empty() =~= before);
            return (Selector { chain }, j);
        }
        let (next, k) = simple_selector_exec(s, j);
        proof {
            lemma_simple_parts(s@, j as int);
        }
        chain.push(next);
        p = k;
        proof {
            let after = chain@.map_values(|x: SimpleSelector| x@);
            assert(after =~= before + seq![after.last()]);
            assert forall|x: Seq<Seq<PartView>>| #![auto] (before + seq![after.last()]) + x =~= before
                + (seq![after.last()] + x) by {}
        }
    }
}

fn selector_list_exec(s: &Vec<char>, i: usize) -> (r: (Vec<Selector>, usize))
    requires
        i <= s@.len(),
    ensures
        (r.0@.map_values(|x: Selector| x@), r.1 as int) == selector_list(s@, i as int),
{
    let mut sels: Vec<Selector> = Vec::new();
    let mut p = i;
    assert(sels@.map_values(|x: Selector| x@) + selector_list(s@, p as int).0 =~= selector_list(
        s@,
        i as int,
    ).0);
    loop
        invariant
            i <= p <= s@.len(),
            selector_list(s@, i as int) == (
                sels@.map_values(|x: Selector| x@) + selector_list(s@, p as int).0,
                selector_list(s@, p as int).1,
            ),
        decreases s.len() - p,
    {
        let ghost before = sels@.map_values(|x: Selector| x@);
        let a = skip_wsc_exec(s, p);
        proof {
            lemma_skip_wsc(s@, p as int);
        }
        let (sel, b) = selector_exec(s, a);
        proof {
            lemma_selector(s@, a as int);
        }
        let c = skip_wsc_exec(s, b);
        proof {
            lemma_skip_wsc(s@, b as int);
        }
        sels.push(sel);
        proof {
            let after = sels@.map_values(|x: Selector| x@);
            assert(after =~= before + seq![after.last()]);
            assert forall|x: Seq<Seq<Seq<PartView>>>| #![auto] (before + seq![after.last()]) + x
                =~= before + (seq![after.last()] + x) by {}
        }
        if c < s.len() && s[c] == ',' {
            p = c + 1;
        } else {
            let ghost after = sels@.map_values(|x: Selector| x@);
            assert(after + Seq::<Seq<Seq<PartView>>>::empty() =~= after);
            return (sels, c);
        }
    }
}

fn declaration_list_exec(s: &Vec<char>, i: usize) -> (r: (Vec<Declaration>, usize))
    requires
        i <= s@.len(),
    ensures
        (r.0@.map_values(|d: Declaration| d@), r.1 as int) == declaration_list(s@, i as int),
{
    let mut decls: Vec<Declaration> = Vec::new();
    let mut p = i;
    assert(decls@.map_values(|d: Declaration| d@) + declaration_list(s@, p as int).0
        =~= declaration_list(s@, i as int).0);
    loop
        invariant
            i <= p <= s@.len(),
            declaration_list(s@, i as int) == (
                decls@.map_values(|d: Declaration| d@) + declaration_list(s@, p as int).0,
                declaration_list(s@, p as int).1,
            ),
        decreases s.len() - p,
    {
        let ghost before = decls@.map_values(|d: Declaration| d@);
        let a = skip_wsc_exec(s, p);
        proof {
            lemma_skip_wsc(s@, p as int);
        }
        if a >= s.len() || s[a] == '}' {
            assert(before + Seq::<(Seq<char>, Seq<char>)>::empty() =~= before);
            return (decls, a);
        }
        proof {
            lemma_declaration_at(s@, a as int);
            lemma_stop_at(s@, a as int, ':', '}');
        }
        let n = stop_at_exec(s, a, ':', '}');
        let name = trim_vec(&sub_chars(s, a, n));
        let q0 = if n < s.len() && s[n] == ':' {
            n + 1
        } else {
            n
        };
        proof {
            lemma_stop_at(s@, q0 as int, ';', '}');
        }
        let v = stop_at_exec(s, q0, ';', '}');
        let value = trim_vec(&sub_chars(s, q0, v));
        let q = if v < s.len() && s[v] == ';' {
            v + 1
        } else {
            v
        };
        let ghost d = declaration_at(s@, a as int);
        if name.len() > 0 {
            let low = to_lowercase(&name);
            decls.push(Declaration { name: string_of(&low), value: string_of(&value) });
        }
        proof {
            let after = decls@.map_values(|d: Declaration| d@);
            assert(after =~= before + d.0);
            assert forall|x: Seq<(Seq<char>, Seq<char>)>| #![auto] (before + d.0) + x =~= before + (
            d.0 + x) by {}
        }
        p = q;
    }
}

fn declaration_block_exec(s: &Vec<char>, i: usize) -> (r: (Vec<Declaration>, usize))
    requires
        i <= s@.len(),
    ensures
        (r.0@.map_values(|d: Declaration| d@), r.1 as int) == declaration_block(s@, i as int),
{
    let a = skip_wsc_exec(s, i);
    proof {
        lemma_skip_wsc(s@, i as int);
    }
    let b = if a < s.len() && s[a] == '{' {
        a + 1
    } else {
        a
    };
    let (decls, d) = declaration_list_exec(s, b);
    proof {
        lemma_declaration_list(s@, b as int);
    }
    let e = if d < s.len() && s[d] == '}' {
        d + 1
    } else {
        d
    };
    (decls, e)
}

fn rule_exec(s: &Vec<char>, i: usize) -> (r: (Rule, usize))
    requires
        i <= s@.len(),
    ensures
        (r.0@, r.1 as int) == rule(s@, i as int),
{
    let (selectors, p) = selector_list_exec(s, i);
    proof {
        lemma_selector_list(s@, i as int);
    }
    let (declarations, q) = declaration_block_exec(s, p);
    (Rule { selectors, declarations }, q)
}

/// Parses a style sheet.
pub fn parse(source: String) -> (r: Stylesheet)
    ensures
        r@ == parse_spec(source@),
{
    let s = chars_of(source.as_str());
    let mut rules: Vec<Rule> = Vec::new();
    let mut p: usize = 0;
    assert(rules@.map_values(|r: Rule| r@) + rule_list(s@, 0) =~= rule_list(s@, 0));
    loop
        invariant
            p <= s@.len(),
            s@ == source@,
            rule_list(s@, 0) == rules@.map_values(|r: Rule| r@) + rule_list(s@, p as int),
        decreases s.len() - p,
    {
        let ghost before = rules@.map_values(|r: Rule| r@);
        let a = skip_wsc_exec(&s, p);
        proof {
            lemma_skip_wsc(s@, p as int);
        }
        if a >= s.len() {
            assert(before + Seq::<RuleView>::empty() =~= before);
            let r = Stylesheet { rules };
            assert(r@ =~= before);
            return r;
        }
        let (rule, b) = rule_exec(&s, a);
        proof {
            lemma_skip_wsc(s@, a as int);
            lemma_rule(s@, a as int);
        }
        rules.push(rule);
        proof {
            let after = rules@.map_values(|r: Rule| r@);
            assert(after =~= before + seq![after.last()]);
            assert((before + seq![after.last()]) + rule_list(s@, b as int) =~= before + (seq![
                after.last(),
            ] + rule_list(s@, b as int)));
        }
        p = b;
    }
}

} // verus!

verus! {

/// A class part (`.name`) or an id part (`#name`) holds the name exactly as
/// written, case included: the whole run of name characters after the dot or
/// hash.
pub proof fn lemma_class_and_id_parts(s: Seq<char>, i: int)
    requires
        0 <= i < s.len(),
        s[i] == '.' || s[i] == '#',
    ensures
        ({
            let j = ident_end(s, i + 1);
            let name = s.subrange(i + 1, j);
            &&& i + 1 <= j <= s.len()
            &&& forall|k: int| 0 <= k < name.len() ==> is_ident(#[trigger] name[k])
            &&& j < s.len() ==> !is_ident(s[j])
            &&& simple_parts(s, i).0.len() > 0
            &&& s[i] == '.' ==> simple_parts(s, i).0[0] == PartView::Class(name)
            &&& s[i] == '#' ==> simple_parts(s, i).0[0] == PartView::Id(name)
        }),
{
    lemma_ident_end(s, i + 1);
    let j = ident_end(s, i + 1);
    let name = s.subrange(i + 1, j);
    assert forall|k: int| 0 <= k < name.len() implies is_ident(#[trigger] name[k]) by {
        assert(name[k] == s[i + 1 + k]);
    }
}

/// A tag part is the whole run of name characters at `i`, in lower case, so
/// that tags match whatever case they were written in.
pub proof fn lemma_tag_part(s: Seq<char>, i: int)
    requires
        0 <= i < s.len(),
        is_ident(s[i]),
        s[i] != '*' && s[i] != '#' && s[i] != '.',
    ensures
        ({
            let j = ident_end(s, i);
            &&& i + 1 <= j <= s.len()
            &&& j < s.len() ==> !is_ident(s[j])
            &&& simple_parts(s, i).0.len() > 0
            &&& simple_parts(s, i).0[0] == PartView::Tag(lowercase(s.subrange(i, j)))
        }),
{
    lemma_ident_end(s, i);
    assert(ident_end(s, i) == ident_end(s, i + 1));
    lemma_ident_end(s, i + 1);
}

} // verus!
