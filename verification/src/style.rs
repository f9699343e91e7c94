//! Selector matching, the cascade and inheritance: from a document tree and
//! a style sheet to the tree of specified values.
//!
//! Matched rules apply in order of specificity, then of source order, so that
//! a later or more specific rule overrides; a `style` attribute applies last.
//! Properties that inherit and that an element does not set come from its
//! parent.
use vstd::prelude::*;
use crate::css::{
    chain_counts, chain_size, parse, parse_spec, PartView, RuleView, Selector,
    SimpleSelectorPart, Stylesheet,
};
use crate::html::{
    assoc_distinct, assoc_find, assoc_get, assoc_insert, lemma_assoc_find, lemma_assoc_insert_distinct,
    lemma_assoc_insert_get, class_name, id_name, kind_view, lemma_node_view_children, node_view,
    views, AttrMap, Attrs, ElementData, KindView, Node, NodeType, NodeView, chars_eq,
};
use crate::text::{chars_of, string_of, trim, words, words_vec};

verus! {

/// Specified values: property name to value.
pub type PropertyMap = AttrMap;

// ---------------------------------------------------------------------------
// Matching
// ---------------------------------------------------------------------------

/// What selectors read of an element: its tag, its `id`, its classes.
pub struct ElemView {
    pub tag: Seq<char>,
    pub id: Option<Seq<char>>,
    pub classes: Seq<Seq<char>>,
}

/// What selectors read of an element, held as characters.
pub struct ElemKey {
    pub tag: Vec<char>,
    pub id: Option<Vec<char>>,
    pub classes: Vec<Vec<char>>,
}

impl View for ElemKey {
    type V = ElemView;

    open spec fn view(&self) -> ElemView {
        ElemView {
            tag: self.tag@,
            id: match self.id {
                Some(v) => Some(v@),
                None => None,
            },
            classes: self.classes@.map_values(|c: Vec<char>| c@),
        }
    }
}

/// The views of a stack of elements.
pub open spec fn elem_views(v: Seq<ElemKey>) -> Seq<ElemView> {
    v.map_values(|k: ElemKey| k@)
}

/// What selectors read of an element with this tag and these attributes.
pub open spec fn elem_view_of(tag: Seq<char>, attrs: Attrs) -> ElemView {
    ElemView {
        tag,
        id: assoc_get(attrs, id_name()),
        classes: match assoc_get(attrs, class_name()) {
            Some(v) => words(v),
            None => Seq::empty(),
        },
    }
}

/// Whether one selector part holds of an element.
pub open spec fn part_ok(p: PartView, e: ElemView) -> bool {
    match p {
        PartView::Universal => true,
        PartView::Tag(t) => t == e.tag,
        PartView::Id(i) => e.id == Some(i),
        PartView::Class(c) => e.classes.contains(c),
    }
}

/// Whether every part of a compound selector holds of an element.
pub open spec fn matches_simple(e: ElemView, parts: Seq<PartView>) -> bool {
    forall|i: int| 0 <= i < parts.len() ==> #[trigger] part_ok(parts[i], e)
}

/// The nearest ancestor below index `hi` that `parts` matches, or -1.
/// Ancestors are listed from the root down to the parent.
pub open spec fn nearest_match(anc: Seq<ElemView>, hi: int, parts: Seq<PartView>) -> int
    decreases hi,
{
    if hi <= 0 {
        -1
    } else if matches_simple(anc[hi - 1], parts) {
        hi - 1
    } else {
        nearest_match(anc, hi - 1, parts)
    }
}

/// Whether `chain[0..k]` is found among the ancestors below `hi`, the last
/// compound first and nearest first, each further out than the one before.
pub open spec fn ancestors_match(
    anc: Seq<ElemView>,
    hi: int,
    chain: Seq<Seq<PartView>>,
    k: int,
) -> bool
    decreases k,
{
    if k <= 0 {
        true
    } else {
        let j = nearest_match(anc, hi, chain[k - 1]);
        j >= 0 && ancestors_match(anc, j, chain, k - 1)
    }
}

/// Whether a selector matches an element with these ancestors (root first).
pub open spec fn matches_selector(
    e: ElemView,
    anc: Seq<ElemView>,
    chain: Seq<Seq<PartView>>,
) -> bool {
    &&& chain.len() > 0
    &&& matches_simple(e, chain.last())
    &&& ancestors_match(anc, anc.len() as int, chain, chain.len() - 1)
}

fn part_ok_exec(p: &SimpleSelectorPart, e: &ElemKey) -> (r: bool)
    ensures
        r == part_ok(p@, e@),
{
    match p {
        SimpleSelectorPart::Universal => true,
        SimpleSelectorPart::Tag(t) => {
            let tc = chars_of(t.as_str());
            chars_eq(&tc, &e.tag)
        },
        SimpleSelectorPart::Id(i) => {
            match &e.id {
                Some(v) => {
                    let ic = chars_of(i.as_str());
                    chars_eq(&ic, v)
                },
                None => false,
            }
        },
        SimpleSelectorPart::Class(c) => {
            let cc = chars_of(c.as_str());
            assert(p@ == PartView::Class(cc@));
            let ghost cls = e@.classes;
            let mut j: usize = 0;
            while j < e.classes.len()
                invariant
                    p@ == PartView::Class(cc@),
                    cls == e@.classes,
                    j <= cls.len(),
                    forall|t: int| 0 <= t < j ==> cls[t] != cc@,
                decreases e.classes.len() - j,
            {
                assert(cls[j as int] == e.classes@[j as int]@);
                if chars_eq(&e.classes[j], &cc) {
                    assert(cls[j as int] == cc@);
                    assert(cls.contains(cc@));
                    return true;
                }
                j = j + 1;
            }
            assert(!cls.contains(cc@));
            false
        },
    }
}

fn matches_simple_exec(e: &ElemKey, sel: &crate::css::SimpleSelector) -> (r: bool)
    ensures
        r == matches_simple(e@, sel@),
{
    let ghost parts = sel@;
    let mut i: usize = 0;
    while i < sel.parts.len()
        invariant
            parts == sel@,
            i <= parts.len(),
            forall|t: int| 0 <= t < i ==> #[trigger] part_ok(parts[t], e@),
        decreases sel.parts.len() - i,
    {
        assert(parts[i as int] == sel.parts@[i as int]@);
        if !part_ok_exec(&sel.parts[i], e) {
            return false;
        }
        i = i + 1;
    }
    true
}

fn nearest_match_exec(anc: &Vec<ElemKey>, hi: usize, sel: &crate::css::SimpleSelector) -> (r: Option<usize>)
    requires
        hi <= anc@.len(),
    ensures
        r matches Some(j) ==> nearest_match(elem_views(anc@), hi as int, sel@) == j as int && j < hi,
        r is None ==> nearest_match(elem_views(anc@), hi as int, sel@) == -1,
{
    let ghost av = elem_views(anc@);
    let mut h: usize = hi;
    while h > 0
        invariant
            av == elem_views(anc@),
            h <= hi <= anc@.len(),
            nearest_match(av, hi as int, sel@) == nearest_match(av, h as int, sel@),
        decreases h,
    {
        assert(av[h - 1] == anc@[h - 1]@);
        if matches_simple_exec(&anc[h - 1], sel) {
            return Some(h - 1);
        }
        h = h - 1;
    }
    None
}

fn matches_selector_exec(e: &ElemKey, anc: &Vec<ElemKey>, sel: &Selector) -> (r: bool)
    ensures
        r == matches_selector(e@, elem_views(anc@), sel@),
{
    let n = sel.chain.len();
    if n == 0 {
        return false;
    }
    let ghost chain = sel@;
    let ghost av = elem_views(anc@);
    assert(chain.last() == sel.chain@[n - 1]@);
    if !matches_simple_exec(e, &sel.chain[n - 1]) {
        return false;
    }
    let mut hi: usize = anc.len();
    let mut k: usize = n - 1;
    while k > 0
        invariant
            chain == sel@,
            av == elem_views(anc@),
            k < chain.len(),
            hi <= anc@.len(),
            ancestors_match(av, av.len() as int, chain, chain.len() - 1)
                == ancestors_match(av, hi as int, chain, k as int),
        decreases k,
    {
        assert(chain[k - 1] == sel.chain@[k - 1]@);
        match nearest_match_exec(anc, hi, &sel.chain[k - 1]) {
            Some(j) => {
                hi = j;
                k = k - 1;
            },
            None => {
                return false;
            },
        }
    }
    true
}


// ---------------------------------------------------------------------------
// The cascade
// ---------------------------------------------------------------------------

/// Where a matched selector ranks: `(ids, classes, tags, rule index)`.
pub type Key = (int, int, int, int);

/// Whether `x` ranks strictly below `y`: by specificity, then source order.
pub open spec fn key_lt(x: Key, y: Key) -> bool {
    ||| x.0 < y.0
    ||| x.0 == y.0 && x.1 < y.1
    ||| x.0 == y.0 && x.1 == y.1 && x.2 < y.2
    ||| x.0 == y.0 && x.1 == y.1 && x.2 == y.2 && x.3 < y.3
}

/// Whether `x` ranks at most as high as `y`.
pub open spec fn key_le(x: Key, y: Key) -> bool {
    !key_lt(y, x)
}

/// Keys as held at run time.
pub open spec fn key_of(k: (u32, u32, u32, usize)) -> Key {
    (k.0 as int, k.1 as int, k.2 as int, k.3 as int)
}

pub open spec fn keys_view(v: Seq<(u32, u32, u32, usize)>) -> Seq<Key> {
    v.map_values(|k: (u32, u32, u32, usize)| key_of(k))
}

/// The keys of the selectors `sels[0..n]` of rule `idx` that match.
pub open spec fn selector_keys(
    e: ElemView,
    anc: Seq<ElemView>,
    sels: Seq<Seq<Seq<PartView>>>,
    idx: int,
    n: int,
) -> Seq<Key>
    decreases n,
{
    if n <= 0 {
        Seq::empty()
    } else {
        let prev = selector_keys(e, anc, sels, idx, n - 1);
        let s = sels[n - 1];
        if matches_selector(e, anc, s) {
            let c = chain_counts(s);
            prev.push((c.0 as int, c.1 as int, c.2 as int, idx))
        } else {
            prev
        }
    }
}

/// The keys of the matching selectors of `rules[0..n]`, in source order.
pub open spec fn rule_keys(e: ElemView, anc: Seq<ElemView>, rules: Seq<RuleView>, n: int) -> Seq<
    Key,
>
    decreases n,
{
    if n <= 0 {
        Seq::empty()
    } else {
        rule_keys(e, anc, rules, n - 1) + selector_keys(
            e,
            anc,
            rules[n - 1].selectors,
            n - 1,
            rules[n - 1].selectors.len() as int,
        )
    }
}

/// Where `x` goes in `t`: before the first key that ranks above it.
pub open spec fn ins_pos(t: Seq<Key>, x: Key, i: int) -> int
    decreases t.len() - i,
{
    if i >= t.len() || i < 0 {
        t.len() as int
    } else if key_lt(x, t[i]) {
        i
    } else {
        ins_pos(t, x, i + 1)
    }
}

pub open spec fn insert_sorted(t: Seq<Key>, x: Key) -> Seq<Key> {
    t.insert(ins_pos(t, x, 0), x)
}

/// The keys in rank order; keys of equal rank keep their order.
pub open spec fn isort(s: Seq<Key>) -> Seq<Key>
    decreases s.len(),
{
    if s.len() == 0 {
        s
    } else {
        insert_sorted(isort(s.drop_last()), s.last())
    }
}

/// Declarations applied in order: a later one for a name replaces an earlier.
pub open spec fn apply_decls(m: Attrs, d: Seq<(Seq<char>, Seq<char>)>) -> Attrs
    decreases d.len(),
{
    if d.len() == 0 {
        m
    } else {
        assoc_insert(apply_decls(m, d.drop_last()), d.last().0, d.last().1)
    }
}

/// The declarations of the rules that `ks` name, applied in the order of `ks`.
pub open spec fn apply_keys(m: Attrs, ks: Seq<Key>, rules: Seq<RuleView>) -> Attrs
    decreases ks.len(),
{
    if ks.len() == 0 {
        m
    } else {
        apply_decls(apply_keys(m, ks.drop_last(), rules), rules[ks.last().3].declarations)
    }
}

pub open spec fn inline_prefix() -> Seq<char> {
    seq!['d', 'u', 'm', 'm', 'y', '{']
}

/// The declarations of a `style` attribute, read as the block of a rule.
pub open spec fn inline_decls(style: Seq<char>) -> Seq<(Seq<char>, Seq<char>)> {
    let rs = parse_spec(inline_prefix() + style + seq!['}']);
    if rs.len() > 0 {
        rs[0].declarations
    } else {
        Seq::empty()
    }
}

/// The values an element gets from the style sheet and its `style` attribute.
pub open spec fn cascade(
    e: ElemView,
    anc: Seq<ElemView>,
    inline: Option<Seq<char>>,
    rules: Seq<RuleView>,
) -> Attrs {
    let base = apply_keys(Seq::empty(), isort(rule_keys(e, anc, rules, rules.len() as int)), rules);
    match inline {
        Some(st) => apply_decls(base, inline_decls(st)),
        None => base,
    }
}

/// Every selector of the sheet has at most `u32::MAX` parts, so that its
/// specificity can be counted.
pub open spec fn sheet_fits(rules: Seq<RuleView>) -> bool {
    forall|i: int, j: int|
        0 <= i < rules.len() && 0 <= j < rules[i].selectors.len() ==> chain_size(
            #[trigger] rules[i].selectors[j],
        ) <= u32::MAX
}

pub open spec fn opt_view(o: Option<&String>) -> Option<Seq<char>> {
    match o {
        Some(s) => Some(s@),
        None => None,
    }
}

fn insert_key(v: &mut Vec<(u32, u32, u32, usize)>, k: (u32, u32, u32, usize)) -> (p: usize)
    ensures
        p <= old(v)@.len(),
        final(v)@ == old(v)@.insert(p as int, k),
        keys_view(final(v)@) == insert_sorted(keys_view(old(v)@), key_of(k)),
{
    let ghost t = keys_view(v@);
    let mut i: usize = 0;
    while i < v.len()
        invariant
            t == keys_view(v@),
            v@ == old(v)@,
            i <= v@.len(),
            ins_pos(t, key_of(k), 0) == ins_pos(t, key_of(k), i as int),
        ensures
            t == keys_view(v@),
            v@ == old(v)@,
            i <= v@.len(),
            ins_pos(t, key_of(k), 0) == ins_pos(t, key_of(k), i as int),
            i < v@.len() ==> key_lt(key_of(k), t[i as int]),
        decreases v.len() - i,
    {
        let c = v[i];
        assert(t[i as int] == key_of(c));
        let lt = k.0 < c.0 || (k.0 == c.0 && k.1 < c.1) || (k.0 == c.0 && k.1 == c.1 && k.2 < c.2)
            || (k.0 == c.0 && k.1 == c.1 && k.2 == c.2 && k.3 < c.3);
        if lt {
            break;
        }
        i = i + 1;
    }
    assert(ins_pos(t, key_of(k), i as int) == i);
    v.insert(i, k);
    assert(keys_view(v@) =~= t.insert(i as int, key_of(k)));
    i
}

fn apply_declarations(m: &mut AttrMap, decls: &Vec<crate::css::Declaration>)
    ensures
        final(m)@ == apply_decls(
            old(m)@,
            decls@.map_values(|d: crate::css::Declaration| d@),
        ),
{
    let ghost dv = decls@.map_values(|d: crate::css::Declaration| d@);
    let mut i: usize = 0;
    assert(dv.take(0) =~= Seq::<(Seq<char>, Seq<char>)>::empty());
    while i < decls.len()
        invariant
            dv == decls@.map_values(|d: crate::css::Declaration| d@),
            i <= dv.len(),
            m@ == apply_decls(old(m)@, dv.take(i as int)),
        decreases decls.len() - i,
    {
        let d = &decls[i];
        assert(dv.take(i + 1).drop_last() =~= dv.take(i as int));
        assert(dv.take(i + 1).last() == (d.name@, d.value@));
        m.insert(d.name.clone(), d.value.clone());
        i = i + 1;
    }
    assert(dv.take(i as int) =~= dv);
}

fn inline_declarations(style: &String) -> (r: Vec<crate::css::Declaration>)
    ensures
        r@.map_values(|d: crate::css::Declaration| d@) == inline_decls(style@),
{
    let mut buf: Vec<char> = vec!['d', 'u', 'm', 'm', 'y', '{'];
    assert(buf@ =~= inline_prefix());
    let sc = chars_of(style.as_str());
    let mut i: usize = 0;
    while i < sc.len()
        invariant
            i <= sc@.len(),
            buf@ == inline_prefix() + sc@.take(i as int),
        decreases sc.len() - i,
    {
        buf.push(sc[i]);
        i = i + 1;
        assert(buf@ =~= inline_prefix() + sc@.take(i as int));
    }
    buf.push('}');
    assert(sc@.take(i as int) =~= sc@);
    assert(buf@ =~= inline_prefix() + style@ + seq!['}']);
    let mut sheet = parse(string_of(&buf));
    if sheet.rules.len() > 0 {
        let first = sheet.rules.swap_remove(0);
        first.declarations
    } else {
        let r: Vec<crate::css::Declaration> = Vec::new();
        assert(r@.map_values(|d: crate::css::Declaration| d@) =~= Seq::<
            (Seq<char>, Seq<char>),
        >::empty());
        r
    }
}


fn specified_values(e: &ElemKey, anc: &Vec<ElemKey>, inline: Option<&String>, sheet: &Stylesheet) -> (r:
    AttrMap)
    requires
        sheet_fits(sheet@),
    ensures
        r@ == cascade(e@, elem_views(anc@), opt_view(inline), sheet@),
{
    let ghost ev = e@;
    let ghost av = elem_views(anc@);
    let ghost rules = sheet@;
    let mut matched: Vec<(u32, u32, u32, usize)> = Vec::new();
    assert(keys_view(matched@) =~= Seq::<Key>::empty());
    let mut ri: usize = 0;
    while ri < sheet.rules.len()
        invariant
            ev == e@,
            av == elem_views(anc@),
            rules == sheet@,
            sheet_fits(rules),
            ri <= rules.len(),
            keys_view(matched@) == isort(rule_keys(ev, av, rules, ri as int)),
            forall|t: int| 0 <= t < matched@.len() ==> (#[trigger] matched@[t]).3 < ri,
        decreases sheet.rules.len() - ri,
    {
        let rule = &sheet.rules[ri];
        let ghost sels = rules[ri as int].selectors;
        assert(sels == rule.selectors@.map_values(|x: Selector| x@));
        let ghost before = rule_keys(ev, av, rules, ri as int);
        assert(before + selector_keys(ev, av, sels, ri as int, 0) =~= before);
        let mut si: usize = 0;
        while si < rule.selectors.len()
            invariant
                ev == e@,
                av == elem_views(anc@),
                rules == sheet@,
                sheet_fits(rules),
                ri < rules.len(),
                rule == sheet.rules@[ri as int],
                sels == rules[ri as int].selectors,
                sels == rule.selectors@.map_values(|x: Selector| x@),
                before == rule_keys(ev, av, rules, ri as int),
                si <= sels.len(),
                keys_view(matched@) == isort(before + selector_keys(ev, av, sels, ri as int, si as int)),
                forall|t: int| 0 <= t < matched@.len() ==> (#[trigger] matched@[t]).3 <= ri,
            decreases rule.selectors.len() - si,
        {
            let sel = &rule.selectors[si];
            assert(sels[si as int] == sel@);
            let ghost prev = before + selector_keys(ev, av, sels, ri as int, si as int);
            if matches_selector_exec(e, anc, sel) {
                assert(chain_size(rules[ri as int].selectors[si as int]) <= u32::MAX);
                let (a, b, c) = sel.specificity();
                let k = (a, b, c, ri);
                let ghost old_m = matched@;
                let p = insert_key(&mut matched, k);
                assert(before + selector_keys(ev, av, sels, ri as int, si + 1) =~= prev.push(key_of(k)));
                assert(prev.push(key_of(k)).drop_last() =~= prev);
                assert forall|t: int| 0 <= t < matched@.len() implies (#[trigger] matched@[t]).3 <= ri by {
                    if t < p {
                        assert(matched@[t] == old_m[t]);
                    } else if t > p {
                        assert(matched@[t] == old_m[t - 1]);
                    }
                }
            } else {
                assert(before + selector_keys(ev, av, sels, ri as int, si + 1) =~= prev);
            }
            si = si + 1;
        }
        assert(before + selector_keys(ev, av, sels, ri as int, sels.len() as int) == rule_keys(ev, av, rules, ri + 1));
        ri = ri + 1;
    }
    let ghost sorted = keys_view(matched@);
    let mut values = AttrMap::new();
    let mut i: usize = 0;
    assert(sorted.take(0) =~= Seq::<Key>::empty());
    while i < matched.len()
        invariant
            rules == sheet@,
            sorted == keys_view(matched@),
            i <= matched@.len(),
            forall|t: int| 0 <= t < matched@.len() ==> (#[trigger] matched@[t]).3 < rules.len(),
            values@ == apply_keys(Seq::empty(), sorted.take(i as int), rules),
        decreases matched.len() - i,
    {
        let k = matched[i];
        assert(matched@[i as int].3 < rules.len());
        let rule = &sheet.rules[k.3];
        assert(rules[k.3 as int].declarations == rule.declarations@.map_values(|d: crate::css::Declaration| d@));
        assert(sorted.take(i + 1).drop_last() =~= sorted.take(i as int));
        assert(sorted.take(i + 1).last() == key_of(k));
        apply_declarations(&mut values, &rule.declarations);
        i = i + 1;
    }
    assert(sorted.take(i as int) =~= sorted);
    match inline {
        Some(st) => {
            let decls = inline_declarations(st);
            apply_declarations(&mut values, &decls);
        },
        None => {},
    }
    values
}


// ---------------------------------------------------------------------------
// What the cascade gives
// ---------------------------------------------------------------------------

/// The value of the last declaration of `p` in `d`.
pub open spec fn decl_value(d: Seq<(Seq<char>, Seq<char>)>, p: Seq<char>) -> Option<Seq<char>>
    decreases d.len(),
{
    if d.len() == 0 {
        None
    } else if d.last().0 == p {
        Some(d.last().1)
    } else {
        decl_value(d.drop_last(), p)
    }
}

/// Whether the rule that `k` names declares `p`.
pub open spec fn declares(rules: Seq<RuleView>, k: Key, p: Seq<char>) -> bool {
    decl_value(rules[k.3].declarations, p) is Some
}

/// The last index of `ks` whose rule declares `p`.
pub open spec fn last_declaring(ks: Seq<Key>, rules: Seq<RuleView>, p: Seq<char>) -> Option<int>
    decreases ks.len(),
{
    if ks.len() == 0 {
        None
    } else if declares(rules, ks.last(), p) {
        Some(ks.len() - 1)
    } else {
        last_declaring(ks.drop_last(), rules, p)
    }
}

/// Keys in rank order.
pub open spec fn sorted_keys(s: Seq<Key>) -> bool {
    forall|i: int, j: int| 0 <= i < j < s.len() ==> key_le(#[trigger] s[i], #[trigger] s[j])
}

proof fn lemma_apply_decls_get(m: Attrs, d: Seq<(Seq<char>, Seq<char>)>, p: Seq<char>)
    ensures
        assoc_get(apply_decls(m, d), p) == match decl_value(d, p) {
            Some(v) => Some(v),
            None => assoc_get(m, p),
        },
    decreases d.len(),
{
    if d.len() > 0 {
        lemma_apply_decls_get(m, d.drop_last(), p);
        lemma_assoc_insert_get(apply_decls(m, d.drop_last()), d.last().0, d.last().1, p);
    }
}

proof fn lemma_apply_decls_distinct(m: Attrs, d: Seq<(Seq<char>, Seq<char>)>)
    requires
        assoc_distinct(m),
    ensures
        assoc_distinct(apply_decls(m, d)),
    decreases d.len(),
{
    if d.len() > 0 {
        lemma_apply_decls_distinct(m, d.drop_last());
        lemma_assoc_insert_distinct(apply_decls(m, d.drop_last()), d.last().0, d.last().1);
    }
}

proof fn lemma_apply_keys_distinct(m: Attrs, ks: Seq<Key>, rules: Seq<RuleView>)
    requires
        assoc_distinct(m),
    ensures
        assoc_distinct(apply_keys(m, ks, rules)),
    decreases ks.len(),
{
    if ks.len() > 0 {
        lemma_apply_keys_distinct(m, ks.drop_last(), rules);
        lemma_apply_decls_distinct(
            apply_keys(m, ks.drop_last(), rules),
            rules[ks.last().3].declarations,
        );
    }
}

proof fn lemma_last_declaring(ks: Seq<Key>, rules: Seq<RuleView>, p: Seq<char>)
    ensures
        last_declaring(ks, rules, p) matches Some(t) ==> 0 <= t < ks.len() && declares(
            rules,
            ks[t],
            p,
        ) && forall|j: int| t < j < ks.len() ==> !declares(rules, #[trigger] ks[j], p),
        last_declaring(ks, rules, p) is None ==> forall|j: int|
            0 <= j < ks.len() ==> !declares(rules, #[trigger] ks[j], p),
    decreases ks.len(),
{
    if ks.len() > 0 {
        lemma_last_declaring(ks.drop_last(), rules, p);
        assert forall|j: int| 0 <= j < ks.len() - 1 implies ks.drop_last()[j] == ks[j] by {}
    }
}

proof fn lemma_apply_keys_get(m: Attrs, ks: Seq<Key>, rules: Seq<RuleView>, p: Seq<char>)
    ensures
        assoc_get(apply_keys(m, ks, rules), p) == match last_declaring(ks, rules, p) {
            Some(t) => decl_value(rules[ks[t].3].declarations, p),
            None => assoc_get(m, p),
        },
    decreases ks.len(),
{
    if ks.len() > 0 {
        lemma_apply_keys_get(m, ks.drop_last(), rules, p);
        lemma_apply_decls_get(apply_keys(m, ks.drop_last(), rules), rules[ks.last().3].declarations, p);
        lemma_last_declaring(ks.drop_last(), rules, p);
    }
}

proof fn lemma_ins_pos(t: Seq<Key>, x: Key, i: int)
    requires
        0 <= i <= t.len(),
    ensures
        i <= ins_pos(t, x, i) <= t.len(),
        forall|j: int| i <= j < ins_pos(t, x, i) ==> !key_lt(x, #[trigger] t[j]),
        ins_pos(t, x, i) < t.len() ==> key_lt(x, t[ins_pos(t, x, i)]),
    decreases t.len() - i,
{
    if i < t.len() && !key_lt(x, t[i]) {
        lemma_ins_pos(t, x, i + 1);
    }
}

proof fn lemma_insert_sorted(t: Seq<Key>, x: Key)
    requires
        sorted_keys(t),
    ensures
        sorted_keys(insert_sorted(t, x)),
        insert_sorted(t, x).len() == t.len() + 1,
        forall|y: Key| #[trigger] insert_sorted(t, x).contains(y) <==> (t.contains(y) || y == x),
{
    lemma_ins_pos(t, x, 0);
    let p = ins_pos(t, x, 0);
    let r = insert_sorted(t, x);
    assert(r.len() == t.len() + 1);
    assert forall|i: int| 0 <= i < r.len() implies #[trigger] r[i] == if i < p {
        t[i]
    } else if i == p {
        x
    } else {
        t[i - 1]
    } by {}
    assert forall|i: int, j: int| 0 <= i < j < r.len() implies key_le(#[trigger] r[i], #[trigger] r[j]) by {
        if j < p {
            assert(key_le(t[i], t[j]));
        } else if j == p {
            assert(!key_lt(x, t[i]));
        } else if i < p {
            assert(!key_lt(x, t[i]));
            assert(key_lt(x, t[p]));
            assert(key_le(t[p], t[j - 1]) || p == j - 1);
        } else if i == p {
            assert(key_lt(x, t[p]));
            assert(key_le(t[p], t[j - 1]) || p == j - 1);
        } else {
            assert(key_le(t[i - 1], t[j - 1]));
        }
    }
    assert forall|y: Key| #[trigger] r.contains(y) <==> (t.contains(y) || y == x) by {
        if r.contains(y) {
            let i = choose|i: int| 0 <= i < r.len() && r[i] == y;
            if i < p {
                assert(t[i] == y);
            } else if i > p {
                assert(t[i - 1] == y);
            }
        }
        if t.contains(y) {
            let i = choose|i: int| 0 <= i < t.len() && t[i] == y;
            if i < p {
                assert(r[i] == y);
            } else {
                assert(r[i + 1] == y);
            }
        }
        if y == x {
            assert(r[p] == y);
        }
    }
}

/// Sorting keeps the keys and puts them in rank order.
pub(crate) proof fn lemma_isort(s: Seq<Key>)
    ensures
        sorted_keys(isort(s)),
        isort(s).len() == s.len(),
        forall|y: Key| #[trigger] isort(s).contains(y) <==> s.contains(y),
    decreases s.len(),
{
    if s.len() > 0 {
        lemma_isort(s.drop_last());
        lemma_insert_sorted(isort(s.drop_last()), s.last());
        assert forall|y: Key| #[trigger] s.contains(y) <==> (s.drop_last().contains(y) || y == s.last()) by {
            if s.contains(y) {
                let i = choose|i: int| 0 <= i < s.len() && s[i] == y;
                if i < s.len() - 1 {
                    assert(s.drop_last()[i] == y);
                }
            }
            if s.drop_last().contains(y) {
                let i = choose|i: int| 0 <= i < s.len() - 1 && s.drop_last()[i] == y;
                assert(s[i] == y);
            }
        }
    }
}

/// The cascade: of the selectors that match the element, those whose rule
/// declares `p` compete, and the one that ranks highest (by specificity,
/// then by source order) gives `p` its value, the last declaration of `p`
/// in its rule. Where no matching rule declares `p`, the style sheet leaves
/// it unset.
pub proof fn lemma_cascade_winner(
    e: ElemView,
    anc: Seq<ElemView>,
    rules: Seq<RuleView>,
    p: Seq<char>,
)
    ensures
        ({
            let ks = rule_keys(e, anc, rules, rules.len() as int);
            let got = assoc_get(cascade(e, anc, None, rules), p);
            &&& (forall|i: int| 0 <= i < ks.len() ==> !declares(rules, #[trigger] ks[i], p))
                ==> got is None
            &&& (exists|i: int| 0 <= i < ks.len() && declares(rules, #[trigger] ks[i], p))
                ==> exists|w: int|
                0 <= w < ks.len() && declares(rules, ks[w], p) && (forall|i: int|
                    0 <= i < ks.len() && declares(rules, #[trigger] ks[i], p) ==> key_le(
                        ks[i],
                        ks[w],
                    )) && got == decl_value(rules[ks[w].3].declarations, p)
        }),
{
    let ks = rule_keys(e, anc, rules, rules.len() as int);
    let sorted = isort(ks);
    lemma_isort(ks);
    lemma_apply_keys_get(Seq::empty(), sorted, rules, p);
    lemma_last_declaring(sorted, rules, p);
    let got = assoc_get(cascade(e, anc, None, rules), p);
    match last_declaring(sorted, rules, p) {
        Some(t) => {
            let k = sorted[t];
            assert(sorted.contains(k));
            assert(ks.contains(k));
            let w = choose|w: int| 0 <= w < ks.len() && ks[w] == k;
            assert forall|i: int| 0 <= i < ks.len() && declares(rules, #[trigger] ks[i], p) implies key_le(
                ks[i],
                ks[w],
            ) by {
                assert(ks.contains(ks[i]));
                assert(sorted.contains(ks[i]));
                let j = choose|j: int| 0 <= j < sorted.len() && sorted[j] == ks[i];
                if j > t {
                    assert(!declares(rules, sorted[j], p));
                } else if j < t {
                    assert(key_le(sorted[j], sorted[t]));
                }
            }
        },
        None => {
            assert forall|i: int| 0 <= i < ks.len() implies !declares(rules, #[trigger] ks[i], p) by {
                assert(ks.contains(ks[i]));
                assert(sorted.contains(ks[i]));
                let j = choose|j: int| 0 <= j < sorted.len() && sorted[j] == ks[i];
                assert(!declares(rules, sorted[j], p));
            }
            assert(assoc_find(Seq::<(Seq<char>, Seq<char>)>::empty(), p, 0) is None);
        },
    }
}

/// A `style` attribute overrides the style sheet: where it declares `p`,
/// its last declaration of `p` is the value; elsewhere the style sheet's
/// value stands.
pub proof fn lemma_inline_overrides(
    e: ElemView,
    anc: Seq<ElemView>,
    style: Seq<char>,
    rules: Seq<RuleView>,
    p: Seq<char>,
)
    ensures
        assoc_get(cascade(e, anc, Some(style), rules), p) == match decl_value(
            inline_decls(style),
            p,
        ) {
            Some(v) => Some(v),
            None => assoc_get(cascade(e, anc, None, rules), p),
        },
{
    lemma_apply_decls_get(cascade(e, anc, None, rules), inline_decls(style), p);
}

// ---------------------------------------------------------------------------
// Inheritance and the styled tree
// ---------------------------------------------------------------------------

/// The properties that inherit, in the order they are looked at.
pub open spec fn inherited_names() -> Seq<Seq<char>> {
    seq![
        "color"@,
        "font-size"@,
        "font-weight"@,
        "text-align"@,
        "font-family"@,
        "line-height"@,
    ]
}

pub open spec fn is_inherited(k: Seq<char>) -> bool {
    inherited_names().contains(k)
}

/// The first `n` inherited properties that `m` lacks, taken from `parent`.
pub open spec fn inherit_from(m: Attrs, parent: Attrs, n: int) -> Attrs
    decreases n,
{
    if n <= 0 {
        m
    } else {
        let m1 = inherit_from(m, parent, n - 1);
        let k = inherited_names()[n - 1];
        if assoc_get(m1, k) is None && assoc_get(parent, k) is Some {
            assoc_insert(m1, k, assoc_get(parent, k).unwrap())
        } else {
            m1
        }
    }
}

/// The entries of `m` whose names inherit, in order.
pub open spec fn for_children(m: Attrs) -> Attrs
    decreases m.len(),
{
    if m.len() == 0 {
        Seq::empty()
    } else {
        let r = for_children(m.drop_last());
        if is_inherited(m.last().0) {
            assoc_insert(r, m.last().0, m.last().1)
        } else {
            r
        }
    }
}

fn inherited_name(i: usize) -> (r: &'static str)
    requires
        i < 6,
    ensures
        r@ == inherited_names()[i as int],
{
    match i {
        0 => "color",
        1 => "font-size",
        2 => "font-weight",
        3 => "text-align",
        4 => "font-family",
        _ => "line-height",
    }
}

fn is_inherited_exec(k: &String) -> (r: bool)
    ensures
        r == is_inherited(k@),
{
    let kc = chars_of(k.as_str());
    let mut i: usize = 0;
    while i < 6
        invariant
            i <= 6,
            kc@ == k@,
            forall|t: int| 0 <= t < i ==> inherited_names()[t] != k@,
        decreases 6 - i,
    {
        let name = chars_of(inherited_name(i));
        if chars_eq(&name, &kc) {
            assert(inherited_names()[i as int] == k@);
            return true;
        }
        i = i + 1;
    }
    assert(!inherited_names().contains(k@));
    false
}

fn inherit(m: &mut AttrMap, parent: &AttrMap)
    ensures
        final(m)@ == inherit_from(old(m)@, parent@, 6),
{
    let mut i: usize = 0;
    while i < 6
        invariant
            i <= 6,
            m@ == inherit_from(old(m)@, parent@, i as int),
        decreases 6 - i,
    {
        let name = inherited_name(i);
        if m.get(name).is_none() {
            match parent.get(name) {
                Some(v) => {
                    m.insert(name.to_owned(), v.clone());
                },
                None => {},
            }
        }
        i = i + 1;
    }
}

fn inherited_only(m: &AttrMap) -> (r: AttrMap)
    ensures
        r@ == for_children(m@),
{
    let mut r = AttrMap::new();
    let mut i: usize = 0;
    assert(m@.take(0) =~= Seq::<(Seq<char>, Seq<char>)>::empty());
    while i < m.len()
        invariant
            i <= m@.len(),
            r@ == for_children(m@.take(i as int)),
        decreases m@.len() - i,
    {
        let (k, v) = m.entry(i);
        assert(m@.take(i + 1).drop_last() =~= m@.take(i as int));
        assert(m@.take(i + 1).last() == (k@, v@));
        if is_inherited_exec(k) {
            r.insert(k.clone(), v.clone());
        }
        i = i + 1;
    }
    assert(m@.take(i as int) =~= m@);
    r
}

/// How an element is laid out.
#[derive(Debug, PartialEq, Eq, Clone, Copy, Structural)]
pub enum Display {
    Block,
    Inline,
    /// `display: none`: the element generates no box.
    Hidden,
}

/// A node with its specified values and styled children.
pub struct StyledNode<'a> {
    pub node: &'a Node,
    pub specified: PropertyMap,
    pub children: Vec<StyledNode<'a>>,
}

impl<'a> StyledNode<'a> {
    /// The specified value of `name`.
    pub fn get(&self, name: &str) -> (r: Option<&str>)
        ensures
            r matches Some(v) ==> assoc_get(self.specified@, name@) == Some(v@),
            r is None ==> assoc_get(self.specified@, name@) is None,
    {
        match self.specified.get(name) {
            Some(v) => Some(v.as_str()),
            None => None,
        }
    }

    /// The specified value of `name`, or `default` where it has none.
    pub fn get_or(&self, name: &str, default: &str) -> (r: String)
        ensures
            r@ == match assoc_get(self.specified@, name@) {
                Some(v) => v,
                None => default@,
            },
    {
        match self.specified.get(name) {
            Some(v) => v.clone(),
            None => default.to_owned(),
        }
    }

    /// The `display` value: `none` and `inline` as named, anything else block.
    pub fn display(&self) -> (r: Display)
        ensures
            r == display_of(assoc_get(self.specified@, "display"@)),
    {
        match self.get("display") {
            Some(v) => {
                let vc = chars_of(v);
                let none = chars_of("none");
                let inline = chars_of("inline");
                if chars_eq(&vc, &none) {
                    Display::Hidden
                } else if chars_eq(&vc, &inline) {
                    Display::Inline
                } else {
                    Display::Block
                }
            },
            None => Display::Block,
        }
    }
}

/// The display that a specified `display` value gives.
pub open spec fn display_of(v: Option<Seq<char>>) -> Display {
    match v {
        Some(s) => if s == "none"@ {
            Display::Hidden
        } else if s == "inline"@ {
            Display::Inline
        } else {
            Display::Block
        },
        None => Display::Block,
    }
}

/// A styled node as text.
pub struct StyledView {
    pub node: NodeView,
    pub specified: Attrs,
    pub children: Seq<StyledView>,
}

pub open spec fn empty_styled() -> StyledView {
    StyledView {
        node: NodeView { children: Seq::empty(), kind: KindView::Text(Seq::empty()) },
        specified: Seq::empty(),
        children: Seq::empty(),
    }
}

/// The styled tree below `s`, as text.
pub open spec fn styled_view<'a>(s: StyledNode<'a>) -> StyledView
    decreases s,
{
    StyledView {
        node: node_view(*s.node),
        specified: s.specified@,
        children: Seq::new(
            s.children@.len(),
            |i: int|
                if 0 <= i < s.children@.len() {
                    styled_view(s.children@[i])
                } else {
                    empty_styled()
                },
        ),
    }
}

/// The values that the style sheet and the `style` attribute give a node
/// (none for text).
pub open spec fn own_values(n: NodeView, rules: Seq<RuleView>, anc: Seq<ElemView>) -> Attrs {
    match n.kind {
        KindView::Text(_) => Seq::empty(),
        KindView::Element(tag, attrs) => cascade(
            elem_view_of(tag, attrs),
            anc,
            assoc_get(attrs, "style"@),
            rules,
        ),
    }
}

/// The styled tree of `n`, under ancestors `anc` (root first) whose
/// inherited values are `inh`.
pub open spec fn style_spec(
    n: NodeView,
    rules: Seq<RuleView>,
    anc: Seq<ElemView>,
    inh: Attrs,
) -> StyledView
    decreases n,
{
    match n.kind {
        KindView::Text(_) => StyledView { node: n, specified: inh, children: Seq::empty() },
        KindView::Element(tag, attrs) => {
            let e = elem_view_of(tag, attrs);
            let sp = inherit_from(own_values(n, rules, anc), inh, 6);
            StyledView {
                node: n,
                specified: sp,
                children: Seq::new(
                    n.children.len(),
                    |i: int|
                        if 0 <= i < n.children.len() {
                            style_spec(n.children[i], rules, anc.push(e), for_children(sp))
                        } else {
                            empty_styled()
                        },
                ),
            }
        },
    }
}

fn elem_key(data: &ElementData) -> (r: ElemKey)
    ensures
        r@ == elem_view_of(data.tag_name@, data.attributes@),
{
    let tag = chars_of(data.tag_name.as_str());
    let id = match data.id() {
        Some(v) => Some(chars_of(v.as_str())),
        None => None,
    };
    let k = "class";
    proof {
        reveal_strlit("class");
    }
    assert(k@ =~= class_name());
    let classes = match data.attributes.get(k) {
        Some(v) => {
            let vc = chars_of(v.as_str());
            words_vec(&vc)
        },
        None => Vec::new(),
    };
    let r = ElemKey { tag, id, classes };
    assert(r@.classes =~= elem_view_of(data.tag_name@, data.attributes@).classes);
    r
}

proof fn lemma_elem_views_push(s: Seq<ElemKey>, k: ElemKey)
    ensures
        elem_views(s.push(k)) == elem_views(s).push(k@),
{
    assert(elem_views(s.push(k)) =~= elem_views(s).push(k@));
}

fn build<'a>(node: &'a Node, sheet: &Stylesheet, anc: &mut Vec<ElemKey>, inh: &AttrMap) -> (r:
    StyledNode<'a>)
    requires
        sheet_fits(sheet@),
    ensures
        final(anc)@ == old(anc)@,
        styled_view(r) == style_spec(node_view(*node), sheet@, elem_views(old(anc)@), inh@),
    decreases node,
{
    proof {
        lemma_node_view_children(*node);
    }
    match &node.node_type {
        NodeType::Text(_) => {
            let r = StyledNode { node, specified: inh.duplicate(), children: Vec::new() };
            assert(styled_view(r).children =~= Seq::<StyledView>::empty());
            r
        },
        NodeType::Element(data) => {
            let key = elem_key(data);
            let ghost e = key@;
            let ghost anc0 = anc@;
            let st = "style";
            let style = data.attributes.get(st);
            let mut specified = specified_values(&key, anc, style, sheet);
            inherit(&mut specified, inh);
            let for_kids = inherited_only(&specified);
            anc.push(key);
            proof {
                lemma_elem_views_push(anc0, key);
            }
            let mut children: Vec<StyledNode<'a>> = Vec::new();
            let mut i: usize = 0;
            while i < node.children.len()
                invariant
                    sheet_fits(sheet@),
                    anc@ == anc0.push(key),
                    elem_views(anc@) == elem_views(anc0).push(e),
                    i <= node.children@.len(),
                    children@.len() == i,
                    node_view(*node).children == views(node.children@),
                    forall|j: int|
                        0 <= j < i ==> styled_view(#[trigger] children@[j]) == style_spec(
                            node_view(node.children@[j]),
                            sheet@,
                            elem_views(anc0).push(e),
                            for_kids@,
                        ),
                decreases node.children.len() - i,
            {
                let c = build(&node.children[i], sheet, anc, &for_kids);
                children.push(c);
                i = i + 1;
            }
            let _ = anc.pop();
            assert(anc@ =~= anc0);
            let r = StyledNode { node, specified, children };
            assert(styled_view(r).children =~= style_spec(
                node_view(*node),
                sheet@,
                elem_views(anc0),
                inh@,
            ).children);
            r
        },
    }
}

fn selector_fits(sel: &Selector) -> (r: bool)
    ensures
        r == (chain_size(sel@) <= u32::MAX),
{
    let ghost chain = sel@;
    let mut count: u64 = 0;
    let mut j: usize = 0;
    assert(chain.take(0) =~= Seq::<Seq<PartView>>::empty());
    while j < sel.chain.len()
        invariant
            chain == sel@,
            j <= chain.len(),
            count == chain_size(chain.take(j as int)),
            count <= u32::MAX,
        decreases sel.chain.len() - j,
    {
        assert(chain.take(j + 1).drop_last() =~= chain.take(j as int));
        assert(chain[j as int] == sel.chain@[j as int]@);
        let n = sel.chain[j].parts.len();
        if n as u64 > u32::MAX as u64 - count {
            proof {
                lemma_chain_size_monotone(chain, j + 1);
            }
            return false;
        }
        count = count + n as u64;
        j = j + 1;
    }
    assert(chain.take(j as int) =~= chain);
    true
}

proof fn lemma_chain_size_monotone(chain: Seq<Seq<PartView>>, k: int)
    requires
        0 <= k <= chain.len(),
    ensures
        chain_size(chain.take(k)) <= chain_size(chain),
    decreases chain.len() - k,
{
    if k < chain.len() {
        assert(chain.drop_last().take(k) =~= chain.take(k));
        lemma_chain_size_monotone(chain.drop_last(), k);
    } else {
        assert(chain.take(k) =~= chain);
    }
}

/// Whether every selector of the sheet is small enough for its specificity
/// to be counted, as `style_tree` requires.
pub fn specificities_fit(sheet: &Stylesheet) -> (r: bool)
    ensures
        r == sheet_fits(sheet@),
{
    let ghost rules = sheet@;
    let mut i: usize = 0;
    while i < sheet.rules.len()
        invariant
            rules == sheet@,
            i <= rules.len(),
            forall|a: int, b: int|
                0 <= a < i && 0 <= b < rules[a].selectors.len() ==> chain_size(
                    #[trigger] rules[a].selectors[b],
                ) <= u32::MAX,
        decreases sheet.rules.len() - i,
    {
        let rule = &sheet.rules[i];
        assert(rules[i as int].selectors == rule.selectors@.map_values(|x: Selector| x@));
        let mut j: usize = 0;
        while j < rule.selectors.len()
            invariant
                rules == sheet@,
                i < rules.len(),
                rule == sheet.rules@[i as int],
                rules[i as int].selectors == rule.selectors@.map_values(|x: Selector| x@),
                j <= rule.selectors@.len(),
                forall|a: int, b: int|
                    0 <= a < i && 0 <= b < rules[a].selectors.len() ==> chain_size(
                        #[trigger] rules[a].selectors[b],
                    ) <= u32::MAX,
                forall|b: int| 0 <= b < j ==> chain_size(#[trigger] rules[i as int].selectors[b]) <= u32::MAX,
            decreases rule.selectors.len() - j,
        {
            assert(rules[i as int].selectors[j as int] == rule.selectors@[j as int]@);
            if !selector_fits(&rule.selectors[j]) {
                return false;
            }
            j = j + 1;
        }
        i = i + 1;
    }
    true
}

/// Styles a document: the specified values of every node.
pub fn style_tree<'a>(root: &'a Node, stylesheet: &Stylesheet) -> (r: StyledNode<'a>)
    requires
        sheet_fits(stylesheet@),
    ensures
        styled_view(r) == style_spec(
            node_view(*root),
            stylesheet@,
            Seq::empty(),
            Seq::empty(),
        ),
{
    let mut anc: Vec<ElemKey> = Vec::new();
    assert(elem_views(anc@) =~= Seq::<ElemView>::empty());
    let empty = AttrMap::new();
    build(root, stylesheet, &mut anc, &empty)
}


// ---------------------------------------------------------------------------
// What inheritance gives
// ---------------------------------------------------------------------------

proof fn lemma_inherit_from_get(m: Attrs, parent: Attrs, n: int, k: Seq<char>)
    requires
        0 <= n <= 6,
    ensures
        assoc_get(inherit_from(m, parent, n), k) == if inherited_names().take(n).contains(k)
            && assoc_get(m, k) is None {
            assoc_get(parent, k)
        } else {
            assoc_get(m, k)
        },
    decreases n,
{
    if n > 0 {
        lemma_inherit_from_get(m, parent, n - 1, k);
        let m1 = inherit_from(m, parent, n - 1);
        let kn = inherited_names()[n - 1];
        lemma_inherit_from_get(m, parent, n - 1, kn);
        if assoc_get(m1, kn) is None && assoc_get(parent, kn) is Some {
            lemma_assoc_insert_get(m1, kn, assoc_get(parent, kn).unwrap(), k);
        }
        let t0 = inherited_names().take(n - 1);
        let t1 = inherited_names().take(n);
        assert(t1 =~= t0.push(kn));
        assert(t1.contains(k) <==> (t0.contains(k) || k == kn)) by {
            if t1.contains(k) {
                let i = choose|i: int| 0 <= i < t1.len() && t1[i] == k;
                if i < n - 1 {
                    assert(t0[i] == k);
                }
            }
            if t0.contains(k) {
                let i = choose|i: int| 0 <= i < t0.len() && t0[i] == k;
                assert(t1[i] == k);
            }
            if k == kn {
                assert(t1[n - 1] == k);
            }
        }
    }
}

proof fn lemma_inherit_from_distinct(m: Attrs, parent: Attrs, n: int)
    requires
        assoc_distinct(m),
    ensures
        assoc_distinct(inherit_from(m, parent, n)),
    decreases n,
{
    if n > 0 {
        lemma_inherit_from_distinct(m, parent, n - 1);
        let m1 = inherit_from(m, parent, n - 1);
        let kn = inherited_names()[n - 1];
        if assoc_get(m1, kn) is None && assoc_get(parent, kn) is Some {
            lemma_assoc_insert_distinct(m1, kn, assoc_get(parent, kn).unwrap());
        }
    }
}

/// Inheritance: an inherited property that a node's own values leave unset
/// takes its parent's value; every other property keeps its own value.
pub proof fn lemma_inherit(m: Attrs, parent: Attrs, k: Seq<char>)
    ensures
        assoc_get(inherit_from(m, parent, 6), k) == if is_inherited(k) && assoc_get(m, k) is None {
            assoc_get(parent, k)
        } else {
            assoc_get(m, k)
        },
{
    lemma_inherit_from_get(m, parent, 6, k);
    assert(inherited_names().take(6) =~= inherited_names());
}

proof fn lemma_distinct_get_last(m: Attrs, k: Seq<char>)
    requires
        assoc_distinct(m),
        m.len() > 0,
    ensures
        assoc_distinct(m.drop_last()),
        assoc_get(m, k) == if m.last().0 == k {
            Some(m.last().1)
        } else {
            assoc_get(m.drop_last(), k)
        },
{
    let d = m.drop_last();
    assert forall|i: int, j: int| 0 <= i < j < d.len() implies #[trigger] d[i].0 != #[trigger] d[j].0 by {
        assert(d[i] == m[i] && d[j] == m[j]);
    }
    lemma_assoc_find(m, k, 0);
    lemma_assoc_find(d, k, 0);
    match assoc_find(m, k, 0) {
        Some(x) => {
            if x < m.len() - 1 {
                assert(d[x] == m[x]);
                assert(m.last().0 != k) by {
                    assert(m[x].0 != m[m.len() - 1].0);
                }
                match assoc_find(d, k, 0) {
                    Some(y) => {
                        assert(m[y] == d[y]);
                    },
                    None => {},
                }
            } else {
                match assoc_find(d, k, 0) {
                    Some(y) => {
                        assert(m[y] == d[y]);
                    },
                    None => {},
                }
            }
        },
        None => {
            assert(m[m.len() - 1].0 != k);
            match assoc_find(d, k, 0) {
                Some(y) => {
                    assert(m[y] == d[y]);
                },
                None => {},
            }
        },
    }
}

/// What a parent hands its children: exactly its values of inherited
/// properties.
pub proof fn lemma_for_children(m: Attrs, k: Seq<char>)
    requires
        assoc_distinct(m),
    ensures
        assoc_get(for_children(m), k) == if is_inherited(k) {
            assoc_get(m, k)
        } else {
            None
        },
    decreases m.len(),
{
    if m.len() == 0 {
        assert(assoc_find(m, k, 0) is None);
        assert(assoc_find(for_children(m), k, 0) is None);
    } else {
        lemma_distinct_get_last(m, k);
        lemma_for_children(m.drop_last(), k);
        let r = for_children(m.drop_last());
        if is_inherited(m.last().0) {
            lemma_assoc_insert_get(r, m.last().0, m.last().1, k);
        }
    }
}

proof fn lemma_own_values_distinct(n: NodeView, rules: Seq<RuleView>, anc: Seq<ElemView>)
    ensures
        assoc_distinct(own_values(n, rules, anc)),
{
    match n.kind {
        KindView::Text(_) => {},
        KindView::Element(tag, attrs) => {
            let e = elem_view_of(tag, attrs);
            let ks = isort(rule_keys(e, anc, rules, rules.len() as int));
            lemma_apply_keys_distinct(Seq::empty(), ks, rules);
            match assoc_get(attrs, "style"@) {
                Some(st) => {
                    lemma_apply_decls_distinct(apply_keys(Seq::empty(), ks, rules), inline_decls(st));
                },
                None => {},
            }
        },
    }
}

/// Down the styled tree: a child's value of a property is its own value
/// where the style sheet or its `style` attribute sets one; otherwise, for an
/// inherited property, its parent's value; otherwise unset. A text child has
/// no values of its own.
pub proof fn lemma_child_values(
    n: NodeView,
    rules: Seq<RuleView>,
    anc: Seq<ElemView>,
    inh: Attrs,
    tag: Seq<char>,
    attrs: Attrs,
    i: int,
    k: Seq<char>,
)
    requires
        n.kind == KindView::Element(tag, attrs),
        0 <= i < n.children.len(),
    ensures
        ({
            let sv = style_spec(n, rules, anc, inh);
            let c = n.children[i];
            let own = own_values(c, rules, anc.push(elem_view_of(tag, attrs)));
            assoc_get(sv.children[i].specified, k) == if is_inherited(k) && assoc_get(own, k) is None {
                assoc_get(sv.specified, k)
            } else {
                assoc_get(own, k)
            }
        }),
{
    let e = elem_view_of(tag, attrs);
    let sp = inherit_from(own_values(n, rules, anc), inh, 6);
    lemma_own_values_distinct(n, rules, anc);
    lemma_inherit_from_distinct(own_values(n, rules, anc), inh, 6);
    lemma_for_children(sp, k);
    let c = n.children[i];
    let own = own_values(c, rules, anc.push(e));
    let sv = style_spec(n, rules, anc, inh);
    let cv = style_spec(c, rules, anc.push(e), for_children(sp));
    assert(sv.specified == sp);
    assert(sv.children[i] == cv);
    match c.kind {
        KindView::Text(_) => {
            assert(cv.specified == for_children(sp));
            assert(assoc_find(own, k, 0) is None);
        },
        KindView::Element(_, _) => {
            lemma_inherit(own, for_children(sp), k);
        },
    }
}


/// The texts of the text nodes among `cs`, joined in order (elements skipped).
pub open spec fn text_children(cs: Seq<NodeView>) -> Seq<char>
    decreases cs.len(),
{
    if cs.len() == 0 {
        Seq::empty()
    } else {
        text_children(cs.drop_last()) + match cs.last().kind {
            KindView::Text(t) => t,
            KindView::Element(_, _) => Seq::empty(),
        }
    }
}

/// The text a node holds directly: a text node's own text; for an element,
/// the texts of its direct text-node children joined in order, nested
/// elements ignored.
pub open spec fn own_text(n: NodeView) -> Seq<char> {
    match n.kind {
        KindView::Text(t) => t,
        KindView::Element(_, _) => text_children(n.children),
    }
}

/// The text a styled node holds directly (see `own_text`).
pub fn collect_text(node: &StyledNode) -> (r: String)
    ensures
        r@ == own_text(node_view(*node.node)),
{
    let n = node.node;
    proof {
        lemma_node_view_children(*n);
    }
    match &n.node_type {
        NodeType::Text(t) => t.clone(),
        NodeType::Element(_) => {
            let ghost cs = node_view(*n).children;
            let mut buf: Vec<char> = Vec::new();
            let mut i: usize = 0;
            assert(cs.take(0) =~= Seq::<NodeView>::empty());
            while i < n.children.len()
                invariant
                    cs == node_view(*n).children,
                    cs == views(n.children@),
                    i <= n.children@.len(),
                    buf@ == text_children(cs.take(i as int)),
                decreases n.children.len() - i,
            {
                assert(cs.take(i + 1).drop_last() =~= cs.take(i as int));
                assert(cs[i as int] == node_view(n.children@[i as int]));
                proof {
                    lemma_node_view_children(n.children@[i as int]);
                }
                match &n.children[i].node_type {
                    NodeType::Text(t) => {
                        crate::text::push_str(&mut buf, t.as_str());
                    },
                    NodeType::Element(_) => {
                        assert(buf@ =~= text_children(cs.take(i + 1)));
                    },
                }
                i = i + 1;
            }
            assert(cs.take(i as int) =~= cs);
            string_of(&buf)
        },
    }
}

/// What block layout makes of a child node.
#[derive(Debug, PartialEq, Eq, Clone, Copy, Structural)]
pub enum BoxKind {
    /// No box: blank text, `display: none`, or an element that is never shown.
    Skip,
    /// A box of wrapped text.
    Text,
    /// A block box.
    Block,
}

/// Tags whose elements are never laid out.
pub open spec fn unshown_tag(tag: Seq<char>) -> bool {
    tag == "script"@ || tag == "style"@ || tag == "head"@ || tag == "title"@
}

/// What block layout makes of a node with these specified values: a text
/// box for text that is not blank after trimming; nothing for an element
/// with `display: none` or a `script`, `style`, `head` or `title` element;
/// a block box for any other element.
pub open spec fn box_kind_of(n: NodeView, specified: Attrs) -> BoxKind {
    match n.kind {
        KindView::Text(_) => if trim(own_text(n)).len() == 0 {
            BoxKind::Skip
        } else {
            BoxKind::Text
        },
        KindView::Element(tag, _) => if display_of(assoc_get(specified, "display"@))
            == Display::Hidden || unshown_tag(tag) {
            BoxKind::Skip
        } else {
            BoxKind::Block
        },
    }
}

/// What block layout makes of a styled child node.
pub fn box_kind(child: &StyledNode) -> (r: BoxKind)
    ensures
        r == box_kind_of(node_view(*child.node), child.specified@),
{
    proof {
        lemma_node_view_children(*child.node);
    }
    match &child.node.node_type {
        NodeType::Text(_) => {
            let text = collect_text(child);
            let t = crate::text::trim_vec(&chars_of(text.as_str()));
            if t.len() == 0 {
                BoxKind::Skip
            } else {
                BoxKind::Text
            }
        },
        NodeType::Element(data) => {
            if child.display() == Display::Hidden {
                return BoxKind::Skip;
            }
            let tag = chars_of(data.tag_name.as_str());
            if chars_eq(&tag, &chars_of("script")) || chars_eq(&tag, &chars_of("style")) || chars_eq(
                &tag,
                &chars_of("head"),
            ) || chars_eq(&tag, &chars_of("title")) {
                BoxKind::Skip
            } else {
                BoxKind::Block
            }
        },
    }
}

} // verus!

verus! {

/// The nearest match below `hi` is the highest index below `hi` whose
/// ancestor the compound selector matches; there is none (the result is -1)
/// exactly when no ancestor below `hi` matches it.
pub proof fn lemma_nearest_match(anc: Seq<ElemView>, hi: int, parts: Seq<PartView>)
    requires
        0 <= hi <= anc.len(),
    ensures
        nearest_match(anc, hi, parts) == -1 <==> forall|j: int|
            0 <= j < hi ==> !#[trigger] matches_simple(anc[j], parts),
        nearest_match(anc, hi, parts) >= 0 ==> {
            let j = nearest_match(anc, hi, parts);
            &&& j < hi
            &&& matches_simple(anc[j], parts)
            &&& forall|k: int| j < k < hi ==> !#[trigger] matches_simple(anc[k], parts)
        },
        nearest_match(anc, hi, parts) >= -1,
    decreases hi,
{
    if hi > 0 && !matches_simple(anc[hi - 1], parts) {
        lemma_nearest_match(anc, hi - 1, parts);
    }
}

/// A descendant selector of two compounds matches an element exactly when
/// the element matches the second compound and some ancestor, at any depth,
/// matches the first.
pub proof fn lemma_descendant_match(
    e: ElemView,
    anc: Seq<ElemView>,
    outer: Seq<PartView>,
    inner: Seq<PartView>,
)
    ensures
        matches_selector(e, anc, seq![outer, inner]) <==> (matches_simple(e, inner) && exists|j: int|
            0 <= j < anc.len() && #[trigger] matches_simple(anc[j], outer)),
{
    let chain = seq![outer, inner];
    assert(chain.last() == inner);
    assert(chain[0] == outer);
    lemma_nearest_match(anc, anc.len() as int, outer);
    let j = nearest_match(anc, anc.len() as int, outer);
    assert(ancestors_match(anc, anc.len() as int, chain, 1) == (j >= 0 && ancestors_match(
        anc,
        j,
        chain,
        0,
    )));
    if j >= 0 {
        assert(matches_simple(anc[j], outer));
    }
}

} // verus!
