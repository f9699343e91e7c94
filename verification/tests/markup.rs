use wisp_web::css::{self, SimpleSelectorPart};
use wisp_web::html::{self, AttrMap, NodeType};

fn element_tag(n: &html::Node) -> Option<String> {
    match &n.node_type {
        NodeType::Element(d) => Some(d.tag_name.clone()),
        NodeType::Text(_) => None,
    }
}

fn text_of(n: &html::Node) -> Option<String> {
    match &n.node_type {
        NodeType::Text(t) => Some(t.clone()),
        NodeType::Element(_) => None,
    }
}

#[test]
fn css_parses_rule_with_selectors_and_declarations() {
    let sheet = css::parse("div.card#main, p { color: red; margin: 4px }".to_string());
    assert_eq!(sheet.rules.len(), 1);
    let rule = &sheet.rules[0];
    assert_eq!(rule.selectors.len(), 2);
    let parts = &rule.selectors[0].chain[0].parts;
    assert_eq!(parts.len(), 3);
    assert_eq!(parts[0], SimpleSelectorPart::Tag("div".to_string()));
    assert_eq!(parts[1], SimpleSelectorPart::Class("card".to_string()));
    assert_eq!(parts[2], SimpleSelectorPart::Id("main".to_string()));
    assert_eq!(rule.declarations.len(), 2);
    assert_eq!(rule.declarations[0].name, "color");
    assert_eq!(rule.declarations[0].value, "red");
    assert_eq!(rule.declarations[1].name, "margin");
    assert_eq!(rule.declarations[1].value, "4px");
}

#[test]
fn css_descendant_selector_and_specificity() {
    let sheet = css::parse("ul li.item { x: 1 }".to_string());
    let sel = &sheet.rules[0].selectors[0];
    assert_eq!(sel.chain.len(), 2);
    assert_eq!(sel.specificity(), (0, 1, 2));
    let sheet = css::parse("#a .b .c * { y: 2 }".to_string());
    assert_eq!(sheet.rules[0].selectors[0].specificity(), (1, 2, 0));
}

#[test]
fn css_skips_comments_and_accepts_empty_input() {
    let sheet = css::parse("/* note */ h1 { color: blue; } /* end */".to_string());
    assert_eq!(sheet.rules.len(), 1);
    assert_eq!(sheet.rules[0].declarations[0].value, "blue");
    let empty = css::parse(String::new());
    assert_eq!(empty.rules.len(), 0);
}

#[test]
fn html_parses_nested_elements_attributes_and_text() {
    let dom = html::parse("<div id=\"main\" class=\"a b\"><p>Hi &amp; bye</p><br></div>".to_string());
    assert_eq!(element_tag(&dom), Some("div".to_string()));
    match &dom.node_type {
        NodeType::Element(d) => {
            assert_eq!(d.id().map(|s| s.as_str()), Some("main"));
            assert_eq!(d.classes(), vec!["a".to_string(), "b".to_string()]);
        }
        NodeType::Text(_) => panic!("expected an element"),
    }
    assert_eq!(dom.children.len(), 2);
    assert_eq!(element_tag(&dom.children[0]), Some("p".to_string()));
    assert_eq!(text_of(&dom.children[0].children[0]), Some("Hi & bye".to_string()));
    assert_eq!(element_tag(&dom.children[1]), Some("br".to_string()));
    assert_eq!(dom.children[1].children.len(), 0);
}

#[test]
fn html_wraps_several_top_level_nodes_in_html() {
    let dom = html::parse("<!DOCTYPE html><!-- c --><p>a</p><p>b</p>".to_string());
    assert_eq!(element_tag(&dom), Some("html".to_string()));
    assert_eq!(dom.children.len(), 2);
}

#[test]
fn html_lowercases_tags_and_keeps_style_text_raw() {
    let dom = html::parse("<STYLE>p > a { color: red }</style>".to_string());
    assert_eq!(element_tag(&dom), Some("style".to_string()));
    assert_eq!(text_of(&dom.children[0]), Some("p > a { color: red }".to_string()));
    // the closing tag is looked for as written after lowercasing the open tag
    let dom = html::parse("<STYLE>x</STYLE>".to_string());
    assert_eq!(text_of(&dom.children[0]), Some("x</STYLE>".to_string()));
}

#[test]
fn attr_map_insert_then_get() {
    let mut m = AttrMap::new();
    m.insert("k".to_string(), "1".to_string());
    m.insert("j".to_string(), "2".to_string());
    m.insert("k".to_string(), "3".to_string());
    assert_eq!(m.len(), 2);
    assert_eq!(m.get("k").map(|s| s.as_str()), Some("3"));
    assert_eq!(m.get("j").map(|s| s.as_str()), Some("2"));
    assert_eq!(m.get("z"), None);
    let copy = m.duplicate();
    assert_eq!(copy.get("k").map(|s| s.as_str()), Some("3"));
}

#[test]
fn text_and_elem_constructors() {
    let t = html::text("hello".to_string());
    assert_eq!(text_of(&t), Some("hello".to_string()));
    let mut attrs = AttrMap::new();
    attrs.insert("class".to_string(), " x  y ".to_string());
    let e = html::elem("span".to_string(), attrs, vec![t]);
    match &e.node_type {
        NodeType::Element(d) => assert_eq!(d.classes(), vec!["x".to_string(), "y".to_string()]),
        NodeType::Text(_) => panic!("expected an element"),
    }
    assert_eq!(e.children.len(), 1);
}

#[test]
fn specificity_of_joined_chains_adds_up() {
    let a = css::parse("#x .y { k: v }".to_string());
    let b = css::parse("p.q a { k: v }".to_string());
    let ab = css::parse("#x .y p.q a { k: v }".to_string());
    let (s1, s2, s3) = (
        a.rules[0].selectors[0].specificity(),
        b.rules[0].selectors[0].specificity(),
        ab.rules[0].selectors[0].specificity(),
    );
    assert_eq!(s3, (s1.0 + s2.0, s1.1 + s2.1, s1.2 + s2.2));
    assert_eq!(s3, (1, 2, 2));
    let swapped = css::parse("a p.q .y #x { k: v }".to_string());
    assert_eq!(swapped.rules[0].selectors[0].specificity(), s3);
    let empty = css::Selector { chain: vec![] };
    assert_eq!(empty.specificity(), (0, 0, 0));
}
