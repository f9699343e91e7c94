use wisp_web::css;
use wisp_web::html;
use wisp_web::style::{self, Display};
use wisp_web::values::{self, Color, ColorValue};

fn render_styles(src: &str, sheet: &str) -> (html::Node, css::Stylesheet) {
    (html::parse(src.to_string()), css::parse(sheet.to_string()))
}

#[test]
fn cascade_specificity_beats_source_order() {
    let (dom, sheet) = render_styles(
        "<div id=\"x\" class=\"c\">t</div>",
        "#x { color: red } .c { color: blue } div { color: green }",
    );
    assert!(style::specificities_fit(&sheet));
    let styled = style::style_tree(&dom, &sheet);
    assert_eq!(styled.get("color"), Some("red"));
}

#[test]
fn cascade_later_rule_wins_on_equal_specificity() {
    let (dom, sheet) = render_styles("<p class=\"a b\">t</p>", ".a { color: red } .b { color: blue }");
    let styled = style::style_tree(&dom, &sheet);
    assert_eq!(styled.get("color"), Some("blue"));
}

#[test]
fn inline_style_overrides_sheet() {
    let (dom, sheet) = render_styles("<p id=\"q\" style=\"color: pink; margin: 2px\">t</p>", "#q { color: red }");
    let styled = style::style_tree(&dom, &sheet);
    assert_eq!(styled.get("color"), Some("pink"));
    assert_eq!(styled.get("margin"), Some("2px"));
}

#[test]
fn inherited_properties_flow_to_children_and_text() {
    let (dom, sheet) = render_styles(
        "<div class=\"outer\"><span>hi</span></div>",
        ".outer { color: navy; margin: 9px }",
    );
    let styled = style::style_tree(&dom, &sheet);
    let span = &styled.children[0];
    assert_eq!(span.get("color"), Some("navy"));
    assert_eq!(span.get("margin"), None);
    let text = &span.children[0];
    assert_eq!(text.get("color"), Some("navy"));
    assert_eq!(style::collect_text(text), "hi");
    assert_eq!(style::collect_text(span), "hi");
}

#[test]
fn descendant_selector_needs_matching_ancestor() {
    let (dom, sheet) = render_styles(
        "<div><section class=\"s\"><p>a</p></section><p>b</p></div>",
        ".s p { color: red }",
    );
    let styled = style::style_tree(&dom, &sheet);
    let inner_p = &styled.children[0].children[0];
    let outer_p = &styled.children[1];
    assert_eq!(inner_p.get("color"), Some("red"));
    assert_eq!(outer_p.get("color"), None);
}

#[test]
fn display_and_get_or() {
    let (dom, sheet) = render_styles(
        "<div><a>x</a><b>y</b><i>z</i></div>",
        "a { display: none } b { display: inline } i { display: flex }",
    );
    let styled = style::style_tree(&dom, &sheet);
    assert_eq!(styled.children[0].display(), Display::Hidden);
    assert_eq!(styled.children[1].display(), Display::Inline);
    assert_eq!(styled.children[2].display(), Display::Block);
    assert_eq!(styled.display(), Display::Block);
    assert_eq!(styled.get_or("padding", "0px"), "0px");
    assert_eq!(styled.children[0].get_or("display", "block"), "none");
}

fn solid(s: &str) -> Option<(u8, u8, u8, u8)> {
    match values::parse_color(s) {
        Some(ColorValue::Solid(c)) => Some((c.r, c.g, c.b, c.a)),
        _ => None,
    }
}

#[test]
fn colors_hex_rgb_and_names() {
    assert_eq!(solid("#fff"), Some((255, 255, 255, 255)));
    assert_eq!(solid("  #1A2b3C "), Some((0x1a, 0x2b, 0x3c, 255)));
    assert_eq!(solid("#12"), None);
    assert_eq!(solid("#ggg"), None);
    assert_eq!(solid("rgb(1, 2, 3)"), Some((1, 2, 3, 255)));
    assert_eq!(solid("rgb(1, 2, 300)"), None);
    assert_eq!(solid("Navy"), Some((20, 30, 90, 255)));
    assert_eq!(solid("transparent"), Some((0, 0, 0, 0)));
    assert_eq!(solid("chartreuse"), None);
}

#[test]
fn colors_rgba_hands_back_alpha_text() {
    match values::parse_color("rgba(10, 20, 30, 0.5)") {
        Some(ColorValue::Rgba { r, g, b, alpha }) => {
            assert_eq!((r, g, b), (10, 20, 30));
            assert_eq!(alpha, "0.5");
        }
        other => panic!("unexpected {:?}", other),
    }
    assert!(values::parse_color("rgba(10, 20, x, 0.5)").is_none());
}

#[test]
fn color_reading_that_would_cut_a_character_is_refused() {
    // '#', one ASCII digit, then a two-byte character: six bytes, cut at byte 2
    assert!(values::try_parse_color("#aé000").is_none());
    assert!(values::try_parse_color("#abc").is_some());
}

#[test]
fn color_as_u32_packs_channels() {
    let c = Color { r: 0x12, g: 0x34, b: 0x56, a: 7 };
    assert_eq!(c.as_u32(), 0x123456);
    assert_eq!(Color::white().as_u32(), 0xffffff);
    assert_eq!(Color::black().as_u32(), 0);
    assert_eq!(Color::transparent().a, 0);
}

#[test]
fn non_inherited_properties_do_not_reach_text_children() {
    let (dom, sheet) = render_styles("<p>words</p>", "p { font-size: 20px; width: 10px }");
    let styled = style::style_tree(&dom, &sheet);
    let text = &styled.children[0];
    assert_eq!(text.get("font-size"), Some("20px"));
    assert_eq!(text.get("width"), None);
}

#[test]
fn element_text_is_its_direct_text_children() {
    let (dom, sheet) = render_styles("<p>one <b>two</b> three</p>", "");
    let styled = style::style_tree(&dom, &sheet);
    assert_eq!(style::collect_text(&styled), "one three");
    assert_eq!(style::box_kind(&styled), style::BoxKind::Block);
    assert_eq!(style::box_kind(&styled.children[0]), style::BoxKind::Text);
}

#[test]
fn blank_text_and_hidden_elements_get_no_box() {
    let (dom, sheet) = render_styles("<div>  <span>a</span><title>t</title><i>x</i></div>", "i { display: none }");
    let styled = style::style_tree(&dom, &sheet);
    assert_eq!(styled.children.len(), 3);
    assert_eq!(style::box_kind(&styled.children[0]), style::BoxKind::Block);
    assert_eq!(style::box_kind(&styled.children[1]), style::BoxKind::Skip);
    assert_eq!(style::box_kind(&styled.children[2]), style::BoxKind::Skip);
}
