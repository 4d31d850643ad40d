use kjr_browser::css::{self, Declaration, Rule, Selector, Stylesheet, Value};
use kjr_browser::html;
use kjr_browser::style::{extract_inline_styles, style_tree, PropertyMap, USER_AGENT_CSS};

fn px(v: &Value) -> Option<f32> {
    v.length_text().map(|t| t.parse().unwrap_or(0.0))
}

fn style_first_child(html_src: &str, css_src: &str) -> PropertyMap {
    let dom = html::parse(html_src);
    let sheet = css::parse(css_src);
    let tree = style_tree(&dom, &[&sheet]);
    tree.children[0].specified_values.clone()
}

#[test]
fn matches_element_selector() {
    let values = style_first_child("<html><p>x</p></html>", "p { font-size: 20px; }");
    assert_eq!(px(values.get("font-size").unwrap()), Some(20.0));
}

#[test]
fn matches_class_selector() {
    let values =
        style_first_child(r#"<html><p class="a card">x</p></html>"#, ".card { font-size: 9px; }");
    assert_eq!(px(values.get("font-size").unwrap()), Some(9.0));
}

#[test]
fn matches_id_selector() {
    let values =
        style_first_child(r#"<html><p id="main">x</p></html>"#, "#main { font-size: 7px; }");
    assert_eq!(px(values.get("font-size").unwrap()), Some(7.0));
}

#[test]
fn requires_all_conditions_to_match() {
    let values = style_first_child("<html><p>x</p></html>", "p.card { font-size: 99px; }");
    assert!(values.get("font-size").is_none());
}

#[test]
fn resolves_conflict_by_specificity() {
    let values = style_first_child(
        r#"<html><p id="main" class="card">x</p></html>"#,
        "#main { font-size: 30px; } p { font-size: 10px; } .card { font-size: 20px; }",
    );
    assert_eq!(px(values.get("font-size").unwrap()), Some(30.0));
}

#[test]
fn later_rule_wins_on_equal_specificity() {
    let values = style_first_child(
        "<html><p>x</p></html>",
        "p { font-size: 10px; } p { font-size: 40px; }",
    );
    assert_eq!(px(values.get("font-size").unwrap()), Some(40.0));
}

#[test]
fn author_origin_beats_user_agent_origin() {
    let dom = html::parse(r#"<html><p id="main">x</p></html>"#);
    let ua = css::parse("#main { font-size: 50px; }");
    let author = css::parse("p { font-size: 12px; }");
    let tree = style_tree(&dom, &[&ua, &author]);
    let font_size = px(tree.children[0].specified_values.get("font-size").unwrap());
    assert_eq!(font_size, Some(12.0));
}

#[test]
fn inherits_color_to_descendants() {
    let dom = html::parse("<html><body><p>x</p></body></html>");
    let sheet = css::parse("body { color: red; }");
    let tree = style_tree(&dom, &[&sheet]);
    let p = &tree.children[0].children[0];
    let color = p.color("color").unwrap();
    assert_eq!((color.r, color.g, color.b), (0xff, 0x00, 0x00));
}

#[test]
fn does_not_inherit_margin() {
    let dom = html::parse("<html><body><p>x</p></body></html>");
    let sheet = css::parse("body { margin-top: 40px; }");
    let tree = style_tree(&dom, &[&sheet]);
    let p = &tree.children[0].children[0];
    assert!(p.value("margin-top").is_none());
}

#[test]
fn extracts_inline_style_element() {
    let dom = html::parse("<html><head><style>p { color: red; }</style></head></html>");
    let css_text = extract_inline_styles(&dom);
    assert!(css_text.contains("p { color: red; }"), "取り出した CSS: {css_text}");
}

#[test]
fn text_nodes_take_only_inherited_properties() {
    let dom = html::parse("<html><p>x</p></html>");
    let sheet = css::parse("p { color: red; margin-top: 3px; display: block; }");
    let tree = style_tree(&dom, &[&sheet]);
    let text = &tree.children[0].children[0];
    assert!(text.color("color").is_some());
    assert!(text.value("margin-top").is_none());
    assert!(text.keyword("display").is_none());
}

#[test]
fn extracts_every_style_element_with_line_ends() {
    let dom = html::parse("<html><style>a{}</style><div><style>b{}</style></div></html>");
    assert_eq!(extract_inline_styles(&dom), "a{}\nb{}\n");
}

#[test]
fn user_agent_sheet_hides_head() {
    let dom = html::parse("<html><head><title>t</title></head><body><p>x</p></body></html>");
    let ua = css::parse(USER_AGENT_CSS);
    let tree = style_tree(&dom, &[&ua]);
    assert_eq!(tree.children[0].keyword("display"), Some("none"));
    assert_eq!(tree.children[1].keyword("display"), Some("block"));
    assert_eq!(tree.tag_name(), Some("html"));
}

#[test]
fn later_declaration_in_rule_wins() {
    let values = style_first_child("<html><p>x</p></html>", "p { font-size: 1px; font-size: 2px; }");
    assert_eq!(px(values.get("font-size").unwrap()), Some(2.0));
}

#[test]
fn universal_selector_matches_every_element() {
    let values = style_first_child("<html><p>x</p></html>", "* { font-size: 11px; }");
    assert_eq!(px(values.get("font-size").unwrap()), Some(11.0));
}

#[test]
fn rule_applies_with_its_highest_matching_specificity() {
    let length = |n: &str| Value::Length(n.to_string());
    // selectors in written order, not sorted: `p, #main` then `.card`
    let sheet = Stylesheet {
        rules: vec![
            Rule {
                selectors: vec![
                    Selector { tag_name: Some("p".to_string()), id: None, classes: vec![] },
                    Selector { tag_name: None, id: Some("main".to_string()), classes: vec![] },
                ],
                declarations: vec![Declaration { name: "font-size".to_string(), value: length("10") }],
            },
            Rule {
                selectors: vec![Selector { tag_name: None, id: None, classes: vec!["card".to_string()] }],
                declarations: vec![Declaration { name: "font-size".to_string(), value: length("20") }],
            },
        ],
    };
    let dom = html::parse(r#"<html><p id="main" class="card">x</p></html>"#);
    let tree = style_tree(&dom, &[&sheet]);
    // the first rule applies with (1, 0, 0) through `#main`, above `.card`'s (0, 1, 0)
    assert_eq!(px(tree.children[0].specified_values.get("font-size").unwrap()), Some(10.0));
}
