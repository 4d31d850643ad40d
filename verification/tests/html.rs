use kjr_browser::dom::NodeType;
use kjr_browser::html::{collapse_whitespace, parse, parse_checked};

#[test]
fn parses_single_element_with_text() {
    let dom = parse("<html><h1>Hello</h1></html>");
    let h1 = &dom.children[0];
    assert_eq!(h1.tag_name(), Some("h1"));
    match &h1.children[0].node_type {
        NodeType::Text(t) => assert_eq!(t, "Hello"),
        _ => panic!("expected text node"),
    }
}

#[test]
fn parses_nested_elements() {
    let dom = parse("<html><div><p>text</p></div></html>");
    let div = &dom.children[0];
    assert_eq!(div.tag_name(), Some("div"));
    assert_eq!(div.children[0].tag_name(), Some("p"));
}

#[test]
fn parses_attributes() {
    let dom = parse(r#"<html><div class="main" id=root data-x='1'></div></html>"#);
    let NodeType::Element(data) = &dom.children[0].node_type else {
        panic!("expected element");
    };
    assert_eq!(data.attributes.get("class").unwrap(), "main");
    assert_eq!(data.attributes.get("id").unwrap(), "root");
    assert_eq!(data.attributes.get("data-x").unwrap(), "1");
}

#[test]
fn skips_comments_and_doctype() {
    let dom = parse("<!DOCTYPE html><html><!-- hidden --><p>shown</p></html>");
    assert_eq!(dom.children.len(), 1);
    assert_eq!(dom.children[0].tag_name(), Some("p"));
}

#[test]
fn handles_void_elements() {
    let dom = parse("<html><p>a</p><hr><p>b</p></html>");
    let tags: Vec<_> = dom.children.iter().map(|n| n.tag_name().unwrap()).collect();
    assert_eq!(tags, vec!["p", "hr", "p"]);
}

#[test]
fn wraps_fragments_in_html_root() {
    let dom = parse("<p>a</p><p>b</p>");
    assert_eq!(dom.tag_name(), Some("html"));
    assert_eq!(dom.children.len(), 2);
}

#[test]
fn collapses_whitespace_in_text() {
    let dom = parse("<html><p>a\n   b</p></html>");
    match &dom.children[0].children[0].node_type {
        NodeType::Text(t) => assert_eq!(t, "a b"),
        _ => panic!("expected text node"),
    }
}

#[test]
fn handles_all_void_elements() {
    let dom = parse(
        "<html><area><base><br><col><embed><hr><img><input><link><meta><param>\
         <source><track><wbr><p>after</p></html>",
    );
    let tags: Vec<_> = dom.children.iter().filter_map(|n| n.tag_name()).collect();
    assert_eq!(
        tags,
        vec![
            "area", "base", "br", "col", "embed", "hr", "img", "input", "link", "meta",
            "param", "source", "track", "wbr", "p"
        ],
        "void 要素が後続の兄弟を子にしてしまっている"
    );
}

#[test]
fn preserves_boundary_whitespace() {
    let dom = parse("<html><p>Hello, <strong>world</strong>!</p></html>");
    let p = &dom.children[0];
    let text_of = |i: usize| match &p.children[i].node_type {
        NodeType::Text(t) => t.clone(),
        _ => panic!("expected text node"),
    };
    assert_eq!(text_of(0), "Hello, ", "閉じ側の空白が残る");
    assert_eq!(text_of(2), "!", "空白が無い側には足さない");
}

#[test]
fn does_not_invent_whitespace() {
    let dom = parse("<html><p>foo<strong>bar</strong>baz</p></html>");
    match &dom.children[0].children[0].node_type {
        NodeType::Text(t) => assert_eq!(t, "foo"),
        _ => panic!("expected text node"),
    }
}

#[test]
fn collapse_keeps_one_space_at_each_end() {
    assert_eq!(collapse_whitespace("  a \t\n b  "), " a b ");
    assert_eq!(collapse_whitespace("\n\n"), " ");
    assert_eq!(collapse_whitespace(""), "");
    assert_eq!(collapse_whitespace("x"), "x");
}

#[test]
fn collapse_is_idempotent_on_example() {
    let once = collapse_whitespace(" a \u{3000} b\t");
    assert_eq!(collapse_whitespace(&once), once);
}

#[test]
fn self_closing_tag_has_no_children() {
    let dom = parse("<html><br/><p>x</p></html>");
    assert_eq!(dom.children.len(), 2);
    assert_eq!(dom.children[0].tag_name(), Some("br"));
    assert!(dom.children[0].children.is_empty());
}

#[test]
fn later_duplicate_attribute_replaces_value() {
    let dom = parse("<html><a x=1 y x=2></a></html>");
    let NodeType::Element(data) = &dom.children[0].node_type else {
        panic!("expected element");
    };
    assert_eq!(data.attributes.get("x").unwrap(), "2");
    assert_eq!(data.attributes.get("y").unwrap(), "");
    assert_eq!(data.attributes.len(), 2);
}

#[test]
fn unterminated_tag_cannot_be_parsed() {
    assert!(parse_checked("<html><p").is_none());
    assert!(parse_checked("<a href=").is_none());
    assert!(parse_checked("<p>ok</p>").is_some());
}

#[test]
fn top_level_blank_text_is_dropped() {
    let dom = parse("  \n<html>\n<p>x</p>\n</html>\n");
    assert_eq!(dom.tag_name(), Some("html"));
    // inside the element, whitespace between tags stays as text
    assert_eq!(dom.children.len(), 3);
}

#[test]
fn stray_closing_tag_ends_the_document() {
    let dom = parse("<p>a</p></div><p>b</p>");
    assert_eq!(dom.children.len(), 1);
}
