use kjr_browser::dom::Node;
use kjr_browser::html::parse;
use kjr_browser::strmap::StrMap;

#[test]
fn dump_indents_children() {
    let dom = parse("<html><p class=\"a\">hi</p></html>");
    assert_eq!(dom.dump(0), "Element <html>\n  Element <p class=\"a\">\n    Text \"hi\"\n");
}

#[test]
fn dump_starts_at_given_depth() {
    let n = Node::text("q\"".to_string());
    assert_eq!(n.dump(2), "    Text \"q\\\"\"\n");
}

#[test]
fn elem_and_text_constructors() {
    let mut attrs = StrMap::new();
    attrs.insert("id".to_string(), "x".to_string());
    let e = Node::elem("div".to_string(), attrs, vec![Node::text("t".to_string())]);
    assert_eq!(e.tag_name(), Some("div"));
    assert_eq!(e.children[0].tag_name(), None);
}
