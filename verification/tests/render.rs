use kjr_browser::css;
use kjr_browser::html;
use kjr_browser::render::{block_kind, collect_inline_text, find_body_background, line_label, text_color, BlockKind};
use kjr_browser::style::{style_tree, StyledNode, USER_AGENT_CSS};

fn with_styled<R>(html_src: &str, css_src: &str, f: impl FnOnce(&StyledNode) -> R) -> R {
    let dom = html::parse(html_src);
    let ua = css::parse(USER_AGENT_CSS);
    let author = css::parse(css_src);
    let styled = style_tree(&dom, &[&ua, &author]);
    f(&styled)
}

fn line(kind: BlockKind) -> Option<String> {
    match kind {
        BlockKind::Line(t) => Some(t),
        _ => None,
    }
}

#[test]
fn paragraph_with_inline_elements_is_one_line() {
    with_styled("<html><body><p>a <strong>b</strong> c</p></body></html>", "", |s| {
        assert_eq!(line(block_kind(&s.children[0].children[0])), Some("a b c".to_string()));
    });
}

#[test]
fn punctuation_stays_attached() {
    with_styled("<html><body><p>Hello, <strong>world</strong>!</p></body></html>", "", |s| {
        assert_eq!(line(block_kind(&s.children[0].children[0])), Some("Hello, world!".to_string()));
    });
}

#[test]
fn adjacent_inline_text_is_not_split() {
    with_styled("<html><body><p>foo<strong>bar</strong>baz</p></body></html>", "", |s| {
        assert_eq!(collect_inline_text(&s.children[0].children[0]), "foobarbaz");
    });
}

#[test]
fn hidden_element_leaves_one_space() {
    with_styled(
        r#"<html><body><p>a <span class="x">hidden</span> b</p></body></html>"#,
        ".x { display: none; }",
        |s| {
            let p = &s.children[0].children[0];
            assert_eq!(collect_inline_text(p), "a  b");
            assert_eq!(line(block_kind(p)), Some("a b".to_string()));
        },
    );
}

#[test]
fn display_none_block_is_hidden() {
    with_styled(r#"<html><body><p class="x">gone</p></body></html>"#, ".x { display: none; }", |s| {
        assert!(matches!(block_kind(&s.children[0].children[0]), BlockKind::Hidden));
    });
}

#[test]
fn body_holding_blocks_is_a_container() {
    with_styled("<html><body><p>first</p><p>second</p></body></html>", "", |s| {
        assert!(matches!(block_kind(&s.children[0]), BlockKind::Container));
        assert_eq!(collect_inline_text(&s.children[0]), "");
    });
}

#[test]
fn hr_is_a_sized_block() {
    with_styled("<html><body><hr></body></html>", "", |s| {
        assert!(matches!(block_kind(&s.children[0].children[0]), BlockKind::Sized));
    });
}

#[test]
fn page_background_comes_from_body() {
    with_styled("<html><body><p>x</p></body></html>", "body { background-color: #00ff00; }", |s| {
        let c = find_body_background(s).unwrap();
        assert_eq!((c.r, c.g, c.b), (0x00, 0xff, 0x00));
    });
    let dom = html::parse("<html><p>x</p></html>");
    let sheet = css::parse("");
    let styled = style_tree(&dom, &[&sheet]);
    assert!(find_body_background(&styled).is_none());
}

#[test]
fn text_color_defaults_to_dark_grey() {
    let dom = html::parse("<html><p>x</p></html>");
    let sheet = css::parse("");
    let styled = style_tree(&dom, &[&sheet]);
    let c = text_color(&styled.children[0]);
    assert_eq!((c.r, c.g, c.b), (0x33, 0x33, 0x3d));
    with_styled("<html><body><p>x</p></body></html>", "p { color: #ff0000; }", |s| {
        let c = text_color(&s.children[0].children[0]);
        assert_eq!((c.r, c.g, c.b), (0xff, 0x00, 0x00));
    });
}

#[test]
fn list_items_get_a_bullet() {
    with_styled("<html><body><ul><li>one</li></ul><p>two</p></body></html>", "", |s| {
        let li = &s.children[0].children[0].children[0];
        assert_eq!(line_label(li, "one"), "・one");
        assert_eq!(line_label(&s.children[0].children[1], "two"), "two");
    });
}

#[test]
fn style_element_content_is_not_drawn() {
    with_styled("<html><head><style>p { color: red; }</style></head><body><p>x</p></body></html>", "", |s| {
        assert!(matches!(block_kind(&s.children[0]), BlockKind::Hidden));
    });
}
