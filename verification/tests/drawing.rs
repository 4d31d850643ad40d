use kjr_browser::css;
use kjr_browser::html;
use kjr_browser::render::{line_label, render_steps, text_color, Step};
use kjr_browser::style::{style_tree, StyledNode, USER_AGENT_CSS};

/// Styles a page with the user agent sheet and the given author sheet, as the
/// browser does, and hands the styled tree to `f`.
fn with_page<R>(html_src: &str, css_src: &str, f: impl FnOnce(&StyledNode) -> R) -> R {
    let dom = html::parse(html_src);
    let ua = css::parse(USER_AGENT_CSS);
    let author = css::parse(css_src);
    let styled = style_tree(&dom, &[&ua, &author]);
    f(&styled)
}

/// The texts drawn, in order.
fn texts(root: &StyledNode) -> Vec<String> {
    render_steps(root)
        .iter()
        .filter_map(|s| match s {
            Step::Line(n, t) => Some(line_label(n, t)),
            _ => None,
        })
        .collect()
}

/// The font size a line is drawn at, in pixels (18 unless set; a length whose
/// number does not read is 0).
fn font_size(n: &StyledNode) -> f32 {
    n.value("font-size")
        .and_then(|v| v.length_text())
        .map(|t| t.parse::<f32>().unwrap_or(0.0))
        .unwrap_or(18.0)
}

#[test]
fn generates_text_commands() {
    with_page("<html><body><h1>Title</h1><p>body</p></body></html>", "", |s| {
        assert_eq!(texts(s), vec!["Title", "body"]);
    });
}

#[test]
fn applies_css_color_and_font_size() {
    with_page(
        "<html><body><p>x</p></body></html>",
        "p { color: #ff0000; font-size: 42px; }",
        |s| {
            let steps = render_steps(s);
            let n = steps
                .iter()
                .find_map(|st| match st {
                    Step::Line(n, _) => Some(*n),
                    _ => None,
                })
                .unwrap();
            let color = text_color(n);
            assert_eq!((color.r, color.g, color.b), (0xff, 0x00, 0x00));
            assert_eq!(font_size(n), 42.0);
        },
    );
}

#[test]
fn specificity_affects_rendering() {
    with_page(
        r#"<html><body><p id="main">x</p></body></html>"#,
        "p { font-size: 10px; } #main { font-size: 60px; }",
        |s| {
            let steps = render_steps(s);
            let n = steps
                .iter()
                .find_map(|st| match st {
                    Step::Line(n, _) => Some(*n),
                    _ => None,
                })
                .unwrap();
            assert_eq!(font_size(n), 60.0);
        },
    );
}

#[test]
fn display_none_hides_element() {
    with_page(
        r#"<html><body><p>見える</p><p class="x">消える</p></body></html>"#,
        ".x { display: none; }",
        |s| {
            assert_eq!(texts(s), vec!["見える"]);
        },
    );
}

#[test]
fn flattens_inline_elements() {
    with_page("<html><body><p>a <strong>b</strong> c</p></body></html>", "", |s| {
        assert_eq!(texts(s), vec!["a b c"]);
    });
}

#[test]
fn does_not_render_style_element_content() {
    with_page(
        "<html><head><style>p { color: red; }</style></head><body><p>x</p></body></html>",
        "",
        |s| {
            assert_eq!(texts(s), vec!["x"]);
        },
    );
}

#[test]
fn keeps_punctuation_attached() {
    with_page("<html><body><p>Hello, <strong>world</strong>!</p></body></html>", "", |s| {
        assert_eq!(texts(s), vec!["Hello, world!"]);
    });
}

#[test]
fn does_not_split_adjacent_inline_text() {
    with_page("<html><body><p>foo<strong>bar</strong>baz</p></body></html>", "", |s| {
        assert_eq!(texts(s), vec!["foobarbaz"]);
    });
}

#[test]
fn keeps_space_between_inline_elements() {
    with_page(
        "<html><body><p><strong>a</strong> <strong>b</strong></p></body></html>",
        "",
        |s| {
            assert_eq!(texts(s), vec!["a b"]);
        },
    );
}

#[test]
fn ignores_source_indentation() {
    with_page("<html>\n  <body>\n    <p>text</p>\n  </body>\n</html>", "", |s| {
        assert_eq!(texts(s), vec!["text"]);
    });
}

#[test]
fn collapses_whitespace_around_hidden_element() {
    with_page(
        r#"<html><body><p>a <span class="x">hidden</span> b</p></body></html>"#,
        ".x { display: none; }",
        |s| {
            assert_eq!(texts(s), vec!["a b"]);
        },
    );
}

#[test]
fn steps_open_and_close_each_shown_block() {
    with_page("<html><body><p>one</p><hr><p class=\"x\">two</p></body></html>", ".x { display: none; }", |s| {
        let kinds: Vec<&str> = render_steps(s)
            .iter()
            .map(|st| match st {
                Step::Enter(_) => "enter",
                Step::Sized(_) => "sized",
                Step::Line(_, _) => "line",
                Step::Leave(_) => "leave",
            })
            .collect();
        // html holds body; body holds p (a line), hr (a box); the hidden p gives nothing
        assert_eq!(
            kinds,
            vec!["enter", "enter", "enter", "line", "leave", "enter", "sized", "leave", "leave", "leave"]
        );
    });
}
