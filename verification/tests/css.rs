use kjr_browser::css::{parse, parse_hex_color, parse_value, Value};
use kjr_browser::cursor::Cursor;

fn to_px(v: &Value) -> Option<f32> {
    v.length_text().map(|t| t.parse().unwrap_or(0.0))
}

#[test]
fn parses_simple_rule() {
    let sheet = parse("h1 { color: red; }");
    assert_eq!(sheet.rules.len(), 1);
    let rule = &sheet.rules[0];
    assert_eq!(rule.selectors[0].tag_name.as_deref(), Some("h1"));
    assert_eq!(rule.declarations[0].name, "color");
    let color = rule.declarations[0].value.to_color().unwrap();
    assert_eq!((color.r, color.g, color.b), (0xff, 0x00, 0x00));
}

#[test]
fn parses_selector_kinds() {
    let sheet = parse("div.card#main { color: black; }");
    let selector = &sheet.rules[0].selectors[0];
    assert_eq!(selector.tag_name.as_deref(), Some("div"));
    assert_eq!(selector.id.as_deref(), Some("main"));
    assert_eq!(selector.classes, vec!["card"]);
}

#[test]
fn computes_specificity() {
    let id_sheet = parse("#main { color: red; }");
    let class_sheet = parse(".card { color: red; }");
    let tag_sheet = parse("p { color: red; }");
    let id = id_sheet.rules[0].selectors[0].specificity();
    let class = class_sheet.rules[0].selectors[0].specificity();
    let tag = tag_sheet.rules[0].selectors[0].specificity();
    assert_eq!(id, (1, 0, 0));
    assert_eq!(class, (0, 1, 0));
    assert_eq!(tag, (0, 0, 1));
    assert!(id > class && class > tag, "ID > class > 要素 の順に強い");
}

#[test]
fn parses_selector_list() {
    let sheet = parse("h1, h2, .title { color: navy; }");
    assert_eq!(sheet.rules[0].selectors.len(), 3);
}

#[test]
fn parses_hex_colors() {
    let sheet = parse("a { color: #f00; } b { color: #00ff80; }");
    let short = sheet.rules[0].declarations[0].value.to_color().unwrap();
    let long = sheet.rules[1].declarations[0].value.to_color().unwrap();
    assert_eq!((short.r, short.g, short.b), (0xff, 0x00, 0x00));
    assert_eq!((long.r, long.g, long.b), (0x00, 0xff, 0x80));
}

#[test]
fn parses_length_values() {
    let sheet = parse("p { font-size: 16px; margin-top: 1.5em; }");
    assert_eq!(to_px(&sheet.rules[0].declarations[0].value), Some(16.0));
    assert_eq!(to_px(&sheet.rules[0].declarations[1].value), Some(1.5));
}

#[test]
fn parses_keyword_values() {
    let sheet = parse("p { display: none; }");
    assert_eq!(sheet.rules[0].declarations[0].value.as_keyword(), Some("none"));
}

#[test]
fn skips_malformed_declaration() {
    let sheet = parse("p { color; font-size: 20px; }");
    let names: Vec<&str> =
        sheet.rules[0].declarations.iter().map(|d| d.name.as_str()).collect();
    assert_eq!(names, vec!["font-size"]);
}

#[test]
fn orders_selectors_most_specific_first() {
    let sheet = parse("p, #a, .b, div.c { color: red; }");
    let specs: Vec<_> = sheet.rules[0].selectors.iter().map(|s| s.specificity()).collect();
    assert_eq!(specs, vec![(1, 0, 0), (0, 1, 1), (0, 1, 0), (0, 0, 1)]);
}

#[test]
fn equal_specificity_keeps_written_order() {
    let sheet = parse("a, b { color: red; }");
    let tags: Vec<_> =
        sheet.rules[0].selectors.iter().map(|s| s.tag_name.clone().unwrap()).collect();
    assert_eq!(tags, vec!["a", "b"]);
}

#[test]
fn rule_without_selector_is_dropped() {
    let sheet = parse("{ color: red; } p { color: blue; }");
    assert_eq!(sheet.rules.len(), 1);
    assert_eq!(sheet.rules[0].selectors[0].tag_name.as_deref(), Some("p"));
}

#[test]
fn hex_color_of_other_length_is_black() {
    let sheet = parse("a { color: #abcd; }");
    let c = sheet.rules[0].declarations[0].value.to_color().unwrap();
    assert_eq!((c.r, c.g, c.b), (0, 0, 0));
}

#[test]
fn keyword_is_trimmed_and_named_colors_resolve() {
    let sheet = parse("a { display: inline block ; color: grey }");
    assert_eq!(sheet.rules[0].declarations[0].value.as_keyword(), Some("inline block"));
    let c = sheet.rules[0].declarations[1].value.to_color().unwrap();
    assert_eq!((c.r, c.g, c.b), (0x80, 0x80, 0x80));
}

#[test]
fn missing_value_is_empty_keyword() {
    let sheet = parse("a { color:");
    assert_eq!(sheet.rules[0].declarations[0].value.as_keyword(), Some(""));
}

#[test]
fn universal_selector_is_kept() {
    let sheet = parse("* { color: red; }");
    assert_eq!(sheet.rules.len(), 1);
    let sel = &sheet.rules[0].selectors[0];
    assert!(sel.tag_name.is_none() && sel.id.is_none() && sel.classes.is_empty());
    assert_eq!(sel.specificity(), (0, 0, 0));
    let sheet = parse("*.card, * { margin-top: 1px; }");
    assert_eq!(sheet.rules[0].selectors.len(), 2);
    assert_eq!(sheet.rules[0].selectors[0].classes, vec!["card".to_string()]);
}

#[test]
fn short_hex_color_doubles_each_digit() {
    for (short, long) in [("#f00", "#ff0000"), ("#1a9", "#11aa99"), ("#ABC", "#AABBCC")] {
        let a = parse_hex_color(&mut Cursor::new(short)).to_color().unwrap();
        let b = parse_hex_color(&mut Cursor::new(long)).to_color().unwrap();
        assert_eq!((a.r, a.g, a.b), (b.r, b.g, b.b));
        let c = parse_value(&mut Cursor::new(short)).to_color().unwrap();
        assert_eq!((c.r, c.g, c.b), (b.r, b.g, b.b));
    }
}

#[test]
fn every_parsed_rule_has_sorted_selectors_and_named_declarations() {
    let sheet = parse("p, #a, .b { color: red; 9x: 1px; ; bad } * {} { x: y } h1.c#d, h2 { margin-top: 2px }");
    assert_eq!(sheet.rules.len(), 3);
    for rule in &sheet.rules {
        assert!(!rule.selectors.is_empty());
        for w in rule.selectors.windows(2) {
            assert!(w[0].specificity() >= w[1].specificity());
        }
        for d in &rule.declarations {
            assert!(!d.name.is_empty());
            assert!(d.name.chars().all(|c| c.is_ascii_alphanumeric() || c == '-' || c == '_'));
        }
    }
}
