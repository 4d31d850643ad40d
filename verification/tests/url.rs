use kjr_browser::url::normalize;

#[test]
fn keeps_full_url() {
    assert_eq!(normalize("https://example.com/a?b=c").unwrap().as_str(), "https://example.com/a?b=c");
}

#[test]
fn adds_https_to_domain() {
    assert_eq!(normalize("example.com").unwrap().as_str(), "https://example.com/");
}

#[test]
fn falls_back_to_search() {
    let url = url::Url::parse(&normalize("rust webview").unwrap()).unwrap();
    assert_eq!(url.host_str(), Some("duckduckgo.com"));
    assert_eq!(url.query(), Some("q=rust+webview"));
}

#[test]
fn rejects_empty() {
    assert!(normalize("   ").is_err());
}

#[test]
fn allows_about_blank() {
    assert_eq!(normalize("about:blank").unwrap().as_str(), "about:blank");
}

#[test]
fn trims_input_before_reading_it() {
    assert_eq!(normalize("  http://a.b/x  ").unwrap().as_str(), "http://a.b/x");
}

#[test]
fn empty_input_error_text() {
    assert_eq!(normalize("").unwrap_err(), "URL が空です");
}

#[test]
fn domain_with_space_becomes_a_search() {
    let s = normalize("a.b c").unwrap();
    assert!(s.starts_with("https://duckduckgo.com/?q="));
}

#[test]
fn scheme_input_that_does_not_parse_is_an_error() {
    assert!(normalize("http://").is_err());
}
