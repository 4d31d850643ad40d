//! What the address bar input means: the rule that turns what was typed into
//! the URL to open.
use vstd::prelude::*;

use crate::chars::{chars_of, lemma_trim_idempotent, spec_trim, str_eq, trim};

verus! {

/// What `url::Url::parse` gives for `input`: the serialization of the parsed
/// URL, or the text of the parse error.
pub uninterp spec fn url_parse(input: Seq<char>) -> Result<Seq<char>, Seq<char>>;

/// What `url::Url::parse_with_params` gives for `input` and the one pair
/// (`key`, `value`): the serialization of the URL with the pair added to its
/// query, or the text of the parse error.
pub uninterp spec fn url_parse_with_param(input: Seq<char>, key: Seq<char>, value: Seq<char>) -> Result<
    Seq<char>,
    Seq<char>,
>;

/// Calls `url::Url::parse`; the contract names its result (the serialization
/// of the URL, `Url::as_str`, or the error's text) by `url_parse` and says nothing
/// more about it.
#[verifier::external_body]
fn parse_url(input: &str) -> (r: Result<String, String>)
    ensures
        match r {
            Ok(u) => url_parse(input@) == Ok::<Seq<char>, Seq<char>>(u@),
            Err(e) => url_parse(input@) == Err::<Seq<char>, Seq<char>>(e@),
        },
{
    match ::url::Url::parse(input) {
        Ok(u) => Ok(u.as_str().to_string()),
        Err(e) => Err(e.to_string()),
    }
}

/// Calls `url::Url::parse_with_params` with one (`key`, `value`) pair; the
/// contract names its result by `url_parse_with_param` and says nothing more about it.
#[verifier::external_body]
fn parse_url_with_param(input: &str, key: &str, value: &str) -> (r: Result<String, String>)
    ensures
        match r {
            Ok(u) => url_parse_with_param(input@, key@, value@) == Ok::<Seq<char>, Seq<char>>(u@),
            Err(e) => url_parse_with_param(input@, key@, value@) == Err::<Seq<char>, Seq<char>>(e@),
        },
{
    match ::url::Url::parse_with_params(input, &[(key, value)]) {
        Ok(u) => Ok(u.as_str().to_string()),
        Err(e) => Err(e.to_string()),
    }
}

/// `t` begins with `prefix`.
pub open spec fn has_prefix(t: Seq<char>, prefix: Seq<char>) -> bool {
    prefix.len() <= t.len() && t.subrange(0, prefix.len() as int) == prefix
}

/// What the input means, given as the text that is handed to the URL parser:
/// - nothing but whitespace: an error;
/// - `about:blank`: that page;
/// - with a scheme (`http://` or `https://`): the input itself;
/// - like a domain (a `.` and no space): the input with `https://` in front;
/// - anything else: a DuckDuckGo search for it.
pub open spec fn normalize_spec(input: Seq<char>) -> Result<Seq<char>, Seq<char>> {
    let t = spec_trim(input);
    if t.len() == 0 {
        Err("URL が空です"@)
    } else if t == "about:blank"@ {
        url_parse(t)
    } else if has_prefix(t, "http://"@) || has_prefix(t, "https://"@) {
        url_parse(t)
    } else if t.contains('.') && !t.contains(' ') {
        url_parse("https://"@ + t)
    } else {
        url_parse_with_param("https://duckduckgo.com/"@, "q"@, t)
    }
}

fn starts_with(t: &[char], prefix: &str) -> (r: bool)
    ensures
        r == has_prefix(t@, prefix@),
{
    let p = chars_of(prefix);
    if p.len() > t.len() {
        return false;
    }
    let mut i: usize = 0;
    while i < p.len()
        invariant
            p@ == prefix@,
            p@.len() <= t@.len(),
            i <= p@.len(),
            forall|k: int| 0 <= k < i ==> t@[k] == p@[k],
        decreases p@.len() - i,
    {
        if t[i] != p[i] {
            assert(t@.subrange(0, p@.len() as int)[i as int] != p@[i as int]);
            return false;
        }
        i = i + 1;
    }
    assert(t@.subrange(0, p@.len() as int) =~= p@);
    true
}

fn contains_char(t: &[char], c: char) -> (r: bool)
    ensures
        r == t@.contains(c),
{
    let mut i: usize = 0;
    while i < t.len()
        invariant
            i <= t@.len(),
            forall|k: int| 0 <= k < i ==> t@[k] != c,
        decreases t@.len() - i,
    {
        if t[i] == c {
            assert(t@[i as int] == c);
            return true;
        }
        i = i + 1;
    }
    false
}

/// Turns what was typed into the address bar into the URL to open (its serialization).
pub fn normalize(input: &str) -> (r: Result<String, String>)
    ensures
        match r {
            Ok(u) => normalize_spec(input@) == Ok::<Seq<char>, Seq<char>>(u@),
            Err(e) => normalize_spec(input@) == Err::<Seq<char>, Seq<char>>(e@),
        },
{
    let cs = chars_of(input);
    let trimmed = trim(cs.as_slice());
    if trimmed.as_str().is_empty() {
        return Err("URL が空です".to_owned());
    }
    if str_eq(trimmed.as_str(), "about:blank") {
        return parse_url(trimmed.as_str());
    }
    let tc = chars_of(trimmed.as_str());
    if starts_with(tc.as_slice(), "http://") || starts_with(tc.as_slice(), "https://") {
        parse_url(trimmed.as_str())
    } else if contains_char(tc.as_slice(), '.') && !contains_char(tc.as_slice(), ' ') {
        let mut candidate = "https://".to_owned();
        candidate.append(trimmed.as_str());
        parse_url(candidate.as_str())
    } else {
        parse_url_with_param("https://duckduckgo.com/", "q", trimmed.as_str())
    }
}

/// Whitespace around what was typed does not change what it means.
pub proof fn law_normalize_ignores_surrounding_whitespace(input: Seq<char>)
    ensures
        normalize_spec(input) == normalize_spec(spec_trim(input)),
{
    lemma_trim_idempotent(input);
}

/// What the address bar does with what was typed, `t` being the input with the
/// whitespace around it removed: nothing typed is an error; `about:blank`, or an
/// input that starts with `http://` or `https://`, is opened as typed; else an
/// input with a `.` and no space is a domain and opened with `https://` in front;
/// anything else is searched for on DuckDuckGo.
pub proof fn law_address_bar(input: Seq<char>)
    ensures
        ({
            let t = spec_trim(input);
            let scheme = (t.len() >= 7 && t.subrange(0, 7) == "http://"@) || (t.len() >= 8
                && t.subrange(0, 8) == "https://"@);
            &&& t.len() == 0 ==> normalize_spec(input) == Err::<Seq<char>, Seq<char>>(
                "URL が空です"@,
            )
            &&& t.len() > 0 && (t == "about:blank"@ || scheme) ==> normalize_spec(input)
                == url_parse(t)
            &&& t.len() > 0 && t != "about:blank"@ && !scheme && t.contains('.') && !t.contains(
                ' ',
            ) ==> normalize_spec(input) == url_parse("https://"@ + t)
            &&& t.len() > 0 && t != "about:blank"@ && !scheme && !(t.contains('.')
                && !t.contains(' ')) ==> normalize_spec(input) == url_parse_with_param(
                "https://duckduckgo.com/"@,
                "q"@,
                t,
            )
        }),
{
    reveal_strlit("http://");
    reveal_strlit("https://");
}

} // verus!
