//! CSS parser: text to style sheet.
//!
//! A style sheet is a list of rules; a rule is a comma-separated list of
//! selectors followed by a block of `property: value;` declarations:
//!
//!   h1, .title { color: red; font-size: 32px; }
//!
//! Only simple selectors are supported: a tag name, an id and classes, combined
//! as in `div#main.card`. What cannot be read is skipped, as CSS prescribes.
use vstd::prelude::*;

use crate::chars::{spec_is_ascii_alphanumeric, spec_is_ascii_digit, spec_trim, str_eq};
use crate::cursor::{in_class, lemma_scan_end, scan_end, CharClass, Cursor};
use crate::display_list::Color;

verus! {

/// A style sheet: a list of rules.
pub struct Stylesheet {
    pub rules: Vec<Rule>,
}

/// A rule: which elements it applies to (selectors), and what it sets (declarations).
pub struct Rule {
    pub selectors: Vec<Selector>,
    pub declarations: Vec<Declaration>,
}

/// A simple selector such as `div#main.card`. With no tag name, id or class
/// it is the universal selector `*`.
pub struct Selector {
    pub tag_name: Option<String>,
    pub id: Option<String>,
    pub classes: Vec<String>,
}

/// A declaration such as `color: red`.
pub struct Declaration {
    pub name: String,
    pub value: Value,
}

/// A CSS value.
#[derive(Clone, Debug)]
pub enum Value {
    /// `block`, `none`, `bold` and the like
    Keyword(String),
    /// a length; the number as written (its unit is read and dropped)
    Length(String),
    /// `#fff` or a colour name such as `red`
    ColorValue(Color),
}

/// Specificity: (number of ids, number of classes, number of tag names).
/// Compared from the left, this orders selectors by CSS priority: one id
/// outweighs any number of classes.
pub type Specificity = (usize, usize, usize);

pub struct SpecSelector {
    pub tag_name: Option<Seq<char>>,
    pub id: Option<Seq<char>>,
    pub classes: Seq<Seq<char>>,
}

pub enum SpecValue {
    Keyword(Seq<char>),
    Length(Seq<char>),
    ColorValue(Color),
}

pub struct SpecRule {
    pub selectors: Seq<SpecSelector>,
    pub declarations: Seq<(Seq<char>, SpecValue)>,
}

pub open spec fn opt_view(o: Option<String>) -> Option<Seq<char>> {
    match o {
        Some(s) => Some(s@),
        None => None,
    }
}

impl View for Selector {
    type V = SpecSelector;

    open spec fn view(&self) -> SpecSelector {
        SpecSelector {
            tag_name: opt_view(self.tag_name),
            id: opt_view(self.id),
            classes: self.classes@.map_values(|c: String| c@),
        }
    }
}

impl View for Value {
    type V = SpecValue;

    open spec fn view(&self) -> SpecValue {
        match self {
            Value::Keyword(k) => SpecValue::Keyword(k@),
            Value::Length(n) => SpecValue::Length(n@),
            Value::ColorValue(c) => SpecValue::ColorValue(*c),
        }
    }
}

impl View for Declaration {
    type V = (Seq<char>, SpecValue);

    open spec fn view(&self) -> (Seq<char>, SpecValue) {
        (self.name@, self.value@)
    }
}

impl View for Rule {
    type V = SpecRule;

    open spec fn view(&self) -> SpecRule {
        SpecRule {
            selectors: self.selectors@.map_values(|s: Selector| s@),
            declarations: self.declarations@.map_values(|d: Declaration| d@),
        }
    }
}

impl View for Stylesheet {
    type V = Seq<SpecRule>;

    open spec fn view(&self) -> Seq<SpecRule> {
        self.rules@.map_values(|r: Rule| r@)
    }
}

pub open spec fn spec_specificity(s: SpecSelector) -> (nat, nat, nat) {
    (
        if s.id is Some {
            1
        } else {
            0
        },
        s.classes.len(),
        if s.tag_name is Some {
            1
        } else {
            0
        },
    )
}

/// `a` is less specific than `b`: tuples compared from the left.
pub open spec fn spec_less(a: (nat, nat, nat), b: (nat, nat, nat)) -> bool {
    a.0 < b.0 || (a.0 == b.0 && (a.1 < b.1 || (a.1 == b.1 && a.2 < b.2)))
}

impl Selector {
    pub fn specificity(&self) -> (r: Specificity)
        ensures
            (r.0 as nat, r.1 as nat, r.2 as nat) == spec_specificity(self@),
    {
        (
            if self.id.is_some() {
                1
            } else {
                0
            },
            self.classes.len(),
            if self.tag_name.is_some() {
                1
            } else {
                0
            },
        )
    }
}

/// `a < b` for specificities, as `Ord` on tuples compares them.
pub fn specificity_less(a: Specificity, b: Specificity) -> (r: bool)
    ensures
        r == spec_less((a.0 as nat, a.1 as nat, a.2 as nat), (b.0 as nat, b.1 as nat, b.2 as nat)),
{
    a.0 < b.0 || (a.0 == b.0 && (a.1 < b.1 || (a.1 == b.1 && a.2 < b.2)))
}

impl Value {
    /// The colour, if this is one.
    pub fn to_color(&self) -> (r: Option<Color>)
        ensures
            r == (match self@ {
                SpecValue::ColorValue(c) => Some(c),
                _ => None,
            }),
    {
        match self {
            Value::ColorValue(c) => Some(*c),
            _ => None,
        }
    }

    /// The keyword, if this is one.
    pub fn as_keyword(&self) -> (r: Option<&str>)
        ensures
            match self@ {
                SpecValue::Keyword(k) => r matches Some(t) && t@ == k,
                _ => r is None,
            },
    {
        match self {
            Value::Keyword(k) => Some(k.as_str()),
            _ => None,
        }
    }

    /// The number of a length as written, if this is one.
    pub fn length_text(&self) -> (r: Option<&str>)
        ensures
            match self@ {
                SpecValue::Length(n) => r matches Some(t) && t@ == n,
                _ => r is None,
            },
    {
        match self {
            Value::Length(n) => Some(n.as_str()),
            _ => None,
        }
    }

    /// An equal copy.
    pub fn duplicate(&self) -> (r: Value)
        ensures
            r@ == self@,
    {
        match self {
            Value::Keyword(k) => Value::Keyword(k.clone()),
            Value::Length(n) => Value::Length(n.clone()),
            Value::ColorValue(c) => Value::ColorValue(*c),
        }
    }
}

// ---------------------------------------------------------------------------
// Colours
// ---------------------------------------------------------------------------

pub open spec fn rgb(r: u8, g: u8, b: u8) -> Color {
    Color { r, g, b }
}

/// The colour names that are understood (CSS has over 140; these are the common ones).
pub open spec fn spec_named_color(name: Seq<char>) -> Option<Color> {
    if name == "black"@ {
        Some(rgb(0x00, 0x00, 0x00))
    } else if name == "white"@ {
        Some(rgb(0xff, 0xff, 0xff))
    } else if name == "red"@ {
        Some(rgb(0xff, 0x00, 0x00))
    } else if name == "green"@ {
        Some(rgb(0x00, 0x80, 0x00))
    } else if name == "blue"@ {
        Some(rgb(0x00, 0x00, 0xff))
    } else if name == "gray"@ || name == "grey"@ {
        Some(rgb(0x80, 0x80, 0x80))
    } else if name == "silver"@ {
        Some(rgb(0xc0, 0xc0, 0xc0))
    } else if name == "navy"@ {
        Some(rgb(0x00, 0x00, 0x80))
    } else if name == "teal"@ {
        Some(rgb(0x00, 0x80, 0x80))
    } else if name == "orange"@ {
        Some(rgb(0xff, 0xa5, 0x00))
    } else {
        None
    }
}

fn named_color(name: &str) -> (r: Option<Color>)
    ensures
        r == spec_named_color(name@),
{
    let rgb = if str_eq(name, "black") {
        (0x00, 0x00, 0x00)
    } else if str_eq(name, "white") {
        (0xff, 0xff, 0xff)
    } else if str_eq(name, "red") {
        (0xff, 0x00, 0x00)
    } else if str_eq(name, "green") {
        (0x00, 0x80, 0x00)
    } else if str_eq(name, "blue") {
        (0x00, 0x00, 0xff)
    } else if str_eq(name, "gray") || str_eq(name, "grey") {
        (0x80, 0x80, 0x80)
    } else if str_eq(name, "silver") {
        (0xc0, 0xc0, 0xc0)
    } else if str_eq(name, "navy") {
        (0x00, 0x00, 0x80)
    } else if str_eq(name, "teal") {
        (0x00, 0x80, 0x80)
    } else if str_eq(name, "orange") {
        (0xff, 0xa5, 0x00)
    } else {
        return None;
    };
    Some(Color { r: rgb.0, g: rgb.1, b: rgb.2 })
}

/// The value of a hexadecimal digit.
pub open spec fn hex_value(c: char) -> nat {
    if '0' <= c && c <= '9' {
        (c as nat - '0' as nat) as nat
    } else if 'a' <= c && c <= 'f' {
        (c as nat - 'a' as nat + 10) as nat
    } else if 'A' <= c && c <= 'F' {
        (c as nat - 'A' as nat + 10) as nat
    } else {
        0
    }
}

/// The byte written by two hexadecimal digits.
pub open spec fn hex_byte(hi: char, lo: char) -> u8 {
    (hex_value(hi) * 16 + hex_value(lo)) as u8
}

/// The colour of `#rgb` (each digit doubled) or `#rrggbb`; black for any other length.
pub open spec fn hex_color(hex: Seq<char>) -> Color {
    if hex.len() == 3 {
        rgb(hex_byte(hex[0], hex[0]), hex_byte(hex[1], hex[1]), hex_byte(hex[2], hex[2]))
    } else if hex.len() == 6 {
        rgb(hex_byte(hex[0], hex[1]), hex_byte(hex[2], hex[3]), hex_byte(hex[4], hex[5]))
    } else {
        rgb(0, 0, 0)
    }
}

fn hex_digit_value(c: char) -> (v: u8)
    requires
        crate::chars::spec_is_ascii_hexdigit(c),
    ensures
        v as nat == hex_value(c),
        v < 16,
{
    if '0' <= c && c <= '9' {
        ((c as u32) - ('0' as u32)) as u8
    } else if 'a' <= c && c <= 'f' {
        ((c as u32) - ('a' as u32) + 10) as u8
    } else {
        ((c as u32) - ('A' as u32) + 10) as u8
    }
}

fn hex_pair(hi: char, lo: char) -> (v: u8)
    requires
        crate::chars::spec_is_ascii_hexdigit(hi),
        crate::chars::spec_is_ascii_hexdigit(lo),
    ensures
        v == hex_byte(hi, lo),
{
    let a = hex_digit_value(hi);
    let b = hex_digit_value(lo);
    a * 16 + b
}

} // verus!

verus! {

// ---------------------------------------------------------------------------
// The grammar, as functions on the input characters `s` and a position `p`;
// each gives what is read there and where reading stops.
// ---------------------------------------------------------------------------

pub open spec fn empty_selector() -> SpecSelector {
    SpecSelector { tag_name: None, id: None, classes: Seq::empty() }
}

pub open spec fn selector_is_empty(sel: SpecSelector) -> bool {
    sel.tag_name is None && sel.id is None && sel.classes.len() == 0
}

/// A simple selector from `p` on, added to `sel`: `#id`, `.class`, `*` and tag
/// names, in any order and number (a later id or tag name replaces an earlier one).
pub open spec fn selector_spec(s: Seq<char>, p: int, sel: SpecSelector) -> (SpecSelector, int)
    decreases s.len() - p,
{
    if p < 0 || p >= s.len() {
        (sel, p)
    } else {
        let c = s[p];
        if c == '#' {
            let e = scan_end(s, p + 1, CharClass::Identifier);
            if p < e <= s.len() {
                selector_spec(
                    s,
                    e,
                    SpecSelector {
                        tag_name: sel.tag_name,
                        id: Some(s.subrange(p + 1, e)),
                        classes: sel.classes,
                    },
                )
            } else {
                (sel, p)
            }
        } else if c == '.' {
            let e = scan_end(s, p + 1, CharClass::Identifier);
            if p < e <= s.len() {
                selector_spec(
                    s,
                    e,
                    SpecSelector {
                        tag_name: sel.tag_name,
                        id: sel.id,
                        classes: sel.classes.push(s.subrange(p + 1, e)),
                    },
                )
            } else {
                (sel, p)
            }
        } else if c == '*' {
            // the universal selector: matches everything, so nothing is added
            selector_spec(s, p + 1, sel)
        } else if spec_is_ascii_alphanumeric(c) {
            let e = scan_end(s, p, CharClass::Identifier);
            if p < e <= s.len() {
                selector_spec(
                    s,
                    e,
                    SpecSelector {
                        tag_name: Some(s.subrange(p, e)),
                        id: sel.id,
                        classes: sel.classes,
                    },
                )
            } else {
                (sel, p)
            }
        } else {
            (sel, p)
        }
    }
}

/// The comma-separated selectors from `p` on, up to `{` or the end of the input,
/// added to `acc`. Where no selector can be read at all, one character is
/// skipped; `*` is read, as the selector with no condition.
pub open spec fn selectors_loop(s: Seq<char>, p: int, acc: Seq<SpecSelector>) -> (
    Seq<SpecSelector>,
    int,
)
    decreases s.len() - p,
{
    if p < 0 || p > s.len() {
        (acc, p)
    } else {
        let q = scan_end(s, p, CharClass::Whitespace);
        if q < p || q > s.len() {
            (acc, p)
        } else if q == s.len() || s[q] == '{' {
            (acc, q)
        } else if s[q] == ',' {
            selectors_loop(s, q + 1, acc)
        } else {
            let (sel, e) = selector_spec(s, q, empty_selector());
            let e2 = if e == q && e < s.len() && s[e] != '{' && s[e] != ',' {
                e + 1
            } else {
                e
            };
            let acc2 = if e == q {
                acc
            } else {
                acc.push(sel)
            };
            if p < e2 <= s.len() {
                selectors_loop(s, e2, acc2)
            } else {
                (acc2, e2)
            }
        }
    }
}

/// Where `x` goes in `sorted` (most specific first): before the first selector
/// that is less specific, so that selectors of equal specificity keep their order.
pub open spec fn insert_pos(sorted: Seq<SpecSelector>, x: SpecSelector, j: int) -> int
    decreases sorted.len() - j,
{
    if j < 0 || j >= sorted.len() || spec_less(
        spec_specificity(sorted[j]),
        spec_specificity(x),
    ) {
        j
    } else {
        insert_pos(sorted, x, j + 1)
    }
}

/// The selectors ordered from the most to the least specific; selectors of
/// equal specificity keep their order.
pub open spec fn sort_by_specificity(s: Seq<SpecSelector>) -> Seq<SpecSelector>
    decreases s.len(),
{
    if s.len() == 0 {
        Seq::empty()
    } else {
        let r = sort_by_specificity(s.drop_last());
        r.insert(insert_pos(r, s.last(), 0), s.last())
    }
}

/// The selector list of a rule, most specific first.
pub open spec fn selectors_spec(s: Seq<char>, p: int) -> (Seq<SpecSelector>, int) {
    let (v, e) = selectors_loop(s, p, Seq::empty());
    (sort_by_specificity(v), e)
}

/// A value at `p`: `#` starts a colour, a digit, `.` or `-` a length, anything
/// else a keyword (up to `;`, `}` or a line end, trimmed), which is a colour if it
/// is a colour name.
pub open spec fn value_spec(s: Seq<char>, p: int) -> (SpecValue, int) {
    if p < 0 || p >= s.len() {
        (SpecValue::Keyword(Seq::empty()), p)
    } else {
        let c = s[p];
        if c == '#' {
            let e = scan_end(s, p + 1, CharClass::HexDigit);
            (SpecValue::ColorValue(hex_color(s.subrange(p + 1, e))), e)
        } else if spec_is_ascii_digit(c) || c == '.' || c == '-' {
            let e = scan_end(s, p, CharClass::NumberChar);
            let u = scan_end(s, e, CharClass::UnitChar);
            (SpecValue::Length(s.subrange(p, e)), u)
        } else {
            let e = scan_end(s, p, CharClass::KeywordChar);
            let kw = spec_trim(s.subrange(p, e));
            (
                match spec_named_color(kw) {
                    Some(color) => SpecValue::ColorValue(color),
                    None => SpecValue::Keyword(kw),
                },
                e,
            )
        }
    }
}

/// A declaration `name: value;` at `p`; none where there is no name or no `:`.
pub open spec fn declaration_spec(s: Seq<char>, p: int) -> (
    Option<(Seq<char>, SpecValue)>,
    int,
) {
    let ne = scan_end(s, p, CharClass::Identifier);
    if ne == p {
        (None, p)
    } else {
        let q = scan_end(s, ne, CharClass::Whitespace);
        if q >= s.len() || s[q] != ':' {
            (None, q)
        } else {
            let r = scan_end(s, q + 1, CharClass::Whitespace);
            let (v, ve) = value_spec(s, r);
            let t = scan_end(s, ve, CharClass::Whitespace);
            (Some((s.subrange(p, ne), v)), if t < s.len() && s[t] == ';' {
                t + 1
            } else {
                t
            })
        }
    }
}

/// The declarations from `p` on, up to `}` or the end of the input, added to
/// `acc`. A declaration that cannot be read is skipped up to the next `;` or `}`.
pub open spec fn declarations_loop(s: Seq<char>, p: int, acc: Seq<(Seq<char>, SpecValue)>) -> (
    Seq<(Seq<char>, SpecValue)>,
    int,
)
    decreases s.len() - p,
{
    if p < 0 || p > s.len() {
        (acc, p)
    } else {
        let q = scan_end(s, p, CharClass::Whitespace);
        if q < p || q >= s.len() {
            (acc, q)
        } else if s[q] == '}' {
            (acc, q + 1)
        } else {
            let (d, e) = declaration_spec(s, q);
            let (acc2, e2) = match d {
                Some(decl) => (acc.push(decl), e),
                None => {
                    let f = scan_end(s, e, CharClass::NotDeclarationEnd);
                    (acc, if f < s.len() && s[f] == ';' {
                        f + 1
                    } else {
                        f
                    })
                },
            };
            if p < e2 <= s.len() {
                declarations_loop(s, e2, acc2)
            } else {
                (acc2, e2)
            }
        }
    }
}

/// A declaration block `{ ... }` at `p` (after whitespace); none read if there is no `{`.
pub open spec fn declarations_spec(s: Seq<char>, p: int) -> (Seq<(Seq<char>, SpecValue)>, int) {
    let q = scan_end(s, p, CharClass::Whitespace);
    if q >= s.len() || s[q] != '{' {
        (Seq::empty(), q)
    } else {
        declarations_loop(s, q + 1, Seq::empty())
    }
}

/// A rule at `p`; a rule without selectors is dropped.
pub open spec fn rule_spec(s: Seq<char>, p: int) -> (Option<SpecRule>, int) {
    let (sels, e1) = selectors_spec(s, p);
    let (decls, e2) = declarations_spec(s, e1);
    (if sels.len() == 0 {
        None
    } else {
        Some(SpecRule { selectors: sels, declarations: decls })
    }, e2)
}

/// The rules from `p` on, added to `acc`.
pub open spec fn rules_loop(s: Seq<char>, p: int, acc: Seq<SpecRule>) -> Seq<SpecRule>
    decreases s.len() - p,
{
    if p < 0 || p > s.len() {
        acc
    } else {
        let q = scan_end(s, p, CharClass::Whitespace);
        if q < p || q >= s.len() {
            acc
        } else {
            let (r, e) = rule_spec(s, q);
            let acc2 = match r {
                Some(rule) => acc.push(rule),
                None => acc,
            };
            if q < e <= s.len() {
                rules_loop(s, e, acc2)
            } else {
                acc2
            }
        }
    }
}

/// The style sheet that `s` parses to.
pub open spec fn stylesheet_spec(s: Seq<char>) -> Seq<SpecRule> {
    rules_loop(s, 0, Seq::empty())
}

} // verus!

verus! {

pub open spec fn selectors_view(v: Seq<Selector>) -> Seq<SpecSelector> {
    v.map_values(|s: Selector| s@)
}

pub open spec fn declarations_view(v: Seq<Declaration>) -> Seq<(Seq<char>, SpecValue)> {
    v.map_values(|d: Declaration| d@)
}

/// Reads an identifier: a tag name, class name, property name and the like.
fn parse_identifier(cur: &mut Cursor) -> (r: String)
    requires
        old(cur).wf(),
    ensures
        final(cur).pos == scan_end(old(cur).input@, old(cur).pos as int, CharClass::Identifier),
        r@ == old(cur).input@.subrange(old(cur).pos as int, final(cur).pos as int),
        final(cur).input@ == old(cur).input@,
        final(cur).wf(),
{
    cur.consume_while(CharClass::Identifier)
}

/// A simple selector: `div`, `.card`, `#main`, `div.card#main` and the like.
fn parse_selector(cur: &mut Cursor) -> (r: Selector)
    requires
        old(cur).wf(),
    ensures
        final(cur).input@ == old(cur).input@,
        final(cur).wf(),
        (r@, final(cur).pos as int) == selector_spec(
            old(cur).input@,
            old(cur).pos as int,
            empty_selector(),
        ),
        old(cur).pos <= final(cur).pos,
        final(cur).pos == old(cur).pos ==> selector_is_empty(r@),
{
    let ghost s = cur.input@;
    let ghost p0 = cur.pos as int;
    let mut selector = Selector { tag_name: None, id: None, classes: Vec::new() };
    assert(selector@.classes =~= Seq::<Seq<char>>::empty());
    while !cur.eof()
        invariant_except_break
            cur.input@ == s,
            cur.wf(),
            p0 <= cur.pos,
            selector_spec(s, p0, empty_selector()) == selector_spec(s, cur.pos as int, selector@),
            cur.pos == p0 ==> selector_is_empty(selector@),
        ensures
            cur.input@ == s,
            cur.wf(),
            p0 <= cur.pos,
            selector_spec(s, p0, empty_selector()) == (selector@, cur.pos as int),
            cur.pos == p0 ==> selector_is_empty(selector@),
        decreases s.len() - cur.pos,
    {
        let ghost p = cur.pos as int;
        let c = cur.next_char();
        if c == '#' {
            cur.consume_char();
            let id = parse_identifier(cur);
            proof {
                lemma_scan_end(s, p + 1, CharClass::Identifier);
            }
            selector.id = Some(id);
        } else if c == '.' {
            cur.consume_char();
            let class = parse_identifier(cur);
            proof {
                lemma_scan_end(s, p + 1, CharClass::Identifier);
            }
            let ghost before = selector@.classes;
            selector.classes.push(class);
            assert(selector@.classes =~= before.push(s.subrange(p + 1, cur.pos as int)));
        } else if c == '*' {
            // the universal selector matches everything: nothing to add
            cur.consume_char();
        } else if crate::chars::is_ascii_alphanumeric(c) {
            let tag = parse_identifier(cur);
            proof {
                lemma_scan_end(s, p, CharClass::Identifier);
            }
            selector.tag_name = Some(tag);
        } else {
            break;
        }
    }
    selector
}

/// The position before which `x` goes in `sorted` (most specific first).
fn find_insert_pos(sorted: &Vec<Selector>, x: &Selector) -> (j: usize)
    ensures
        j as int == insert_pos(selectors_view(sorted@), x@, 0),
        j <= sorted@.len(),
{
    let ghost v = selectors_view(sorted@);
    let sx = x.specificity();
    let mut j: usize = 0;
    while j < sorted.len() && !specificity_less(sorted[j].specificity(), sx)
        invariant
            j <= sorted@.len(),
            v.len() == sorted@.len(),
            v == selectors_view(sorted@),
            insert_pos(v, x@, j as int) == insert_pos(v, x@, 0),
            (sx.0 as nat, sx.1 as nat, sx.2 as nat) == spec_specificity(x@),
        decreases sorted@.len() - j,
    {
        assert(v[j as int] == sorted@[j as int]@);
        j = j + 1;
    }
    if j < sorted.len() {
        assert(v[j as int] == sorted@[j as int]@);
    }
    j
}

/// Orders selectors from the most to the least specific, keeping the order of
/// selectors of equal specificity (a stable sort).
fn sort_selectors(selectors: Vec<Selector>) -> (r: Vec<Selector>)
    ensures
        selectors_view(r@) == sort_by_specificity(selectors_view(selectors@)),
{
    let ghost all = selectors@;
    let mut sorted: Vec<Selector> = Vec::new();
    assert(selectors_view(sorted@) =~= sort_by_specificity(selectors_view(all.take(0))));
    for sel in it: selectors
        invariant
            it.seq() == all,
            selectors_view(sorted@) == sort_by_specificity(
                selectors_view(all.take(it.index() as int)),
            ),
    {
        let j = find_insert_pos(&sorted, &sel);
        let ghost before = selectors_view(sorted@);
        let ghost sv = sel@;
        sorted.insert(j, sel);
        proof {
            let t = selectors_view(all.take(it.index() + 1));
            assert(t.drop_last() =~= selectors_view(all.take(it.index() as int)));
            assert(t.last() == sv);
            assert(selectors_view(sorted@) =~= before.insert(j as int, sv));
        }
    }
    assert(all.take(all.len() as int) =~= all);
    sorted
}

/// The comma-separated selector list in front of a declaration block, most
/// specific first.
fn parse_selectors(cur: &mut Cursor) -> (r: Vec<Selector>)
    requires
        old(cur).wf(),
    ensures
        final(cur).input@ == old(cur).input@,
        final(cur).wf(),
        (selectors_view(r@), final(cur).pos as int) == selectors_spec(
            old(cur).input@,
            old(cur).pos as int,
        ),
        old(cur).pos <= final(cur).pos,
        final(cur).pos < final(cur).input@.len() ==> final(cur).input@[final(cur).pos as int]
            == '{',
{
    let ghost s = cur.input@;
    let ghost p0 = cur.pos as int;
    let mut selectors: Vec<Selector> = Vec::new();
    assert(selectors_view(selectors@) =~= Seq::<SpecSelector>::empty());
    loop
        invariant_except_break
            cur.input@ == s,
            cur.wf(),
            p0 <= cur.pos,
            selectors_loop(s, p0, Seq::empty()) == selectors_loop(
                s,
                cur.pos as int,
                selectors_view(selectors@),
            ),
        ensures
            cur.input@ == s,
            cur.wf(),
            p0 <= cur.pos,
            selectors_loop(s, p0, Seq::empty()) == (selectors_view(selectors@), cur.pos as int),
            cur.pos < s.len() ==> s[cur.pos as int] == '{',
        decreases s.len() - cur.pos,
    {
        let ghost p = cur.pos as int;
        cur.consume_whitespace();
        proof {
            lemma_scan_end(s, p, CharClass::Whitespace);
        }
        if cur.eof() || cur.next_char() == '{' {
            break;
        }
        if cur.next_char() == ',' {
            cur.consume_char();
            continue;
        }
        let ghost q = cur.pos as int;
        let start = cur.pos;
        let selector = parse_selector(cur);
        if cur.pos == start {
            // nothing readable: step over one character so that reading goes on
            if !cur.eof() && cur.next_char() != '{' && cur.next_char() != ',' {
                cur.consume_char();
            }
        } else {
            let ghost before = selectors_view(selectors@);
            let ghost sv = selector@;
            selectors.push(selector);
            assert(selectors_view(selectors@) =~= before.push(sv));
        }
    }
    // most specific first
    sort_selectors(selectors)
}

/// A length such as `16px` or `1.5em`; the unit is read and dropped.
fn parse_length(cur: &mut Cursor) -> (r: Value)
    requires
        old(cur).wf(),
    ensures
        final(cur).input@ == old(cur).input@,
        final(cur).wf(),
        ({
            let e = scan_end(old(cur).input@, old(cur).pos as int, CharClass::NumberChar);
            &&& r@ == SpecValue::Length(old(cur).input@.subrange(old(cur).pos as int, e))
            &&& final(cur).pos == scan_end(old(cur).input@, e, CharClass::UnitChar)
        }),
{
    let number = cur.consume_while(CharClass::NumberChar);
    cur.consume_while(CharClass::UnitChar);
    Value::Length(number)
}

/// A colour `#rgb` or `#rrggbb`; the cursor stands on its `#`. Three digits
/// count each digit twice (`#f00` is `#ff0000`); any other number of digits is black.
pub fn parse_hex_color(cur: &mut Cursor) -> (r: Value)
    requires
        old(cur).wf(),
        old(cur).pos < old(cur).input@.len(),
    ensures
        final(cur).input@ == old(cur).input@,
        final(cur).wf(),
        ({
            let e = scan_end(old(cur).input@, old(cur).pos + 1, CharClass::HexDigit);
            &&& r@ == SpecValue::ColorValue(
                hex_color(old(cur).input@.subrange(old(cur).pos + 1, e)),
            )
            &&& final(cur).pos == e
        }),
{
    let ghost s = cur.input@;
    let ghost p = cur.pos as int;
    cur.consume_char();
    let hex = cur.consume_while(CharClass::HexDigit);
    proof {
        lemma_scan_end(s, p + 1, CharClass::HexDigit);
    }
    let h = crate::chars::chars_of(hex.as_str());
    assert(forall|k: int| 0 <= k < h@.len() ==> crate::chars::spec_is_ascii_hexdigit(#[trigger] h@[k])) by {
        assert forall|k: int| 0 <= k < h@.len() implies crate::chars::spec_is_ascii_hexdigit(#[trigger] h@[k]) by {
            assert(h@[k] == s[p + 1 + k]);
        }
    }
    let color = if h.len() == 3 {
        // each digit of the short form stands for itself twice (#f00 is #ff0000)
        Color { r: hex_pair(h[0], h[0]), g: hex_pair(h[1], h[1]), b: hex_pair(h[2], h[2]) }
    } else if h.len() == 6 {
        Color { r: hex_pair(h[0], h[1]), g: hex_pair(h[2], h[3]), b: hex_pair(h[4], h[5]) }
    } else {
        Color { r: 0, g: 0, b: 0 }
    };
    Value::ColorValue(color)
}

/// A value; its first character tells what kind it is.
pub fn parse_value(cur: &mut Cursor) -> (r: Value)
    requires
        old(cur).wf(),
    ensures
        final(cur).input@ == old(cur).input@,
        final(cur).wf(),
        (r@, final(cur).pos as int) == value_spec(old(cur).input@, old(cur).pos as int),
{
    if cur.eof() {
        return Value::Keyword(String::new());
    }
    let c = cur.next_char();
    if c == '#' {
        parse_hex_color(cur)
    } else if crate::chars::is_ascii_digit(c) || c == '.' || c == '-' {
        parse_length(cur)
    } else {
        let keyword = cur.consume_while(CharClass::KeywordChar);
        let cs = crate::chars::chars_of(keyword.as_str());
        let keyword = crate::chars::trim(cs.as_slice());
        // a colour name becomes a colour right away
        match named_color(keyword.as_str()) {
            Some(color) => Value::ColorValue(color),
            None => Value::Keyword(keyword),
        }
    }
}

/// One declaration `color: red;`.
fn parse_declaration(cur: &mut Cursor) -> (r: Option<Declaration>)
    requires
        old(cur).wf(),
    ensures
        final(cur).input@ == old(cur).input@,
        final(cur).wf(),
        ({
            let (d, e) = declaration_spec(old(cur).input@, old(cur).pos as int);
            &&& final(cur).pos == e
            &&& match r {
                Some(decl) => d == Some(decl@),
                None => d is None,
            }
        }),
        old(cur).pos <= final(cur).pos,
        r is Some ==> old(cur).pos < final(cur).pos,
{
    let ghost s = cur.input@;
    let ghost p = cur.pos as int;
    let name = parse_identifier(cur);
    proof {
        lemma_scan_end(s, p, CharClass::Identifier);
    }
    if name.as_str().is_empty() {
        return None;
    }
    let ghost ne = cur.pos as int;
    cur.consume_whitespace();
    proof {
        lemma_scan_end(s, ne, CharClass::Whitespace);
    }
    if cur.eof() || cur.next_char() != ':' {
        return None;
    }
    cur.consume_char();
    let ghost q1 = cur.pos as int;
    cur.consume_whitespace();
    proof {
        lemma_scan_end(s, q1, CharClass::Whitespace);
    }
    let ghost r0 = cur.pos as int;
    let value = parse_value(cur);
    proof {
        value_spec_advances(s, r0);
    }
    let ghost ve = cur.pos as int;
    cur.consume_whitespace();
    proof {
        lemma_scan_end(s, ve, CharClass::Whitespace);
    }
    if !cur.eof() && cur.next_char() == ';' {
        cur.consume_char();
    }
    Some(Declaration { name, value })
}

proof fn value_spec_advances(s: Seq<char>, p: int)
    requires
        0 <= p <= s.len(),
    ensures
        p <= value_spec(s, p).1 <= s.len(),
{
    if p < s.len() {
        let c = s[p];
        if c == '#' {
            lemma_scan_end(s, p + 1, CharClass::HexDigit);
        } else if spec_is_ascii_digit(c) || c == '.' || c == '-' {
            lemma_scan_end(s, p, CharClass::NumberChar);
            let e = scan_end(s, p, CharClass::NumberChar);
            lemma_scan_end(s, e, CharClass::UnitChar);
        } else {
            lemma_scan_end(s, p, CharClass::KeywordChar);
        }
    }
}

/// A declaration block `{ prop: value; ... }`.
fn parse_declarations(cur: &mut Cursor) -> (r: Vec<Declaration>)
    requires
        old(cur).wf(),
    ensures
        final(cur).input@ == old(cur).input@,
        final(cur).wf(),
        (declarations_view(r@), final(cur).pos as int) == declarations_spec(
            old(cur).input@,
            old(cur).pos as int,
        ),
        old(cur).pos <= final(cur).pos,
        old(cur).pos < old(cur).input@.len() && old(cur).input@[old(cur).pos as int] == '{'
            ==> old(cur).pos < final(cur).pos,
{
    let ghost s = cur.input@;
    let ghost p0 = cur.pos as int;
    let mut declarations: Vec<Declaration> = Vec::new();
    assert(declarations_view(declarations@) =~= Seq::<(Seq<char>, SpecValue)>::empty());
    cur.consume_whitespace();
    proof {
        lemma_scan_end(s, p0, CharClass::Whitespace);
    }
    if cur.eof() || cur.next_char() != '{' {
        return declarations;
    }
    cur.consume_char();
    let ghost p1 = cur.pos as int;
    loop
        invariant_except_break
            cur.input@ == s,
            cur.wf(),
            p1 <= cur.pos,
            declarations_loop(s, p1, Seq::empty()) == declarations_loop(
                s,
                cur.pos as int,
                declarations_view(declarations@),
            ),
        ensures
            cur.input@ == s,
            cur.wf(),
            p1 <= cur.pos,
            declarations_loop(s, p1, Seq::empty()) == (
                declarations_view(declarations@),
                cur.pos as int,
            ),
        decreases s.len() - cur.pos,
    {
        let ghost p = cur.pos as int;
        cur.consume_whitespace();
        proof {
            lemma_scan_end(s, p, CharClass::Whitespace);
        }
        if cur.eof() {
            break;
        }
        if cur.next_char() == '}' {
            cur.consume_char();
            break;
        }
        let ghost q = cur.pos as int;
        match parse_declaration(cur) {
            Some(declaration) => {
                let ghost before = declarations_view(declarations@);
                let ghost dv = declaration@;
                declarations.push(declaration);
                assert(declarations_view(declarations@) =~= before.push(dv));
                proof {
                    lemma_scan_end(s, q, CharClass::Identifier);
                }
            },
            None => {
                // a declaration that cannot be read: skip to the next `;` or `}`
                let ghost e = cur.pos as int;
                cur.consume_while(CharClass::NotDeclarationEnd);
                proof {
                    lemma_scan_end(s, e, CharClass::NotDeclarationEnd);
                }
                let ghost f = cur.pos as int;
                if !cur.eof() && cur.next_char() == ';' {
                    cur.consume_char();
                }
                proof {
                    // the skip always moves on: the character at `q` is neither
                    // whitespace nor `}`, so it is skipped or it is a `;`
                    if f == q {
                        assert(!crate::cursor::in_class(CharClass::NotDeclarationEnd, s[q]));
                        assert(s[q] == ';');
                    }
                    assert(q < cur.pos);
                }
            },
        }
    }
    declarations
}

/// One rule; none if it has no selector.
fn parse_rule(cur: &mut Cursor) -> (r: Option<Rule>)
    requires
        old(cur).wf(),
    ensures
        final(cur).input@ == old(cur).input@,
        final(cur).wf(),
        ({
            let (rule, e) = rule_spec(old(cur).input@, old(cur).pos as int);
            &&& final(cur).pos == e
            &&& match r {
                Some(x) => rule == Some(x@),
                None => rule is None,
            }
        }),
        old(cur).pos <= final(cur).pos,
        old(cur).pos < old(cur).input@.len() ==> old(cur).pos < final(cur).pos,
{
    let selectors = parse_selectors(cur);
    let declarations = parse_declarations(cur);
    if selectors.len() == 0 {
        None
    } else {
        Some(Rule { selectors, declarations })
    }
}

/// The rules of a style sheet; a rule that cannot be read is skipped.
pub fn parse_rules(cur: &mut Cursor) -> (r: Vec<Rule>)
    requires
        old(cur).wf(),
    ensures
        r@.map_values(|x: Rule| x@) == rules_loop(old(cur).input@, old(cur).pos as int, Seq::empty()),
        final(cur).input@ == old(cur).input@,
        final(cur).pos == final(cur).input@.len(),
{
    let ghost s = cur.input@;
    let ghost p0 = cur.pos as int;
    let mut rules: Vec<Rule> = Vec::new();
    assert(rules@.map_values(|x: Rule| x@) =~= Seq::<SpecRule>::empty());
    loop
        invariant_except_break
            cur.input@ == s,
            cur.wf(),
            p0 <= cur.pos,
            rules_loop(s, p0, Seq::empty()) == rules_loop(
                s,
                cur.pos as int,
                rules@.map_values(|x: Rule| x@),
            ),
        ensures
            rules_loop(s, p0, Seq::empty()) == rules@.map_values(|x: Rule| x@),
            cur.input@ == s,
            cur.pos == s.len(),
        decreases s.len() - cur.pos,
    {
        let ghost p = cur.pos as int;
        cur.consume_whitespace();
        proof {
            lemma_scan_end(s, p, CharClass::Whitespace);
        }
        if cur.eof() {
            break;
        }
        match parse_rule(cur) {
            Some(rule) => {
                let ghost before = rules@.map_values(|x: Rule| x@);
                let ghost rv = rule@;
                rules.push(rule);
                assert(rules@.map_values(|x: Rule| x@) =~= before.push(rv));
            },
            // a broken rule is skipped: what cannot be read is ignored
            None => {},
        }
    }
    rules
}

/// Parses a CSS text into a style sheet.
pub fn parse(source: &str) -> (r: Stylesheet)
    ensures
        r@ == stylesheet_spec(source@),
{
    let mut cur = Cursor::new(source);
    Stylesheet { rules: parse_rules(&mut cur) }
}

} // verus!

verus! {

// ---------------------------------------------------------------------------
// What the selector order guarantees
// ---------------------------------------------------------------------------

/// One id outweighs any number of classes and tag names; with the same number
/// of ids, one class outweighs any tag name.
pub proof fn law_id_outweighs_classes(a: SpecSelector, b: SpecSelector)
    ensures
        a.id is Some && b.id is None ==> spec_less(spec_specificity(b), spec_specificity(a)),
        (a.id is Some <==> b.id is Some) && a.classes.len() > b.classes.len() ==> spec_less(
            spec_specificity(b),
            spec_specificity(a),
        ),
{
}

/// The selectors of specificity `k`, in order.
pub open spec fn with_specificity(s: Seq<SpecSelector>, k: (nat, nat, nat)) -> Seq<SpecSelector>
    decreases s.len(),
{
    if s.len() == 0 {
        Seq::empty()
    } else {
        let r = with_specificity(s.drop_last(), k);
        if spec_specificity(s.last()) == k {
            r.push(s.last())
        } else {
            r
        }
    }
}

proof fn lemma_with_specificity_concat(a: Seq<SpecSelector>, b: Seq<SpecSelector>, k: (nat, nat, nat))
    ensures
        with_specificity(a + b, k) == with_specificity(a, k) + with_specificity(b, k),
    decreases b.len(),
{
    if b.len() == 0 {
        assert(a + b =~= a);
        assert(with_specificity(a, k) + with_specificity(b, k) =~= with_specificity(a, k));
    } else {
        lemma_with_specificity_concat(a, b.drop_last(), k);
        assert((a + b).drop_last() =~= a + b.drop_last());
        assert((a + b).last() == b.last());
        if spec_specificity(b.last()) == k {
            assert(with_specificity(a, k) + with_specificity(b.drop_last(), k).push(b.last()) =~= (
            with_specificity(a, k) + with_specificity(b.drop_last(), k)).push(b.last()));
        }
    }
}

proof fn lemma_with_specificity_none(s: Seq<SpecSelector>, k: (nat, nat, nat))
    requires
        forall|i: int| 0 <= i < s.len() ==> spec_specificity(#[trigger] s[i]) != k,
    ensures
        with_specificity(s, k) == Seq::<SpecSelector>::empty(),
    decreases s.len(),
{
    if s.len() > 0 {
        let v = s.drop_last();
        assert forall|i: int| 0 <= i < v.len() implies spec_specificity(#[trigger] v[i]) != k by {
            assert(v[i] == s[i]);
        }
        lemma_with_specificity_none(v, k);
        assert(spec_specificity(s[s.len() - 1]) != k);
    }
}

proof fn lemma_insert_pos(r: Seq<SpecSelector>, x: SpecSelector, j: int)
    requires
        0 <= j <= r.len(),
    ensures
        j <= insert_pos(r, x, j) <= r.len(),
        forall|k: int|
            j <= k < insert_pos(r, x, j) ==> !spec_less(
                spec_specificity(#[trigger] r[k]),
                spec_specificity(x),
            ),
        insert_pos(r, x, j) < r.len() ==> spec_less(
            spec_specificity(r[insert_pos(r, x, j)]),
            spec_specificity(x),
        ),
    decreases r.len() - j,
{
    if j < r.len() && !spec_less(spec_specificity(r[j]), spec_specificity(x)) {
        lemma_insert_pos(r, x, j + 1);
    }
}

/// A rule's selectors come most specific first; selectors of equal specificity
/// keep the order in which they were written; and they are the selectors that
/// were read, none lost and none added.
pub proof fn law_selectors_by_falling_specificity(s: Seq<SpecSelector>)
    ensures
        forall|i: int, j: int|
            0 <= i < j < sort_by_specificity(s).len() ==> !spec_less(
                spec_specificity(#[trigger] sort_by_specificity(s)[i]),
                spec_specificity(#[trigger] sort_by_specificity(s)[j]),
            ),
        forall|k: (nat, nat, nat)| #[trigger]
            with_specificity(sort_by_specificity(s), k) == with_specificity(s, k),
        sort_by_specificity(s).to_multiset() == s.to_multiset(),
    decreases s.len(),
{
    if s.len() > 0 {
        let v = s.drop_last();
        law_selectors_by_falling_specificity(v);
        let r = sort_by_specificity(v);
        let x = s.last();
        lemma_insert_pos(r, x, 0);
        let j = insert_pos(r, x, 0);
        let out = r.insert(j, x);
        assert forall|a: int, b: int| 0 <= a < b < out.len() implies !spec_less(
            spec_specificity(#[trigger] out[a]),
            spec_specificity(#[trigger] out[b]),
        ) by {
            if b < j {
                assert(out[a] == r[a] && out[b] == r[b]);
            } else if b == j {
                assert(out[a] == r[a]);
            } else if a < j {
                assert(out[a] == r[a] && out[b] == r[b - 1]);
                assert(!spec_less(spec_specificity(r[j]), spec_specificity(r[b - 1])) || b - 1 == j);
            } else if a == j {
                assert(out[b] == r[b - 1]);
                assert(!spec_less(spec_specificity(r[j]), spec_specificity(r[b - 1])) || b - 1 == j);
            } else {
                assert(out[a] == r[a - 1] && out[b] == r[b - 1]);
            }
        }
        assert(v.push(x) =~= s);
        assert forall|k: (nat, nat, nat)| #[trigger]
            with_specificity(out, k) == with_specificity(s, k) by {
            let a = r.take(j);
            let b = r.skip(j);
            assert(r =~= a + b);
            assert(out =~= a + seq![x] + b);
            lemma_with_specificity_concat(a + seq![x], b, k);
            lemma_with_specificity_concat(a, seq![x], k);
            lemma_with_specificity_concat(a, b, k);
            let one = seq![x];
            assert(one.drop_last() =~= Seq::<SpecSelector>::empty());
            assert(one.last() == x);
            assert(with_specificity(one.drop_last(), k) =~= Seq::<SpecSelector>::empty());
            assert(with_specificity(one, k) =~= if spec_specificity(x) == k {
                one
            } else {
                Seq::<SpecSelector>::empty()
            });
            if spec_specificity(x) == k {
                assert forall|i: int| 0 <= i < b.len() implies spec_specificity(#[trigger] b[i]) != k by {
                    assert(b[i] == r[j + i]);
                    assert(!spec_less(spec_specificity(r[j]), spec_specificity(r[j + i])) || i == 0);
                }
                lemma_with_specificity_none(b, k);
                assert(with_specificity(out, k) =~= with_specificity(a, k).push(x));
                assert(with_specificity(r, k) =~= with_specificity(a, k));
            } else {
                assert(with_specificity(out, k) =~= with_specificity(a, k) + with_specificity(b, k));
            }
        }
        vstd::seq_lib::to_multiset_insert(r, j, x);
        vstd::seq_lib::to_multiset_build(v, x);
        assert(out.to_multiset() =~= s.to_multiset());
    } else {
        broadcast use vstd::seq_lib::group_to_multiset_ensures;

        assert(s =~= Seq::<SpecSelector>::empty());
        assert(sort_by_specificity(s).to_multiset() =~= s.to_multiset());
    }
}

/// A three-digit colour is the six-digit colour with each digit doubled:
/// `#f00` is `#ff0000`.
pub proof fn law_short_hex_color(a: char, b: char, c: char)
    requires
        crate::chars::spec_is_ascii_hexdigit(a),
        crate::chars::spec_is_ascii_hexdigit(b),
        crate::chars::spec_is_ascii_hexdigit(c),
    ensures
        value_spec(seq!['#', a, b, c], 0).0 == value_spec(seq!['#', a, a, b, b, c, c], 0).0,
{
    let short = seq!['#', a, b, c];
    let long = seq!['#', a, a, b, b, c, c];
    assert(scan_end(short, 4, CharClass::HexDigit) == 4);
    assert(scan_end(short, 3, CharClass::HexDigit) == 4);
    assert(scan_end(short, 2, CharClass::HexDigit) == 4);
    assert(scan_end(short, 1, CharClass::HexDigit) == 4);
    assert(short.subrange(1, 4) =~= seq![a, b, c]);
    assert(scan_end(long, 7, CharClass::HexDigit) == 7);
    assert(scan_end(long, 6, CharClass::HexDigit) == 7);
    assert(scan_end(long, 5, CharClass::HexDigit) == 7);
    assert(scan_end(long, 4, CharClass::HexDigit) == 7);
    assert(scan_end(long, 3, CharClass::HexDigit) == 7);
    assert(scan_end(long, 2, CharClass::HexDigit) == 7);
    assert(scan_end(long, 1, CharClass::HexDigit) == 7);
    assert(long.subrange(1, 7) =~= seq![a, a, b, b, c, c]);
}

/// A name made of identifier characters (ASCII letters and digits, `-`, `_`), not empty.
pub open spec fn is_identifier(t: Seq<char>) -> bool {
    &&& t.len() > 0
    &&& forall|k: int| 0 <= k < t.len() ==> in_class(CharClass::Identifier, #[trigger] t[k])
}

/// A rule as the parser makes it: it has selectors, most specific first, and each
/// declaration's name is an identifier.
pub open spec fn rule_ok(r: SpecRule) -> bool {
    &&& r.selectors.len() > 0
    &&& forall|i: int, j: int|
        0 <= i < j < r.selectors.len() ==> !spec_less(
            spec_specificity(#[trigger] r.selectors[i]),
            spec_specificity(#[trigger] r.selectors[j]),
        )
    &&& forall|k: int| 0 <= k < r.declarations.len() ==> is_identifier(#[trigger] r.declarations[k].0)
}

proof fn lemma_declarations_loop_ok(s: Seq<char>, p: int, acc: Seq<(Seq<char>, SpecValue)>)
    requires
        forall|k: int| 0 <= k < acc.len() ==> is_identifier(#[trigger] acc[k].0),
    ensures
        ({
            let r = declarations_loop(s, p, acc).0;
            forall|k: int| 0 <= k < r.len() ==> is_identifier(#[trigger] r[k].0)
        }),
    decreases s.len() - p,
{
    if 0 <= p <= s.len() {
        let q = scan_end(s, p, CharClass::Whitespace);
        lemma_scan_end(s, p, CharClass::Whitespace);
        if p <= q < s.len() && s[q] != '}' {
            let (d, e) = declaration_spec(s, q);
            lemma_scan_end(s, q, CharClass::Identifier);
            let ne = scan_end(s, q, CharClass::Identifier);
            let acc2 = match d {
                Some(decl) => acc.push(decl),
                None => acc,
            };
            if let Some(decl) = d {
                let name = s.subrange(q, ne);
                assert(decl.0 == name);
                assert forall|k: int| 0 <= k < name.len() implies in_class(
                    CharClass::Identifier,
                    #[trigger] name[k],
                ) by {
                    assert(name[k] == s[q + k]);
                }
            }
            assert(forall|k: int| 0 <= k < acc2.len() ==> is_identifier(#[trigger] acc2[k].0));
            let e2 = match d {
                Some(_) => e,
                None => {
                    let f = scan_end(s, e, CharClass::NotDeclarationEnd);
                    if f < s.len() && s[f] == ';' {
                        f + 1
                    } else {
                        f
                    }
                },
            };
            assert(declarations_loop(s, p, acc) == if p < e2 <= s.len() {
                declarations_loop(s, e2, acc2)
            } else {
                (acc2, e2)
            });
            if p < e2 <= s.len() {
                lemma_declarations_loop_ok(s, e2, acc2);
            }
        }
    }
}

proof fn lemma_rule_ok(s: Seq<char>, p: int)
    ensures
        rule_spec(s, p).0 matches Some(r) ==> rule_ok(r),
{
    let (v, e1) = selectors_loop(s, p, Seq::empty());
    law_selectors_by_falling_specificity(v);
    let q = scan_end(s, e1, CharClass::Whitespace);
    if q < s.len() && s[q] == '{' {
        lemma_declarations_loop_ok(s, q + 1, Seq::empty());
    }
}

proof fn lemma_rules_loop_ok(s: Seq<char>, p: int, acc: Seq<SpecRule>)
    requires
        forall|k: int| 0 <= k < acc.len() ==> rule_ok(#[trigger] acc[k]),
    ensures
        forall|k: int|
            0 <= k < rules_loop(s, p, acc).len() ==> rule_ok(#[trigger] rules_loop(s, p, acc)[k]),
    decreases s.len() - p,
{
    if 0 <= p <= s.len() {
        let q = scan_end(s, p, CharClass::Whitespace);
        lemma_scan_end(s, p, CharClass::Whitespace);
        if q < s.len() {
            let (r, e) = rule_spec(s, q);
            lemma_rule_ok(s, q);
            let acc2 = match r {
                Some(rule) => acc.push(rule),
                None => acc,
            };
            assert forall|k: int| 0 <= k < acc2.len() implies rule_ok(#[trigger] acc2[k]) by {
                if k < acc.len() {
                    assert(acc2[k] == acc[k]);
                }
            }
            assert(rules_loop(s, p, acc) == if q < e <= s.len() {
                rules_loop(s, e, acc2)
            } else {
                acc2
            });
            if q < e <= s.len() {
                lemma_rules_loop_ok(s, e, acc2);
            }
        }
    }
}

/// Every rule of a parsed style sheet has at least one selector, its selectors
/// come most specific first, and each of its declarations is named by an
/// identifier; what cannot be read that way is left out.
pub proof fn law_stylesheet_rules_well_formed(s: Seq<char>)
    ensures
        forall|k: int| 0 <= k < stylesheet_spec(s).len() ==> rule_ok(#[trigger] stylesheet_spec(s)[k]),
{
    lemma_rules_loop_ok(s, 0, Seq::empty());
}

/// The colour names: wherever a value is read that is a keyword (it starts with
/// none of `#`, a digit, `.` or `-`), the keyword, trimmed, is one of these names
/// and the value is that colour; any other keyword stays a keyword.
pub proof fn law_named_colors(s: Seq<char>, p: int)
    requires
        0 <= p < s.len(),
        s[p] != '#',
        s[p] != '.',
        s[p] != '-',
        !spec_is_ascii_digit(s[p]),
    ensures
        ({
            let kw = spec_trim(s.subrange(p, scan_end(s, p, CharClass::KeywordChar)));
            let v = value_spec(s, p).0;
            &&& kw == "black"@ ==> v == SpecValue::ColorValue(Color { r: 0x00, g: 0x00, b: 0x00 })
            &&& kw == "white"@ ==> v == SpecValue::ColorValue(Color { r: 0xff, g: 0xff, b: 0xff })
            &&& kw == "red"@ ==> v == SpecValue::ColorValue(Color { r: 0xff, g: 0x00, b: 0x00 })
            &&& kw == "green"@ ==> v == SpecValue::ColorValue(Color { r: 0x00, g: 0x80, b: 0x00 })
            &&& kw == "blue"@ ==> v == SpecValue::ColorValue(Color { r: 0x00, g: 0x00, b: 0xff })
            &&& kw == "gray"@ ==> v == SpecValue::ColorValue(Color { r: 0x80, g: 0x80, b: 0x80 })
            &&& kw == "grey"@ ==> v == SpecValue::ColorValue(Color { r: 0x80, g: 0x80, b: 0x80 })
            &&& kw == "silver"@ ==> v == SpecValue::ColorValue(Color { r: 0xc0, g: 0xc0, b: 0xc0 })
            &&& kw == "navy"@ ==> v == SpecValue::ColorValue(Color { r: 0x00, g: 0x00, b: 0x80 })
            &&& kw == "teal"@ ==> v == SpecValue::ColorValue(Color { r: 0x00, g: 0x80, b: 0x80 })
            &&& kw == "orange"@ ==> v == SpecValue::ColorValue(Color { r: 0xff, g: 0xa5, b: 0x00 })
            &&& (kw != "black"@ && kw != "white"@ && kw != "red"@ && kw != "green"@ && kw != "blue"@
                && kw != "gray"@ && kw != "grey"@ && kw != "silver"@ && kw != "navy"@ && kw
                != "teal"@ && kw != "orange"@) ==> v == SpecValue::Keyword(kw)
        }),
{
    lemma_scan_end(s, p, CharClass::KeywordChar);
    reveal_strlit("black");
    reveal_strlit("white");
    reveal_strlit("red");
    reveal_strlit("green");
    reveal_strlit("blue");
    reveal_strlit("gray");
    reveal_strlit("grey");
    reveal_strlit("silver");
    reveal_strlit("navy");
    reveal_strlit("teal");
    reveal_strlit("orange");
    assert(spec_named_color("black"@) == Some(rgb(0, 0, 0))) by {
    }
    assert(spec_named_color("white"@) == Some(rgb(255, 255, 255))) by {
        assert("white"@[0] != "black"@[0]);
    }
    assert(spec_named_color("red"@) == Some(rgb(255, 0, 0))) by {
        assert("red"@.len() != "black"@.len());
        assert("red"@.len() != "white"@.len());
    }
    assert(spec_named_color("green"@) == Some(rgb(0, 128, 0))) by {
        assert("green"@[0] != "black"@[0]);
        assert("green"@[0] != "white"@[0]);
        assert("green"@.len() != "red"@.len());
    }
    assert(spec_named_color("blue"@) == Some(rgb(0, 0, 255))) by {
        assert("blue"@.len() != "black"@.len());
        assert("blue"@.len() != "white"@.len());
        assert("blue"@.len() != "red"@.len());
        assert("blue"@.len() != "green"@.len());
    }
    assert(spec_named_color("gray"@) == Some(rgb(128, 128, 128))) by {
        assert("gray"@.len() != "black"@.len());
        assert("gray"@.len() != "white"@.len());
        assert("gray"@.len() != "red"@.len());
        assert("gray"@.len() != "green"@.len());
        assert("gray"@[0] != "blue"@[0]);
    }
    assert(spec_named_color("grey"@) == Some(rgb(128, 128, 128))) by {
        assert("grey"@.len() != "black"@.len());
        assert("grey"@.len() != "white"@.len());
        assert("grey"@.len() != "red"@.len());
        assert("grey"@.len() != "green"@.len());
        assert("grey"@[0] != "blue"@[0]);
        assert("grey"@[2] != "gray"@[2]);
    }
    assert(spec_named_color("silver"@) == Some(rgb(192, 192, 192))) by {
        assert("silver"@.len() != "black"@.len());
        assert("silver"@.len() != "white"@.len());
        assert("silver"@.len() != "red"@.len());
        assert("silver"@.len() != "green"@.len());
        assert("silver"@.len() != "blue"@.len());
        assert("silver"@.len() != "gray"@.len());
        assert("silver"@.len() != "grey"@.len());
    }
    assert(spec_named_color("navy"@) == Some(rgb(0, 0, 128))) by {
        assert("navy"@.len() != "black"@.len());
        assert("navy"@.len() != "white"@.len());
        assert("navy"@.len() != "red"@.len());
        assert("navy"@.len() != "green"@.len());
        assert("navy"@[0] != "blue"@[0]);
        assert("navy"@[0] != "gray"@[0]);
        assert("navy"@[0] != "grey"@[0]);
        assert("navy"@.len() != "silver"@.len());
    }
    assert(spec_named_color("teal"@) == Some(rgb(0, 128, 128))) by {
        assert("teal"@.len() != "black"@.len());
        assert("teal"@.len() != "white"@.len());
        assert("teal"@.len() != "red"@.len());
        assert("teal"@.len() != "green"@.len());
        assert("teal"@[0] != "blue"@[0]);
        assert("teal"@[0] != "gray"@[0]);
        assert("teal"@[0] != "grey"@[0]);
        assert("teal"@.len() != "silver"@.len());
        assert("teal"@[0] != "navy"@[0]);
    }
    assert(spec_named_color("orange"@) == Some(rgb(255, 165, 0))) by {
        assert("orange"@.len() != "black"@.len());
        assert("orange"@.len() != "white"@.len());
        assert("orange"@.len() != "red"@.len());
        assert("orange"@.len() != "green"@.len());
        assert("orange"@.len() != "blue"@.len());
        assert("orange"@.len() != "gray"@.len());
        assert("orange"@.len() != "grey"@.len());
        assert("orange"@[0] != "silver"@[0]);
        assert("orange"@.len() != "navy"@.len());
        assert("orange"@.len() != "teal"@.len());
    }
}

} // verus!
