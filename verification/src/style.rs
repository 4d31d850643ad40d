//! Style resolution: DOM + CSS to style tree.
//!
//! For each node, what each property finally is:
//! 1. selector matching: which rules apply to the element;
//! 2. the cascade: among the rules that apply, the later style sheet wins over
//!    the earlier, then the more specific rule over the less specific, then the
//!    later rule over the earlier;
//! 3. inheritance: `color` and `font-size` pass from parent to child.
use vstd::prelude::*;

use crate::chars::{push_char, spec_is_whitespace};
use crate::css::{
    spec_less, spec_specificity, specificity_less, SpecRule, SpecSelector, SpecValue, Rule,
    Selector, Specificity, Stylesheet, Value,
};
use crate::display_list::Color;
use crate::dom::{lemma_nodes_view_index, spec_tag_name, ElementData, Node, NodeType, SpecKind, SpecNode};
use crate::strmap::{map_get, map_insert, StrMap};

verus! {

/// The built-in style sheet of the browser (the user-agent style sheet). An
/// `h1` shows large because of these rules, handled exactly like an author's.
pub const USER_AGENT_CSS: &'static str = "
html, body, div, p, h1, h2, h3, ul, ol, li, hr { display: block; }
head, style, script, title { display: none; }
body { color: #33333d; font-size: 18px; background-color: #f7f7f9; }
p { margin-top: 12px; margin-bottom: 12px; }
h1 { font-size: 34px; color: #2b3a67; margin-top: 24px; margin-bottom: 16px; }
h2 { font-size: 26px; color: #2b3a67; margin-top: 20px; margin-bottom: 12px; }
h3 { font-size: 21px; color: #2b3a67; margin-top: 16px; margin-bottom: 10px; }
ul, ol { margin-top: 12px; margin-bottom: 12px; padding-left: 24px; }
li { margin-top: 4px; margin-bottom: 4px; }
hr { height: 2px; background-color: #c9cdd6; margin-top: 16px; margin-bottom: 18px; }
";

/// Property name to its value.
pub type PropertyMap = StrMap<Value>;

/// Property values, as a mathematical value.
pub type SpecProps = Seq<(Seq<char>, SpecValue)>;

// ---------------------------------------------------------------------------
// Selector matching
// ---------------------------------------------------------------------------

/// Splitting on whitespace: the words done so far and the word being read.
pub open spec fn words_state(t: Seq<char>) -> (Seq<Seq<char>>, Seq<char>)
    decreases t.len(),
{
    if t.len() == 0 {
        (Seq::empty(), Seq::empty())
    } else {
        let (ws, cur) = words_state(t.drop_last());
        let c = t.last();
        if spec_is_whitespace(c) {
            if cur.len() > 0 {
                (ws.push(cur), Seq::empty())
            } else {
                (ws, cur)
            }
        } else {
            (ws, cur.push(c))
        }
    }
}

/// The words of `t`: its maximal runs of non-whitespace (`str::split_whitespace`).
pub open spec fn words(t: Seq<char>) -> Seq<Seq<char>> {
    let (ws, cur) = words_state(t);
    if cur.len() > 0 {
        ws.push(cur)
    } else {
        ws
    }
}

/// The classes of an element: the words of its `class` attribute.
pub open spec fn class_list(attrs: Seq<(Seq<char>, Seq<char>)>) -> Seq<Seq<char>> {
    match map_get(attrs, "class"@) {
        Some(c) => words(c),
        None => Seq::empty(),
    }
}

/// A selector matches an element when every condition it sets holds: the tag
/// name, the id, and each of its classes.
pub open spec fn spec_matches(
    tag: Seq<char>,
    attrs: Seq<(Seq<char>, Seq<char>)>,
    sel: SpecSelector,
) -> bool {
    &&& (sel.tag_name matches Some(t) ==> tag == t)
    &&& (sel.id matches Some(i) ==> map_get(attrs, "id"@) == Some(i))
    &&& forall|k: int|
        0 <= k < sel.classes.len() ==> class_list(attrs).contains(#[trigger] sel.classes[k])
}

/// The highest specificity among the first `n` selectors that match, if one does.
pub open spec fn best_match(
    tag: Seq<char>,
    attrs: Seq<(Seq<char>, Seq<char>)>,
    sels: Seq<SpecSelector>,
    n: int,
) -> Option<(nat, nat, nat)>
    decreases n,
{
    if n <= 0 {
        None
    } else {
        let prev = best_match(tag, attrs, sels, n - 1);
        if spec_matches(tag, attrs, sels[n - 1]) {
            let sp = spec_specificity(sels[n - 1]);
            match prev {
                Some(b) => if spec_less(b, sp) {
                    Some(sp)
                } else {
                    Some(b)
                },
                None => Some(sp),
            }
        } else {
            prev
        }
    }
}

/// If some selector of the rule matches, the highest specificity among those that do.
pub open spec fn match_rule_spec(
    tag: Seq<char>,
    attrs: Seq<(Seq<char>, Seq<char>)>,
    rule: SpecRule,
) -> Option<(nat, nat, nat)> {
    best_match(tag, attrs, rule.selectors, rule.selectors.len() as int)
}

/// The rules of a style sheet that match, with their specificity, in sheet order.
pub open spec fn matched_rules(
    tag: Seq<char>,
    attrs: Seq<(Seq<char>, Seq<char>)>,
    rules: Seq<SpecRule>,
) -> Seq<((nat, nat, nat), SpecRule)>
    decreases rules.len(),
{
    if rules.len() == 0 {
        Seq::empty()
    } else {
        let prev = matched_rules(tag, attrs, rules.drop_last());
        match match_rule_spec(tag, attrs, rules.last()) {
            Some(sp) => prev.push((sp, rules.last())),
            None => prev,
        }
    }
}

/// Where a rule of specificity `key` goes in `sorted` (least specific first):
/// after every rule that is not more specific, so that equals keep their order.
pub open spec fn insert_asc_pos(sorted: Seq<((nat, nat, nat), SpecRule)>, key: (nat, nat, nat), j: int) -> int
    decreases sorted.len() - j,
{
    if j < 0 || j >= sorted.len() || spec_less(key, sorted[j].0) {
        j
    } else {
        insert_asc_pos(sorted, key, j + 1)
    }
}

/// The matched rules from the least to the most specific; rules of equal
/// specificity keep their order in the sheet (a stable sort).
pub open spec fn sort_ascending(s: Seq<((nat, nat, nat), SpecRule)>) -> Seq<((nat, nat, nat), SpecRule)>
    decreases s.len(),
{
    if s.len() == 0 {
        Seq::empty()
    } else {
        let r = sort_ascending(s.drop_last());
        r.insert(insert_asc_pos(r, s.last().0, 0), s.last())
    }
}

// ---------------------------------------------------------------------------
// The cascade
// ---------------------------------------------------------------------------

/// The declarations applied in order: each sets its property, replacing what was there.
pub open spec fn apply_decls(m: SpecProps, ds: Seq<(Seq<char>, SpecValue)>) -> SpecProps
    decreases ds.len(),
{
    if ds.len() == 0 {
        m
    } else {
        let prev = apply_decls(m, ds.drop_last());
        map_insert(prev, ds.last().0, ds.last().1)
    }
}

/// The declarations of the rules, applied rule after rule.
pub open spec fn apply_rules(m: SpecProps, rs: Seq<((nat, nat, nat), SpecRule)>) -> SpecProps
    decreases rs.len(),
{
    if rs.len() == 0 {
        m
    } else {
        apply_decls(apply_rules(m, rs.drop_last()), rs.last().1.declarations)
    }
}

/// The style sheets applied in order (the later ones weigh more); within a sheet,
/// the matching rules from the least to the most specific.
pub open spec fn apply_sheets(
    m: SpecProps,
    tag: Seq<char>,
    attrs: Seq<(Seq<char>, Seq<char>)>,
    sheets: Seq<Seq<SpecRule>>,
) -> SpecProps
    decreases sheets.len(),
{
    if sheets.len() == 0 {
        m
    } else {
        apply_rules(
            apply_sheets(m, tag, attrs, sheets.drop_last()),
            sort_ascending(matched_rules(tag, attrs, sheets.last())),
        )
    }
}

/// The properties that pass from parent to child: `color` and `font-size`.
pub open spec fn is_inherited(name: Seq<char>) -> bool {
    name == "color"@ || name == "font-size"@
}

/// The inherited properties of the parent, and nothing else.
pub open spec fn inherited_spec(parent: SpecProps) -> SpecProps {
    let a = match map_get(parent, "color"@) {
        Some(v) => map_insert(Seq::empty(), "color"@, v),
        None => Seq::empty(),
    };
    match map_get(parent, "font-size"@) {
        Some(v) => map_insert(a, "font-size"@, v),
        None => a,
    }
}

/// The properties of an element: inherited from the parent first (weakest),
/// then set by the matching rules of each sheet.
pub open spec fn specified_values_spec(
    tag: Seq<char>,
    attrs: Seq<(Seq<char>, Seq<char>)>,
    sheets: Seq<Seq<SpecRule>>,
    parent: SpecProps,
) -> SpecProps {
    apply_sheets(inherited_spec(parent), tag, attrs, sheets)
}

/// A styled node, as a mathematical value.
pub struct SpecStyled {
    pub node: SpecNode,
    pub values: SpecProps,
    pub children: Seq<SpecStyled>,
}

/// The style tree of `n`, with `parent` the properties of its parent. A text
/// node gets no rules, only what its parent passes on.
pub open spec fn style_spec(n: SpecNode, sheets: Seq<Seq<SpecRule>>, parent: SpecProps) -> SpecStyled
    decreases n,
{
    let values = match n.kind {
        SpecKind::Element(tag, attrs) => specified_values_spec(tag, attrs, sheets, parent),
        SpecKind::Text(_) => inherited_spec(parent),
    };
    SpecStyled { node: n, values, children: style_all(n.children, sheets, values) }
}

pub open spec fn style_all(s: Seq<SpecNode>, sheets: Seq<Seq<SpecRule>>, parent: SpecProps) -> Seq<
    SpecStyled,
>
    decreases s,
{
    if s.len() == 0 {
        Seq::empty()
    } else {
        style_all(s.subrange(0, s.len() - 1), sheets, parent).push(
            style_spec(s[s.len() - 1], sheets, parent),
        )
    }
}

} // verus!

verus! {

/// A node of the style tree: the DOM node, its resolved properties, and its children.
pub struct StyledNode<'a> {
    pub node: &'a Node,
    pub specified_values: PropertyMap,
    pub children: Vec<StyledNode<'a>>,
}

pub open spec fn styled_view<'a>(n: StyledNode<'a>) -> SpecStyled
    decreases n,
{
    SpecStyled { node: n.node@, values: n.specified_values@, children: styled_all(n.children@) }
}

pub open spec fn styled_all<'a>(s: Seq<StyledNode<'a>>) -> Seq<SpecStyled>
    decreases s,
{
    if s.len() == 0 {
        Seq::empty()
    } else {
        styled_all(s.subrange(0, s.len() - 1)).push(styled_view(s[s.len() - 1]))
    }
}

impl<'a> View for StyledNode<'a> {
    type V = SpecStyled;

    open spec fn view(&self) -> SpecStyled {
        styled_view(*self)
    }
}

pub proof fn lemma_styled_all_push<'a>(s: Seq<StyledNode<'a>>, n: StyledNode<'a>)
    ensures
        styled_all(s.push(n)) == styled_all(s).push(n@),
{
    assert(s.push(n).subrange(0, s.len() as int) =~= s);
}

pub proof fn lemma_styled_all_index<'a>(s: Seq<StyledNode<'a>>, i: int)
    requires
        0 <= i < s.len(),
    ensures
        styled_all(s).len() == s.len(),
        styled_all(s)[i] == s[i]@,
    decreases s.len(),
{
    lemma_styled_all_len(s);
    if i < s.len() - 1 {
        lemma_styled_all_index(s.subrange(0, s.len() - 1), i);
    }
}

pub proof fn lemma_styled_all_len<'a>(s: Seq<StyledNode<'a>>)
    ensures
        styled_all(s).len() == s.len(),
    decreases s.len(),
{
    if s.len() > 0 {
        lemma_styled_all_len(s.subrange(0, s.len() - 1));
    }
}

impl<'a> StyledNode<'a> {
    /// The value of a property.
    pub fn value(&self, name: &str) -> (r: Option<&Value>)
        ensures
            match r {
                Some(v) => map_get(self@.values, name@) == Some(v@),
                None => map_get(self@.values, name@) is None,
            },
    {
        self.specified_values.get(name)
    }

    /// The value of a colour property.
    pub fn color(&self, name: &str) -> (r: Option<Color>)
        ensures
            r == (match map_get(self@.values, name@) {
                Some(SpecValue::ColorValue(c)) => Some(c),
                _ => None,
            }),
    {
        match self.value(name) {
            Some(v) => v.to_color(),
            None => None,
        }
    }

    /// The value of a keyword property.
    pub fn keyword(&self, name: &str) -> (r: Option<&str>)
        ensures
            match map_get(self@.values, name@) {
                Some(SpecValue::Keyword(k)) => r matches Some(t) && t@ == k,
                _ => r is None,
            },
    {
        match self.value(name) {
            Some(v) => v.as_keyword(),
            None => None,
        }
    }

    /// The tag name of this element.
    pub fn tag_name(&self) -> (r: Option<&str>)
        ensures
            match r {
                Some(t) => spec_tag_name(self@.node) == Some(t@),
                None => spec_tag_name(self@.node) is None,
            },
    {
        self.node.tag_name()
    }
}

pub open spec fn sheets_view(s: Seq<&Stylesheet>) -> Seq<Seq<SpecRule>> {
    s.map_values(|x: &Stylesheet| x@)
}

pub open spec fn matched_view<'a>(v: Seq<(Specificity, &'a Rule)>) -> Seq<((nat, nat, nat), SpecRule)> {
    v.map_values(|x: (Specificity, &'a Rule)| ((x.0.0 as nat, x.0.1 as nat, x.0.2 as nat), x.1@))
}

/// Splits `s` at whitespace into its words.
fn split_whitespace(s: &str) -> (r: Vec<String>)
    ensures
        r@.map_values(|w: String| w@) == words(s@),
{
    let mut done: Vec<String> = Vec::new();
    let mut cur = String::new();
    assert(done@.map_values(|w: String| w@) =~= Seq::<Seq<char>>::empty());
    for c in it: s.chars()
        invariant
            it.seq() == s@,
            (done@.map_values(|w: String| w@), cur@) == words_state(it.seq().take(it.index() as int)),
    {
        proof {
            let t = it.seq().take(it.index() + 1);
            assert(t.drop_last() =~= it.seq().take(it.index() as int));
        }
        if crate::chars::is_whitespace(c) {
            if !cur.as_str().is_empty() {
                let ghost before = done@.map_values(|w: String| w@);
                let ghost cv = cur@;
                done.push(cur);
                assert(done@.map_values(|w: String| w@) =~= before.push(cv));
                cur = String::new();
            }
        } else {
            push_char(&mut cur, c);
        }
    }
    proof {
        assert(s@.take(s@.len() as int) =~= s@);
    }
    if !cur.as_str().is_empty() {
        let ghost before = done@.map_values(|w: String| w@);
        let ghost cv = cur@;
        done.push(cur);
        assert(done@.map_values(|w: String| w@) =~= before.push(cv));
    }
    done
}

/// Whether a selector applies to an element: all the conditions it sets must hold.
fn matches(element: &ElementData, selector: &Selector) -> (r: bool)
    ensures
        r == spec_matches(element.tag_name@, element.attributes@, selector@),
{
    // a tag name is set and differs
    if let Some(tag) = &selector.tag_name {
        if !(element.tag_name == *tag) {
            return false;
        }
    }
    // an id is set and differs
    if let Some(id) = &selector.id {
        match element.attributes.get("id") {
            Some(v) => {
                if !(*v == *id) {
                    return false;
                }
            },
            None => {
                return false;
            },
        }
    }
    // classes are set and the element lacks one of them
    if selector.classes.len() > 0 {
        let element_classes: Vec<String> = match element.attributes.get("class") {
            Some(c) => split_whitespace(c.as_str()),
            None => Vec::new(),
        };
        let ghost ec = element_classes@.map_values(|w: String| w@);
        assert(ec =~= class_list(element.attributes@));
        let mut k: usize = 0;
        while k < selector.classes.len()
            invariant
                k <= selector.classes@.len(),
                ec == element_classes@.map_values(|w: String| w@),
                ec == class_list(element.attributes@),
                forall|j: int| 0 <= j < k ==> ec.contains(#[trigger] selector@.classes[j]),
            decreases selector.classes@.len() - k,
        {
            let mut found = false;
            let mut i: usize = 0;
            assert(selector@.classes[k as int] == selector.classes@[k as int]@);
            while i < element_classes.len()
                invariant
                    i <= element_classes@.len(),
                    k < selector.classes@.len(),
                    selector@.classes[k as int] == selector.classes@[k as int]@,
                    ec == element_classes@.map_values(|w: String| w@),
                    found ==> ec.contains(selector@.classes[k as int]),
                    !found ==> forall|j: int| 0 <= j < i ==> ec[j] != selector@.classes[k as int],
                decreases element_classes@.len() - i,
            {
                if element_classes[i] == selector.classes[k] {
                    assert(ec[i as int] == selector@.classes[k as int]);
                    found = true;
                }
                i = i + 1;
            }
            if !found {
                assert(!ec.contains(selector@.classes[k as int]));
                return false;
            }
            k = k + 1;
        }
    }
    true
}

/// If one of the rule's selectors applies, its highest specificity and the rule.
fn match_rule<'a>(element: &ElementData, rule: &'a Rule) -> (r: Option<(Specificity, &'a Rule)>)
    ensures
        match r {
            Some(x) => match_rule_spec(element.tag_name@, element.attributes@, rule@) == Some(
                (x.0.0 as nat, x.0.1 as nat, x.0.2 as nat),
            ) && x.1 == rule,
            None => match_rule_spec(element.tag_name@, element.attributes@, rule@) is None,
        },
{
    let ghost sels = rule@.selectors;
    let mut best: Option<Specificity> = None;
    let mut i: usize = 0;
    while i < rule.selectors.len()
        invariant
            i <= rule.selectors@.len(),
            sels == rule@.selectors,
            sels.len() == rule.selectors@.len(),
            match best {
                Some(b) => best_match(element.tag_name@, element.attributes@, sels, i as int)
                    == Some((b.0 as nat, b.1 as nat, b.2 as nat)),
                None => best_match(element.tag_name@, element.attributes@, sels, i as int) is None,
            },
        decreases rule.selectors@.len() - i,
    {
        assert(sels[i as int] == rule.selectors@[i as int]@);
        if matches(element, &rule.selectors[i]) {
            let sp = rule.selectors[i].specificity();
            best = match best {
                Some(b) => if specificity_less(b, sp) {
                    Some(sp)
                } else {
                    Some(b)
                },
                None => Some(sp),
            };
        }
        i = i + 1;
    }
    match best {
        Some(b) => Some((b, rule)),
        None => None,
    }
}

/// The rules of a style sheet that apply to the element, with their specificity.
fn matching_rules<'a>(element: &ElementData, stylesheet: &'a Stylesheet) -> (r: Vec<(Specificity, &'a Rule)>)
    ensures
        matched_view(r@) == matched_rules(element.tag_name@, element.attributes@, stylesheet@),
{
    let ghost rules = stylesheet@;
    let mut out: Vec<(Specificity, &'a Rule)> = Vec::new();
    let mut i: usize = 0;
    assert(matched_view(out@) =~= matched_rules(element.tag_name@, element.attributes@, rules.take(0)));
    while i < stylesheet.rules.len()
        invariant
            i <= stylesheet.rules@.len(),
            rules == stylesheet@,
            rules.len() == stylesheet.rules@.len(),
            matched_view(out@) == matched_rules(element.tag_name@, element.attributes@, rules.take(i as int)),
        decreases stylesheet.rules@.len() - i,
    {
        let ghost before = matched_view(out@);
        proof {
            let t = rules.take(i + 1);
            assert(t.drop_last() =~= rules.take(i as int));
            assert(t.last() == stylesheet.rules@[i as int]@);
        }
        match match_rule(element, &stylesheet.rules[i]) {
            Some(x) => {
                out.push(x);
                assert(matched_view(out@) =~= before.push(
                    ((x.0.0 as nat, x.0.1 as nat, x.0.2 as nat), x.1@),
                ));
            },
            None => {},
        }
        i = i + 1;
    }
    assert(rules.take(rules.len() as int) =~= rules);
    out
}

/// Orders matched rules from the least to the most specific, keeping the sheet
/// order of rules of equal specificity.
fn sort_matched<'a>(v: Vec<(Specificity, &'a Rule)>) -> (r: Vec<(Specificity, &'a Rule)>)
    ensures
        matched_view(r@) == sort_ascending(matched_view(v@)),
{
    let ghost all = v@;
    let mut sorted: Vec<(Specificity, &'a Rule)> = Vec::new();
    assert(matched_view(sorted@) =~= sort_ascending(matched_view(all.take(0))));
    for x in it: v
        invariant
            it.seq() == all,
            matched_view(sorted@) == sort_ascending(matched_view(all.take(it.index() as int))),
    {
        let ghost sv = matched_view(sorted@);
        let ghost key = (x.0.0 as nat, x.0.1 as nat, x.0.2 as nat);
        let mut j: usize = 0;
        while j < sorted.len() && !specificity_less(x.0, sorted[j].0)
            invariant
                j <= sorted@.len(),
                sv == matched_view(sorted@),
                sv.len() == sorted@.len(),
                key == (x.0.0 as nat, x.0.1 as nat, x.0.2 as nat),
                insert_asc_pos(sv, key, j as int) == insert_asc_pos(sv, key, 0),
            decreases sorted@.len() - j,
        {
            assert(sv[j as int].0 == (sorted@[j as int].0.0 as nat, sorted@[j as int].0.1 as nat, sorted@[j as int].0.2 as nat));
            j = j + 1;
        }
        if j < sorted.len() {
            assert(sv[j as int].0 == (sorted@[j as int].0.0 as nat, sorted@[j as int].0.1 as nat, sorted@[j as int].0.2 as nat));
        }
        let ghost xv = (key, x.1@);
        sorted.insert(j, x);
        proof {
            let t = matched_view(all.take(it.index() + 1));
            assert(t.drop_last() =~= matched_view(all.take(it.index() as int)));
            assert(t.last() == xv);
            assert(matched_view(sorted@) =~= sv.insert(j as int, xv));
        }
    }
    assert(all.take(all.len() as int) =~= all);
    sorted
}

/// Copies the inherited properties of the parent.
fn inherited_only(parent_values: &PropertyMap) -> (r: PropertyMap)
    ensures
        r@ == inherited_spec(parent_values@),
{
    let mut values: PropertyMap = StrMap::new();
    if let Some(v) = parent_values.get("color") {
        values.insert("color".to_owned(), v.duplicate());
    }
    if let Some(v) = parent_values.get("font-size") {
        values.insert("font-size".to_owned(), v.duplicate());
    }
    values
}

fn apply_declarations(values: &mut PropertyMap, rule: &Rule)
    ensures
        final(values)@ == apply_decls(old(values)@, rule@.declarations),
{
    let ghost ds = rule@.declarations;
    let ghost m0 = values@;
    let mut i: usize = 0;
    assert(ds.take(0) =~= Seq::<(Seq<char>, SpecValue)>::empty());
    while i < rule.declarations.len()
        invariant
            i <= rule.declarations@.len(),
            ds == rule@.declarations,
            ds.len() == rule.declarations@.len(),
            values@ == apply_decls(m0, ds.take(i as int)),
        decreases rule.declarations@.len() - i,
    {
        let d = &rule.declarations[i];
        proof {
            let t = ds.take(i + 1);
            assert(t.drop_last() =~= ds.take(i as int));
            assert(t.last() == d@);
        }
        values.insert(d.name.clone(), d.value.duplicate());
        i = i + 1;
    }
    assert(ds.take(ds.len() as int) =~= ds);
}

/// The properties of one element: the cascade proper.
fn specified_values(element: &ElementData, stylesheets: &[&Stylesheet], parent_values: &PropertyMap) -> (r: PropertyMap)
    ensures
        r@ == specified_values_spec(
            element.tag_name@,
            element.attributes@,
            sheets_view(stylesheets@),
            parent_values@,
        ),
{
    let ghost sheets = sheets_view(stylesheets@);
    let ghost tag = element.tag_name@;
    let ghost attrs = element.attributes@;
    // 1. what the parent passes on comes first (weakest)
    let mut values = inherited_only(parent_values);
    let ghost m0 = values@;
    assert(sheets.take(0) =~= Seq::<Seq<SpecRule>>::empty());
    // 2. the sheets in order of rising weight; within one, the rules in order of
    //    rising specificity, so that the stronger rule writes last
    let mut k: usize = 0;
    while k < stylesheets.len()
        invariant
            k <= stylesheets@.len(),
            sheets == sheets_view(stylesheets@),
            sheets.len() == stylesheets@.len(),
            tag == element.tag_name@,
            attrs == element.attributes@,
            values@ == apply_sheets(m0, tag, attrs, sheets.take(k as int)),
        decreases stylesheets@.len() - k,
    {
        let sheet: &Stylesheet = stylesheets[k];
        let rules = sort_matched(matching_rules(element, sheet));
        let ghost rs = matched_view(rules@);
        let ghost m1 = values@;
        assert(rs.take(0) =~= Seq::<((nat, nat, nat), SpecRule)>::empty());
        let mut i: usize = 0;
        while i < rules.len()
            invariant
                i <= rules@.len(),
                rs == matched_view(rules@),
                rs.len() == rules@.len(),
                values@ == apply_rules(m1, rs.take(i as int)),
            decreases rules@.len() - i,
        {
            proof {
                let t = rs.take(i + 1);
                assert(t.drop_last() =~= rs.take(i as int));
                assert(t.last().1 == rules@[i as int].1@);
            }
            apply_declarations(&mut values, rules[i].1);
            i = i + 1;
        }
        proof {
            assert(rs.take(rs.len() as int) =~= rs);
            let t = sheets.take(k + 1);
            assert(t.drop_last() =~= sheets.take(k as int));
            assert(t.last() == sheet@);
        }
        k = k + 1;
    }
    assert(sheets.take(sheets.len() as int) =~= sheets);
    values
}

fn style_node<'a>(node: &'a Node, stylesheets: &[&Stylesheet], parent_values: &PropertyMap) -> (r: StyledNode<'a>)
    ensures
        r@ == style_spec(node@, sheets_view(stylesheets@), parent_values@),
        r.node == node,
    decreases node@,
{
    let specified_values = match &node.node_type {
        NodeType::Element(element) => specified_values(element, stylesheets, parent_values),
        // text takes no rules; it only gets what its parent passes on
        NodeType::Text(_) => inherited_only(parent_values),
    };
    let ghost kids = node@.children;
    let mut children: Vec<StyledNode<'a>> = Vec::new();
    let mut i: usize = 0;
    assert(styled_all(children@) =~= style_all(kids.take(0), sheets_view(stylesheets@), specified_values@));
    while i < node.children.len()
        invariant
            i <= node.children@.len(),
            kids == node@.children,
            styled_all(children@) == style_all(kids.take(i as int), sheets_view(stylesheets@), specified_values@),
        decreases node.children@.len() - i,
    {
        proof {
            lemma_nodes_view_index(node.children@, i as int);
        }
        let child = style_node(&node.children[i], stylesheets, &specified_values);
        proof {
            lemma_styled_all_push(children@, child);
            let t = kids.take(i + 1);
            assert(t.subrange(0, i as int) =~= kids.take(i as int));
        }
        children.push(child);
        i = i + 1;
    }
    proof {
        crate::dom::lemma_nodes_view_len(node.children@);
        assert(kids.take(kids.len() as int) =~= kids);
    }
    StyledNode { node, specified_values, children }
}

/// Builds the style tree of a DOM tree. The style sheets come in order of rising
/// weight (user agent before author): the origin of a rule outweighs its specificity.
pub fn style_tree<'a>(root: &'a Node, stylesheets: &[&Stylesheet]) -> (r: StyledNode<'a>)
    ensures
        r@ == style_spec(root@, sheets_view(stylesheets@), Seq::empty()),
        r.node == root,
{
    let empty: PropertyMap = StrMap::new();
    style_node(root, stylesheets, &empty)
}

} // verus!

verus! {

/// The text of the text children, each followed by a line feed.
pub open spec fn style_text_of(children: Seq<SpecNode>) -> Seq<char>
    decreases children.len(),
{
    if children.len() == 0 {
        Seq::empty()
    } else {
        style_text_of(children.drop_last()) + match children.last().kind {
            SpecKind::Text(t) => t + seq!['\n'],
            SpecKind::Element(_, _) => Seq::empty(),
        }
    }
}

/// The CSS of all `<style>` elements below `n`, in document order.
pub open spec fn styles_in(n: SpecNode) -> Seq<char>
    decreases n,
{
    if spec_tag_name(n) == Some("style"@) {
        style_text_of(n.children)
    } else {
        styles_in_all(n.children)
    }
}

pub open spec fn styles_in_all(s: Seq<SpecNode>) -> Seq<char>
    decreases s,
{
    if s.len() == 0 {
        Seq::empty()
    } else {
        styles_in_all(s.subrange(0, s.len() - 1)) + styles_in(s[s.len() - 1])
    }
}

/// Collects the content of every `<style>` element into one CSS text.
pub fn extract_inline_styles(node: &Node) -> (r: String)
    ensures
        r@ == styles_in(node@),
{
    let mut css = String::new();
    collect_styles(node, &mut css);
    assert(css@ =~= styles_in(node@));
    css
}

fn collect_styles(node: &Node, out: &mut String)
    ensures
        final(out)@ == old(out)@ + styles_in(node@),
    decreases node@,
{
    let ghost kids = node@.children;
    let ghost o0 = out@;
    proof {
        crate::dom::lemma_nodes_view_len(node.children@);
    }
    let is_style = match node.tag_name() {
        Some(t) => crate::chars::str_eq(t, "style"),
        None => false,
    };
    if is_style {
        let mut i: usize = 0;
        assert(kids.take(0) =~= Seq::<SpecNode>::empty());
        while i < node.children.len()
            invariant
                i <= node.children@.len(),
                kids == node@.children,
                kids.len() == node.children@.len(),
                out@ == o0 + style_text_of(kids.take(i as int)),
            decreases node.children@.len() - i,
        {
            proof {
                lemma_nodes_view_index(node.children@, i as int);
                let t = kids.take(i + 1);
                assert(t.drop_last() =~= kids.take(i as int));
            }
            if let NodeType::Text(text) = &node.children[i].node_type {
                out.append(text.as_str());
                push_char(out, '\n');
            }
            assert(out@ =~= o0 + style_text_of(kids.take(i + 1)));
            i = i + 1;
        }
        assert(kids.take(kids.len() as int) =~= kids);
        return;
    }
    let mut i: usize = 0;
    assert(kids.take(0) =~= Seq::<SpecNode>::empty());
    while i < node.children.len()
        invariant
            i <= node.children@.len(),
            kids == node@.children,
            kids.len() == node.children@.len(),
            out@ == o0 + styles_in_all(kids.take(i as int)),
        decreases node.children@.len() - i,
    {
        proof {
            lemma_nodes_view_index(node.children@, i as int);
            let t = kids.take(i + 1);
            assert(t.subrange(0, i as int) =~= kids.take(i as int));
        }
        collect_styles(&node.children[i], out);
        assert(out@ =~= o0 + styles_in_all(kids.take(i + 1)));
        i = i + 1;
    }
    assert(kids.take(kids.len() as int) =~= kids);
}

} // verus!

verus! {

// ---------------------------------------------------------------------------
// What the cascade decides
// ---------------------------------------------------------------------------

/// The declarations of the rules, in order.
pub open spec fn rules_decls(rs: Seq<((nat, nat, nat), SpecRule)>) -> Seq<(Seq<char>, SpecValue)>
    decreases rs.len(),
{
    if rs.len() == 0 {
        Seq::empty()
    } else {
        rules_decls(rs.drop_last()) + rs.last().1.declarations
    }
}

/// Every declaration that applies to the element, in cascade order: sheet after
/// sheet; within a sheet, the matching rules from the least to the most specific
/// (equally specific ones in the order written); within a rule, as written.
pub open spec fn cascade_decls(
    tag: Seq<char>,
    attrs: Seq<(Seq<char>, Seq<char>)>,
    sheets: Seq<Seq<SpecRule>>,
) -> Seq<(Seq<char>, SpecValue)>
    decreases sheets.len(),
{
    if sheets.len() == 0 {
        Seq::empty()
    } else {
        cascade_decls(tag, attrs, sheets.drop_last()) + rules_decls(
            sort_ascending(matched_rules(tag, attrs, sheets.last())),
        )
    }
}

/// The value of the last declaration of `name`, if there is one.
pub open spec fn last_value(ds: Seq<(Seq<char>, SpecValue)>, name: Seq<char>) -> Option<SpecValue>
    decreases ds.len(),
{
    if ds.len() == 0 {
        None
    } else if ds.last().0 == name {
        Some(ds.last().1)
    } else {
        last_value(ds.drop_last(), name)
    }
}

proof fn lemma_apply_decls_get(m: SpecProps, ds: Seq<(Seq<char>, SpecValue)>, k: Seq<char>)
    ensures
        map_get(apply_decls(m, ds), k) == match last_value(ds, k) {
            Some(v) => Some(v),
            None => map_get(m, k),
        },
    decreases ds.len(),
{
    if ds.len() > 0 {
        lemma_apply_decls_get(m, ds.drop_last(), k);
        crate::strmap::lemma_get_after_insert(apply_decls(m, ds.drop_last()), ds.last().0, ds.last().1, k);
    }
}

proof fn lemma_apply_decls_concat(m: SpecProps, d1: Seq<(Seq<char>, SpecValue)>, d2: Seq<(Seq<char>, SpecValue)>)
    ensures
        apply_decls(m, d1 + d2) == apply_decls(apply_decls(m, d1), d2),
    decreases d2.len(),
{
    if d2.len() == 0 {
        assert(d1 + d2 =~= d1);
    } else {
        lemma_apply_decls_concat(m, d1, d2.drop_last());
        assert((d1 + d2).drop_last() =~= d1 + d2.drop_last());
        assert((d1 + d2).last() == d2.last());
    }
}

proof fn lemma_apply_rules(m: SpecProps, rs: Seq<((nat, nat, nat), SpecRule)>)
    ensures
        apply_rules(m, rs) == apply_decls(m, rules_decls(rs)),
    decreases rs.len(),
{
    if rs.len() > 0 {
        lemma_apply_rules(m, rs.drop_last());
        lemma_apply_decls_concat(m, rules_decls(rs.drop_last()), rs.last().1.declarations);
    }
}

proof fn lemma_apply_sheets(
    m: SpecProps,
    tag: Seq<char>,
    attrs: Seq<(Seq<char>, Seq<char>)>,
    sheets: Seq<Seq<SpecRule>>,
)
    ensures
        apply_sheets(m, tag, attrs, sheets) == apply_decls(m, cascade_decls(tag, attrs, sheets)),
    decreases sheets.len(),
{
    if sheets.len() > 0 {
        lemma_apply_sheets(m, tag, attrs, sheets.drop_last());
        let rs = sort_ascending(matched_rules(tag, attrs, sheets.last()));
        lemma_apply_rules(apply_sheets(m, tag, attrs, sheets.drop_last()), rs);
        lemma_apply_decls_concat(m, cascade_decls(tag, attrs, sheets.drop_last()), rules_decls(rs));
    }
}

/// Only `color` and `font-size` pass from parent to child.
pub proof fn law_inherited_only(parent: SpecProps, name: Seq<char>)
    ensures
        map_get(inherited_spec(parent), name) == if is_inherited(name) {
            map_get(parent, name)
        } else {
            None
        },
{
    reveal_strlit("color");
    reveal_strlit("font-size");
    assert("color"@ != "font-size"@) by {
        assert("color"@.len() != "font-size"@.len());
    }
    let e = Seq::<(Seq<char>, SpecValue)>::empty();
    assert(map_get(e, name) is None) by {
        crate::strmap::lemma_key_index(e, name);
    }
    let a = match map_get(parent, "color"@) {
        Some(v) => map_insert(e, "color"@, v),
        None => e,
    };
    if let Some(v) = map_get(parent, "color"@) {
        crate::strmap::lemma_get_after_insert(e, "color"@, v, name);
        crate::strmap::lemma_get_after_insert(e, "color"@, v, "font-size"@);
    }
    if let Some(v) = map_get(parent, "font-size"@) {
        crate::strmap::lemma_get_after_insert(a, "font-size"@, v, name);
    }
}

/// The cascade: the value an element gets for a property is that of the last
/// declaration of it in cascade order (see `cascade_decls`: a later sheet
/// outweighs an earlier one, a more specific rule a less specific one, a later
/// rule an earlier one of equal specificity). If no rule that applies declares
/// it, `color` and `font-size` take the parent's value, and any other property
/// has none.
pub proof fn law_cascade(
    tag: Seq<char>,
    attrs: Seq<(Seq<char>, Seq<char>)>,
    sheets: Seq<Seq<SpecRule>>,
    parent: SpecProps,
    name: Seq<char>,
)
    ensures
        map_get(specified_values_spec(tag, attrs, sheets, parent), name) == match last_value(
            cascade_decls(tag, attrs, sheets),
            name,
        ) {
            Some(v) => Some(v),
            None => if is_inherited(name) {
                map_get(parent, name)
            } else {
                None
            },
        },
{
    lemma_apply_sheets(inherited_spec(parent), tag, attrs, sheets);
    lemma_apply_decls_get(inherited_spec(parent), cascade_decls(tag, attrs, sheets), name);
    law_inherited_only(parent, name);
}

/// The matched rules of specificity `k`, in order.
pub open spec fn with_key(s: Seq<((nat, nat, nat), SpecRule)>, k: (nat, nat, nat)) -> Seq<((nat, nat, nat), SpecRule)>
    decreases s.len(),
{
    if s.len() == 0 {
        Seq::empty()
    } else {
        let r = with_key(s.drop_last(), k);
        if s.last().0 == k {
            r.push(s.last())
        } else {
            r
        }
    }
}

proof fn lemma_with_key_concat(a: Seq<((nat, nat, nat), SpecRule)>, b: Seq<((nat, nat, nat), SpecRule)>, k: (nat, nat, nat))
    ensures
        with_key(a + b, k) == with_key(a, k) + with_key(b, k),
    decreases b.len(),
{
    if b.len() == 0 {
        assert(a + b =~= a);
        assert(with_key(a, k) + with_key(b, k) =~= with_key(a, k));
    } else {
        lemma_with_key_concat(a, b.drop_last(), k);
        assert((a + b).drop_last() =~= a + b.drop_last());
        assert((a + b).last() == b.last());
        if b.last().0 == k {
            assert(with_key(a, k) + with_key(b.drop_last(), k).push(b.last()) =~= (with_key(a, k)
                + with_key(b.drop_last(), k)).push(b.last()));
        }
    }
}

proof fn lemma_with_key_none(s: Seq<((nat, nat, nat), SpecRule)>, k: (nat, nat, nat))
    requires
        forall|i: int| 0 <= i < s.len() ==> (#[trigger] s[i]).0 != k,
    ensures
        with_key(s, k) == Seq::<((nat, nat, nat), SpecRule)>::empty(),
    decreases s.len(),
{
    if s.len() > 0 {
        let v = s.drop_last();
        assert forall|i: int| 0 <= i < v.len() implies (#[trigger] v[i]).0 != k by {
            assert(v[i] == s[i]);
        }
        lemma_with_key_none(v, k);
        assert(s[s.len() - 1].0 != k);
    }
}

/// Within a style sheet the matching rules are applied from the least to the
/// most specific: the order is by specificity; rules of equal specificity keep
/// the order in which they are written (so the later one writes last); and it
/// holds the matching rules and nothing else.
pub proof fn law_rules_by_rising_specificity(s: Seq<((nat, nat, nat), SpecRule)>)
    ensures
        forall|i: int, j: int|
            0 <= i < j < sort_ascending(s).len() ==> !spec_less(
                #[trigger] sort_ascending(s)[j].0,
                #[trigger] sort_ascending(s)[i].0,
            ),
        forall|k: (nat, nat, nat)| #[trigger] with_key(sort_ascending(s), k) == with_key(s, k),
        sort_ascending(s).to_multiset() == s.to_multiset(),
    decreases s.len(),
{
    if s.len() > 0 {
        let v = s.drop_last();
        law_rules_by_rising_specificity(v);
        let r = sort_ascending(v);
        let x = s.last();
        lemma_insert_asc_pos(r, x.0, 0);
        let j = insert_asc_pos(r, x.0, 0);
        let out = r.insert(j, x);
        assert forall|a: int, b: int| 0 <= a < b < out.len() implies !spec_less(
            #[trigger] out[b].0,
            #[trigger] out[a].0,
        ) by {
            if b < j {
                assert(out[a] == r[a] && out[b] == r[b]);
            } else if b == j {
                assert(out[a] == r[a]);
            } else if a < j {
                assert(out[a] == r[a] && out[b] == r[b - 1]);
                assert(!spec_less(r[b - 1].0, r[j].0) || b - 1 == j);
            } else if a == j {
                assert(out[b] == r[b - 1]);
                assert(!spec_less(r[b - 1].0, r[j].0) || b - 1 == j);
            } else {
                assert(out[a] == r[a - 1] && out[b] == r[b - 1]);
            }
        }
        assert(v.push(x) =~= s);
        assert forall|k: (nat, nat, nat)| #[trigger] with_key(out, k) == with_key(s, k) by {
            let a = r.take(j);
            let b = r.skip(j);
            assert(r =~= a + b);
            assert(out =~= a + seq![x] + b);
            lemma_with_key_concat(a + seq![x], b, k);
            lemma_with_key_concat(a, seq![x], k);
            lemma_with_key_concat(a, b, k);
            let one = seq![x];
            assert(one.drop_last() =~= Seq::<((nat, nat, nat), SpecRule)>::empty());
            assert(one.last() == x);
            assert(with_key(one.drop_last(), k) =~= Seq::<((nat, nat, nat), SpecRule)>::empty());
            assert(with_key(one, k) =~= if x.0 == k {
                one
            } else {
                Seq::<((nat, nat, nat), SpecRule)>::empty()
            });
            assert(with_key(v, k) == with_key(r, k));
            if x.0 == k {
                assert forall|i: int| 0 <= i < b.len() implies (#[trigger] b[i]).0 != k by {
                    assert(b[i] == r[j + i]);
                    assert(!spec_less(r[j + i].0, r[j].0) || i == 0);
                }
                lemma_with_key_none(b, k);
                assert(with_key(b, k) =~= Seq::<((nat, nat, nat), SpecRule)>::empty());
                assert(with_key(out, k) =~= with_key(a, k).push(x));
                assert(with_key(r, k) =~= with_key(a, k));
            } else {
                assert(with_key(out, k) =~= with_key(a, k) + with_key(b, k));
            }
        }
        vstd::seq_lib::to_multiset_insert(r, j, x);
        vstd::seq_lib::to_multiset_build(v, x);
        assert(out.to_multiset() =~= s.to_multiset());
    } else {
        broadcast use vstd::seq_lib::group_to_multiset_ensures;

        assert(s =~= Seq::<((nat, nat, nat), SpecRule)>::empty());
        assert(sort_ascending(s).to_multiset() =~= s.to_multiset());
    }
}

proof fn lemma_insert_asc_pos(r: Seq<((nat, nat, nat), SpecRule)>, key: (nat, nat, nat), j: int)
    requires
        0 <= j <= r.len(),
    ensures
        j <= insert_asc_pos(r, key, j) <= r.len(),
        forall|k: int| j <= k < insert_asc_pos(r, key, j) ==> !spec_less(key, #[trigger] r[k].0),
        insert_asc_pos(r, key, j) < r.len() ==> spec_less(key, r[insert_asc_pos(r, key, j)].0),
    decreases r.len() - j,
{
    if j < r.len() && !spec_less(key, r[j].0) {
        lemma_insert_asc_pos(r, key, j + 1);
    }
}

proof fn lemma_style_all(s: Seq<SpecNode>, sheets: Seq<Seq<SpecRule>>, parent: SpecProps)
    ensures
        style_all(s, sheets, parent).len() == s.len(),
        forall|i: int|
            0 <= i < s.len() ==> #[trigger] style_all(s, sheets, parent)[i] == style_spec(
                s[i],
                sheets,
                parent,
            ),
    decreases s.len(),
{
    if s.len() > 0 {
        let front = s.subrange(0, s.len() - 1);
        lemma_style_all(front, sheets, parent);
        assert forall|i: int| 0 <= i < s.len() implies #[trigger] style_all(s, sheets, parent)[i]
            == style_spec(s[i], sheets, parent) by {
            if i < s.len() - 1 {
                assert(s[i] == front[i]);
            }
        }
    }
}

/// The style tree has the shape of the DOM tree: each of its nodes stands over
/// the DOM node in the same place and has as many children, and each child is
/// the style tree of the DOM child under this node's properties (which is where
/// inherited values come from).
pub proof fn law_style_tree_has_dom_shape(n: SpecNode, sheets: Seq<Seq<SpecRule>>, parent: SpecProps)
    ensures
        style_spec(n, sheets, parent).node == n,
        style_spec(n, sheets, parent).children.len() == n.children.len(),
        forall|i: int|
            0 <= i < n.children.len() ==> #[trigger] style_spec(n, sheets, parent).children[i]
                == style_spec(n.children[i], sheets, style_spec(n, sheets, parent).values),
{
    let st = style_spec(n, sheets, parent);
    lemma_style_all(n.children, sheets, st.values);
}

proof fn lemma_best_match(
    tag: Seq<char>,
    attrs: Seq<(Seq<char>, Seq<char>)>,
    sels: Seq<SpecSelector>,
    n: int,
)
    requires
        0 <= n <= sels.len(),
    ensures
        best_match(tag, attrs, sels, n) is Some <==> exists|i: int|
            0 <= i < n && spec_matches(tag, attrs, #[trigger] sels[i]),
        best_match(tag, attrs, sels, n) matches Some(b) ==> exists|i: int|
            0 <= i < n && spec_matches(tag, attrs, #[trigger] sels[i]) && spec_specificity(sels[i])
                == b,
        best_match(tag, attrs, sels, n) matches Some(b) ==> forall|i: int|
            0 <= i < n && spec_matches(tag, attrs, #[trigger] sels[i]) ==> !spec_less(
                b,
                spec_specificity(sels[i]),
            ),
    decreases n,
{
    if n > 0 {
        lemma_best_match(tag, attrs, sels, n - 1);
        if spec_matches(tag, attrs, sels[n - 1]) {
            assert(exists|i: int| 0 <= i < n && spec_matches(tag, attrs, #[trigger] sels[i]));
        } else {
            if exists|i: int| 0 <= i < n && spec_matches(tag, attrs, #[trigger] sels[i]) {
                let i = choose|i: int| 0 <= i < n && spec_matches(tag, attrs, #[trigger] sels[i]);
                assert(i < n - 1);
            }
        }
    }
}

/// A rule applies to an element exactly when one of its selectors matches it,
/// and it applies with the highest specificity among the selectors that match:
/// that of one of them, and below none of them.
pub proof fn law_rule_applies_with_highest_specificity(
    tag: Seq<char>,
    attrs: Seq<(Seq<char>, Seq<char>)>,
    rule: SpecRule,
)
    ensures
        match_rule_spec(tag, attrs, rule) is Some <==> exists|i: int|
            0 <= i < rule.selectors.len() && spec_matches(tag, attrs, #[trigger] rule.selectors[i]),
        match_rule_spec(tag, attrs, rule) matches Some(b) ==> exists|i: int|
            0 <= i < rule.selectors.len() && spec_matches(tag, attrs, #[trigger] rule.selectors[i])
                && spec_specificity(rule.selectors[i]) == b,
        match_rule_spec(tag, attrs, rule) matches Some(b) ==> forall|i: int|
            0 <= i < rule.selectors.len() && spec_matches(tag, attrs, #[trigger] rule.selectors[i])
                ==> !spec_less(b, spec_specificity(rule.selectors[i])),
{
    lemma_best_match(tag, attrs, rule.selectors, rule.selectors.len() as int);
}

/// Inheritance in the style tree: an element takes its parent's `color` and
/// `font-size` unless a rule that applies to it declares them; a text node always
/// takes both from its parent; any other property that no rule declares is unset.
pub proof fn law_color_and_font_size_are_inherited(
    n: SpecNode,
    sheets: Seq<Seq<SpecRule>>,
    parent: SpecProps,
    name: Seq<char>,
)
    ensures
        match n.kind {
            SpecKind::Element(tag, attrs) => {
                &&& last_value(cascade_decls(tag, attrs, sheets), "font-size"@) is None ==> map_get(
                    style_spec(n, sheets, parent).values,
                    "font-size"@,
                ) == map_get(parent, "font-size"@)
                &&& last_value(cascade_decls(tag, attrs, sheets), "color"@) is None ==> map_get(
                    style_spec(n, sheets, parent).values,
                    "color"@,
                ) == map_get(parent, "color"@)
                &&& (last_value(cascade_decls(tag, attrs, sheets), name) is None && name != "color"@
                    && name != "font-size"@) ==> map_get(style_spec(n, sheets, parent).values, name)
                    is None
            },
            SpecKind::Text(_) => {
                &&& map_get(style_spec(n, sheets, parent).values, "font-size"@) == map_get(
                    parent,
                    "font-size"@,
                )
                &&& map_get(style_spec(n, sheets, parent).values, "color"@) == map_get(
                    parent,
                    "color"@,
                )
                &&& (name != "color"@ && name != "font-size"@) ==> map_get(
                    style_spec(n, sheets, parent).values,
                    name,
                ) is None
            },
        },
{
    match n.kind {
        SpecKind::Element(tag, attrs) => {
            law_cascade(tag, attrs, sheets, parent, "font-size"@);
            law_cascade(tag, attrs, sheets, parent, "color"@);
            law_cascade(tag, attrs, sheets, parent, name);
        },
        SpecKind::Text(_) => {
            law_inherited_only(parent, "font-size"@);
            law_inherited_only(parent, "color"@);
            law_inherited_only(parent, name);
        },
    }
}

} // verus!
