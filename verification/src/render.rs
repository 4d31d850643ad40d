//! What a styled tree draws: the decisions of the page renderer.
//!
//! The renderer stacks blocks from top to bottom. For each block it decides
//! whether it shows, whether it is a fixed-height box (such as `<hr>`), a line
//! of text, or a container whose children are blocks in turn; and which text and
//! colours it draws with. Positions and sizes are not decided here.
use vstd::prelude::*;

use crate::chars::{
    chars_of, lemma_trim_end_index, lemma_trim_start_index, spec_is_whitespace, spec_trim,
    trim_end_index, trim_start_index, trim,
};
use crate::css::SpecValue;
use crate::display_list::Color;
use crate::dom::{spec_tag_name, NodeType, SpecKind};
use crate::html::{collapse_whitespace, is_collapsed, lemma_collapse_is_collapsed, spec_collapse};
use crate::strmap::map_get;
use crate::style::{lemma_styled_all_index, lemma_styled_all_len, SpecStyled, StyledNode};

verus! {

/// The node's `display` is the keyword `k`.
pub open spec fn display_is(n: SpecStyled, k: Seq<char>) -> bool {
    map_get(n.values, "display"@) == Some(SpecValue::Keyword(k))
}

/// The colour value of a property, if it is a colour.
pub open spec fn color_of(n: SpecStyled, name: Seq<char>) -> Option<Color> {
    match map_get(n.values, name) {
        Some(SpecValue::ColorValue(c)) => Some(c),
        _ => None,
    }
}

/// The `background-color` of the first `body` element, searching the tree in
/// document order; a `body` without one does not end the search among its siblings.
pub open spec fn body_background(n: SpecStyled) -> Option<Color>
    decreases n,
{
    if spec_tag_name(n.node) == Some("body"@) {
        color_of(n, "background-color"@)
    } else {
        body_background_all(n.children)
    }
}

pub open spec fn body_background_all(s: Seq<SpecStyled>) -> Option<Color>
    decreases s,
{
    if s.len() == 0 {
        None
    } else {
        match body_background_all(s.subrange(0, s.len() - 1)) {
            Some(c) => Some(c),
            None => body_background(s[s.len() - 1]),
        }
    }
}

/// The inline text of the children joined without separators (word breaks come
/// from the text itself), hidden children left out; none if a shown child is a block.
pub open spec fn inline_pieces(s: Seq<SpecStyled>) -> Option<Seq<char>>
    decreases s,
{
    if s.len() == 0 {
        Some(Seq::empty())
    } else {
        match inline_pieces(s.subrange(0, s.len() - 1)) {
            None => None,
            Some(acc) => {
                let c = s[s.len() - 1];
                if display_is(c, "none"@) {
                    Some(acc)
                } else if display_is(c, "block"@) {
                    None
                } else {
                    Some(
                        acc + match c.node.kind {
                            SpecKind::Text(t) => t,
                            SpecKind::Element(_, _) => inline_text(c),
                        },
                    )
                }
            },
        }
    }
}

/// The text of an element with its inline elements flattened; empty if it holds a block.
pub open spec fn inline_text(n: SpecStyled) -> Seq<char>
    decreases n,
{
    match inline_pieces(n.children) {
        Some(t) => t,
        None => Seq::empty(),
    }
}

/// The background colour of the page: that of `body`, if set.
pub fn find_body_background(styled: &StyledNode) -> (r: Option<Color>)
    ensures
        r == body_background(styled@),
    decreases styled@,
{
    if let Some(t) = styled.tag_name() {
        if crate::chars::str_eq(t, "body") {
            return styled.color("background-color");
        }
    }
    let ghost kids = styled@.children;
    proof {
        lemma_styled_all_len(styled.children@);
    }
    let mut i: usize = 0;
    assert(kids.take(0) =~= Seq::<SpecStyled>::empty());
    while i < styled.children.len()
        invariant
            i <= styled.children@.len(),
            kids == styled@.children,
            kids.len() == styled.children@.len(),
            body_background_all(kids.take(i as int)) is None,
            body_background(styled@) == body_background_all(kids),
        decreases styled.children@.len() - i,
    {
        proof {
            lemma_styled_all_index(styled.children@, i as int);
            let t = kids.take(i + 1);
            assert(t.subrange(0, i as int) =~= kids.take(i as int));
        }
        let found = find_body_background(&styled.children[i]);
        if found.is_some() {
            proof {
                let t = kids.take(i + 1);
                assert(body_background_all(t) == found);
                lemma_body_background_all_prefix(kids, i + 1);
            }
            return found;
        }
        i = i + 1;
    }
    assert(kids.take(kids.len() as int) =~= kids);
    None
}

/// Once found in a prefix, the search result stays.
proof fn lemma_body_background_all_prefix(s: Seq<SpecStyled>, k: int)
    requires
        0 <= k <= s.len(),
        body_background_all(s.take(k)) is Some,
    ensures
        body_background_all(s) == body_background_all(s.take(k)),
    decreases s.len() - k,
{
    if k < s.len() {
        let t = s.take(k + 1);
        assert(t.subrange(0, k) =~= s.take(k));
        assert(body_background_all(t) == body_background_all(s.take(k)));
        lemma_body_background_all_prefix(s, k + 1);
    } else {
        assert(s.take(k) =~= s);
    }
}

/// Flattens the text of an element across its inline children (`<strong>`, `<a>`
/// and the like) into one string; a hidden child is left out, and an element
/// that holds a block gives no text (it is a container).
pub fn collect_inline_text(styled: &StyledNode) -> (r: String)
    ensures
        r@ == inline_text(styled@),
    decreases styled@,
{
    let ghost kids = styled@.children;
    proof {
        lemma_styled_all_len(styled.children@);
    }
    let mut out = String::new();
    let mut i: usize = 0;
    assert(kids.take(0) =~= Seq::<SpecStyled>::empty());
    while i < styled.children.len()
        invariant
            i <= styled.children@.len(),
            kids == styled@.children,
            kids.len() == styled.children@.len(),
            inline_pieces(kids.take(i as int)) == Some(out@),
        decreases styled.children@.len() - i,
    {
        let child = &styled.children[i];
        proof {
            lemma_styled_all_index(styled.children@, i as int);
            let t = kids.take(i + 1);
            assert(t.subrange(0, i as int) =~= kids.take(i as int));
        }
        let hidden = match child.keyword("display") {
            Some(k) => crate::chars::str_eq(k, "none"),
            None => false,
        };
        if !hidden {
            let block = match child.keyword("display") {
                Some(k) => crate::chars::str_eq(k, "block"),
                None => false,
            };
            if block {
                // a block inside: this element is a container, not a line of text
                proof {
                    lemma_inline_pieces_none(kids, i + 1);
                }
                return String::new();
            }
            // joined as they are: the word breaks are in the text already
            match &child.node.node_type {
                NodeType::Text(text) => out.append(text.as_str()),
                NodeType::Element(_) => {
                    let inner = collect_inline_text(child);
                    out.append(inner.as_str());
                },
            }
        }
        i = i + 1;
    }
    assert(kids.take(kids.len() as int) =~= kids);
    out
}

/// A block anywhere in a prefix makes the whole run give no text.
proof fn lemma_inline_pieces_none(s: Seq<SpecStyled>, k: int)
    requires
        0 <= k <= s.len(),
        inline_pieces(s.take(k)) is None,
    ensures
        inline_pieces(s) is None,
    decreases s.len() - k,
{
    if k < s.len() {
        let t = s.take(k + 1);
        assert(t.subrange(0, k) =~= s.take(k));
        lemma_inline_pieces_none(s, k + 1);
    } else {
        assert(s.take(k) =~= s);
    }
}

/// How a block is drawn.
pub enum BlockKind {
    /// `display: none`: neither it nor anything in it is drawn
    Hidden,
    /// it has a `height`: a box of that height, in its background colour if it has one
    Sized,
    /// a line of text (whitespace collapsed over the whole line, trimmed)
    Line(String),
    /// no text of its own: its children are drawn as blocks one below the other
    Container,
}

pub enum SpecBlockKind {
    Hidden,
    Sized,
    Line(Seq<char>),
    Container,
}

impl View for BlockKind {
    type V = SpecBlockKind;

    open spec fn view(&self) -> SpecBlockKind {
        match self {
            BlockKind::Hidden => SpecBlockKind::Hidden,
            BlockKind::Sized => SpecBlockKind::Sized,
            BlockKind::Line(t) => SpecBlockKind::Line(t@),
            BlockKind::Container => SpecBlockKind::Container,
        }
    }
}

/// The text line of a block: its inline text with whitespace collapsed over the
/// whole line (so a hidden element leaves no double space) and trimmed.
pub open spec fn block_line(n: SpecStyled) -> Seq<char> {
    spec_trim(spec_collapse(inline_text(n)))
}

pub open spec fn spec_block_kind(n: SpecStyled) -> SpecBlockKind {
    if display_is(n, "none"@) {
        SpecBlockKind::Hidden
    } else if map_get(n.values, "height"@) matches Some(SpecValue::Length(_)) {
        SpecBlockKind::Sized
    } else if block_line(n).len() == 0 {
        SpecBlockKind::Container
    } else {
        SpecBlockKind::Line(block_line(n))
    }
}

/// Decides how a block is drawn.
pub fn block_kind(styled: &StyledNode) -> (r: BlockKind)
    ensures
        r@ == spec_block_kind(styled@),
{
    if let Some(k) = styled.keyword("display") {
        if crate::chars::str_eq(k, "none") {
            return BlockKind::Hidden;
        }
    }
    if let Some(v) = styled.value("height") {
        if v.length_text().is_some() {
            return BlockKind::Sized;
        }
    }
    let text = collapse_whitespace(collect_inline_text(styled).as_str());
    let cs = chars_of(text.as_str());
    let line = trim(cs.as_slice());
    if line.as_str().is_empty() {
        BlockKind::Container
    } else {
        BlockKind::Line(line)
    }
}

/// The colour of a line of text: its `color`, or dark grey by default.
pub fn text_color(styled: &StyledNode) -> (r: Color)
    ensures
        r == (match color_of(styled@, "color"@) {
            Some(c) => c,
            None => Color { r: 0x33, g: 0x33, b: 0x3d },
        }),
{
    match styled.color("color") {
        Some(c) => c,
        None => Color { r: 0x33, g: 0x33, b: 0x3d },
    }
}

/// The text drawn for a line: a list item gets a bullet in front (a very small
/// `list-style`).
pub fn line_label(styled: &StyledNode, text: &str) -> (r: String)
    ensures
        r@ == if spec_tag_name(styled@.node) == Some("li"@) {
            "・"@ + text@
        } else {
            text@
        },
{
    let is_li = match styled.tag_name() {
        Some(t) => crate::chars::str_eq(t, "li"),
        None => false,
    };
    if is_li {
        let mut out = "・".to_owned();
        out.append(text);
        out
    } else {
        text.to_owned()
    }
}

/// One step of drawing a styled tree. The renderer stacks blocks from top to
/// bottom; these are its steps in order, and where each lands on the page is
/// worked out from the sizes that the steps' nodes carry.
pub enum Step<'a> {
    /// a shown block begins: its top margin and left padding apply from here on
    Enter(&'a StyledNode<'a>),
    /// the block is a box of its `height`
    Sized(&'a StyledNode<'a>),
    /// the block is one line of this text
    Line(&'a StyledNode<'a>, String),
    /// the block ends: its bottom margin applies
    Leave(&'a StyledNode<'a>),
}

pub enum SpecStep {
    Enter(SpecStyled),
    Sized(SpecStyled),
    Line(SpecStyled, Seq<char>),
    Leave(SpecStyled),
}

impl<'a> View for Step<'a> {
    type V = SpecStep;

    open spec fn view(&self) -> SpecStep {
        match self {
            Step::Enter(n) => SpecStep::Enter(n@),
            Step::Sized(n) => SpecStep::Sized(n@),
            Step::Line(n, t) => SpecStep::Line(n@, t@),
            Step::Leave(n) => SpecStep::Leave(n@),
        }
    }
}

pub open spec fn steps_view<'a>(s: Seq<Step<'a>>) -> Seq<SpecStep> {
    s.map_values(|x: Step<'a>| x@)
}

/// The steps of drawing a block: nothing if it is hidden, else it begins, is a
/// box, a line or its children's blocks one below the other, and ends.
pub open spec fn walk(n: SpecStyled) -> Seq<SpecStep>
    decreases n,
{
    match spec_block_kind(n) {
        SpecBlockKind::Hidden => Seq::empty(),
        SpecBlockKind::Sized => seq![SpecStep::Enter(n), SpecStep::Sized(n), SpecStep::Leave(n)],
        SpecBlockKind::Line(t) => seq![SpecStep::Enter(n), SpecStep::Line(n, t), SpecStep::Leave(n)],
        SpecBlockKind::Container => seq![SpecStep::Enter(n)] + walk_all(n.children) + seq![
            SpecStep::Leave(n),
        ],
    }
}

/// The steps of drawing blocks one after the other.
pub open spec fn walk_all(s: Seq<SpecStyled>) -> Seq<SpecStep>
    decreases s,
{
    if s.len() == 0 {
        Seq::empty()
    } else {
        walk_all(s.subrange(0, s.len() - 1)) + walk(s[s.len() - 1])
    }
}

fn push_step<'a>(out: &mut Vec<Step<'a>>, step: Step<'a>)
    ensures
        steps_view(final(out)@) == steps_view(old(out)@).push(step@),
{
    out.push(step);
    assert(steps_view(out@) =~= steps_view(old(out)@).push(step@));
}

fn push_steps<'a>(styled: &'a StyledNode<'a>, out: &mut Vec<Step<'a>>)
    ensures
        steps_view(final(out)@) == steps_view(old(out)@) + walk(styled@),
    decreases styled@,
{
    let ghost before = steps_view(out@);
    let ghost n = styled@;
    match block_kind(styled) {
        BlockKind::Hidden => {
            assert(steps_view(out@) =~= before + walk(n));
        },
        BlockKind::Sized => {
            push_step(out, Step::Enter(styled));
            push_step(out, Step::Sized(styled));
            push_step(out, Step::Leave(styled));
            assert(steps_view(out@) =~= before + walk(n));
        },
        BlockKind::Line(text) => {
            let ghost t = text@;
            push_step(out, Step::Enter(styled));
            push_step(out, Step::Line(styled, text));
            push_step(out, Step::Leave(styled));
            assert(steps_view(out@) =~= before + walk(n));
        },
        BlockKind::Container => {
            push_step(out, Step::Enter(styled));
            let ghost kids = n.children;
            proof {
                lemma_styled_all_len(styled.children@);
            }
            let mut i: usize = 0;
            assert(kids.take(0) =~= Seq::<SpecStyled>::empty());
            assert(steps_view(out@) =~= before + seq![SpecStep::Enter(n)] + walk_all(kids.take(0)));
            while i < styled.children.len()
                invariant
                    i <= styled.children@.len(),
                    n == styled@,
                    kids == n.children,
                    kids.len() == styled.children@.len(),
                    steps_view(out@) == before + seq![SpecStep::Enter(n)] + walk_all(kids.take(i as int)),
                decreases styled.children@.len() - i,
            {
                proof {
                    lemma_styled_all_index(styled.children@, i as int);
                    let t = kids.take(i + 1);
                    assert(t.subrange(0, i as int) =~= kids.take(i as int));
                }
                push_steps(&styled.children[i], out);
                i = i + 1;
                assert(steps_view(out@) =~= before + seq![SpecStep::Enter(n)] + walk_all(kids.take(i as int)));
            }
            push_step(out, Step::Leave(styled));
            assert(kids.take(kids.len() as int) =~= kids);
            assert(steps_view(out@) =~= before + walk(n));
        },
    }
}

/// The steps of drawing a page from its styled tree, in order.
pub fn render_steps<'a>(root: &'a StyledNode<'a>) -> (r: Vec<Step<'a>>)
    ensures
        steps_view(r@) == walk(root@),
{
    let mut out: Vec<Step<'a>> = Vec::new();
    assert(steps_view(out@) =~= Seq::<SpecStep>::empty());
    push_steps(root, &mut out);
    assert(steps_view(out@) =~= walk(root@));
    out
}

/// A line as it is drawn: not empty, no whitespace at either end, and no
/// whitespace inside but single spaces.
pub open spec fn is_clean_line(t: Seq<char>) -> bool {
    &&& t.len() > 0
    &&& !spec_is_whitespace(t[0])
    &&& !spec_is_whitespace(t[t.len() - 1])
    &&& is_collapsed(t)
}

pub open spec fn step_ok(s: SpecStep) -> bool {
    s matches SpecStep::Line(_, t) ==> is_clean_line(t)
}

proof fn lemma_block_line_clean(n: SpecStyled)
    requires
        block_line(n).len() > 0,
    ensures
        is_clean_line(block_line(n)),
{
    let c = spec_collapse(inline_text(n));
    lemma_collapse_is_collapsed(inline_text(n));
    let a = trim_start_index(c, 0);
    lemma_trim_start_index(c, 0);
    lemma_trim_end_index(c, a, c.len() as int);
    let b = trim_end_index(c, a, c.len() as int);
    let t = c.subrange(a, b);
    assert(t == block_line(n));
    assert(t[0] == c[a]);
    assert(t[t.len() - 1] == c[b - 1]);
    assert forall|i: int| 0 <= i < t.len() && spec_is_whitespace(#[trigger] t[i]) implies t[i]
        == ' ' by {
        assert(t[i] == c[a + i]);
    }
    assert forall|i: int| 0 <= i < t.len() - 1 && #[trigger] t[i] == ' ' implies t[i + 1] != ' ' by {
        assert(t[i] == c[a + i]);
        assert(t[i + 1] == c[a + i + 1]);
    }
}

/// Every line the renderer draws is clean: not empty, trimmed, and with its
/// whitespace collapsed over the whole line, so that a hidden element between
/// two words leaves one space. A hidden block draws nothing at all, not even its
/// descendants.
pub proof fn law_drawn_lines_are_clean(n: SpecStyled)
    ensures
        forall|i: int| 0 <= i < walk(n).len() ==> step_ok(#[trigger] walk(n)[i]),
        display_is(n, "none"@) ==> walk(n).len() == 0,
    decreases n,
{
    let w = walk(n);
    match spec_block_kind(n) {
        SpecBlockKind::Hidden => {},
        SpecBlockKind::Sized => {},
        SpecBlockKind::Line(t) => {
            lemma_block_line_clean(n);
            assert(step_ok(w[1]));
        },
        SpecBlockKind::Container => {
            let inner = walk_all(n.children);
            lemma_walk_all_clean(n.children);
            assert forall|i: int| 0 <= i < w.len() implies step_ok(#[trigger] w[i]) by {
                if 1 <= i < w.len() - 1 {
                    assert(w[i] == inner[i - 1]);
                }
            }
        },
    }
}

proof fn lemma_walk_all_clean(s: Seq<SpecStyled>)
    ensures
        forall|i: int| 0 <= i < walk_all(s).len() ==> step_ok(#[trigger] walk_all(s)[i]),
    decreases s,
{
    if s.len() > 0 {
        let front = s.subrange(0, s.len() - 1);
        lemma_walk_all_clean(front);
        law_drawn_lines_are_clean(s[s.len() - 1]);
        let a = walk_all(front);
        let b = walk(s[s.len() - 1]);
        assert forall|i: int| 0 <= i < walk_all(s).len() implies step_ok(#[trigger] walk_all(s)[i]) by {
            if i < a.len() {
                assert(walk_all(s)[i] == a[i]);
            } else {
                assert(walk_all(s)[i] == b[i - a.len()]);
            }
        }
    }
}

/// What a block draws, from its properties alone: nothing when its `display` is
/// `none`; a box (begin, box, end) when it has a `height` that is a length,
/// whatever its background; else one line when its text, collapsed and trimmed,
/// is not empty; else its children's blocks between its begin and end.
pub proof fn law_what_a_block_draws(n: SpecStyled)
    ensures
        display_is(n, "none"@) ==> walk(n) == Seq::<SpecStep>::empty(),
        (!display_is(n, "none"@) && (map_get(n.values, "height"@) matches Some(SpecValue::Length(_))))
            ==> walk(n) == seq![SpecStep::Enter(n), SpecStep::Sized(n), SpecStep::Leave(n)],
        ({
            let t = spec_trim(spec_collapse(inline_text(n)));
            !display_is(n, "none"@) && !(map_get(n.values, "height"@) matches Some(
                SpecValue::Length(_),
            )) && t.len() > 0 ==> walk(n) == seq![
                SpecStep::Enter(n),
                SpecStep::Line(n, t),
                SpecStep::Leave(n),
            ]
        }),
        !display_is(n, "none"@) && !(map_get(n.values, "height"@) matches Some(
            SpecValue::Length(_),
        )) && spec_trim(spec_collapse(inline_text(n))).len() == 0 ==> walk(n) == seq![
            SpecStep::Enter(n),
        ] + walk_all(n.children) + seq![SpecStep::Leave(n)],
{
}

} // verus!
