//! HTML parser: text to DOM tree.
//!
//! A recursive-descent parser that reads the input one character at a time:
//! parsing an element parses its children, which may be elements again, so the
//! recursion follows the nesting of the document. It targets well-behaved HTML;
//! a tag that the input ends inside of cannot be parsed.
use vstd::prelude::*;

use crate::chars::{spec_is_whitespace, str_eq};
use crate::cursor::{scan_end, starts_at, lemma_scan_end, CharClass, Cursor};
use crate::dom::{
    lemma_nodes_view_push, nodes_view, spec_tag_name, Node, NodeType, SpecKind, SpecNode,
};
use crate::strmap::{map_insert, StrMap};

verus! {

// ---------------------------------------------------------------------------
// Whitespace collapsing
// ---------------------------------------------------------------------------

/// The collapsed text read so far, and whether a run of whitespace is pending.
pub open spec fn collapse_state(t: Seq<char>) -> (Seq<char>, bool)
    decreases t.len(),
{
    if t.len() == 0 {
        (Seq::empty(), false)
    } else {
        let (out, pending) = collapse_state(t.drop_last());
        let c = t.last();
        if spec_is_whitespace(c) {
            (out, true)
        } else {
            ((if pending {
                out.push(' ')
            } else {
                out
            }).push(c), false)
        }
    }
}

/// Every run of whitespace (line breaks and tabs included) becomes one space,
/// at the ends of the text as well as inside it.
pub open spec fn spec_collapse(t: Seq<char>) -> Seq<char> {
    let (out, pending) = collapse_state(t);
    if pending {
        out.push(' ')
    } else {
        out
    }
}

/// HTML whitespace handling: folds each run of whitespace characters into a
/// single space. A run at either end is kept as one space, so that text pieces
/// split by tags can be joined again without losing or inventing word breaks.
pub fn collapse_whitespace(text: &str) -> (r: String)
    ensures
        r@ == spec_collapse(text@),
{
    let mut out = String::new();
    let mut pending_space = false;
    for c in it: text.chars()
        invariant
            it.seq() == text@,
            (out@, pending_space) == collapse_state(it.seq().take(it.index() as int)),
    {
        proof {
            let t = it.seq().take(it.index() + 1);
            assert(t.drop_last() =~= it.seq().take(it.index() as int));
        }
        if crate::chars::is_whitespace(c) {
            pending_space = true;
        } else {
            if pending_space {
                crate::chars::push_char(&mut out, ' ');
                pending_space = false;
            }
            crate::chars::push_char(&mut out, c);
        }
    }
    proof {
        assert(text@.take(text@.len() as int) =~= text@);
    }
    if pending_space {
        crate::chars::push_char(&mut out, ' ');
    }
    out
}

} // verus!

verus! {

// ---------------------------------------------------------------------------
// The grammar, as functions on the input characters `s` and a position `p`.
// Each gives what is read there and where reading stops; none means that the
// input ends inside a tag, where the parser cannot go on.
// ---------------------------------------------------------------------------

/// The elements that never have children (the 14 void elements of HTML).
pub open spec fn is_void_element(tag: Seq<char>) -> bool {
    ||| tag == "area"@
    ||| tag == "base"@
    ||| tag == "br"@
    ||| tag == "col"@
    ||| tag == "embed"@
    ||| tag == "hr"@
    ||| tag == "img"@
    ||| tag == "input"@
    ||| tag == "link"@
    ||| tag == "meta"@
    ||| tag == "param"@
    ||| tag == "source"@
    ||| tag == "track"@
    ||| tag == "wbr"@
}

pub open spec fn text_node(t: Seq<char>) -> SpecNode {
    SpecNode { kind: SpecKind::Text(t), children: Seq::empty() }
}

pub open spec fn element_node(
    tag: Seq<char>,
    attrs: Seq<(Seq<char>, Seq<char>)>,
    children: Seq<SpecNode>,
) -> SpecNode {
    SpecNode { kind: SpecKind::Element(tag, attrs), children }
}

/// Where the scan for the end of a comment stops: at `-->` or at the end of the input.
pub open spec fn comment_scan(s: Seq<char>, q: int) -> int
    decreases s.len() - q,
{
    if 0 <= q < s.len() && !starts_at(s, q, "-->"@) {
        comment_scan(s, q + 1)
    } else {
        q
    }
}

/// Where a comment `<!-- ... -->` that starts at `p` ends.
pub open spec fn comment_end(s: Seq<char>, p: int) -> int {
    let q = comment_scan(s, p + 4);
    if q < s.len() {
        q + 3
    } else {
        q
    }
}

/// Where a declaration such as `<!DOCTYPE html>` that starts at `p` ends.
pub open spec fn declaration_end(s: Seq<char>, p: int) -> int {
    let e = scan_end(s, p, CharClass::Not('>'));
    if e < s.len() {
        e + 1
    } else {
        e
    }
}

/// Where the closing tag that may follow an element's children at `p` ends.
/// Its name is not checked against the element's.
pub open spec fn close_tag_end(s: Seq<char>, p: int) -> int {
    if starts_at(s, p, "</"@) {
        let a = scan_end(s, p + 2, CharClass::HtmlName);
        let b = scan_end(s, a, CharClass::Whitespace);
        if b < s.len() && s[b] == '>' {
            b + 1
        } else {
            b
        }
    } else {
        p
    }
}

/// An attribute value at `p` (just after `=`): quoted with `"` or `'`, or unquoted.
pub open spec fn attr_value_spec(s: Seq<char>, p: int) -> Option<(Seq<char>, int)> {
    if p < 0 || p >= s.len() {
        None
    } else {
        let open = s[p];
        if open == '"' || open == '\'' {
            let e = scan_end(s, p + 1, CharClass::Not(open));
            Some((s.subrange(p + 1, e), if e < s.len() {
                e + 1
            } else {
                e
            }))
        } else {
            let e = scan_end(s, p, CharClass::Unquoted);
            Some((s.subrange(p, e), e))
        }
    }
}

/// The attributes `name="value" flag name2='v'` from `p` on, added to `acc`.
/// A later attribute with the same name replaces the earlier value.
pub open spec fn attrs_spec(s: Seq<char>, p: int, acc: Seq<(Seq<char>, Seq<char>)>) -> Option<
    (Seq<(Seq<char>, Seq<char>)>, int),
>
    decreases s.len() - p,
{
    if p < 0 || p > s.len() {
        None
    } else {
        let q = scan_end(s, p, CharClass::Whitespace);
        if q < p || q > s.len() {
            None
        } else if q == s.len() || s[q] == '>' || starts_at(s, q, "/>"@) {
            Some((acc, q))
        } else {
            let ne = scan_end(s, q, CharClass::HtmlName);
            if ne == q {
                // nothing readable: skip one character
                attrs_spec(s, q + 1, acc)
            } else if ne < q || ne > s.len() {
                None
            } else {
                let name = s.subrange(q, ne);
                if ne < s.len() && s[ne] == '=' {
                    match attr_value_spec(s, ne + 1) {
                        None => None,
                        Some((v, e)) => if p < e <= s.len() {
                            attrs_spec(s, e, map_insert(acc, name, v))
                        } else {
                            None
                        },
                    }
                } else {
                    attrs_spec(s, ne, map_insert(acc, name, Seq::empty()))
                }
            }
        }
    }
}

/// The sibling nodes from `p` on, appended to `acc`; reading stops at the end
/// of the input or at the start of a closing tag.
pub open spec fn nodes_spec(s: Seq<char>, p: int, acc: Seq<SpecNode>) -> Option<
    (Seq<SpecNode>, int),
>
    decreases s.len() - p, 2int,
{
    if p < 0 || p >= s.len() || starts_at(s, p, "</"@) {
        Some((acc, p))
    } else {
        match node_spec(s, p) {
            None => None,
            Some((o, p1)) => if p < p1 <= s.len() {
                nodes_spec(
                    s,
                    p1,
                    match o {
                        Some(n) => acc.push(n),
                        None => acc,
                    },
                )
            } else {
                None
            },
        }
    }
}

/// One node at `p`: a comment or declaration (which give no node), an element, or text.
pub open spec fn node_spec(s: Seq<char>, p: int) -> Option<(Option<SpecNode>, int)>
    decreases s.len() - p, 1int,
{
    if p < 0 || p >= s.len() {
        None
    } else if starts_at(s, p, "<!--"@) {
        Some((None, comment_end(s, p)))
    } else if starts_at(s, p, "<!"@) {
        Some((None, declaration_end(s, p)))
    } else if s[p] == '<' {
        match element_spec(s, p) {
            Some((n, e)) => Some((Some(n), e)),
            None => None,
        }
    } else {
        let e = scan_end(s, p, CharClass::Not('<'));
        Some((Some(text_node(spec_collapse(s.subrange(p, e)))), e))
    }
}

/// An element `<tag attrs>children</tag>` at `p`.
pub open spec fn element_spec(s: Seq<char>, p: int) -> Option<(SpecNode, int)>
    decreases s.len() - p, 0int,
{
    if p < 0 || p >= s.len() {
        None
    } else {
        let ne = scan_end(s, p + 1, CharClass::HtmlName);
        let tag = s.subrange(p + 1, ne);
        match attrs_spec(s, ne, Seq::empty()) {
            None => None,
            Some((attrs, q)) => if q <= p || q > s.len() {
                None
            } else if starts_at(s, q, "/>"@) {
                Some((element_node(tag, attrs, Seq::empty()), q + 2))
            } else if q >= s.len() || s[q] != '>' {
                None
            } else if is_void_element(tag) {
                Some((element_node(tag, attrs, Seq::empty()), q + 1))
            } else {
                match nodes_spec(s, q + 1, Seq::empty()) {
                    None => None,
                    Some((kids, r)) => Some((element_node(tag, attrs, kids), close_tag_end(s, r))),
                }
            }
        }
    }
}

/// A text node that holds only whitespace.
pub open spec fn is_blank(n: SpecNode) -> bool {
    match n.kind {
        SpecKind::Text(t) => all_whitespace(t),
        _ => false,
    }
}

/// Every character of `t` is whitespace.
pub open spec fn all_whitespace(t: Seq<char>) -> bool {
    forall|i: int| 0 <= i < t.len() ==> spec_is_whitespace(#[trigger] t[i])
}

/// The nodes without the blank text nodes.
pub open spec fn remove_blank(s: Seq<SpecNode>) -> Seq<SpecNode>
    decreases s.len(),
{
    if s.len() == 0 {
        Seq::empty()
    } else {
        let r = remove_blank(s.drop_last());
        if is_blank(s.last()) {
            r
        } else {
            r.push(s.last())
        }
    }
}

/// The document that `s` parses to: the top-level nodes without blank text;
/// if that is one `html` element, it is the root, else an `html` root is put around them.
pub open spec fn html_document(s: Seq<char>) -> Option<SpecNode> {
    match nodes_spec(s, 0, Seq::empty()) {
        None => None,
        Some((ns, _)) => {
            let ks = remove_blank(ns);
            if ks.len() == 1 && spec_tag_name(ks[0]) == Some("html"@) {
                Some(ks[0])
            } else {
                Some(element_node("html"@, Seq::empty(), ks))
            }
        },
    }
}

} // verus!

verus! {

pub open spec fn opt_node_view(o: Option<Node>) -> Option<SpecNode> {
    match o {
        Some(n) => Some(n@),
        None => None,
    }
}

/// Whether `tag` names a void element.
fn is_void(tag: &String) -> (r: bool)
    ensures
        r == is_void_element(tag@),
{
    let t = tag.as_str();
    str_eq(t, "area") || str_eq(t, "base") || str_eq(t, "br") || str_eq(t, "col") || str_eq(
        t,
        "embed",
    ) || str_eq(t, "hr") || str_eq(t, "img") || str_eq(t, "input") || str_eq(t, "link")
        || str_eq(t, "meta") || str_eq(t, "param") || str_eq(t, "source") || str_eq(t, "track")
        || str_eq(t, "wbr")
}

/// Reads a tag or attribute name.
fn parse_name(cur: &mut Cursor) -> (r: String)
    requires
        old(cur).wf(),
    ensures
        final(cur).pos == scan_end(old(cur).input@, old(cur).pos as int, CharClass::HtmlName),
        r@ == old(cur).input@.subrange(old(cur).pos as int, final(cur).pos as int),
        final(cur).input@ == old(cur).input@,
        final(cur).wf(),
{
    cur.consume_while(CharClass::HtmlName)
}

/// Skips a comment `<!-- ... -->`.
fn consume_comment(cur: &mut Cursor)
    requires
        old(cur).wf(),
        starts_at(old(cur).input@, old(cur).pos as int, "<!--"@),
    ensures
        final(cur).pos == comment_end(old(cur).input@, old(cur).pos as int),
        final(cur).input@ == old(cur).input@,
        final(cur).wf(),
{
    let ghost s = cur.input@;
    let ghost p = cur.pos as int;
    proof {
        reveal_strlit("<!--");
        reveal_strlit("-->");
    }
    cur.advance(4);
    while !cur.eof() && !cur.starts_with("-->")
        invariant
            cur.input@ == s,
            cur.wf(),
            comment_scan(s, cur.pos as int) == comment_scan(s, p + 4),
        decreases s.len() - cur.pos,
    {
        cur.consume_char();
    }
    if !cur.eof() {
        cur.advance(3);
    }
}

/// A text node: everything up to the next `<`, with whitespace collapsed.
fn parse_text(cur: &mut Cursor) -> (r: Node)
    requires
        old(cur).wf(),
    ensures
        final(cur).pos == scan_end(old(cur).input@, old(cur).pos as int, CharClass::Not('<')),
        r@ == text_node(
            spec_collapse(old(cur).input@.subrange(old(cur).pos as int, final(cur).pos as int)),
        ),
        final(cur).input@ == old(cur).input@,
        final(cur).wf(),
{
    let text = cur.consume_while(CharClass::Not('<'));
    Node::text(collapse_whitespace(text.as_str()))
}

/// An attribute value, quoted (`"v"`, `'v'`) or not (`v`).
fn parse_attr_value(cur: &mut Cursor) -> (r: Option<String>)
    requires
        old(cur).wf(),
    ensures
        final(cur).input@ == old(cur).input@,
        final(cur).wf(),
        old(cur).pos <= final(cur).pos,
        match r {
            None => attr_value_spec(old(cur).input@, old(cur).pos as int) is None,
            Some(v) => attr_value_spec(old(cur).input@, old(cur).pos as int) == Some(
                (v@, final(cur).pos as int),
            ),
        },
{
    if cur.eof() {
        return None;
    }
    let open = cur.next_char();
    let ghost s = cur.input@;
    let ghost p = cur.pos as int;
    if open == '"' || open == '\'' {
        cur.consume_char();
        let value = cur.consume_while(CharClass::Not(open));
        proof {
            lemma_scan_end(s, p + 1, CharClass::Not(open));
        }
        if !cur.eof() {
            cur.consume_char();
        }
        Some(value)
    } else {
        let value = cur.consume_while(CharClass::Unquoted);
        proof {
            lemma_scan_end(s, p, CharClass::Unquoted);
        }
        Some(value)
    }
}

/// The attributes of a tag, up to `>`, `/>` or the end of the input.
fn parse_attributes(cur: &mut Cursor) -> (r: Option<StrMap<String>>)
    requires
        old(cur).wf(),
    ensures
        final(cur).input@ == old(cur).input@,
        final(cur).wf(),
        old(cur).pos <= final(cur).pos,
        match r {
            None => attrs_spec(old(cur).input@, old(cur).pos as int, Seq::empty()) is None,
            Some(m) => attrs_spec(old(cur).input@, old(cur).pos as int, Seq::empty()) == Some(
                (m@, final(cur).pos as int),
            ),
        },
{
    let ghost s = cur.input@;
    let ghost p = cur.pos as int;
    let mut attributes: StrMap<String> = StrMap::new();
    loop
        invariant
            cur.input@ == s,
            s == old(cur).input@,
            p == old(cur).pos,
            cur.wf(),
            p <= cur.pos,
            attrs_spec(s, p, Seq::empty()) == attrs_spec(s, cur.pos as int, attributes@),
        decreases s.len() - cur.pos,
    {
        let ghost p1 = cur.pos as int;
        cur.consume_whitespace();
        proof {
            lemma_scan_end(s, p1, CharClass::Whitespace);
        }
        if cur.eof() || cur.next_char() == '>' || cur.starts_with("/>") {
            return Some(attributes);
        }
        let ghost q = cur.pos as int;
        let name = parse_name(cur);
        proof {
            lemma_scan_end(s, q, CharClass::HtmlName);
        }
        if name.as_str().is_empty() {
            // an unreadable character: skip it so that reading goes on
            cur.consume_char();
            continue;
        }
        let value = if !cur.eof() && cur.next_char() == '=' {
            cur.consume_char();
            match parse_attr_value(cur) {
                Some(v) => v,
                None => {
                    return None;
                },
            }
        } else {
            String::new()
        };
        attributes.insert(name, value);
    }
}

/// An element, from its opening `<` to the end of its closing tag.
fn parse_element(cur: &mut Cursor) -> (r: Option<Node>)
    requires
        old(cur).wf(),
        old(cur).pos < old(cur).input@.len(),
        old(cur).input@[old(cur).pos as int] == '<',
    ensures
        final(cur).input@ == old(cur).input@,
        final(cur).wf(),
        old(cur).pos <= final(cur).pos,
        match r {
            None => element_spec(old(cur).input@, old(cur).pos as int) is None,
            Some(n) => element_spec(old(cur).input@, old(cur).pos as int) == Some(
                (n@, final(cur).pos as int),
            ) && old(cur).pos < final(cur).pos,
        },
    decreases old(cur).input@.len() - old(cur).pos, 0int,
{
    let ghost s = cur.input@;
    let ghost p = cur.pos as int;
    proof {
        reveal_strlit("/>");
        reveal_strlit("</");
    }
    cur.consume_char();
    let tag_name = parse_name(cur);
    proof {
        lemma_scan_end(s, p + 1, CharClass::HtmlName);
    }
    let attributes = match parse_attributes(cur) {
        Some(a) => a,
        None => {
            return None;
        },
    };
    // a self-closing tag `<br/>` has no children
    if cur.starts_with("/>") {
        cur.advance(2);
        let n = Node::elem(tag_name, attributes, Vec::new());
        assert(nodes_view(Seq::<Node>::empty()) =~= Seq::<SpecNode>::empty());
        return Some(n);
    }
    if cur.eof() {
        return None;
    }
    let c = cur.consume_char();
    if c != '>' {
        return None;
    }
    if is_void(&tag_name) {
        let n = Node::elem(tag_name, attributes, Vec::new());
        assert(nodes_view(Seq::<Node>::empty()) =~= Seq::<SpecNode>::empty());
        return Some(n);
    }
    let children = match parse_nodes(cur) {
        Some(v) => v,
        None => {
            return None;
        },
    };
    // the closing tag; its name is read and dropped even if it does not match
    let ghost r0 = cur.pos as int;
    if cur.starts_with("</") {
        cur.advance(2);
        let ghost a = cur.pos as int;
        parse_name(cur);
        let ghost b = cur.pos as int;
        cur.consume_whitespace();
        proof {
            lemma_scan_end(s, a, CharClass::HtmlName);
            lemma_scan_end(s, b, CharClass::Whitespace);
        }
        if !cur.eof() && cur.next_char() == '>' {
            cur.consume_char();
        }
    }
    assert(cur.pos == close_tag_end(s, r0));
    Some(Node::elem(tag_name, attributes, children))
}

/// One node: a comment or declaration (skipped, giving no node), an element or text.
fn parse_node(cur: &mut Cursor) -> (r: Option<Option<Node>>)
    requires
        old(cur).wf(),
        old(cur).pos < old(cur).input@.len(),
    ensures
        final(cur).input@ == old(cur).input@,
        final(cur).wf(),
        old(cur).pos <= final(cur).pos,
        match r {
            None => node_spec(old(cur).input@, old(cur).pos as int) is None,
            Some(o) => node_spec(old(cur).input@, old(cur).pos as int) == Some(
                (opt_node_view(o), final(cur).pos as int),
            ) && old(cur).pos < final(cur).pos,
        },
    decreases old(cur).input@.len() - old(cur).pos, 1int,
{
    let ghost s = cur.input@;
    let ghost p = cur.pos as int;
    proof {
        reveal_strlit("<!--");
        reveal_strlit("<!");
        reveal_strlit("-->");
    }
    if cur.starts_with("<!--") {
        consume_comment(cur);
        proof {
            assert(comment_scan(s, p + 4) >= p + 4) by {
                lemma_comment_scan(s, p + 4);
            }
        }
        Some(None)
    } else if cur.starts_with("<!") {
        // `<!DOCTYPE html>` and the like do not show: skip them
        cur.consume_while(CharClass::Not('>'));
        proof {
            lemma_scan_end(s, p, CharClass::Not('>'));
            assert(s.subrange(p, p + 2)[0] == '<');
            assert(s[p] != '>');
        }
        if !cur.eof() {
            cur.consume_char();
        }
        Some(None)
    } else if cur.next_char() == '<' {
        match parse_element(cur) {
            Some(n) => Some(Some(n)),
            None => None,
        }
    } else {
        let n = parse_text(cur);
        proof {
            lemma_scan_end(s, p, CharClass::Not('<'));
        }
        Some(Some(n))
    }
}

pub proof fn lemma_comment_scan(s: Seq<char>, q: int)
    requires
        0 <= q <= s.len(),
    ensures
        q <= comment_scan(s, q) <= s.len(),
        comment_scan(s, q) < s.len() ==> starts_at(s, comment_scan(s, q), "-->"@),
    decreases s.len() - q,
{
    if q < s.len() && !starts_at(s, q, "-->"@) {
        lemma_comment_scan(s, q + 1);
    }
}

/// Sibling nodes, up to a closing tag or the end of the input.
fn parse_nodes(cur: &mut Cursor) -> (r: Option<Vec<Node>>)
    requires
        old(cur).wf(),
    ensures
        final(cur).input@ == old(cur).input@,
        final(cur).wf(),
        old(cur).pos <= final(cur).pos,
        match r {
            None => nodes_spec(old(cur).input@, old(cur).pos as int, Seq::empty()) is None,
            Some(v) => nodes_spec(old(cur).input@, old(cur).pos as int, Seq::empty()) == Some(
                (nodes_view(v@), final(cur).pos as int),
            ),
        },
    decreases old(cur).input@.len() - old(cur).pos, 2int,
{
    let ghost s = cur.input@;
    let ghost p = cur.pos as int;
    let mut nodes: Vec<Node> = Vec::new();
    assert(nodes_view(nodes@) =~= Seq::<SpecNode>::empty());
    loop
        invariant
            cur.input@ == s,
            s == old(cur).input@,
            p == old(cur).pos,
            cur.wf(),
            p <= cur.pos,
            nodes_spec(s, p, Seq::empty()) == nodes_spec(s, cur.pos as int, nodes_view(nodes@)),
        decreases s.len() - cur.pos,
    {
        // whitespace is not skipped here: at a tag boundary it separates words
        if cur.eof() || cur.starts_with("</") {
            return Some(nodes);
        }
        match parse_node(cur) {
            None => {
                return None;
            },
            Some(Some(node)) => {
                proof {
                    lemma_nodes_view_push(nodes@, node);
                }
                nodes.push(node);
            },
            Some(None) => {},
        }
    }
}

} // verus!

verus! {

/// Whether a node is a text node that holds only whitespace.
fn is_blank_text(node: &Node) -> (r: bool)
    ensures
        r == is_blank(node@),
{
    match &node.node_type {
        NodeType::Text(text) => {
            let cs = crate::chars::chars_of(text.as_str());
            let mut i: usize = 0;
            while i < cs.len()
                invariant
                    node@.kind == SpecKind::Text(text@),
                    cs@ == text@,
                    i <= cs@.len(),
                    forall|k: int| 0 <= k < i ==> spec_is_whitespace(#[trigger] cs@[k]),
                decreases cs@.len() - i,
            {
                if !crate::chars::is_whitespace(cs[i]) {
                    proof {
                        let t = text@;
                        assert(0 <= i < t.len() && !spec_is_whitespace(t[i as int]));
                        assert(!all_whitespace(t));
                    }
                    return false;
                }
                i = i + 1;
            }
            true
        },
        NodeType::Element(_) => false,
    }
}

/// Parses an HTML document into a DOM tree, or gives none where the input ends
/// inside a tag (which `parse` cannot read).
///
/// At the top of the document there is no flow of text, so whitespace-only
/// text nodes there are dropped; inside elements they separate words and stay.
/// Unless the document is a single `html` element, an `html` root is put around
/// it, so that the result is always one tree.
pub fn parse_checked(source: &str) -> (r: Option<Node>)
    ensures
        match r {
            Some(n) => html_document(source@) == Some(n@),
            None => html_document(source@) is None,
        },
{
    let mut cur = Cursor::new(source);
    let nodes = match parse_nodes(&mut cur) {
        Some(v) => v,
        None => {
            return None;
        },
    };
    let ghost all = nodes@;
    let mut kept: Vec<Node> = Vec::new();
    assert(nodes_view(kept@) =~= Seq::<SpecNode>::empty());
    proof {
        assert(nodes_view(all.take(0)) =~= Seq::<SpecNode>::empty());
    }
    for node in it: nodes
        invariant
            it.seq() == all,
            nodes_view(kept@) == remove_blank(nodes_view(all.take(it.index() as int))),
    {
        proof {
            let t = all.take(it.index() + 1);
            assert(t =~= all.take(it.index() as int).push(node));
            lemma_nodes_view_push(all.take(it.index() as int), node);
            let vt = nodes_view(t);
            assert(vt.drop_last() =~= nodes_view(all.take(it.index() as int)));
        }
        if !is_blank_text(&node) {
            proof {
                lemma_nodes_view_push(kept@, node);
            }
            kept.push(node);
        }
    }
    proof {
        assert(all.take(all.len() as int) =~= all);
        assert(nodes_view(kept@) == remove_blank(nodes_view(all)));
        crate::dom::lemma_nodes_view_len(kept@);
        if kept@.len() > 0 {
            crate::dom::lemma_nodes_view_index(kept@, 0);
        }
    }
    let single_html = kept.len() == 1 && match kept[0].tag_name() {
        Some(t) => str_eq(t, "html"),
        None => false,
    };
    if single_html {
        Some(kept.remove(0))
    } else {
        Some(Node::elem("html".to_owned(), StrMap::new(), kept))
    }
}

/// Parses an HTML document into a DOM tree (see `parse_checked`).
pub fn parse(source: &str) -> (n: Node)
    requires
        html_document(source@) is Some,
    ensures
        html_document(source@) == Some(n@),
{
    match parse_checked(source) {
        Some(n) => n,
        None => {
            proof {
                assert(false);
            }
            Node::text(String::new())
        }
    }
}

} // verus!

verus! {

// ---------------------------------------------------------------------------
// What whitespace collapsing guarantees
// ---------------------------------------------------------------------------

/// Text in collapsed form: its only whitespace is the plain space, and no two
/// spaces are adjacent.
pub open spec fn is_collapsed(t: Seq<char>) -> bool {
    &&& forall|i: int| 0 <= i < t.len() && spec_is_whitespace(#[trigger] t[i]) ==> t[i] == ' '
    &&& forall|i: int| 0 <= i < t.len() - 1 && #[trigger] t[i] == ' ' ==> t[i + 1] != ' '
}

/// What the collapsed text starts with: a space for leading whitespace, else the first character.
pub open spec fn collapsed_first(t: Seq<char>) -> char {
    if spec_is_whitespace(t[0]) {
        ' '
    } else {
        t[0]
    }
}

proof fn lemma_collapse_state(t: Seq<char>)
    ensures
        is_collapsed(collapse_state(t).0),
        collapse_state(t).0.len() > 0 ==> !spec_is_whitespace(collapse_state(t).0.last()),
        collapse_state(t).1 <==> (t.len() > 0 && spec_is_whitespace(t.last())),
        t.len() > 0 && collapse_state(t).0.len() > 0 ==> collapse_state(t).0[0] == collapsed_first(t),
        t.len() > 0 && collapse_state(t).0.len() == 0 ==> collapse_state(t).1 && forall|i: int|
            0 <= i < t.len() ==> spec_is_whitespace(#[trigger] t[i]),
        collapse_state(t).0.len() == 0 ==> forall|i: int|
            0 <= i < t.len() ==> spec_is_whitespace(#[trigger] t[i]),
    decreases t.len(),
{
    if t.len() > 0 {
        let v = t.drop_last();
        lemma_collapse_state(v);
        let (out, pending) = collapse_state(v);
        let c = t.last();
        assert(forall|i: int| 0 <= i < v.len() ==> v[i] == t[i]);
        if !spec_is_whitespace(c) {
            let o1 = if pending {
                out.push(' ')
            } else {
                out
            };
            let o2 = o1.push(c);
            assert forall|i: int| 0 <= i < o2.len() && spec_is_whitespace(#[trigger] o2[i]) implies o2[i]
                == ' ' by {
                if i < out.len() {
                    assert(o2[i] == out[i]);
                }
            }
            assert forall|i: int| 0 <= i < o2.len() - 1 && #[trigger] o2[i] == ' ' implies o2[i + 1]
                != ' ' by {
                if i < out.len() - 1 {
                    assert(o2[i] == out[i] && o2[i + 1] == out[i + 1]);
                } else if i == out.len() - 1 {
                    assert(o2[i] == out.last());
                }
            }
            if out.len() > 0 {
                assert(o2[0] == out[0]);
            }
        }
    }
}

/// Collapsed text has no whitespace but single spaces.
pub proof fn lemma_collapse_is_collapsed(t: Seq<char>)
    ensures
        is_collapsed(spec_collapse(t)),
{
    lemma_collapse_state(t);
    let (out, pending) = collapse_state(t);
    if pending {
        let o = out.push(' ');
        assert forall|i: int| 0 <= i < o.len() && spec_is_whitespace(#[trigger] o[i]) implies o[i] == ' ' by {
            if i < out.len() {
                assert(o[i] == out[i]);
            }
        }
        assert forall|i: int| 0 <= i < o.len() - 1 && #[trigger] o[i] == ' ' implies o[i + 1] != ' ' by {
            if i < out.len() - 1 {
                assert(o[i] == out[i] && o[i + 1] == out[i + 1]);
            } else {
                assert(o[i] == out.last());
            }
        }
    }
}

/// Whitespace at either end is kept as one space, and nothing else is added
/// there: the collapsed text begins (ends) with a space exactly when the text
/// begins (ends) with whitespace, and it is empty only when the text is.
pub proof fn lemma_collapse_ends(t: Seq<char>)
    ensures
        spec_collapse(t).len() == 0 <==> t.len() == 0,
        t.len() > 0 ==> spec_collapse(t)[0] == collapsed_first(t),
        t.len() > 0 ==> (spec_collapse(t).last() == ' ' <==> spec_is_whitespace(t.last())),
{
    lemma_collapse_state(t);
    let (out, pending) = collapse_state(t);
    if pending {
        let o = out.push(' ');
        if out.len() > 0 {
            assert(o[0] == out[0]);
        }
    } else if t.len() > 0 {
        assert(out.len() > 0);
        assert(out.last() != ' ');
    }
}

/// Collapsing leaves collapsed text as it is.
pub proof fn lemma_collapse_fixes_collapsed(u: Seq<char>)
    requires
        is_collapsed(u),
    ensures
        spec_collapse(u) == u,
{
    lemma_collapsed_state(u);
    if u.len() > 0 && u.last() == ' ' {
        assert(u.drop_last().push(' ') =~= u);
    }
}

proof fn lemma_collapsed_state(u: Seq<char>)
    requires
        is_collapsed(u),
    ensures
        collapse_state(u) == if u.len() > 0 && u.last() == ' ' {
            (u.drop_last(), true)
        } else {
            (u, false)
        },
    decreases u.len(),
{
    if u.len() > 0 {
        let v = u.drop_last();
        assert forall|i: int| 0 <= i < v.len() && spec_is_whitespace(#[trigger] v[i]) implies v[i] == ' ' by {
            assert(v[i] == u[i]);
        }
        assert forall|i: int| 0 <= i < v.len() - 1 && #[trigger] v[i] == ' ' implies v[i + 1] != ' ' by {
            assert(v[i] == u[i] && v[i + 1] == u[i + 1]);
        }
        lemma_collapsed_state(v);
        let c = u.last();
        if spec_is_whitespace(c) {
            assert(c == ' ');
            if v.len() > 0 {
                assert(u[v.len() - 1] == v.last());
                assert(v.last() != ' ');
            }
        } else {
            if v.len() > 0 && v.last() == ' ' {
                assert(v.drop_last().push(' ') =~= v);
            }
            assert(v.push(c) =~= u);
        }
    }
}

/// Collapsing twice is collapsing once (so joined pieces of collapsed text can
/// be collapsed again safely).
pub proof fn lemma_collapse_idempotent(t: Seq<char>)
    ensures
        spec_collapse(spec_collapse(t)) == spec_collapse(t),
{
    lemma_collapse_is_collapsed(t);
    lemma_collapse_fixes_collapsed(spec_collapse(t));
}

} // verus!

verus! {

// ---------------------------------------------------------------------------
// What every parsed document looks like
// ---------------------------------------------------------------------------

/// A node as the parser makes it: text is collapsed and has no children; a void
/// element has no children.
pub open spec fn node_ok(n: SpecNode) -> bool {
    match n.kind {
        SpecKind::Text(t) => is_collapsed(t) && n.children.len() == 0,
        SpecKind::Element(tag, _) => is_void_element(tag) ==> n.children.len() == 0,
    }
}

/// Every node of the tree is as the parser makes it.
pub open spec fn tree_ok(n: SpecNode) -> bool
    decreases n,
{
    node_ok(n) && trees_ok(n.children)
}

pub open spec fn trees_ok(s: Seq<SpecNode>) -> bool
    decreases s,
{
    s.len() == 0 || (trees_ok(s.subrange(0, s.len() - 1)) && tree_ok(s[s.len() - 1]))
}

proof fn lemma_trees_ok(s: Seq<SpecNode>)
    ensures
        trees_ok(s) <==> all_ok(s),
    decreases s.len(),
{
    if s.len() > 0 {
        let v = s.subrange(0, s.len() - 1);
        lemma_trees_ok(v);
        if all_ok(s) {
            assert forall|i: int| 0 <= i < v.len() implies #[trigger] tree_ok(v[i]) by {
                assert(v[i] == s[i]);
            }
            assert(tree_ok(s[s.len() - 1]));
            assert(trees_ok(s));
        }
        if trees_ok(s) {
            assert forall|i: int| 0 <= i < s.len() implies #[trigger] tree_ok(s[i]) by {
                if i < v.len() {
                    assert(v[i] == s[i]);
                }
            }
        }
    }
}

pub open spec fn all_ok(s: Seq<SpecNode>) -> bool {
    forall|i: int| 0 <= i < s.len() ==> #[trigger] tree_ok(s[i])
}

proof fn lemma_nodes_ok(s: Seq<char>, p: int, acc: Seq<SpecNode>)
    requires
        all_ok(acc),
    ensures
        nodes_spec(s, p, acc) matches Some((ns, _)) ==> all_ok(ns),
    decreases s.len() - p, 2int,
{
    if p < 0 || p >= s.len() || starts_at(s, p, "</"@) {
    } else {
        match node_spec(s, p) {
            None => {},
            Some((o, p1)) => if p < p1 <= s.len() {
                lemma_node_ok(s, p);
                let acc2 = match o {
                    Some(n) => acc.push(n),
                    None => acc,
                };
                assert(all_ok(acc2)) by {
                    if let Some(n) = o {
                        assert forall|i: int| 0 <= i < acc2.len() implies #[trigger] tree_ok(acc2[i]) by {
                            if i < acc.len() {
                                assert(acc2[i] == acc[i]);
                            }
                        }
                    }
                }
                lemma_nodes_ok(s, p1, acc2);
            },
        }
    }
}

proof fn lemma_node_ok(s: Seq<char>, p: int)
    ensures
        node_spec(s, p) matches Some((Some(n), _)) ==> tree_ok(n),
    decreases s.len() - p, 1int,
{
    if p < 0 || p >= s.len() {
    } else if starts_at(s, p, "<!--"@) {
    } else if starts_at(s, p, "<!"@) {
    } else if s[p] == '<' {
        lemma_element_ok(s, p);
    } else {
        let e = scan_end(s, p, CharClass::Not('<'));
        lemma_collapse_is_collapsed(s.subrange(p, e));
        let n = text_node(spec_collapse(s.subrange(p, e)));
        assert(tree_ok(n));
    }
}

proof fn lemma_element_ok(s: Seq<char>, p: int)
    ensures
        element_spec(s, p) matches Some((n, _)) ==> tree_ok(n),
    decreases s.len() - p, 0int,
{
    if p < 0 || p >= s.len() {
    } else {
        let ne = scan_end(s, p + 1, CharClass::HtmlName);
        let tag = s.subrange(p + 1, ne);
        match attrs_spec(s, ne, Seq::empty()) {
            None => {},
            Some((attrs, q)) => if q <= p || q > s.len() {
            } else if starts_at(s, q, "/>"@) {
                assert(tree_ok(element_node(tag, attrs, Seq::empty())));
            } else if q >= s.len() || s[q] != '>' {
            } else if is_void_element(tag) {
                assert(tree_ok(element_node(tag, attrs, Seq::empty())));
            } else {
                lemma_nodes_ok(s, q + 1, Seq::empty());
                match nodes_spec(s, q + 1, Seq::empty()) {
                    None => {},
                    Some((kids, r)) => {
                        let n = element_node(tag, attrs, kids);
                        lemma_trees_ok(kids);
                        assert(tree_ok(n));
                    },
                }
            }
        }
    }
}

proof fn lemma_remove_blank_ok(s: Seq<SpecNode>)
    requires
        all_ok(s),
    ensures
        all_ok(remove_blank(s)),
        forall|i: int| 0 <= i < remove_blank(s).len() ==> !is_blank(#[trigger] remove_blank(s)[i]),
    decreases s.len(),
{
    if s.len() > 0 {
        let v = s.drop_last();
        assert forall|i: int| 0 <= i < v.len() implies #[trigger] tree_ok(v[i]) by {
            assert(v[i] == s[i]);
        }
        lemma_remove_blank_ok(v);
        let r = remove_blank(v);
        if !is_blank(s.last()) {
            let r2 = r.push(s.last());
            assert forall|i: int| 0 <= i < r2.len() implies #[trigger] tree_ok(r2[i]) && !is_blank(r2[i]) by {
                if i < r.len() {
                    assert(r2[i] == r[i]);
                } else {
                    assert(tree_ok(s[s.len() - 1]));
                }
            }
        }
    }
}

/// A parsed document is one tree whose root is an `html` element; its void
/// elements have no children; its text nodes have no children and are collapsed
/// (their only whitespace is single spaces). When the parser supplies the root
/// itself, no child of it is whitespace-only text.
pub proof fn law_parsed_document_shape(s: Seq<char>)
    ensures
        html_document(s) matches Some(root) ==> {
            &&& spec_tag_name(root) == Some("html"@)
            &&& tree_ok(root)
        },
{
    lemma_nodes_ok(s, 0, Seq::empty());
    match nodes_spec(s, 0, Seq::empty()) {
        None => {},
        Some((ns, _)) => {
            lemma_remove_blank_ok(ns);
            let ks = remove_blank(ns);
            if ks.len() == 1 && spec_tag_name(ks[0]) == Some("html"@) {
                assert(tree_ok(ks[0]));
            } else {
                reveal_strlit("html");
                let root = element_node("html"@, Seq::empty(), ks);
                assert(!is_void_element("html"@)) by {
                    reveal_strlit("area");
                    reveal_strlit("base");
                    reveal_strlit("br");
                    reveal_strlit("col");
                    reveal_strlit("embed");
                    reveal_strlit("hr");
                    reveal_strlit("img");
                    reveal_strlit("input");
                    reveal_strlit("link");
                    reveal_strlit("meta");
                    reveal_strlit("param");
                    reveal_strlit("source");
                    reveal_strlit("track");
                    reveal_strlit("wbr");
                    assert("html"@[0] == 'h');
                    assert("html"@.len() == 4);
                }
                lemma_trees_ok(ks);
                assert(tree_ok(root));
            }
        },
    }
}

/// Which elements are read without children: exactly the 14 void elements of
/// HTML (area, base, br, col, embed, hr, img, input, link, meta, param, source,
/// track, wbr). Once the start tag `<tag attrs>` is read, such an element ends
/// there; any other element takes the nodes that follow as its children, up to
/// its end tag.
pub proof fn law_only_void_elements_are_childless(s: Seq<char>, p: int)
    requires
        0 <= p < s.len(),
    ensures
        ({
            let ne = scan_end(s, p + 1, CharClass::HtmlName);
            let tag = s.subrange(p + 1, ne);
            let void = tag == "area"@ || tag == "base"@ || tag == "br"@ || tag == "col"@ || tag
                == "embed"@ || tag == "hr"@ || tag == "img"@ || tag == "input"@ || tag == "link"@
                || tag == "meta"@ || tag == "param"@ || tag == "source"@ || tag == "track"@ || tag
                == "wbr"@;
            match attrs_spec(s, ne, Seq::empty()) {
                Some((attrs, q)) => (p < q < s.len() && s[q] == '>') ==> element_spec(s, p) == if void {
                    Some((element_node(tag, attrs, Seq::empty()), q + 1))
                } else {
                    match nodes_spec(s, q + 1, Seq::empty()) {
                        None => None,
                        Some((kids, r)) => Some(
                            (element_node(tag, attrs, kids), close_tag_end(s, r)),
                        ),
                    }
                },
                None => true,
            }
        }),
{
    reveal_strlit("/>");
    let ne = scan_end(s, p + 1, CharClass::HtmlName);
    if let Some((attrs, q)) = attrs_spec(s, ne, Seq::empty()) {
        if p < q < s.len() && s[q] == '>' {
            assert(!starts_at(s, q, "/>"@)) by {
                if starts_at(s, q, "/>"@) {
                    assert(s.subrange(q, q + 2)[0] == s[q]);
                }
            }
        }
    }
}

} // verus!
