//! The DOM: an HTML document as a tree of nodes.
//!
//! A node is either an element (a tag name with attributes, which may have
//! children) or a run of text.
use vstd::prelude::*;

use crate::chars::push_char;
use crate::strmap::StrMap;

verus! {

/// One node of the tree; its children make the tree.
pub struct Node {
    pub node_type: NodeType,
    pub children: Vec<Node>,
}

/// What kind of node it is.
pub enum NodeType {
    Element(ElementData),
    Text(String),
}

/// The content of an element node: its tag name and its attributes.
pub struct ElementData {
    pub tag_name: String,
    pub attributes: StrMap<String>,
}

/// A node's kind, as a mathematical value.
pub enum SpecKind {
    /// tag name and attributes (in the order in which they were first set)
    Element(Seq<char>, Seq<(Seq<char>, Seq<char>)>),
    Text(Seq<char>),
}

/// A node, as a mathematical value.
pub struct SpecNode {
    pub kind: SpecKind,
    pub children: Seq<SpecNode>,
}

impl View for NodeType {
    type V = SpecKind;

    open spec fn view(&self) -> SpecKind {
        match self {
            NodeType::Element(data) => SpecKind::Element(data.tag_name@, data.attributes@),
            NodeType::Text(t) => SpecKind::Text(t@),
        }
    }
}

pub open spec fn node_view(n: Node) -> SpecNode
    decreases n,
{
    SpecNode { kind: n.node_type@, children: nodes_view(n.children@) }
}

pub open spec fn nodes_view(s: Seq<Node>) -> Seq<SpecNode>
    decreases s,
{
    if s.len() == 0 {
        Seq::empty()
    } else {
        nodes_view(s.subrange(0, s.len() - 1)).push(node_view(s[s.len() - 1]))
    }
}

impl View for Node {
    type V = SpecNode;

    open spec fn view(&self) -> SpecNode {
        node_view(*self)
    }
}

pub proof fn lemma_nodes_view_push(s: Seq<Node>, n: Node)
    ensures
        nodes_view(s.push(n)) == nodes_view(s).push(n@),
{
    assert(s.push(n).subrange(0, s.len() as int) =~= s);
}

pub proof fn lemma_nodes_view_len(s: Seq<Node>)
    ensures
        nodes_view(s).len() == s.len(),
    decreases s.len(),
{
    if s.len() > 0 {
        lemma_nodes_view_len(s.subrange(0, s.len() - 1));
    }
}

pub proof fn lemma_nodes_view_index(s: Seq<Node>, i: int)
    requires
        0 <= i < s.len(),
    ensures
        nodes_view(s).len() == s.len(),
        nodes_view(s)[i] == s[i]@,
    decreases s.len(),
{
    lemma_nodes_view_len(s);
    if i < s.len() - 1 {
        lemma_nodes_view_index(s.subrange(0, s.len() - 1), i);
    }
}

/// The tag name of an element node; none for a text node.
pub open spec fn spec_tag_name(n: SpecNode) -> Option<Seq<char>> {
    match n.kind {
        SpecKind::Element(tag, _) => Some(tag),
        SpecKind::Text(_) => None,
    }
}

/// `n` spaces twice over: the indentation of depth `n`.
pub open spec fn indentation(n: nat) -> Seq<char>
    decreases n,
{
    if n == 0 {
        Seq::empty()
    } else {
        indentation((n - 1) as nat) + seq![' ', ' ']
    }
}

/// The attributes as ` name="value"` pieces, in order.
pub open spec fn attrs_text(a: Seq<(Seq<char>, Seq<char>)>) -> Seq<char>
    decreases a.len(),
{
    if a.len() == 0 {
        Seq::empty()
    } else {
        attrs_text(a.drop_last()) + seq![' '] + a.last().0 + seq!['=', '"'] + a.last().1 + seq!['"']
    }
}

/// What `format!("{:?}", s)` gives for a string: the string quoted, with escapes.
pub uninterp spec fn debug_quoted(s: Seq<char>) -> Seq<char>;

/// Wraps `<String as Debug>::fmt` through `format!`: the quoted, escaped form of the string.
#[verifier::external_body]
pub(crate) fn debug_string(s: &String) -> (r: String)
    ensures
        r@ == debug_quoted(s@),
{
    format!("{:?}", s)
}

/// The line that describes one node at depth `indent`.
pub open spec fn dump_line(kind: SpecKind, indent: nat) -> Seq<char> {
    match kind {
        SpecKind::Element(tag, attrs) => indentation(indent) + "Element <"@ + tag + attrs_text(attrs)
            + ">\n"@,
        SpecKind::Text(t) => indentation(indent) + "Text "@ + debug_quoted(t) + "\n"@,
    }
}

/// The tree below `n`, one line per node, each line indented by its depth.
pub open spec fn dump_text(n: SpecNode, indent: nat) -> Seq<char>
    decreases n,
{
    dump_line(n.kind, indent) + dump_all(n.children, indent + 1)
}

pub open spec fn dump_all(s: Seq<SpecNode>, indent: nat) -> Seq<char>
    decreases s,
{
    if s.len() == 0 {
        Seq::empty()
    } else {
        dump_all(s.subrange(0, s.len() - 1), indent) + dump_text(s[s.len() - 1], indent)
    }
}

/// How deep the tree below `n` goes.
pub open spec fn depth(n: SpecNode) -> nat
    decreases n,
{
    depth_all(n.children)
}

pub open spec fn depth_all(s: Seq<SpecNode>) -> nat
    decreases s,
{
    if s.len() == 0 {
        0
    } else {
        let a = depth_all(s.subrange(0, s.len() - 1));
        let b = depth(s[s.len() - 1]) + 1;
        if a < b {
            b
        } else {
            a
        }
    }
}

fn append_str(out: &mut String, s: &str)
    ensures
        final(out)@ == old(out)@ + s@,
{
    out.append(s);
}

impl Node {
    /// A text node.
    pub fn text(data: String) -> (n: Node)
        ensures
            n@ == (SpecNode { kind: SpecKind::Text(data@), children: Seq::empty() }),
    {
        let n = Node { node_type: NodeType::Text(data), children: Vec::new() };
        assert(nodes_view(n.children@) =~= Seq::<SpecNode>::empty());
        n
    }

    /// An element node.
    pub fn elem(tag_name: String, attributes: StrMap<String>, children: Vec<Node>) -> (n: Node)
        ensures
            n@ == (SpecNode {
                kind: SpecKind::Element(tag_name@, attributes@),
                children: nodes_view(children@),
            }),
    {
        Node { node_type: NodeType::Element(ElementData { tag_name, attributes }), children }
    }

    /// The tag name of this element (none for a text node).
    pub fn tag_name(&self) -> (r: Option<&str>)
        ensures
            match r {
                Some(t) => spec_tag_name(self@) == Some(t@),
                None => spec_tag_name(self@) is None,
            },
    {
        match &self.node_type {
            NodeType::Element(data) => Some(data.tag_name.as_str()),
            NodeType::Text(_) => None,
        }
    }

    /// The tree as indented text, one line per node (for debugging).
    pub fn dump(&self, indent: usize) -> (r: String)
        requires
            indent + depth(self@) <= usize::MAX,
        ensures
            r@ == dump_text(self@, indent as nat),
        decreases self@,
    {
        let mut out = String::new();
        let mut k: usize = 0;
        while k < indent
            invariant
                k <= indent,
                out@ == indentation(k as nat),
            decreases indent - k,
        {
            append_str(&mut out, "  ");
            k = k + 1;
            proof {
                reveal_strlit("  ");
            }
        }
        let ghost pad = out@;
        match &self.node_type {
            NodeType::Element(data) => {
                append_str(&mut out, "Element <");
                push_str_string(&mut out, &data.tag_name);
                let mut i: usize = 0;
                while i < data.attributes.len()
                    invariant
                        i <= data.attributes@.len(),
                        out@ == pad + "Element <"@ + data.tag_name@ + attrs_text(
                            data.attributes@.take(i as int),
                        ),
                    decreases data.attributes@.len() - i,
                {
                    append_str(&mut out, " ");
                    push_str_string(&mut out, data.attributes.key_at(i));
                    append_str(&mut out, "=\"");
                    push_str_string(&mut out, data.attributes.value_at(i));
                    append_str(&mut out, "\"");
                    proof {
                        reveal_strlit(" ");
                        reveal_strlit("=\"");
                        reveal_strlit("\"");
                        let a = data.attributes@.take(i + 1);
                        assert(a.drop_last() =~= data.attributes@.take(i as int));
                    }
                    i = i + 1;
                }
                assert(data.attributes@.take(data.attributes@.len() as int) =~= data.attributes@);
                append_str(&mut out, ">\n");
            },
            NodeType::Text(text) => {
                append_str(&mut out, "Text ");
                let q = debug_string(text);
                push_str_string(&mut out, &q);
                append_str(&mut out, "\n");
            },
        }
        assert(out@ =~= dump_line(self@.kind, indent as nat));
        let ghost line = out@;
        let mut j: usize = 0;
        while j < self.children.len()
            invariant
                j <= self.children@.len(),
                indent + depth(self@) <= usize::MAX,
                out@ == line + dump_all(nodes_view(self.children@.take(j as int)), (indent + 1) as nat),
            decreases self.children@.len() - j,
        {
            proof {
                lemma_nodes_view_index(self.children@, j as int);
                lemma_depth_child(self@, j as int);
            }
            let sub = self.children[j].dump(indent + 1);
            push_str_string(&mut out, &sub);
            proof {
                let t = self.children@.take(j + 1);
                assert(t.subrange(0, j as int) =~= self.children@.take(j as int));
                lemma_nodes_view_push(self.children@.take(j as int), self.children@[j as int]);
                assert(t =~= self.children@.take(j as int).push(self.children@[j as int]));
                let prev = nodes_view(self.children@.take(j as int));
                let cur = prev.push(self.children@[j as int]@);
                assert(cur.subrange(0, cur.len() - 1) =~= prev);
                assert(dump_all(cur, (indent + 1) as nat) == dump_all(prev, (indent + 1) as nat)
                    + dump_text(self.children@[j as int]@, (indent + 1) as nat));
                assert(out@ =~= line + dump_all(cur, (indent + 1) as nat));
            }
            j = j + 1;
        }
        assert(self.children@.take(self.children@.len() as int) =~= self.children@);
        out
    }
}

fn push_str_string(out: &mut String, s: &String)
    ensures
        final(out)@ == old(out)@ + s@,
{
    out.append(s.as_str());
}

/// A child sits one level less deep than its parent.
pub proof fn lemma_depth_child(n: SpecNode, i: int)
    requires
        0 <= i < n.children.len(),
    ensures
        depth(n.children[i]) + 1 <= depth(n),
{
    lemma_depth_all(n.children, i);
}

pub proof fn lemma_depth_all(s: Seq<SpecNode>, i: int)
    requires
        0 <= i < s.len(),
    ensures
        depth(s[i]) + 1 <= depth_all(s),
    decreases s.len(),
{
    if i < s.len() - 1 {
        lemma_depth_all(s.subrange(0, s.len() - 1), i);
    }
}

} // verus!
