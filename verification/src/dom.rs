//! The parsed HTML tree that the renderer walks, and the two outside steps that produce
//! it: sanitizing with `ammonia` and parsing with `scraper`.
use vstd::prelude::*;
use crate::text::{append_chars, chars_of};

verus! {

/// A node of a parsed HTML fragment, holding what rendering reads of it.
pub enum HtmlNode {
    /// A text node.
    Text(Vec<char>),
    /// An element: its local name, its `style`, `href` and `alt` attributes, and its children.
    Element {
        name: Vec<char>,
        style: Option<Vec<char>>,
        href: Option<Vec<char>>,
        alt: Option<Vec<char>>,
        children: Vec<HtmlNode>,
    },
    /// Any other node (document, fragment, comment, doctype, processing instruction).
    Other(Vec<HtmlNode>),
}

/// The children of a node; text has none.
pub open spec fn children_of(n: HtmlNode) -> Seq<HtmlNode> {
    match n {
        HtmlNode::Text(_) => seq![],
        HtmlNode::Element { children, .. } => children@,
        HtmlNode::Other(children) => children@,
    }
}

/// The node is an element with the given name.
pub open spec fn is_named(n: HtmlNode, name: Seq<char>) -> bool {
    n matches HtmlNode::Element { name: m, .. } && m@ == name
}

/// Elements whose text is left out of a node's text content.
pub open spec fn hides_text(name: Seq<char>) -> bool {
    name == "script"@ || name == "style"@ || name == "template"@
}

/// The text of a node: its text nodes in document order, leaving out the contents of
/// `script`, `style` and `template` elements.
pub open spec fn text_content(n: HtmlNode) -> Seq<char>
    decreases n,
{
    match n {
        HtmlNode::Text(t) => t@,
        HtmlNode::Element { name, children, .. } => if hides_text(name@) {
            seq![]
        } else {
            text_content_all(children@)
        },
        HtmlNode::Other(children) => text_content_all(children@),
    }
}

/// The concatenated text content of a sequence of nodes.
pub open spec fn text_content_all(ns: Seq<HtmlNode>) -> Seq<char>
    decreases ns,
{
    if ns.len() == 0 {
        seq![]
    } else {
        text_content_all(ns.drop_last()) + text_content(ns.last())
    }
}

/// The name of an element node; `None` for any other node.
pub fn element_name(node: &HtmlNode) -> (r: Option<&Vec<char>>)
    ensures
        r matches Some(name) ==> (node matches HtmlNode::Element { name: m, .. } && *name == m),
        r is None ==> !(node matches HtmlNode::Element { .. }),
{
    match node {
        HtmlNode::Element { name, .. } => Some(name),
        _ => None,
    }
}

/// The view of a string literal and a character vector agree.
pub fn eq_str(v: &[char], s: &str) -> (r: bool)
    ensures
        r == (v@ == s@),
{
    let w = chars_of(s);
    if v.len() != w.len() {
        return false;
    }
    let mut i: usize = 0;
    while i < v.len()
        invariant
            i <= v@.len(),
            v@.len() == w@.len(),
            w@ == s@,
            forall|k: int| 0 <= k < i ==> v@[k] == w@[k],
        decreases v.len() - i,
    {
        if v[i] != w[i] {
            return false;
        }
        i = i + 1;
    }
    assert(v@ =~= w@);
    true
}

/// Whether the text of elements with this name is left out of text content.
pub fn hides_text_exec(name: &[char]) -> (r: bool)
    ensures
        r == hides_text(name@),
{
    eq_str(name, "script") || eq_str(name, "style") || eq_str(name, "template")
}

/// Appends the text content of `node` to `out`.
pub fn collect_text(node: &HtmlNode, out: &mut Vec<char>)
    ensures
        final(out)@ == old(out)@ + text_content(*node),
    decreases node,
{
    match node {
        HtmlNode::Text(t) => {
            append_chars(out, t.as_slice());
        },
        HtmlNode::Element { name, children, .. } => {
            if hides_text_exec(name.as_slice()) {
                assert(out@ =~= old(out)@ + text_content(*node));
            } else {
                collect_text_all(children, out);
            }
        },
        HtmlNode::Other(children) => {
            collect_text_all(children, out);
        },
    }
}

/// Appends the text content of each node of `nodes` to `out`.
pub fn collect_text_all(nodes: &Vec<HtmlNode>, out: &mut Vec<char>)
    ensures
        final(out)@ == old(out)@ + text_content_all(nodes@),
    decreases nodes,
{
    let mut i: usize = 0;
    assert(nodes@.take(0) =~= Seq::<HtmlNode>::empty());
    while i < nodes.len()
        invariant
            i <= nodes@.len(),
            out@ == old(out)@ + text_content_all(nodes@.take(i as int)),
        decreases nodes.len() - i,
    {
        proof {
            assert(decreases_to!(nodes => nodes@[i as int]));
        }
        collect_text(&nodes[i], out);
        i = i + 1;
        assert(nodes@.take(i as int).drop_last() =~= nodes@.take(i - 1));
        assert(out@ =~= old(out)@ + text_content_all(nodes@.take(i as int)));
    }
    assert(nodes@.take(nodes@.len() as int) =~= nodes@);
}

/// The text content of a node.
pub fn text_content_exec(node: &HtmlNode) -> (r: Vec<char>)
    ensures
        r@ == text_content(*node),
{
    let mut out: Vec<char> = Vec::new();
    collect_text(node, &mut out);
    assert(out@ =~= text_content(*node));
    out
}

/// The output of sanitizing an HTML fragment with `ammonia`, as configured for rendering.
pub uninterp spec fn sanitized_html(source: Seq<char>) -> Seq<char>;

/// The root element of `scraper`'s parse of an HTML fragment.
pub uninterp spec fn fragment_root(fragment: Seq<char>) -> HtmlNode;

#[verifier::external_type_specification]
#[verifier::external_body]
#[verifier::reject_recursive_types(T)]
pub struct ExNodeRef<'a, T: 'a>(ego_tree::NodeRef<'a, T>);

#[verifier::external_type_specification]
#[verifier::external_body]
pub struct ExScraperNode(scraper::Node);

/// Calls `ammonia::Builder::clean` on a builder made by `Builder::default` with `style`
/// added to the generic attributes, and renders the cleaned document to a string.
/// Claimed: the result is the named sanitized form of `source`, which depends on `source`
/// alone. Nothing is claimed of its contents.
#[verifier::external_body]
pub(crate) fn sanitize_html(source: &[char]) -> (r: String)
    ensures
        r@ == sanitized_html(source@),
{
    let source: String = source.iter().collect();
    let mut cleaner = ammonia::Builder::default();
    cleaner.add_generic_attributes(["style"]);
    cleaner.clean(&source).to_string()
}

/// Converts a node of a `scraper` tree and its subtree: text stays text; an element keeps
/// its local name, its `style`, `href` and `alt` attribute values and its children; any
/// other node keeps its children.
#[verifier::external_body]
fn node_from_tree(node: ego_tree::NodeRef<'_, scraper::Node>) -> HtmlNode {
    match node.value() {
        scraper::Node::Text(text) => HtmlNode::Text(chars_of(&text.text)),
        scraper::Node::Element(e) => HtmlNode::Element {
            name: chars_of(e.name()),
            style: e.attr("style").map(chars_of),
            href: e.attr("href").map(chars_of),
            alt: e.attr("alt").map(chars_of),
            children: node.children().map(node_from_tree).collect(),
        },
        _ => HtmlNode::Other(node.children().map(node_from_tree).collect()),
    }
}

/// Calls `scraper::Html::parse_fragment` and `Html::root_element`, and converts the root
/// element with its subtree. Claimed: the result is the named root of the parse of
/// `fragment`, which depends on `fragment` alone. Nothing is claimed of its shape.
#[verifier::external_body]
pub(crate) fn parse_fragment_root(fragment: &str) -> (root: HtmlNode)
    ensures
        root == fragment_root(fragment@),
{
    let html = scraper::Html::parse_fragment(fragment);
    node_from_tree(*html.root_element())
}

} // verus!
