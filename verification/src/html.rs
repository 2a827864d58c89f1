//! HTML documents and fragments, parsed by `scraper`.

use ego_tree::NodeId;
use scraper::{Html, Node, Selector};
use vstd::prelude::*;

use crate::tree::{attribute, nodes_view, NodeView, TreeNode, TreeValue};

verus! {

/// Declares `scraper::Html`, a parsed tree, of which nothing is known but the nodes that
/// [`tree_nodes`] names.
#[verifier::external_type_specification]
#[verifier::external_body]
pub struct ExHtml(Html);

/// The nodes that can be reached from the root of a parsed tree, in document order.
pub uninterp spec fn tree_nodes(html: Html) -> Seq<NodeView>;

/// The nodes of the tree that `scraper::Html::parse_document` makes of a text.
pub uninterp spec fn document_nodes(text: Seq<char>) -> Seq<NodeView>;

/// The nodes of the tree that `scraper::Html::parse_fragment` makes of a text.
pub uninterp spec fn fragment_nodes(text: Seq<char>) -> Seq<NodeView>;

/// The rank of the first element, in the order in which the parser made them, that a CSS selector
/// matches in the document that `scraper::Html::parse_document` makes of a text.
pub uninterp spec fn css_first(text: Seq<char>, selector: Seq<char>) -> Option<int>;

/// Calls `scraper::Html::parse_document`, whose tree depends on the text alone.
#[verifier::external_body]
fn parse_document(text: &str) -> (r: Html)
    ensures
        tree_nodes(r) == document_nodes(text@),
{
    Html::parse_document(text)
}

/// Calls `scraper::Html::parse_fragment`, whose tree depends on the text alone.
#[verifier::external_body]
fn parse_fragment(text: &str) -> (r: Html)
    ensures
        tree_nodes(r) == fragment_nodes(text@),
{
    Html::parse_fragment(text)
}

/// Calls `descendants` on the root of a `scraper::Html` and converts each node it hands out: the
/// depth is the number of its ancestors, the rank its place in the tree's list of nodes.
#[verifier::external_body]
fn list_nodes(html: &Html) -> (r: Vec<TreeNode>)
    ensures
        nodes_view(r@) == tree_nodes(*html),
{
    let ids: Vec<NodeId> = html.tree.nodes().map(|n| n.id()).collect();
    html.tree.root().descendants().map(|n| TreeNode {
        depth: n.ancestors().count(),
        rank: ids.binary_search(&n.id()).unwrap_or_default(),
        value: match n.value() {
            Node::Element(e) => TreeValue::Element {
                name: e.name().to_string(),
                attrs: e.attrs.iter().map(|(k, v)| attribute(&k.ns, &k.local, v)).collect(),
            },
            Node::Text(t) => TreeValue::Text(t.to_string()),
            _ => TreeValue::Other,
        },
    }).collect()
}

/// Calls `scraper::Selector::parse` and `scraper::Html::select`: the place, in the tree's list of
/// nodes, of the first element that the selector matches; `None` where the selector is malformed
/// or matches nothing.
#[verifier::external_body]
pub(crate) fn select_first(text: &str, selector: &str) -> (r: Option<usize>)
    ensures
        match r {
            Some(rank) => css_first(text@, selector@) == Some(rank as int),
            None => css_first(text@, selector@) is None,
        },
{
    let html = Html::parse_document(text);
    let parsed = Selector::parse(selector).ok()?;
    let first = html.select(&parsed).next()?;
    html.tree.nodes().position(|n| n.id() == first.id())
}

/// A parsed HTML document: its text and the nodes of its tree.
pub struct HtmlDocument {
    pub source: String,
    pub nodes: Vec<TreeNode>,
}

impl HtmlDocument {
    /// The nodes are those of the text.
    pub open spec fn wf(&self) -> bool {
        nodes_view(self.nodes@) == document_nodes(self.source@)
    }

    /// Parses a text as an HTML document.
    pub fn parse(source: String) -> (r: HtmlDocument)
        ensures
            r.wf(),
            r.source@ == source@,
    {
        let nodes = list_nodes(&parse_document(source.as_str()));
        HtmlDocument { source, nodes }
    }
}

/// The nodes of a text parsed as an HTML fragment.
pub fn parse_fragment_nodes(text: &str) -> (r: Vec<TreeNode>)
    ensures
        nodes_view(r@) == fragment_nodes(text@),
{
    list_nodes(&parse_fragment(text))
}

} // verus!
