//! XML documents, parsed by `roxmltree`.

use roxmltree::{Document, NodeType};
use vstd::prelude::*;

use crate::tree::{attribute, nodes_view, NodeView, TreeNode, TreeValue};

verus! {

/// The nodes of the tree that `roxmltree::Document::parse` makes of a text, in document order, or
/// what it has to say of a text that is no well-formed XML.
pub uninterp spec fn xml_nodes(text: Seq<char>) -> Result<Seq<NodeView>, Seq<char>>;

/// Calls `roxmltree::Document::parse` and converts each node that `descendants` hands out: the
/// depth is the number of nodes that `ancestors` hands out, the rank the node's index. The result
/// depends on the text alone.
#[verifier::external_body]
pub(crate) fn parse_xml(text: &str) -> (r: Result<Vec<TreeNode>, String>)
    ensures
        match r {
            Ok(nodes) => xml_nodes(text@) == Ok::<Seq<NodeView>, Seq<char>>(nodes_view(nodes@)),
            Err(message) => xml_nodes(text@) == Err::<Seq<NodeView>, Seq<char>>(message@),
        },
{
    let doc = Document::parse(text).map_err(|e| e.to_string())?;
    Ok(doc.descendants().map(|n| TreeNode {
        depth: n.ancestors().count(),
        rank: n.id().get_usize(),
        value: match n.node_type() {
            NodeType::Element => TreeValue::Element {
                name: n.tag_name().name().to_string(),
                attrs: n.attributes().map(|a| attribute(a.namespace().unwrap_or_default(), a.name(), a.value())).collect(),
            },
            NodeType::Text => TreeValue::Text(n.text().unwrap_or_default().to_string()),
            _ => TreeValue::Other,
        },
    }).collect())
}

} // verus!
