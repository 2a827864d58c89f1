//! Markup trees as flat lists of nodes in document order.

use vstd::prelude::*;

use crate::text::{same_text, texts};

verus! {

/// One attribute of an element.
pub struct TreeAttr {
    /// The namespace URL; empty for an ordinary attribute.
    pub namespace: String,
    pub local: String,
    pub value: String,
}

/// What one node of a tree holds.
pub enum TreeValue {
    Element { name: String, attrs: Vec<TreeAttr> },
    Text(String),
    Other,
}

/// One node of a tree, which is listed in document order: a node comes before its children, and
/// its subtree ends where the next node of no greater depth stands.
pub struct TreeNode {
    /// The number of its ancestors.
    pub depth: usize,
    /// How many nodes the parser had made before this one.
    pub rank: usize,
    pub value: TreeValue,
}

/// The mathematical view of an [`TreeAttr`].
#[verifier::ext_equal]
pub struct AttrView {
    pub namespace: Seq<char>,
    pub local: Seq<char>,
    pub value: Seq<char>,
}

/// The mathematical view of an [`TreeValue`].
#[verifier::ext_equal]
pub enum ValueView {
    Element { name: Seq<char>, attrs: Seq<AttrView> },
    Text(Seq<char>),
    Other,
}

/// The mathematical view of an [`TreeNode`].
#[verifier::ext_equal]
pub struct NodeView {
    pub depth: int,
    pub rank: int,
    pub value: ValueView,
}

impl View for TreeAttr {
    type V = AttrView;

    open spec fn view(&self) -> AttrView {
        AttrView { namespace: self.namespace@, local: self.local@, value: self.value@ }
    }
}

/// An attribute with this name and value.
pub fn attribute(namespace: &str, local: &str, value: &str) -> (r: TreeAttr)
    ensures
        r@ == (AttrView { namespace: namespace@, local: local@, value: value@ }),
{
    TreeAttr { namespace: namespace.to_owned(), local: local.to_owned(), value: value.to_owned() }
}

impl View for TreeValue {
    type V = ValueView;

    open spec fn view(&self) -> ValueView {
        match *self {
            TreeValue::Element { name, attrs } => ValueView::Element {
                name: name@,
                attrs: attrs@.map_values(|a: TreeAttr| a@),
            },
            TreeValue::Text(t) => ValueView::Text(t@),
            TreeValue::Other => ValueView::Other,
        }
    }
}

impl View for TreeNode {
    type V = NodeView;

    open spec fn view(&self) -> NodeView {
        NodeView { depth: self.depth as int, rank: self.rank as int, value: self.value@ }
    }
}

/// The view of a list of nodes.
pub open spec fn nodes_view(nodes: Seq<TreeNode>) -> Seq<NodeView> {
    nodes.map_values(|n: TreeNode| n@)
}

// ---------------------------------------------------------------------------
// Reading a tree
// ---------------------------------------------------------------------------

/// The first position from `j` on of a node no deeper than `depth`; the end of the list when
/// there is none.
pub open spec fn end_from(d: Seq<NodeView>, depth: int, j: int) -> int
    decreases d.len() - j,
{
    if j >= d.len() || d[j].depth <= depth {
        j
    } else {
        end_from(d, depth, j + 1)
    }
}

/// Where the subtree of node `i` ends.
pub open spec fn subtree_end(d: Seq<NodeView>, i: int) -> int {
    end_from(d, d[i].depth, i + 1)
}

/// Where the subtree of node `i` ends, within the range of nodes that ends at `hi`.
pub open spec fn node_end(d: Seq<NodeView>, i: int, hi: int) -> int {
    if i < subtree_end(d, i) < hi {
        subtree_end(d, i)
    } else {
        hi
    }
}

/// The nearest node before position `k` that is less deep than `depth`.
pub open spec fn shallower_before(d: Seq<NodeView>, depth: int, k: int) -> Option<int>
    decreases k,
{
    if k <= 0 {
        None
    } else if d[k - 1].depth < depth {
        Some(k - 1)
    } else {
        shallower_before(d, depth, k - 1)
    }
}

/// The parent of node `i`.
pub open spec fn parent(d: Seq<NodeView>, i: int) -> Option<int> {
    shallower_before(d, d[i].depth, i)
}

/// The node is an element of this name.
pub open spec fn is_named(n: NodeView, tag: Seq<char>) -> bool {
    n.value matches ValueView::Element { name, .. } && name == tag
}

/// The value of the first attribute of this namespace and name among `attrs[k..]`.
pub open spec fn attr_from(
    attrs: Seq<AttrView>,
    namespace: Seq<char>,
    name: Seq<char>,
    k: int,
) -> Option<Seq<char>>
    decreases attrs.len() - k,
{
    if k < 0 || k >= attrs.len() {
        None
    } else if attrs[k].namespace == namespace && attrs[k].local == name {
        Some(attrs[k].value)
    } else {
        attr_from(attrs, namespace, name, k + 1)
    }
}

/// The value of an element's attribute of this namespace and name.
pub open spec fn attr_in(n: NodeView, namespace: Seq<char>, name: Seq<char>) -> Option<Seq<char>> {
    match n.value {
        ValueView::Element { attrs, .. } => attr_from(attrs, namespace, name, 0),
        _ => None,
    }
}

/// The value of an element's ordinary attribute of this name, which is in no namespace.
pub open spec fn attr(n: NodeView, name: Seq<char>) -> Option<Seq<char>> {
    attr_in(n, Seq::empty(), name)
}

/// The text that the node itself holds.
pub open spec fn own_text(n: NodeView) -> Seq<char> {
    match n.value {
        ValueView::Text(t) => t,
        _ => Seq::empty(),
    }
}

/// All text of the nodes from `lo` up to `hi`.
pub open spec fn text_in(d: Seq<NodeView>, lo: int, hi: int) -> Seq<char>
    decreases hi - lo,
{
    if lo >= hi {
        Seq::empty()
    } else {
        text_in(d, lo, hi - 1) + own_text(d[hi - 1])
    }
}

/// The texts of the text nodes from `lo` up to `hi`, one by one.
pub open spec fn texts_in(d: Seq<NodeView>, lo: int, hi: int) -> Seq<Seq<char>>
    decreases hi - lo,
{
    if lo >= hi {
        Seq::empty()
    } else {
        match d[hi - 1].value {
            ValueView::Text(t) => texts_in(d, lo, hi - 1).push(t),
            _ => texts_in(d, lo, hi - 1),
        }
    }
}

/// Where the subtree of node `i` ends.
pub fn end_of(nodes: &Vec<TreeNode>, i: usize) -> (r: usize)
    requires
        i < nodes@.len(),
    ensures
        r == subtree_end(nodes_view(nodes@), i as int),
        i < r <= nodes@.len(),
{
    let ghost d = nodes_view(nodes@);
    let depth: usize = nodes[i].depth;
    let total: usize = nodes.len();
    let mut j: usize = i + 1;
    while j < total && nodes[j].depth > depth
        invariant
            i < j <= total == nodes@.len(),
            d == nodes_view(nodes@),
            depth == d[i as int].depth,
            subtree_end(d, i as int) == end_from(d, depth as int, j as int),
        decreases nodes@.len() - j,
    {
        j += 1;
    }
    j
}

/// Where the subtree of node `i` ends, within the range of nodes that ends at `hi`.
pub fn end_within(nodes: &Vec<TreeNode>, i: usize, hi: usize) -> (r: usize)
    requires
        i < hi <= nodes@.len(),
    ensures
        r == node_end(nodes_view(nodes@), i as int, hi as int),
        i < r <= hi,
{
    let e = end_of(nodes, i);
    if e < hi { e } else { hi }
}

/// The parent of node `i`.
pub fn parent_of(nodes: &Vec<TreeNode>, i: usize) -> (r: Option<usize>)
    requires
        i < nodes@.len(),
    ensures
        match r {
            Some(p) => p < i && parent(nodes_view(nodes@), i as int) == Some(p as int),
            None => parent(nodes_view(nodes@), i as int) is None,
        },
{
    let ghost d = nodes_view(nodes@);
    let depth: usize = nodes[i].depth;
    let mut k: usize = i;
    while k > 0
        invariant
            k <= i < nodes@.len(),
            d == nodes_view(nodes@),
            depth == d[i as int].depth,
            parent(d, i as int) == shallower_before(d, depth as int, k as int),
        decreases k,
    {
        if nodes[k - 1].depth < depth {
            return Some(k - 1);
        }
        k -= 1;
    }
    None
}

/// Whether node `i` is an element of this name.
pub fn named(nodes: &Vec<TreeNode>, i: usize, tag: &str) -> (r: bool)
    requires
        i < nodes@.len(),
    ensures
        r == is_named(nodes_view(nodes@)[i as int], tag@),
{
    match &nodes[i].value {
        TreeValue::Element { name, .. } => same_text(name.as_str(), tag),
        _ => false,
    }
}

/// The value of the attribute of this namespace and name on node `i`.
pub fn attr_in_namespace<'a>(
    nodes: &'a Vec<TreeNode>,
    i: usize,
    namespace: &str,
    name: &str,
) -> (r: Option<&'a str>)
    requires
        i < nodes@.len(),
    ensures
        match r {
            Some(v) => attr_in(nodes_view(nodes@)[i as int], namespace@, name@) == Some(v@),
            None => attr_in(nodes_view(nodes@)[i as int], namespace@, name@) is None,
        },
{
    match &nodes[i].value {
        TreeValue::Element { attrs, .. } => {
            let ghost a = attrs@.map_values(|a: TreeAttr| a@);
            let mut k: usize = 0;
            while k < attrs.len()
                invariant
                    k <= attrs@.len(),
                    a == attrs@.map_values(|a: TreeAttr| a@),
                    attr_in(nodes_view(nodes@)[i as int], namespace@, name@) == attr_from(
                        a,
                        namespace@,
                        name@,
                        k as int,
                    ),
                decreases attrs@.len() - k,
            {
                if same_text(attrs[k].namespace.as_str(), namespace) && same_text(
                    attrs[k].local.as_str(),
                    name,
                ) {
                    return Some(attrs[k].value.as_str());
                }
                k += 1;
            }
            None
        },
        _ => None,
    }
}

/// The value of the ordinary attribute of this name on node `i`.
pub fn attr_of<'a>(nodes: &'a Vec<TreeNode>, i: usize, name: &str) -> (r: Option<&'a str>)
    requires
        i < nodes@.len(),
    ensures
        match r {
            Some(v) => attr(nodes_view(nodes@)[i as int], name@) == Some(v@),
            None => attr(nodes_view(nodes@)[i as int], name@) is None,
        },
{
    proof {
        reveal_strlit("");
        assert(""@ =~= Seq::<char>::empty());
    }
    attr_in_namespace(nodes, i, "", name)
}

/// All text of the nodes from `lo` up to `hi`.
pub fn text_between(nodes: &Vec<TreeNode>, lo: usize, hi: usize) -> (r: String)
    requires
        lo <= hi <= nodes@.len(),
    ensures
        r@ == text_in(nodes_view(nodes@), lo as int, hi as int),
{
    let mut out = String::new();
    let mut k: usize = lo;
    while k < hi
        invariant
            lo <= k <= hi <= nodes@.len(),
            out@ == text_in(nodes_view(nodes@), lo as int, k as int),
        decreases hi - k,
    {
        match &nodes[k].value {
            TreeValue::Text(t) => out.append(t.as_str()),
            _ => {},
        }
        k += 1;
    }
    out
}

/// The texts of the text nodes from `lo` up to `hi`, one by one.
pub fn texts_between(nodes: &Vec<TreeNode>, lo: usize, hi: usize) -> (r: Vec<String>)
    requires
        lo <= hi <= nodes@.len(),
    ensures
        texts(r@) == texts_in(nodes_view(nodes@), lo as int, hi as int),
{
    let mut out: Vec<String> = Vec::new();
    let mut k: usize = lo;
    while k < hi
        invariant
            lo <= k <= hi <= nodes@.len(),
            texts(out@) == texts_in(nodes_view(nodes@), lo as int, k as int),
        decreases hi - k,
    {
        match &nodes[k].value {
            TreeValue::Text(t) => {
                let ghost before = out@;
                out.push(t.clone());
                assert(texts(out@) == texts(before).push(t@));
            },
            _ => {},
        }
        k += 1;
    }
    out
}

} // verus!
