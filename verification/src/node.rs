//! The virtual-tree node model: text nodes, elements with attributes,
//! listeners and children, and references to memoized (cached) subtrees.

use vstd::prelude::*;

verus! {

/// An event listener attached to an element: an event name together with an
/// opaque callback identity. Diffing matches listeners by event name only.
#[derive(Clone, Debug, PartialEq, Eq)]
pub struct Listener {
    pub event: String,
    pub callback: u64,
}

/// The key under which a listener is registered: its event name and its
/// callback identity.
pub open spec fn listener_key(l: Listener) -> (Seq<char>, u64) {
    (l.event@, l.callback)
}

/// An attribute of an element. A volatile attribute is one whose live DOM
/// value can drift from the declared value through user interaction, so it
/// is re-applied on every pass.
#[derive(Clone, Debug, PartialEq, Eq)]
pub struct Attribute {
    pub name: String,
    pub value: String,
    pub is_volatile: bool,
}

/// A virtual-tree node. Trees are immutable once constructed: diffing only
/// reads them. A `Cached` node stands for a memoized subtree, referenced by
/// identity; the concrete tree behind it lives in a `CachedSet`.
#[derive(Debug, PartialEq, Eq)]
pub enum Node {
    Text {
        text: String,
    },
    Element {
        tag_name: String,
        namespace: Option<String>,
        attributes: Vec<Attribute>,
        listeners: Vec<Listener>,
        children: Vec<Node>,
    },
    Cached {
        id: usize,
    },
}

/// One more than the largest cache identity referenced anywhere in `node`,
/// or zero when it references none. A node whose bound is at most `n` only
/// points at cache entries below `n`.
pub open spec fn cache_bound(node: Node) -> nat
    decreases node,
{
    match node {
        Node::Text { .. } => 0,
        Node::Element { children, .. } => seq_cache_bound(children@),
        Node::Cached { id } => id as nat + 1,
    }
}

/// The largest `cache_bound` among the nodes of a sequence.
pub open spec fn seq_cache_bound(nodes: Seq<Node>) -> nat
    decreases nodes,
{
    if nodes.len() == 0 {
        0
    } else {
        let head = cache_bound(nodes[0]);
        let rest = seq_cache_bound(nodes.drop_first());
        if head >= rest {
            head
        } else {
            rest
        }
    }
}

/// The number of nodes in the tree rooted at `node`, not looking through
/// cached references.
pub open spec fn node_size(node: Node) -> nat
    decreases node,
{
    match node {
        Node::Text { .. } => 1,
        Node::Element { children, .. } => 1 + seq_node_size(children@),
        Node::Cached { .. } => 1,
    }
}

/// The total number of nodes in the trees of a sequence.
pub open spec fn seq_node_size(nodes: Seq<Node>) -> nat
    decreases nodes,
{
    if nodes.len() == 0 {
        0
    } else {
        node_size(nodes[0]) + seq_node_size(nodes.drop_first())
    }
}

pub proof fn lemma_seq_cache_bound_elem(nodes: Seq<Node>, i: int)
    requires
        0 <= i < nodes.len(),
    ensures
        cache_bound(nodes[i]) <= seq_cache_bound(nodes),
    decreases nodes.len(),
{
    if i > 0 {
        lemma_seq_cache_bound_elem(nodes.drop_first(), i - 1);
        assert(nodes.drop_first()[i - 1] == nodes[i]);
    }
}

pub proof fn lemma_seq_node_size_elem(nodes: Seq<Node>, i: int)
    requires
        0 <= i < nodes.len(),
    ensures
        node_size(nodes[i]) <= seq_node_size(nodes),
    decreases nodes.len(),
{
    if i > 0 {
        lemma_seq_node_size_elem(nodes.drop_first(), i - 1);
        assert(nodes.drop_first()[i - 1] == nodes[i]);
    }
}

/// Whether two string views held behind `Option` are the same.
pub open spec fn opt_string_view(o: Option<String>) -> Option<Seq<char>> {
    match o {
        Some(s) => Some(s@),
        None => None,
    }
}

/// Compares two strings; `==` on `String` is specified by character sequence.
pub fn str_eq(a: &String, b: &String) -> (r: bool)
    ensures
        r == (a@ == b@),
{
    *a == *b
}

/// Compares two optional strings by their character sequences.
pub fn opt_str_eq(a: &Option<String>, b: &Option<String>) -> (r: bool)
    ensures
        r == (opt_string_view(*a) == opt_string_view(*b)),
{
    match (a, b) {
        (Some(x), Some(y)) => str_eq(x, y),
        (None, None) => true,
        _ => false,
    }
}

} // verus!
