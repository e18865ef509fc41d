//! The read-only store of memoized subtrees. During a diff pass it is only
//! read; registration happens between passes.
//!
//! Identities are handed out in registration order, and a registered tree may
//! only reference identities registered before it. That ordering is the
//! well-formedness invariant `wf`, and it is what makes resolving a cached
//! reference a step towards a strictly older entry.

use vstd::prelude::*;

use crate::node::{cache_bound, Node};

verus! {

/// Maps each cache identity to the concrete tree registered under it. The
/// identity of an entry is its position in registration order.
pub struct CachedSet {
    nodes: Vec<Node>,
}

impl View for CachedSet {
    type V = Seq<Node>;

    closed spec fn view(&self) -> Seq<Node> {
        self.nodes@
    }
}

impl CachedSet {
    /// Every entry only references cache identities older than itself.
    pub open spec fn wf(&self) -> bool {
        forall|i: int| 0 <= i < self@.len() ==> cache_bound(self@[i]) <= i
    }

    pub fn new() -> (r: Self)
        ensures
            r@ == Seq::<Node>::empty(),
            r.wf(),
    {
        let r = CachedSet { nodes: Vec::new() };
        proof {
            assert(r@ =~= Seq::<Node>::empty());
        }
        r
    }

    /// Registers a tree and returns its identity. The tree may reference any
    /// identity already registered, and nothing newer.
    pub fn register(&mut self, node: Node) -> (id: usize)
        requires
            old(self).wf(),
            cache_bound(node) <= old(self)@.len(),
        ensures
            final(self).wf(),
            final(self)@ == old(self)@.push(node),
            id as int == old(self)@.len(),
    {
        let id = self.nodes.len();
        self.nodes.push(node);
        id
    }

    /// Resolves a cache identity. Asking for an unregistered identity is a
    /// broken memoization contract upstream, so it is ruled out here rather
    /// than handled.
    pub fn get(&self, id: usize) -> (r: &Node)
        requires
            (id as int) < self@.len(),
        ensures
            *r == self@[id as int],
    {
        &self.nodes[id]
    }

    pub fn len(&self) -> (n: usize)
        ensures
            n as int == self@.len(),
    {
        self.nodes.len()
    }
}

} // verus!
