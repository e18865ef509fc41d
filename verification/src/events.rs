//! The registry of currently-active listeners. One diff pass is its single
//! writer: listeners of freshly created nodes are registered, listeners of
//! discarded nodes are unregistered, and a whole discarded subtree is
//! unregistered through `remove_subtree` before its nodes are forgotten.

use vstd::multiset::Multiset;
use vstd::prelude::*;

use crate::cached_set::CachedSet;
use crate::node::{cache_bound, listener_key, node_size, str_eq, Listener, Node};

verus! {

/// One registry operation, as contracts speak of it: registering or
/// unregistering the listener with the given key.
pub enum RegOp {
    Add { event: Seq<char>, callback: u64 },
    Remove { event: Seq<char>, callback: u64 },
}

/// The registry operation that registers `l`.
pub open spec fn add_op(l: Listener) -> RegOp {
    RegOp::Add { event: l.event@, callback: l.callback }
}

/// The registry operation that unregisters `l`.
pub open spec fn remove_op(l: Listener) -> RegOp {
    RegOp::Remove { event: l.event@, callback: l.callback }
}

/// Plays a sequence of registry operations against a registry content `m`.
/// An `Add` puts one more occurrence of the key in; a `Remove` takes one
/// occurrence out, and is a no-op when the key is absent.
pub open spec fn apply_reg_ops(
    m: Multiset<(Seq<char>, u64)>,
    ops: Seq<RegOp>,
) -> Multiset<(Seq<char>, u64)>
    decreases ops.len(),
{
    if ops.len() == 0 {
        m
    } else {
        let m1 = match ops[0] {
            RegOp::Add { event, callback } => m.insert((event, callback)),
            RegOp::Remove { event, callback } => m.remove((event, callback)),
        };
        apply_reg_ops(m1, ops.drop_first())
    }
}

/// Playing a concatenation of operation sequences is playing one after the
/// other.
pub proof fn lemma_apply_reg_ops_concat(
    m: Multiset<(Seq<char>, u64)>,
    ops1: Seq<RegOp>,
    ops2: Seq<RegOp>,
)
    ensures
        apply_reg_ops(m, ops1 + ops2) == apply_reg_ops(apply_reg_ops(m, ops1), ops2),
    decreases ops1.len(),
{
    if ops1.len() == 0 {
        assert(ops1 + ops2 =~= ops2);
    } else {
        let m1 = match ops1[0] {
            RegOp::Add { event, callback } => m.insert((event, callback)),
            RegOp::Remove { event, callback } => m.remove((event, callback)),
        };
        assert((ops1 + ops2)[0] == ops1[0]);
        assert((ops1 + ops2).drop_first() =~= ops1.drop_first() + ops2);
        lemma_apply_reg_ops_concat(m1, ops1.drop_first(), ops2);
    }
}

/// Playing a single registration is inserting the key.
pub proof fn lemma_apply_single_add(m: Multiset<(Seq<char>, u64)>, l: Listener)
    ensures
        apply_reg_ops(m, seq![add_op(l)]) == m.insert(listener_key(l)),
{
    let ops = seq![add_op(l)];
    assert(ops.drop_first() =~= Seq::<RegOp>::empty());
    assert(ops[0] == add_op(l));
    assert(apply_reg_ops(m.insert(listener_key(l)), ops.drop_first())
        == m.insert(listener_key(l)));
}

/// Playing a single unregistration is removing one occurrence of the key.
pub proof fn lemma_apply_single_remove(m: Multiset<(Seq<char>, u64)>, l: Listener)
    ensures
        apply_reg_ops(m, seq![remove_op(l)]) == m.remove(listener_key(l)),
{
    let ops = seq![remove_op(l)];
    assert(ops.drop_first() =~= Seq::<RegOp>::empty());
    assert(ops[0] == remove_op(l));
    assert(apply_reg_ops(m.remove(listener_key(l)), ops.drop_first())
        == m.remove(listener_key(l)));
}

/// The keys of a sequence of listeners.
pub open spec fn listener_keys(s: Seq<Listener>) -> Seq<(Seq<char>, u64)> {
    s.map_values(|l: Listener| listener_key(l))
}

/// The registry. Its view is the multiset of keys of the listeners that are
/// currently registered.
pub struct EventsRegistry {
    listeners: Vec<Listener>,
}

impl View for EventsRegistry {
    type V = Multiset<(Seq<char>, u64)>;

    closed spec fn view(&self) -> Multiset<(Seq<char>, u64)> {
        listener_keys(self.listeners@).to_multiset()
    }
}

impl EventsRegistry {
    pub fn new() -> (r: Self)
        ensures
            r@ == Multiset::<(Seq<char>, u64)>::empty(),
    {
        let r = EventsRegistry { listeners: Vec::new() };
        proof {
            broadcast use vstd::seq_lib::group_to_multiset_ensures;

            assert(listener_keys(r.listeners@) =~= Seq::<(Seq<char>, u64)>::empty());
            assert(r@ =~= Multiset::<(Seq<char>, u64)>::empty());
        }
        r
    }

    /// Registers one listener. Pair every registration with an eventual
    /// `remove` (or a `remove_subtree` over the node that carries it): the
    /// registry itself does not watch node lifetimes.
    pub fn add(&mut self, listener: &Listener)
        ensures
            final(self)@ == old(self)@.insert(listener_key(*listener)),
    {
        proof {
            broadcast use vstd::seq_lib::group_to_multiset_ensures;

            let pushed = self.listeners@.push(*listener);
            assert(listener_keys(pushed) =~= listener_keys(self.listeners@).push(
                listener_key(*listener),
            ));
        }
        self.listeners.push(
            Listener { event: listener.event.clone(), callback: listener.callback },
        );
    }

    /// Unregisters one occurrence of a listener with the same event name and
    /// callback identity; does nothing when none is registered.
    #[verifier::loop_isolation(false)]
    pub fn remove(&mut self, listener: &Listener)
        ensures
            final(self)@ == old(self)@.remove(listener_key(*listener)),
    {
        let n = self.listeners.len();
        let mut j: usize = 0;
        while j < n
            invariant
                j <= n,
                *self == *old(self),
                forall|k: int|
                    0 <= k < j ==> listener_key(self.listeners@[k]) != listener_key(*listener),
            decreases n - j,
        {
            let candidate = &self.listeners[j];
            if candidate.callback == listener.callback && str_eq(&candidate.event, &listener.event) {
                let ghost pre = self.listeners@;
                self.listeners.remove(j);
                proof {
                    broadcast use vstd::seq_lib::group_to_multiset_ensures;

                    let ks = listener_keys(pre);
                    assert(ks[j as int] == listener_key(*listener));
                    assert(listener_keys(pre.remove(j as int)) =~= ks.remove(j as int));
                    assert(ks.remove(j as int).to_multiset() == ks.to_multiset().remove(
                        ks[j as int],
                    ));
                }
                return ;
            }
            j += 1;
        }
        proof {
            broadcast use vstd::seq_lib::group_to_multiset_ensures;

            let ks = listener_keys(self.listeners@);
            let key = listener_key(*listener);
            assert(forall|k: int| 0 <= k < ks.len() ==> ks[k] != key);
            assert(!ks.contains(key));
            assert(self@.count(key) == 0);
            assert(self@.remove(key) =~= self@);
        }
    }

    /// The number of registered listeners.
    pub fn count(&self) -> (n: usize)
        ensures
            n as int == self@.len(),
    {
        proof {
            broadcast use vstd::seq_lib::group_to_multiset_ensures;
        }
        self.listeners.len()
    }

    /// Unregisters every listener in the tree under `node`, resolving cached
    /// subtrees through `cached_set`.
    #[verifier::loop_isolation(false)]
    pub fn remove_subtree(&mut self, cached_set: &CachedSet, node: &Node)
        requires
            cached_set.wf(),
            cache_bound(*node) <= cached_set@.len(),
        ensures
            final(self)@ == apply_reg_ops(old(self)@, remove_subtree_ops(*cached_set, *node)),
        decreases cache_bound(*node), node_size(*node), 0int,
    {
        match node {
            Node::Text { .. } => {},
            Node::Element { listeners, children, .. } => {
                let ghost m0 = self@;
                let ghost total = remove_subtree_ops(*cached_set, *node);
                let n = listeners.len();
                let mut j: usize = 0;
                while j < n
                    invariant
                        j <= n,
                        n == listeners@.len(),
                        apply_reg_ops(self@, remove_listener_ops(listeners@, j as int))
                            == apply_reg_ops(m0, remove_listener_ops(listeners@, 0)),
                    decreases n - j,
                {
                    proof {
                        assert(remove_listener_ops(listeners@, j as int) =~= seq![
                            remove_op(listeners@[j as int]),
                        ] + remove_listener_ops(listeners@, j as int + 1));
                        lemma_apply_reg_ops_concat(
                            self@,
                            seq![remove_op(listeners@[j as int])],
                            remove_listener_ops(listeners@, j as int + 1),
                        );
                        lemma_apply_single_remove(self@, listeners@[j as int]);
                    }
                    self.remove(&listeners[j]);
                    j += 1;
                }
                let ghost m1 = self@;
                proof {
                    assert(remove_listener_ops(listeners@, n as int) =~= Seq::<RegOp>::empty());
                    assert(m1 == apply_reg_ops(m0, remove_listener_ops(listeners@, 0)));
                }
                let c = children.len();
                let mut i: usize = 0;
                while i < c
                    invariant
                        i <= c,
                        c == children@.len(),
                        cached_set.wf(),
                        cache_bound(*node) <= cached_set@.len(),
                        apply_reg_ops(self@, remove_children_ops(*cached_set, children@, i as int))
                            == apply_reg_ops(m1, remove_children_ops(*cached_set, children@, 0)),
                    decreases c - i,
                {
                    proof {
                        crate::node::lemma_seq_cache_bound_elem(children@, i as int);
                        crate::node::lemma_seq_node_size_elem(children@, i as int);
                        assert(remove_children_ops(*cached_set, children@, i as int)
                            =~= remove_subtree_ops(*cached_set, children@[i as int])
                            + remove_children_ops(*cached_set, children@, i as int + 1));
                        lemma_apply_reg_ops_concat(
                            self@,
                            remove_subtree_ops(*cached_set, children@[i as int]),
                            remove_children_ops(*cached_set, children@, i as int + 1),
                        );
                    }
                    self.remove_subtree(cached_set, &children[i]);
                    i += 1;
                }
                proof {
                    assert(remove_children_ops(*cached_set, children@, c as int)
                        =~= Seq::<RegOp>::empty());
                    lemma_apply_reg_ops_concat(
                        m0,
                        remove_listener_ops(listeners@, 0),
                        remove_children_ops(*cached_set, children@, 0),
                    );
                    assert(total == remove_listener_ops(listeners@, 0) + remove_children_ops(
                        *cached_set,
                        children@,
                        0,
                    ));
                }
            },
            Node::Cached { id } => {
                let resolved = cached_set.get(*id);
                proof {
                    assert(cache_bound(cached_set@[*id as int]) <= *id as int);
                }
                self.remove_subtree(cached_set, resolved);
            },
        }
    }
}

/// The operations that unregister the listeners of a sequence, from `i` on.
pub open spec fn remove_listener_ops(listeners: Seq<Listener>, i: int) -> Seq<RegOp>
    decreases listeners.len() - i,
{
    if i < 0 || i >= listeners.len() {
        Seq::empty()
    } else {
        seq![remove_op(listeners[i])] + remove_listener_ops(listeners, i + 1)
    }
}

/// The operations that unregister every listener under `node`: its own
/// listeners first, then its children's, in document order, resolving cached
/// subtrees through `cached_set`.
pub open spec fn remove_subtree_ops(cached_set: CachedSet, node: Node) -> Seq<RegOp>
    decreases cache_bound(node), node_size(node), 0int,
        when cached_set.wf() && cache_bound(node) <= cached_set@.len()
{
    match node {
        Node::Text { .. } => Seq::empty(),
        Node::Element { listeners, children, .. } => remove_listener_ops(listeners@, 0)
            + remove_children_ops(cached_set, children@, 0),
        Node::Cached { id } => remove_subtree_ops(cached_set, cached_set@[id as int]),
    }
}

/// The operations that unregister every listener under the children from
/// `i` on.
pub open spec fn remove_children_ops(cached_set: CachedSet, children: Seq<Node>, i: int) -> Seq<
    RegOp,
>
    decreases crate::node::seq_cache_bound(children), crate::node::seq_node_size(children), children.len() - i + 1,
        when cached_set.wf() && crate::node::seq_cache_bound(children) <= cached_set@.len()
{
    if i < 0 || i >= children.len() {
        Seq::empty()
    } else {
        proof {
            crate::node::lemma_seq_cache_bound_elem(children, i);
            crate::node::lemma_seq_node_size_elem(children, i);
        }
        remove_subtree_ops(cached_set, children[i]) + remove_children_ops(
            cached_set,
            children,
            i + 1,
        )
    }
}

} // verus!
