//! The diff engine: walks two virtual trees in lockstep and emits the
//! instructions that turn the rendered DOM of the first into the second.
//!
//! Every public function is specified against an *effect*: the exact
//! sequence of instructions it appends, the exact sequence of registry
//! operations it performs, and the set of cache identities it records.

use vstd::prelude::*;

use crate::cached_set::CachedSet;
use crate::change_list::{ChangeListBuilder, Op};
use crate::events::{
    add_op, apply_reg_ops, lemma_apply_reg_ops_concat, lemma_apply_single_add,
    lemma_apply_single_remove, remove_op, remove_subtree_ops,
    remove_children_ops, EventsRegistry, RegOp,
};
use crate::node::{
    cache_bound, lemma_seq_cache_bound_elem, lemma_seq_node_size_elem, node_size,
    opt_str_eq, opt_string_view, seq_cache_bound, seq_node_size, str_eq, Attribute, Listener, Node,
};
use crate::roots::{roots_of, CachedRoots};

verus! {

/// Everything one diffing step does to its three accumulators: the
/// instructions it appends, the registry operations it performs, and the
/// cache identities it records.
#[verifier::ext_equal]
pub struct DiffEffect {
    pub ops: Seq<Op>,
    pub reg: Seq<RegOp>,
    pub roots: Set<usize>,
}

/// The effect that does nothing.
pub open spec fn effect_empty() -> DiffEffect {
    DiffEffect { ops: Seq::empty(), reg: Seq::empty(), roots: Set::empty() }
}

/// The effect of one step followed by another.
pub open spec fn effect_concat(a: DiffEffect, b: DiffEffect) -> DiffEffect {
    DiffEffect { ops: a.ops + b.ops, reg: a.reg + b.reg, roots: a.roots.union(b.roots) }
}

/// Whether some listener in the sequence is for `event`.
pub open spec fn has_event(listeners: Seq<Listener>, event: Seq<char>) -> bool {
    exists|k: int| 0 <= k < listeners.len() && listeners[k].event@ == event
}

/// Whether some attribute in the sequence is named `name`.
pub open spec fn has_attr_name(attrs: Seq<Attribute>, name: Seq<char>) -> bool {
    exists|k: int| 0 <= k < attrs.len() && attrs[k].name@ == name
}

/// The value of the first attribute named `name`, if any. Diffing goes by
/// the first occurrence, as the scan does.
pub open spec fn attr_lookup(attrs: Seq<Attribute>, name: Seq<char>) -> Option<Seq<char>>
    decreases attrs.len(),
{
    if attrs.len() == 0 {
        None
    } else if attrs[0].name@ == name {
        Some(attrs[0].value@)
    } else {
        attr_lookup(attrs.drop_first(), name)
    }
}

pub proof fn lemma_attr_lookup_found(attrs: Seq<Attribute>, name: Seq<char>, j: int)
    requires
        0 <= j < attrs.len(),
        attrs[j].name@ == name,
        forall|k: int| 0 <= k < j ==> attrs[k].name@ != name,
    ensures
        attr_lookup(attrs, name) == Some(attrs[j].value@),
    decreases j,
{
    if j > 0 {
        lemma_attr_lookup_found(attrs.drop_first(), name, j - 1);
        assert(attrs.drop_first()[j - 1] == attrs[j]);
    }
}

pub proof fn lemma_attr_lookup_none(attrs: Seq<Attribute>, name: Seq<char>)
    requires
        forall|k: int| 0 <= k < attrs.len() ==> attrs[k].name@ != name,
    ensures
        attr_lookup(attrs, name) == None::<Seq<char>>,
    decreases attrs.len(),
{
    if attrs.len() > 0 {
        lemma_attr_lookup_none(attrs.drop_first(), name);
    }
}

/// The effect of registering and announcing the listeners of a fresh
/// element, from index `i` on.
pub open spec fn create_listener_effect(listeners: Seq<Listener>, i: int) -> DiffEffect
    decreases listeners.len() - i,
{
    if i < 0 || i >= listeners.len() {
        effect_empty()
    } else {
        effect_concat(
            DiffEffect {
                ops: seq![
                    Op::NewEventListener {
                        event: listeners[i].event@,
                        callback: listeners[i].callback,
                    },
                ],
                reg: seq![add_op(listeners[i])],
                roots: Set::empty(),
            },
            create_listener_effect(listeners, i + 1),
        )
    }
}

/// Registering listeners records no cache identity.
pub proof fn lemma_create_listener_effect_roots(listeners: Seq<Listener>, i: int)
    ensures
        create_listener_effect(listeners, i).roots == Set::<usize>::empty(),
    decreases listeners.len() - i,
{
    if 0 <= i < listeners.len() {
        lemma_create_listener_effect_roots(listeners, i + 1);
        assert(create_listener_effect(listeners, i).roots =~= Set::<usize>::empty());
    } else {
        assert(create_listener_effect(listeners, i).roots =~= Set::<usize>::empty());
    }
}

/// The instructions that set the attributes of a fresh element, from index
/// `i` on.
pub open spec fn create_attribute_ops(attrs: Seq<Attribute>, i: int) -> Seq<Op>
    decreases attrs.len() - i,
{
    if i < 0 || i >= attrs.len() {
        Seq::empty()
    } else {
        seq![Op::SetAttribute { name: attrs[i].name@, value: attrs[i].value@ }]
            + create_attribute_ops(attrs, i + 1)
    }
}

/// The effect of building the whole subtree under `node` afresh: cached
/// references are resolved through `cached_set`, recorded, and built out as
/// their concrete trees.
pub open spec fn create_effect(cached_set: CachedSet, node: Node) -> DiffEffect
    decreases cache_bound(node), node_size(node), 0int,
        when cached_set.wf() && cache_bound(node) <= cached_set@.len()
{
    match node {
        Node::Text { text } => DiffEffect {
            ops: seq![Op::CreateTextNode { text: text@ }],
            reg: Seq::empty(),
            roots: Set::empty(),
        },
        Node::Element { tag_name, namespace, attributes, listeners, children } => {
            let head_op = match namespace {
                Some(ns) => Op::CreateElementNs { tag_name: tag_name@, namespace: ns@ },
                None => Op::CreateElement { tag_name: tag_name@ },
            };
            effect_concat(
                effect_concat(
                    effect_concat(
                        DiffEffect { ops: seq![head_op], reg: Seq::empty(), roots: Set::empty() },
                        create_listener_effect(listeners@, 0),
                    ),
                    DiffEffect {
                        ops: create_attribute_ops(attributes@, 0),
                        reg: Seq::empty(),
                        roots: Set::empty(),
                    },
                ),
                create_children_effect(cached_set, children@, 0),
            )
        },
        Node::Cached { id } => {
            let inner = create_effect(cached_set, cached_set@[id as int]);
            DiffEffect { ops: inner.ops, reg: inner.reg, roots: inner.roots.insert(id) }
        },
    }
}

/// The effect of building the children from index `i` on afresh, appending
/// each to its parent.
pub open spec fn create_children_effect(cached_set: CachedSet, children: Seq<Node>, i: int) -> DiffEffect
    decreases seq_cache_bound(children), seq_node_size(children), children.len() - i + 1,
        when cached_set.wf() && seq_cache_bound(children) <= cached_set@.len()
{
    if i < 0 || i >= children.len() {
        effect_empty()
    } else {
        proof {
            lemma_seq_cache_bound_elem(children, i);
            lemma_seq_node_size_elem(children, i);
        }
        effect_concat(
            effect_concat(
                create_effect(cached_set, children[i]),
                DiffEffect { ops: seq![Op::AppendChild], reg: Seq::empty(), roots: Set::empty() },
            ),
            create_children_effect(cached_set, children, i + 1),
        )
    }
}

/// The effect of patching the listener list: each listener of the new
/// element is registered and announced as updated or fresh, from `i` on.
pub open spec fn patch_new_listeners_effect(
    old_listeners: Seq<Listener>,
    new_listeners: Seq<Listener>,
    i: int,
) -> DiffEffect
    decreases new_listeners.len() - i,
{
    if i < 0 || i >= new_listeners.len() {
        effect_empty()
    } else {
        let l = new_listeners[i];
        let op = if has_event(old_listeners, l.event@) {
            Op::UpdateEventListener { event: l.event@, callback: l.callback }
        } else {
            Op::NewEventListener { event: l.event@, callback: l.callback }
        };
        effect_concat(
            DiffEffect { ops: seq![op], reg: seq![add_op(l)], roots: Set::empty() },
            patch_new_listeners_effect(old_listeners, new_listeners, i + 1),
        )
    }
}

/// The effect of retiring the old listener list: each old listener is
/// unregistered, and its event is dropped from the DOM when no new listener
/// shares it, from `i` on.
pub open spec fn patch_old_listeners_effect(
    old_listeners: Seq<Listener>,
    new_listeners: Seq<Listener>,
    i: int,
) -> DiffEffect
    decreases old_listeners.len() - i,
{
    if i < 0 || i >= old_listeners.len() {
        effect_empty()
    } else {
        let l = old_listeners[i];
        let ops = if has_event(new_listeners, l.event@) {
            Seq::<Op>::empty()
        } else {
            seq![Op::RemoveEventListener { event: l.event@ }]
        };
        effect_concat(
            DiffEffect { ops: ops, reg: seq![remove_op(l)], roots: Set::empty() },
            patch_old_listeners_effect(old_listeners, new_listeners, i + 1),
        )
    }
}

/// The effect of `diff_listeners`.
pub open spec fn diff_listeners_effect(
    old_listeners: Seq<Listener>,
    new_listeners: Seq<Listener>,
) -> DiffEffect {
    effect_concat(
        patch_new_listeners_effect(old_listeners, new_listeners, 0),
        patch_old_listeners_effect(old_listeners, new_listeners, 0),
    )
}

/// The instructions that bring the attributes of the patched element up to
/// date, from `i` on: a volatile attribute is always set again; another is
/// set when the old element had no attribute of that name or held another
/// value.
pub open spec fn patch_new_attributes_ops(
    old_attrs: Seq<Attribute>,
    new_attrs: Seq<Attribute>,
    i: int,
) -> Seq<Op>
    decreases new_attrs.len() - i,
{
    if i < 0 || i >= new_attrs.len() {
        Seq::empty()
    } else {
        let a = new_attrs[i];
        let here = if a.is_volatile {
            seq![Op::SetAttribute { name: a.name@, value: a.value@ }]
        } else {
            match attr_lookup(old_attrs, a.name@) {
                Some(v) => if v == a.value@ {
                    Seq::<Op>::empty()
                } else {
                    seq![Op::SetAttribute { name: a.name@, value: a.value@ }]
                },
                None => seq![Op::SetAttribute { name: a.name@, value: a.value@ }],
            }
        };
        here + patch_new_attributes_ops(old_attrs, new_attrs, i + 1)
    }
}

/// The instructions that drop each old attribute whose name no new
/// attribute carries, from `i` on.
pub open spec fn patch_old_attributes_ops(
    old_attrs: Seq<Attribute>,
    new_attrs: Seq<Attribute>,
    i: int,
) -> Seq<Op>
    decreases old_attrs.len() - i,
{
    if i < 0 || i >= old_attrs.len() {
        Seq::empty()
    } else {
        let here = if has_attr_name(new_attrs, old_attrs[i].name@) {
            Seq::<Op>::empty()
        } else {
            seq![Op::RemoveAttribute { name: old_attrs[i].name@ }]
        };
        here + patch_old_attributes_ops(old_attrs, new_attrs, i + 1)
    }
}

/// The instructions of `diff_attributes`.
pub open spec fn diff_attributes_ops(old_attrs: Seq<Attribute>, new_attrs: Seq<Attribute>) -> Seq<
    Op,
> {
    patch_new_attributes_ops(old_attrs, new_attrs, 0) + patch_old_attributes_ops(
        old_attrs,
        new_attrs,
        0,
    )
}

/// The effect of replacing the old node: the new subtree is built afresh,
/// the old subtree's listeners are unregistered, and the freshly built tree
/// is swapped in for the current node.
pub open spec fn replace_effect(cached_set: CachedSet, old_node: Node, built: Node) -> DiffEffect {
    let built_effect = create_effect(cached_set, built);
    DiffEffect {
        ops: built_effect.ops + seq![Op::ReplaceWith],
        reg: built_effect.reg + remove_subtree_ops(cached_set, old_node),
        roots: built_effect.roots,
    }
}

/// The effect of `diff`: what one reconciliation pass over `old_node` and
/// `new_node` appends, performs and records.
pub open spec fn diff_effect(cached_set: CachedSet, old_node: Node, new_node: Node) -> DiffEffect
    decreases
        cache_bound(old_node) + cache_bound(new_node),
        node_size(old_node) + node_size(new_node),
        0int,
        when cached_set.wf() && cache_bound(old_node) <= cached_set@.len() && cache_bound(new_node)
            <= cached_set@.len()
{
    match (new_node, old_node) {
        (Node::Text { text: new_text }, Node::Text { text: old_text }) => {
            if new_text@ == old_text@ {
                effect_empty()
            } else {
                DiffEffect {
                    ops: seq![Op::SetText { text: new_text@ }],
                    reg: Seq::empty(),
                    roots: Set::empty(),
                }
            }
        },
        (Node::Text { .. }, Node::Element { .. }) => replace_effect(
            cached_set,
            old_node,
            new_node,
        ),
        (Node::Element { .. }, Node::Text { .. }) => {
            // A text node carries no listeners, so nothing is unregistered.
            let built_effect = create_effect(cached_set, new_node);
            DiffEffect {
                ops: built_effect.ops + seq![Op::ReplaceWith],
                reg: built_effect.reg,
                roots: built_effect.roots,
            }
        },
        (
            Node::Element {
                tag_name: new_tag,
                namespace: new_ns,
                attributes: new_attrs,
                listeners: new_listeners,
                children: new_children,
            },
            Node::Element {
                tag_name: old_tag,
                namespace: old_ns,
                attributes: old_attrs,
                listeners: old_listeners,
                children: old_children,
            },
        ) => {
            if new_tag@ != old_tag@ || opt_string_view(new_ns) != opt_string_view(old_ns) {
                replace_effect(cached_set, old_node, new_node)
            } else {
                effect_concat(
                    effect_concat(
                        diff_listeners_effect(old_listeners@, new_listeners@),
                        DiffEffect {
                            ops: diff_attributes_ops(old_attrs@, new_attrs@),
                            reg: Seq::empty(),
                            roots: Set::empty(),
                        },
                    ),
                    diff_children_effect(cached_set, old_children@, new_children@),
                )
            }
        },
        (Node::Cached { id: new_id }, Node::Cached { id: old_id }) => {
            if new_id == old_id {
                DiffEffect {
                    ops: Seq::empty(),
                    reg: Seq::empty(),
                    roots: Set::empty().insert(new_id),
                }
            } else {
                let inner = diff_effect(
                    cached_set,
                    cached_set@[old_id as int],
                    cached_set@[new_id as int],
                );
                DiffEffect { ops: inner.ops, reg: inner.reg, roots: inner.roots.insert(new_id) }
            }
        },
        (Node::Cached { id: new_id }, _) => {
            let inner = replace_effect(cached_set, old_node, cached_set@[new_id as int]);
            DiffEffect { ops: inner.ops, reg: inner.reg, roots: inner.roots.insert(new_id) }
        },
        (_, Node::Cached { .. }) => replace_effect(cached_set, old_node, new_node),
    }
}

/// The effect of `diff_children`.
pub open spec fn diff_children_effect(
    cached_set: CachedSet,
    old_children: Seq<Node>,
    new_children: Seq<Node>,
) -> DiffEffect
    decreases
        seq_cache_bound(old_children) + seq_cache_bound(new_children),
        seq_node_size(old_children) + seq_node_size(new_children),
        new_children.len() + 2,
        when cached_set.wf() && seq_cache_bound(old_children) <= cached_set@.len()
            && seq_cache_bound(new_children) <= cached_set@.len()
{
    if new_children.len() == 0 {
        if old_children.len() == 0 {
            effect_empty()
        } else {
            DiffEffect {
                ops: seq![Op::SetText { text: Seq::empty() }],
                reg: remove_children_ops(cached_set, old_children, 0),
                roots: Set::empty(),
            }
        }
    } else if old_children.len() == 0 {
        create_children_effect(cached_set, new_children, 0)
    } else {
        let aligned = diff_aligned_effect(cached_set, old_children, new_children, 0);
        if old_children.len() > new_children.len() {
            // Discarding the excess old children passes through subtree
            // unregistration, like every other discard path.
            effect_concat(
                aligned,
                DiffEffect {
                    ops: seq![Op::PopPushNextSibling, Op::RemoveSelfAndNextSiblings],
                    reg: remove_children_ops(cached_set, old_children, new_children.len() as int),
                    roots: Set::empty(),
                },
            )
        } else {
            effect_concat(
                effect_concat(
                    aligned,
                    DiffEffect { ops: seq![Op::Pop], reg: Seq::empty(), roots: Set::empty() },
                ),
                create_children_effect(cached_set, new_children, old_children.len() as int),
            )
        }
    }
}

/// The effect of diffing the aligned child pairs from `i` on: move the
/// cursor onto the pair's position, then diff the pair, in document order.
pub open spec fn diff_aligned_effect(
    cached_set: CachedSet,
    old_children: Seq<Node>,
    new_children: Seq<Node>,
    i: int,
) -> DiffEffect
    decreases
        seq_cache_bound(old_children) + seq_cache_bound(new_children),
        seq_node_size(old_children) + seq_node_size(new_children),
        vstd::math::min(old_children.len() as int, new_children.len() as int) - i + 1,
        when cached_set.wf() && seq_cache_bound(old_children) <= cached_set@.len()
            && seq_cache_bound(new_children) <= cached_set@.len()
{
    let aligned_count = vstd::math::min(old_children.len() as int, new_children.len() as int);
    if i < 0 || i >= aligned_count {
        effect_empty()
    } else {
        proof {
            lemma_seq_cache_bound_elem(old_children, i);
            lemma_seq_node_size_elem(old_children, i);
            lemma_seq_cache_bound_elem(new_children, i);
            lemma_seq_node_size_elem(new_children, i);
        }
        let cursor_op = if i == 0 {
            Op::PushFirstChild
        } else {
            Op::PopPushNextSibling
        };
        effect_concat(
            DiffEffect { ops: seq![cursor_op], reg: Seq::empty(), roots: Set::empty() },
            effect_concat(
                diff_effect(cached_set, old_children[i], new_children[i]),
                diff_aligned_effect(cached_set, old_children, new_children, i + 1),
            ),
        )
    }
}

/// Emits the instructions that build the whole subtree under `node` afresh:
/// its listeners are registered and announced, its attributes set, its
/// children built and appended, and every cache identity it resolves is
/// recorded.
#[verifier::loop_isolation(false)]
pub fn create(
    cached_set: &CachedSet,
    change_list: &mut ChangeListBuilder,
    registry: &mut EventsRegistry,
    node: &Node,
    cached_roots: &mut CachedRoots,
)
    requires
        cached_set.wf(),
        cache_bound(*node) <= cached_set@.len(),
    ensures
        final(change_list)@ == old(change_list)@ + create_effect(*cached_set, *node).ops,
        final(registry)@ == apply_reg_ops(old(registry)@, create_effect(*cached_set, *node).reg),
        roots_of(*final(cached_roots)) == roots_of(*old(cached_roots)).union(
            create_effect(*cached_set, *node).roots,
        ),
    decreases cache_bound(*node), node_size(*node), 0int,
{
    let ghost eff = create_effect(*cached_set, *node);
    match node {
        Node::Text { text } => {
            change_list.create_text_node(text);
            proof {
                assert(change_list@ =~= old(change_list)@ + eff.ops);
                assert(apply_reg_ops(old(registry)@, eff.reg) == registry@);
                assert(roots_of(*old(cached_roots)).union(eff.roots) =~= roots_of(
                    *cached_roots,
                ));
            }
        },
        Node::Element { tag_name, namespace, attributes, listeners, children } => {
            match namespace {
                Some(ns) => change_list.create_element_ns(tag_name, ns),
                None => change_list.create_element(tag_name),
            }
            let ghost cl1 = change_list@;
            let n = listeners.len();
            let mut j: usize = 0;
            while j < n
                invariant
                    j <= n,
                    change_list@ + create_listener_effect(listeners@, j as int).ops == cl1
                        + create_listener_effect(listeners@, 0).ops,
                    apply_reg_ops(registry@, create_listener_effect(listeners@, j as int).reg)
                        == apply_reg_ops(
                        old(registry)@,
                        create_listener_effect(listeners@, 0).reg,
                    ),
                    *cached_roots == *old(cached_roots),
                decreases n - j,
            {
                let ghost cl_prev = change_list@;
                let ghost reg_prev = registry@;
                proof {
                    lemma_apply_reg_ops_concat(
                        registry@,
                        seq![add_op(listeners@[j as int])],
                        create_listener_effect(listeners@, j as int + 1).reg,
                    );
                    lemma_apply_single_add(registry@, listeners@[j as int]);
                }
                registry.add(&listeners[j]);
                change_list.new_event_listener(&listeners[j].event, listeners[j].callback);
                proof {
                    assert(create_listener_effect(listeners@, j as int).reg =~= seq![
                        add_op(listeners@[j as int]),
                    ] + create_listener_effect(listeners@, j as int + 1).reg);
                    assert(change_list@ + create_listener_effect(listeners@, j as int + 1).ops
                        =~= cl_prev + create_listener_effect(listeners@, j as int).ops);
                    assert(apply_reg_ops(
                        registry@,
                        create_listener_effect(listeners@, j as int + 1).reg,
                    ) == apply_reg_ops(
                        reg_prev,
                        create_listener_effect(listeners@, j as int).reg,
                    ));
                }
                j += 1;
            }
            let ghost cl2 = change_list@;
            let ghost reg2 = registry@;
            proof {
                assert(create_listener_effect(listeners@, n as int).ops =~= Seq::<Op>::empty());
                assert(create_listener_effect(listeners@, n as int).reg =~= Seq::<
                    RegOp,
                >::empty());
                assert(cl2 =~= cl1 + create_listener_effect(listeners@, 0).ops);
                assert(reg2 == apply_reg_ops(
                    old(registry)@,
                    create_listener_effect(listeners@, 0).reg,
                ));
            }
            let a = attributes.len();
            let mut k: usize = 0;
            while k < a
                invariant
                    k <= a,
                    change_list@ + create_attribute_ops(attributes@, k as int) == cl2
                        + create_attribute_ops(attributes@, 0),
                    registry@ == reg2,
                    *cached_roots == *old(cached_roots),
                decreases a - k,
            {
                let ghost cl_prev = change_list@;
                change_list.set_attribute(&attributes[k].name, &attributes[k].value);
                proof {
                    assert(change_list@ + create_attribute_ops(attributes@, k as int + 1)
                        =~= cl_prev + create_attribute_ops(attributes@, k as int));
                }
                k += 1;
            }
            let ghost cl3 = change_list@;
            proof {
                assert(create_attribute_ops(attributes@, a as int) =~= Seq::<Op>::empty());
                assert(cl3 =~= cl2 + create_attribute_ops(attributes@, 0));
            }
            let c = children.len();
            let mut i: usize = 0;
            while i < c
                invariant
                    i <= c,
                    change_list@ + create_children_effect(*cached_set, children@, i as int).ops
                        == cl3 + create_children_effect(*cached_set, children@, 0).ops,
                    apply_reg_ops(
                        registry@,
                        create_children_effect(*cached_set, children@, i as int).reg,
                    ) == apply_reg_ops(
                        reg2,
                        create_children_effect(*cached_set, children@, 0).reg,
                    ),
                    roots_of(*cached_roots).union(
                        create_children_effect(*cached_set, children@, i as int).roots,
                    ) == roots_of(*old(cached_roots)).union(
                        create_children_effect(*cached_set, children@, 0).roots,
                    ),
                decreases c - i,
            {
                let ghost cl_prev = change_list@;
                let ghost reg_prev = registry@;
                let ghost roots_prev = roots_of(*cached_roots);
                proof {
                    lemma_seq_cache_bound_elem(children@, i as int);
                    lemma_seq_node_size_elem(children@, i as int);
                    assert(create_children_effect(*cached_set, children@, i as int).reg
                        =~= create_effect(*cached_set, children@[i as int]).reg
                        + create_children_effect(*cached_set, children@, i as int + 1).reg);
                    lemma_apply_reg_ops_concat(
                        registry@,
                        create_effect(*cached_set, children@[i as int]).reg,
                        create_children_effect(*cached_set, children@, i as int + 1).reg,
                    );
                }
                create(cached_set, change_list, registry, &children[i], cached_roots);
                change_list.append_child();
                proof {
                    assert(change_list@ + create_children_effect(
                        *cached_set,
                        children@,
                        i as int + 1,
                    ).ops =~= cl_prev + create_children_effect(
                        *cached_set,
                        children@,
                        i as int,
                    ).ops);
                    assert(apply_reg_ops(
                        registry@,
                        create_children_effect(*cached_set, children@, i as int + 1).reg,
                    ) == apply_reg_ops(
                        reg_prev,
                        create_children_effect(*cached_set, children@, i as int).reg,
                    ));
                    assert(roots_of(*cached_roots).union(
                        create_children_effect(*cached_set, children@, i as int + 1).roots,
                    ) =~= roots_prev.union(
                        create_children_effect(*cached_set, children@, i as int).roots,
                    ));
                }
                i += 1;
            }
            proof {
                let cce0 = create_children_effect(*cached_set, children@, 0);
                assert(create_children_effect(*cached_set, children@, c as int).ops =~= Seq::<
                    Op,
                >::empty());
                assert(create_children_effect(*cached_set, children@, c as int).reg =~= Seq::<
                    RegOp,
                >::empty());
                assert(create_children_effect(*cached_set, children@, c as int).roots
                    =~= Set::<usize>::empty());
                assert(change_list@ =~= cl3 + cce0.ops);
                assert(change_list@ =~= old(change_list)@ + eff.ops);
                assert(eff.reg =~= create_listener_effect(listeners@, 0).reg + cce0.reg);
                lemma_apply_reg_ops_concat(
                    old(registry)@,
                    create_listener_effect(listeners@, 0).reg,
                    cce0.reg,
                );
                assert(registry@ == apply_reg_ops(old(registry)@, eff.reg));
                lemma_create_listener_effect_roots(listeners@, 0);
                assert(eff.roots =~= cce0.roots);
                assert(roots_of(*cached_roots) =~= roots_of(*old(cached_roots)).union(
                    eff.roots,
                ));
            }
        },
        Node::Cached { id } => {
            cached_roots.insert(*id);
            let resolved = cached_set.get(*id);
            proof {
                assert(cache_bound(cached_set@[*id as int]) <= *id as int);
            }
            create(cached_set, change_list, registry, resolved, cached_roots);
            proof {
                let inner = create_effect(*cached_set, cached_set@[*id as int]);
                assert(eff.roots == inner.roots.insert(*id));
                assert(roots_of(*cached_roots) == roots_of(*old(cached_roots)).insert(
                    *id,
                ).union(inner.roots));
                assert(roots_of(*cached_roots) =~= roots_of(*old(cached_roots)).union(
                    eff.roots,
                ));
            }
        },
    }
}

/// Builds the children from `start` on afresh, appending each to the
/// current node.
#[verifier::loop_isolation(false)]
pub fn create_children(
    cached_set: &CachedSet,
    change_list: &mut ChangeListBuilder,
    registry: &mut EventsRegistry,
    new_children: &Vec<Node>,
    start: usize,
    cached_roots: &mut CachedRoots,
)
    requires
        cached_set.wf(),
        seq_cache_bound(new_children@) <= cached_set@.len(),
        start as int <= new_children@.len(),
    ensures
        final(change_list)@ == old(change_list)@ + create_children_effect(
            *cached_set,
            new_children@,
            start as int,
        ).ops,
        final(registry)@ == apply_reg_ops(
            old(registry)@,
            create_children_effect(*cached_set, new_children@, start as int).reg,
        ),
        roots_of(*final(cached_roots)) == roots_of(*old(cached_roots)).union(
            create_children_effect(*cached_set, new_children@, start as int).roots,
        ),
{
    let n = new_children.len();
    let mut i: usize = start;
    while i < n
        invariant
            start <= i <= n,
            change_list@ + create_children_effect(*cached_set, new_children@, i as int).ops
                == old(change_list)@ + create_children_effect(
                *cached_set,
                new_children@,
                start as int,
            ).ops,
            apply_reg_ops(
                registry@,
                create_children_effect(*cached_set, new_children@, i as int).reg,
            ) == apply_reg_ops(
                old(registry)@,
                create_children_effect(*cached_set, new_children@, start as int).reg,
            ),
            roots_of(*cached_roots).union(
                create_children_effect(*cached_set, new_children@, i as int).roots,
            ) == roots_of(*old(cached_roots)).union(
                create_children_effect(*cached_set, new_children@, start as int).roots,
            ),
        decreases n - i,
    {
        let ghost cl_prev = change_list@;
        let ghost reg_prev = registry@;
        let ghost roots_prev = roots_of(*cached_roots);
        proof {
            lemma_seq_cache_bound_elem(new_children@, i as int);
            lemma_seq_node_size_elem(new_children@, i as int);
            assert(create_children_effect(*cached_set, new_children@, i as int).reg
                =~= create_effect(*cached_set, new_children@[i as int]).reg
                + create_children_effect(*cached_set, new_children@, i as int + 1).reg);
            lemma_apply_reg_ops_concat(
                registry@,
                create_effect(*cached_set, new_children@[i as int]).reg,
                create_children_effect(*cached_set, new_children@, i as int + 1).reg,
            );
        }
        create(cached_set, change_list, registry, &new_children[i], cached_roots);
        change_list.append_child();
        proof {
            assert(change_list@ + create_children_effect(
                *cached_set,
                new_children@,
                i as int + 1,
            ).ops =~= cl_prev + create_children_effect(
                *cached_set,
                new_children@,
                i as int,
            ).ops);
            assert(apply_reg_ops(
                registry@,
                create_children_effect(*cached_set, new_children@, i as int + 1).reg,
            ) == apply_reg_ops(
                reg_prev,
                create_children_effect(*cached_set, new_children@, i as int).reg,
            ));
            assert(roots_of(*cached_roots).union(
                create_children_effect(*cached_set, new_children@, i as int + 1).roots,
            ) =~= roots_prev.union(
                create_children_effect(*cached_set, new_children@, i as int).roots,
            ));
        }
        i += 1;
    }
    proof {
        assert(create_children_effect(*cached_set, new_children@, n as int).ops =~= Seq::<
            Op,
        >::empty());
        assert(create_children_effect(*cached_set, new_children@, n as int).reg =~= Seq::<
            RegOp,
        >::empty());
        assert(create_children_effect(*cached_set, new_children@, n as int).roots =~= Set::<
            usize,
        >::empty());
        assert(change_list@ =~= old(change_list)@ + create_children_effect(
            *cached_set,
            new_children@,
            start as int,
        ).ops);
        assert(roots_of(*cached_roots) =~= roots_of(*old(cached_roots)).union(
            create_children_effect(*cached_set, new_children@, start as int).roots,
        ));
    }
}

/// Unregisters every listener under the old children and clears them out of
/// the DOM with a single text reset, the fast whole-subtree removal.
#[verifier::loop_isolation(false)]
pub fn remove_children(
    cached_set: &CachedSet,
    change_list: &mut ChangeListBuilder,
    registry: &mut EventsRegistry,
    old_children: &Vec<Node>,
)
    requires
        cached_set.wf(),
        seq_cache_bound(old_children@) <= cached_set@.len(),
    ensures
        final(change_list)@ == old(change_list)@.push(Op::SetText { text: Seq::empty() }),
        final(registry)@ == apply_reg_ops(
            old(registry)@,
            remove_children_ops(*cached_set, old_children@, 0),
        ),
{
    let n = old_children.len();
    let mut i: usize = 0;
    while i < n
        invariant
            i <= n,
            change_list@ == old(change_list)@,
            apply_reg_ops(registry@, remove_children_ops(*cached_set, old_children@, i as int))
                == apply_reg_ops(
                old(registry)@,
                remove_children_ops(*cached_set, old_children@, 0),
            ),
        decreases n - i,
    {
        let ghost reg_prev = registry@;
        proof {
            lemma_seq_cache_bound_elem(old_children@, i as int);
            assert(remove_children_ops(*cached_set, old_children@, i as int)
                =~= remove_subtree_ops(*cached_set, old_children@[i as int])
                + remove_children_ops(*cached_set, old_children@, i as int + 1));
            lemma_apply_reg_ops_concat(
                registry@,
                remove_subtree_ops(*cached_set, old_children@[i as int]),
                remove_children_ops(*cached_set, old_children@, i as int + 1),
            );
        }
        registry.remove_subtree(cached_set, &old_children[i]);
        i += 1;
    }
    proof {
        assert(remove_children_ops(*cached_set, old_children@, n as int) =~= Seq::<
            RegOp,
        >::empty());
    }
    let empty_text = String::new();
    change_list.set_text(&empty_text);
}


/// Patching listeners records no cache identity.
pub proof fn lemma_patch_new_listeners_roots(
    old_listeners: Seq<Listener>,
    new_listeners: Seq<Listener>,
    i: int,
)
    ensures
        patch_new_listeners_effect(old_listeners, new_listeners, i).roots == Set::<
            usize,
        >::empty(),
    decreases new_listeners.len() - i,
{
    if 0 <= i < new_listeners.len() {
        lemma_patch_new_listeners_roots(old_listeners, new_listeners, i + 1);
    }
    assert(patch_new_listeners_effect(old_listeners, new_listeners, i).roots =~= Set::<
        usize,
    >::empty());
}

/// Retiring listeners records no cache identity.
pub proof fn lemma_patch_old_listeners_roots(
    old_listeners: Seq<Listener>,
    new_listeners: Seq<Listener>,
    i: int,
)
    ensures
        patch_old_listeners_effect(old_listeners, new_listeners, i).roots == Set::<
            usize,
        >::empty(),
    decreases old_listeners.len() - i,
{
    if 0 <= i < old_listeners.len() {
        lemma_patch_old_listeners_roots(old_listeners, new_listeners, i + 1);
    }
    assert(patch_old_listeners_effect(old_listeners, new_listeners, i).roots =~= Set::<
        usize,
    >::empty());
}

/// Patches the listener list of an element that stays in place: every new
/// listener is registered and announced as updated (when the old element
/// listened to its event) or fresh; every old listener is unregistered, and
/// its event dropped from the DOM when no new listener shares it.
#[verifier::loop_isolation(false)]
pub fn diff_listeners(
    change_list: &mut ChangeListBuilder,
    registry: &mut EventsRegistry,
    old_listeners: &Vec<Listener>,
    new_listeners: &Vec<Listener>,
)
    ensures
        final(change_list)@ == old(change_list)@ + diff_listeners_effect(
            old_listeners@,
            new_listeners@,
        ).ops,
        final(registry)@ == apply_reg_ops(
            old(registry)@,
            diff_listeners_effect(old_listeners@, new_listeners@).reg,
        ),
{
    let n_new = new_listeners.len();
    let mut i: usize = 0;
    while i < n_new
        invariant
            i <= n_new,
            change_list@ + patch_new_listeners_effect(
                old_listeners@,
                new_listeners@,
                i as int,
            ).ops == old(change_list)@ + patch_new_listeners_effect(
                old_listeners@,
                new_listeners@,
                0,
            ).ops,
            apply_reg_ops(
                registry@,
                patch_new_listeners_effect(old_listeners@, new_listeners@, i as int).reg,
            ) == apply_reg_ops(
                old(registry)@,
                patch_new_listeners_effect(old_listeners@, new_listeners@, 0).reg,
            ),
        decreases n_new - i,
    {
        let ghost cl_prev = change_list@;
        let ghost reg_prev = registry@;
        proof {
            lemma_apply_reg_ops_concat(
                registry@,
                seq![add_op(new_listeners@[i as int])],
                patch_new_listeners_effect(old_listeners@, new_listeners@, i as int + 1).reg,
            );
            lemma_apply_single_add(registry@, new_listeners@[i as int]);
        }
        registry.add(&new_listeners[i]);
        let n_old = old_listeners.len();
        let mut j: usize = 0;
        let mut found = false;
        while j < n_old && !found
            invariant
                j <= n_old,
                found ==> has_event(old_listeners@, new_listeners@[i as int].event@),
                !found ==> forall|k: int|
                    0 <= k < j ==> old_listeners@[k].event@ != new_listeners@[
                        i as int
                    ].event@,
            decreases n_old - j + (if found { 0int } else { 1int }),
        {
            if str_eq(&old_listeners[j].event, &new_listeners[i].event) {
                proof {
                    assert(old_listeners@[j as int].event@ == new_listeners@[
                        i as int
                    ].event@);
                }
                found = true;
            } else {
                j += 1;
            }
        }
        if found {
            change_list.update_event_listener(
                &new_listeners[i].event,
                new_listeners[i].callback,
            );
        } else {
            proof {
                assert(!has_event(old_listeners@, new_listeners@[i as int].event@));
            }
            change_list.new_event_listener(&new_listeners[i].event, new_listeners[i].callback);
        }
        proof {
            assert(change_list@ + patch_new_listeners_effect(
                old_listeners@,
                new_listeners@,
                i as int + 1,
            ).ops =~= cl_prev + patch_new_listeners_effect(
                old_listeners@,
                new_listeners@,
                i as int,
            ).ops);
            assert(apply_reg_ops(
                registry@,
                patch_new_listeners_effect(old_listeners@, new_listeners@, i as int + 1).reg,
            ) == apply_reg_ops(
                reg_prev,
                patch_new_listeners_effect(old_listeners@, new_listeners@, i as int).reg,
            ));
        }
        i += 1;
    }
    let ghost cl_mid = change_list@;
    let ghost reg_mid = registry@;
    proof {
        assert(patch_new_listeners_effect(old_listeners@, new_listeners@, n_new as int).ops
            =~= Seq::<Op>::empty());
        assert(patch_new_listeners_effect(old_listeners@, new_listeners@, n_new as int).reg
            =~= Seq::<RegOp>::empty());
        assert(cl_mid =~= old(change_list)@ + patch_new_listeners_effect(
            old_listeners@,
            new_listeners@,
            0,
        ).ops);
    }
    let n_old = old_listeners.len();
    let mut i2: usize = 0;
    while i2 < n_old
        invariant
            i2 <= n_old,
            change_list@ + patch_old_listeners_effect(
                old_listeners@,
                new_listeners@,
                i2 as int,
            ).ops == cl_mid + patch_old_listeners_effect(old_listeners@, new_listeners@, 0).ops,
            apply_reg_ops(
                registry@,
                patch_old_listeners_effect(old_listeners@, new_listeners@, i2 as int).reg,
            ) == apply_reg_ops(
                reg_mid,
                patch_old_listeners_effect(old_listeners@, new_listeners@, 0).reg,
            ),
        decreases n_old - i2,
    {
        let ghost cl_prev = change_list@;
        let ghost reg_prev = registry@;
        proof {
            lemma_apply_reg_ops_concat(
                registry@,
                seq![remove_op(old_listeners@[i2 as int])],
                patch_old_listeners_effect(old_listeners@, new_listeners@, i2 as int + 1).reg,
            );
            lemma_apply_single_remove(registry@, old_listeners@[i2 as int]);
        }
        registry.remove(&old_listeners[i2]);
        let m_new = new_listeners.len();
        let mut j: usize = 0;
        let mut found = false;
        while j < m_new && !found
            invariant
                j <= m_new,
                found ==> has_event(new_listeners@, old_listeners@[i2 as int].event@),
                !found ==> forall|k: int|
                    0 <= k < j ==> new_listeners@[k].event@ != old_listeners@[
                        i2 as int
                    ].event@,
            decreases m_new - j + (if found { 0int } else { 1int }),
        {
            if str_eq(&new_listeners[j].event, &old_listeners[i2].event) {
                proof {
                    assert(new_listeners@[j as int].event@ == old_listeners@[
                        i2 as int
                    ].event@);
                }
                found = true;
            } else {
                j += 1;
            }
        }
        if !found {
            proof {
                assert(!has_event(new_listeners@, old_listeners@[i2 as int].event@));
            }
            change_list.remove_event_listener(&old_listeners[i2].event);
        }
        proof {
            assert(change_list@ + patch_old_listeners_effect(
                old_listeners@,
                new_listeners@,
                i2 as int + 1,
            ).ops =~= cl_prev + patch_old_listeners_effect(
                old_listeners@,
                new_listeners@,
                i2 as int,
            ).ops);
            assert(apply_reg_ops(
                registry@,
                patch_old_listeners_effect(old_listeners@, new_listeners@, i2 as int + 1).reg,
            ) == apply_reg_ops(
                reg_prev,
                patch_old_listeners_effect(old_listeners@, new_listeners@, i2 as int).reg,
            ));
        }
        i2 += 1;
    }
    proof {
        let pnl0 = patch_new_listeners_effect(old_listeners@, new_listeners@, 0);
        let pol0 = patch_old_listeners_effect(old_listeners@, new_listeners@, 0);
        assert(patch_old_listeners_effect(old_listeners@, new_listeners@, n_old as int).ops
            =~= Seq::<Op>::empty());
        assert(patch_old_listeners_effect(old_listeners@, new_listeners@, n_old as int).reg
            =~= Seq::<RegOp>::empty());
        assert(change_list@ =~= old(change_list)@ + (pnl0.ops + pol0.ops));
        lemma_apply_reg_ops_concat(old(registry)@, pnl0.reg, pol0.reg);
        assert(registry@ == apply_reg_ops(old(registry)@, pnl0.reg + pol0.reg));
    }
}

/// Brings the attributes of an element that stays in place up to date: a
/// volatile attribute is always set again; another is set when the old
/// element lacked it or held another value; an old attribute whose name no
/// new attribute carries is removed.
#[verifier::loop_isolation(false)]
pub fn diff_attributes(
    change_list: &mut ChangeListBuilder,
    old_attrs: &Vec<Attribute>,
    new_attrs: &Vec<Attribute>,
)
    ensures
        final(change_list)@ == old(change_list)@ + diff_attributes_ops(old_attrs@, new_attrs@),
{
    let n_new = new_attrs.len();
    let mut i: usize = 0;
    while i < n_new
        invariant
            i <= n_new,
            change_list@ + patch_new_attributes_ops(old_attrs@, new_attrs@, i as int) == old(
                change_list,
            )@ + patch_new_attributes_ops(old_attrs@, new_attrs@, 0),
        decreases n_new - i,
    {
        let ghost cl_prev = change_list@;
        if new_attrs[i].is_volatile {
            change_list.set_attribute(&new_attrs[i].name, &new_attrs[i].value);
        } else {
            let n_old = old_attrs.len();
            let mut j: usize = 0;
            let mut found = false;
            while j < n_old && !found
                invariant
                    j <= n_old,
                    found ==> j < n_old && old_attrs@[j as int].name@ == new_attrs@[
                        i as int
                    ].name@ && forall|k: int|
                        0 <= k < j ==> old_attrs@[k].name@ != new_attrs@[i as int].name@,
                    !found ==> forall|k: int|
                        0 <= k < j ==> old_attrs@[k].name@ != new_attrs@[i as int].name@,
                decreases n_old - j + (if found { 0int } else { 1int }),
            {
                if str_eq(&old_attrs[j].name, &new_attrs[i].name) {
                    found = true;
                } else {
                    j += 1;
                }
            }
            if found {
                proof {
                    lemma_attr_lookup_found(old_attrs@, new_attrs@[i as int].name@, j as int);
                }
                if !str_eq(&old_attrs[j].value, &new_attrs[i].value) {
                    change_list.set_attribute(&new_attrs[i].name, &new_attrs[i].value);
                }
            } else {
                proof {
                    lemma_attr_lookup_none(old_attrs@, new_attrs@[i as int].name@);
                }
                change_list.set_attribute(&new_attrs[i].name, &new_attrs[i].value);
            }
        }
        proof {
            assert(change_list@ + patch_new_attributes_ops(
                old_attrs@,
                new_attrs@,
                i as int + 1,
            ) =~= cl_prev + patch_new_attributes_ops(old_attrs@, new_attrs@, i as int));
        }
        i += 1;
    }
    let ghost cl_mid = change_list@;
    proof {
        assert(patch_new_attributes_ops(old_attrs@, new_attrs@, n_new as int) =~= Seq::<
            Op,
        >::empty());
        assert(cl_mid =~= old(change_list)@ + patch_new_attributes_ops(
            old_attrs@,
            new_attrs@,
            0,
        ));
    }
    let n_old = old_attrs.len();
    let mut i2: usize = 0;
    while i2 < n_old
        invariant
            i2 <= n_old,
            change_list@ + patch_old_attributes_ops(old_attrs@, new_attrs@, i2 as int) == cl_mid
                + patch_old_attributes_ops(old_attrs@, new_attrs@, 0),
        decreases n_old - i2,
    {
        let ghost cl_prev = change_list@;
        let m_new = new_attrs.len();
        let mut j: usize = 0;
        let mut found = false;
        while j < m_new && !found
            invariant
                j <= m_new,
                found ==> has_attr_name(new_attrs@, old_attrs@[i2 as int].name@),
                !found ==> forall|k: int|
                    0 <= k < j ==> new_attrs@[k].name@ != old_attrs@[i2 as int].name@,
            decreases m_new - j + (if found { 0int } else { 1int }),
        {
            if str_eq(&new_attrs[j].name, &old_attrs[i2].name) {
                proof {
                    assert(new_attrs@[j as int].name@ == old_attrs@[i2 as int].name@);
                }
                found = true;
            } else {
                j += 1;
            }
        }
        if !found {
            proof {
                assert(!has_attr_name(new_attrs@, old_attrs@[i2 as int].name@));
            }
            change_list.remove_attribute(&old_attrs[i2].name);
        }
        proof {
            assert(change_list@ + patch_old_attributes_ops(
                old_attrs@,
                new_attrs@,
                i2 as int + 1,
            ) =~= cl_prev + patch_old_attributes_ops(old_attrs@, new_attrs@, i2 as int));
        }
        i2 += 1;
    }
    proof {
        assert(patch_old_attributes_ops(old_attrs@, new_attrs@, n_old as int) =~= Seq::<
            Op,
        >::empty());
        assert(change_list@ =~= old(change_list)@ + diff_attributes_ops(old_attrs@, new_attrs@));
    }
}

/// Diffs two sibling lists positionally: the aligned prefix pairwise and in
/// document order, then either discards the excess old children — their
/// listener subtrees unregistered first — or builds and appends the excess
/// new ones. Every cursor descent it emits is matched by an ascent, so the
/// cursor stands where it stood when it returns.
#[verifier::loop_isolation(false)]
pub fn diff_children(
    cached_set: &CachedSet,
    change_list: &mut ChangeListBuilder,
    registry: &mut EventsRegistry,
    old_children: &Vec<Node>,
    new_children: &Vec<Node>,
    cached_roots: &mut CachedRoots,
)
    requires
        cached_set.wf(),
        seq_cache_bound(old_children@) <= cached_set@.len(),
        seq_cache_bound(new_children@) <= cached_set@.len(),
    ensures
        final(change_list)@ == old(change_list)@ + diff_children_effect(
            *cached_set,
            old_children@,
            new_children@,
        ).ops,
        final(registry)@ == apply_reg_ops(
            old(registry)@,
            diff_children_effect(*cached_set, old_children@, new_children@).reg,
        ),
        roots_of(*final(cached_roots)) == roots_of(*old(cached_roots)).union(
            diff_children_effect(*cached_set, old_children@, new_children@).roots,
        ),
    decreases
        seq_cache_bound(old_children@) + seq_cache_bound(new_children@),
        seq_node_size(old_children@) + seq_node_size(new_children@),
        new_children@.len() + 2,
{
    let ghost eff = diff_children_effect(*cached_set, old_children@, new_children@);
    if new_children.len() == 0 {
        if old_children.len() > 0 {
            remove_children(cached_set, change_list, registry, old_children);
            proof {
                assert(change_list@ =~= old(change_list)@ + eff.ops);
                assert(roots_of(*cached_roots).union(eff.roots) =~= roots_of(*cached_roots));
            }
        } else {
            proof {
                assert(change_list@ =~= old(change_list)@ + eff.ops);
                assert(roots_of(*cached_roots).union(eff.roots) =~= roots_of(*cached_roots));
            }
        }
        return ;
    }
    if old_children.len() == 0 {
        create_children(cached_set, change_list, registry, new_children, 0, cached_roots);
        return ;
    }
    let aligned_count = if new_children.len() < old_children.len() {
        new_children.len()
    } else {
        old_children.len()
    };
    let mut i: usize = 0;
    while i < aligned_count
        invariant
            i <= aligned_count,
            aligned_count as int == vstd::math::min(
                old_children@.len() as int,
                new_children@.len() as int,
            ),
            change_list@ + diff_aligned_effect(
                *cached_set,
                old_children@,
                new_children@,
                i as int,
            ).ops == old(change_list)@ + diff_aligned_effect(
                *cached_set,
                old_children@,
                new_children@,
                0,
            ).ops,
            apply_reg_ops(
                registry@,
                diff_aligned_effect(*cached_set, old_children@, new_children@, i as int).reg,
            ) == apply_reg_ops(
                old(registry)@,
                diff_aligned_effect(*cached_set, old_children@, new_children@, 0).reg,
            ),
            roots_of(*cached_roots).union(
                diff_aligned_effect(*cached_set, old_children@, new_children@, i as int).roots,
            ) == roots_of(*old(cached_roots)).union(
                diff_aligned_effect(*cached_set, old_children@, new_children@, 0).roots,
            ),
        decreases aligned_count - i,
    {
        let ghost cl_prev = change_list@;
        let ghost reg_prev = registry@;
        let ghost roots_prev = roots_of(*cached_roots);
        proof {
            lemma_seq_cache_bound_elem(old_children@, i as int);
            lemma_seq_node_size_elem(old_children@, i as int);
            lemma_seq_cache_bound_elem(new_children@, i as int);
            lemma_seq_node_size_elem(new_children@, i as int);
            assert(diff_aligned_effect(*cached_set, old_children@, new_children@, i as int).reg
                =~= diff_effect(
                *cached_set,
                old_children@[i as int],
                new_children@[i as int],
            ).reg + diff_aligned_effect(
                *cached_set,
                old_children@,
                new_children@,
                i as int + 1,
            ).reg);
            lemma_apply_reg_ops_concat(
                registry@,
                diff_effect(*cached_set, old_children@[i as int], new_children@[i as int]).reg,
                diff_aligned_effect(*cached_set, old_children@, new_children@, i as int + 1).reg,
            );
        }
        if i == 0 {
            change_list.push_first_child();
        } else {
            change_list.pop_push_next_sibling();
        }
        diff(
            cached_set,
            change_list,
            registry,
            &old_children[i],
            &new_children[i],
            cached_roots,
        );
        proof {
            assert(change_list@ + diff_aligned_effect(
                *cached_set,
                old_children@,
                new_children@,
                i as int + 1,
            ).ops =~= cl_prev + diff_aligned_effect(
                *cached_set,
                old_children@,
                new_children@,
                i as int,
            ).ops);
            assert(apply_reg_ops(
                registry@,
                diff_aligned_effect(*cached_set, old_children@, new_children@, i as int + 1).reg,
            ) == apply_reg_ops(
                reg_prev,
                diff_aligned_effect(*cached_set, old_children@, new_children@, i as int).reg,
            ));
            assert(roots_of(*cached_roots).union(
                diff_aligned_effect(
                    *cached_set,
                    old_children@,
                    new_children@,
                    i as int + 1,
                ).roots,
            ) =~= roots_prev.union(
                diff_aligned_effect(*cached_set, old_children@, new_children@, i as int).roots,
            ));
        }
        i += 1;
    }
    let ghost dae0 = diff_aligned_effect(*cached_set, old_children@, new_children@, 0);
    proof {
        let dae_end = diff_aligned_effect(
            *cached_set,
            old_children@,
            new_children@,
            aligned_count as int,
        );
        assert(dae_end.ops =~= Seq::<Op>::empty());
        assert(dae_end.reg =~= Seq::<RegOp>::empty());
        assert(dae_end.roots =~= Set::<usize>::empty());
        assert(change_list@ =~= old(change_list)@ + dae0.ops);
        assert(roots_of(*cached_roots) =~= roots_of(*old(cached_roots)).union(dae0.roots));
    }
    if old_children.len() > new_children.len() {
        // The excess old children are about to be discarded: unregister
        // every listener under them before their nodes are forgotten.
        let excess_start = new_children.len();
        let ghost reg_aligned = registry@;
        let total = old_children.len();
        let mut r: usize = excess_start;
        while r < total
            invariant
                excess_start <= r <= total,
                apply_reg_ops(
                    registry@,
                    remove_children_ops(*cached_set, old_children@, r as int),
                ) == apply_reg_ops(
                    reg_aligned,
                    remove_children_ops(*cached_set, old_children@, excess_start as int),
                ),
            decreases total - r,
        {
            proof {
                lemma_seq_cache_bound_elem(old_children@, r as int);
                assert(remove_children_ops(*cached_set, old_children@, r as int)
                    =~= remove_subtree_ops(*cached_set, old_children@[r as int])
                    + remove_children_ops(*cached_set, old_children@, r as int + 1));
                lemma_apply_reg_ops_concat(
                    registry@,
                    remove_subtree_ops(*cached_set, old_children@[r as int]),
                    remove_children_ops(*cached_set, old_children@, r as int + 1),
                );
            }
            registry.remove_subtree(cached_set, &old_children[r]);
            r += 1;
        }
        change_list.pop_push_next_sibling();
        change_list.remove_self_and_next_siblings();
        proof {
            assert(remove_children_ops(*cached_set, old_children@, total as int) =~= Seq::<
                RegOp,
            >::empty());
            assert(eff.reg =~= dae0.reg + remove_children_ops(
                *cached_set,
                old_children@,
                excess_start as int,
            ));
            lemma_apply_reg_ops_concat(
                old(registry)@,
                dae0.reg,
                remove_children_ops(*cached_set, old_children@, excess_start as int),
            );
            assert(change_list@ =~= old(change_list)@ + eff.ops);
            assert(roots_of(*cached_roots) =~= roots_of(*old(cached_roots)).union(eff.roots));
        }
    } else {
        change_list.pop();
        proof {
            lemma_apply_reg_ops_concat(
                old(registry)@,
                dae0.reg,
                create_children_effect(*cached_set, new_children@, aligned_count as int).reg,
            );
            assert(eff.reg =~= dae0.reg + create_children_effect(
                *cached_set,
                new_children@,
                aligned_count as int,
            ).reg);
        }
        create_children(
            cached_set,
            change_list,
            registry,
            new_children,
            aligned_count,
            cached_roots,
        );
        proof {
            assert(change_list@ =~= old(change_list)@ + eff.ops);
            assert(roots_of(*cached_roots) =~= roots_of(*old(cached_roots)).union(eff.roots));
        }
    }
}

/// Reconciles `old_node` with `new_node`: emits into `change_list` exactly
/// the instructions that turn the rendered tree of the first into the
/// second, keeps `registry` up to date, and records into `cached_roots`
/// every cache identity the pass used.
pub fn diff(
    cached_set: &CachedSet,
    change_list: &mut ChangeListBuilder,
    registry: &mut EventsRegistry,
    old_node: &Node,
    new_node: &Node,
    cached_roots: &mut CachedRoots,
)
    requires
        cached_set.wf(),
        cache_bound(*old_node) <= cached_set@.len(),
        cache_bound(*new_node) <= cached_set@.len(),
    ensures
        final(change_list)@ == old(change_list)@ + diff_effect(
            *cached_set,
            *old_node,
            *new_node,
        ).ops,
        final(registry)@ == apply_reg_ops(
            old(registry)@,
            diff_effect(*cached_set, *old_node, *new_node).reg,
        ),
        roots_of(*final(cached_roots)) == roots_of(*old(cached_roots)).union(
            diff_effect(*cached_set, *old_node, *new_node).roots,
        ),
    decreases
        cache_bound(*old_node) + cache_bound(*new_node),
        node_size(*old_node) + node_size(*new_node),
        0int,
{
    let ghost eff = diff_effect(*cached_set, *old_node, *new_node);
    match (new_node, old_node) {
        (Node::Text { text: new_text }, Node::Text { text: old_text }) => {
            if !str_eq(new_text, old_text) {
                change_list.set_text(new_text);
            }
            proof {
                assert(change_list@ =~= old(change_list)@ + eff.ops);
                assert(roots_of(*cached_roots).union(eff.roots) =~= roots_of(*cached_roots));
            }
        },
        (Node::Text { .. }, Node::Element { .. }) => {
            create(cached_set, change_list, registry, new_node, cached_roots);
            registry.remove_subtree(cached_set, old_node);
            change_list.replace_with();
            proof {
                lemma_apply_reg_ops_concat(
                    old(registry)@,
                    create_effect(*cached_set, *new_node).reg,
                    remove_subtree_ops(*cached_set, *old_node),
                );
                assert(change_list@ =~= old(change_list)@ + eff.ops);
            }
        },
        (Node::Element { .. }, Node::Text { .. }) => {
            // A text node carries no listeners, so nothing is unregistered.
            create(cached_set, change_list, registry, new_node, cached_roots);
            change_list.replace_with();
            proof {
                assert(change_list@ =~= old(change_list)@ + eff.ops);
            }
        },
        (
            Node::Element {
                tag_name: new_tag,
                namespace: new_ns,
                attributes: new_attrs,
                listeners: new_listeners,
                children: new_kids,
            },
            Node::Element {
                tag_name: old_tag,
                namespace: old_ns,
                attributes: old_attrs,
                listeners: old_listeners,
                children: old_kids,
            },
        ) => {
            if !str_eq(new_tag, old_tag) || !opt_str_eq(new_ns, old_ns) {
                create(cached_set, change_list, registry, new_node, cached_roots);
                registry.remove_subtree(cached_set, old_node);
                change_list.replace_with();
                proof {
                    lemma_apply_reg_ops_concat(
                        old(registry)@,
                        create_effect(*cached_set, *new_node).reg,
                        remove_subtree_ops(*cached_set, *old_node),
                    );
                    assert(change_list@ =~= old(change_list)@ + eff.ops);
                }
                return ;
            }
            diff_listeners(change_list, registry, old_listeners, new_listeners);
            diff_attributes(change_list, old_attrs, new_attrs);
            proof {
                assert(seq_cache_bound(old_kids@) <= cached_set@.len());
                assert(seq_cache_bound(new_kids@) <= cached_set@.len());
            }
            diff_children(cached_set, change_list, registry, old_kids, new_kids, cached_roots);
            proof {
                let dle = diff_listeners_effect(old_listeners@, new_listeners@);
                let dao = diff_attributes_ops(old_attrs@, new_attrs@);
                let dce = diff_children_effect(*cached_set, old_kids@, new_kids@);
                assert(eff.ops =~= (dle.ops + dao) + dce.ops);
                assert(change_list@ =~= old(change_list)@ + eff.ops);
                assert(eff.reg =~= dle.reg + dce.reg);
                lemma_apply_reg_ops_concat(old(registry)@, dle.reg, dce.reg);
                assert(registry@ == apply_reg_ops(old(registry)@, eff.reg));
                lemma_patch_new_listeners_roots(old_listeners@, new_listeners@, 0);
                lemma_patch_old_listeners_roots(old_listeners@, new_listeners@, 0);
                assert(eff.roots =~= dce.roots);
                assert(roots_of(*cached_roots) =~= roots_of(*old(cached_roots)).union(
                    eff.roots,
                ));
            }
        },
        (Node::Cached { id: new_id }, Node::Cached { id: old_id }) => {
            cached_roots.insert(*new_id);
            if *new_id == *old_id {
                proof {
                    assert(change_list@ =~= old(change_list)@ + eff.ops);
                    assert(roots_of(*cached_roots) =~= roots_of(*old(cached_roots)).union(
                        eff.roots,
                    ));
                }
                return ;
            }
            proof {
                assert(cache_bound(cached_set@[*new_id as int]) <= *new_id as int);
                assert(cache_bound(cached_set@[*old_id as int]) <= *old_id as int);
            }
            let resolved_new = cached_set.get(*new_id);
            let resolved_old = cached_set.get(*old_id);
            diff(cached_set, change_list, registry, resolved_old, resolved_new, cached_roots);
            proof {
                let inner = diff_effect(
                    *cached_set,
                    cached_set@[*old_id as int],
                    cached_set@[*new_id as int],
                );
                assert(eff.roots == inner.roots.insert(*new_id));
                assert(roots_of(*cached_roots) =~= roots_of(*old(cached_roots)).union(
                    eff.roots,
                ));
            }
        },
        (Node::Cached { id: new_id }, _) => {
            cached_roots.insert(*new_id);
            proof {
                assert(cache_bound(cached_set@[*new_id as int]) <= *new_id as int);
            }
            let resolved_new = cached_set.get(*new_id);
            create(cached_set, change_list, registry, resolved_new, cached_roots);
            registry.remove_subtree(cached_set, old_node);
            change_list.replace_with();
            proof {
                let built = create_effect(*cached_set, cached_set@[*new_id as int]);
                lemma_apply_reg_ops_concat(
                    old(registry)@,
                    built.reg,
                    remove_subtree_ops(*cached_set, *old_node),
                );
                assert(change_list@ =~= old(change_list)@ + eff.ops);
                assert(eff.roots == built.roots.insert(*new_id));
                assert(roots_of(*cached_roots) =~= roots_of(*old(cached_roots)).union(
                    eff.roots,
                ));
            }
        },
        (_, Node::Cached { .. }) => {
            create(cached_set, change_list, registry, new_node, cached_roots);
            registry.remove_subtree(cached_set, old_node);
            change_list.replace_with();
            proof {
                lemma_apply_reg_ops_concat(
                    old(registry)@,
                    create_effect(*cached_set, *new_node).reg,
                    remove_subtree_ops(*cached_set, *old_node),
                );
                assert(change_list@ =~= old(change_list)@ + eff.ops);
            }
        },
    }
}

} // verus!
