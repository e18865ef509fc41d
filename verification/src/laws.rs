//! Laws of the diff engine, proved over the effect specifications: cursor
//! balance, self-diff quiescence, the cache short-circuit, what volatile
//! attributes force, and what a tag change forces.

use vstd::prelude::*;

use crate::cached_set::CachedSet;
use crate::change_list::Op;
use crate::diff::{
    attr_lookup, create_attribute_ops, create_children_effect, create_effect,
    create_listener_effect, diff_aligned_effect, diff_attributes_ops, diff_children_effect,
    diff_effect, diff_listeners_effect, has_attr_name, lemma_attr_lookup_found,
    patch_new_attributes_ops, patch_new_listeners_effect, patch_old_attributes_ops,
    patch_old_listeners_effect, replace_effect,
};
use crate::events::{
    apply_reg_ops, lemma_apply_reg_ops_concat, lemma_apply_single_add, lemma_apply_single_remove,
    RegOp,
};
use vstd::multiset::Multiset;
use crate::node::{
    cache_bound, lemma_seq_cache_bound_elem, lemma_seq_node_size_elem, node_size, opt_string_view,
    seq_cache_bound, seq_node_size, Attribute, Node,
};

verus! {

// ---------------------------------------------------------------------------
// Cursor balance
// ---------------------------------------------------------------------------

/// How one instruction moves the cursor: descending into a child counts +1,
/// ascending to the parent counts -1. `PopPushNextSibling` ascends and
/// descends at once; `RemoveSelfAndNextSiblings` leaves the cursor on the
/// parent of the removed nodes.
pub open spec fn op_depth_delta(op: Op) -> int {
    match op {
        Op::PushFirstChild => 1,
        Op::Pop => -1,
        Op::RemoveSelfAndNextSiblings => -1,
        _ => 0,
    }
}

/// The net cursor movement of an instruction sequence.
pub open spec fn depth_delta(ops: Seq<Op>) -> int
    decreases ops.len(),
{
    if ops.len() == 0 {
        0
    } else {
        op_depth_delta(ops[0]) + depth_delta(ops.drop_first())
    }
}

/// The lowest cursor depth an instruction sequence passes through, over all
/// of its prefixes (the empty prefix included, so it is never positive).
pub open spec fn min_depth(ops: Seq<Op>) -> int
    decreases ops.len(),
{
    if ops.len() == 0 {
        0
    } else {
        vstd::math::min(0, op_depth_delta(ops[0]) + min_depth(ops.drop_first()))
    }
}

pub proof fn lemma_min_depth_nonpos(ops: Seq<Op>)
    ensures
        min_depth(ops) <= 0,
{
    if ops.len() == 0 {
    } else {
    }
}

pub proof fn lemma_depth_delta_concat(a: Seq<Op>, b: Seq<Op>)
    ensures
        depth_delta(a + b) == depth_delta(a) + depth_delta(b),
        min_depth(a + b) == vstd::math::min(min_depth(a), depth_delta(a) + min_depth(b)),
    decreases a.len(),
{
    if a.len() == 0 {
        assert(a + b =~= b);
        lemma_min_depth_nonpos(b);
    } else {
        assert((a + b).drop_first() =~= a.drop_first() + b);
        assert((a + b)[0] == a[0]);
        lemma_depth_delta_concat(a.drop_first(), b);
    }
}

pub proof fn lemma_depth_delta_singleton(op: Op)
    ensures
        depth_delta(seq![op]) == op_depth_delta(op),
        min_depth(seq![op]) == vstd::math::min(0, op_depth_delta(op)),
{
    assert(seq![op].drop_first() =~= Seq::<Op>::empty());
    assert(depth_delta(Seq::<Op>::empty()) == 0);
    assert(min_depth(Seq::<Op>::empty()) == 0);
}

/// Every prefix of a sequence stays at or above its lowest depth.
pub proof fn lemma_prefix_delta_ge_min(ops: Seq<Op>, i: int)
    requires
        0 <= i <= ops.len(),
    ensures
        depth_delta(ops.take(i)) >= min_depth(ops),
    decreases ops.len(),
{
    if i == 0 {
        assert(ops.take(0) =~= Seq::<Op>::empty());
        lemma_min_depth_nonpos(ops);
    } else {
        assert(ops.take(i)[0] == ops[0]);
        assert(ops.take(i).drop_first() =~= ops.drop_first().take(i - 1));
        lemma_prefix_delta_ge_min(ops.drop_first(), i - 1);
    }
}

proof fn lemma_create_listener_ops_delta(listeners: Seq<crate::node::Listener>, i: int)
    ensures
        depth_delta(create_listener_effect(listeners, i).ops) == 0,
        min_depth(create_listener_effect(listeners, i).ops) == 0,
    decreases listeners.len() - i,
{
    if 0 <= i < listeners.len() {
        lemma_create_listener_ops_delta(listeners, i + 1);
        let op = Op::NewEventListener {
            event: listeners[i].event@,
            callback: listeners[i].callback,
        };
        lemma_depth_delta_singleton(op);
        lemma_depth_delta_concat(seq![op], create_listener_effect(listeners, i + 1).ops);
    } else {
        assert(create_listener_effect(listeners, i).ops =~= Seq::<Op>::empty());
    }
}

proof fn lemma_create_attribute_ops_delta(attrs: Seq<Attribute>, i: int)
    ensures
        depth_delta(create_attribute_ops(attrs, i)) == 0,
        min_depth(create_attribute_ops(attrs, i)) == 0,
    decreases attrs.len() - i,
{
    if 0 <= i < attrs.len() {
        lemma_create_attribute_ops_delta(attrs, i + 1);
        let op = Op::SetAttribute { name: attrs[i].name@, value: attrs[i].value@ };
        lemma_depth_delta_singleton(op);
        lemma_depth_delta_concat(seq![op], create_attribute_ops(attrs, i + 1));
    }
}

/// Building a fresh subtree never moves the cursor.
pub proof fn lemma_create_cursor_balance(cached_set: CachedSet, node: Node)
    requires
        cached_set.wf(),
        cache_bound(node) <= cached_set@.len(),
    ensures
        depth_delta(create_effect(cached_set, node).ops) == 0,
        min_depth(create_effect(cached_set, node).ops) == 0,
    decreases cache_bound(node), node_size(node), 0int,
{
    match node {
        Node::Text { text } => {
            lemma_depth_delta_singleton(Op::CreateTextNode { text: text@ });
        },
        Node::Element { tag_name, namespace, attributes, listeners, children } => {
            let head_op = match namespace {
                Some(ns) => Op::CreateElementNs { tag_name: tag_name@, namespace: ns@ },
                None => Op::CreateElement { tag_name: tag_name@ },
            };
            lemma_depth_delta_singleton(head_op);
            lemma_create_listener_ops_delta(listeners@, 0);
            lemma_create_attribute_ops_delta(attributes@, 0);
            lemma_create_children_cursor_balance(cached_set, children@, 0);
            lemma_depth_delta_concat(seq![head_op], create_listener_effect(listeners@, 0).ops);
            lemma_depth_delta_concat(
                seq![head_op] + create_listener_effect(listeners@, 0).ops,
                create_attribute_ops(attributes@, 0),
            );
            lemma_depth_delta_concat(
                (seq![head_op] + create_listener_effect(listeners@, 0).ops)
                    + create_attribute_ops(attributes@, 0),
                create_children_effect(cached_set, children@, 0).ops,
            );
        },
        Node::Cached { id } => {
            assert(cache_bound(cached_set@[id as int]) <= id as int);
            lemma_create_cursor_balance(cached_set, cached_set@[id as int]);
        },
    }
}

proof fn lemma_create_children_cursor_balance(
    cached_set: CachedSet,
    children: Seq<Node>,
    i: int,
)
    requires
        cached_set.wf(),
        seq_cache_bound(children) <= cached_set@.len(),
    ensures
        depth_delta(create_children_effect(cached_set, children, i).ops) == 0,
        min_depth(create_children_effect(cached_set, children, i).ops) == 0,
    decreases seq_cache_bound(children), seq_node_size(children), children.len() - i + 1,
{
    if 0 <= i < children.len() {
        lemma_seq_cache_bound_elem(children, i);
        lemma_seq_node_size_elem(children, i);
        lemma_create_cursor_balance(cached_set, children[i]);
        lemma_create_children_cursor_balance(cached_set, children, i + 1);
        lemma_depth_delta_singleton(Op::AppendChild);
        lemma_depth_delta_concat(
            create_effect(cached_set, children[i]).ops,
            seq![Op::AppendChild],
        );
        lemma_depth_delta_concat(
            create_effect(cached_set, children[i]).ops + seq![Op::AppendChild],
            create_children_effect(cached_set, children, i + 1).ops,
        );
    } else {
        assert(create_children_effect(cached_set, children, i).ops =~= Seq::<Op>::empty());
    }
}

proof fn lemma_patch_new_listeners_delta(
    old_listeners: Seq<crate::node::Listener>,
    new_listeners: Seq<crate::node::Listener>,
    i: int,
)
    ensures
        depth_delta(patch_new_listeners_effect(old_listeners, new_listeners, i).ops) == 0,
        min_depth(patch_new_listeners_effect(old_listeners, new_listeners, i).ops) == 0,
    decreases new_listeners.len() - i,
{
    if 0 <= i < new_listeners.len() {
        lemma_patch_new_listeners_delta(old_listeners, new_listeners, i + 1);
        let rest = patch_new_listeners_effect(old_listeners, new_listeners, i + 1).ops;
        let eff_i = patch_new_listeners_effect(old_listeners, new_listeners, i);
        let l = new_listeners[i];
        let op = if crate::diff::has_event(old_listeners, l.event@) {
            Op::UpdateEventListener { event: l.event@, callback: l.callback }
        } else {
            Op::NewEventListener { event: l.event@, callback: l.callback }
        };
        lemma_depth_delta_singleton(op);
        lemma_depth_delta_concat(seq![op], rest);
        assert(eff_i.ops == seq![op] + rest);
    } else {
        assert(patch_new_listeners_effect(old_listeners, new_listeners, i).ops =~= Seq::<
            Op,
        >::empty());
    }
}

proof fn lemma_patch_old_listeners_delta(
    old_listeners: Seq<crate::node::Listener>,
    new_listeners: Seq<crate::node::Listener>,
    i: int,
)
    ensures
        depth_delta(patch_old_listeners_effect(old_listeners, new_listeners, i).ops) == 0,
        min_depth(patch_old_listeners_effect(old_listeners, new_listeners, i).ops) == 0,
    decreases old_listeners.len() - i,
{
    if 0 <= i < old_listeners.len() {
        lemma_patch_old_listeners_delta(old_listeners, new_listeners, i + 1);
        let rest = patch_old_listeners_effect(old_listeners, new_listeners, i + 1).ops;
        let l = old_listeners[i];
        let here = if crate::diff::has_event(new_listeners, l.event@) {
            Seq::<Op>::empty()
        } else {
            seq![Op::RemoveEventListener { event: l.event@ }]
        };
        if here.len() > 0 {
            lemma_depth_delta_singleton(Op::RemoveEventListener { event: l.event@ });
        }
        lemma_depth_delta_concat(here, rest);
    } else {
        assert(patch_old_listeners_effect(old_listeners, new_listeners, i).ops =~= Seq::<
            Op,
        >::empty());
    }
}

proof fn lemma_patch_new_attributes_delta(
    old_attrs: Seq<Attribute>,
    new_attrs: Seq<Attribute>,
    i: int,
)
    ensures
        depth_delta(patch_new_attributes_ops(old_attrs, new_attrs, i)) == 0,
        min_depth(patch_new_attributes_ops(old_attrs, new_attrs, i)) == 0,
    decreases new_attrs.len() - i,
{
    if 0 <= i < new_attrs.len() {
        lemma_patch_new_attributes_delta(old_attrs, new_attrs, i + 1);
        let a = new_attrs[i];
        let op = Op::SetAttribute { name: a.name@, value: a.value@ };
        lemma_depth_delta_singleton(op);
        lemma_depth_delta_concat(seq![op], patch_new_attributes_ops(old_attrs, new_attrs, i + 1));
        lemma_depth_delta_concat(
            Seq::<Op>::empty(),
            patch_new_attributes_ops(old_attrs, new_attrs, i + 1),
        );
    }
}

proof fn lemma_patch_old_attributes_delta(
    old_attrs: Seq<Attribute>,
    new_attrs: Seq<Attribute>,
    i: int,
)
    ensures
        depth_delta(patch_old_attributes_ops(old_attrs, new_attrs, i)) == 0,
        min_depth(patch_old_attributes_ops(old_attrs, new_attrs, i)) == 0,
    decreases old_attrs.len() - i,
{
    if 0 <= i < old_attrs.len() {
        lemma_patch_old_attributes_delta(old_attrs, new_attrs, i + 1);
        let op = Op::RemoveAttribute { name: old_attrs[i].name@ };
        lemma_depth_delta_singleton(op);
        lemma_depth_delta_concat(seq![op], patch_old_attributes_ops(old_attrs, new_attrs, i + 1));
        lemma_depth_delta_concat(
            Seq::<Op>::empty(),
            patch_old_attributes_ops(old_attrs, new_attrs, i + 1),
        );
    }
}

/// Cursor balance: one reconciliation pass moves the cursor down exactly as
/// often as it moves it back up, so the cursor stands where it stood.
pub proof fn lemma_diff_cursor_balance(cached_set: CachedSet, old_node: Node, new_node: Node)
    requires
        cached_set.wf(),
        cache_bound(old_node) <= cached_set@.len(),
        cache_bound(new_node) <= cached_set@.len(),
    ensures
        depth_delta(diff_effect(cached_set, old_node, new_node).ops) == 0,
        min_depth(diff_effect(cached_set, old_node, new_node).ops) == 0,
    decreases
        cache_bound(old_node) + cache_bound(new_node),
        node_size(old_node) + node_size(new_node),
        0int,
{
    match (new_node, old_node) {
        (Node::Text { text: new_text }, Node::Text { text: old_text }) => {
            if new_text@ != old_text@ {
                lemma_depth_delta_singleton(Op::SetText { text: new_text@ });
            }
        },
        (Node::Text { .. }, Node::Element { .. }) => {
            lemma_replace_delta(cached_set, old_node, new_node);
        },
        (Node::Element { .. }, Node::Text { .. }) => {
            lemma_replace_delta(cached_set, old_node, new_node);
        },
        (
            Node::Element {
                tag_name: new_tag,
                namespace: new_ns,
                attributes: new_attrs,
                listeners: new_listeners,
                children: new_kids,
            },
            Node::Element {
                tag_name: old_tag,
                namespace: old_ns,
                attributes: old_attrs,
                listeners: old_listeners,
                children: old_kids,
            },
        ) => {
            if new_tag@ != old_tag@ || opt_string_view(new_ns) != opt_string_view(old_ns) {
                lemma_replace_delta(cached_set, old_node, new_node);
            } else {
                let dle = diff_listeners_effect(old_listeners@, new_listeners@);
                let dao = diff_attributes_ops(old_attrs@, new_attrs@);
                lemma_patch_new_listeners_delta(old_listeners@, new_listeners@, 0);
                lemma_patch_old_listeners_delta(old_listeners@, new_listeners@, 0);
                lemma_depth_delta_concat(
                    patch_new_listeners_effect(old_listeners@, new_listeners@, 0).ops,
                    patch_old_listeners_effect(old_listeners@, new_listeners@, 0).ops,
                );
                lemma_patch_new_attributes_delta(old_attrs@, new_attrs@, 0);
                lemma_patch_old_attributes_delta(old_attrs@, new_attrs@, 0);
                lemma_depth_delta_concat(
                    patch_new_attributes_ops(old_attrs@, new_attrs@, 0),
                    patch_old_attributes_ops(old_attrs@, new_attrs@, 0),
                );
                lemma_diff_children_cursor_balance(cached_set, old_kids@, new_kids@);
                lemma_depth_delta_concat(dle.ops, dao);
                lemma_depth_delta_concat(
                    dle.ops + dao,
                    diff_children_effect(cached_set, old_kids@, new_kids@).ops,
                );
            }
        },
        (Node::Cached { id: new_id }, Node::Cached { id: old_id }) => {
            if new_id != old_id {
                assert(cache_bound(cached_set@[new_id as int]) <= new_id as int);
                assert(cache_bound(cached_set@[old_id as int]) <= old_id as int);
                lemma_diff_cursor_balance(
                    cached_set,
                    cached_set@[old_id as int],
                    cached_set@[new_id as int],
                );
            }
        },
        (Node::Cached { id: new_id }, _) => {
            assert(cache_bound(cached_set@[new_id as int]) <= new_id as int);
            lemma_replace_delta(cached_set, old_node, cached_set@[new_id as int]);
        },
        (_, Node::Cached { .. }) => {
            lemma_replace_delta(cached_set, old_node, new_node);
        },
    }
}

proof fn lemma_replace_delta(cached_set: CachedSet, old_node: Node, built: Node)
    requires
        cached_set.wf(),
        cache_bound(built) <= cached_set@.len(),
    ensures
        depth_delta(replace_effect(cached_set, old_node, built).ops) == 0,
        min_depth(replace_effect(cached_set, old_node, built).ops) == 0,
        depth_delta(create_effect(cached_set, built).ops + seq![Op::ReplaceWith]) == 0,
        min_depth(create_effect(cached_set, built).ops + seq![Op::ReplaceWith]) == 0,
{
    lemma_create_cursor_balance(cached_set, built);
    lemma_depth_delta_singleton(Op::ReplaceWith);
    lemma_depth_delta_concat(create_effect(cached_set, built).ops, seq![Op::ReplaceWith]);
}

/// Cursor balance over a whole sibling list: by the time `diff_children`
/// returns, its descents and ascents cancel out exactly.
pub proof fn lemma_diff_children_cursor_balance(
    cached_set: CachedSet,
    old_children: Seq<Node>,
    new_children: Seq<Node>,
)
    requires
        cached_set.wf(),
        seq_cache_bound(old_children) <= cached_set@.len(),
        seq_cache_bound(new_children) <= cached_set@.len(),
    ensures
        depth_delta(diff_children_effect(cached_set, old_children, new_children).ops) == 0,
        min_depth(diff_children_effect(cached_set, old_children, new_children).ops) == 0,
    decreases
        seq_cache_bound(old_children) + seq_cache_bound(new_children),
        seq_node_size(old_children) + seq_node_size(new_children),
        new_children.len() + 2,
{
    if new_children.len() == 0 {
        if old_children.len() > 0 {
            lemma_depth_delta_singleton(Op::SetText { text: Seq::empty() });
        }
    } else if old_children.len() == 0 {
        lemma_create_children_cursor_balance(cached_set, new_children, 0);
    } else {
        let aligned = diff_aligned_effect(cached_set, old_children, new_children, 0);
        lemma_aligned_delta(cached_set, old_children, new_children, 0);
        if old_children.len() > new_children.len() {
            let tail = seq![Op::PopPushNextSibling, Op::RemoveSelfAndNextSiblings];
            assert(tail =~= seq![Op::PopPushNextSibling] + seq![
                Op::RemoveSelfAndNextSiblings,
            ]);
            lemma_depth_delta_singleton(Op::PopPushNextSibling);
            lemma_depth_delta_singleton(Op::RemoveSelfAndNextSiblings);
            lemma_depth_delta_concat(
                seq![Op::PopPushNextSibling],
                seq![Op::RemoveSelfAndNextSiblings],
            );
            lemma_depth_delta_concat(aligned.ops, tail);
        } else {
            lemma_depth_delta_singleton(Op::Pop);
            lemma_create_children_cursor_balance(
                cached_set,
                new_children,
                old_children.len() as int,
            );
            lemma_depth_delta_concat(aligned.ops, seq![Op::Pop]);
            lemma_depth_delta_concat(
                aligned.ops + seq![Op::Pop],
                create_children_effect(cached_set, new_children, old_children.len() as int).ops,
            );
        }
    }
}

proof fn lemma_aligned_delta(
    cached_set: CachedSet,
    old_children: Seq<Node>,
    new_children: Seq<Node>,
    i: int,
)
    requires
        cached_set.wf(),
        seq_cache_bound(old_children) <= cached_set@.len(),
        seq_cache_bound(new_children) <= cached_set@.len(),
        0 <= i,
    ensures
        depth_delta(diff_aligned_effect(cached_set, old_children, new_children, i).ops) == (
        if i == 0 && vstd::math::min(old_children.len() as int, new_children.len() as int) > 0 {
            1int
        } else {
            0int
        }),
        min_depth(diff_aligned_effect(cached_set, old_children, new_children, i).ops) == 0,
    decreases
        seq_cache_bound(old_children) + seq_cache_bound(new_children),
        seq_node_size(old_children) + seq_node_size(new_children),
        vstd::math::min(old_children.len() as int, new_children.len() as int) - i + 1,
{
    let aligned_count = vstd::math::min(old_children.len() as int, new_children.len() as int);
    if i < aligned_count {
        lemma_seq_cache_bound_elem(old_children, i);
        lemma_seq_node_size_elem(old_children, i);
        lemma_seq_cache_bound_elem(new_children, i);
        lemma_seq_node_size_elem(new_children, i);
        lemma_diff_cursor_balance(cached_set, old_children[i], new_children[i]);
        lemma_aligned_delta(cached_set, old_children, new_children, i + 1);
        let cursor_op = if i == 0 {
            Op::PushFirstChild
        } else {
            Op::PopPushNextSibling
        };
        lemma_depth_delta_singleton(cursor_op);
        lemma_depth_delta_concat(
            diff_effect(cached_set, old_children[i], new_children[i]).ops,
            diff_aligned_effect(cached_set, old_children, new_children, i + 1).ops,
        );
        lemma_depth_delta_concat(
            seq![cursor_op],
            diff_effect(cached_set, old_children[i], new_children[i]).ops + diff_aligned_effect(
                cached_set,
                old_children,
                new_children,
                i + 1,
            ).ops,
        );
    }
}


/// Cursor safety over one reconciliation pass: the net movement is zero and
/// no prefix of the emitted stream ever takes the cursor above where it
/// started — descents always come before their matching ascents.
pub proof fn lemma_diff_cursor_never_underflows(
    cached_set: CachedSet,
    old_node: Node,
    new_node: Node,
)
    requires
        cached_set.wf(),
        cache_bound(old_node) <= cached_set@.len(),
        cache_bound(new_node) <= cached_set@.len(),
    ensures
        depth_delta(diff_effect(cached_set, old_node, new_node).ops) == 0,
        forall|i: int|
            0 <= i <= diff_effect(cached_set, old_node, new_node).ops.len() ==> depth_delta(
                diff_effect(cached_set, old_node, new_node).ops.take(i),
            ) >= 0,
{
    let ops = diff_effect(cached_set, old_node, new_node).ops;
    lemma_diff_cursor_balance(cached_set, old_node, new_node);
    assert forall|i: int| 0 <= i <= ops.len() implies depth_delta(ops.take(i)) >= 0 by {
        lemma_prefix_delta_ge_min(ops, i);
    }
}

/// Cursor safety over a sibling-list pass: the net movement is zero and no
/// prefix of the emitted stream dips below the entry depth.
pub proof fn lemma_diff_children_cursor_never_underflows(
    cached_set: CachedSet,
    old_children: Seq<Node>,
    new_children: Seq<Node>,
)
    requires
        cached_set.wf(),
        seq_cache_bound(old_children) <= cached_set@.len(),
        seq_cache_bound(new_children) <= cached_set@.len(),
    ensures
        depth_delta(diff_children_effect(cached_set, old_children, new_children).ops) == 0,
        forall|i: int|
            0 <= i <= diff_children_effect(cached_set, old_children, new_children).ops.len()
                ==> depth_delta(
                diff_children_effect(cached_set, old_children, new_children).ops.take(i),
            ) >= 0,
{
    let ops = diff_children_effect(cached_set, old_children, new_children).ops;
    lemma_diff_children_cursor_balance(cached_set, old_children, new_children);
    assert forall|i: int| 0 <= i <= ops.len() implies depth_delta(ops.take(i)) >= 0 by {
        lemma_prefix_delta_ge_min(ops, i);
    }
}

// ---------------------------------------------------------------------------
// Self-diff quiescence
// ---------------------------------------------------------------------------

/// Whether an instruction only moves the cursor and mutates nothing.
pub open spec fn is_cursor_op(op: Op) -> bool {
    match op {
        Op::PushFirstChild => true,
        Op::PopPushNextSibling => true,
        Op::Pop => true,
        _ => false,
    }
}

/// Whether a sequence of instructions only moves the cursor.
pub open spec fn cursor_only(ops: Seq<Op>) -> bool {
    forall|i: int| 0 <= i < ops.len() ==> is_cursor_op(ops[i])
}

proof fn lemma_cursor_only_concat(a: Seq<Op>, b: Seq<Op>)
    requires
        cursor_only(a),
        cursor_only(b),
    ensures
        cursor_only(a + b),
{
    assert forall|i: int| 0 <= i < (a + b).len() implies is_cursor_op((a + b)[i]) by {
        if i < a.len() {
            assert((a + b)[i] == a[i]);
        } else {
            assert((a + b)[i] == b[i - a.len()]);
        }
    }
}

/// Whether every attribute name in the sequence appears once.
pub open spec fn attr_names_unique(attrs: Seq<Attribute>) -> bool {
    forall|i: int, j: int| 0 <= i < j < attrs.len() ==> attrs[i].name@ != attrs[j].name@
}

/// A tree on which diffing against itself mutates nothing: no listeners
/// anywhere (patching re-announces each listener), no volatile attribute
/// (those are re-set on every pass), and no element with two attributes of
/// one name (the scan would compare against the first). Content behind a
/// cached reference does not matter: equal identities short-circuit.
pub open spec fn quiet(node: Node) -> bool
    decreases node,
{
    match node {
        Node::Text { .. } => true,
        Node::Cached { .. } => true,
        Node::Element { attributes, listeners, children, .. } => listeners@.len() == 0
            && attr_names_unique(attributes@) && (forall|i: int|
            0 <= i < attributes@.len() ==> !attributes@[i].is_volatile) && quiet_children(
            children@,
        ),
    }
}

/// Whether every tree of a sequence is quiet.
pub open spec fn quiet_children(nodes: Seq<Node>) -> bool
    decreases nodes,
{
    if nodes.len() == 0 {
        true
    } else {
        quiet(nodes[0]) && quiet_children(nodes.drop_first())
    }
}

proof fn lemma_quiet_children_elem(nodes: Seq<Node>, i: int)
    requires
        quiet_children(nodes),
        0 <= i < nodes.len(),
    ensures
        quiet(nodes[i]),
    decreases nodes.len(),
{
    if i > 0 {
        lemma_quiet_children_elem(nodes.drop_first(), i - 1);
        assert(nodes.drop_first()[i - 1] == nodes[i]);
    }
}

proof fn lemma_patch_new_attributes_no_ops(
    old_attrs: Seq<Attribute>,
    new_attrs: Seq<Attribute>,
    i: int,
)
    requires
        forall|k: int|
            0 <= k < new_attrs.len() ==> !new_attrs[k].is_volatile && attr_lookup(
                old_attrs,
                new_attrs[k].name@,
            ) == Some(new_attrs[k].value@),
    ensures
        patch_new_attributes_ops(old_attrs, new_attrs, i) == Seq::<Op>::empty(),
    decreases new_attrs.len() - i,
{
    if 0 <= i < new_attrs.len() {
        lemma_patch_new_attributes_no_ops(old_attrs, new_attrs, i + 1);
        assert(patch_new_attributes_ops(old_attrs, new_attrs, i) =~= Seq::<Op>::empty());
    } else {
        assert(patch_new_attributes_ops(old_attrs, new_attrs, i) =~= Seq::<Op>::empty());
    }
}

proof fn lemma_patch_old_attributes_no_ops(
    old_attrs: Seq<Attribute>,
    new_attrs: Seq<Attribute>,
    i: int,
)
    requires
        forall|k: int|
            0 <= k < old_attrs.len() ==> has_attr_name(new_attrs, old_attrs[k].name@),
    ensures
        patch_old_attributes_ops(old_attrs, new_attrs, i) == Seq::<Op>::empty(),
    decreases old_attrs.len() - i,
{
    if 0 <= i < old_attrs.len() {
        lemma_patch_old_attributes_no_ops(old_attrs, new_attrs, i + 1);
        assert(patch_old_attributes_ops(old_attrs, new_attrs, i) =~= Seq::<Op>::empty());
    } else {
        assert(patch_old_attributes_ops(old_attrs, new_attrs, i) =~= Seq::<Op>::empty());
    }
}

/// Unchanged attributes emit nothing: when every new attribute is
/// non-volatile and already holds in the old list with the same value, and
/// every old attribute name is still carried, the attribute pass is silent.
pub proof fn lemma_unchanged_attributes_no_ops(
    old_attrs: Seq<Attribute>,
    new_attrs: Seq<Attribute>,
)
    requires
        forall|k: int|
            0 <= k < new_attrs.len() ==> !new_attrs[k].is_volatile && attr_lookup(
                old_attrs,
                new_attrs[k].name@,
            ) == Some(new_attrs[k].value@),
        forall|k: int|
            0 <= k < old_attrs.len() ==> has_attr_name(new_attrs, old_attrs[k].name@),
    ensures
        diff_attributes_ops(old_attrs, new_attrs) == Seq::<Op>::empty(),
{
    lemma_patch_new_attributes_no_ops(old_attrs, new_attrs, 0);
    lemma_patch_old_attributes_no_ops(old_attrs, new_attrs, 0);
    assert(diff_attributes_ops(old_attrs, new_attrs) =~= Seq::<Op>::empty());
}

proof fn lemma_diff_attributes_self(attrs: Seq<Attribute>)
    requires
        attr_names_unique(attrs),
        forall|i: int| 0 <= i < attrs.len() ==> !attrs[i].is_volatile,
    ensures
        diff_attributes_ops(attrs, attrs) == Seq::<Op>::empty(),
{
    assert forall|k: int| 0 <= k < attrs.len() implies attr_lookup(attrs, attrs[k].name@)
        == Some(attrs[k].value@) by {
        lemma_attr_lookup_found(attrs, attrs[k].name@, k);
    }
    assert forall|k: int| 0 <= k < attrs.len() implies has_attr_name(attrs, attrs[k].name@) by {
        assert(attrs[k].name@ == attrs[k].name@);
    }
    lemma_unchanged_attributes_no_ops(attrs, attrs);
}

/// Idempotence: diffing a quiet tree against itself mutates nothing — every
/// instruction it emits (one cursor descent per non-empty child list, with
/// its matching moves and ascent) only repositions the cursor, and the
/// registry is left exactly as it was. A leaf emits nothing at all.
pub proof fn lemma_diff_self_quiescent(cached_set: CachedSet, tree: Node)
    requires
        cached_set.wf(),
        cache_bound(tree) <= cached_set@.len(),
        quiet(tree),
    ensures
        cursor_only(diff_effect(cached_set, tree, tree).ops),
        diff_effect(cached_set, tree, tree).reg == Seq::<RegOp>::empty(),
        (tree matches Node::Text { .. } || tree matches Node::Cached { .. }) ==> diff_effect(
            cached_set,
            tree,
            tree,
        ).ops == Seq::<Op>::empty(),
    decreases cache_bound(tree) + cache_bound(tree), node_size(tree) + node_size(tree), 0int,
{
    match tree {
        Node::Text { .. } => {
            assert(cursor_only(Seq::<Op>::empty()));
        },
        Node::Cached { .. } => {
            assert(cursor_only(Seq::<Op>::empty()));
        },
        Node::Element { tag_name, namespace, attributes, listeners, children } => {
            let dle = diff_listeners_effect(listeners@, listeners@);
            assert(patch_new_listeners_effect(listeners@, listeners@, 0).ops =~= Seq::<
                Op,
            >::empty());
            assert(patch_new_listeners_effect(listeners@, listeners@, 0).reg =~= Seq::<
                RegOp,
            >::empty());
            assert(patch_old_listeners_effect(listeners@, listeners@, 0).ops =~= Seq::<
                Op,
            >::empty());
            assert(patch_old_listeners_effect(listeners@, listeners@, 0).reg =~= Seq::<
                RegOp,
            >::empty());
            lemma_diff_attributes_self(attributes@);
            lemma_diff_children_self_quiescent(cached_set, children@);
            let dce = diff_children_effect(cached_set, children@, children@);
            assert(diff_effect(cached_set, tree, tree).ops =~= dce.ops);
            assert(diff_effect(cached_set, tree, tree).reg =~= dce.reg);
        },
    }
}

/// Self-diffing a quiet sibling list only repositions the cursor and leaves
/// the registry alone; an empty list emits nothing.
pub proof fn lemma_diff_children_self_quiescent(cached_set: CachedSet, children: Seq<Node>)
    requires
        cached_set.wf(),
        seq_cache_bound(children) <= cached_set@.len(),
        quiet_children(children),
    ensures
        cursor_only(diff_children_effect(cached_set, children, children).ops),
        diff_children_effect(cached_set, children, children).reg == Seq::<RegOp>::empty(),
        children.len() == 0 ==> diff_children_effect(cached_set, children, children).ops
            == Seq::<Op>::empty(),
    decreases
        seq_cache_bound(children) + seq_cache_bound(children),
        seq_node_size(children) + seq_node_size(children),
        children.len() + 2,
{
    if children.len() == 0 {
        assert(cursor_only(Seq::<Op>::empty()));
    } else {
        lemma_aligned_self_quiescent(cached_set, children, 0);
        let aligned = diff_aligned_effect(cached_set, children, children, 0);
        let tail_created = create_children_effect(cached_set, children, children.len() as int);
        assert(tail_created.ops =~= Seq::<Op>::empty());
        assert(tail_created.reg =~= Seq::<RegOp>::empty());
        assert(cursor_only(seq![Op::Pop]));
        lemma_cursor_only_concat(aligned.ops, seq![Op::Pop]);
        lemma_cursor_only_concat(aligned.ops + seq![Op::Pop], tail_created.ops);
        assert(diff_children_effect(cached_set, children, children).reg =~= aligned.reg);
    }
}

proof fn lemma_aligned_self_quiescent(cached_set: CachedSet, children: Seq<Node>, i: int)
    requires
        cached_set.wf(),
        seq_cache_bound(children) <= cached_set@.len(),
        quiet_children(children),
        0 <= i,
    ensures
        cursor_only(diff_aligned_effect(cached_set, children, children, i).ops),
        diff_aligned_effect(cached_set, children, children, i).reg == Seq::<RegOp>::empty(),
    decreases
        seq_cache_bound(children) + seq_cache_bound(children),
        seq_node_size(children) + seq_node_size(children),
        children.len() - i + 1,
{
    if i >= children.len() {
        assert(cursor_only(Seq::<Op>::empty()));
    } else {
        lemma_seq_cache_bound_elem(children, i);
        lemma_seq_node_size_elem(children, i);
        lemma_quiet_children_elem(children, i);
        lemma_diff_self_quiescent(cached_set, children[i]);
        lemma_aligned_self_quiescent(cached_set, children, i + 1);
        let cursor_op = if i == 0 {
            Op::PushFirstChild
        } else {
            Op::PopPushNextSibling
        };
        let pair = diff_effect(cached_set, children[i], children[i]);
        let rest = diff_aligned_effect(cached_set, children, children, i + 1);
        assert(cursor_only(seq![cursor_op]));
        lemma_cursor_only_concat(pair.ops, rest.ops);
        lemma_cursor_only_concat(seq![cursor_op], pair.ops + rest.ops);
        assert(diff_aligned_effect(cached_set, children, children, i).reg =~= Seq::<
            RegOp,
        >::empty());
    }
}

// ---------------------------------------------------------------------------
// Cache short-circuit, volatile attributes, tag change
// ---------------------------------------------------------------------------

/// Text against text: equal texts emit nothing; differing texts emit
/// exactly one text update, and nothing else happens either way.
pub proof fn lemma_text_diff(cached_set: CachedSet, old_node: Node, new_node: Node)
    requires
        cached_set.wf(),
        old_node matches Node::Text { .. },
        new_node matches Node::Text { .. },
    ensures
        old_node matches Node::Text { text: old_text } ==> (new_node matches Node::Text {
            text: new_text,
        } ==> diff_effect(cached_set, old_node, new_node).ops == (if new_text@ == old_text@ {
            Seq::<Op>::empty()
        } else {
            seq![Op::SetText { text: new_text@ }]
        })),
        diff_effect(cached_set, old_node, new_node).reg == Seq::<RegOp>::empty(),
        diff_effect(cached_set, old_node, new_node).roots == Set::<usize>::empty(),
{
}

/// Cache short-circuit: diffing two cached references with the same
/// identity does no work at all — no instruction, no registry operation —
/// and records exactly that identity.
pub proof fn lemma_cache_short_circuit(cached_set: CachedSet, id: usize)
    requires
        cached_set.wf(),
        (id as int) < cached_set@.len(),
    ensures
        diff_effect(cached_set, Node::Cached { id }, Node::Cached { id }).ops == Seq::<
            Op,
        >::empty(),
        diff_effect(cached_set, Node::Cached { id }, Node::Cached { id }).reg == Seq::<
            RegOp,
        >::empty(),
        diff_effect(cached_set, Node::Cached { id }, Node::Cached { id }).roots == Set::<
            usize,
        >::empty().insert(id),
{
}

proof fn lemma_seq_contains_concat<T>(a: Seq<T>, b: Seq<T>, x: T)
    requires
        a.contains(x) || b.contains(x),
    ensures
        (a + b).contains(x),
{
    if a.contains(x) {
        let k = choose|k: int| 0 <= k < a.len() && a[k] == x;
        assert((a + b)[k] == x);
    } else {
        let k = choose|k: int| 0 <= k < b.len() && b[k] == x;
        assert((a + b)[a.len() + k] == x);
    }
}

proof fn lemma_patch_new_attributes_contains_volatile(
    old_attrs: Seq<Attribute>,
    new_attrs: Seq<Attribute>,
    i: int,
    j: int,
)
    requires
        0 <= i <= j < new_attrs.len(),
        new_attrs[j].is_volatile,
    ensures
        patch_new_attributes_ops(old_attrs, new_attrs, i).contains(
            Op::SetAttribute { name: new_attrs[j].name@, value: new_attrs[j].value@ },
        ),
    decreases j - i,
{
    let op = Op::SetAttribute { name: new_attrs[j].name@, value: new_attrs[j].value@ };
    if i == j {
        assert(patch_new_attributes_ops(old_attrs, new_attrs, i)[0] == op);
        assert(patch_new_attributes_ops(old_attrs, new_attrs, i).contains(op));
    } else {
        lemma_patch_new_attributes_contains_volatile(old_attrs, new_attrs, i + 1, j);
        let a = new_attrs[i];
        let here = if a.is_volatile {
            seq![Op::SetAttribute { name: a.name@, value: a.value@ }]
        } else {
            match attr_lookup(old_attrs, a.name@) {
                Some(v) => if v == a.value@ {
                    Seq::<Op>::empty()
                } else {
                    seq![Op::SetAttribute { name: a.name@, value: a.value@ }]
                },
                None => seq![Op::SetAttribute { name: a.name@, value: a.value@ }],
            }
        };
        lemma_seq_contains_concat(
            here,
            patch_new_attributes_ops(old_attrs, new_attrs, i + 1),
            op,
        );
    }
}

/// A volatile attribute is set again on every pass, whatever the old
/// element held.
pub proof fn lemma_volatile_attribute_always_set(
    old_attrs: Seq<Attribute>,
    new_attrs: Seq<Attribute>,
    j: int,
)
    requires
        0 <= j < new_attrs.len(),
        new_attrs[j].is_volatile,
    ensures
        diff_attributes_ops(old_attrs, new_attrs).contains(
            Op::SetAttribute { name: new_attrs[j].name@, value: new_attrs[j].value@ },
        ),
{
    lemma_patch_new_attributes_contains_volatile(old_attrs, new_attrs, 0, j);
    lemma_seq_contains_concat(
        patch_new_attributes_ops(old_attrs, new_attrs, 0),
        patch_old_attributes_ops(old_attrs, new_attrs, 0),
        Op::SetAttribute { name: new_attrs[j].name@, value: new_attrs[j].value@ },
    );
}

/// A tag or namespace change forces a full replacement: the new subtree is
/// built afresh and swapped in, the old subtree's listeners are all
/// unregistered, and no element-level patching is attempted.
pub proof fn lemma_tag_change_replaces(cached_set: CachedSet, old_node: Node, new_node: Node)
    requires
        cached_set.wf(),
        cache_bound(old_node) <= cached_set@.len(),
        cache_bound(new_node) <= cached_set@.len(),
        old_node matches Node::Element { .. },
        new_node matches Node::Element { .. },
        !(old_node matches Node::Element { tag_name: old_tag, namespace: old_ns, .. }
            && new_node matches Node::Element { tag_name: new_tag, namespace: new_ns, .. }
            && new_tag@ == old_tag@ && opt_string_view(new_ns) == opt_string_view(old_ns)),
    ensures
        diff_effect(cached_set, old_node, new_node) == replace_effect(
            cached_set,
            old_node,
            new_node,
        ),
{
}


// ---------------------------------------------------------------------------
// Self-diff registry identity
// ---------------------------------------------------------------------------

/// The multiset of keys of the listeners from `i` on.
pub open spec fn listener_keys_from(
    listeners: Seq<crate::node::Listener>,
    i: int,
) -> Multiset<(Seq<char>, u64)>
    decreases listeners.len() - i,
{
    if i < 0 || i >= listeners.len() {
        Multiset::empty()
    } else {
        listener_keys_from(listeners, i + 1).insert(crate::node::listener_key(listeners[i]))
    }
}

proof fn lemma_patch_new_listeners_reg_adds(
    old_listeners: Seq<crate::node::Listener>,
    new_listeners: Seq<crate::node::Listener>,
    i: int,
    m: Multiset<(Seq<char>, u64)>,
)
    ensures
        apply_reg_ops(m, patch_new_listeners_effect(old_listeners, new_listeners, i).reg)
            == m.add(listener_keys_from(new_listeners, i)),
    decreases new_listeners.len() - i,
{
    if 0 <= i < new_listeners.len() {
        let key = crate::node::listener_key(new_listeners[i]);
        let rest = patch_new_listeners_effect(old_listeners, new_listeners, i + 1).reg;
        assert(patch_new_listeners_effect(old_listeners, new_listeners, i).reg =~= seq![
            crate::events::add_op(new_listeners[i]),
        ] + rest);
        lemma_apply_reg_ops_concat(m, seq![crate::events::add_op(new_listeners[i])], rest);
        lemma_apply_single_add(m, new_listeners[i]);
        lemma_patch_new_listeners_reg_adds(old_listeners, new_listeners, i + 1, m.insert(key));
        assert(m.insert(key).add(listener_keys_from(new_listeners, i + 1)) =~= m.add(
            listener_keys_from(new_listeners, i),
        ));
    } else {
        assert(patch_new_listeners_effect(old_listeners, new_listeners, i).reg =~= Seq::<
            RegOp,
        >::empty());
        assert(m.add(Multiset::empty()) =~= m);
    }
}

proof fn lemma_patch_old_listeners_reg_cancels(
    old_listeners: Seq<crate::node::Listener>,
    new_listeners: Seq<crate::node::Listener>,
    i: int,
    m: Multiset<(Seq<char>, u64)>,
)
    ensures
        apply_reg_ops(
            m.add(listener_keys_from(old_listeners, i)),
            patch_old_listeners_effect(old_listeners, new_listeners, i).reg,
        ) == m,
    decreases old_listeners.len() - i,
{
    if 0 <= i < old_listeners.len() {
        let key = crate::node::listener_key(old_listeners[i]);
        let whole = m.add(listener_keys_from(old_listeners, i));
        let rest = patch_old_listeners_effect(old_listeners, new_listeners, i + 1).reg;
        assert(patch_old_listeners_effect(old_listeners, new_listeners, i).reg =~= seq![
            crate::events::remove_op(old_listeners[i]),
        ] + rest);
        lemma_apply_reg_ops_concat(
            whole,
            seq![crate::events::remove_op(old_listeners[i])],
            rest,
        );
        lemma_apply_single_remove(whole, old_listeners[i]);
        assert(whole.remove(key) =~= m.add(listener_keys_from(old_listeners, i + 1)));
        lemma_patch_old_listeners_reg_cancels(old_listeners, new_listeners, i + 1, m);
    } else {
        assert(patch_old_listeners_effect(old_listeners, new_listeners, i).reg =~= Seq::<
            RegOp,
        >::empty());
        assert(m.add(listener_keys_from(old_listeners, i)) =~= m);
    }
}

/// Patching a listener list against itself leaves the registry exactly as
/// it was: every listener is re-registered and then unregistered once.
pub proof fn lemma_diff_listeners_self_registry_identity(
    listeners: Seq<crate::node::Listener>,
    m: Multiset<(Seq<char>, u64)>,
)
    ensures
        apply_reg_ops(m, diff_listeners_effect(listeners, listeners).reg) == m,
{
    lemma_apply_reg_ops_concat(
        m,
        patch_new_listeners_effect(listeners, listeners, 0).reg,
        patch_old_listeners_effect(listeners, listeners, 0).reg,
    );
    lemma_patch_new_listeners_reg_adds(listeners, listeners, 0, m);
    lemma_patch_old_listeners_reg_cancels(listeners, listeners, 0, m);
}

/// Idempotence at the registry: one pass of a tree against itself, whatever
/// listeners it carries, leaves the registry exactly as it was.
pub proof fn lemma_diff_self_registry_identity(
    cached_set: CachedSet,
    tree: Node,
    m: Multiset<(Seq<char>, u64)>,
)
    requires
        cached_set.wf(),
        cache_bound(tree) <= cached_set@.len(),
    ensures
        apply_reg_ops(m, diff_effect(cached_set, tree, tree).reg) == m,
    decreases cache_bound(tree) + cache_bound(tree), node_size(tree) + node_size(tree), 0int,
{
    match tree {
        Node::Text { .. } => {},
        Node::Cached { .. } => {},
        Node::Element { tag_name, namespace, attributes, listeners, children } => {
            let dle = diff_listeners_effect(listeners@, listeners@);
            let dce = diff_children_effect(cached_set, children@, children@);
            assert(diff_effect(cached_set, tree, tree).reg =~= dle.reg + dce.reg);
            lemma_apply_reg_ops_concat(m, dle.reg, dce.reg);
            lemma_diff_listeners_self_registry_identity(listeners@, m);
            lemma_diff_children_self_registry_identity(cached_set, children@, m);
        },
    }
}

/// Idempotence at the registry over a sibling list.
pub proof fn lemma_diff_children_self_registry_identity(
    cached_set: CachedSet,
    children: Seq<Node>,
    m: Multiset<(Seq<char>, u64)>,
)
    requires
        cached_set.wf(),
        seq_cache_bound(children) <= cached_set@.len(),
    ensures
        apply_reg_ops(m, diff_children_effect(cached_set, children, children).reg) == m,
    decreases
        seq_cache_bound(children) + seq_cache_bound(children),
        seq_node_size(children) + seq_node_size(children),
        children.len() + 2,
{
    if children.len() == 0 {
    } else {
        let aligned = diff_aligned_effect(cached_set, children, children, 0);
        let tail_created = create_children_effect(cached_set, children, children.len() as int);
        assert(tail_created.reg =~= Seq::<RegOp>::empty());
        assert(diff_children_effect(cached_set, children, children).reg =~= aligned.reg);
        lemma_aligned_self_registry_identity(cached_set, children, 0, m);
    }
}

proof fn lemma_aligned_self_registry_identity(
    cached_set: CachedSet,
    children: Seq<Node>,
    i: int,
    m: Multiset<(Seq<char>, u64)>,
)
    requires
        cached_set.wf(),
        seq_cache_bound(children) <= cached_set@.len(),
        0 <= i,
    ensures
        apply_reg_ops(m, diff_aligned_effect(cached_set, children, children, i).reg) == m,
    decreases
        seq_cache_bound(children) + seq_cache_bound(children),
        seq_node_size(children) + seq_node_size(children),
        children.len() - i + 1,
{
    if i >= children.len() {
    } else {
        lemma_seq_cache_bound_elem(children, i);
        lemma_seq_node_size_elem(children, i);
        let pair = diff_effect(cached_set, children[i], children[i]);
        let rest = diff_aligned_effect(cached_set, children, children, i + 1);
        assert(diff_aligned_effect(cached_set, children, children, i).reg =~= pair.reg
            + rest.reg);
        lemma_apply_reg_ops_concat(m, pair.reg, rest.reg);
        lemma_diff_self_registry_identity(cached_set, children[i], m);
        lemma_aligned_self_registry_identity(cached_set, children, i + 1, m);
    }
}

} // verus!
