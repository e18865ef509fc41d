use vdom_diff::cached_set::CachedSet;
use vdom_diff::change_list::{ChangeListBuilder, Instruction};
use vdom_diff::diff::{diff, diff_attributes, diff_children, remove_children};
use vdom_diff::events::EventsRegistry;
use vdom_diff::node::{Attribute, Listener, Node};
use vdom_diff::roots::CachedRoots;

fn text(s: &str) -> Node {
    Node::Text { text: s.to_string() }
}

fn elem(tag: &str, children: Vec<Node>) -> Node {
    Node::Element {
        tag_name: tag.to_string(),
        namespace: None,
        attributes: vec![],
        listeners: vec![],
        children,
    }
}

fn elem_full(
    tag: &str,
    attributes: Vec<Attribute>,
    listeners: Vec<Listener>,
    children: Vec<Node>,
) -> Node {
    Node::Element {
        tag_name: tag.to_string(),
        namespace: None,
        attributes,
        listeners,
        children,
    }
}

fn attr(name: &str, value: &str, is_volatile: bool) -> Attribute {
    Attribute { name: name.to_string(), value: value.to_string(), is_volatile }
}

fn listener(event: &str, callback: u64) -> Listener {
    Listener { event: event.to_string(), callback }
}

struct Run {
    instructions: Vec<Instruction>,
    registry: EventsRegistry,
    roots: CachedRoots,
}

fn run_diff(cached_set: &CachedSet, old: &Node, new: &Node) -> Run {
    let mut change_list = ChangeListBuilder::new();
    let mut registry = EventsRegistry::new();
    let mut roots = CachedRoots::new();
    diff(cached_set, &mut change_list, &mut registry, old, new, &mut roots);
    Run { instructions: change_list.instructions().clone(), registry, roots }
}

fn set_text(s: &str) -> Instruction {
    Instruction::SetText { text: s.to_string() }
}

#[test]
fn text_equal_emits_nothing() {
    let cs = CachedSet::new();
    let run = run_diff(&cs, &text("a"), &text("a"));
    assert_eq!(run.instructions, Vec::<Instruction>::new());
    assert_eq!(run.registry.count(), 0);
}

#[test]
fn text_changed_emits_one_set_text() {
    let cs = CachedSet::new();
    let run = run_diff(&cs, &text("a"), &text("b"));
    assert_eq!(run.instructions, vec![set_text("b")]);
}

#[test]
fn self_diff_of_leaf_element_emits_nothing() {
    let cs = CachedSet::new();
    let t = elem_full("div", vec![attr("class", "x", false)], vec![], vec![]);
    let u = elem_full("div", vec![attr("class", "x", false)], vec![], vec![]);
    let run = run_diff(&cs, &t, &u);
    assert_eq!(run.instructions, Vec::<Instruction>::new());
}

#[test]
fn self_diff_of_cached_emits_nothing() {
    let mut cs = CachedSet::new();
    let id = cs.register(text("cached"));
    let run = run_diff(&cs, &Node::Cached { id }, &Node::Cached { id });
    assert_eq!(run.instructions, Vec::<Instruction>::new());
}

#[test]
fn self_diff_with_children_emits_only_cursor_moves() {
    let cs = CachedSet::new();
    let old = elem("div", vec![text("a"), elem("p", vec![text("b")])]);
    let new = elem("div", vec![text("a"), elem("p", vec![text("b")])]);
    let run = run_diff(&cs, &old, &new);
    for ins in &run.instructions {
        assert!(matches!(
            ins,
            Instruction::PushFirstChild | Instruction::PopPushNextSibling | Instruction::Pop
        ));
    }
    assert_eq!(run.registry.count(), 0);
}

#[test]
fn cache_short_circuit_records_root_and_does_nothing() {
    let mut cs = CachedSet::new();
    for i in 0..5 {
        cs.register(text(&format!("filler {}", i)));
    }
    let id5 = cs.register(text("the cached tree"));
    assert_eq!(id5, 5);
    let run = run_diff(&cs, &Node::Cached { id: 5 }, &Node::Cached { id: 5 });
    assert_eq!(run.instructions, Vec::<Instruction>::new());
    assert!(run.roots.contains(5));
    assert_eq!(run.roots.len(), 1);
    assert_eq!(run.registry.count(), 0);
}

#[test]
fn cache_divergence_diffs_resolved_trees() {
    let mut cs = CachedSet::new();
    let id0 = cs.register(text("filler"));
    let id1 = cs.register(text("x"));
    let id2 = cs.register(text("y"));
    assert_eq!((id0, id1, id2), (0, 1, 2));
    let run = run_diff(&cs, &Node::Cached { id: 1 }, &Node::Cached { id: 2 });
    assert_eq!(run.instructions, vec![set_text("y")]);
    assert!(run.roots.contains(2));
    assert!(!run.roots.contains(1));
    assert_eq!(run.roots.len(), 1);
}

#[test]
fn children_shrink_removes_excess_siblings() {
    let cs = CachedSet::new();
    let old = elem("div", vec![text("a"), text("b"), text("c")]);
    let new = elem("div", vec![text("a")]);
    let run = run_diff(&cs, &old, &new);
    assert_eq!(
        run.instructions,
        vec![
            Instruction::PushFirstChild,
            Instruction::PopPushNextSibling,
            Instruction::RemoveSelfAndNextSiblings,
        ]
    );
}

#[test]
fn children_growth_creates_and_appends_in_order() {
    let cs = CachedSet::new();
    let old = elem("div", vec![text("a")]);
    let new = elem("div", vec![text("a"), text("b"), text("c")]);
    let run = run_diff(&cs, &old, &new);
    assert_eq!(
        run.instructions,
        vec![
            Instruction::PushFirstChild,
            Instruction::Pop,
            Instruction::CreateTextNode { text: "b".to_string() },
            Instruction::AppendChild,
            Instruction::CreateTextNode { text: "c".to_string() },
            Instruction::AppendChild,
        ]
    );
}

#[test]
fn volatile_attribute_is_always_reset() {
    let cs = CachedSet::new();
    let old = elem_full("input", vec![attr("value", "same", true)], vec![], vec![]);
    let new = elem_full("input", vec![attr("value", "same", true)], vec![], vec![]);
    let run = run_diff(&cs, &old, &new);
    assert_eq!(
        run.instructions,
        vec![Instruction::SetAttribute { name: "value".to_string(), value: "same".to_string() }]
    );
}

#[test]
fn unchanged_nonvolatile_attribute_emits_nothing() {
    let cs = CachedSet::new();
    let old = elem_full("input", vec![attr("class", "same", false)], vec![], vec![]);
    let new = elem_full("input", vec![attr("class", "same", false)], vec![], vec![]);
    let run = run_diff(&cs, &old, &new);
    assert_eq!(run.instructions, Vec::<Instruction>::new());
}

#[test]
fn changed_added_and_dropped_attributes() {
    let mut change_list = ChangeListBuilder::new();
    let old = vec![attr("a", "1", false), attr("b", "2", false)];
    let new = vec![attr("a", "3", false), attr("c", "4", false)];
    diff_attributes(&mut change_list, &old, &new);
    assert_eq!(
        change_list.instructions().clone(),
        vec![
            Instruction::SetAttribute { name: "a".to_string(), value: "3".to_string() },
            Instruction::SetAttribute { name: "c".to_string(), value: "4".to_string() },
            Instruction::RemoveAttribute { name: "b".to_string() },
        ]
    );
}

#[test]
fn tag_change_recreates_and_replaces() {
    let cs = CachedSet::new();
    let old = elem_full(
        "div",
        vec![attr("class", "x", false)],
        vec![listener("click", 7)],
        vec![text("t")],
    );
    let new = elem("span", vec![text("t")]);
    let mut change_list = ChangeListBuilder::new();
    let mut registry = EventsRegistry::new();
    let mut roots = CachedRoots::new();
    // The committed tree's listeners are registered before the pass.
    registry.add(&listener("click", 7));
    assert_eq!(registry.count(), 1);
    diff(&cs, &mut change_list, &mut registry, &old, &new, &mut roots);
    assert_eq!(
        change_list.instructions().clone(),
        vec![
            Instruction::CreateElement { tag_name: "span".to_string() },
            Instruction::CreateTextNode { text: "t".to_string() },
            Instruction::AppendChild,
            Instruction::ReplaceWith,
        ]
    );
    // The old subtree's listener was unregistered.
    assert_eq!(registry.count(), 0);
}

#[test]
fn namespace_change_recreates_and_replaces() {
    let cs = CachedSet::new();
    let old = elem("svg", vec![]);
    let new = Node::Element {
        tag_name: "svg".to_string(),
        namespace: Some("http://www.w3.org/2000/svg".to_string()),
        attributes: vec![],
        listeners: vec![],
        children: vec![],
    };
    let run = run_diff(&cs, &old, &new);
    assert_eq!(
        run.instructions,
        vec![
            Instruction::CreateElementNs {
                tag_name: "svg".to_string(),
                namespace: "http://www.w3.org/2000/svg".to_string(),
            },
            Instruction::ReplaceWith,
        ]
    );
}

#[test]
fn text_replaces_element() {
    let cs = CachedSet::new();
    let old = elem("div", vec![]);
    let new = text("plain");
    let run = run_diff(&cs, &old, &new);
    assert_eq!(
        run.instructions,
        vec![
            Instruction::CreateTextNode { text: "plain".to_string() },
            Instruction::ReplaceWith,
        ]
    );
}

#[test]
fn element_replaces_text() {
    let cs = CachedSet::new();
    let old = text("plain");
    let new = elem("div", vec![]);
    let run = run_diff(&cs, &old, &new);
    assert_eq!(
        run.instructions,
        vec![
            Instruction::CreateElement { tag_name: "div".to_string() },
            Instruction::ReplaceWith,
        ]
    );
}

#[test]
fn new_cached_over_plain_old_replaces_and_records() {
    let mut cs = CachedSet::new();
    let id = cs.register(text("memoized"));
    let old = text("plain");
    let run = run_diff(&cs, &old, &Node::Cached { id });
    assert_eq!(
        run.instructions,
        vec![
            Instruction::CreateTextNode { text: "memoized".to_string() },
            Instruction::ReplaceWith,
        ]
    );
    assert!(run.roots.contains(id));
    assert_eq!(run.roots.len(), 1);
}

#[test]
fn plain_new_over_cached_old_replaces() {
    let mut cs = CachedSet::new();
    let id = cs.register(text("memoized"));
    let old = Node::Cached { id };
    let run = run_diff(&cs, &old, &text("plain"));
    assert_eq!(
        run.instructions,
        vec![
            Instruction::CreateTextNode { text: "plain".to_string() },
            Instruction::ReplaceWith,
        ]
    );
    assert_eq!(run.roots.len(), 0);
    assert!(!run.roots.contains(id));
}

#[test]
fn updated_listener_is_rebound_in_place() {
    let cs = CachedSet::new();
    let old = elem_full("button", vec![], vec![listener("click", 1)], vec![]);
    let new = elem_full("button", vec![], vec![listener("click", 2)], vec![]);
    let run = run_diff(&cs, &old, &new);
    assert_eq!(
        run.instructions,
        vec![Instruction::UpdateEventListener { event: "click".to_string(), callback: 2 }]
    );
    // The new listener stays registered, the old one was taken out.
    assert_eq!(run.registry.count(), 1);
}

#[test]
fn fresh_and_dropped_listeners() {
    let cs = CachedSet::new();
    let old = elem_full("button", vec![], vec![listener("blur", 1)], vec![]);
    let new = elem_full("button", vec![], vec![listener("click", 2)], vec![]);
    let run = run_diff(&cs, &old, &new);
    assert_eq!(
        run.instructions,
        vec![
            Instruction::NewEventListener { event: "click".to_string(), callback: 2 },
            Instruction::RemoveEventListener { event: "blur".to_string() },
        ]
    );
    assert_eq!(run.registry.count(), 1);
}

#[test]
fn clearing_children_unregisters_and_resets_text() {
    let cs = CachedSet::new();
    let child = elem_full("button", vec![], vec![listener("click", 9)], vec![]);
    let old = vec![child];
    let mut change_list = ChangeListBuilder::new();
    let mut registry = EventsRegistry::new();
    registry.add(&listener("click", 9));
    remove_children(&cs, &mut change_list, &mut registry, &old);
    assert_eq!(change_list.instructions().clone(), vec![set_text("")]);
    assert_eq!(registry.count(), 0);
}

#[test]
fn diff_children_from_empty_creates_everything() {
    let cs = CachedSet::new();
    let old = vec![];
    let new = vec![text("a"), text("b")];
    let mut change_list = ChangeListBuilder::new();
    let mut registry = EventsRegistry::new();
    let mut roots = CachedRoots::new();
    diff_children(&cs, &mut change_list, &mut registry, &old, &new, &mut roots);
    assert_eq!(
        change_list.instructions().clone(),
        vec![
            Instruction::CreateTextNode { text: "a".to_string() },
            Instruction::AppendChild,
            Instruction::CreateTextNode { text: "b".to_string() },
            Instruction::AppendChild,
        ]
    );
}

#[test]
fn created_element_registers_listeners_and_sets_attributes() {
    let mut cs = CachedSet::new();
    let inner = cs.register(text("deep"));
    let old = text("gone");
    let new = elem_full(
        "form",
        vec![attr("action", "/go", false)],
        vec![listener("submit", 3)],
        vec![Node::Cached { id: inner }],
    );
    let run = run_diff(&cs, &old, &new);
    assert_eq!(
        run.instructions,
        vec![
            Instruction::CreateElement { tag_name: "form".to_string() },
            Instruction::NewEventListener { event: "submit".to_string(), callback: 3 },
            Instruction::SetAttribute { name: "action".to_string(), value: "/go".to_string() },
            Instruction::CreateTextNode { text: "deep".to_string() },
            Instruction::AppendChild,
            Instruction::ReplaceWith,
        ]
    );
    assert_eq!(run.registry.count(), 1);
    assert!(run.roots.contains(inner));
}

fn cursor_delta(instructions: &[Instruction]) -> i64 {
    let mut depth: i64 = 0;
    for ins in instructions {
        match ins {
            Instruction::PushFirstChild => depth += 1,
            Instruction::Pop => depth -= 1,
            Instruction::RemoveSelfAndNextSiblings => depth -= 1,
            _ => {}
        }
        // The cursor never climbs above the node the pass started on.
        assert!(depth >= 0);
    }
    depth
}

#[test]
fn cursor_depth_is_balanced_over_nested_diffs() {
    let mut cs = CachedSet::new();
    let id = cs.register(elem("li", vec![text("cached item")]));
    let old = elem(
        "ul",
        vec![
            elem("li", vec![text("one"), text("extra")]),
            elem("li", vec![text("two")]),
            Node::Cached { id },
        ],
    );
    let new = elem(
        "ul",
        vec![
            elem("li", vec![text("one changed")]),
            elem("li", vec![text("two"), text("three")]),
        ],
    );
    let run = run_diff(&cs, &old, &new);
    assert_eq!(cursor_delta(&run.instructions), 0);

    let run_back = run_diff(&cs, &new, &old);
    assert_eq!(cursor_delta(&run_back.instructions), 0);
}

#[test]
fn first_old_attribute_of_a_name_decides() {
    let mut change_list = ChangeListBuilder::new();
    let old = vec![attr("a", "1", false), attr("a", "2", false)];
    let new = vec![attr("a", "1", false)];
    diff_attributes(&mut change_list, &old, &new);
    assert_eq!(change_list.instructions().clone(), Vec::<Instruction>::new());
}

#[test]
fn self_diff_with_listener_keeps_registry_unchanged() {
    let cs = CachedSet::new();
    let old = elem_full("button", vec![], vec![listener("click", 4)], vec![]);
    let new = elem_full("button", vec![], vec![listener("click", 4)], vec![]);
    let mut change_list = ChangeListBuilder::new();
    let mut registry = EventsRegistry::new();
    let mut roots = CachedRoots::new();
    // The committed tree's listener is registered before the pass.
    registry.add(&listener("click", 4));
    diff(&cs, &mut change_list, &mut registry, &old, &new, &mut roots);
    assert_eq!(
        change_list.instructions().clone(),
        vec![Instruction::UpdateEventListener { event: "click".to_string(), callback: 4 }]
    );
    assert_eq!(registry.count(), 1);
}

#[test]
fn children_shrink_unregisters_discarded_listeners() {
    let cs = CachedSet::new();
    let button = elem_full("button", vec![], vec![listener("click", 11)], vec![]);
    let old = elem("div", vec![text("a"), button]);
    let new = elem("div", vec![text("a")]);
    let mut change_list = ChangeListBuilder::new();
    let mut registry = EventsRegistry::new();
    let mut roots = CachedRoots::new();
    // The committed tree's listener is registered before the pass.
    registry.add(&listener("click", 11));
    diff(&cs, &mut change_list, &mut registry, &old, &new, &mut roots);
    assert_eq!(
        change_list.instructions().clone(),
        vec![
            Instruction::PushFirstChild,
            Instruction::PopPushNextSibling,
            Instruction::RemoveSelfAndNextSiblings,
        ]
    );
    // The discarded child's listener is no longer registered.
    assert_eq!(registry.count(), 0);
}

#[test]
fn children_shrink_unregisters_cached_subtree_listeners() {
    let mut cs = CachedSet::new();
    let id = cs.register(elem_full("a", vec![], vec![listener("focus", 12)], vec![]));
    let old = elem("div", vec![text("a"), Node::Cached { id }]);
    let new = elem("div", vec![text("a")]);
    let mut change_list = ChangeListBuilder::new();
    let mut registry = EventsRegistry::new();
    let mut roots = CachedRoots::new();
    registry.add(&listener("focus", 12));
    diff(&cs, &mut change_list, &mut registry, &old, &new, &mut roots);
    assert_eq!(registry.count(), 0);
}
