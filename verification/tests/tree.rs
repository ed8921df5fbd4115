use sycamore_mac::emitter::EventEmitter;
use sycamore_mac::model::{ChildConstraint, Direction, InnerTextUpdate, MacNode, NodeKind, WidgetUpdate};
use sycamore_mac::node::MacTree;

fn ids(nodes: &[MacNode]) -> Vec<usize> {
    nodes.iter().map(|n| n.0).collect()
}

#[test]
fn element_tags_are_recognised() {
    assert!(MacTree::is_element_tag("view"));
    assert!(MacTree::is_element_tag("button"));
    assert!(MacTree::is_element_tag("input"));
    assert!(!MacTree::is_element_tag("div"));
    assert!(!MacTree::is_element_tag(""));
    assert!(!MacTree::is_element_tag("View"));
}

#[test]
fn element_view_is_an_empty_vertical_view() {
    let mut t = MacTree::new();
    let v = t.element("view");
    assert_eq!(v.0, 0);
    assert_eq!(t.len(), 1);
    assert_eq!(t.kind(v), NodeKind::View);
    assert_eq!(t.direction(v), Some(Direction::Veritcal));
    assert!(t.children(v).is_empty());
    assert!(t.parent(v).is_none());
    assert_eq!(t.text(v), None);
}

#[test]
fn element_button_and_input_start_empty() {
    let mut t = MacTree::new();
    let b = t.element("button");
    let i = t.element("input");
    assert_eq!((b.0, i.0), (0, 1));
    assert_eq!(t.kind(b), NodeKind::Button);
    assert_eq!(t.kind(i), NodeKind::Input);
    assert_eq!(t.text(b), Some(String::new()));
    assert_eq!(t.text(i), Some(String::new()));
    assert_eq!(t.direction(b), None);
    assert!(t.text_did_change(i).is_empty());
}

#[test]
fn text_node_shows_its_text() {
    let mut t = MacTree::new();
    let l = t.text_node("hello world");
    assert_eq!(t.kind(l), NodeKind::Text);
    assert_eq!(t.text(l), Some("hello world".to_string()));
    assert!(t.parent(l).is_none());
}

#[test]
fn handles_name_their_own_tree() {
    let mut t = MacTree::new();
    let a = t.text_node("a");
    assert!(t.contains(a));
    assert!(!t.contains(MacNode(1)));
}

#[test]
fn value_attribute_sets_button_title() {
    let mut t = MacTree::new();
    let b = t.element("button");
    assert_eq!(t.set_attribute(b, "value", "hey"), WidgetUpdate::ButtonTitle);
    assert_eq!(t.text(b), Some("hey".to_string()));
}

#[test]
fn value_attribute_sets_field_text() {
    let mut t = MacTree::new();
    let i = t.element("input");
    assert_eq!(t.set_attribute(i, "value", "hey"), WidgetUpdate::FieldText);
    assert_eq!(t.text(i), Some("hey".to_string()));
}

#[test]
fn other_attributes_and_nodes_are_unsupported() {
    let mut t = MacTree::new();
    let b = t.element("button");
    let l = t.text_node("label");
    let v = t.element("view");
    assert_eq!(t.set_attribute(b, "class", "big"), WidgetUpdate::Unsupported);
    assert_eq!(t.text(b), Some(String::new()));
    assert_eq!(t.set_attribute(l, "value", "new"), WidgetUpdate::Unsupported);
    assert_eq!(t.text(l), Some("label".to_string()));
    assert_eq!(t.set_attribute(v, "value", "x"), WidgetUpdate::Unsupported);
    assert!(t.children(v).is_empty());
}

#[test]
fn last_attribute_write_wins() {
    let mut t = MacTree::new();
    let i = t.element("input");
    t.set_attribute(i, "value", "one");
    t.set_attribute(i, "value", "two");
    assert_eq!(t.text(i), Some("two".to_string()));
}

#[test]
fn first_child_goes_to_the_top() {
    let mut t = MacTree::new();
    let v = t.element("view");
    let c = t.text_node("child");
    let placement = t.append_child(v, c);
    assert_eq!(placement.len(), 4);
    assert!(matches!(placement[0], ChildConstraint::AlignLeft));
    assert!(matches!(placement[1], ChildConstraint::FixedHeight { points: 200 }));
    assert!(matches!(placement[2], ChildConstraint::WidthAtMostParent));
    assert!(matches!(placement[3], ChildConstraint::TopAtParentTop));
    assert_eq!(ids(&t.children(v)), vec![c.0]);
}

#[test]
fn later_children_stack_below_the_previous_one() {
    let mut t = MacTree::new();
    let v = t.element("view");
    let a = t.text_node("a");
    let b = t.element("button");
    let c = t.element("input");
    t.append_child(v, a);
    let pb = t.append_child(v, b);
    let pc = t.append_child(v, c);
    assert!(matches!(pb[3], ChildConstraint::TopBelow { sibling, priority: 20 } if sibling.0 == a.0));
    assert!(matches!(pc[3], ChildConstraint::TopBelow { sibling, priority: 20 } if sibling.0 == b.0));
    assert_eq!(ids(&t.children(v)), vec![a.0, b.0, c.0]);
}

#[test]
fn appending_makes_the_view_its_own_parent() {
    let mut t = MacTree::new();
    let v = t.element("view");
    let c = t.text_node("c");
    t.append_child(v, c);
    assert_eq!(t.parent(v).map(|p| p.0), Some(v.0));
    assert!(t.parent(c).is_none());
}

#[test]
fn insert_child_before_appends() {
    let mut t = MacTree::new();
    let v = t.element("view");
    let a = t.text_node("a");
    let b = t.text_node("b");
    t.append_child(v, a);
    let placement = t.insert_child_before(v, b, Some(a));
    assert!(matches!(placement[3], ChildConstraint::TopBelow { sibling, .. } if sibling.0 == a.0));
    assert_eq!(ids(&t.children(v)), vec![a.0, b.0]);
}

#[test]
fn empty_inner_text_empties_a_view() {
    let mut t = MacTree::new();
    let v = t.element("view");
    let a = t.text_node("a");
    let b = t.text_node("b");
    t.append_child(v, a);
    t.append_child(v, b);
    match t.update_inner_text(v, "") {
        InnerTextUpdate::ChildrenRemoved(removed) => assert_eq!(ids(&removed), vec![a.0, b.0]),
        InnerTextUpdate::Attribute(_) => panic!("expected the children to be removed"),
    }
    assert!(t.children(v).is_empty());
    let c = t.text_node("c");
    let placement = t.append_child(v, c);
    assert!(matches!(placement[3], ChildConstraint::TopAtParentTop));
}

#[test]
fn inner_text_sets_the_value_elsewhere() {
    let mut t = MacTree::new();
    let b = t.element("button");
    let v = t.element("view");
    let l = t.text_node("l");
    assert!(matches!(t.update_inner_text(b, "title"), InnerTextUpdate::Attribute(WidgetUpdate::ButtonTitle)));
    assert_eq!(t.text(b), Some("title".to_string()));
    assert!(matches!(t.update_inner_text(b, ""), InnerTextUpdate::Attribute(WidgetUpdate::ButtonTitle)));
    assert_eq!(t.text(b), Some(String::new()));
    assert!(matches!(t.update_inner_text(v, "text"), InnerTextUpdate::Attribute(WidgetUpdate::Unsupported)));
    assert!(matches!(t.update_inner_text(l, "x"), InnerTextUpdate::Attribute(WidgetUpdate::Unsupported)));
    assert_eq!(t.text(l), Some("l".to_string()));
}

#[test]
fn value_events_bind_to_text_fields_in_order() {
    let mut t = MacTree::new();
    let i = t.element("input");
    assert!(t.event(i, "value", 7));
    assert!(t.event(i, "value", 3));
    assert!(!t.event(i, "click", 9));
    assert_eq!(t.text_did_change(i), vec![7, 3]);
    assert_eq!(t.text(i), Some(String::new()));
}

#[test]
fn events_on_other_nodes_are_ignored() {
    let mut t = MacTree::new();
    let b = t.element("button");
    let v = t.element("view");
    assert!(!t.event(b, "value", 1));
    assert!(!t.event(v, "value", 1));
}

#[test]
fn fresh_elements_of_a_tag_are_equal() {
    let mut t = MacTree::new();
    let v1 = t.element("view");
    let v2 = t.element("view");
    let b1 = t.element("button");
    let b2 = t.element("button");
    assert!(t.has_finite_depth(v1));
    assert!(t.node_eq(v1, v2));
    assert!(t.node_eq(b1, b2));
    assert!(!t.node_eq(v1, b1));
}

#[test]
fn labels_are_equal_when_their_texts_are() {
    let mut t = MacTree::new();
    let a = t.text_node("x");
    let b = t.text_node("x");
    let c = t.text_node("y");
    assert!(t.node_eq(a, b));
    assert!(!t.node_eq(a, c));
    assert!(t.node_eq(a, a));
}

#[test]
fn different_kinds_with_same_text_differ() {
    let mut t = MacTree::new();
    let b = t.element("button");
    let i = t.element("input");
    assert!(!t.node_eq(b, i));
    assert!(!t.node_eq(i, b));
}

#[test]
fn text_fields_compare_by_text_not_handlers() {
    let mut t = MacTree::new();
    let i = t.element("input");
    let j = t.element("input");
    t.event(i, "value", 4);
    assert!(t.node_eq(i, j));
    t.set_attribute(j, "value", "typed");
    assert!(!t.node_eq(i, j));
    t.set_attribute(i, "value", "typed");
    assert!(t.node_eq(i, j));
}

#[test]
fn views_compare_children_pairwise() {
    let mut t = MacTree::new();
    let v = t.element("view");
    let w = t.element("view");
    let a = t.text_node("a");
    let b = t.text_node("a");
    t.append_child(v, a);
    assert!(!t.node_eq(v, w));
    t.append_child(w, b);
    assert!(t.node_eq(v, w));
    let c = t.text_node("c");
    let d = t.text_node("d");
    t.append_child(v, c);
    t.append_child(w, d);
    assert!(!t.node_eq(v, w));
}

#[test]
fn equality_ignores_parents() {
    let mut t = MacTree::new();
    let v = t.element("view");
    let w = t.element("view");
    let inner_v = t.element("view");
    let inner_w = t.element("view");
    t.append_child(v, inner_v);
    t.append_child(w, inner_w);
    assert!(t.parent(v).is_some());
    let x = t.element("view");
    let y = t.element("view");
    t.append_child(x, y);
    assert!(t.node_eq(v, w));
    assert!(t.node_eq(v, x));
}

#[test]
fn a_view_holding_itself_has_no_finite_depth() {
    let mut t = MacTree::new();
    let v = t.element("view");
    let w = t.element("view");
    t.append_child(w, v);
    assert!(t.has_finite_depth(w));
    t.append_child(v, v);
    assert!(!t.has_finite_depth(v));
    assert!(!t.has_finite_depth(w));
    let l = t.text_node("leaf");
    assert!(t.has_finite_depth(l));
}

#[test]
fn emitter_runs_handlers_in_binding_order() {
    let mut e = EventEmitter::new();
    assert!(e.text_did_change().is_empty());
    e.add_callback(2);
    e.add_callback(0);
    e.add_callback(2);
    assert_eq!(e.text_did_change(), vec![2, 0, 2]);
    assert_eq!(e.debug_text(), "EventEmitter");
}

#[test]
fn equality_is_transitive_across_views() {
    let mut t = MacTree::new();
    let mut views = Vec::new();
    for _ in 0..3 {
        let v = t.element("view");
        let l = t.text_node("same");
        t.append_child(v, l);
        views.push(v);
    }
    assert!(t.node_eq(views[0], views[1]));
    assert!(t.node_eq(views[1], views[2]));
    assert!(t.node_eq(views[0], views[2]));
    assert!(t.node_eq(views[2], views[0]));
}

#[test]
fn appending_a_node_that_cannot_reach_the_parent_keeps_depth_finite() {
    let mut t = MacTree::new();
    let root = t.element("view");
    let mid = t.element("view");
    let leaf = t.text_node("leaf");
    t.append_child(mid, leaf);
    t.append_child(root, mid);
    let other = t.element("view");
    t.append_child(other, mid);
    t.append_child(root, other);
    for id in 0..t.len() {
        assert!(t.has_finite_depth(MacNode(id)));
    }
    // `root` reaches `mid`, so appending `root` under `mid` closes a cycle.
    t.append_child(mid, root);
    assert!(!t.has_finite_depth(root));
}

#[test]
fn a_cyclic_view_compares_with_a_finite_one() {
    let mut t = MacTree::new();
    let v = t.element("view");
    let w = t.element("view");
    t.append_child(v, v);
    assert!(!t.has_finite_depth(v));
    assert!(t.comparison_ends(v, w));
    assert!(t.comparison_ends(w, v));
    assert!(!t.node_eq(v, w));
    assert!(!t.node_eq(w, v));
    assert_eq!(t.compare_within(v, w, 1), Some(false));
}

#[test]
fn cyclic_views_that_differ_early_compare() {
    let mut t = MacTree::new();
    let v = t.element("view");
    let w = t.element("view");
    let x = t.text_node("x");
    let y = t.text_node("y");
    t.append_child(v, x);
    t.append_child(v, v);
    t.append_child(w, y);
    t.append_child(w, w);
    assert!(t.comparison_ends(v, w));
    assert!(!t.node_eq(v, w));
}

#[test]
fn cyclic_views_that_keep_matching_never_end() {
    let mut t = MacTree::new();
    let v = t.element("view");
    let w = t.element("view");
    t.append_child(v, v);
    t.append_child(w, w);
    assert!(!t.comparison_ends(v, w));
    assert!(!t.comparison_ends(v, v));
    assert_eq!(t.compare_within(v, w, 50), None);
}
