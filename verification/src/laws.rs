use vstd::prelude::*;

use crate::depth::{lemma_depth_at_most_size, reaches};
use crate::equality::{
    comparison_ends, finite_depth, lemma_node_eq_spec_at, node_eq_spec, walk_ends, within_depth,
};
use crate::equality::nodes_equal;
use crate::model::{
    attribute_update, clears_children, kind_of, WidgetUpdate, child_constraints, children_of, detached, element_content, is_element_tag, tree_with_attribute,
    tree_with_child, tree_with_handler, tree_with_inner_text, tree_wf, ChildConstraint, MacNode,
    NodeContent, NodeState,
};

verus! {

/// Two elements created from the same tag are equal.
pub proof fn law_fresh_elements_equal(t: Seq<NodeState>, tag: Seq<char>)
    requires
        tree_wf(t),
        is_element_tag(tag),
    ensures
        ({
            let u = t.push(detached(element_content(tag))).push(detached(element_content(tag)));
            comparison_ends(u, t.len(), t.len() + 1) && node_eq_spec(u, t.len(), t.len() + 1)
        }),
{
    let u = t.push(detached(element_content(tag))).push(detached(element_content(tag)));
    assert(u[t.len() as int].content == element_content(tag));
    assert(u[t.len() + 1int].content == element_content(tag));
    assert(walk_ends(u, t.len(), t.len() + 1, 1));
    lemma_node_eq_spec_at(u, t.len(), t.len() + 1, 1);
}

/// Two labels are equal exactly when they show the same text.
pub proof fn law_text_nodes_equal_iff_same_text(t: Seq<NodeState>, x: Seq<char>, y: Seq<char>)
    requires
        tree_wf(t),
    ensures
        ({
            let u = t.push(detached(NodeContent::Text { text: x })).push(
                detached(NodeContent::Text { text: y }),
            );
            comparison_ends(u, t.len(), t.len() + 1) && node_eq_spec(u, t.len(), t.len() + 1)
                == (x == y)
        }),
{
    let u = t.push(detached(NodeContent::Text { text: x })).push(
        detached(NodeContent::Text { text: y }),
    );
    assert(u[t.len() as int].content == NodeContent::Text { text: x });
    assert(u[t.len() + 1int].content == NodeContent::Text { text: y });
    assert(walk_ends(u, t.len(), t.len() + 1, 1));
    lemma_node_eq_spec_at(u, t.len(), t.len() + 1, 1);
}

/// Setting an attribute twice is setting it to the second value: the last write wins.
pub proof fn law_attribute_last_write_wins(
    t: Seq<NodeState>,
    n: nat,
    name: Seq<char>,
    first: Seq<char>,
    second: Seq<char>,
)
    requires
        tree_wf(t),
        n < t.len(),
    ensures
        tree_with_attribute(tree_with_attribute(t, n, name, first), n, name, second)
            == tree_with_attribute(t, n, name, second),
{
    assert(tree_with_attribute(tree_with_attribute(t, n, name, first), n, name, second)
        =~= tree_with_attribute(t, n, name, second));
}

/// A button or text field shows the value that was last set: after the
/// "value" attribute is set to `v`, its text is `v`.
pub proof fn law_value_reads_back(t: Seq<NodeState>, n: nat, v: Seq<char>)
    requires
        tree_wf(t),
        n < t.len(),
        t[n as int].content is Button || t[n as int].content is Input,
    ensures
        match tree_with_attribute(t, n, "value"@, v)[n as int].content {
            NodeContent::Button { text } => text == v,
            NodeContent::Input { text, .. } => text == v,
            _ => false,
        },
{
}

/// Two buttons (or two text fields) set to the same value are equal,
/// whatever they showed before.
pub proof fn law_same_value_makes_equal(t: Seq<NodeState>, a: nat, b: nat, v: Seq<char>)
    requires
        tree_wf(t),
        a < t.len(),
        b < t.len(),
        (t[a as int].content is Button && t[b as int].content is Button) || (
        t[a as int].content is Input && t[b as int].content is Input),
    ensures
        ({
            let u = tree_with_attribute(tree_with_attribute(t, a, "value"@, v), b, "value"@, v);
            comparison_ends(u, a, b) && node_eq_spec(u, a, b)
        }),
{
    let u1 = tree_with_attribute(t, a, "value"@, v);
    let u = tree_with_attribute(u1, b, "value"@, v);
    assert(walk_ends(u, a, b, 1));
    lemma_node_eq_spec_at(u, a, b, 1);
}

/// Children keep the order in which they were appended, and each one is
/// placed below the one appended just before it.
pub proof fn law_children_in_append_order(t: Seq<NodeState>, p: nat, first: nat, second: nat)
    requires
        tree_wf(t),
        p < t.len(),
        first < t.len(),
        second < t.len(),
        t[p as int].content is View,
    ensures
        ({
            let u = tree_with_child(t, p, first);
            let w = tree_with_child(u, p, second);
            &&& children_of(w, p) == children_of(t, p).push(first).push(second)
            &&& child_constraints(children_of(u, p))[3] == (ChildConstraint::TopBelow {
                sibling: MacNode(first as usize),
                priority: 20,
            })
        }),
{
    let u = tree_with_child(t, p, first);
    assert(children_of(u, p) == children_of(t, p).push(first));
    assert(children_of(u, p).last() == first);
}

/// Emptying a view starts its stacking afresh: the next child appended goes
/// to the top of the view.
pub proof fn law_emptied_view_restacks_from_top(t: Seq<NodeState>, p: nat, child: nat)
    requires
        tree_wf(t),
        p < t.len(),
        t[p as int].content is View,
    ensures
        ({
            let u = tree_with_inner_text(t, p, Seq::empty());
            &&& children_of(u, p) == Seq::<nat>::empty()
            &&& child_constraints(children_of(u, p))[3] == ChildConstraint::TopAtParentTop
            &&& children_of(tree_with_child(u, p, child), p) == seq![child]
        }),
{
    let u = tree_with_inner_text(t, p, Seq::empty());
    assert(children_of(u, p) =~= Seq::<nat>::empty());
    assert(children_of(tree_with_child(u, p, child), p) =~= seq![child]);
}

/// Handlers bound to a text field run in the order in which they were bound.
pub proof fn law_handlers_in_binding_order(t: Seq<NodeState>, n: nat, first: usize, second: usize)
    requires
        tree_wf(t),
        n < t.len(),
        t[n as int].content is Input,
    ensures
        ({
            let w = tree_with_handler(tree_with_handler(t, n, "value"@, first), n, "value"@, second);
            match (t[n as int].content, w[n as int].content) {
                (NodeContent::Input { callbacks: before, .. }, NodeContent::Input { callbacks: after, .. }) =>
                    after == before.push(first).push(second),
                _ => false,
            }
        }),
{
}

/// A node within `depth` levels lies within any greater number of levels.
pub proof fn lemma_within_depth_monotone(t: Seq<NodeState>, y: nat, depth: nat, more: nat)
    requires
        within_depth(t, y, depth),
        depth <= more,
    ensures
        within_depth(t, y, more),
    decreases depth,
{
    if let NodeContent::View { children, .. } = t[y as int].content {
        assert forall|j: int| 0 <= j < children.len() implies within_depth(
            t,
            #[trigger] children[j],
            (more - 1) as nat,
        ) by {
            lemma_within_depth_monotone(t, children[j], (depth - 1) as nat, (more - 1) as nat);
        }
    }
}

/// Appending to view `p` leaves the depth of a node that cannot reach `p` as it was.
pub proof fn lemma_unreached_depth_kept(t: Seq<NodeState>, p: nat, c: nat, y: nat, depth: nat)
    requires
        tree_wf(t),
        p < t.len(),
        y < t.len(),
        t[p as int].content is View,
        within_depth(t, y, depth),
        !reaches(t, y, p, depth),
    ensures
        within_depth(tree_with_child(t, p, c), y, depth),
    decreases depth,
{
    let u = tree_with_child(t, p, c);
    assert(y != p);
    assert(u[y as int] == t[y as int]);
    if let NodeContent::View { children, .. } = t[y as int].content {
        assert(children == children_of(t, y));
        assert forall|j: int| 0 <= j < children.len() implies within_depth(
            u,
            #[trigger] children[j],
            (depth - 1) as nat,
        ) by {
            assert(t[y as int].content matches NodeContent::View { children: cs, .. } && cs[j] < t.len());
            assert(!reaches(t, children[j], p, (depth - 1) as nat));
            lemma_unreached_depth_kept(t, p, c, children[j], (depth - 1) as nat);
        }
    }
}

/// Appending `c`, which lies within `extra` levels and cannot reach view `p`,
/// to `p` adds at most `extra` levels below any node.
pub proof fn lemma_append_depth(
    t: Seq<NodeState>,
    p: nat,
    c: nat,
    x: nat,
    depth: nat,
    extra: nat,
)
    requires
        tree_wf(t),
        p < t.len(),
        c < t.len(),
        x < t.len(),
        t[p as int].content is View,
        within_depth(t, c, extra),
        !reaches(t, c, p, extra),
        within_depth(t, x, depth),
    ensures
        within_depth(tree_with_child(t, p, c), x, depth + extra),
    decreases depth,
{
    let u = tree_with_child(t, p, c);
    if x != p {
        assert(u[x as int] == t[x as int]);
        if let NodeContent::View { children, .. } = t[x as int].content {
            assert forall|j: int| 0 <= j < children.len() implies within_depth(
                u,
                #[trigger] children[j],
                (depth + extra - 1) as nat,
            ) by {
                assert(t[x as int].content matches NodeContent::View { children: cs, .. } && cs[j] < t.len());
                lemma_append_depth(t, p, c, children[j], (depth - 1) as nat, extra);
            }
        }
    } else {
        let old = children_of(t, p);
        let now = children_of(u, p);
        assert(now == old.push(c));
        assert forall|j: int| 0 <= j < now.len() implies within_depth(
            u,
            #[trigger] now[j],
            (depth + extra - 1) as nat,
        ) by {
            if j < old.len() {
                assert(now[j] == old[j]);
                assert(t[p as int].content matches NodeContent::View { children: cs, .. } && cs[j] < t.len());
                lemma_append_depth(t, p, c, old[j], (depth - 1) as nat, extra);
            } else {
                assert(now[j] == c);
                lemma_unreached_depth_kept(t, p, c, c, extra);
                lemma_within_depth_monotone(u, c, extra, (depth + extra - 1) as nat);
            }
        }
    }
}

/// Appending keeps the tree well formed.
pub proof fn lemma_append_keeps_wf(t: Seq<NodeState>, p: nat, c: nat)
    requires
        tree_wf(t),
        p < t.len(),
        c < t.len(),
        t[p as int].content is View,
    ensures
        tree_wf(tree_with_child(t, p, c)),
{
    let u = tree_with_child(t, p, c);
    assert forall|i: int| 0 <= i < u.len() implies {
        &&& (#[trigger] u[i].content matches NodeContent::View { children, .. } ==> forall|j: int|
            0 <= j < children.len() ==> #[trigger] children[j] < u.len())
        &&& (u[i].parent matches Some(q) ==> q < u.len())
    } by {
        if i == p {
            let old = children_of(t, p);
            assert(children_of(u, p) == old.push(c));
            assert forall|j: int| 0 <= j < old.push(c).len() implies #[trigger] old.push(c)[j]
                < u.len() by {
                if j < old.len() {
                    assert(t[p as int].content matches NodeContent::View { children: cs, .. } && cs[j] < t.len());
                }
            }
        } else {
            assert(u[i] == t[i]);
        }
    }
}

/// Appending a node that cannot reach the view it is appended to keeps every
/// node of finite depth: no cycle of children arises.
pub proof fn law_append_unreaching_child_keeps_depth_finite(
    t: Seq<NodeState>,
    p: nat,
    c: nat,
    x: nat,
)
    requires
        tree_wf(t),
        p < t.len(),
        c < t.len(),
        x < t.len(),
        t[p as int].content is View,
        finite_depth(t, c),
        !reaches(t, c, p, t.len()),
        finite_depth(t, x),
    ensures
        finite_depth(tree_with_child(t, p, c), x),
{
    let u = tree_with_child(t, p, c);
    lemma_append_depth(t, p, c, x, t.len(), t.len());
    lemma_append_keeps_wf(t, p, c);
    lemma_depth_at_most_size(u, x, t.len() + t.len());
}

/// When every node has finite depth, appending a node that cannot reach the
/// view it is appended to leaves every node of finite depth.
pub proof fn law_append_keeps_tree_acyclic(t: Seq<NodeState>, p: nat, c: nat)
    requires
        tree_wf(t),
        p < t.len(),
        c < t.len(),
        t[p as int].content is View,
        forall|x: nat| x < t.len() ==> #[trigger] finite_depth(t, x),
        !reaches(t, c, p, t.len()),
    ensures
        forall|x: nat| x < t.len() ==> #[trigger] finite_depth(tree_with_child(t, p, c), x),
{
    assert(finite_depth(t, c));
    assert forall|x: nat| x < t.len() implies #[trigger] finite_depth(tree_with_child(t, p, c), x) by {
        law_append_unreaching_child_keeps_depth_finite(t, p, c, x);
    }
}

} // verus!

verus! {

/// Two labels, two buttons or two text fields are equal exactly when they
/// show the same text; the handlers of text fields play no part.
pub proof fn law_leaf_nodes_equal_iff_same_text(t: Seq<NodeState>, a: nat, b: nat)
    requires
        a < t.len(),
        b < t.len(),
        (t[a as int].content is Text && t[b as int].content is Text) || (t[a as int].content is Button
            && t[b as int].content is Button) || (t[a as int].content is Input
            && t[b as int].content is Input),
    ensures
        comparison_ends(t, a, b),
        node_eq_spec(t, a, b) == match (t[a as int].content, t[b as int].content) {
            (NodeContent::Text { text: x }, NodeContent::Text { text: y }) => x == y,
            (NodeContent::Button { text: x }, NodeContent::Button { text: y }) => x == y,
            (NodeContent::Input { text: x, .. }, NodeContent::Input { text: y, .. }) => x == y,
            _ => false,
        },
{
    assert(walk_ends(t, a, b, 1));
    lemma_node_eq_spec_at(t, a, b, 1);
}

/// Two buttons are equal exactly when their titles are.
pub proof fn law_buttons_equal_iff_same_title(
    t: Seq<NodeState>,
    a: nat,
    b: nat,
    x: Seq<char>,
    y: Seq<char>,
)
    requires
        a < t.len(),
        b < t.len(),
        t[a as int].content == (NodeContent::Button { text: x }),
        t[b as int].content == (NodeContent::Button { text: y }),
    ensures
        comparison_ends(t, a, b),
        node_eq_spec(t, a, b) == (x == y),
{
    law_leaf_nodes_equal_iff_same_text(t, a, b);
}

/// Nodes of different kinds are never equal, at any depth, whatever they show.
pub proof fn law_different_kinds_never_equal(t: Seq<NodeState>, a: nat, b: nat, depth: nat)
    requires
        kind_of(t[a as int].content) != kind_of(t[b as int].content),
    ensures
        !nodes_equal(t, a, b, depth),
        walk_ends(t, a, b, depth + 1),
        !node_eq_spec(t, a, b),
{
    assert(walk_ends(t, a, b, 1));
    lemma_node_eq_spec_at(t, a, b, 1);
}

/// Setting any attribute but "value" changes nothing in the tree.
pub proof fn law_other_attributes_change_nothing(
    t: Seq<NodeState>,
    n: nat,
    name: Seq<char>,
    value: Seq<char>,
)
    requires
        n < t.len(),
        name != "value"@,
    ensures
        tree_with_attribute(t, n, name, value) == t,
        attribute_update(t[n as int].content, name) == WidgetUpdate::Unsupported,
{
    assert(tree_with_attribute(t, n, name, value) =~= t);
}

/// Setting "value" on a button or a text field replaces its text with the
/// value and keeps its handlers and parent; on a label or a view it changes
/// nothing. No other node changes.
pub proof fn law_value_attribute_effect(t: Seq<NodeState>, n: nat, value: Seq<char>)
    requires
        n < t.len(),
    ensures
        ({
            let u = tree_with_attribute(t, n, "value"@, value);
            &&& u.len() == t.len()
            &&& forall|i: int| 0 <= i < t.len() && i != n ==> #[trigger] u[i] == t[i]
            &&& u[n as int].parent == t[n as int].parent
            &&& match t[n as int].content {
                NodeContent::Button { .. } => u[n as int].content == (NodeContent::Button {
                    text: value,
                }),
                NodeContent::Input { callbacks, .. } => u[n as int].content == (NodeContent::Input {
                    text: value,
                    callbacks,
                }),
                _ => u == t,
            }
        }),
{
    let u = tree_with_attribute(t, n, "value"@, value);
    if !(t[n as int].content is Button || t[n as int].content is Input) {
        assert(u =~= t);
    }
}

/// Updating the inner text of anything but a view with an empty text is
/// setting its "value" attribute: a button or text field then shows the text.
pub proof fn law_inner_text_is_value_attribute(t: Seq<NodeState>, n: nat, text: Seq<char>)
    requires
        n < t.len(),
        !clears_children(t[n as int].content, text),
    ensures
        tree_with_inner_text(t, n, text) == tree_with_attribute(t, n, "value"@, text),
        t[n as int].content is Button ==> tree_with_inner_text(t, n, text)[n as int].content
            == (NodeContent::Button { text }),
        t[n as int].content matches NodeContent::Input { callbacks, .. } ==> tree_with_inner_text(
            t,
            n,
            text,
        )[n as int].content == (NodeContent::Input { text, callbacks }),
{
}

/// Updating the inner text of a view to the empty text removes all its
/// children and keeps its direction and parent; no other node changes.
pub proof fn law_empty_inner_text_clears_view(t: Seq<NodeState>, n: nat)
    requires
        n < t.len(),
        t[n as int].content is View,
    ensures
        ({
            let u = tree_with_inner_text(t, n, Seq::empty());
            &&& u.len() == t.len()
            &&& forall|i: int| 0 <= i < t.len() && i != n ==> #[trigger] u[i] == t[i]
            &&& u[n as int].parent == t[n as int].parent
            &&& u[n as int].content == (NodeContent::View {
                direction: t[n as int].content->View_direction,
                children: Seq::empty(),
                constraints: Seq::empty(),
            })
        }),
{
}

/// A child's placement is exactly four constraints: aligned left, 200 points
/// high, no wider than the parent, and one constraint on its top. The top
/// goes to the parent's top only for the first child; every later child is
/// kept below the child appended just before it, with priority 20.
pub proof fn law_child_placement(previous: Seq<nat>)
    ensures
        ({
            let c = child_constraints(previous);
            &&& c.len() == 4
            &&& c[0] == ChildConstraint::AlignLeft
            &&& c[1] == (ChildConstraint::FixedHeight { points: 200 })
            &&& c[2] == ChildConstraint::WidthAtMostParent
            &&& forall|i: int| 0 <= i < 3 ==> !(#[trigger] c[i] is TopAtParentTop) && !(c[i] is TopBelow)
            &&& (previous.len() == 0 ==> c[3] == ChildConstraint::TopAtParentTop)
            &&& (previous.len() > 0 ==> c[3] == (ChildConstraint::TopBelow {
                sibling: MacNode(previous.last() as usize),
                priority: 20,
            }))
            &&& (previous.len() > 0 ==> forall|i: int| 0 <= i < c.len() ==> !(#[trigger] c[i] is TopAtParentTop))
        }),
{
}

} // verus!
