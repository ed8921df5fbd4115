use vstd::prelude::*;

use crate::model::{tree_wf, NodeContent, NodeState};

verus! {

/// Node `a` and every node below it lie within `depth` levels: each path of
/// children that starts at `a` visits at most `depth` nodes. A node from
/// which a cycle of children can be reached lies within no depth.
pub open spec fn within_depth(t: Seq<NodeState>, a: nat, depth: nat) -> bool
    decreases depth,
{
    depth > 0 && match t[a as int].content {
        NodeContent::View { children, .. } => forall|j: int|
            0 <= j < children.len() ==> within_depth(t, #[trigger] children[j], (depth - 1) as nat),
        _ => true,
    }
}

/// Node `a` has finite depth in the tree: no cycle of children is reachable from it.
pub open spec fn finite_depth(t: Seq<NodeState>, a: nat) -> bool {
    within_depth(t, a, t.len())
}

/// Nodes `a` and `b` have equal content, compared down to `depth` levels:
/// labels, buttons and text fields of the same kind are equal when their
/// texts are; views are equal when they stack in the same direction and
/// hold equally many children, pairwise equal. Parents, and the handlers of
/// text fields, are not compared.
pub open spec fn nodes_equal(t: Seq<NodeState>, a: nat, b: nat, depth: nat) -> bool
    decreases depth,
{
    depth > 0 && match (t[a as int].content, t[b as int].content) {
        (NodeContent::Text { text: x }, NodeContent::Text { text: y }) => x == y,
        (NodeContent::Button { text: x }, NodeContent::Button { text: y }) => x == y,
        (NodeContent::Input { text: x, .. }, NodeContent::Input { text: y, .. }) => x == y,
        (
            NodeContent::View { direction: da, children: ca, .. },
            NodeContent::View { direction: db, children: cb, .. },
        ) => {
            &&& da == db
            &&& ca.len() == cb.len()
            &&& forall|j: int|
                0 <= j < ca.len() ==> nodes_equal(t, #[trigger] ca[j], cb[j], (depth - 1) as nat)
        },
        _ => false,
    }
}

/// The comparison of `a` with `b` ends within `depth` levels. It descends
/// into a pair of views only when they stack alike and hold equally many
/// children, and it compares their children pairwise in order, stopping at
/// the first pair that differs: so the pair at position `j` is compared
/// only when all pairs before it are equal.
pub open spec fn walk_ends(t: Seq<NodeState>, a: nat, b: nat, depth: nat) -> bool
    decreases depth,
{
    depth > 0 && match (t[a as int].content, t[b as int].content) {
        (
            NodeContent::View { direction: da, children: ca, .. },
            NodeContent::View { direction: db, children: cb, .. },
        ) => (da == db && ca.len() == cb.len()) ==> forall|j: int|
            #![trigger ca[j]]
            0 <= j < ca.len() ==> ((forall|k: int|
                0 <= k < j ==> nodes_equal(t, #[trigger] ca[k], cb[k], (depth - 1) as nat))
                ==> walk_ends(t, ca[j], cb[j], (depth - 1) as nat)),
        _ => true,
    }
}

/// The comparison of `a` with `b` ends: it does unless both nodes keep
/// matching down a cycle of children.
pub open spec fn comparison_ends(t: Seq<NodeState>, a: nat, b: nat) -> bool {
    exists|depth: nat| walk_ends(t, a, b, depth)
}

/// Nodes `a` and `b` are equal: the result of a comparison that ends. Any
/// depth within which it ends gives the same result
/// (`lemma_walk_ends_stable`).
pub open spec fn node_eq_spec(t: Seq<NodeState>, a: nat, b: nat) -> bool {
    nodes_equal(t, a, b, choose|depth: nat| walk_ends(t, a, b, depth))
}

/// Nodes found equal within `depth` levels are found equal within any more levels.
pub proof fn lemma_nodes_equal_monotone(t: Seq<NodeState>, a: nat, b: nat, depth: nat, more: nat)
    requires
        nodes_equal(t, a, b, depth),
        depth <= more,
    ensures
        nodes_equal(t, a, b, more),
    decreases depth,
{
    match (t[a as int].content, t[b as int].content) {
        (
            NodeContent::View { children: ca, .. },
            NodeContent::View { children: cb, .. },
        ) => {
            assert forall|j: int| 0 <= j < ca.len() implies nodes_equal(
                t,
                #[trigger] ca[j],
                cb[j],
                (more - 1) as nat,
            ) by {
                lemma_nodes_equal_monotone(t, ca[j], cb[j], (depth - 1) as nat, (more - 1) as nat);
            }
        },
        _ => {},
    }
}

/// Among children pairs of which one, at `j`, differs within `depth` levels,
/// there is a first pair that differs.
pub proof fn lemma_first_difference(
    t: Seq<NodeState>,
    ca: Seq<nat>,
    cb: Seq<nat>,
    depth: nat,
    j: int,
) -> (first: int)
    requires
        0 <= j < ca.len(),
        !nodes_equal(t, ca[j], cb[j], depth),
    ensures
        0 <= first <= j,
        !nodes_equal(t, ca[first], cb[first], depth),
        forall|k: int| 0 <= k < first ==> nodes_equal(t, #[trigger] ca[k], cb[k], depth),
    decreases j,
{
    if forall|k: int| 0 <= k < j ==> nodes_equal(t, #[trigger] ca[k], cb[k], depth) {
        j
    } else {
        let k = choose|k: int| 0 <= k < j && !nodes_equal(t, #[trigger] ca[k], cb[k], depth);
        lemma_first_difference(t, ca, cb, depth, k)
    }
}

/// A comparison that ends within `depth` levels ends within any more levels,
/// with the same result.
pub proof fn lemma_walk_ends_stable(t: Seq<NodeState>, a: nat, b: nat, depth: nat, more: nat)
    requires
        walk_ends(t, a, b, depth),
        depth <= more,
    ensures
        walk_ends(t, a, b, more),
        nodes_equal(t, a, b, depth) == nodes_equal(t, a, b, more),
    decreases depth,
{
    match (t[a as int].content, t[b as int].content) {
        (
            NodeContent::View { direction: da, children: ca, .. },
            NodeContent::View { direction: db, children: cb, .. },
        ) => {
            if da == db && ca.len() == cb.len() {
                let d1 = (depth - 1) as nat;
                let m1 = (more - 1) as nat;
                assert forall|j: int|
                    #![trigger ca[j]]
                    0 <= j < ca.len() && (forall|k: int|
                        0 <= k < j ==> nodes_equal(t, #[trigger] ca[k], cb[k], m1)) implies walk_ends(
                    t,
                    ca[j],
                    cb[j],
                    m1,
                ) by {
                    // Pairs before one reached at the greater depth were equal at the smaller one.
                    if exists|k: int| 0 <= k < j && !nodes_equal(t, #[trigger] ca[k], cb[k], d1) {
                        let k0 = choose|k: int| 0 <= k < j && !nodes_equal(t, #[trigger] ca[k], cb[k], d1);
                        let f = lemma_first_difference(t, ca, cb, d1, k0);
                        assert(walk_ends(t, ca[f], cb[f], d1));
                        lemma_walk_ends_stable(t, ca[f], cb[f], d1, m1);
                        assert(nodes_equal(t, ca[f], cb[f], m1));
                    }
                    assert(forall|k: int| 0 <= k < j ==> nodes_equal(t, #[trigger] ca[k], cb[k], d1));
                    lemma_walk_ends_stable(t, ca[j], cb[j], d1, m1);
                }
                if nodes_equal(t, a, b, depth) {
                    lemma_nodes_equal_monotone(t, a, b, depth, more);
                } else if nodes_equal(t, a, b, more) {
                    let j0 = choose|j: int| 0 <= j < ca.len() && !nodes_equal(t, #[trigger] ca[j], cb[j], d1);
                    let f = lemma_first_difference(t, ca, cb, d1, j0);
                    assert(walk_ends(t, ca[f], cb[f], d1));
                    lemma_walk_ends_stable(t, ca[f], cb[f], d1, m1);
                    assert(nodes_equal(t, ca[f], cb[f], m1));
                }
            }
        },
        _ => {},
    }
}

/// The comparison of `a` with `b` ends within `depth` levels when one of
/// the two nodes lies within `depth` levels.
pub proof fn lemma_walk_ends_within_depth(t: Seq<NodeState>, a: nat, b: nat, depth: nat)
    requires
        within_depth(t, a, depth) || within_depth(t, b, depth),
    ensures
        walk_ends(t, a, b, depth),
    decreases depth,
{
    match (t[a as int].content, t[b as int].content) {
        (
            NodeContent::View { direction: da, children: ca, .. },
            NodeContent::View { direction: db, children: cb, .. },
        ) => {
            if da == db && ca.len() == cb.len() {
                assert forall|j: int| #![trigger ca[j]] 0 <= j < ca.len() implies walk_ends(
                    t,
                    ca[j],
                    cb[j],
                    (depth - 1) as nat,
                ) by {
                    if within_depth(t, a, depth) {
                        assert(within_depth(t, ca[j], (depth - 1) as nat));
                    } else {
                        assert(within_depth(t, cb[j], (depth - 1) as nat));
                    }
                    lemma_walk_ends_within_depth(t, ca[j], cb[j], (depth - 1) as nat);
                }
            }
        },
        _ => {},
    }
}

/// Equality is the result of any ending comparison: `node_eq_spec` agrees
/// with comparing to any depth within which the comparison ends.
pub proof fn lemma_node_eq_spec_at(t: Seq<NodeState>, a: nat, b: nat, depth: nat)
    requires
        walk_ends(t, a, b, depth),
    ensures
        comparison_ends(t, a, b),
        node_eq_spec(t, a, b) == nodes_equal(t, a, b, depth),
{
    let d = choose|d: nat| walk_ends(t, a, b, d);
    if d <= depth {
        lemma_walk_ends_stable(t, a, b, d, depth);
    } else {
        lemma_walk_ends_stable(t, a, b, depth, d);
    }
}

/// Equality compares nodes with themselves: a node of finite depth is equal to itself.
pub proof fn lemma_nodes_equal_reflexive(t: Seq<NodeState>, a: nat, depth: nat)
    requires
        tree_wf(t),
        a < t.len(),
        within_depth(t, a, depth),
    ensures
        nodes_equal(t, a, a, depth),
    decreases depth,
{
    if let NodeContent::View { children, .. } = t[a as int].content {
        assert forall|j: int| 0 <= j < children.len() implies nodes_equal(
            t,
            #[trigger] children[j],
            children[j],
            (depth - 1) as nat,
        ) by {
            assert(within_depth(t, children[j], (depth - 1) as nat));
            lemma_nodes_equal_reflexive(t, children[j], (depth - 1) as nat);
        }
    }
}

/// Equality does not depend on the order of its arguments.
pub proof fn lemma_nodes_equal_symmetric(t: Seq<NodeState>, a: nat, b: nat, depth: nat)
    ensures
        nodes_equal(t, a, b, depth) == nodes_equal(t, b, a, depth),
    decreases depth,
{
    if depth > 0 {
        match (t[a as int].content, t[b as int].content) {
            (
                NodeContent::View { direction: da, children: ca, .. },
                NodeContent::View { direction: db, children: cb, .. },
            ) => {
                assert forall|j: int| 0 <= j < ca.len() implies nodes_equal(
                    t,
                    #[trigger] ca[j],
                    cb[j],
                    (depth - 1) as nat,
                ) == nodes_equal(t, cb[j], ca[j], (depth - 1) as nat) by {
                    lemma_nodes_equal_symmetric(t, ca[j], cb[j], (depth - 1) as nat);
                }
                if ca.len() == cb.len() {
                    assert forall|j: int| 0 <= j < cb.len() implies nodes_equal(
                        t,
                        #[trigger] cb[j],
                        ca[j],
                        (depth - 1) as nat,
                    ) == nodes_equal(t, ca[j], cb[j], (depth - 1) as nat) by {
                        lemma_nodes_equal_symmetric(t, ca[j], cb[j], (depth - 1) as nat);
                    }
                }
            },
            _ => {},
        }
    }
}

/// Equality is transitive: nodes equal to a common node are equal to each other.
pub proof fn lemma_nodes_equal_transitive(t: Seq<NodeState>, a: nat, b: nat, c: nat, depth: nat)
    requires
        nodes_equal(t, a, b, depth),
        nodes_equal(t, b, c, depth),
    ensures
        nodes_equal(t, a, c, depth),
    decreases depth,
{
    match (t[a as int].content, t[b as int].content, t[c as int].content) {
        (
            NodeContent::View { children: ca, .. },
            NodeContent::View { children: cb, .. },
            NodeContent::View { children: cc, .. },
        ) => {
            assert forall|j: int| 0 <= j < ca.len() implies nodes_equal(
                t,
                #[trigger] ca[j],
                cc[j],
                (depth - 1) as nat,
            ) by {
                assert(nodes_equal(t, ca[j], cb[j], (depth - 1) as nat));
                assert(nodes_equal(t, cb[j], cc[j], (depth - 1) as nat));
                lemma_nodes_equal_transitive(t, ca[j], cb[j], cc[j], (depth - 1) as nat);
            }
        },
        _ => {},
    }
}

/// Equality looks at contents only: two trees whose nodes have the same
/// contents, whatever parents they record, compare their nodes alike.
pub proof fn lemma_nodes_equal_ignores_parents(
    t: Seq<NodeState>,
    u: Seq<NodeState>,
    a: nat,
    b: nat,
    depth: nat,
)
    requires
        t.len() == u.len(),
        forall|i: int| 0 <= i < t.len() ==> #[trigger] t[i].content == u[i].content,
        a < t.len(),
        b < t.len(),
        tree_wf(t),
    ensures
        nodes_equal(t, a, b, depth) == nodes_equal(u, a, b, depth),
    decreases depth,
{
    assert(t[a as int].content == u[a as int].content);
    assert(t[b as int].content == u[b as int].content);
    match (t[a as int].content, t[b as int].content) {
        (
            NodeContent::View { children: ca, .. },
            NodeContent::View { children: cb, .. },
        ) => {
            if depth > 0 && ca.len() == cb.len() {
                assert forall|j: int| 0 <= j < ca.len() implies nodes_equal(
                    t,
                    #[trigger] ca[j],
                    cb[j],
                    (depth - 1) as nat,
                ) == nodes_equal(u, ca[j], cb[j], (depth - 1) as nat) by {
                    assert(t[a as int].content matches NodeContent::View { children, .. } && children[j] < t.len());
                    assert(t[b as int].content matches NodeContent::View { children, .. } && children[j] < t.len());
                    lemma_nodes_equal_ignores_parents(t, u, ca[j], cb[j], (depth - 1) as nat);
                }
            }
        },
        _ => {},
    }
}

} // verus!

verus! {

/// Nodes found equal within `depth` levels both lie within `depth` levels.
pub proof fn lemma_equal_within_depth(t: Seq<NodeState>, a: nat, b: nat, depth: nat)
    requires
        nodes_equal(t, a, b, depth),
    ensures
        within_depth(t, a, depth),
        within_depth(t, b, depth),
    decreases depth,
{
    match (t[a as int].content, t[b as int].content) {
        (
            NodeContent::View { children: ca, .. },
            NodeContent::View { children: cb, .. },
        ) => {
            assert forall|j: int| 0 <= j < ca.len() implies within_depth(
                t,
                #[trigger] ca[j],
                (depth - 1) as nat,
            ) && within_depth(t, cb[j], (depth - 1) as nat) by {
                lemma_equal_within_depth(t, ca[j], cb[j], (depth - 1) as nat);
            }
            assert forall|j: int| 0 <= j < cb.len() implies within_depth(
                t,
                #[trigger] cb[j],
                (depth - 1) as nat,
            ) by {
                lemma_equal_within_depth(t, ca[j], cb[j], (depth - 1) as nat);
            }
        },
        _ => {},
    }
}

/// Whether a comparison ends does not depend on the order of its arguments.
pub proof fn lemma_walk_ends_symmetric(t: Seq<NodeState>, a: nat, b: nat, depth: nat)
    ensures
        walk_ends(t, a, b, depth) == walk_ends(t, b, a, depth),
    decreases depth,
{
    if depth > 0 {
        match (t[a as int].content, t[b as int].content) {
            (
                NodeContent::View { direction: da, children: ca, .. },
                NodeContent::View { direction: db, children: cb, .. },
            ) => {
                if da == db && ca.len() == cb.len() {
                    let d1 = (depth - 1) as nat;
                    assert forall|j: int| 0 <= j < ca.len() implies (walk_ends(t, #[trigger] ca[j], cb[j], d1)
                        == walk_ends(t, cb[j], ca[j], d1)) && (nodes_equal(t, ca[j], cb[j], d1)
                        == nodes_equal(t, cb[j], ca[j], d1)) by {
                        lemma_walk_ends_symmetric(t, ca[j], cb[j], d1);
                        lemma_nodes_equal_symmetric(t, ca[j], cb[j], d1);
                    }
                    assert forall|j: int| 0 <= j < cb.len() implies (walk_ends(t, #[trigger] cb[j], ca[j], d1)
                        == walk_ends(t, ca[j], cb[j], d1)) && (nodes_equal(t, cb[j], ca[j], d1)
                        == nodes_equal(t, ca[j], cb[j], d1)) by {
                        lemma_walk_ends_symmetric(t, ca[j], cb[j], d1);
                        lemma_nodes_equal_symmetric(t, ca[j], cb[j], d1);
                    }
                }
            },
            _ => {},
        }
    }
}

/// A comparison ends when either node has finite depth.
pub proof fn law_comparison_ends_when_either_finite(t: Seq<NodeState>, a: nat, b: nat)
    requires
        finite_depth(t, a) || finite_depth(t, b),
    ensures
        comparison_ends(t, a, b),
{
    lemma_walk_ends_within_depth(t, a, b, t.len());
}

/// Every node of finite depth is equal to itself.
pub proof fn law_node_eq_reflexive(t: Seq<NodeState>, a: nat)
    requires
        tree_wf(t),
        a < t.len(),
        finite_depth(t, a),
    ensures
        comparison_ends(t, a, a),
        node_eq_spec(t, a, a),
{
    lemma_walk_ends_within_depth(t, a, a, t.len());
    lemma_nodes_equal_reflexive(t, a, t.len());
    lemma_node_eq_spec_at(t, a, a, t.len());
}

/// Comparing `b` with `a` ends when comparing `a` with `b` does, with the same result.
pub proof fn law_node_eq_symmetric(t: Seq<NodeState>, a: nat, b: nat)
    requires
        comparison_ends(t, a, b),
    ensures
        comparison_ends(t, b, a),
        node_eq_spec(t, a, b) == node_eq_spec(t, b, a),
{
    let d = choose|d: nat| walk_ends(t, a, b, d);
    lemma_walk_ends_symmetric(t, a, b, d);
    lemma_nodes_equal_symmetric(t, a, b, d);
    lemma_node_eq_spec_at(t, a, b, d);
    lemma_node_eq_spec_at(t, b, a, d);
}

/// Nodes equal to a common node are equal to each other.
pub proof fn law_node_eq_transitive(t: Seq<NodeState>, a: nat, b: nat, c: nat)
    requires
        comparison_ends(t, a, b),
        comparison_ends(t, b, c),
        node_eq_spec(t, a, b),
        node_eq_spec(t, b, c),
    ensures
        comparison_ends(t, a, c),
        node_eq_spec(t, a, c),
{
    let d1 = choose|d: nat| walk_ends(t, a, b, d);
    let d2 = choose|d: nat| walk_ends(t, b, c, d);
    let d = d1 + d2;
    lemma_walk_ends_stable(t, a, b, d1, d);
    lemma_walk_ends_stable(t, b, c, d2, d);
    lemma_node_eq_spec_at(t, a, b, d);
    lemma_equal_within_depth(t, a, b, d);
    lemma_walk_ends_within_depth(t, a, c, d);
    lemma_node_eq_spec_at(t, a, b, d);
    lemma_node_eq_spec_at(t, b, c, d);
    lemma_node_eq_spec_at(t, a, c, d);
    lemma_nodes_equal_transitive(t, a, b, c, d);
}

} // verus!
