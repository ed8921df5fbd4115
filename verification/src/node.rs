use vstd::prelude::*;

use crate::emitter::EventEmitter;
use crate::equality::{
    comparison_ends, finite_depth, node_eq_spec, nodes_equal, walk_ends, within_depth,
};
use crate::model::{
    attribute_update, binds_handler, child_constraints, children_of, clears_children, detached,
    element_content, is_element_tag, kind_of, text_of, tree_wf, tree_with_attribute,
    tree_with_child, tree_with_handler, tree_with_inner_text, ChildConstraint, Direction,
    InnerTextUpdate, MacNode, NodeContent, NodeKind, NodeState, WidgetUpdate,
};
use crate::text::str_eq;
use crate::walk::lemma_comparison_ends_within_square;

verus! {

/// A child of a view, with the layout constraints kept for it. Appending a
/// child keeps none: its placement is activated when it is appended.
pub struct ConstrainedMacNode {
    node: MacNode,
    constraints: Vec<ChildConstraint>,
}

/// The content of a node.
pub enum MacNodeType {
    Text { text: String },
    View { direction: Direction, children: Vec<ConstrainedMacNode> },
    Button { text: String },
    Input { text: String, text_field: EventEmitter },
}

/// A node together with the node it records as its parent.
pub struct MacNodeInner {
    node: MacNodeType,
    parent: Option<MacNode>,
}

/// The nodes rendered into a window. A [`MacNode`] names one of them by position.
pub struct MacTree {
    nodes: Vec<MacNodeInner>,
}

/// The positions of the given children.
pub closed spec fn child_positions(children: Seq<ConstrainedMacNode>) -> Seq<nat> {
    children.map_values(|c: ConstrainedMacNode| c.node.0 as nat)
}

/// The layout constraints kept for each of the given children.
pub closed spec fn kept_constraints(children: Seq<ConstrainedMacNode>) -> Seq<Seq<ChildConstraint>> {
    children.map_values(|c: ConstrainedMacNode| c.constraints@)
}

impl View for MacNodeType {
    type V = NodeContent;

    closed spec fn view(&self) -> NodeContent {
        match self {
            MacNodeType::Text { text } => NodeContent::Text { text: text@ },
            MacNodeType::View { direction, children } => NodeContent::View {
                direction: *direction,
                children: child_positions(children@),
                constraints: kept_constraints(children@),
            },
            MacNodeType::Button { text } => NodeContent::Button { text: text@ },
            MacNodeType::Input { text, text_field } => NodeContent::Input {
                text: text@,
                callbacks: text_field@,
            },
        }
    }
}

impl View for MacNodeInner {
    type V = NodeState;

    closed spec fn view(&self) -> NodeState {
        NodeState {
            content: self.node@,
            parent: match self.parent {
                Some(p) => Some(p.0 as nat),
                None => None,
            },
        }
    }
}

impl View for MacTree {
    type V = Seq<NodeState>;

    closed spec fn view(&self) -> Seq<NodeState> {
        self.nodes@.map_values(|n: MacNodeInner| n@)
    }
}

impl MacTree {
    /// The tree is well formed: every child and parent it records is one of its nodes.
    pub open spec fn wf(&self) -> bool {
        tree_wf(self@)
    }

    /// Whether `n` names a node of this tree.
    pub open spec fn has(&self, n: MacNode) -> bool {
        n.0 < self@.len()
    }

    /// A tree with no nodes.
    pub fn new() -> (t: Self)
        ensures
            t@ == Seq::<NodeState>::empty(),
            t.wf(),
    {
        let t = MacTree { nodes: Vec::new() };
        assert(t@ =~= Seq::<NodeState>::empty());
        t
    }

    /// The number of nodes.
    pub fn len(&self) -> (n: usize)
        ensures
            n == self@.len(),
    {
        self.nodes.len()
    }

    /// Whether `n` names a node of this tree.
    pub fn contains(&self, n: MacNode) -> (r: bool)
        ensures
            r == self.has(n),
    {
        n.0 < self.nodes.len()
    }

    /// Adds a node with no parent and returns its handle.
    fn push_node(&mut self, node: MacNodeType) -> (n: MacNode)
        requires
            old(self).wf(),
            node@ matches NodeContent::View { children, .. } ==> children.len() == 0,
        ensures
            n.0 == old(self)@.len(),
            final(self)@ == old(self)@.push(detached(node@)),
            final(self).wf(),
    {
        let n = MacNode(self.nodes.len());
        let inner = MacNodeInner { node, parent: None };
        self.nodes.push(inner);
        assert(self@ =~= old(self)@.push(detached(inner.node@)));
        n
    }

    /// Whether an element can be created from `tag`.
    pub fn is_element_tag(tag: &str) -> (r: bool)
        ensures
            r == is_element_tag(tag@),
    {
        str_eq(tag, "view") || str_eq(tag, "button") || str_eq(tag, "input")
    }

    /// Creates an element from `tag`: an empty vertical view for "view", a
    /// button with an empty title for "button", an empty text field for
    /// "input". The new node has no parent.
    pub fn element(&mut self, tag: &str) -> (n: MacNode)
        requires
            old(self).wf(),
            is_element_tag(tag@),
        ensures
            n.0 == old(self)@.len(),
            final(self)@ == old(self)@.push(detached(element_content(tag@))),
            final(self).wf(),
    {
        let node = if str_eq(tag, "view") {
            MacNodeType::View { direction: Direction::Veritcal, children: Vec::new() }
        } else if str_eq(tag, "button") {
            MacNodeType::Button { text: String::new() }
        } else {
            MacNodeType::Input { text: String::new(), text_field: EventEmitter::new() }
        };
        proof {
            if tag@ == "view"@ {
                assert(child_positions(Seq::<ConstrainedMacNode>::empty()) =~= Seq::<nat>::empty());
                assert(kept_constraints(Seq::<ConstrainedMacNode>::empty()) =~= Seq::<
                    Seq<ChildConstraint>,
                >::empty());
            }
        }
        assert(node@ == element_content(tag@));
        self.push_node(node)
    }

    /// Creates a label node showing `text`, with no parent.
    pub fn text_node(&mut self, text: &str) -> (n: MacNode)
        requires
            old(self).wf(),
        ensures
            n.0 == old(self)@.len(),
            final(self)@ == old(self)@.push(detached(NodeContent::Text { text: text@ })),
            final(self).wf(),
    {
        let node = MacNodeType::Text { text: text.to_owned() };
        self.push_node(node)
    }

    /// Sets attribute `name` of node `n` to `value`. The one attribute nodes
    /// support is "value", on buttons (their title) and text fields (their
    /// text); on any other node or name nothing changes. The result says how
    /// the node's widget follows.
    pub fn set_attribute(&mut self, n: MacNode, name: &str, value: &str) -> (update: WidgetUpdate)
        requires
            old(self).wf(),
            old(self).has(n),
        ensures
            update == attribute_update(old(self)@[n.0 as int].content, name@),
            final(self)@ == tree_with_attribute(old(self)@, n.0 as nat, name@, value@),
            final(self).wf(),
    {
        let ghost t0 = self@;
        if !str_eq(name, "value") {
            assert(self@ =~= tree_with_attribute(t0, n.0 as nat, name@, value@));
            return WidgetUpdate::Unsupported;
        }
        let update = match &mut self.nodes[n.0].node {
            MacNodeType::Button { text } => {
                *text = value.to_owned();
                WidgetUpdate::ButtonTitle
            },
            MacNodeType::Input { text, .. } => {
                *text = value.to_owned();
                WidgetUpdate::FieldText
            },
            _ => WidgetUpdate::Unsupported,
        };
        assert(self@ =~= tree_with_attribute(t0, n.0 as nat, name@, value@));
        update
    }

    /// Appends `child` to the children of view `parent`, keeping no layout
    /// constraints for it. The view also
    /// records itself as its own parent. The result lists the constraints
    /// that place the child's view in the parent's view: aligned left, 200
    /// points high, no wider than the parent, and at the parent's top when it
    /// is the first child, else below the child appended before it.
    pub fn append_child(&mut self, parent: MacNode, child: MacNode) -> (placement: Vec<ChildConstraint>)
        requires
            old(self).wf(),
            old(self).has(parent),
            old(self).has(child),
            old(self)@[parent.0 as int].content is View,
        ensures
            final(self)@ == tree_with_child(old(self)@, parent.0 as nat, child.0 as nat),
            placement@ == child_constraints(children_of(old(self)@, parent.0 as nat)),
            final(self).wf(),
    {
        let ghost t0 = self@;
        let ghost old_children = children_of(t0, parent.0 as nat);
        let inner = &mut self.nodes[parent.0];
        inner.parent = Some(parent);
        let mut placement: Vec<ChildConstraint> = Vec::new();
        placement.push(ChildConstraint::AlignLeft);
        placement.push(ChildConstraint::FixedHeight { points: 200 });
        placement.push(ChildConstraint::WidthAtMostParent);
        match &mut inner.node {
            MacNodeType::View { children, .. } => {
                let len = children.len();
                if len == 0 {
                    placement.push(ChildConstraint::TopAtParentTop);
                } else {
                    let sibling = children[len - 1].node;
                    placement.push(ChildConstraint::TopBelow { sibling, priority: 20 });
                }
                let ghost before = children@;
                children.push(ConstrainedMacNode { node: child, constraints: Vec::new() });
                assert(child_positions(children@) =~= child_positions(before).push(child.0 as nat));
                assert(kept_constraints(children@) =~= kept_constraints(before).push(
                    Seq::<ChildConstraint>::empty(),
                ));
            },
            _ => {},
        }
        assert(placement@ =~= child_constraints(old_children));
        assert(self@ =~= tree_with_child(t0, parent.0 as nat, child.0 as nat));
        placement
    }

    /// Inserts `new_node` among the children of view `parent`. The reference
    /// node is not consulted: the node is appended exactly as by
    /// [`MacTree::append_child`].
    pub fn insert_child_before(
        &mut self,
        parent: MacNode,
        new_node: MacNode,
        reference_node: Option<MacNode>,
    ) -> (placement: Vec<ChildConstraint>)
        requires
            old(self).wf(),
            old(self).has(parent),
            old(self).has(new_node),
            old(self)@[parent.0 as int].content is View,
        ensures
            final(self)@ == tree_with_child(old(self)@, parent.0 as nat, new_node.0 as nat),
            placement@ == child_constraints(children_of(old(self)@, parent.0 as nat)),
            final(self).wf(),
    {
        self.append_child(parent, new_node)
    }

    /// Updates the inner text of node `n`. An empty text empties a view: its
    /// children are detached and returned in order. Any other case sets the
    /// text as the node's "value" attribute.
    pub fn update_inner_text(&mut self, n: MacNode, text: &str) -> (update: InnerTextUpdate)
        requires
            old(self).wf(),
            old(self).has(n),
        ensures
            final(self)@ == tree_with_inner_text(old(self)@, n.0 as nat, text@),
            clears_children(old(self)@[n.0 as int].content, text@) ==> (update matches InnerTextUpdate::ChildrenRemoved(removed) && removed@.map_values(|m: MacNode| m.0 as nat) == children_of(old(self)@, n.0 as nat)),
            !clears_children(old(self)@[n.0 as int].content, text@) ==> update == InnerTextUpdate::Attribute(attribute_update(old(self)@[n.0 as int].content, "value"@)),
            final(self).wf(),
    {
        let ghost t0 = self@;
        let is_view = match &self.nodes[n.0].node {
            MacNodeType::View { .. } => true,
            _ => false,
        };
        if text.is_empty() && is_view {
            let inner = &mut self.nodes[n.0];
            match &mut inner.node {
                MacNodeType::View { children, .. } => {
                    let ghost before = children@;
                    let mut removed: Vec<MacNode> = Vec::new();
                    let mut i: usize = 0;
                    while i < children.len()
                        invariant
                            i <= children@.len(),
                            children@ == before,
                            removed@.map_values(|m: MacNode| m.0 as nat) =~= child_positions(before).subrange(0, i as int),
                        decreases children@.len() - i,
                    {
                        let ghost prev = removed@;
                        removed.push(children[i].node);
                        assert(removed@.map_values(|m: MacNode| m.0 as nat) =~= prev.map_values(
                            |m: MacNode| m.0 as nat,
                        ).push(children@[i as int].node.0 as nat));
                        i = i + 1;
                    }
                    children.clear();
                    assert(child_positions(before).subrange(0, i as int) =~= child_positions(before));
                    assert(child_positions(children@) =~= Seq::<nat>::empty());
                    assert(kept_constraints(children@) =~= Seq::<Seq<ChildConstraint>>::empty());
                    assert(self@ =~= tree_with_inner_text(t0, n.0 as nat, text@));
                    return InnerTextUpdate::ChildrenRemoved(removed);
                },
                _ => {},
            }
        }
        let update = self.set_attribute(n, "value", text);
        InnerTextUpdate::Attribute(update)
    }

    /// Binds `handler` to event `name` of node `n`. A text field takes
    /// handlers for its "value" event, run after those bound before; any
    /// other event or node ignores the handler. The result says whether it
    /// was bound.
    pub fn event(&mut self, n: MacNode, name: &str, handler: usize) -> (bound: bool)
        requires
            old(self).wf(),
            old(self).has(n),
        ensures
            bound == binds_handler(old(self)@[n.0 as int].content, name@),
            final(self)@ == tree_with_handler(old(self)@, n.0 as nat, name@, handler),
            final(self).wf(),
    {
        let ghost t0 = self@;
        if !str_eq(name, "value") {
            assert(self@ =~= t0);
            return false;
        }
        let bound = match &mut self.nodes[n.0].node {
            MacNodeType::Input { text_field, .. } => {
                text_field.add_callback(handler);
                true
            },
            _ => false,
        };
        assert(self@ =~= tree_with_handler(t0, n.0 as nat, name@, handler));
        bound
    }

    /// The handlers to run, in this order, when the text of text field `n`
    /// changes: those bound to its "value" event, each once, in the order of
    /// binding. The tree itself does not change.
    pub fn text_did_change(&self, n: MacNode) -> (to_run: Vec<usize>)
        requires
            self.has(n),
            self@[n.0 as int].content is Input,
        ensures
            self@[n.0 as int].content matches NodeContent::Input { callbacks, .. } && to_run@ == callbacks,
    {
        match &self.nodes[n.0].node {
            MacNodeType::Input { text_field, .. } => text_field.text_did_change(),
            _ => Vec::new(),
        }
    }

    /// Whether node `n` and every node below it lie within `depth` levels.
    fn depth_within(&self, n: MacNode, depth: usize) -> (r: bool)
        requires
            self.wf(),
            self.has(n),
        ensures
            r == within_depth(self@, n.0 as nat, depth as nat),
        decreases depth,
    {
        if depth == 0 {
            return false;
        }
        match &self.nodes[n.0].node {
            MacNodeType::View { children, .. } => {
                let ghost t = self@;
                assert(t[n.0 as int] == self.nodes@[n.0 as int]@);
                let mut i: usize = 0;
                while i < children.len()
                    invariant
                        self.wf(),
                        t == self@,
                        n.0 < t.len(),
                        depth > 0,
                        i <= children@.len(),
                        t[n.0 as int].content is View,
                        t[n.0 as int].content->View_children == child_positions(children@),
                        forall|j: int|
                            0 <= j < i ==> within_depth(t, #[trigger] child_positions(children@)[j], (depth - 1) as nat),
                    decreases children@.len() - i,
                {
                    let c = children[i].node;
                    assert(child_positions(children@)[i as int] == c.0 as nat);
                    assert(t[n.0 as int].content matches NodeContent::View { children: cs, .. } && cs[i as int] < t.len());
                    if !self.depth_within(c, depth - 1) {
                        return false;
                    }
                    i = i + 1;
                }
                true
            },
            _ => true,
        }
    }

    /// Whether no cycle of children can be reached from node `n`, so that
    /// comparing it with [`MacTree::node_eq`] ends.
    pub fn has_finite_depth(&self, n: MacNode) -> (r: bool)
        requires
            self.wf(),
            self.has(n),
        ensures
            r == finite_depth(self@, n.0 as nat),
    {
        self.depth_within(n, self.nodes.len())
    }

    /// Compares nodes `a` and `b` down to `depth` levels.
    fn eq_within(&self, a: MacNode, b: MacNode, Ghost(depth): Ghost<nat>) -> (r: bool)
        requires
            self.wf(),
            self.has(a),
            self.has(b),
            walk_ends(self@, a.0 as nat, b.0 as nat, depth),
        ensures
            r == nodes_equal(self@, a.0 as nat, b.0 as nat, depth),
        decreases depth,
    {
        let ghost t = self@;
        assert(t[a.0 as int] == self.nodes@[a.0 as int]@);
        assert(t[b.0 as int] == self.nodes@[b.0 as int]@);
        match (&self.nodes[a.0].node, &self.nodes[b.0].node) {
            (MacNodeType::Text { text: x }, MacNodeType::Text { text: y }) => x.eq(y),
            (MacNodeType::Button { text: x }, MacNodeType::Button { text: y }) => x.eq(y),
            (MacNodeType::Input { text: x, .. }, MacNodeType::Input { text: y, .. }) => x.eq(y),
            (
                MacNodeType::View { direction: da, children: ca },
                MacNodeType::View { direction: db, children: cb },
            ) => {
                if *da != *db || ca.len() != cb.len() {
                    return false;
                }
                let mut i: usize = 0;
                while i < ca.len()
                    invariant
                        self.wf(),
                        t == self@,
                        a.0 < t.len(),
                        b.0 < t.len(),
                        depth > 0,
                        i <= ca@.len(),
                        ca@.len() == cb@.len(),
                        *da == *db,
                        t[a.0 as int].content is View,
                        t[a.0 as int].content->View_direction == *da,
                        t[a.0 as int].content->View_children == child_positions(ca@),
                        t[b.0 as int].content is View,
                        t[b.0 as int].content->View_direction == *db,
                        t[b.0 as int].content->View_children == child_positions(cb@),
                        walk_ends(t, a.0 as nat, b.0 as nat, depth),
                        forall|j: int|
                            0 <= j < i ==> nodes_equal(
                                t,
                                #[trigger] child_positions(ca@)[j],
                                child_positions(cb@)[j],
                                (depth - 1) as nat,
                            ),
                    decreases ca@.len() - i,
                {
                    let x = ca[i].node;
                    let y = cb[i].node;
                    assert(child_positions(ca@)[i as int] == x.0 as nat);
                    assert(child_positions(cb@)[i as int] == y.0 as nat);
                    assert(t[a.0 as int].content matches NodeContent::View { children: cs, .. } && cs[i as int] < t.len());
                    assert(t[b.0 as int].content matches NodeContent::View { children: cs, .. } && cs[i as int] < t.len());
                    assert(walk_ends(t, x.0 as nat, y.0 as nat, (depth - 1) as nat));
                    if !self.eq_within(x, y, Ghost((depth - 1) as nat)) {
                        return false;
                    }
                    i = i + 1;
                }
                true
            },
            _ => false,
        }
    }

    /// Compares nodes `a` and `b` with at most `fuel` levels: `None` when the
    /// comparison does not end within them, else its result.
    pub fn compare_within(&self, a: MacNode, b: MacNode, fuel: usize) -> (r: Option<bool>)
        requires
            self.wf(),
            self.has(a),
            self.has(b),
        ensures
            match r {
                Some(v) => walk_ends(self@, a.0 as nat, b.0 as nat, fuel as nat) && v == nodes_equal(
                    self@,
                    a.0 as nat,
                    b.0 as nat,
                    fuel as nat,
                ),
                None => !walk_ends(self@, a.0 as nat, b.0 as nat, fuel as nat),
            },
        decreases fuel,
    {
        if fuel == 0 {
            return None;
        }
        let ghost t = self@;
        let ghost d1 = (fuel - 1) as nat;
        assert(t[a.0 as int] == self.nodes@[a.0 as int]@);
        assert(t[b.0 as int] == self.nodes@[b.0 as int]@);
        match (&self.nodes[a.0].node, &self.nodes[b.0].node) {
            (MacNodeType::Text { text: x }, MacNodeType::Text { text: y }) => Some(x.eq(y)),
            (MacNodeType::Button { text: x }, MacNodeType::Button { text: y }) => Some(x.eq(y)),
            (MacNodeType::Input { text: x, .. }, MacNodeType::Input { text: y, .. }) => Some(x.eq(y)),
            (
                MacNodeType::View { direction: da, children: ca },
                MacNodeType::View { direction: db, children: cb },
            ) => {
                if *da != *db || ca.len() != cb.len() {
                    return Some(false);
                }
                let ghost pa = child_positions(ca@);
                let ghost pb = child_positions(cb@);
                let mut i: usize = 0;
                while i < ca.len()
                    invariant
                        self.wf(),
                        t == self@,
                        a.0 < t.len(),
                        b.0 < t.len(),
                        fuel > 0,
                        d1 == fuel - 1,
                        i <= ca@.len(),
                        ca@.len() == cb@.len(),
                        *da == *db,
                        pa == child_positions(ca@),
                        pb == child_positions(cb@),
                        t[a.0 as int].content is View,
                        t[a.0 as int].content->View_direction == *da,
                        t[a.0 as int].content->View_children == pa,
                        t[b.0 as int].content is View,
                        t[b.0 as int].content->View_direction == *db,
                        t[b.0 as int].content->View_children == pb,
                        forall|j: int|
                            0 <= j < i ==> nodes_equal(t, #[trigger] pa[j], pb[j], d1) && walk_ends(
                                t,
                                pa[j],
                                pb[j],
                                d1,
                            ),
                    decreases ca@.len() - i,
                {
                    let x = ca[i].node;
                    let y = cb[i].node;
                    assert(pa[i as int] == x.0 as nat);
                    assert(pb[i as int] == y.0 as nat);
                    assert(t[a.0 as int].content matches NodeContent::View { children: cs, .. } && cs[i as int] < t.len());
                    assert(t[b.0 as int].content matches NodeContent::View { children: cs, .. } && cs[i as int] < t.len());
                    match self.compare_within(x, y, fuel - 1) {
                        None => {
                            assert(forall|k: int| 0 <= k < i ==> nodes_equal(t, #[trigger] pa[k], pb[k], d1));
                            return None;
                        },
                        Some(false) => {
                            assert forall|j: int| #![trigger pa[j]]
                                0 <= j < pa.len() && (forall|k: int|
                                    0 <= k < j ==> nodes_equal(t, #[trigger] pa[k], pb[k], d1))
                                implies walk_ends(t, pa[j], pb[j], d1) by {
                                if j > i {
                                    assert(!nodes_equal(t, pa[i as int], pb[i as int], d1));
                                }
                            }
                            return Some(false);
                        },
                        Some(true) => {},
                    }
                    i = i + 1;
                }
                Some(true)
            },
            _ => Some(false),
        }
    }

    /// Whether comparing nodes `a` and `b` ends, so that [`MacTree::node_eq`]
    /// may be called on them. The square of the number of nodes must fit in
    /// a `usize`.
    pub fn comparison_ends(&self, a: MacNode, b: MacNode) -> (r: bool)
        requires
            self.wf(),
            self.has(a),
            self.has(b),
            self@.len() * self@.len() <= usize::MAX,
        ensures
            r == comparison_ends(self@, a.0 as nat, b.0 as nat),
    {
        let n = self.nodes.len();
        let r = self.compare_within(a, b, n * n).is_some();
        proof {
            if comparison_ends(self@, a.0 as nat, b.0 as nat) {
                lemma_comparison_ends_within_square(self@, a.0 as nat, b.0 as nat);
            }
        }
        r
    }

    /// Whether nodes `a` and `b` have equal content (see
    /// [`node_eq_spec`](crate::equality::node_eq_spec)). The comparison must
    /// end, which [`MacTree::comparison_ends`] tells: it does unless both
    /// nodes keep matching down a cycle of children, and always does when
    /// either node has finite depth.
    pub fn node_eq(&self, a: MacNode, b: MacNode) -> (r: bool)
        requires
            self.wf(),
            self.has(a),
            self.has(b),
            comparison_ends(self@, a.0 as nat, b.0 as nat),
        ensures
            r == node_eq_spec(self@, a.0 as nat, b.0 as nat),
    {
        let ghost depth = choose|depth: nat| walk_ends(self@, a.0 as nat, b.0 as nat, depth);
        self.eq_within(a, b, Ghost(depth))
    }

    /// The kind of node `n`.
    pub fn kind(&self, n: MacNode) -> (k: NodeKind)
        requires
            self.has(n),
        ensures
            k == kind_of(self@[n.0 as int].content),
    {
        match &self.nodes[n.0].node {
            MacNodeType::Text { .. } => NodeKind::Text,
            MacNodeType::View { .. } => NodeKind::View,
            MacNodeType::Button { .. } => NodeKind::Button,
            MacNodeType::Input { .. } => NodeKind::Input,
        }
    }

    /// The text node `n` shows: a label's text, a button's title, a text
    /// field's text; a view shows none.
    pub fn text(&self, n: MacNode) -> (r: Option<String>)
        requires
            self.has(n),
        ensures
            match (r, text_of(self@[n.0 as int].content)) {
                (Some(s), Some(x)) => s@ == x,
                (None, None) => true,
                _ => false,
            },
    {
        match &self.nodes[n.0].node {
            MacNodeType::Text { text } => Some(text.clone()),
            MacNodeType::View { .. } => None,
            MacNodeType::Button { text } => Some(text.clone()),
            MacNodeType::Input { text, .. } => Some(text.clone()),
        }
    }

    /// The direction in which view `n` stacks its children; `None` for other nodes.
    pub fn direction(&self, n: MacNode) -> (r: Option<Direction>)
        requires
            self.has(n),
        ensures
            match self@[n.0 as int].content {
                NodeContent::View { direction, .. } => r == Some(direction),
                _ => r is None,
            },
    {
        match &self.nodes[n.0].node {
            MacNodeType::View { direction, .. } => Some(*direction),
            _ => None,
        }
    }

    /// The children of node `n`, in order; a node that is not a view has none.
    pub fn children(&self, n: MacNode) -> (r: Vec<MacNode>)
        requires
            self.has(n),
        ensures
            r@.map_values(|m: MacNode| m.0 as nat) == children_of(self@, n.0 as nat),
    {
        let ghost t = self@;
        assert(t[n.0 as int] == self.nodes@[n.0 as int]@);
        let mut r: Vec<MacNode> = Vec::new();
        match &self.nodes[n.0].node {
            MacNodeType::View { children, .. } => {
                let mut i: usize = 0;
                while i < children.len()
                    invariant
                        i <= children@.len(),
                        r@.map_values(|m: MacNode| m.0 as nat) =~= child_positions(children@).subrange(0, i as int),
                    decreases children@.len() - i,
                {
                    let ghost prev = r@;
                    r.push(children[i].node);
                    assert(r@.map_values(|m: MacNode| m.0 as nat) =~= prev.map_values(
                        |m: MacNode| m.0 as nat,
                    ).push(children@[i as int].node.0 as nat));
                    i = i + 1;
                }
                assert(child_positions(children@).subrange(0, i as int) =~= child_positions(children@));
            },
            _ => {
                assert(r@.map_values(|m: MacNode| m.0 as nat) =~= Seq::<nat>::empty());
            },
        }
        r
    }

    /// The node that node `n` records as its parent.
    pub fn parent(&self, n: MacNode) -> (r: Option<MacNode>)
        requires
            self.has(n),
        ensures
            match (r, self@[n.0 as int].parent) {
                (Some(p), Some(q)) => p.0 == q,
                (None, None) => true,
                _ => false,
            },
    {
        self.nodes[n.0].parent
    }
}

} // verus!
