use vstd::prelude::*;

verus! {

/// The direction in which a view stacks its children.
#[derive(Clone, Copy, Debug, PartialEq, Eq, Structural)]
pub enum Direction {
    Horizontal,
    Veritcal,
}

/// A handle to a node: the position of the node in the tree that created it.
#[derive(Clone, Copy, Debug)]
pub struct MacNode(pub usize);

/// The abstract content of a node.
pub enum NodeContent {
    /// A label showing `text`.
    Text { text: Seq<char> },
    /// A container view; `children` are the positions of its children, in
    /// order, and `constraints` the layout constraints kept for each of them.
    View { direction: Direction, children: Seq<nat>, constraints: Seq<Seq<ChildConstraint>> },
    /// A push button whose title is `text`.
    Button { text: Seq<char> },
    /// A text field holding `text`; `callbacks` are the handlers bound to its
    /// edits, in the order in which they were bound.
    Input { text: Seq<char>, callbacks: Seq<usize> },
}

/// The abstract state of a node: its content and the node it records as its parent.
pub struct NodeState {
    pub content: NodeContent,
    pub parent: Option<nat>,
}

/// Every child position and every parent position names a node of the tree.
pub open spec fn tree_wf(t: Seq<NodeState>) -> bool {
    forall|i: int|
        #![trigger t[i]]
        0 <= i < t.len() ==> {
            &&& (t[i].content matches NodeContent::View { children, .. } ==> forall|j: int|
                0 <= j < children.len() ==> #[trigger] children[j] < t.len())
            &&& (t[i].parent matches Some(p) ==> p < t.len())
        }
}

/// The tags from which an element can be created.
pub open spec fn is_element_tag(tag: Seq<char>) -> bool {
    tag == "view"@ || tag == "button"@ || tag == "input"@
}

/// The content of a freshly created element: an empty vertical view, a button
/// with an empty title, or an empty text field with no handlers.
pub open spec fn element_content(tag: Seq<char>) -> NodeContent {
    if tag == "view"@ {
        NodeContent::View {
            direction: Direction::Veritcal,
            children: Seq::empty(),
            constraints: Seq::empty(),
        }
    } else if tag == "button"@ {
        NodeContent::Button { text: Seq::empty() }
    } else {
        NodeContent::Input { text: Seq::empty(), callbacks: Seq::empty() }
    }
}

/// A node that has no parent yet.
pub open spec fn detached(content: NodeContent) -> NodeState {
    NodeState { content, parent: None }
}

/// The node `i` with its content replaced and its parent kept.
pub open spec fn with_content(t: Seq<NodeState>, i: int, content: NodeContent) -> Seq<NodeState> {
    t.update(i, NodeState { content, parent: t[i].parent })
}

/// How the widget of a node is brought in line with a new "value" attribute.
#[derive(Clone, Copy, Debug, PartialEq, Eq, Structural)]
pub enum WidgetUpdate {
    /// The button's title is set to the value.
    ButtonTitle,
    /// The text field's text is set to the value.
    FieldText,
    /// The attribute is not supported on this node; nothing changed.
    Unsupported,
}

/// Whether `name` is the one attribute that nodes support.
pub open spec fn is_value_attribute(name: Seq<char>) -> bool {
    name == "value"@
}

/// What setting attribute `name` on a node with content `c` does to its widget.
pub open spec fn attribute_update(c: NodeContent, name: Seq<char>) -> WidgetUpdate {
    if is_value_attribute(name) {
        match c {
            NodeContent::Button { .. } => WidgetUpdate::ButtonTitle,
            NodeContent::Input { .. } => WidgetUpdate::FieldText,
            _ => WidgetUpdate::Unsupported,
        }
    } else {
        WidgetUpdate::Unsupported
    }
}

/// The content of a node after attribute `name` is set to `value`: the "value"
/// attribute replaces the text of a button or a text field; everything else
/// leaves the node as it was.
pub open spec fn content_with_attribute(
    c: NodeContent,
    name: Seq<char>,
    value: Seq<char>,
) -> NodeContent {
    if is_value_attribute(name) {
        match c {
            NodeContent::Button { .. } => NodeContent::Button { text: value },
            NodeContent::Input { callbacks, .. } => NodeContent::Input { text: value, callbacks },
            _ => c,
        }
    } else {
        c
    }
}

/// The tree after attribute `name` of node `n` is set to `value`.
pub open spec fn tree_with_attribute(
    t: Seq<NodeState>,
    n: nat,
    name: Seq<char>,
    value: Seq<char>,
) -> Seq<NodeState> {
    with_content(t, n as int, content_with_attribute(t[n as int].content, name, value))
}

/// A layout constraint that places a child's view inside its parent's view.
#[derive(Clone, Copy, Debug)]
pub enum ChildConstraint {
    /// The child's left edge equals the parent's left edge.
    AlignLeft,
    /// The child's height equals `points`.
    FixedHeight { points: u32 },
    /// The child is at most as wide as the parent.
    WidthAtMostParent,
    /// The child's top edge equals the parent's top edge.
    TopAtParentTop,
    /// The child's top edge is at or below the bottom edge of `sibling`,
    /// with the given layout priority.
    TopBelow { sibling: MacNode, priority: u32 },
}

/// The height of every child view, in points.
pub open spec fn child_height() -> u32 {
    200
}

/// The layout priority with which a child keeps below its previous sibling.
pub open spec fn stacking_priority() -> u32 {
    20
}

/// The constraints with which a child is placed in a view that already holds
/// `previous`: aligned left, of fixed height, no wider than the parent, and
/// either at the parent's top (first child) or below the last child so far.
pub open spec fn child_constraints(previous: Seq<nat>) -> Seq<ChildConstraint> {
    seq![
        ChildConstraint::AlignLeft,
        ChildConstraint::FixedHeight { points: child_height() },
        ChildConstraint::WidthAtMostParent,
        if previous.len() == 0 {
            ChildConstraint::TopAtParentTop
        } else {
            ChildConstraint::TopBelow {
                sibling: MacNode(previous.last() as usize),
                priority: stacking_priority(),
            }
        },
    ]
}

/// The tree after `child` is appended to view `parent` (which holds `children`
/// and stacks in `direction`): the child goes last, with no layout
/// constraints kept for it, and the view records itself as its own parent.
pub open spec fn tree_with_child(t: Seq<NodeState>, parent: nat, child: nat) -> Seq<NodeState> {
    match t[parent as int].content {
        NodeContent::View { direction, children, constraints } => t.update(
            parent as int,
            NodeState {
                content: NodeContent::View {
                    direction,
                    children: children.push(child),
                    constraints: constraints.push(Seq::empty()),
                },
                parent: Some(parent),
            },
        ),
        _ => t,
    }
}

/// The children of node `n`, or nothing when it is not a view.
pub open spec fn children_of(t: Seq<NodeState>, n: nat) -> Seq<nat> {
    match t[n as int].content {
        NodeContent::View { children, .. } => children,
        _ => Seq::empty(),
    }
}

} // verus!

verus! {

/// What updating a node's inner text does to the widgets.
pub enum InnerTextUpdate {
    /// The view's children, in order, were detached from it; their views
    /// leave the parent's view.
    ChildrenRemoved(Vec<MacNode>),
    /// The text was set as the node's "value" attribute.
    Attribute(WidgetUpdate),
}

/// Whether updating the inner text of a node with content `c` to `text`
/// empties a view rather than setting the "value" attribute.
pub open spec fn clears_children(c: NodeContent, text: Seq<char>) -> bool {
    text.len() == 0 && c is View
}

/// The tree after the inner text of node `n` is updated to `text`: an empty
/// text empties a view of its children; otherwise the text is set as the
/// node's "value" attribute.
pub open spec fn tree_with_inner_text(t: Seq<NodeState>, n: nat, text: Seq<char>) -> Seq<NodeState> {
    match t[n as int].content {
        NodeContent::View { direction, .. } if text.len() == 0 => with_content(
            t,
            n as int,
            NodeContent::View { direction, children: Seq::empty(), constraints: Seq::empty() },
        ),
        _ => tree_with_attribute(t, n, "value"@, text),
    }
}

/// The tree after `handler` is bound to event `name` of node `n`: a text
/// field takes handlers for its "value" event, last in line; any other event
/// or node leaves the tree as it was.
pub open spec fn tree_with_handler(t: Seq<NodeState>, n: nat, name: Seq<char>, handler: usize) -> Seq<NodeState> {
    match t[n as int].content {
        NodeContent::Input { text, callbacks } if is_value_attribute(name) => with_content(
            t,
            n as int,
            NodeContent::Input { text, callbacks: callbacks.push(handler) },
        ),
        _ => t,
    }
}

/// Whether binding a handler to event `name` of a node with content `c` takes effect.
pub open spec fn binds_handler(c: NodeContent, name: Seq<char>) -> bool {
    is_value_attribute(name) && c is Input
}

} // verus!

verus! {

/// The kind of a node.
#[derive(Clone, Copy, Debug, PartialEq, Eq, Structural)]
pub enum NodeKind {
    Text,
    View,
    Button,
    Input,
}

/// The kind of a node with content `c`.
pub open spec fn kind_of(c: NodeContent) -> NodeKind {
    match c {
        NodeContent::Text { .. } => NodeKind::Text,
        NodeContent::View { .. } => NodeKind::View,
        NodeContent::Button { .. } => NodeKind::Button,
        NodeContent::Input { .. } => NodeKind::Input,
    }
}

/// The text a node with content `c` shows, if it shows one.
pub open spec fn text_of(c: NodeContent) -> Option<Seq<char>> {
    match c {
        NodeContent::Text { text } => Some(text),
        NodeContent::Button { text } => Some(text),
        NodeContent::Input { text, .. } => Some(text),
        NodeContent::View { .. } => None,
    }
}

} // verus!
