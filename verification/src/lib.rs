//! A node tree for rendering sycamore templates into macOS windows.
//!
//! [`node::MacTree`] holds the nodes (labels, views, buttons, text fields)
//! and decides what each node operation does: which text a widget shows,
//! which children a view holds and how they are laid out, which handlers an
//! edit runs, and when two nodes are equal. The widgets themselves are
//! created and updated around it.

pub mod depth;
pub mod emitter;
pub mod equality;
pub mod laws;
pub mod model;
pub mod node;
pub mod text;
pub mod walk;
