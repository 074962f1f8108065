//! The node types of the first tree layout. Entries and the sortedness
//! check are shared with the current layout.

pub mod any_node;
pub mod leaf_node;

pub use crate::non_volatile::object::tree::{is_sorted, NodeEntry};
pub use any_node::AnyNode;
pub use leaf_node::LeafNode;
