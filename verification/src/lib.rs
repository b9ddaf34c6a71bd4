//! A read-only view of an accessibility tree: nodes looked up by identifier
//! in an immutable snapshot, navigation from a node to its parent and to its
//! nearest ancestor that assistive technology may see, and handles to nodes
//! that do not keep the snapshot alive.

pub mod data;
pub mod model;
pub mod node;
pub mod tree;
pub mod weak_tree;

pub use data::{NodeData, NodeId, Role};
pub use node::{resolve, Node, WeakNode};
pub use tree::{NodeState, ParentAndIndex, Reader, Tree};
