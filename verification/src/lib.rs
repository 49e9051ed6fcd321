//! An arena-backed scene graph: a tree whose root value lives inline and whose
//! other nodes live in a generational arena, linked first-child / next-sibling.
//!
//! Two traversals are offered, both depth-first and in preorder: a shared one
//! that yields every descendant of a node with its identifier, and an
//! exclusive one that walks from the root, prunes the subtrees a predicate
//! rejects, and hands out each admitted node's value together with its
//! parent's, both mutably.
//!
//! Every executable function carries a contract over the tree's mathematical
//! model (`contains`, `children`, `value`, `descendants`, `admitted`). Verus
//! proves these contracts, with one exception: what the arena's own methods
//! do is assumed. The six functions in [`arena`] that call them state what is
//! assumed of each, and everything else is proved from those statements.

pub mod arena;
pub mod iter_mut_predicate;
pub mod iter_with_index;
pub mod laws;
mod links;
pub mod node;
pub mod predicate;
pub mod scene_graph;
mod tree;

pub use iter_mut_predicate::SceneGraphIterMutPredicate;
pub use iter_with_index::SceneGraphIterWithIndex;
pub use node::{nodes_of, Children, Node, NodeIndex, NodeNotFound};
pub use predicate::{computes, total};
pub use scene_graph::SceneGraph;
