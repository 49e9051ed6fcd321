//! Identifiers and the arena-resident node record.

use thunderdome::Index;
use vstd::prelude::*;

verus! {

/// Names one node of a scene graph: the root, or a branch by its arena index.
///
/// A `Branch` identifier goes stale once its slot is freed or reused; whether
/// it still resolves is decided by the graph it is handed to.
#[derive(Debug, Clone, Copy, PartialEq, Eq)]
pub enum NodeIndex {
    /// The single root, stored inline in the graph.
    Root,
    /// A node stored in the arena.
    Branch(Index),
}

/// Head and tail of a node's list of children.
///
/// The tail lets a new child be appended without walking the list.
#[derive(Debug, Clone, Copy)]
pub struct Children {
    pub first: Index,
    pub last: Index,
}

/// What the arena stores for one branch node: where its value is kept and how
/// it is linked to its children and to its next sibling.
#[derive(Debug, Clone, Copy)]
pub struct Node {
    /// Position of this node's value in the graph's value store.
    pub value: usize,
    /// First and last child, if the node has children.
    pub children: Option<Children>,
    /// The sibling attached right after this node, if any.
    pub next_sibling: Option<Index>,
}

/// A `Branch` identifier was given whose slot no longer resolves.
#[derive(Debug, Clone, Copy, PartialEq, Eq)]
pub struct NodeNotFound;

/// The child range of a node whose children are `kids`, in order.
pub open spec fn range_of(kids: Seq<Index>) -> Option<Children> {
    if kids.len() == 0 {
        None
    } else {
        Some(Children { first: kids[0], last: kids.last() })
    }
}

/// The sibling that follows position `k` in `kids`, if there is one.
pub open spec fn next_in(kids: Seq<Index>, k: int) -> Option<Index> {
    if 0 <= k && k + 1 < kids.len() {
        Some(kids[k + 1])
    } else {
        None
    }
}

/// The nodes of a sequence of parent and child pairs: the children.
pub open spec fn nodes_of(pairs: Seq<(NodeIndex, Index)>) -> Seq<Index> {
    Seq::new(pairs.len(), |k: int| pairs[k].1)
}

} // verus!
