//! Shared, index-aware traversal: every descendant of a node, depth first.

use crate::arena::arena_nodes;
use crate::node::{range_of, Children, Node, NodeIndex, NodeNotFound};
use crate::scene_graph::SceneGraph;
use thunderdome::Index;
use vstd::prelude::*;

verus! {

/// Walks the descendants of one node in depth-first preorder and yields each
/// with its identifier.
///
/// The walk is lazy and makes a single pass. It keeps its own stack, so the
/// depth of the tree costs heap, not call stack.
pub struct SceneGraphIterWithIndex<'a, T> {
    sg: &'a SceneGraph<T>,
    stacks: Vec<StackState>,
}

/// A node that is still to be visited, with its record.
#[derive(Debug)]
struct StackState {
    current_child_index: Index,
    current_child: Node,
}

impl StackState {
    fn new(index: Index, first_child: Node) -> (frame: Self)
        ensures
            frame.current_child_index == index,
            frame.current_child == first_child,
    {
        Self { current_child_index: index, current_child: first_child }
    }
}

impl<'a, T> SceneGraphIterWithIndex<'a, T> {
    /// The nodes on the stack, top last.
    closed spec fn frames(&self) -> Seq<Index> {
        self.stacks@.map_values(|f: StackState| f.current_child_index)
    }

    /// The graph is well formed and every frame holds a node of it together
    /// with that node's record.
    pub closed spec fn wf(&self) -> bool {
        &&& self.sg.wf()
        &&& forall|k: int|
            0 <= k < self.stacks.len() ==> {
                &&& self.sg.contains(NodeIndex::Branch((#[trigger] self.stacks[k]).current_child_index))
                &&& self.stacks[k].current_child == arena_nodes(
                    self.sg.arena,
                )[self.stacks[k].current_child_index]
            }
    }

    /// The graph this traversal reads.
    pub closed spec fn graph(&self) -> SceneGraph<T> {
        *self.sg
    }

    /// The nodes this traversal has still to yield, in order.
    pub closed spec fn remaining(&self) -> Seq<Index> {
        self.sg.shape@.pending(self.frames())
    }

    /// A traversal of the descendants of `root_index`, whose child range is
    /// `root_children`.
    pub(crate) fn new(
        sg: &'a SceneGraph<T>,
        root_index: NodeIndex,
        root_children: Option<Children>,
    ) -> (iter: Self)
        requires
            sg.wf(),
            sg.contains(root_index),
            root_children == range_of(sg.children(root_index)),
        ensures
            iter.wf(),
            iter.graph() == *sg,
            iter.remaining() == sg.descendants(root_index),
    {
        let mut stacks = Vec::new();
        if let Some(children) = root_children {
            proof {
                sg.lemma_enter(root_index);
            }
            stacks.push(StackState::new(children.first, sg.node(children.first)));
        }
        let iter = SceneGraphIterWithIndex { sg, stacks };
        proof {
            let s = sg.shape@;
            if root_children is Some {
                let c = root_children.unwrap().first;
                assert(iter.frames() =~= Seq::<Index>::empty().push(c));
                s.lemma_pending_push(Seq::empty(), c);
            }
        }
        iter
    }

    /// Yields the next descendant with its identifier, or `None` once all
    /// have been yielded.
    pub fn next(&mut self) -> (item: Option<(NodeIndex, &'a T)>)
        requires
            old(self).wf(),
        ensures
            final(self).wf(),
            final(self).graph() == old(self).graph(),
            old(self).remaining().len() == 0 ==> item is None && final(self).remaining()
                == old(self).remaining(),
            old(self).remaining().len() > 0 ==> item == Some(
                (
                    NodeIndex::Branch(old(self).remaining()[0]),
                    &old(self).graph().value(NodeIndex::Branch(old(self).remaining()[0])),
                ),
            ) && final(self).remaining() == old(self).remaining().skip(1),
    {
        let sg = self.sg;
        let ghost s = sg.shape@;
        let ghost before = self.frames();
        // if we're out of stack frames, we are done
        let stack_frame = match self.stacks.pop() {
            Some(frame) => frame,
            None => {
                return None;
            },
        };
        let i = stack_frame.current_child_index;
        let ghost rest = self.frames();
        proof {
            assert(rest =~= before.drop_last());
            sg.lemma_visit(i);
        }
        let ghost mut frames = rest;

        // a sibling is visited only after this node's own subtree: push it first
        if let Some(next_sibling) = stack_frame.current_child.next_sibling {
            self.stacks.push(StackState::new(next_sibling, sg.node(next_sibling)));
            proof {
                s.lemma_pending_push(frames, next_sibling);
                frames = frames.push(next_sibling);
                assert(self.frames() =~= frames);
            }
        }
        if let Some(children) = stack_frame.current_child.children {
            self.stacks.push(StackState::new(children.first, sg.node(children.first)));
            proof {
                s.lemma_pending_push(frames, children.first);
                frames = frames.push(children.first);
                assert(self.frames() =~= frames);
            }
        }
        Some((NodeIndex::Branch(i), &sg.values[stack_frame.current_child.value]))
    }
}

impl<T> SceneGraph<T> {
    /// A traversal of every node below `node_index`, depth first, each with
    /// its identifier. The node itself is not yielded. Fails if `node_index`
    /// is stale.
    pub fn iter_from_node_with_index(&self, node_index: NodeIndex) -> (r: Result<
        SceneGraphIterWithIndex<'_, T>,
        NodeNotFound,
    >)
        requires
            self.wf(),
        ensures
            !self.contains(node_index) ==> r is Err,
            self.contains(node_index) ==> (r matches Ok(iter) && iter.wf() && iter.graph() == *self
                && iter.remaining() == self.descendants(node_index)),
    {
        let children = match self.range(node_index) {
            Ok(children) => children,
            Err(missing) => {
                return Err(missing);
            },
        };
        Ok(SceneGraphIterWithIndex::new(self, node_index, children))
    }
}

} // verus!
