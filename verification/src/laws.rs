//! What holds of every well-formed graph and of its two traversal orders.
//!
//! The graph's model is kept abstract: `contains`, `children`, `value`,
//! `descendants` and `admitted` have no visible body. The laws below say what
//! they are.

use crate::node::{nodes_of, NodeIndex};
use crate::scene_graph::SceneGraph;
use thunderdome::Index;
use vstd::prelude::*;

verus! {

impl<T> SceneGraph<T> {
    /// Depth-first preorder over the nodes `kids` and all that lies below
    /// them: each node, directly followed by its descendants, then the next.
    pub open spec fn walk(&self, kids: Seq<Index>) -> Seq<Index>
        decreases kids.len(),
    {
        if kids.len() == 0 {
            Seq::empty()
        } else {
            seq![kids[0]] + self.descendants(NodeIndex::Branch(kids[0])) + self.walk(kids.skip(1))
        }
    }

    /// Pruning preorder over the nodes `kids`, children of `parent`, and all
    /// that lies below them: each node whose value `keep` admits, paired with
    /// `parent` and directly followed by what is admitted below it. A
    /// rejected node contributes nothing, and the walk goes on with the node
    /// after it.
    pub open spec fn walk_admitted(
        &self,
        keep: spec_fn(T) -> bool,
        parent: NodeIndex,
        kids: Seq<Index>,
    ) -> Seq<(NodeIndex, Index)>
        decreases kids.len(),
    {
        if kids.len() == 0 {
            Seq::empty()
        } else {
            let here = if keep(self.value(NodeIndex::Branch(kids[0]))) {
                seq![(parent, kids[0])] + self.admitted(keep, NodeIndex::Branch(kids[0]))
            } else {
                Seq::empty()
            };
            here + self.walk_admitted(keep, parent, kids.skip(1))
        }
    }

    /// Whether `a` is `x` or has `x` among its descendants.
    pub open spec fn at_or_above(&self, a: Index, x: Index) -> bool {
        a == x || self.descendants(NodeIndex::Branch(a)).contains(x)
    }

    proof fn lemma_at_or_above(&self, a: Index, x: Index)
        ensures
            self.at_or_above(a, x) == self.shape@.at_or_above(a, x),
    {
    }

    proof fn lemma_walk(&self, id: NodeIndex, k: int)
        requires
            self.wf(),
            self.contains(id),
            0 <= k <= self.children(id).len(),
        ensures
            self.shape@.subtrees(id, k) == self.walk(self.children(id).skip(k)),
        decreases self.children(id).len() - k,
    {
        self.lemma_shape();
        let kids = self.children(id);
        if k < kids.len() {
            self.lemma_walk(id, k + 1);
            assert(kids.skip(k).skip(1) =~= kids.skip(k + 1));
        }
    }

    proof fn lemma_walk_admitted(&self, keep: spec_fn(T) -> bool, id: NodeIndex, k: int)
        requires
            self.wf(),
            self.contains(id),
            0 <= k <= self.children(id).len(),
        ensures
            self.shape@.pruned(self.keeper(keep), id, k) == self.walk_admitted(
                keep,
                id,
                self.children(id).skip(k),
            ),
        decreases self.children(id).len() - k,
    {
        self.lemma_shape();
        let kids = self.children(id);
        if k < kids.len() {
            self.lemma_walk_admitted(keep, id, k + 1);
            assert(kids.skip(k).skip(1) =~= kids.skip(k + 1));
        }
    }

    /// The descendants of a node are its children in the order they were
    /// attached, each directly followed by its own descendants and only then
    /// by its next sibling.
    pub proof fn law_descendants_by_children(&self, id: NodeIndex)
        requires
            self.wf(),
            self.contains(id),
        ensures
            self.descendants(id) == self.walk(self.children(id)),
    {
        self.lemma_walk(id, 0);
        assert(self.children(id).skip(0) =~= self.children(id));
    }

    /// A node without children has no descendants, and a traversal that
    /// starts there yields nothing, whatever the predicate.
    pub proof fn law_leaf_has_no_descendants(&self, keep: spec_fn(T) -> bool, id: NodeIndex)
        requires
            self.wf(),
            self.contains(id),
            self.children(id).len() == 0,
        ensures
            self.descendants(id) == Seq::<Index>::empty(),
            self.admitted(keep, id) == Seq::<(NodeIndex, Index)>::empty(),
    {
    }

    /// Every child is a node of the graph and has the node it is listed
    /// under as its parent; every branch node is listed among the children
    /// of its parent, once, and under no other node.
    pub proof fn law_parent_and_children(&self, p: NodeIndex, x: Index)
        requires
            self.wf(),
        ensures
            self.contains(p) && self.children(p).contains(x) ==> self.contains(NodeIndex::Branch(x))
                && self.parent_of(x) == p,
            self.contains(NodeIndex::Branch(x)) ==> self.contains(self.parent_of(x))
                && self.children(self.parent_of(x)).contains(x),
            self.contains(p) ==> self.children(p).no_duplicates(),
    {
        self.lemma_shape();
    }

    /// The descendants of the root are all the branch nodes, each exactly
    /// once.
    pub proof fn law_every_node_once(&self)
        requires
            self.wf(),
        ensures
            self.descendants(NodeIndex::Root).no_duplicates(),
            forall|i: Index|
                self.contains(NodeIndex::Branch(i)) <==> self.descendants(NodeIndex::Root).contains(
                    i,
                ),
    {
        self.lemma_shape();
        let s = self.shape@;
        s.lemma_no_dup(NodeIndex::Root, 0);
        assert forall|i: Index|
            self.contains(NodeIndex::Branch(i)) <==> self.descendants(NodeIndex::Root).contains(
                i,
            ) by {
            s.lemma_members(NodeIndex::Root, 0, i);
            if self.contains(NodeIndex::Branch(i)) {
                s.lemma_all_under_root(i);
            }
        }
    }

    /// The descendants of any node are nodes of the graph, none of them
    /// twice, and the node itself is not among them.
    pub proof fn law_descendants_distinct(&self, id: NodeIndex)
        requires
            self.wf(),
            self.contains(id),
        ensures
            self.descendants(id).no_duplicates(),
            forall|i: Index|
                self.descendants(id).contains(i) ==> self.contains(NodeIndex::Branch(i)) && id
                    != NodeIndex::Branch(i),
    {
        self.lemma_shape();
        let s = self.shape@;
        s.lemma_no_dup(id, 0);
        assert forall|i: Index| self.descendants(id).contains(i) implies self.contains(
            NodeIndex::Branch(i),
        ) && id != NodeIndex::Branch(i) by {
            s.lemma_members(id, 0, i);
        }
    }

    /// Where the predicate admits every value, the pruning traversal visits
    /// the same nodes as the plain one from the root, in the same order, and
    /// pairs each with its parent.
    pub proof fn law_admit_all(&self, keep: spec_fn(T) -> bool)
        requires
            self.wf(),
            forall|v: T| #[trigger] keep(v),
        ensures
            nodes_of(self.traversal(keep)) == self.descendants(NodeIndex::Root),
            forall|k: int|
                0 <= k < self.traversal(keep).len() ==> (#[trigger] self.traversal(keep)[k]).0
                    == self.parent_of(self.traversal(keep)[k].1),
    {
        self.lemma_shape();
        let s = self.shape@;
        let kept = self.keeper(keep);
        let t = self.traversal(keep);
        s.lemma_pruned_all(kept, NodeIndex::Root, 0);
        assert forall|k: int| 0 <= k < t.len() implies (#[trigger] t[k]).0 == self.parent_of(
            t[k].1,
        ) by {
            s.lemma_pruned_members(kept, NodeIndex::Root, 0, t[k].0, t[k].1);
        }
    }

    /// Whatever the predicate, every pair that the pruning traversal yields
    /// names a node of the graph together with that node's parent.
    pub proof fn law_yielded_are_nodes(&self, keep: spec_fn(T) -> bool, k: int)
        requires
            self.wf(),
            0 <= k < self.traversal(keep).len(),
        ensures
            self.contains(NodeIndex::Branch(self.traversal(keep)[k].1)),
            self.traversal(keep)[k].0 == self.parent_of(self.traversal(keep)[k].1),
            self.contains(self.traversal(keep)[k].0),
    {
        self.lemma_shape();
        let t = self.traversal(keep);
        assert(t.contains(t[k]));
        self.shape@.lemma_pruned_members(self.keeper(keep), NodeIndex::Root, 0, t[k].0, t[k].1);
    }

    /// Where the predicate rejects the root, the pruning traversal yields
    /// nothing, whatever the shape of the tree.
    pub proof fn law_root_rejected(&self, keep: spec_fn(T) -> bool)
        requires
            !keep(self.value(NodeIndex::Root)),
        ensures
            self.traversal(keep) == Seq::<(NodeIndex, Index)>::empty(),
    {
    }

    /// What is admitted below a node: its children in order, each child that
    /// the predicate admits directly followed by what is admitted below it.
    /// Nothing below a rejected child is yielded, and the children after it
    /// are treated as if it were not there.
    pub proof fn law_admitted_by_children(&self, keep: spec_fn(T) -> bool, id: NodeIndex)
        requires
            self.wf(),
            self.contains(id),
        ensures
            self.admitted(keep, id) == self.walk_admitted(keep, id, self.children(id)),
    {
        self.lemma_walk_admitted(keep, id, 0);
        assert(self.children(id).skip(0) =~= self.children(id));
    }

    /// The pruning traversal yields a node exactly if the predicate admits
    /// the root, the node, and every node above it; and it yields the node
    /// paired with its parent. So nothing at or below a rejected node is
    /// yielded, and what is neither rejected nor below a rejected node is.
    pub proof fn law_yielded_iff_admitted_above(&self, keep: spec_fn(T) -> bool, x: Index)
        requires
            self.wf(),
            self.contains(NodeIndex::Branch(x)),
        ensures
            nodes_of(self.traversal(keep)).contains(x) <==> self.traversal(keep).contains(
                (self.parent_of(x), x),
            ),
            self.traversal(keep).contains((self.parent_of(x), x)) <==> (keep(
                self.value(NodeIndex::Root),
            ) && forall|a: Index|
                self.contains(NodeIndex::Branch(a)) && #[trigger] self.at_or_above(a, x) ==> keep(
                    self.value(NodeIndex::Branch(a)),
                )),
    {
        self.lemma_shape();
        let s = self.shape@;
        let kept = self.keeper(keep);
        let t = self.traversal(keep);
        let hit = (self.parent_of(x), x);
        let all_above = forall|a: Index|
            self.contains(NodeIndex::Branch(a)) && #[trigger] self.at_or_above(a, x) ==> keep(
                self.value(NodeIndex::Branch(a)),
            );
        s.lemma_kept_chain(kept, x);
        if nodes_of(t).contains(x) {
            let k: int = choose|k: int| 0 <= k < nodes_of(t).len() && nodes_of(t)[k] == x;
            s.lemma_pruned_members(kept, NodeIndex::Root, 0, t[k].0, t[k].1);
        }
        if t.contains(hit) {
            let k: int = choose|k: int| 0 <= k < t.len() && t[k] == hit;
            assert(nodes_of(t)[k] == x);
            assert forall|a: Index|
                self.contains(NodeIndex::Branch(a)) && #[trigger] self.at_or_above(
                    a,
                    x,
                ) implies keep(self.value(NodeIndex::Branch(a))) by {
                self.lemma_at_or_above(a, x);
            }
        }
        if keep(self.value(NodeIndex::Root)) && all_above {
            assert forall|a: Index|
                s.parent.dom().contains(a) && #[trigger] s.at_or_above(a, x) implies kept(a) by {
                self.lemma_at_or_above(a, x);
            }
            s.lemma_all_under_root(x);
            s.lemma_pruned_has(kept, NodeIndex::Root, 0, x);
        }
    }

    /// A graph that is the same tree as this one has the same nodes, the
    /// same children and the same descendants, and is well formed if this
    /// one is.
    pub proof fn law_same_tree(&self, other: &Self)
        requires
            self.wf(),
            self.same_tree(other),
        ensures
            other.wf(),
            other.node_count() == self.node_count(),
            forall|id: NodeIndex| other.contains(id) == self.contains(id),
            forall|id: NodeIndex| other.children(id) == self.children(id),
            forall|id: NodeIndex| other.descendants(id) == self.descendants(id),
            forall|i: Index| other.parent_of(i) == self.parent_of(i),
    {
        self.lemma_same_tree();
    }
}

} // verus!
