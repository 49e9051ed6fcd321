//! Exclusive, pruning traversal from the root: each admitted node's value
//! together with its parent's, both mutable.

use crate::node::NodeIndex;
use crate::predicate::{computes, total};
use crate::scene_graph::SceneGraph;
use thunderdome::Index;
use vstd::prelude::*;

verus! {

/// Walks the graph from the root in depth-first preorder and yields, for
/// every node that the predicate admits, mutable access to the value of its
/// parent and to its own.
///
/// A node that the predicate rejects is skipped together with everything
/// below it; its siblings are not affected. If the root is rejected, nothing
/// is yielded.
///
/// The pair handed out by [`next`](Self::next) borrows the traversal, so it
/// has to be let go before the next pair is asked for: no two pairs are ever
/// alive at once.
pub struct SceneGraphIterMutPredicate<'a, T, F> {
    /// The graph, held exclusively for as long as the traversal lives.
    pub sg: &'a mut SceneGraph<T>,
    /// Where the traversal stands.
    pub walk: PrunedWalk<F>,
}

/// The state of a pruning traversal: the predicate and the stack of nodes
/// that are still to be considered.
pub struct PrunedWalk<F> {
    predicate: F,
    stacks: Vec<StackState>,
}

/// A node that is still to be considered, with its parent.
#[derive(Debug)]
struct StackState {
    parent: NodeIndex,
    current_child: Index,
}

impl StackState {
    fn new(parent: NodeIndex, first_child: Index) -> (frame: Self)
        ensures
            frame.parent == parent,
            frame.current_child == first_child,
    {
        Self { parent, current_child: first_child }
    }
}

impl<F> PrunedWalk<F> {
    /// The frames on the stack, top last: each a parent and a child.
    closed spec fn frames(&self) -> Seq<(NodeIndex, Index)> {
        self.stacks@.map_values(|f: StackState| (f.parent, f.current_child))
    }

    /// The children named by the frames on the stack, top last.
    closed spec fn indices(&self) -> Seq<Index> {
        self.stacks@.map_values(|f: StackState| f.current_child)
    }

    /// The predicate that decides which nodes are admitted.
    pub closed spec fn predicate(&self) -> F {
        self.predicate
    }

    /// Whether this state fits the graph `g`: `g` is well formed, the
    /// predicate can be called on every value, and every node on the stack
    /// is a node of `g` and stands there with its parent.
    pub closed spec fn fits<T>(&self, g: &SceneGraph<T>) -> bool where F: Fn(&T) -> bool {
        &&& g.wf()
        &&& total(self.predicate)
        &&& forall|k: int|
            0 <= k < self.stacks.len() ==> {
                &&& g.contains(NodeIndex::Branch((#[trigger] self.stacks[k]).current_child))
                &&& g.parent_of(self.stacks[k].current_child) == self.stacks[k].parent
            }
    }

    /// What a traversal in this state yields from here on, on the graph `g`
    /// and with a predicate that computes `keep`: pairs of a parent and an
    /// admitted child, in order.
    pub closed spec fn pending_in<T>(&self, g: &SceneGraph<T>, keep: spec_fn(T) -> bool) -> Seq<
        (NodeIndex, Index),
    > {
        g.shape@.pending_pruned(g.keeper(keep), keep(g.value(NodeIndex::Root)), self.frames())
    }

    /// What is still to be yielded depends on the values only through what
    /// the predicate says of them: on two graphs that are the same tree and
    /// in which `keep` admits the same nodes, a traversal in this state
    /// yields the same. A state that fits one of the two fits the other.
    pub proof fn law_pending_follows_admission<T>(
        &self,
        g: &SceneGraph<T>,
        h: &SceneGraph<T>,
        keep: spec_fn(T) -> bool,
    ) where F: Fn(&T) -> bool
        requires
            self.fits(g) || self.fits(h),
            g.same_tree(h),
            forall|id: NodeIndex| g.contains(id) ==> keep(g.value(id)) == keep(h.value(id)),
        ensures
            self.fits(g),
            self.fits(h),
            self.pending_in(h, keep) == self.pending_in(g, keep),
    {
        if self.fits(g) {
            g.lemma_same_tree();
        } else {
            h.lemma_same_tree();
            assert(h.same_tree(g));
        }
        g.lemma_shape();
        let s = g.shape@;
        let kept = g.keeper(keep);
        let other = h.keeper(keep);
        assert forall|c: Index| s.parent.dom().contains(c) implies #[trigger] kept(c) == other(
            c,
        ) by {
            assert(g.contains(NodeIndex::Branch(c)));
        }
        assert(g.contains(NodeIndex::Root));
        s.lemma_pending_pruned_same(kept, other, keep(g.value(NodeIndex::Root)), self.frames());
    }

    /// The state in which a traversal of `sg` below `root_node_idx` starts.
    fn new<T>(sg: &SceneGraph<T>, root_node_idx: NodeIndex, predicate: F) -> (walk: Self) where
        F: Fn(&T) -> bool,

        requires
            sg.wf(),
            total(predicate),
        ensures
            walk.fits(sg),
            walk.predicate() == predicate,
            forall|keep: spec_fn(T) -> bool| #[trigger]
                walk.pending_in(sg, keep) == sg.traversal_from(keep, root_node_idx),
    {
        let mut stacks = Vec::new();
        let first_child = match sg.range(root_node_idx) {
            Ok(Some(children)) => Some(children.first),
            _ => None,
        };
        if let Some(first_child) = first_child {
            stacks.push(StackState::new(root_node_idx, first_child));
        }
        proof {
            if sg.contains(root_node_idx) {
                sg.lemma_first_child(root_node_idx);
            }
        }
        let walk = PrunedWalk { predicate, stacks };
        proof {
            let s = sg.shape@;
            assert forall|keep: spec_fn(T) -> bool| #[trigger]
                walk.pending_in(sg, keep) == sg.traversal_from(keep, root_node_idx) by {
                let kept = sg.keeper(keep);
                let keep_root = keep(sg.value(NodeIndex::Root));
                if first_child is Some {
                    let c = first_child.unwrap();
                    assert(walk.frames() =~= Seq::<(NodeIndex, Index)>::empty().push(
                        (root_node_idx, c),
                    ));
                    s.lemma_pending_pruned_push(kept, keep_root, Seq::empty(), root_node_idx, c);
                    assert(s.pending_pruned(kept, keep_root, Seq::empty()) =~= Seq::<
                        (NodeIndex, Index),
                    >::empty());
                }
            }
        }
        walk
    }

    /// Advances the traversal of `sg` to the next admitted node and hands
    /// out its parent's value and its own.
    fn next<'g, T>(&mut self, sg: &'g mut SceneGraph<T>) -> (item: Option<
        (&'g mut T, &'g mut T),
    >) where F: Fn(&T) -> bool
        requires
            old(self).fits(old(sg)),
        ensures
            final(self).fits(final(sg)),
            final(self).predicate() == old(self).predicate(),
            old(sg).same_tree(final(sg)),
            item is None ==> *final(sg) == *old(sg),
            item matches Some((parent, child)) ==> old(sg).hands_out_a_pair(
                final(sg),
                *parent,
                *child,
                *final(parent),
                *final(child),
            ),
            forall|keep: spec_fn(T) -> bool| #[trigger]
                computes(old(self).predicate(), keep) ==> match item {
                    None => {
                        &&& old(self).pending_in(old(sg), keep).len() == 0
                        &&& final(self).pending_in(old(sg), keep).len() == 0
                    },
                    Some((parent, child)) => {
                        let first = old(self).pending_in(old(sg), keep)[0];
                        &&& old(self).pending_in(old(sg), keep).len() > 0
                        &&& final(self).pending_in(old(sg), keep) == old(self).pending_in(
                            old(sg),
                            keep,
                        ).skip(1)
                        &&& old(sg).hands_out(
                            final(sg),
                            first.0,
                            first.1,
                            *parent,
                            *child,
                            *final(parent),
                            *final(child),
                        )
                    },
                },
    {
        let ghost g = *sg;
        let ghost s = g.shape@;
        loop
            invariant
                self.fits(sg),
                self.predicate == old(self).predicate,
                *sg == g,
                *final(sg) == *final(old(sg)),
                g == *old(sg),
                s == g.shape@,
                forall|keep: spec_fn(T) -> bool| #[trigger]
                    computes(self.predicate, keep) ==> self.pending_in(&g, keep) == old(
                        self,
                    ).pending_in(&g, keep),
            decreases s.pending(self.indices()).len(),
        {
            let ghost before = self.frames();
            let ghost before_indices = self.indices();
            let stack_frame = match self.stacks.pop() {
                Some(frame) => frame,
                None => {
                    return None;
                },
            };
            let p = stack_frame.parent;
            let i = stack_frame.current_child;
            let ghost rest = self.frames();
            let ghost rest_indices = self.indices();
            proof {
                assert(rest =~= before.drop_last());
                assert(rest_indices =~= before_indices.drop_last());
                assert(before =~= rest.push((p, i)));
                g.lemma_visit(i);
                assert forall|keep: spec_fn(T) -> bool| #[trigger]
                    g.pruned_step(keep, rest, p, i) by {
                    g.lemma_pruned_step(keep, rest, p, i);
                }
            }
            let node = sg.node(i);

            if let NodeIndex::Root = p {
                if !(self.predicate)(&sg.root) {
                    // the root is rejected: nothing below it is visited
                    continue;
                }
            }
            // a rejected node's siblings are still considered: push the sibling first
            if let Some(next_sibling) = node.next_sibling {
                self.stacks.push(StackState::new(p, next_sibling));
                proof {
                    s.lemma_pending_push(rest_indices, next_sibling);
                    assert(self.frames() =~= rest.push((p, next_sibling)));
                    assert(self.indices() =~= rest_indices.push(next_sibling));
                }
            }
            let ghost mid = self.frames();
            if !(self.predicate)(&sg.values[node.value]) {
                // this node and everything below it is skipped
                proof {
                    assert forall|keep: spec_fn(T) -> bool| #[trigger]
                        computes(self.predicate, keep) implies self.pending_in(&g, keep) == old(
                        self,
                    ).pending_in(&g, keep) by {
                        assert(g.pruned_step(keep, rest, p, i));
                    }
                }
                continue;
            }
            if let Some(children) = node.children {
                self.stacks.push(StackState::new(NodeIndex::Branch(i), children.first));
                proof {
                    assert(self.frames() =~= mid.push((NodeIndex::Branch(i), children.first)));
                }
            }
            proof {
                g.lemma_same_tree();
                assert forall|keep: spec_fn(T) -> bool| #[trigger]
                    computes(self.predicate, keep) implies self.pending_in(&g, keep) =~= old(
                    self,
                ).pending_in(&g, keep).skip(1) && old(self).pending_in(&g, keep).len() > 0 && old(
                    self,
                ).pending_in(&g, keep)[0] == (p, i) by {
                    assert(g.pruned_step(keep, rest, p, i));
                    assert(old(self).pending_in(&g, keep) =~= seq![(p, i)] + self.pending_in(
                        &g,
                        keep,
                    ));
                }
                assert(self.predicate == old(self).predicate());
            }
            return Some(sg.pair_mut(p, i));
        }
    }
}

impl<'a, T, F: Fn(&T) -> bool> SceneGraphIterMutPredicate<'a, T, F> {
    /// The traversal's state fits its graph.
    pub open spec fn wf(&self) -> bool {
        self.walk.fits(self.sg)
    }

    /// What this traversal will still yield if its predicate computes `keep`
    /// and no value is changed in a way that `keep` can tell: pairs of a
    /// parent and an admitted child, in order.
    pub open spec fn pending(&self, keep: spec_fn(T) -> bool) -> Seq<(NodeIndex, Index)> {
        self.walk.pending_in(self.sg, keep)
    }

    /// A traversal of what lies below `root_node_idx`. A stale start yields
    /// nothing.
    pub(crate) fn new(sg: &'a mut SceneGraph<T>, root_node_idx: NodeIndex, predicate: F) -> (iter:
        Self)
        requires
            old(sg).wf(),
            total(predicate),
        ensures
            iter.wf(),
            *iter.sg == *old(sg),
            *final(iter.sg) == *final(sg),
            iter.walk.predicate() == predicate,
            forall|keep: spec_fn(T) -> bool| #[trigger]
                iter.pending(keep) == old(sg).traversal_from(keep, root_node_idx),
    {
        let walk = PrunedWalk::new(sg, root_node_idx, predicate);
        SceneGraphIterMutPredicate { sg, walk }
    }

    /// Yields the next admitted node as a pair of mutable references, to its
    /// parent's value and to its own, or `None` once the traversal is over.
    ///
    /// Whatever the predicate does: a yielded pair is the values of some
    /// node and of its parent, what is written through the two references is
    /// what the graph then holds for those two nodes, and no other value and
    /// no link changes; `None` leaves the graph as it was.
    ///
    /// Whatever `keep` the predicate computes: the pair is the first that
    /// was pending, and what is pending afterwards is the rest.
    pub fn next(&mut self) -> (item: Option<(&mut T, &mut T)>)
        requires
            old(self).wf(),
        ensures
            final(self).wf(),
            final(self).walk.predicate() == old(self).walk.predicate(),
            *final(final(self).sg) == *final(old(self).sg),
            old(self).sg.same_tree(final(self).sg),
            item is None ==> *final(self).sg == *old(self).sg,
            item matches Some((parent, child)) ==> old(self).sg.hands_out_a_pair(
                final(self).sg,
                *parent,
                *child,
                *final(parent),
                *final(child),
            ),
            forall|keep: spec_fn(T) -> bool| #[trigger]
                computes(old(self).walk.predicate(), keep) ==> match item {
                    None => {
                        &&& old(self).pending(keep).len() == 0
                        &&& final(self).pending(keep).len() == 0
                    },
                    Some((parent, child)) => {
                        let first = old(self).pending(keep)[0];
                        &&& old(self).pending(keep).len() > 0
                        &&& final(self).walk.pending_in(old(self).sg, keep) == old(self).pending(
                            keep,
                        ).skip(1)
                        &&& old(self).sg.hands_out(
                            final(self).sg,
                            first.0,
                            first.1,
                            *parent,
                            *child,
                            *final(parent),
                            *final(child),
                        )
                    },
                },
    {
        self.walk.next(self.sg)
    }
}

impl<T> SceneGraph<T> {
    /// A traversal from the root that yields every node `predicate` admits,
    /// with mutable access to its parent's value and to its own, and skips
    /// the subtrees of the nodes it rejects.
    pub fn iter_mut_predicate<F: Fn(&T) -> bool>(&mut self, predicate: F) -> (iter:
        SceneGraphIterMutPredicate<'_, T, F>)
        requires
            old(self).wf(),
            total(predicate),
        ensures
            iter.wf(),
            *iter.sg == *old(self),
            *final(iter.sg) == *final(self),
            iter.walk.predicate() == predicate,
            forall|keep: spec_fn(T) -> bool| #[trigger]
                iter.pending(keep) == old(self).traversal(keep),
    {
        SceneGraphIterMutPredicate::new(self, NodeIndex::Root, predicate)
    }
}

} // verus!
