//! The shape of a tree as mathematics: who is whose child, in what order.
//!
//! A [`Shape`] records, for every node, its ordered children, its parent, its
//! position among its siblings and its depth. The graph keeps one as ghost
//! state and ties its links to it; the traversal orders are defined here, on
//! the shape alone.

use crate::node::{nodes_of, NodeIndex};
use thunderdome::Index;
use vstd::prelude::*;

verus! {

/// A rooted, ordered tree over arena indices, with no values in it.
pub struct Shape {
    /// The children of every node, in the order they were attached.
    pub kids: Map<NodeIndex, Seq<Index>>,
    /// The parent of every branch node.
    pub parent: Map<Index, NodeIndex>,
    /// The position of every branch node in its parent's list of children.
    pub pos: Map<Index, int>,
    /// The depth of every branch node; children of the root have depth 1.
    pub depth: Map<Index, nat>,
    /// A bound on every depth.
    pub height: nat,
}

/// A value occurs in a concatenation exactly if it occurs in one of the parts.
pub proof fn lemma_concat_contains<A>(a: Seq<A>, b: Seq<A>, x: A)
    ensures
        (a + b).contains(x) <==> a.contains(x) || b.contains(x),
{
    if a.contains(x) {
        let i: int = choose|i: int| 0 <= i < a.len() && a[i] == x;
        assert((a + b)[i] == x);
    }
    if b.contains(x) {
        let j: int = choose|j: int| 0 <= j < b.len() && b[j] == x;
        assert((a + b)[a.len() + j] == x);
    }
}

impl Shape {
    /// Whether `id` names a node of this tree.
    pub open spec fn contains(self, id: NodeIndex) -> bool {
        match id {
            NodeIndex::Root => true,
            NodeIndex::Branch(i) => self.parent.dom().contains(i),
        }
    }

    /// The depth of `id`; the root has depth 0.
    pub open spec fn depth_of(self, id: NodeIndex) -> nat {
        match id {
            NodeIndex::Root => 0,
            NodeIndex::Branch(i) => self.depth[i],
        }
    }

    /// Parent, position and children agree with one another, and depth grows
    /// by one from parent to child. A shape like this is a finite-depth tree:
    /// every branch node has exactly one place in it.
    pub open spec fn wf(self) -> bool {
        &&& forall|id: NodeIndex| #[trigger] self.kids.dom().contains(id) <==> self.contains(id)
        &&& self.pos.dom() == self.parent.dom()
        &&& self.depth.dom() == self.parent.dom()
        &&& forall|i: Index| #[trigger]
            self.parent.dom().contains(i) ==> {
                &&& self.contains(self.parent[i])
                &&& 0 <= self.pos[i] < self.kids[self.parent[i]].len()
                &&& self.kids[self.parent[i]][self.pos[i]] == i
                &&& self.depth[i] == self.depth_of(self.parent[i]) + 1
                &&& self.depth[i] <= self.height
            }
        &&& forall|p: NodeIndex, k: int|
            self.contains(p) && 0 <= k < self.kids[p].len() ==> {
                &&& self.parent.dom().contains(#[trigger] self.kids[p][k])
                &&& self.parent[self.kids[p][k]] == p
                &&& self.pos[self.kids[p][k]] == k
            }
    }

    /// The tree that has a root and nothing else.
    pub open spec fn bare() -> Shape {
        Shape {
            kids: Map::empty().insert(NodeIndex::Root, Seq::empty()),
            parent: Map::empty(),
            pos: Map::empty(),
            depth: Map::empty(),
            height: 0,
        }
    }

    /// This tree with `x` added as the last child of `p`.
    pub open spec fn grow(self, p: NodeIndex, x: Index) -> Shape {
        let d = self.depth_of(p) + 1;
        Shape {
            kids: self.kids.insert(p, self.kids[p].push(x)).insert(
                NodeIndex::Branch(x),
                Seq::empty(),
            ),
            parent: self.parent.insert(x, p),
            pos: self.pos.insert(x, self.kids[p].len() as int),
            depth: self.depth.insert(x, d as nat),
            height: if self.height < d {
                d as nat
            } else {
                self.height
            },
        }
    }

    /// The children of `p` from position `k` on, each followed by all of its
    /// own descendants: depth-first preorder.
    pub open spec fn subtrees(self, p: NodeIndex, k: int) -> Seq<Index>
        decreases self.height - self.depth_of(p), self.kids[p].len() - k,
    {
        if 0 <= k < self.kids[p].len() {
            let c = self.kids[p][k];
            let below = if self.depth_of(p) < self.depth[c] <= self.height {
                self.subtrees(NodeIndex::Branch(c), 0)
            } else {
                Seq::empty()
            };
            seq![c] + below + self.subtrees(p, k + 1)
        } else {
            Seq::empty()
        }
    }

    /// Like [`Shape::subtrees`], but a child that `keep` rejects is left out
    /// together with everything below it. Each node comes paired with its
    /// parent.
    pub open spec fn pruned(self, keep: spec_fn(Index) -> bool, p: NodeIndex, k: int) -> Seq<
        (NodeIndex, Index),
    >
        decreases self.height - self.depth_of(p), self.kids[p].len() - k,
    {
        if 0 <= k < self.kids[p].len() {
            let c = self.kids[p][k];
            let here = if keep(c) {
                let below = if self.depth_of(p) < self.depth[c] <= self.height {
                    self.pruned(keep, NodeIndex::Branch(c), 0)
                } else {
                    Seq::empty()
                };
                seq![(p, c)] + below
            } else {
                Seq::empty()
            };
            here + self.pruned(keep, p, k + 1)
        } else {
            Seq::empty()
        }
    }

    /// What a traversal still has to visit when `frames` is its stack, top
    /// last: for each frame, the node it names, that node's descendants, and
    /// the same for every sibling after it.
    pub open spec fn pending(self, frames: Seq<Index>) -> Seq<Index>
        decreases frames.len(),
    {
        if frames.len() == 0 {
            Seq::empty()
        } else {
            self.subtrees(self.parent[frames.last()], self.pos[frames.last()]) + self.pending(
                frames.drop_last(),
            )
        }
    }

    /// One step of a traversal whose top frame is `i`: `i` is visited, and
    /// what remains is what the frames for its first child and its next
    /// sibling stand for.
    pub proof fn lemma_step(self, i: Index)
        requires
            self.wf(),
            self.parent.dom().contains(i),
        ensures
            self.subtrees(self.parent[i], self.pos[i]) == seq![i] + self.subtrees(
                NodeIndex::Branch(i),
                0,
            ) + self.subtrees(self.parent[i], self.pos[i] + 1),
            self.kids[NodeIndex::Branch(i)].len() > 0 ==> {
                let c = self.kids[NodeIndex::Branch(i)][0];
                self.parent.dom().contains(c) && self.parent[c] == NodeIndex::Branch(i)
                    && self.pos[c] == 0
            },
            self.kids[NodeIndex::Branch(i)].len() == 0 ==> self.subtrees(NodeIndex::Branch(i), 0)
                == Seq::<Index>::empty(),
            self.pos[i] + 1 < self.kids[self.parent[i]].len() ==> {
                let n = self.kids[self.parent[i]][self.pos[i] + 1];
                self.parent.dom().contains(n) && self.parent[n] == self.parent[i] && self.pos[n]
                    == self.pos[i] + 1
            },
            self.pos[i] + 1 >= self.kids[self.parent[i]].len() ==> self.subtrees(
                self.parent[i],
                self.pos[i] + 1,
            ) == Seq::<Index>::empty(),
    {
    }

    pub proof fn lemma_pending_push(self, frames: Seq<Index>, i: Index)
        ensures
            self.pending(frames.push(i)) == self.subtrees(self.parent[i], self.pos[i])
                + self.pending(frames),
    {
        assert(frames.push(i).drop_last() =~= frames);
    }

    /// What a pruning traversal still has to yield when `frames` is its
    /// stack, top last. A frame names a node and its parent. A frame under
    /// the root stands for nothing if the root itself is rejected.
    pub open spec fn pending_pruned(
        self,
        keep: spec_fn(Index) -> bool,
        keep_root: bool,
        frames: Seq<(NodeIndex, Index)>,
    ) -> Seq<(NodeIndex, Index)>
        decreases frames.len(),
    {
        if frames.len() == 0 {
            Seq::empty()
        } else {
            let (p, c) = frames.last();
            let top = if p is Root && !keep_root {
                Seq::empty()
            } else {
                self.pruned(keep, p, self.pos[c])
            };
            top + self.pending_pruned(keep, keep_root, frames.drop_last())
        }
    }

    /// One step of a pruning traversal whose top frame is `i`.
    pub proof fn lemma_pruned_step(self, keep: spec_fn(Index) -> bool, i: Index)
        requires
            self.wf(),
            self.parent.dom().contains(i),
        ensures
            self.pruned(keep, self.parent[i], self.pos[i]) == (if keep(i) {
                seq![(self.parent[i], i)] + self.pruned(keep, NodeIndex::Branch(i), 0)
            } else {
                Seq::empty()
            }) + self.pruned(keep, self.parent[i], self.pos[i] + 1),
            self.kids[NodeIndex::Branch(i)].len() == 0 ==> self.pruned(
                keep,
                NodeIndex::Branch(i),
                0,
            ) == Seq::<(NodeIndex, Index)>::empty(),
            self.pos[i] + 1 >= self.kids[self.parent[i]].len() ==> self.pruned(
                keep,
                self.parent[i],
                self.pos[i] + 1,
            ) == Seq::<(NodeIndex, Index)>::empty(),
    {
    }

    pub proof fn lemma_pending_pruned_push(
        self,
        keep: spec_fn(Index) -> bool,
        keep_root: bool,
        frames: Seq<(NodeIndex, Index)>,
        p: NodeIndex,
        c: Index,
    )
        ensures
            self.pending_pruned(keep, keep_root, frames.push((p, c))) == (if p is Root
                && !keep_root {
                Seq::empty()
            } else {
                self.pruned(keep, p, self.pos[c])
            }) + self.pending_pruned(keep, keep_root, frames),
    {
        assert(frames.push((p, c)).drop_last() =~= frames);
    }

    /// One step of a pruning traversal, in terms of its stack. The top frame
    /// names `i` with its parent `p`, above the frames `rest`; `first_child`
    /// and `next_sibling` are the links of `i`. If the frame is dropped
    /// because the root is rejected, what is pending is what `rest` stands
    /// for. Otherwise the frame for the next sibling is pushed; if `i` is
    /// rejected, nothing more happens. If `i` is kept, the frame for its
    /// first child is pushed as well and `(p, i)` is yielded.
    pub open spec fn frames_step(
        self,
        keep: spec_fn(Index) -> bool,
        keep_root: bool,
        rest: Seq<(NodeIndex, Index)>,
        p: NodeIndex,
        i: Index,
        first_child: Option<Index>,
        next_sibling: Option<Index>,
    ) -> bool {
        let mid = match next_sibling {
            Some(n) => rest.push((p, n)),
            None => rest,
        };
        let top = match first_child {
            Some(c) => mid.push((NodeIndex::Branch(i), c)),
            None => mid,
        };
        let before = self.pending_pruned(keep, keep_root, rest.push((p, i)));
        if p is Root && !keep_root {
            before == self.pending_pruned(keep, keep_root, rest)
        } else if !keep(i) {
            before == self.pending_pruned(keep, keep_root, mid)
        } else {
            before == seq![(p, i)] + self.pending_pruned(keep, keep_root, top)
        }
    }

    pub proof fn lemma_frames_step(
        self,
        keep: spec_fn(Index) -> bool,
        keep_root: bool,
        rest: Seq<(NodeIndex, Index)>,
        p: NodeIndex,
        i: Index,
        first_child: Option<Index>,
        next_sibling: Option<Index>,
    )
        requires
            self.wf(),
            self.parent.dom().contains(i),
            self.parent[i] == p,
            first_child == (if self.kids[NodeIndex::Branch(i)].len() > 0 {
                Some(self.kids[NodeIndex::Branch(i)][0])
            } else {
                None
            }),
            next_sibling == crate::node::next_in(self.kids[p], self.pos[i]),
        ensures
            self.frames_step(keep, keep_root, rest, p, i, first_child, next_sibling),
    {
        let mid = match next_sibling {
            Some(n) => rest.push((p, n)),
            None => rest,
        };
        let top = match first_child {
            Some(c) => mid.push((NodeIndex::Branch(i), c)),
            None => mid,
        };
        let tail = self.pending_pruned(keep, keep_root, rest);
        let sibling = self.pruned(keep, p, self.pos[i] + 1);
        let child = self.pruned(keep, NodeIndex::Branch(i), 0);
        self.lemma_pruned_step(keep, i);
        self.lemma_pending_pruned_push(keep, keep_root, rest, p, i);
        if !(p is Root && !keep_root) {
            assert(self.pending_pruned(keep, keep_root, mid) =~= sibling + tail) by {
                match next_sibling {
                    Some(n) => {
                        self.lemma_pending_pruned_push(keep, keep_root, rest, p, n);
                    },
                    None => {},
                }
            }
            assert(self.pending_pruned(keep, keep_root, top) =~= child + (sibling + tail)) by {
                match first_child {
                    Some(c) => {
                        self.lemma_pending_pruned_push(
                            keep,
                            keep_root,
                            mid,
                            NodeIndex::Branch(i),
                            c,
                        );
                    },
                    None => {},
                }
            }
            if keep(i) {
                assert(self.pending_pruned(keep, keep_root, rest.push((p, i))) =~= seq![(p, i)] + (
                child + (sibling + tail)));
            }
        }
    }

    /// No node is its own parent.
    pub proof fn lemma_parent_differs(self, i: Index)
        requires
            self.wf(),
            self.parent.dom().contains(i),
        ensures
            self.parent[i] != NodeIndex::Branch(i),
    {
    }

    /// The ancestor of `x` at depth `d`, or `x` itself if `x` is no deeper
    /// than `d`.
    pub open spec fn anc(self, x: Index, d: nat) -> Index
        decreases self.depth[x],
    {
        if self.depth[x] <= d {
            x
        } else {
            match self.parent[x] {
                NodeIndex::Branch(q) => if self.depth[q] < self.depth[x] {
                    self.anc(q, d)
                } else {
                    x
                },
                NodeIndex::Root => x,
            }
        }
    }

    /// Whether `x` lies below `p`, in the subtree of a child of `p` at
    /// position `k` or later.
    pub open spec fn under(self, p: NodeIndex, k: int, x: Index) -> bool {
        let a = self.anc(x, self.depth_of(p) + 1);
        &&& self.parent.dom().contains(x)
        &&& self.depth[x] > self.depth_of(p)
        &&& self.parent[a] == p
        &&& self.pos[a] >= k
    }

    /// Whether `keep` holds of `x` and of every node above `x` that lies
    /// deeper than `d`.
    pub open spec fn kept_down_to(self, keep: spec_fn(Index) -> bool, d: nat, x: Index) -> bool {
        forall|e: nat| d < e <= self.depth[x] ==> keep(#[trigger] self.anc(x, e))
    }

    /// The ancestor at depth `d` is a node of depth `d`, and it is the parent
    /// of the ancestor one level further down.
    pub proof fn lemma_anc(self, x: Index, d: nat)
        requires
            self.wf(),
            self.parent.dom().contains(x),
            1 <= d <= self.depth[x],
        ensures
            self.parent.dom().contains(self.anc(x, d)),
            self.depth[self.anc(x, d)] == d,
            d < self.depth[x] ==> self.parent[self.anc(x, (d + 1) as nat)] == NodeIndex::Branch(
                self.anc(x, d),
            ),
        decreases self.depth[x],
    {
        if self.depth[x] > d {
            match self.parent[x] {
                NodeIndex::Root => {},
                NodeIndex::Branch(q) => {
                    self.lemma_anc(q, d);
                },
            }
        }
    }

    /// A node's parent is its ancestor one level up, so what lies below a
    /// node `c` has `c` as its ancestor at the depth of `c`.
    pub proof fn lemma_under_child(self, c: Index, x: Index)
        requires
            self.wf(),
            self.parent.dom().contains(c),
            self.under(NodeIndex::Branch(c), 0, x),
        ensures
            self.anc(x, self.depth[c]) == c,
    {
        self.lemma_anc(x, self.depth[c]);
    }

    /// The members of a preorder: exactly the nodes below `p` in the subtree
    /// of a child at position `k` or later.
    pub proof fn lemma_members(self, p: NodeIndex, k: int, x: Index)
        requires
            self.wf(),
            self.contains(p),
            0 <= k,
        ensures
            self.subtrees(p, k).contains(x) <==> self.under(p, k, x),
        decreases self.height - self.depth_of(p), self.kids[p].len() - k,
    {
        let d = self.depth_of(p);
        let a = self.anc(x, d + 1);
        if k < self.kids[p].len() {
            let c = self.kids[p][k];
            let below = self.subtrees(NodeIndex::Branch(c), 0);
            let after = self.subtrees(p, k + 1);
            self.lemma_members(NodeIndex::Branch(c), 0, x);
            self.lemma_members(p, k + 1, x);
            lemma_concat_contains(seq![c] + below, after, x);
            lemma_concat_contains(seq![c], below, x);
            assert(seq![c].contains(x) <==> x == c) by {
                if x == c {
                    assert(seq![c][0] == x);
                }
            }
            if self.under(NodeIndex::Branch(c), 0, x) {
                self.lemma_under_child(c, x);
            }
            if self.under(p, k, x) && self.pos[a] == k {
                self.lemma_anc(x, d + 1);
                if self.depth[x] > d + 1 {
                    self.lemma_anc(x, (d + 2) as nat);
                }
            }
        } else {
            if self.under(p, k, x) {
                self.lemma_anc(x, d + 1);
            }
        }
    }

    /// A preorder visits no node twice.
    pub proof fn lemma_no_dup(self, p: NodeIndex, k: int)
        requires
            self.wf(),
            self.contains(p),
            0 <= k,
        ensures
            self.subtrees(p, k).no_duplicates(),
        decreases self.height - self.depth_of(p), self.kids[p].len() - k,
    {
        if k < self.kids[p].len() {
            let c = self.kids[p][k];
            let below = self.subtrees(NodeIndex::Branch(c), 0);
            let after = self.subtrees(p, k + 1);
            self.lemma_no_dup(NodeIndex::Branch(c), 0);
            self.lemma_no_dup(p, k + 1);
            assert forall|i: int, j: int| 0 <= i < 1 && 0 <= j < below.len() implies seq![c][i]
                != below[j] by {
                self.lemma_members(NodeIndex::Branch(c), 0, below[j]);
            }
            vstd::seq_lib::lemma_no_dup_in_concat(seq![c], below);
            assert forall|i: int, j: int|
                0 <= i < (seq![c] + below).len() && 0 <= j < after.len() implies (seq![c]
                + below)[i] != after[j] by {
                let x = after[j];
                self.lemma_members(p, k + 1, x);
                if i >= 1 {
                    self.lemma_members(NodeIndex::Branch(c), 0, below[i - 1]);
                    if below[i - 1] == x {
                        self.lemma_under_child(c, x);
                    }
                }
            }
            vstd::seq_lib::lemma_no_dup_in_concat(seq![c] + below, after);
        }
    }

    /// Every branch node lies below the root.
    pub proof fn lemma_all_under_root(self, x: Index)
        requires
            self.wf(),
            self.parent.dom().contains(x),
        ensures
            self.under(NodeIndex::Root, 0, x),
    {
        self.lemma_anc(x, 1);
    }

    /// What a pruning preorder yields was kept: the node itself and every
    /// node above it, as far up as the preorder started. It comes paired
    /// with its parent, and the plain preorder visits it too.
    pub proof fn lemma_pruned_members(
        self,
        keep: spec_fn(Index) -> bool,
        p: NodeIndex,
        k: int,
        q: NodeIndex,
        x: Index,
    )
        requires
            self.wf(),
            self.contains(p),
            0 <= k,
            self.pruned(keep, p, k).contains((q, x)),
        ensures
            self.under(p, k, x),
            q == self.parent[x],
            self.kept_down_to(keep, self.depth_of(p), x),
        decreases self.height - self.depth_of(p), self.kids[p].len() - k,
    {
        if k < self.kids[p].len() {
            let c = self.kids[p][k];
            let below = self.pruned(keep, NodeIndex::Branch(c), 0);
            let here = if keep(c) {
                seq![(p, c)] + below
            } else {
                Seq::empty()
            };
            if here.contains((q, x)) {
                if below.contains((q, x)) {
                    self.lemma_pruned_members(keep, NodeIndex::Branch(c), 0, q, x);
                    self.lemma_under_child(c, x);
                    lemma_concat_contains(
                        seq![c] + self.subtrees(NodeIndex::Branch(c), 0),
                        self.subtrees(p, k + 1),
                        x,
                    );
                } else {
                    lemma_concat_contains(
                        seq![c] + self.subtrees(NodeIndex::Branch(c), 0),
                        self.subtrees(p, k + 1),
                        c,
                    );
                }
            } else {
                self.lemma_pruned_members(keep, p, k + 1, q, x);
            }
        }
    }

    /// A pruning preorder yields every node in its range that was kept
    /// together with every node above it.
    pub proof fn lemma_pruned_has(self, keep: spec_fn(Index) -> bool, p: NodeIndex, k: int, x: Index)
        requires
            self.wf(),
            self.contains(p),
            0 <= k,
            self.under(p, k, x),
            self.kept_down_to(keep, self.depth_of(p), x),
        ensures
            self.pruned(keep, p, k).contains((self.parent[x], x)),
        decreases self.height - self.depth_of(p), self.kids[p].len() - k,
    {
        let d = self.depth_of(p);
        let a = self.anc(x, d + 1);
        self.lemma_anc(x, d + 1);
        if k < self.kids[p].len() {
            let c = self.kids[p][k];
            let below = self.pruned(keep, NodeIndex::Branch(c), 0);
            let after = self.pruned(keep, p, k + 1);
            let hit = (self.parent[x], x);
            if self.pos[a] == k {
                let here = seq![(p, c)] + below;
                if self.depth[x] > d + 1 {
                    self.lemma_anc(x, (d + 2) as nat);
                    self.lemma_pruned_has(keep, NodeIndex::Branch(c), 0, x);
                } else {
                    assert(seq![(p, c)][0] == hit);
                }
                lemma_concat_contains(seq![(p, c)], below, hit);
                lemma_concat_contains(here, after, hit);
            } else {
                self.lemma_pruned_has(keep, p, k + 1, x);
                let here = if keep(c) {
                    seq![(p, c)] + below
                } else {
                    Seq::empty()
                };
                lemma_concat_contains(here, after, hit);
            }
        }
    }

    /// With nothing rejected, a pruning preorder visits the nodes of the
    /// plain preorder, in the same order.
    pub proof fn lemma_pruned_all(self, keep: spec_fn(Index) -> bool, p: NodeIndex, k: int)
        requires
            self.wf(),
            self.contains(p),
            0 <= k,
            forall|c: Index| self.parent.dom().contains(c) ==> #[trigger] keep(c),
        ensures
            nodes_of(self.pruned(keep, p, k)) == self.subtrees(p, k),
        decreases self.height - self.depth_of(p), self.kids[p].len() - k,
    {
        if k < self.kids[p].len() {
            let c = self.kids[p][k];
            self.lemma_pruned_all(keep, NodeIndex::Branch(c), 0);
            self.lemma_pruned_all(keep, p, k + 1);
            let below = self.pruned(keep, NodeIndex::Branch(c), 0);
            let after = self.pruned(keep, p, k + 1);
            assert(nodes_of(seq![(p, c)] + below + after) =~= seq![c] + nodes_of(below) + nodes_of(
                after,
            ));
        }
    }

    /// A pruning preorder depends on `keep` only through what it says of the
    /// nodes of the tree.
    pub proof fn lemma_pruned_same(
        self,
        keep: spec_fn(Index) -> bool,
        other: spec_fn(Index) -> bool,
        p: NodeIndex,
        k: int,
    )
        requires
            self.wf(),
            self.contains(p),
            0 <= k,
            forall|c: Index| self.parent.dom().contains(c) ==> #[trigger] keep(c) == other(c),
        ensures
            self.pruned(keep, p, k) == self.pruned(other, p, k),
        decreases self.height - self.depth_of(p), self.kids[p].len() - k,
    {
        if k < self.kids[p].len() {
            let c = self.kids[p][k];
            self.lemma_pruned_same(keep, other, NodeIndex::Branch(c), 0);
            self.lemma_pruned_same(keep, other, p, k + 1);
        }
    }

    /// The same for what a stack of frames stands for.
    pub proof fn lemma_pending_pruned_same(
        self,
        keep: spec_fn(Index) -> bool,
        other: spec_fn(Index) -> bool,
        keep_root: bool,
        frames: Seq<(NodeIndex, Index)>,
    )
        requires
            self.wf(),
            forall|c: Index| self.parent.dom().contains(c) ==> #[trigger] keep(c) == other(c),
            forall|k: int|
                0 <= k < frames.len() ==> self.parent.dom().contains((#[trigger] frames[k]).1)
                    && self.parent[frames[k].1] == frames[k].0,
        ensures
            self.pending_pruned(keep, keep_root, frames) == self.pending_pruned(
                other,
                keep_root,
                frames,
            ),
        decreases frames.len(),
    {
        if frames.len() > 0 {
            let (p, c) = frames.last();
            self.lemma_pruned_same(keep, other, p, self.pos[c]);
            self.lemma_pending_pruned_same(keep, other, keep_root, frames.drop_last());
        }
    }

    /// Whether `a` is `x` or has `x` somewhere below it.
    pub open spec fn at_or_above(self, a: Index, x: Index) -> bool {
        a == x || self.subtrees(NodeIndex::Branch(a), 0).contains(x)
    }

    /// `keep` holds of `x` and of every node above it exactly if it holds of
    /// every node that is `x` or has `x` below it.
    pub proof fn lemma_kept_chain(self, keep: spec_fn(Index) -> bool, x: Index)
        requires
            self.wf(),
            self.parent.dom().contains(x),
        ensures
            self.kept_down_to(keep, 0, x) <==> (forall|a: Index|
                self.parent.dom().contains(a) && #[trigger] self.at_or_above(a, x) ==> keep(a)),
    {
        if self.kept_down_to(keep, 0, x) {
            assert forall|a: Index|
                self.parent.dom().contains(a) && #[trigger] self.at_or_above(a, x) implies keep(
                a,
            ) by {
                if a == x {
                    assert(self.anc(x, self.depth[x]) == x);
                } else {
                    self.lemma_members(NodeIndex::Branch(a), 0, x);
                    self.lemma_under_child(a, x);
                }
            }
        }
        if forall|a: Index|
            self.parent.dom().contains(a) && #[trigger] self.at_or_above(a, x) ==> keep(a) {
            assert forall|e: nat| 0 < e <= self.depth[x] implies keep(
                #[trigger] self.anc(x, e),
            ) by {
                let a = self.anc(x, e);
                self.lemma_anc(x, e);
                if e < self.depth[x] {
                    self.lemma_anc(x, (e + 1) as nat);
                    self.lemma_members(NodeIndex::Branch(a), 0, x);
                }
                assert(self.at_or_above(a, x));
            }
        }
    }

    pub proof fn lemma_bare_wf()
        ensures
            Self::bare().wf(),
    {
    }

    pub proof fn lemma_grow_wf(self, p: NodeIndex, x: Index)
        requires
            self.wf(),
            self.contains(p),
            !self.contains(NodeIndex::Branch(x)),
        ensures
            self.grow(p, x).wf(),
    {
    }
}

} // verus!
