//! The scene graph itself: construction, attachment and lookup.

use crate::arena::{
    arena_get, arena_get2_mut, arena_get_mut, arena_insert, arena_len, arena_new, arena_nodes,
};
use crate::links::{
    lemma_records_with, links_agree, range_at, range_with, records_with, values_apart,
};
use crate::node::{range_of, Children, Node, NodeIndex, NodeNotFound};
use crate::tree::Shape;
use thunderdome::{Arena, Index};
use vstd::prelude::*;

verus! {

/// A tree of values of type `T`.
///
/// The root value is stored inline. Every other node has a record in a
/// generational arena, which links it to its first child and to its next
/// sibling, and a value in a store of its own.
pub struct SceneGraph<T> {
    pub(crate) root: T,
    pub(crate) root_children: Option<Children>,
    pub(crate) arena: Arena<Node>,
    pub(crate) values: Vec<T>,
    pub(crate) shape: Ghost<Shape>,
}

impl<T> SceneGraph<T> {
    /// The links in the arena spell out exactly the tree that the ghost shape
    /// describes, and no two nodes share a value.
    pub closed spec fn wf(&self) -> bool {
        let m = arena_nodes(self.arena);
        &&& self.shape@.wf()
        &&& m.dom() == self.shape@.parent.dom()
        &&& m.dom().finite()
        &&& links_agree(m, self.root_children, self.shape@)
        &&& values_apart(m, self.values@.len())
    }

    /// Whether `id` names a node of this graph. The root always does.
    pub open(crate) spec fn contains(&self, id: NodeIndex) -> bool {
        self.shape@.contains(id)
    }

    /// The children of `id`, in the order they were attached.
    pub open(crate) spec fn children(&self, id: NodeIndex) -> Seq<Index> {
        self.shape@.kids[id]
    }

    /// The value held by `id`.
    pub open(crate) spec fn value(&self, id: NodeIndex) -> T {
        match id {
            NodeIndex::Root => self.root,
            NodeIndex::Branch(i) => self.values@[arena_nodes(self.arena)[i].value as int],
        }
    }

    /// Every node below `id` in depth-first preorder: each child of `id`, in
    /// order, directly followed by its own descendants.
    pub open(crate) spec fn descendants(&self, id: NodeIndex) -> Seq<Index> {
        self.shape@.subtrees(id, 0)
    }

    /// The number of branch nodes.
    pub open(crate) spec fn node_count(&self) -> nat {
        arena_nodes(self.arena).dom().len()
    }

    /// The parent of branch node `i`.
    pub open(crate) spec fn parent_of(&self, i: Index) -> NodeIndex {
        self.shape@.parent[i]
    }

    /// Whether `other` is the same tree as this one, node for node and link
    /// for link. Only the values may differ.
    pub open(crate) spec fn same_tree(&self, other: &Self) -> bool {
        &&& other.root_children == self.root_children
        &&& arena_nodes(other.arena) == arena_nodes(self.arena)
        &&& other.shape == self.shape
        &&& other.values@.len() == self.values@.len()
    }

    /// Whether `after` is this graph with the values of `a` and `b` replaced
    /// by `a_value` and `b_value`, and nothing else changed.
    pub open spec fn revalued(
        &self,
        after: &Self,
        a: NodeIndex,
        a_value: T,
        b: NodeIndex,
        b_value: T,
    ) -> bool {
        &&& self.same_tree(after)
        &&& forall|id: NodeIndex|
            self.contains(id) ==> #[trigger] after.value(id) == (if id == b {
                b_value
            } else if id == a {
                a_value
            } else {
                self.value(id)
            })
    }

    /// What handing out the values of `child` and of its parent `parent`
    /// mutably makes of this graph. The two references start at the values
    /// the two nodes hold, `parent_now` and `child_now`. Once they are let
    /// go, `after` holds what they held last, `parent_then` and
    /// `child_then`, for those two nodes, and is unchanged otherwise.
    pub open spec fn hands_out(
        &self,
        after: &Self,
        parent: NodeIndex,
        child: Index,
        parent_now: T,
        child_now: T,
        parent_then: T,
        child_then: T,
    ) -> bool {
        &&& self.contains(parent)
        &&& self.contains(NodeIndex::Branch(child))
        &&& self.parent_of(child) == parent
        &&& parent_now == self.value(parent)
        &&& child_now == self.value(NodeIndex::Branch(child))
        &&& self.revalued(after, parent, parent_then, NodeIndex::Branch(child), child_then)
    }

    /// Whether some node and its parent were handed out as
    /// [`Self::hands_out`] says.
    pub open spec fn hands_out_a_pair(
        &self,
        after: &Self,
        parent_now: T,
        child_now: T,
        parent_then: T,
        child_then: T,
    ) -> bool {
        exists|parent: NodeIndex, child: Index| #[trigger]
            self.hands_out(
                after,
                parent,
                child,
                parent_now,
                child_now,
                parent_then,
                child_then,
            )
    }

    /// What attaching `value` under `parent` as node `x` makes of this graph:
    /// `x` is new, it is the last child of `parent` and has no children, and
    /// nothing else has changed.
    pub open spec fn attached(&self, after: &Self, parent: NodeIndex, x: Index, value: T) -> bool {
        &&& !self.contains(NodeIndex::Branch(x))
        &&& forall|id: NodeIndex|
            after.contains(id) <==> self.contains(id) || id == NodeIndex::Branch(x)
        &&& after.node_count() == self.node_count() + 1
        &&& after.children(parent) == self.children(parent).push(x)
        &&& after.children(NodeIndex::Branch(x)) == Seq::<Index>::empty()
        &&& forall|id: NodeIndex|
            self.contains(id) && id != parent ==> after.children(id) == self.children(id)
        &&& after.value(NodeIndex::Branch(x)) == value
        &&& forall|id: NodeIndex| self.contains(id) ==> after.value(id) == self.value(id)
    }

    /// The nodes below `id` that a pruning traversal yields, in order, each
    /// paired with its parent: each child of `id` whose value `keep` admits,
    /// directly followed by what is admitted below it. What lies below a
    /// rejected node is left out.
    pub open(crate) spec fn admitted(&self, keep: spec_fn(T) -> bool, id: NodeIndex) -> Seq<
        (NodeIndex, Index),
    > {
        self.shape@.pruned(self.keeper(keep), id, 0)
    }

    /// What a pruning traversal that starts at `start` yields: nothing if
    /// `start` is stale, or if it is the root and `keep` rejects the root's
    /// value; else what is admitted below `start`.
    pub open spec fn traversal_from(&self, keep: spec_fn(T) -> bool, start: NodeIndex) -> Seq<
        (NodeIndex, Index),
    > {
        if !self.contains(start) || (start is Root && !keep(self.value(NodeIndex::Root))) {
            Seq::empty()
        } else {
            self.admitted(keep, start)
        }
    }

    /// What a pruning traversal from the root yields: nothing if `keep`
    /// rejects the root's value, else what is admitted below the root.
    pub open spec fn traversal(&self, keep: spec_fn(T) -> bool) -> Seq<(NodeIndex, Index)> {
        self.traversal_from(keep, NodeIndex::Root)
    }

    /// A graph that holds `root` and nothing else.
    pub fn new(root: T) -> (sg: Self)
        ensures
            sg.wf(),
            forall|id: NodeIndex| sg.contains(id) <==> id == NodeIndex::Root,
            sg.children(NodeIndex::Root) == Seq::<Index>::empty(),
            sg.value(NodeIndex::Root) == root,
            sg.node_count() == 0,
    {
        proof {
            Shape::lemma_bare_wf();
        }
        SceneGraph {
            root,
            root_children: None,
            arena: arena_new(),
            values: Vec::new(),
            shape: Ghost(Shape::bare()),
        }
    }

    /// The number of branch nodes.
    pub fn len(&self) -> (n: usize)
        requires
            self.wf(),
        ensures
            n == self.node_count(),
    {
        arena_len(&self.arena)
    }

    /// The value held by `id`, or `None` if `id` is stale.
    pub fn get(&self, id: NodeIndex) -> (value: Option<&T>)
        requires
            self.wf(),
        ensures
            value == (if self.contains(id) {
                Some(&self.value(id))
            } else {
                None::<&T>
            }),
    {
        match id {
            NodeIndex::Root => Some(&self.root),
            NodeIndex::Branch(i) => match arena_get(&self.arena, i) {
                Some(node) => Some(&self.values[node.value]),
                None => None,
            },
        }
    }

    /// Appends a new node holding `value` to the children of `parent` and
    /// returns its identifier. Fails, leaving the graph as it was, if
    /// `parent` is stale.
    pub fn attach(&mut self, parent: NodeIndex, value: T) -> (r: Result<NodeIndex, NodeNotFound>)
        requires
            old(self).wf(),
            old(self).node_count() < u32::MAX,
        ensures
            final(self).wf(),
            !old(self).contains(parent) ==> r is Err && *final(self) == *old(self),
            old(self).contains(parent) ==> (r matches Ok(NodeIndex::Branch(x)) && old(
                self,
            ).attached(final(self), parent, x, value)),
    {
        let range = match self.range(parent) {
            Ok(range) => range,
            Err(missing) => {
                return Err(missing);
            },
        };
        let ghost before = arena_nodes(self.arena);
        let ghost shape = self.shape@;
        let slot: usize = self.values.len();
        self.values.push(value);
        let x = arena_insert(
            &mut self.arena,
            Node { value: slot, children: None, next_sibling: None },
        );
        let grown = match range {
            Some(c) => {
                match arena_get_mut(&mut self.arena, c.last) {
                    Some(last) => {
                        last.next_sibling = Some(x);
                    },
                    None => {},
                }
                Children { first: c.first, last: x }
            },
            None => Children { first: x, last: x },
        };
        match parent {
            NodeIndex::Root => {
                self.root_children = Some(grown);
            },
            NodeIndex::Branch(p) => match arena_get_mut(&mut self.arena, p) {
                Some(node) => {
                    node.children = Some(grown);
                },
                None => {},
            },
        }
        self.shape = Ghost(shape.grow(parent, x));
        proof {
            old(self).lemma_grown(self, parent, x, value);
        }
        Ok(NodeIndex::Branch(x))
    }
}

// What the two traversals need of the graph.
impl<T> SceneGraph<T> {
    /// Which branch nodes `keep` admits, going by the values they hold.
    pub open(crate) spec fn keeper(&self, keep: spec_fn(T) -> bool) -> spec_fn(Index) -> bool {
        |c: Index| keep(self.value(NodeIndex::Branch(c)))
    }

    /// The fields of `after` are those of this graph with a leaf `x` holding
    /// `value` appended to the children of `parent`.
    pub open(crate) spec fn grown(&self, after: &Self, parent: NodeIndex, x: Index, value: T) -> bool {
        let m = arena_nodes(self.arena);
        &&& after.root == self.root
        &&& after.root_children == match parent {
            NodeIndex::Root => Some(range_with(self.root_children, x)),
            NodeIndex::Branch(_) => self.root_children,
        }
        &&& arena_nodes(after.arena) == records_with(
            m,
            range_at(m, self.root_children, parent),
            parent,
            x,
            self.values.len(),
        )
        &&& after.values@ == self.values@.push(value)
        &&& after.shape@ == self.shape@.grow(parent, x)
    }

    /// Whether `after` is this graph with `child_value` written to the value
    /// of `child` and `parent_value` to that of `parent`, in terms of the
    /// fields.
    pub open(crate) spec fn rewrites(
        &self,
        after: &Self,
        parent: NodeIndex,
        child: Index,
        parent_value: T,
        child_value: T,
    ) -> bool {
        let m = arena_nodes(self.arena);
        &&& self.same_tree(after)
        &&& match parent {
            NodeIndex::Root => {
                &&& after.root == parent_value
                &&& after.values@ == self.values@.update(m[child].value as int, child_value)
            },
            NodeIndex::Branch(p) => {
                &&& after.root == self.root
                &&& after.values@ == self.values@.update(m[p].value as int, parent_value).update(
                    m[child].value as int,
                    child_value,
                )
            },
        }
    }

    /// One step of a pruning traversal whose top frame names `i` with its
    /// parent `p`, above the frames `rest`: see [`Shape::frames_step`].
    pub open(crate) spec fn pruned_step(
        &self,
        keep: spec_fn(T) -> bool,
        rest: Seq<(NodeIndex, Index)>,
        p: NodeIndex,
        i: Index,
    ) -> bool {
        let node = arena_nodes(self.arena)[i];
        self.shape@.frames_step(
            self.keeper(keep),
            keep(self.value(NodeIndex::Root)),
            rest,
            p,
            i,
            match node.children {
                Some(c) => Some(c.first),
                None => None,
            },
            node.next_sibling,
        )
    }

    /// The child range of `id`, or an error if `id` is stale.
    pub(crate) fn range(&self, id: NodeIndex) -> (r: Result<Option<Children>, NodeNotFound>)
        requires
            self.wf(),
        ensures
            !self.contains(id) ==> r is Err,
            self.contains(id) ==> r == Ok::<Option<Children>, NodeNotFound>(
                range_of(self.children(id)),
            ),
    {
        match id {
            NodeIndex::Root => Ok(self.root_children),
            NodeIndex::Branch(i) => match arena_get(&self.arena, i) {
                Some(node) => Ok(node.children),
                None => Err(NodeNotFound),
            },
        }
    }

    /// The arena's record for branch node `i`.
    pub(crate) fn node(&self, i: Index) -> (node: Node)
        requires
            self.wf(),
            self.contains(NodeIndex::Branch(i)),
        ensures
            node == arena_nodes(self.arena)[i],
    {
        match arena_get(&self.arena, i) {
            Some(node) => *node,
            None => Node { value: 0, children: None, next_sibling: None },
        }
    }

    /// Where the values of two different branch nodes are kept. Both records
    /// are resolved in one disjoint lookup.
    pub(crate) fn positions(&mut self, first: Index, second: Index) -> (at: (usize, usize))
        requires
            old(self).wf(),
            old(self).contains(NodeIndex::Branch(first)),
            old(self).contains(NodeIndex::Branch(second)),
            first != second,
        ensures
            at.0 == arena_nodes(old(self).arena)[first].value,
            at.1 == arena_nodes(old(self).arena)[second].value,
            final(self).wf(),
            old(self).same_tree(final(self)),
            final(self).root == old(self).root,
            final(self).values == old(self).values,
    {
        proof {
            self.lemma_shape();
        }
        let at: (usize, usize) = match arena_get2_mut(&mut self.arena, first, second) {
            (Some(one), Some(other)) => (one.value, other.value),
            _ => (0, 0),
        };
        proof {
            assert(arena_nodes(self.arena) =~= arena_nodes(old(self).arena));
        }
        at
    }

    /// Mutable access to the value of `child` and to that of its parent, at
    /// once. The two are different nodes, so the two references do not
    /// overlap. What is written through them changes the values of those two
    /// nodes and nothing else.
    pub(crate) fn pair_mut(&mut self, parent: NodeIndex, child: Index) -> (r: (&mut T, &mut T))
        requires
            old(self).wf(),
            old(self).contains(NodeIndex::Branch(child)),
            old(self).parent_of(child) == parent,
        ensures
            old(self).hands_out(
                final(self),
                parent,
                child,
                *r.0,
                *r.1,
                *final(r.0),
                *final(r.1),
            ),
            old(self).hands_out_a_pair(final(self), *r.0, *r.1, *final(r.0), *final(r.1)),
    {
        proof {
            self.lemma_rewrites(parent, child);
            self.lemma_shape();
        }
        self.pair_at(parent, child)
    }

    /// Mutable access to the value of `child` and to that of its parent, in
    /// terms of where the two values are kept.
    fn pair_at(&mut self, parent: NodeIndex, child: Index) -> (r: (&mut T, &mut T))
        requires
            old(self).wf(),
            old(self).contains(NodeIndex::Branch(child)),
            old(self).parent_of(child) == parent,
        ensures
            *r.0 == old(self).value(parent),
            *r.1 == old(self).value(NodeIndex::Branch(child)),
            old(self).rewrites(final(self), parent, child, *final(r.0), *final(r.1)),
    {
        proof {
            self.lemma_shape();
            self.shape@.lemma_parent_differs(child);
            self.lemma_value_at(child);
        }
        match parent {
            NodeIndex::Root => {
                let at: usize = self.node(child).value;
                (&mut self.root, &mut self.values[at])
            },
            NodeIndex::Branch(p) => {
                proof {
                    self.lemma_value_at(p);
                    self.lemma_apart(p, child);
                }
                let at: (usize, usize) = self.positions(p, child);
                two_mut(&mut self.values, at.0, at.1)
            },
        }
    }
}

/// Mutable access to two different positions of `values` at once.
pub(crate) fn two_mut<T>(values: &mut Vec<T>, a: usize, b: usize) -> (r: (&mut T, &mut T))
    requires
        a != b,
        a < old(values).len(),
        b < old(values).len(),
    ensures
        *r.0 == old(values)[a as int],
        *r.1 == old(values)[b as int],
        final(values)@ == old(values)@.update(a as int, *final(r.0)).update(
            b as int,
            *final(r.1),
        ),
{
    if a < b {
        let (low, high) = values.as_mut_slice().split_at_mut(b);
        (&mut low[a], &mut high[0])
    } else {
        let (low, high) = values.as_mut_slice().split_at_mut(a);
        (&mut high[0], &mut low[b])
    }
}

// What follows from well-formedness, for the proofs in the other modules.
impl<T> SceneGraph<T> {
    /// The ghost shape of a well-formed graph is a tree, and its nodes are
    /// the indices that resolve in the arena.
    pub(crate) proof fn lemma_shape(&self)
        requires
            self.wf(),
        ensures
            self.shape@.wf(),
            arena_nodes(self.arena).dom() == self.shape@.parent.dom(),
            arena_nodes(self.arena).dom().finite(),
    {
    }

    /// A graph that is the same tree as a well-formed one is well formed.
    pub(crate) proof fn lemma_same_tree(&self)
        requires
            self.wf(),
        ensures
            forall|other: SceneGraph<T>| #[trigger] self.same_tree(&other) ==> other.wf(),
    {
    }

    /// A graph grown by a leaf is well formed, and it is the old graph with
    /// the leaf attached.
    pub(crate) proof fn lemma_grown(&self, after: &Self, parent: NodeIndex, x: Index, value: T)
        requires
            self.wf(),
            self.contains(parent),
            !arena_nodes(self.arena).dom().contains(x),
            self.grown(after, parent, x, value),
        ensures
            after.wf(),
            self.attached(after, parent, x, value),
    {
        let m = arena_nodes(self.arena);
        let n = arena_nodes(after.arena);
        let slot = self.values.len();
        self.shape@.lemma_grow_wf(parent, x);
        lemma_records_with(m, self.root_children, self.shape@, parent, x, slot);
        assert forall|id: NodeIndex| self.contains(id) implies after.value(id) == self.value(
            id,
        ) by {
            match id {
                NodeIndex::Root => {},
                NodeIndex::Branch(i) => {
                    assert(n[i].value == m[i].value);
                },
            }
        }
    }

    /// The child range of a node leads to its first child, and a traversal
    /// that starts there yields the node's descendants.
    pub(crate) proof fn lemma_enter(&self, id: NodeIndex)
        requires
            self.wf(),
            self.contains(id),
        ensures
            ({
                let s = self.shape@;
                match range_of(self.children(id)) {
                    Some(c) => self.contains(NodeIndex::Branch(c.first)) && self.descendants(id)
                        == s.subtrees(s.parent[c.first], s.pos[c.first]),
                    None => self.descendants(id) == Seq::<Index>::empty(),
                }
            }),
            range_of(self.children(id)) == range_at(
                arena_nodes(self.arena),
                self.root_children,
                id,
            ),
    {
    }

    /// The first child of `id` has `id` as its parent and comes first among
    /// its children.
    pub(crate) proof fn lemma_first_child(&self, id: NodeIndex)
        requires
            self.wf(),
            self.contains(id),
        ensures
            self.children(id).len() > 0 ==> {
                &&& self.contains(NodeIndex::Branch(self.children(id)[0]))
                &&& self.parent_of(self.children(id)[0]) == id
                &&& self.shape@.pos[self.children(id)[0]] == 0
            },
    {
    }

    /// What visiting branch node `i` leaves to a traversal: `i` itself, then
    /// what its first child stands for, then what its next sibling stands
    /// for. Both links, where present, lead to nodes of the graph.
    pub(crate) proof fn lemma_visit(&self, i: Index)
        requires
            self.wf(),
            self.contains(NodeIndex::Branch(i)),
        ensures
            ({
                let s = self.shape@;
                let node = arena_nodes(self.arena)[i];
                &&& node.value < self.values.len()
                &&& self.value(NodeIndex::Branch(i)) == self.values@[node.value as int]
                &&& node.children matches Some(c) ==> self.contains(NodeIndex::Branch(c.first))
                    && self.parent_of(c.first) == NodeIndex::Branch(i)
                &&& node.next_sibling matches Some(n) ==> self.contains(NodeIndex::Branch(n))
                    && self.parent_of(n) == self.parent_of(i)
                &&& s.subtrees(s.parent[i], s.pos[i]) == seq![i] + (match node.children {
                    Some(c) => s.subtrees(s.parent[c.first], s.pos[c.first]),
                    None => Seq::empty(),
                }) + (match node.next_sibling {
                    Some(n) => s.subtrees(s.parent[n], s.pos[n]),
                    None => Seq::empty(),
                })
            }),
    {
        let s = self.shape@;
        s.lemma_step(i);
    }

    /// Every step of a pruning traversal goes as [`Self::pruned_step`] says.
    pub(crate) proof fn lemma_pruned_step(
        &self,
        keep: spec_fn(T) -> bool,
        rest: Seq<(NodeIndex, Index)>,
        p: NodeIndex,
        i: Index,
    )
        requires
            self.wf(),
            self.contains(NodeIndex::Branch(i)),
            self.parent_of(i) == p,
        ensures
            self.pruned_step(keep, rest, p, i),
    {
        let node = arena_nodes(self.arena)[i];
        self.shape@.lemma_frames_step(
            self.keeper(keep),
            keep(self.value(NodeIndex::Root)),
            rest,
            p,
            i,
            match node.children {
                Some(c) => Some(c.first),
                None => None,
            },
            node.next_sibling,
        );
    }

    /// Where the value of branch node `i` is kept.
    pub(crate) proof fn lemma_value_at(&self, i: Index)
        requires
            self.wf(),
            self.contains(NodeIndex::Branch(i)),
        ensures
            arena_nodes(self.arena)[i].value < self.values.len(),
            self.value(NodeIndex::Branch(i)) == self.values@[arena_nodes(
                self.arena,
            )[i].value as int],
    {
    }

    /// Different nodes keep their values in different places.
    pub(crate) proof fn lemma_apart(&self, first: Index, second: Index)
        requires
            self.wf(),
            self.contains(NodeIndex::Branch(first)),
            self.contains(NodeIndex::Branch(second)),
            first != second,
        ensures
            arena_nodes(self.arena)[first].value != arena_nodes(self.arena)[second].value,
    {
    }

    /// Writing to the values of a node and of its parent changes the values
    /// of those two nodes and of no other.
    pub(crate) proof fn lemma_rewrites(&self, parent: NodeIndex, child: Index)
        requires
            self.wf(),
            self.contains(NodeIndex::Branch(child)),
            self.parent_of(child) == parent,
        ensures
            forall|after: SceneGraph<T>, parent_value: T, child_value: T| #[trigger]
                self.rewrites(&after, parent, child, parent_value, child_value)
                    ==> self.revalued(
                    &after,
                    parent,
                    parent_value,
                    NodeIndex::Branch(child),
                    child_value,
                ),
    {
        assert forall|after: SceneGraph<T>, parent_value: T, child_value: T| #[trigger]
            self.rewrites(&after, parent, child, parent_value, child_value) implies self.revalued(
            &after,
            parent,
            parent_value,
            NodeIndex::Branch(child),
            child_value,
        ) by {
            assert forall|id: NodeIndex| self.contains(id) implies #[trigger] after.value(id) == (
            if id == NodeIndex::Branch(child) {
                child_value
            } else if id == parent {
                parent_value
            } else {
                self.value(id)
            }) by {}
        }
    }
}

} // verus!
