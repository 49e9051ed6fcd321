//! How the arena's records link the nodes, and what appending a leaf does to
//! them.

use crate::node::{next_in, range_of, Children, Node, NodeIndex};
use crate::tree::Shape;
use thunderdome::Index;
use vstd::prelude::*;

verus! {

/// The records `m` and the root's child range `rc` link the nodes exactly as
/// `s` says: each child range names the first and last child, and each node
/// points at the sibling that follows it.
pub(crate) open spec fn links_agree(m: Map<Index, Node>, rc: Option<Children>, s: Shape) -> bool {
    &&& rc == range_of(s.kids[NodeIndex::Root])
    &&& forall|i: Index| #[trigger]
        m.dom().contains(i) ==> {
            &&& m[i].children == range_of(s.kids[NodeIndex::Branch(i)])
            &&& m[i].next_sibling == next_in(s.kids[s.parent[i]], s.pos[i])
        }
}

/// Every record's value position lies below `len`, and no two records share
/// one.
pub(crate) open spec fn values_apart(m: Map<Index, Node>, len: nat) -> bool {
    &&& forall|i: Index| #[trigger] m.dom().contains(i) ==> m[i].value < len
    &&& forall|i: Index, j: Index|
        m.dom().contains(i) && m.dom().contains(j) && i != j ==> (#[trigger] m[i]).value != (
        #[trigger] m[j]).value
}

/// The child range of a node after `x` was appended to the range `range`.
pub(crate) open spec fn range_with(range: Option<Children>, x: Index) -> Children {
    match range {
        Some(c) => Children { first: c.first, last: x },
        None => Children { first: x, last: x },
    }
}

/// The records after a fresh leaf `x`, with its value at `slot`, was appended
/// to the children of `parent`, whose child range was `range`.
pub(crate) open spec fn records_with(
    m: Map<Index, Node>,
    range: Option<Children>,
    parent: NodeIndex,
    x: Index,
    slot: usize,
) -> Map<Index, Node> {
    let m1 = m.insert(x, Node { value: slot, children: None, next_sibling: None });
    let m2 = match range {
        Some(c) => m1.insert(
            c.last,
            Node { value: m1[c.last].value, children: m1[c.last].children, next_sibling: Some(x) },
        ),
        None => m1,
    };
    match parent {
        NodeIndex::Root => m2,
        NodeIndex::Branch(p) => m2.insert(
            p,
            Node {
                value: m2[p].value,
                children: Some(range_with(range, x)),
                next_sibling: m2[p].next_sibling,
            },
        ),
    }
}

/// The child range of `parent` as the records have it.
pub(crate) open spec fn range_at(m: Map<Index, Node>, rc: Option<Children>, parent: NodeIndex) -> Option<
    Children,
> {
    match parent {
        NodeIndex::Root => rc,
        NodeIndex::Branch(p) => m[p].children,
    }
}

/// Appending a leaf to the records keeps them in step with the grown shape.
pub(crate) proof fn lemma_records_with(
    m: Map<Index, Node>,
    rc: Option<Children>,
    s: Shape,
    parent: NodeIndex,
    x: Index,
    slot: usize,
)
    requires
        s.wf(),
        m.dom() == s.parent.dom(),
        links_agree(m, rc, s),
        s.contains(parent),
        !m.dom().contains(x),
    ensures
        links_agree(
            records_with(m, range_at(m, rc, parent), parent, x, slot),
            match parent {
                NodeIndex::Root => Some(range_with(rc, x)),
                NodeIndex::Branch(_) => rc,
            },
            s.grow(parent, x),
        ),
        records_with(m, range_at(m, rc, parent), parent, x, slot).dom() == m.dom().insert(x),
        forall|i: Index|
            m.dom().contains(i) ==> (#[trigger] records_with(
                m,
                range_at(m, rc, parent),
                parent,
                x,
                slot,
            )[i]).value == m[i].value,
        records_with(m, range_at(m, rc, parent), parent, x, slot)[x].value == slot,
{
    let m3 = records_with(m, range_at(m, rc, parent), parent, x, slot);
    let g = s.grow(parent, x);
    let rc3 = match parent {
        NodeIndex::Root => Some(range_with(rc, x)),
        NodeIndex::Branch(_) => rc,
    };
    assert(rc3 == range_of(g.kids[NodeIndex::Root])) by {
        if parent != NodeIndex::Root {
            assert(g.kids[NodeIndex::Root] == s.kids[NodeIndex::Root]);
        }
    }
    assert forall|i: Index| #[trigger] m3.dom().contains(i) implies {
        &&& m3[i].children == range_of(g.kids[NodeIndex::Branch(i)])
        &&& m3[i].next_sibling == next_in(g.kids[g.parent[i]], g.pos[i])
    } by {}
}

} // verus!
