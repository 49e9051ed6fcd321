//! The generational arena that holds the node records.
//!
//! The arena is `thunderdome::Arena`. Verus cannot look inside it, so this
//! module gives its contents a name, [`arena_nodes`], and states what each
//! method used by the graph does to those contents. These statements are
//! assumed, not proved.

use crate::node::Node;
use thunderdome::{Arena, Index};
use vstd::prelude::*;

verus! {

/// `thunderdome::Index`: a slot number with a generation. Verus is told of
/// the type and of nothing inside it.
#[verifier::external_type_specification]
#[verifier::external_body]
pub struct ExIndex(thunderdome::Index);

/// `thunderdome::Arena`: Verus is told of the type and of nothing inside it.
#[verifier::external_type_specification]
#[verifier::external_body]
#[verifier::reject_recursive_types(T)]
pub struct ExArena<T>(thunderdome::Arena<T>);

/// The records an arena currently holds, keyed by the indices that resolve.
pub uninterp spec fn arena_nodes(arena: Arena<Node>) -> Map<Index, Node>;

/// `Arena::new`: an arena that holds nothing.
#[verifier::external_body]
pub(crate) fn arena_new() -> (fresh: Arena<Node>)
    ensures
        arena_nodes(fresh) == (Map::<Index, Node>::empty()),
{
    Arena::new()
}

/// `Arena::len`: the number of records held.
#[verifier::external_body]
pub(crate) fn arena_len(arena: &Arena<Node>) -> (count: usize)
    ensures
        count == arena_nodes(*arena).dom().len(),
{
    arena.len()
}

/// `Arena::insert`: stores `node` under an index that did not resolve before
/// and leaves every other record as it was. The arena panics once it would
/// hold more than `u32::MAX` records, so that case is excluded.
#[verifier::external_body]
pub(crate) fn arena_insert(arena: &mut Arena<Node>, node: Node) -> (index: Index)
    requires
        arena_nodes(*old(arena)).dom().finite(),
        arena_nodes(*old(arena)).dom().len() < u32::MAX,
    ensures
        !arena_nodes(*old(arena)).dom().contains(index),
        arena_nodes(*final(arena)) == arena_nodes(*old(arena)).insert(index, node),
{
    arena.insert(node)
}

/// `Arena::get`: the record under `index`, or `None` if `index` does not
/// resolve.
#[verifier::external_body]
pub(crate) fn arena_get(arena: &Arena<Node>, index: Index) -> (node: Option<&Node>)
    ensures
        node == (if arena_nodes(*arena).dom().contains(index) {
            Some(&arena_nodes(*arena)[index])
        } else {
            None::<&Node>
        }),
{
    arena.get(index)
}

/// `Arena::get_mut`: mutable access to the record under `index`, or `None` if
/// `index` does not resolve. Whatever is written through the reference is
/// what the arena holds under `index` afterwards; nothing else changes.
#[verifier::external_body]
pub(crate) fn arena_get_mut(arena: &mut Arena<Node>, index: Index) -> (node: Option<&mut Node>)
    ensures
        node is Some == arena_nodes(*old(arena)).dom().contains(index),
        node matches Some(record) ==> *record == arena_nodes(*old(arena))[index],
        arena_nodes(*final(arena)) == (match node {
            Some(record) => arena_nodes(*old(arena)).insert(index, *final(record)),
            None => arena_nodes(*old(arena)),
        }),
{
    arena.get_mut(index)
}

/// `Arena::get2_mut`: mutable access to the records under two indices at
/// once. The arena panics if the two indices are equal, and it splits its
/// storage at the larger of the two slots, which panics if that slot lies
/// beyond the storage. Both cases are excluded: the two indices differ and
/// both resolve. Whatever is written through the references is what the
/// arena holds under the two indices afterwards; nothing else changes.
#[verifier::external_body]
pub(crate) fn arena_get2_mut(arena: &mut Arena<Node>, first: Index, second: Index) -> (pair: (
    Option<&mut Node>,
    Option<&mut Node>,
))
    requires
        first != second,
        arena_nodes(*old(arena)).dom().contains(first),
        arena_nodes(*old(arena)).dom().contains(second),
    ensures
        pair.0 matches Some(node) && *node == arena_nodes(*old(arena))[first],
        pair.1 matches Some(node) && *node == arena_nodes(*old(arena))[second],
        arena_nodes(*final(arena)) == arena_nodes(*old(arena)).insert(
            first,
            *final(pair.0.unwrap()),
        ).insert(second, *final(pair.1.unwrap())),
{
    arena.get2_mut(first, second)
}

} // verus!
