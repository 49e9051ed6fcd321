//! What is asked of the predicate that a pruning traversal is given.

use vstd::prelude::*;

verus! {

/// Whether `f` can be called on every value.
pub open spec fn total<T, F: Fn(&T) -> bool>(f: F) -> bool {
    forall|v: &T| #[trigger] call_requires(f, (v,))
}

/// Whether `keep` says what `f` returns: whenever `f` returns on a value, it
/// returns what `keep` holds of that value.
pub open spec fn computes<T, F: Fn(&T) -> bool>(f: F, keep: spec_fn(T) -> bool) -> bool {
    forall|v: &T, b: bool| #[trigger] call_ensures(f, (v,), b) ==> b == keep(*v)
}

} // verus!
