//! What the bimaps ask of the types of their values.

use vstd::prelude::*;

verus! {

/// Cloning a `T` gives a value identical to the one cloned.
pub open spec fn clones_faithfully<T: Clone>() -> bool {
    forall|a: T, b: T| #[trigger] cloned(a, b) ==> a == b
}

/// A clone of `value`, known to be identical to it.
pub(crate) fn duplicate<T: Clone>(value: &T) -> (copy: T)
    requires
        clones_faithfully::<T>(),
    ensures
        copy == *value,
{
    let copy = value.clone();
    assert(cloned(*value, copy));
    copy
}

} // verus!
