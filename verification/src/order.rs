//! The order that the tree-indexed bimap keeps its values in.

use vstd::prelude::*;
use vstd::std_specs::cmp::OrdSpec;
use core::cmp::Ordering;

verus! {

/// `a` comes strictly before `b` in the order of `K`.
pub open spec fn precedes<K: Ord>(a: K, b: K) -> bool {
    a.cmp_spec(&b) == Ordering::Less
}

/// Each value of `values` comes strictly before all that follow it.
pub open spec fn ascending<K: Ord>(values: Seq<K>) -> bool {
    forall|i: int, j: int| 0 <= i < j < values.len() ==> precedes(values[i], values[j])
}

/// The left values of `entries` ascend.
pub open spec fn ascending_by_left<L: Ord, R>(entries: Seq<(L, R)>) -> bool {
    forall|i: int, j: int| 0 <= i < j < entries.len() ==> precedes(entries[i].0, entries[j].0)
}

} // verus!
