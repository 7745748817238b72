//! The mathematical model shared by both bimap variants.

use vstd::prelude::*;
use crate::overwritten::Overwritten;

verus! {

/// The abstract state of a bimap: its two indexes as mathematical maps.
#[verifier::ext_equal]
#[verifier::reject_recursive_types(L)]
#[verifier::reject_recursive_types(R)]
pub struct Pairing<L, R> {
    /// One entry per left value present.
    pub left_to_right: Map<L, R>,
    /// One entry per right value present.
    pub right_to_left: Map<R, L>,
}

impl<L, R> Pairing<L, R> {
    /// The pairing that holds no pair.
    pub open spec fn empty() -> Self {
        Pairing { left_to_right: Map::empty(), right_to_left: Map::empty() }
    }

    /// Every entry of either index has its mirror entry in the other.
    pub open spec fn mirrored(self) -> bool {
        &&& forall|l: L| #[trigger]
            self.left_to_right.contains_key(l) ==> self.right_to_left.contains_key(
                self.left_to_right[l],
            ) && self.right_to_left[self.left_to_right[l]] == l
        &&& forall|r: R| #[trigger]
            self.right_to_left.contains_key(r) ==> self.left_to_right.contains_key(
                self.right_to_left[r],
            ) && self.left_to_right[self.right_to_left[r]] == r
    }

    /// The invariant of a bimap: two finite indexes of equal size that
    /// mirror each other.
    pub open spec fn consistent(self) -> bool {
        &&& self.left_to_right.dom().finite()
        &&& self.right_to_left.dom().finite()
        &&& self.left_to_right.len() == self.right_to_left.len()
        &&& self.mirrored()
    }

    /// The number of pairs.
    pub open spec fn len(self) -> nat {
        self.left_to_right.len()
    }

    /// `l` is the left value of some pair.
    pub open spec fn contains_left(self, l: L) -> bool {
        self.left_to_right.contains_key(l)
    }

    /// `r` is the right value of some pair.
    pub open spec fn contains_right(self, r: R) -> bool {
        self.right_to_left.contains_key(r)
    }

    /// `(l, r)` is one of the pairs.
    pub open spec fn contains_pair(self, l: L, r: R) -> bool {
        self.left_to_right.contains_key(l) && self.left_to_right[l] == r
    }

    /// The right value paired with `l`, if `l` is present.
    pub open spec fn right_of(self, l: L) -> Option<R> {
        if self.left_to_right.contains_key(l) {
            Some(self.left_to_right[l])
        } else {
            None
        }
    }

    /// The left value paired with `r`, if `r` is present.
    pub open spec fn left_of(self, r: R) -> Option<L> {
        if self.right_to_left.contains_key(r) {
            Some(self.right_to_left[r])
        } else {
            None
        }
    }

    /// The pair that holds `l`, if `l` is present.
    pub open spec fn pair_by_left(self, l: L) -> Option<(L, R)> {
        if self.left_to_right.contains_key(l) {
            Some((l, self.left_to_right[l]))
        } else {
            None
        }
    }

    /// The pair that holds `r`, if `r` is present.
    pub open spec fn pair_by_right(self, r: R) -> Option<(L, R)> {
        if self.right_to_left.contains_key(r) {
            Some((self.right_to_left[r], r))
        } else {
            None
        }
    }

    /// The pairs held, as a set.
    pub open spec fn pairs(self) -> Set<(L, R)> {
        Set::new(|p: (L, R)| self.contains_pair(p.0, p.1))
    }

    /// The pairing without the pair that holds `l`, if there is one.
    pub open spec fn remove_by_left(self, l: L) -> Self {
        if self.left_to_right.contains_key(l) {
            Pairing {
                left_to_right: self.left_to_right.remove(l),
                right_to_left: self.right_to_left.remove(self.left_to_right[l]),
            }
        } else {
            self
        }
    }

    /// The pairing without the pair that holds `r`, if there is one.
    pub open spec fn remove_by_right(self, r: R) -> Self {
        if self.right_to_left.contains_key(r) {
            Pairing {
                left_to_right: self.left_to_right.remove(self.right_to_left[r]),
                right_to_left: self.right_to_left.remove(r),
            }
        } else {
            self
        }
    }

    /// The pairing after `(l, r)` has been inserted: whatever pairs held `l`
    /// or `r` are gone, and `(l, r)` is there.
    pub open spec fn insert(self, l: L, r: R) -> Self {
        let purged = self.remove_by_left(l).remove_by_right(r);
        Pairing {
            left_to_right: purged.left_to_right.insert(l, r),
            right_to_left: purged.right_to_left.insert(r, l),
        }
    }

    /// What inserting `(l, r)` displaces.
    pub open spec fn overwritten(self, l: L, r: R) -> Overwritten<L, R> {
        if self.contains_left(l) {
            if self.contains_right(r) && self.right_to_left[r] != l {
                Overwritten::Both(self.left_to_right[l], self.right_to_left[r])
            } else {
                Overwritten::Left(self.left_to_right[l])
            }
        } else if self.contains_right(r) {
            Overwritten::Right(self.right_to_left[r])
        } else {
            Overwritten::Neither
        }
    }

    /// The pair already present that stands in the way of `(l, r)`: the one
    /// that holds `l`, else the one that holds `r`.
    pub open spec fn conflict(self, l: L, r: R) -> Option<(L, R)> {
        if self.contains_left(l) {
            Some((l, self.left_to_right[l]))
        } else if self.contains_right(r) {
            Some((self.right_to_left[r], r))
        } else {
            None
        }
    }

    /// The pairing built by inserting `entries` one after another, first to
    /// last, into an empty pairing.
    pub open spec fn replay(entries: Seq<(L, R)>) -> Self
        decreases entries.len(),
    {
        if entries.len() == 0 {
            Self::empty()
        } else {
            Self::replay(entries.drop_last()).insert(entries.last().0, entries.last().1)
        }
    }

    /// `entries` lists the pairs of this pairing, each exactly once.
    pub open spec fn listed_by(self, entries: Seq<(L, R)>) -> bool {
        &&& entries.no_duplicates()
        &&& entries.to_set() == self.pairs()
    }

    /// The pairing after one change.
    pub open spec fn apply(self, change: Change<L, R>) -> Self {
        match change {
            Change::Insert(l, r) => self.insert(l, r),
            Change::TryInsert(l, r) => if self.conflict(l, r) is None {
                self.insert(l, r)
            } else {
                self
            },
            Change::RemoveByLeft(l) => self.remove_by_left(l),
            Change::RemoveByRight(r) => self.remove_by_right(r),
        }
    }

    /// The pairing after `changes` have been applied, first to last.
    pub open spec fn apply_all(self, changes: Seq<Change<L, R>>) -> Self
        decreases changes.len(),
    {
        if changes.len() == 0 {
            self
        } else {
            self.apply_all(changes.drop_last()).apply(changes.last())
        }
    }
}

/// The left values of `entries`, in their order.
pub open spec fn lefts<L, R>(entries: Seq<(L, R)>) -> Seq<L> {
    Seq::new(entries.len(), |i: int| entries[i].0)
}

/// The entry at `i` outlasts the entries after it: none of them holds one of
/// its two values.
pub open spec fn survives<L, R>(entries: Seq<(L, R)>, i: int) -> bool {
    &&& 0 <= i < entries.len()
    &&& forall|j: int|
        i < j < entries.len() ==> (#[trigger] entries[j]).0 != entries[i].0 && entries[j].1
            != entries[i].1
}

/// One call of a mutating operation of a bimap, as a value to reason about.
pub enum Change<L, R> {
    Insert(L, R),
    TryInsert(L, R),
    RemoveByLeft(L),
    RemoveByRight(R),
}

} // verus!
