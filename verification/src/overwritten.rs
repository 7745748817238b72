//! What an insertion displaced.

use vstd::prelude::*;

verus! {

/// The values that left a bimap when a pair `(l, r)` was inserted into it.
#[derive(Debug, PartialEq, Eq)]
pub enum Overwritten<L, R> {
    /// Neither `l` nor `r` was present.
    Neither,
    /// `l` was present and paired with the given right value; `r` was
    /// absent, or it was that very value.
    Left(R),
    /// `r` was present and paired with the given left value; `l` was absent.
    Right(L),
    /// `l` and `r` were both present, in two different pairs: `l` with the
    /// first value, `r` with the second. Both pairs are gone.
    Both(R, L),
}

impl<L: Clone, R: Clone> Clone for Overwritten<L, R> {
    fn clone(&self) -> (copy: Self)
        ensures
            match (*self, copy) {
                (Overwritten::Neither, Overwritten::Neither) => true,
                (Overwritten::Left(r), Overwritten::Left(r2)) => cloned(r, r2),
                (Overwritten::Right(l), Overwritten::Right(l2)) => cloned(l, l2),
                (Overwritten::Both(r, l), Overwritten::Both(r2, l2)) => cloned(r, r2) && cloned(
                    l,
                    l2,
                ),
                _ => false,
            },
    {
        match self {
            Overwritten::Neither => Overwritten::Neither,
            Overwritten::Left(r) => Overwritten::Left(r.clone()),
            Overwritten::Right(l) => Overwritten::Right(l.clone()),
            Overwritten::Both(r, l) => Overwritten::Both(r.clone(), l.clone()),
        }
    }
}

} // verus!
