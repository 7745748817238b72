//! The hash-indexed bimap.

use vstd::laws_eq::obeys_concrete_eq;
use vstd::prelude::*;
use vstd::std_specs::hash::{into_iter, obeys_key_model};
use vstd::std_specs::cmp::PartialEqSpecImpl;
use vstd::std_specs::iter::IteratorSpec;
use std::collections::HashMap;
use std::hash::Hash;
use crate::keys::{clones_faithfully, duplicate};
use crate::laws::{
    lemma_empty_consistent, lemma_equal_by_inclusion, lemma_insert, lemma_lefts_of_listing,
    lemma_len_zero, lemma_remove_by_left, lemma_remove_by_right,
};
use crate::overwritten::Overwritten;
use crate::pairing::{lefts, Pairing};

verus! {

/// A bimap whose two indexes are hash tables. Its pairs come out in no
/// particular order.
#[derive(Debug)]
pub struct BiHashMap<L: Clone + Eq + Hash, R: Clone + Eq + Hash> {
    left_to_right: HashMap<L, R>,
    right_to_left: HashMap<R, L>,
}

impl<L: Clone + Eq + Hash, R: Clone + Eq + Hash> View for BiHashMap<L, R> {
    type V = Pairing<L, R>;

    closed spec fn view(&self) -> Pairing<L, R> {
        Pairing { left_to_right: self.left_to_right@, right_to_left: self.right_to_left@ }
    }
}

impl<L: Clone + Eq + Hash, R: Clone + Eq + Hash> BiHashMap<L, R> {
    /// Both value types can serve as keys of a hash table that owns its
    /// keys: they hash deterministically, `==` on them decides identity, and
    /// a clone is identical to what was cloned. Verus knows this of `bool`
    /// and of the integer types; of another type the caller has to know it.
    pub open spec fn lawful_keys() -> bool {
        &&& obeys_key_model::<L>()
        &&& obeys_key_model::<R>()
        &&& clones_faithfully::<L>()
        &&& clones_faithfully::<R>()
    }

    /// Holds of every `BiHashMap` at all times: the value types are lawful, and the
    /// two indexes have the same size and mirror each other.
    #[verifier::type_invariant]
    pub open spec fn wf(&self) -> bool {
        Self::lawful_keys() && self@.consistent()
    }

    /// The pairs in the order in which this bimap hands them out: the one in
    /// which the left-to-right index happens to hold them. It stays the same
    /// as long as the bimap is not changed; nothing else is known of it.
    pub closed spec fn listing(&self) -> Seq<(L, R)> {
        into_iter(self.left_to_right.iter())
    }

    /// An empty bimap.
    pub fn new() -> (m: Self)
        requires
            Self::lawful_keys(),
        ensures
            m@ == Pairing::<L, R>::empty(),
            m.wf(),
    {
        proof {
            lemma_empty_consistent::<L, R>();
        }
        BiHashMap { left_to_right: HashMap::new(), right_to_left: HashMap::new() }
    }

    /// An empty bimap with room for `capacity` pairs.
    pub fn with_capacity(capacity: usize) -> (m: Self)
        requires
            Self::lawful_keys(),
        ensures
            m@ == Pairing::<L, R>::empty(),
            m.wf(),
    {
        proof {
            lemma_empty_consistent::<L, R>();
        }
        BiHashMap {
            left_to_right: HashMap::with_capacity(capacity),
            right_to_left: HashMap::with_capacity(capacity),
        }
    }

    /// The number of pairs.
    pub fn len(&self) -> (n: usize)
        ensures
            n == self@.len(),
    {
        proof {
            use_type_invariant(self);
        }
        self.left_to_right.len()
    }

    /// Whether there is no pair.
    pub fn is_empty(&self) -> (b: bool)
        ensures
            b == (self@.len() == 0),
            b == (self@ == Pairing::<L, R>::empty()),
    {
        proof {
            use_type_invariant(self);
            lemma_len_zero(self@);
        }
        self.left_to_right.is_empty()
    }

    /// Whether `l` is the left value of some pair.
    pub fn contains_left(&self, l: &L) -> (b: bool)
        ensures
            b == self@.contains_left(*l),
    {
        proof {
            use_type_invariant(self);
        }
        self.left_to_right.contains_key(l)
    }

    /// Whether `r` is the right value of some pair.
    pub fn contains_right(&self, r: &R) -> (b: bool)
        ensures
            b == self@.contains_right(*r),
    {
        proof {
            use_type_invariant(self);
        }
        self.right_to_left.contains_key(r)
    }

    /// The right value paired with `l`.
    pub fn get_by_left(&self, l: &L) -> (found: Option<&R>)
        ensures
            match found {
                Some(r) => self@.right_of(*l) == Some(*r),
                None => self@.right_of(*l) is None,
            },
    {
        proof {
            use_type_invariant(self);
        }
        self.left_to_right.get(l)
    }

    /// The left value paired with `r`.
    pub fn get_by_right(&self, r: &R) -> (found: Option<&L>)
        ensures
            match found {
                Some(l) => self@.left_of(*r) == Some(*l),
                None => self@.left_of(*r) is None,
            },
    {
        proof {
            use_type_invariant(self);
        }
        self.right_to_left.get(r)
    }

    /// Hands out the whole content and leaves this bimap empty. A change
    /// takes the two indexes out, works on them one after the other, and
    /// puts them back together: `self` is well-formed at every moment, also
    /// between the two steps of the change.
    fn take(&mut self) -> (taken: Self)
        ensures
            taken@ == old(self)@,
            taken.wf(),
            final(self)@ == Pairing::<L, R>::empty(),
    {
        proof {
            use_type_invariant(&*self);
        }
        let mut taken = Self::new();
        std::mem::swap(self, &mut taken);
        taken
    }

    /// Inserts the pair `(l, r)`. Whatever pairs held `l` or `r` before are
    /// removed first, and the result says which values they held.
    pub fn insert(&mut self, l: L, r: R) -> (displaced: Overwritten<L, R>)
        ensures
            displaced == old(self)@.overwritten(l, r),
            final(self)@ == old(self)@.insert(l, r),
            final(self).wf(),
    {
        proof {
            use_type_invariant(&*self);
            lemma_remove_by_left(self@, l);
            lemma_remove_by_right(self@.remove_by_left(l), r);
            lemma_insert(self@, l, r);
        }
        let BiHashMap { mut left_to_right, mut right_to_left } = self.take();
        let old_right = left_to_right.remove(&l);
        if let Some(stale) = &old_right {
            right_to_left.remove(stale);
        }
        let old_left = right_to_left.remove(&r);
        if let Some(stale) = &old_left {
            left_to_right.remove(stale);
        }
        left_to_right.insert(duplicate(&l), duplicate(&r));
        right_to_left.insert(r, l);
        *self = BiHashMap { left_to_right, right_to_left };
        match (old_right, old_left) {
            (None, None) => Overwritten::Neither,
            (Some(old_r), None) => Overwritten::Left(old_r),
            (None, Some(old_l)) => Overwritten::Right(old_l),
            (Some(old_r), Some(old_l)) => Overwritten::Both(old_r, old_l),
        }
    }

    /// Inserts the pair `(l, r)` only if neither value is present. Otherwise
    /// the bimap stays as it is, and the error is the pair in the way: the
    /// one that holds `l`, or else the one that holds `r`.
    pub fn try_insert(&mut self, l: L, r: R) -> (outcome: Result<(), (L, R)>)
        ensures
            outcome == match old(self)@.conflict(l, r) {
                Some(pair) => Err::<(), (L, R)>(pair),
                None => Ok::<(), (L, R)>(()),
            },
            final(self)@ == if old(self)@.conflict(l, r) is None {
                old(self)@.insert(l, r)
            } else {
                old(self)@
            },
            final(self).wf(),
    {
        proof {
            use_type_invariant(&*self);
            lemma_insert(self@, l, r);
        }
        match self.left_to_right.get(&l) {
            Some(held) => {
                return Err((l, duplicate(held)));
            },
            None => {},
        }
        match self.right_to_left.get(&r) {
            Some(held) => {
                return Err((duplicate(held), r));
            },
            None => {},
        }
        let BiHashMap { mut left_to_right, mut right_to_left } = self.take();
        left_to_right.insert(duplicate(&l), duplicate(&r));
        right_to_left.insert(r, l);
        *self = BiHashMap { left_to_right, right_to_left };
        Ok(())
    }

    /// Removes the pair that holds `l` and returns it.
    pub fn remove_by_left(&mut self, l: &L) -> (removed: Option<(L, R)>)
        ensures
            removed == old(self)@.pair_by_left(*l),
            final(self)@ == old(self)@.remove_by_left(*l),
            final(self).wf(),
    {
        proof {
            use_type_invariant(&*self);
            lemma_remove_by_left(self@, *l);
        }
        if !self.left_to_right.contains_key(l) {
            return None;
        }
        let BiHashMap { mut left_to_right, mut right_to_left } = self.take();
        let removed = match left_to_right.remove(l) {
            Some(r) => match right_to_left.remove(&r) {
                Some(l) => Some((l, r)),
                None => None,
            },
            None => None,
        };
        *self = BiHashMap { left_to_right, right_to_left };
        removed
    }

    /// Removes the pair that holds `r` and returns it.
    pub fn remove_by_right(&mut self, r: &R) -> (removed: Option<(L, R)>)
        ensures
            removed == old(self)@.pair_by_right(*r),
            final(self)@ == old(self)@.remove_by_right(*r),
            final(self).wf(),
    {
        proof {
            use_type_invariant(&*self);
            lemma_remove_by_right(self@, *r);
        }
        if !self.right_to_left.contains_key(r) {
            return None;
        }
        let BiHashMap { mut left_to_right, mut right_to_left } = self.take();
        let removed = match right_to_left.remove(r) {
            Some(l) => match left_to_right.remove(&l) {
                Some(r) => Some((l, r)),
                None => None,
            },
            None => None,
        };
        *self = BiHashMap { left_to_right, right_to_left };
        removed
    }

    /// The pairs, each once, in the order of `listing`.
    pub fn iter(&self) -> (entries: Vec<(L, R)>)
        ensures
            entries@ == self.listing(),
            self@.listed_by(entries@),
            entries@.len() == self@.len(),
    {
        proof {
            use_type_invariant(self);
        }
        let entries = entries_of(&self.left_to_right);
        assert(self@.left_to_right.kv_pairs() =~= self@.pairs());
        entries
    }

    /// The left values, each once, in the order of `listing`.
    pub fn left_values(&self) -> (values: Vec<L>)
        ensures
            values@ == lefts(self.listing()),
            values@.no_duplicates(),
            values@.to_set() == self@.left_to_right.dom(),
            values@.len() == self@.len(),
    {
        proof {
            use_type_invariant(self);
        }
        keys_of(&self.left_to_right)
    }

    /// The right values, each once, in the order in which the right-to-left
    /// index happens to hold them.
    pub fn right_values(&self) -> (values: Vec<R>)
        ensures
            values@.no_duplicates(),
            values@.to_set() == self@.right_to_left.dom(),
            values@.len() == self@.len(),
    {
        proof {
            use_type_invariant(self);
        }
        keys_of(&self.right_to_left)
    }

    /// The left-to-right index itself, to be read as an ordinary map.
    pub fn left_to_right(&self) -> (index: &HashMap<L, R>)
        ensures
            index@ == self@.left_to_right,
    {
        &self.left_to_right
    }

    /// The right-to-left index itself, to be read as an ordinary map.
    pub fn right_to_left(&self) -> (index: &HashMap<R, L>)
        ensures
            index@ == self@.right_to_left,
    {
        &self.right_to_left
    }

    /// The pairs as a sequence for an encoder: what `iter` yields, in the
    /// same order, and nothing else.
    pub fn serialize(&self) -> (entries: Vec<(L, R)>)
        ensures
            entries@ == self.listing(),
            self@.listed_by(entries@),
            entries@.len() == self@.len(),
    {
        self.iter()
    }

    /// The bimap that a decoder's pairs describe: they are inserted one
    /// after another into an empty bimap, which is made with room for
    /// `size_hint` pairs where the decoder gave a hint. A pair displaces
    /// earlier ones that hold one of its values, as `insert` does.
    pub fn deserialize(entries: &[(L, R)], size_hint: Option<usize>) -> (m: Self)
        requires
            Self::lawful_keys(),
        ensures
            m@ == Pairing::replay(entries@),
            m.wf(),
    {
        let mut m = match size_hint {
            Some(capacity) => Self::with_capacity(capacity),
            None => Self::new(),
        };
        for entry in walk: entries.iter()
            invariant
                Self::lawful_keys(),
                walk.seq().unref() == entries@,
                m@ == Pairing::replay(entries@.take(walk.index())),
        {
            proof {
                let upto = entries@.take(walk.index() + 1);
                assert(upto.drop_last() == entries@.take(walk.index()));
                assert(upto.last() == *entry);
            }
            m.insert(duplicate(&entry.0), duplicate(&entry.1));
        }
        proof {
            use_type_invariant(&m);
            assert(entries@.take(entries@.len() as int) == entries@);
        }
        m
    }
}

impl<L: Clone + Eq + Hash, R: Clone + Eq + Hash> Clone for BiHashMap<L, R> {
    fn clone(&self) -> (copy: Self)
        ensures
            copy@ == self@,
    {
        proof {
            use_type_invariant(self);
        }
        BiHashMap {
            left_to_right: self.left_to_right.clone(),
            right_to_left: self.right_to_left.clone(),
        }
    }
}

impl<L: Clone + Eq + Hash, R: Clone + Eq + Hash> PartialEq for BiHashMap<L, R> {
    /// Two bimaps are equal when they hold the same pairs.
    fn eq(&self, other: &Self) -> (same: bool) {
        proof {
            use_type_invariant(self);
            use_type_invariant(other);
        }
        if self.left_to_right.len() != other.left_to_right.len() {
            return false;
        }
        let ghost listing = self.left_to_right.iter().remaining().unref();
        for entry in walk: self.left_to_right.iter()
            invariant
                walk.seq().unref() == listing,
                obeys_concrete_eq::<R>() ==> forall|i: int|
                    0 <= i < walk.index() ==> other@.contains_pair(
                        (#[trigger] listing[i]).0,
                        listing[i].1,
                    ),
        {
            proof {
                use_type_invariant(other);
                reveal(obeys_concrete_eq);
                assert(listing[walk.index()] == (*entry.0, *entry.1));
            }
            match other.left_to_right.get(entry.0) {
                Some(held) => {
                    if *held != *entry.1 {
                        return false;
                    }
                },
                None => {
                    return false;
                },
            }
        }
        proof {
            if obeys_concrete_eq::<R>() {
                assert forall|l: L| #[trigger]
                    self@.contains_left(l) implies other@.contains_pair(
                    l,
                    self@.left_to_right[l],
                ) by {
                    assert(self@.left_to_right.kv_pairs().contains((l, self@.left_to_right[l])));
                    assert(listing.to_set().contains((l, self@.left_to_right[l])));
                }
                lemma_equal_by_inclusion(self@, other@);
            }
        }
        true
    }
}

impl<L: Clone + Eq + Hash, R: Clone + Eq + Hash> Eq for BiHashMap<L, R> {}

impl<L: Clone + Eq + Hash, R: Clone + Eq + Hash> PartialEqSpecImpl for BiHashMap<L, R> {
    /// `==` on bimaps decides equality where `==` on right values decides
    /// identity.
    open spec fn obeys_eq_spec() -> bool {
        obeys_concrete_eq::<R>()
    }

    /// Two bimaps are equal when they hold the same pairs.
    open spec fn eq_spec(&self, other: &Self) -> bool {
        self@ == other@
    }
}

/// The entries of `index`, each once, in the order in which it holds them.
fn entries_of<K: Clone + Eq + Hash, V: Clone>(index: &HashMap<K, V>) -> (entries: Vec<(K, V)>)
    requires
        obeys_key_model::<K>(),
        clones_faithfully::<K>(),
        clones_faithfully::<V>(),
    ensures
        entries@ == into_iter(index.iter()),
        entries@.no_duplicates(),
        entries@.to_set() == index@.kv_pairs(),
        entries@.len() == index@.len(),
{
    let ghost listing = index.iter().remaining().unref();
    let mut entries: Vec<(K, V)> = Vec::with_capacity(index.len());
    for entry in walk: index.iter()
        invariant
            clones_faithfully::<K>(),
            clones_faithfully::<V>(),
            walk.seq().unref() == listing,
            entries@ == listing.take(walk.index()),
    {
        entries.push((duplicate(entry.0), duplicate(entry.1)));
    }
    assert(entries@ == listing);
    entries
}

/// The keys of `index`, each once, in the order in which it holds them.
fn keys_of<K: Clone + Eq + Hash, V>(index: &HashMap<K, V>) -> (keys: Vec<K>)
    requires
        obeys_key_model::<K>(),
        clones_faithfully::<K>(),
    ensures
        keys@ == lefts(into_iter(index.iter())),
        keys@.no_duplicates(),
        keys@.to_set() == index@.dom(),
        keys@.len() == index@.len(),
{
    let ghost listing = index.iter().remaining().unref();
    let mut keys: Vec<K> = Vec::with_capacity(index.len());
    for entry in walk: index.iter()
        invariant
            clones_faithfully::<K>(),
            walk.seq().unref() == listing,
            keys@ == lefts(listing).take(walk.index()),
    {
        keys.push(duplicate(entry.0));
    }
    proof {
        assert(keys@ == lefts(listing));
        lemma_lefts_of_listing(index@, listing);
    }
    keys
}

} // verus!
