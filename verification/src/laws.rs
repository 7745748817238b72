//! What holds of every pairing, proved over the model.

use vstd::prelude::*;
use vstd::set_lib::lemma_subset_equality;
use crate::overwritten::Overwritten;
use crate::pairing::{lefts, survives, Change, Pairing};

verus! {

/// The empty pairing is consistent.
pub proof fn lemma_empty_consistent<L, R>()
    ensures
        Pairing::<L, R>::empty().consistent(),
        Pairing::<L, R>::empty().len() == 0,
{
}

/// A consistent pairing of size zero is the empty pairing, and no other is.
pub proof fn lemma_len_zero<L, R>(m: Pairing<L, R>)
    requires
        m.consistent(),
    ensures
        m.len() == 0 <==> m == Pairing::<L, R>::empty(),
        m.len() == 0 <==> m.left_to_right.dom().is_empty(),
{
    if m.len() == 0 {
        m.left_to_right.dom().lemma_len0_is_empty();
        m.right_to_left.dom().lemma_len0_is_empty();
        assert(m =~= Pairing::<L, R>::empty());
    }
    if m.left_to_right.dom().is_empty() {
        assert(m.left_to_right.dom() =~= Set::<L>::empty());
    }
}

/// Removing by a left value keeps a pairing consistent. If the value was
/// present, exactly its pair leaves, in both directions; if it was absent,
/// nothing changes.
pub proof fn lemma_remove_by_left<L, R>(m: Pairing<L, R>, l: L)
    requires
        m.consistent(),
    ensures
        m.remove_by_left(l).consistent(),
        !m.remove_by_left(l).contains_left(l),
        m.contains_left(l) ==> {
            &&& !m.remove_by_left(l).contains_right(m.left_to_right[l])
            &&& m.remove_by_left(l).len() == m.len() - 1
            &&& m.remove_by_left(l).pairs() == m.pairs().remove((l, m.left_to_right[l]))
        },
        !m.contains_left(l) ==> m.remove_by_left(l) == m,
{
    if m.contains_left(l) {
        let r = m.left_to_right[l];
        let after = m.remove_by_left(l);
        assert(m.right_to_left.contains_key(r));
        assert(after.mirrored());
        assert(after.pairs() =~= m.pairs().remove((l, r)));
    }
}

/// Removing by a right value keeps a pairing consistent. If the value was
/// present, exactly its pair leaves, in both directions; if it was absent,
/// nothing changes.
pub proof fn lemma_remove_by_right<L, R>(m: Pairing<L, R>, r: R)
    requires
        m.consistent(),
    ensures
        m.remove_by_right(r).consistent(),
        !m.remove_by_right(r).contains_right(r),
        m.contains_right(r) ==> {
            &&& !m.remove_by_right(r).contains_left(m.right_to_left[r])
            &&& m.remove_by_right(r).len() == m.len() - 1
            &&& m.remove_by_right(r).pairs() == m.pairs().remove((m.right_to_left[r], r))
        },
        !m.contains_right(r) ==> m.remove_by_right(r) == m,
{
    if m.contains_right(r) {
        let l = m.right_to_left[r];
        let after = m.remove_by_right(r);
        assert(m.left_to_right.contains_key(l));
        assert(after.mirrored());
        assert(after.pairs() =~= m.pairs().remove((l, r)));
    }
}

/// Inserting a pair keeps a pairing consistent, puts the pair in, and
/// changes the size by one at most.
pub proof fn lemma_insert<L, R>(m: Pairing<L, R>, l: L, r: R)
    requires
        m.consistent(),
    ensures
        m.insert(l, r).consistent(),
        m.insert(l, r).contains_pair(l, r),
        m.insert(l, r).right_to_left.contains_key(r),
        m.insert(l, r).right_to_left[r] == l,
        m.len() - 1 <= m.insert(l, r).len() <= m.len() + 1,
        m.overwritten(l, r) is Neither ==> m.insert(l, r).len() == m.len() + 1,
        m.overwritten(l, r) is Left ==> m.insert(l, r).len() == m.len(),
        m.overwritten(l, r) is Right ==> m.insert(l, r).len() == m.len(),
        m.overwritten(l, r) is Both ==> m.insert(l, r).len() == m.len() - 1,
{
    let a = m.remove_by_left(l);
    lemma_remove_by_left(m, l);
    let b = a.remove_by_right(r);
    lemma_remove_by_right(a, r);
    assert(!b.contains_left(l));
    assert(!b.contains_right(r));
    assert(m.insert(l, r).mirrored());
}

/// The pairs after an insertion are those that held neither `l` nor `r`,
/// and `(l, r)`.
pub proof fn lemma_insert_pairs<L, R>(m: Pairing<L, R>, l: L, r: R)
    requires
        m.consistent(),
    ensures
        m.insert(l, r).pairs() == m.pairs().filter(|p: (L, R)| p.0 != l && p.1 != r).insert(
            (l, r),
        ),
{
    lemma_remove_by_left(m, l);
    lemma_remove_by_right(m.remove_by_left(l), r);
    assert(m.insert(l, r).pairs() =~= m.pairs().filter(|p: (L, R)| p.0 != l && p.1 != r).insert(
        (l, r),
    ));
}

/// Where `entries` lists the entries of a map, each once, its left values
/// list the keys of the map, each once.
pub proof fn lemma_lefts_of_listing<K, V>(index: Map<K, V>, entries: Seq<(K, V)>)
    requires
        entries.no_duplicates(),
        entries.to_set() == index.kv_pairs(),
    ensures
        lefts(entries).no_duplicates(),
        lefts(entries).to_set() == index.dom(),
        lefts(entries).len() == entries.len(),
{
    let keys = lefts(entries);
    assert forall|i: int, j: int|
        0 <= i < keys.len() && 0 <= j < keys.len() && i != j implies keys[i] != keys[j] by {
        assert(entries.to_set().contains(entries[i]));
        assert(entries.to_set().contains(entries[j]));
    }
    assert forall|k: K| index.dom().contains(k) implies keys.to_set().contains(k) by {
        assert(index.kv_pairs().contains((k, index[k])));
        assert(entries.to_set().contains((k, index[k])));
        let i = choose|i: int| 0 <= i < entries.len() && entries[i] == (k, index[k]);
        assert(keys[i] == k);
    }
    assert forall|k: K| keys.to_set().contains(k) implies index.dom().contains(k) by {
        let i = choose|i: int| 0 <= i < keys.len() && keys[i] == k;
        assert(entries.to_set().contains(entries[i]));
    }
    assert(keys.to_set() =~= index.dom());
}

/// In a consistent pairing the left-to-right index fixes the right-to-left
/// index: two consistent pairings with the same left-to-right index are the
/// same pairing.
pub proof fn lemma_pairs_determine<L, R>(a: Pairing<L, R>, b: Pairing<L, R>)
    requires
        a.consistent(),
        b.consistent(),
        a.left_to_right == b.left_to_right,
    ensures
        a == b,
{
    assert forall|r: R| a.right_to_left.contains_key(r) implies b.right_to_left.contains_key(r)
        && b.right_to_left[r] == a.right_to_left[r] by {
        assert(b.left_to_right.contains_key(a.right_to_left[r]));
    }
    assert forall|r: R| b.right_to_left.contains_key(r) implies a.right_to_left.contains_key(
        r,
    ) by {
        assert(a.left_to_right.contains_key(b.right_to_left[r]));
    }
    assert(a.right_to_left =~= b.right_to_left);
}

/// Equality of bimaps is equality of their sets of pairs: two consistent
/// pairings that hold the same pairs are the same pairing.
pub proof fn lemma_equal_by_pairs<L, R>(a: Pairing<L, R>, b: Pairing<L, R>)
    requires
        a.consistent(),
        b.consistent(),
        a.pairs() == b.pairs(),
    ensures
        a == b,
{
    assert forall|l: L| a.left_to_right.contains_key(l) implies b.left_to_right.contains_key(l)
        && b.left_to_right[l] == a.left_to_right[l] by {
        assert(a.pairs().contains((l, a.left_to_right[l])));
        assert(b.pairs().contains((l, a.left_to_right[l])));
    }
    assert forall|l: L| b.left_to_right.contains_key(l) implies a.left_to_right.contains_key(
        l,
    ) by {
        assert(b.pairs().contains((l, b.left_to_right[l])));
        assert(a.pairs().contains((l, b.left_to_right[l])));
    }
    assert(a.left_to_right =~= b.left_to_right);
    lemma_pairs_determine(a, b);
}

/// Two consistent pairings of the same size are equal as soon as every pair
/// of the first is a pair of the second.
pub proof fn lemma_equal_by_inclusion<L, R>(a: Pairing<L, R>, b: Pairing<L, R>)
    requires
        a.consistent(),
        b.consistent(),
        a.len() == b.len(),
        forall|l: L| #[trigger]
            a.contains_left(l) ==> b.contains_pair(l, a.left_to_right[l]),
    ensures
        a == b,
{
    assert(a.left_to_right.dom().subset_of(b.left_to_right.dom())) by {
        assert forall|l: L| a.left_to_right.dom().contains(l) implies b.left_to_right.dom()
            .contains(l) by {
            assert(a.contains_left(l));
        }
    }
    lemma_subset_equality(a.left_to_right.dom(), b.left_to_right.dom());
    assert forall|l: L| a.left_to_right.contains_key(l) implies a.left_to_right[l]
        == b.left_to_right[l] by {
        assert(a.contains_left(l));
    }
    assert(a.left_to_right =~= b.left_to_right);
    lemma_pairs_determine(a, b);
}

/// One change keeps a pairing consistent.
pub proof fn lemma_apply_consistent<L, R>(m: Pairing<L, R>, change: Change<L, R>)
    requires
        m.consistent(),
    ensures
        m.apply(change).consistent(),
{
    match change {
        Change::Insert(l, r) => lemma_insert(m, l, r),
        Change::TryInsert(l, r) => lemma_insert(m, l, r),
        Change::RemoveByLeft(l) => lemma_remove_by_left(m, l),
        Change::RemoveByRight(r) => lemma_remove_by_right(m, r),
    }
}

/// Whatever insertions and removals are applied to a consistent pairing, in
/// whatever order, the pairing is consistent after each of them: the two
/// indexes have the same size and mirror each other.
pub proof fn lemma_invariant_preserved<L, R>(m: Pairing<L, R>, changes: Seq<Change<L, R>>)
    requires
        m.consistent(),
    ensures
        forall|n: int|
            0 <= n <= changes.len() ==> (#[trigger] m.apply_all(changes.take(n))).consistent(),
    decreases changes.len(),
{
    assert(changes.take(changes.len() as int) =~= changes);
    if changes.len() > 0 {
        let earlier = changes.drop_last();
        lemma_invariant_preserved(m, earlier);
        assert(earlier.take(earlier.len() as int) =~= earlier);
        lemma_apply_consistent(m.apply_all(earlier), changes.last());
        assert forall|n: int| 0 <= n <= changes.len() implies (#[trigger] m.apply_all(
            changes.take(n),
        )).consistent() by {
            if n < changes.len() {
                assert(changes.take(n) =~= earlier.take(n));
            }
        }
    } else {
        assert forall|n: int| 0 <= n <= changes.len() implies (#[trigger] m.apply_all(
            changes.take(n),
        )).consistent() by {
            assert(changes.take(n) =~= changes);
        }
    }
}

/// Two different left values that are both present are paired with
/// different right values.
pub proof fn lemma_injective_left<L, R>(m: Pairing<L, R>, l1: L, l2: L)
    requires
        m.consistent(),
        l1 != l2,
        m.contains_left(l1),
        m.contains_left(l2),
    ensures
        m.right_of(l1) != m.right_of(l2),
{
}

/// Two different right values that are both present are paired with
/// different left values.
pub proof fn lemma_injective_right<L, R>(m: Pairing<L, R>, r1: R, r2: R)
    requires
        m.consistent(),
        r1 != r2,
        m.contains_right(r1),
        m.contains_right(r2),
    ensures
        m.left_of(r1) != m.left_of(r2),
{
}

/// The two lookups agree: `l` is paired with `r` from the left exactly when
/// `r` is paired with `l` from the right.
pub proof fn lemma_lookups_agree<L, R>(m: Pairing<L, R>, l: L, r: R)
    requires
        m.consistent(),
    ensures
        m.right_of(l) == Some(r) <==> m.left_of(r) == Some(l),
        m.contains_pair(l, r) <==> m.right_of(l) == Some(r),
{
}

/// Inserting `(l, r)` where `l` was paired with another right value and `r`
/// with another left value removes both old pairs and puts `(l, r)` in:
/// the size goes down by one, and the insertion reports both old partners.
pub proof fn lemma_overwrite<L, R>(m: Pairing<L, R>, l: L, r: R, old_l: L, old_r: R)
    requires
        m.consistent(),
        m.contains_pair(l, old_r),
        m.contains_pair(old_l, r),
        old_r != r,
        old_l != l,
    ensures
        m.insert(l, r).contains_pair(l, r),
        !m.insert(l, r).contains_pair(l, old_r),
        !m.insert(l, r).contains_pair(old_l, r),
        !m.insert(l, r).contains_left(old_l),
        !m.insert(l, r).contains_right(old_r),
        m.insert(l, r).len() == m.len() - 1,
        m.overwritten(l, r) == Overwritten::Both(old_r, old_l),
        m.insert(l, r).pairs() == m.pairs().remove((l, old_r)).remove((old_l, r)).insert((l, r)),
{
    lemma_insert(m, l, r);
    lemma_remove_by_left(m, l);
    lemma_remove_by_right(m.remove_by_left(l), r);
    assert(m.right_to_left[r] == old_l);
    assert(m.insert(l, r).pairs() =~= m.pairs().remove((l, old_r)).remove((old_l, r)).insert(
        (l, r),
    ));
}

/// Replaying any sequence of pairs gives a consistent pairing, and one that
/// holds the last pair of the sequence.
pub proof fn lemma_replay_consistent<L, R>(entries: Seq<(L, R)>)
    ensures
        Pairing::replay(entries).consistent(),
        Pairing::replay(entries).len() <= entries.len(),
        entries.len() > 0 ==> Pairing::replay(entries).contains_pair(
            entries.last().0,
            entries.last().1,
        ),
    decreases entries.len(),
{
    if entries.len() > 0 {
        lemma_replay_consistent(entries.drop_last());
        lemma_insert(Pairing::replay(entries.drop_last()), entries.last().0, entries.last().1);
    }
}

/// Replaying a sequence of pairs keeps exactly the entries that outlast all
/// later ones: where entries share a value, the last of them wins.
pub proof fn lemma_replay_survivors<L, R>(entries: Seq<(L, R)>, l: L, r: R)
    ensures
        Pairing::replay(entries).contains_pair(l, r) <==> exists|i: int|
            survives(entries, i) && #[trigger] entries[i] == (l, r),
    decreases entries.len(),
{
    if entries.len() > 0 {
        let earlier = entries.drop_last();
        let last = entries.len() - 1;
        let p = entries[last];
        let before = Pairing::replay(earlier);
        lemma_replay_survivors(earlier, l, r);
        lemma_replay_consistent(earlier);
        lemma_insert(before, p.0, p.1);
        lemma_remove_by_left(before, p.0);
        lemma_remove_by_right(before.remove_by_left(p.0), p.1);
        let after = before.insert(p.0, p.1);
        assert(after == Pairing::replay(entries));
        if after.contains_pair(l, r) {
            if (l, r) == p {
                assert(survives(entries, last) && entries[last] == (l, r));
            } else {
                assert(before.contains_pair(l, r));
                assert(l != p.0);
                assert(r != p.1);
                let i = choose|i: int| survives(earlier, i) && #[trigger] earlier[i] == (l, r);
                assert forall|j: int| i < j < entries.len() implies (#[trigger] entries[j]).0
                    != entries[i].0 && entries[j].1 != entries[i].1 by {
                    if j < last {
                        assert(entries[j] == earlier[j]);
                    }
                }
                assert(survives(entries, i) && entries[i] == (l, r));
            }
        }
        if exists|i: int| survives(entries, i) && #[trigger] entries[i] == (l, r) {
            let i = choose|i: int| survives(entries, i) && #[trigger] entries[i] == (l, r);
            if i < last {
                assert forall|j: int| i < j < earlier.len() implies (#[trigger] earlier[j]).0
                    != earlier[i].0 && earlier[j].1 != earlier[i].1 by {
                    assert(entries[j] == earlier[j]);
                }
                assert(survives(earlier, i) && earlier[i] == (l, r));
                assert(before.contains_pair(l, r));
                assert(entries[last].0 != entries[i].0 && entries[last].1 != entries[i].1);
                assert(after.contains_pair(l, r));
            }
        }
    }
}

/// A source that no bimap can have produced: three entries, two of which
/// share a right value. In whatever order they arrive, replaying them gives
/// a consistent pairing of two pairs that holds the third entry and exactly
/// one of the two that collide, the one that arrived later.
pub proof fn lemma_colliding_source<L, R>(entries: Seq<(L, R)>, a: L, b: L, c: L, one: R, two: R)
    requires
        a != b,
        a != c,
        b != c,
        one != two,
        entries.len() == 3,
        entries.to_set() == set![(a, one), (b, two), (c, two)],
    ensures
        Pairing::replay(entries).consistent(),
        Pairing::replay(entries).len() == 2,
        Pairing::replay(entries).right_of(a) == Some(one),
        (Pairing::replay(entries).right_of(b) == Some(two)) != (Pairing::replay(entries).right_of(c)
            == Some(two)),
        forall|i: int, j: int|
            0 <= i < j < 3 && entries[i].1 == two && entries[j].1 == two ==> Pairing::replay(
                entries,
            ).left_of(two) == Some(entries[j].0),
{
    let m = Pairing::replay(entries);
    lemma_replay_consistent(entries);
    let source = set![(a, one), (b, two), (c, two)];
    assert(source.contains((a, one)) && source.contains((b, two)) && source.contains((c, two)));
    let ia = choose|i: int| 0 <= i < entries.len() && entries[i] == (a, one);
    let ib = choose|i: int| 0 <= i < entries.len() && entries[i] == (b, two);
    let ic = choose|i: int| 0 <= i < entries.len() && entries[i] == (c, two);
    assert(ia != ib && ia != ic && ib != ic);
    assert forall|i: int| 0 <= i < 3 implies #[trigger] entries[i] == if i == ia {
        (a, one)
    } else if i == ib {
        (b, two)
    } else {
        (c, two)
    } by {}
    lemma_replay_survivors(entries, a, one);
    lemma_replay_survivors(entries, b, two);
    lemma_replay_survivors(entries, c, two);
    assert(survives(entries, ia));
    assert(m.contains_pair(a, one));
    if ib < ic {
        assert(survives(entries, ic));
        assert(m.contains_pair(c, two));
        assert(!m.contains_left(b)) by {
            if m.contains_left(b) {
                lemma_replay_survivors(entries, b, m.left_to_right[b]);
                assert(entries[ic].1 == entries[ib].1);
            }
        }
        assert(m.left_to_right.dom() =~= set![a, c]) by {
            assert forall|l: L| m.left_to_right.contains_key(l) implies l == a || l == c by {
                lemma_replay_survivors(entries, l, m.left_to_right[l]);
            }
        }
    } else {
        assert(survives(entries, ib));
        assert(m.contains_pair(b, two));
        assert(!m.contains_left(c)) by {
            if m.contains_left(c) {
                lemma_replay_survivors(entries, c, m.left_to_right[c]);
                assert(entries[ib].1 == entries[ic].1);
            }
        }
        assert(m.left_to_right.dom() =~= set![a, b]) by {
            assert forall|l: L| m.left_to_right.contains_key(l) implies l == a || l == b by {
                lemma_replay_survivors(entries, l, m.left_to_right[l]);
            }
        }
    }
}

/// The left values that occur in `entries`.
spec fn lefts_of<L, R>(entries: Seq<(L, R)>) -> Set<L> {
    Set::new(|l: L| exists|i: int| 0 <= i < entries.len() && #[trigger] entries[i].0 == l)
}

/// The part of `m` made of the pairs whose left value is in `lefts`.
spec fn part_of<L, R>(m: Pairing<L, R>, lefts: Set<L>) -> Pairing<L, R> {
    Pairing {
        left_to_right: m.left_to_right.restrict(lefts),
        right_to_left: m.right_to_left.restrict(
            Set::new(|r: R| m.right_to_left.contains_key(r) && lefts.contains(m.right_to_left[r])),
        ),
    }
}

/// Replaying some pairs of `m`, each once, gives the part of `m` that they
/// make up, with as many pairs as were replayed: no insertion displaces
/// anything.
proof fn lemma_replay_part<L, R>(m: Pairing<L, R>, entries: Seq<(L, R)>)
    requires
        m.consistent(),
        entries.no_duplicates(),
        forall|i: int| 0 <= i < entries.len() ==> m.contains_pair(
            (#[trigger] entries[i]).0,
            entries[i].1,
        ),
    ensures
        Pairing::replay(entries) == part_of(m, lefts_of(entries)),
        Pairing::replay(entries).len() == entries.len(),
    decreases entries.len(),
{
    if entries.len() == 0 {
        assert(Pairing::replay(entries) =~= part_of(m, lefts_of(entries)));
    } else {
        let earlier = entries.drop_last();
        let (l, r) = entries.last();
        lemma_replay_part(m, earlier);
        lemma_replay_consistent(earlier);
        let before = part_of(m, lefts_of(earlier));
        assert(!lefts_of(earlier).contains(l)) by {
            if lefts_of(earlier).contains(l) {
                let i = choose|i: int| 0 <= i < earlier.len() && #[trigger] earlier[i].0 == l;
                assert(entries[i] == earlier[i]);
                assert(m.contains_pair(entries[i].0, entries[i].1));
                assert(entries[i] == entries[entries.len() - 1]);
            }
        }
        assert(m.contains_pair(entries[entries.len() - 1].0, entries[entries.len() - 1].1));
        assert(!before.contains_left(l));
        assert(!before.contains_right(r));
        assert forall|k: L| lefts_of(entries).contains(k) <==> lefts_of(earlier).insert(
            l,
        ).contains(k) by {
            if lefts_of(entries).contains(k) {
                let i = choose|i: int| 0 <= i < entries.len() && #[trigger] entries[i].0 == k;
                if i < earlier.len() {
                    assert(earlier[i].0 == k);
                }
            }
            if lefts_of(earlier).contains(k) {
                let i = choose|i: int| 0 <= i < earlier.len() && #[trigger] earlier[i].0 == k;
                assert(entries[i].0 == k);
            }
            if k == l {
                assert(entries[entries.len() - 1].0 == k);
            }
        }
        assert(lefts_of(entries) =~= lefts_of(earlier).insert(l));
        assert(before.insert(l, r) =~= part_of(m, lefts_of(entries)));
        lemma_insert(before, l, r);
    }
}

/// Round trip: replaying a listing of a consistent pairing, in whatever
/// order the listing has, gives that pairing back.
pub proof fn lemma_round_trip<L, R>(m: Pairing<L, R>, entries: Seq<(L, R)>)
    requires
        m.consistent(),
        m.listed_by(entries),
    ensures
        Pairing::replay(entries) == m,
{
    assert forall|i: int| 0 <= i < entries.len() implies m.contains_pair(
        (#[trigger] entries[i]).0,
        entries[i].1,
    ) by {
        assert(entries.to_set().contains(entries[i]));
        assert(m.pairs().contains(entries[i]));
    }
    lemma_replay_part(m, entries);
    assert forall|l: L| m.left_to_right.contains_key(l) implies lefts_of(entries).contains(l) by {
        assert(m.pairs().contains((l, m.left_to_right[l])));
        assert(entries.to_set().contains((l, m.left_to_right[l])));
        let i = choose|i: int| 0 <= i < entries.len() && entries[i] == (l, m.left_to_right[l]);
        assert(entries[i].0 == l);
    }
    assert(part_of(m, lefts_of(entries)) =~= m);
}

/// A listing is as long as the pairing is large.
pub proof fn lemma_listing_len<L, R>(m: Pairing<L, R>, entries: Seq<(L, R)>)
    requires
        m.consistent(),
        m.listed_by(entries),
    ensures
        entries.len() == m.len(),
{
    assert forall|i: int| 0 <= i < entries.len() implies m.contains_pair(
        (#[trigger] entries[i]).0,
        entries[i].1,
    ) by {
        assert(entries.to_set().contains(entries[i]));
        assert(m.pairs().contains(entries[i]));
    }
    lemma_replay_part(m, entries);
    lemma_round_trip(m, entries);
}

/// The empty pairing is listed by the empty sequence only, and replaying the
/// empty sequence gives the empty pairing.
pub proof fn lemma_empty_identities<L, R>(entries: Seq<(L, R)>)
    ensures
        Pairing::<L, R>::empty().listed_by(entries) <==> entries == Seq::<(L, R)>::empty(),
        Pairing::<L, R>::replay(Seq::<(L, R)>::empty()) == Pairing::<L, R>::empty(),
{
    if Pairing::<L, R>::empty().listed_by(entries) {
        if entries.len() > 0 {
            assert(entries.to_set().contains(entries[0]));
            assert(Pairing::<L, R>::empty().pairs().contains(entries[0]));
        }
        assert(entries =~= Seq::<(L, R)>::empty());
    }
    assert(Seq::<(L, R)>::empty().to_set() =~= Pairing::<L, R>::empty().pairs());
}

} // verus!
