//! The natural ordering of stored items, as the registry's contracts see it.
//!
//! Everything here is stated over the strict comparison `<` alone: an item
//! type is fit for ordered storage when `<` is a strict weak order, which is
//! what makes "non-decreasing" a meaningful property of a sequence.

use std::cmp::Ordering;
use vstd::prelude::*;
use vstd::std_specs::cmp::{PartialEqSpec, PartialOrdSpec};

verus! {

/// `a` is ordered strictly before `b`.
pub open spec fn lt<T: PartialOrd>(a: T, b: T) -> bool {
    a.partial_cmp_spec(&b) == Some(Ordering::Less)
}

/// `a` and `b` are the same by the item type's value equality.
pub open spec fn same<T: PartialEq>(a: T, b: T) -> bool {
    a.eq_spec(&b)
}

/// The `==` of `T` computes what its specification says.
pub open spec fn equality_specified<T: PartialEq>() -> bool {
    T::obeys_eq_spec()
}

/// The comparison operators of `T` compute what their specifications say,
/// and `<` is a strict weak order: asymmetric, transitive, and with a
/// transitive "not before" relation.
pub open spec fn well_ordered<T: PartialOrd>() -> bool {
    &&& T::obeys_partial_cmp_spec()
    &&& T::obeys_eq_spec()
    &&& forall|a: T, b: T| #[trigger] lt(a, b) ==> !lt(b, a)
    &&& forall|a: T, b: T, c: T| #[trigger] lt(a, b) && #[trigger] lt(b, c) ==> lt(a, c)
    &&& forall|a: T, b: T, c: T| !#[trigger] lt(a, b) && !#[trigger] lt(b, c) ==> !lt(a, c)
}

/// No item of `s` is ordered strictly before an earlier one.
pub open spec fn sorted<T: PartialOrd>(s: Seq<T>) -> bool {
    forall|i: int, j: int| 0 <= i < j < s.len() ==> !lt(#[trigger] s[j], #[trigger] s[i])
}

/// Unsigned machine integers are well ordered.
pub proof fn lemma_integers_well_ordered()
    ensures
        well_ordered::<usize>(),
        well_ordered::<u32>(),
        well_ordered::<u64>(),
{
}

/// The keys of a sequence of (key, item) entries.
pub open spec fn keys_of<K, T>(e: Seq<(K, T)>) -> Seq<K> {
    Seq::new(e.len(), |i: int| e[i].0)
}

/// The items of a sequence of (key, item) entries.
pub open spec fn items_of<K, T>(e: Seq<(K, T)>) -> Seq<T> {
    Seq::new(e.len(), |i: int| e[i].1)
}

/// The entries made of `keys` and `items`, position by position.
pub open spec fn entries_of<K, T>(keys: Seq<K>, items: Seq<T>) -> Seq<(K, T)> {
    Seq::new(items.len(), |i: int| (keys[i], items[i]))
}

/// Where `x` joins the sorted entries `e` so as to follow every item that
/// is not after it: the start of the tail of items strictly after `x`.
pub open spec fn slot_after<K, T: PartialOrd>(e: Seq<(K, T)>, x: T) -> int
    decreases e.len(),
{
    if e.len() == 0 {
        0
    } else if lt(x, e.last().1) {
        slot_after(e.drop_last(), x)
    } else {
        e.len() as int
    }
}

/// The stable sort of `e` by item: the entries of `e` in non-decreasing
/// item order, entries whose items are not ordered against each other
/// keeping the order they had in `e`. Each entry in turn joins the sorted
/// ones before it behind every item that is not after its own.
pub open spec fn stable_sorted<K, T: PartialOrd>(e: Seq<(K, T)>) -> Seq<(K, T)>
    decreases e.len(),
{
    if e.len() == 0 {
        e
    } else {
        let rest = stable_sorted(e.drop_last());
        rest.insert(slot_after(rest, e.last().1), e.last())
    }
}

/// The entries as an ordered insertion finds them: as they are where their
/// items are sorted, stably sorted where they are not.
pub open spec fn settled<K, T: PartialOrd>(e: Seq<(K, T)>) -> Seq<(K, T)> {
    if sorted(items_of(e)) {
        e
    } else {
        stable_sorted(e)
    }
}

/// `slot_after` names a position of `e` or its end.
pub proof fn lemma_slot_after_bounds<K, T: PartialOrd>(e: Seq<(K, T)>, x: T)
    ensures
        0 <= slot_after(e, x) <= e.len(),
    decreases e.len(),
{
    if e.len() > 0 && lt(x, e.last().1) {
        lemma_slot_after_bounds(e.drop_last(), x);
    }
}

/// In sorted entries, `slot_after` parts the items not after `x` from those
/// after it.
pub proof fn lemma_slot_after_parts<K, T: PartialOrd>(e: Seq<(K, T)>, x: T)
    requires
        well_ordered::<T>(),
        sorted(items_of(e)),
    ensures
        forall|j: int| 0 <= j < slot_after(e, x) ==> !lt(x, #[trigger] e[j].1),
        forall|j: int| slot_after(e, x) <= j < e.len() ==> lt(x, #[trigger] e[j].1),
    decreases e.len(),
{
    lemma_slot_after_bounds(e, x);
    if e.len() == 0 {
    } else if lt(x, e.last().1) {
        let d = e.drop_last();
        assert forall|i: int, j: int| 0 <= i < j < d.len() implies !lt(
            #[trigger] items_of(d)[j],
            #[trigger] items_of(d)[i],
        ) by {
            assert(!lt(items_of(e)[j], items_of(e)[i]));
        }
        lemma_slot_after_parts(d, x);
        assert forall|j: int| 0 <= j < slot_after(e, x) implies !lt(x, #[trigger] e[j].1) by {
            lemma_slot_after_bounds(d, x);
            assert(e[j] == d[j]);
        }
        assert forall|j: int| slot_after(e, x) <= j < e.len() implies lt(x, #[trigger] e[j].1) by {
            if j < d.len() {
                assert(e[j] == d[j]);
            }
        }
    } else {
        let n = e.len() as int;
        assert forall|j: int| 0 <= j < n implies !lt(x, #[trigger] e[j].1) by {
            if j < n - 1 {
                assert(!lt(items_of(e)[n - 1], items_of(e)[j]));
            }
        }
    }
}

/// Putting `x` at its `slot_after` keeps sorted entries sorted.
pub proof fn lemma_slot_after_keeps_sorted<K, T: PartialOrd>(e: Seq<(K, T)>, k: K, x: T)
    requires
        well_ordered::<T>(),
        sorted(items_of(e)),
    ensures
        sorted(items_of(e.insert(slot_after(e, x), (k, x)))),
{
    lemma_slot_after_bounds(e, x);
    lemma_slot_after_parts(e, x);
    let p = slot_after(e, x);
    let f = e.insert(p, (k, x));
    assert forall|i: int, j: int| 0 <= i < j < f.len() implies !lt(
        #[trigger] items_of(f)[j],
        #[trigger] items_of(f)[i],
    ) by {
        if j == p {
            assert(f[i] == e[i]);
        } else if i == p {
            assert(f[j] == e[j - 1]);
        } else {
            let a = if i < p { i } else { i - 1 };
            let b = if j < p { j } else { j - 1 };
            assert(f[i] == e[a]);
            assert(f[j] == e[b]);
            assert(!lt(items_of(e)[b], items_of(e)[a]));
        }
    }
}

/// A stable sort keeps every entry, adds none, and its result is sorted.
pub proof fn lemma_stable_sorted<K, T: PartialOrd>(e: Seq<(K, T)>)
    requires
        well_ordered::<T>(),
    ensures
        stable_sorted(e).len() == e.len(),
        sorted(items_of(stable_sorted(e))),
        forall|p: (K, T)| stable_sorted(e).contains(p) <==> e.contains(p),
        keys_of(e).no_duplicates() ==> keys_of(stable_sorted(e)).no_duplicates(),
    decreases e.len(),
{
    if e.len() == 0 {
    } else {
        let d = e.drop_last();
        let rest = stable_sorted(d);
        let last = e.last();
        lemma_stable_sorted(d);
        lemma_slot_after_bounds(rest, last.1);
        lemma_slot_after_keeps_sorted(rest, last.0, last.1);
        let p = slot_after(rest, last.1);
        let f = rest.insert(p, last);
        assert(f == stable_sorted(e));
        assert forall|q: (K, T)| f.contains(q) implies e.contains(q) by {
            let i = choose|i: int| 0 <= i < f.len() && f[i] == q;
            if i == p {
                assert(e[e.len() - 1] == q);
            } else {
                let a = if i < p { i } else { i - 1 };
                assert(rest[a] == q);
                assert(rest.contains(q));
                assert(d.contains(q));
                let b = choose|b: int| 0 <= b < d.len() && d[b] == q;
                assert(e[b] == q);
            }
        }
        assert forall|q: (K, T)| e.contains(q) implies f.contains(q) by {
            let i = choose|i: int| 0 <= i < e.len() && e[i] == q;
            if i == e.len() - 1 {
                assert(f[p] == q);
            } else {
                assert(d[i] == q);
                assert(d.contains(q));
                assert(rest.contains(q));
                let a = choose|a: int| 0 <= a < rest.len() && rest[a] == q;
                let b = if a < p { a } else { a + 1 };
                assert(f[b] == q);
            }
        }
        if keys_of(e).no_duplicates() {
            assert forall|i: int, j: int| 0 <= i < j < d.len() implies keys_of(d)[i] != keys_of(
                d,
            )[j] by {
                assert(keys_of(e)[i] != keys_of(e)[j]);
            }
            assert forall|i: int, j: int| 0 <= i < f.len() && 0 <= j < f.len() && i != j implies keys_of(
                f,
            )[i] != keys_of(f)[j] by {
                if i == p || j == p {
                    let o = if i == p { j } else { i };
                    let a = if o < p { o } else { o - 1 };
                    assert(f[o] == rest[a]);
                    assert(f[p] == last);
                    assert(rest.contains(rest[a]));
                    assert(d.contains(rest[a]));
                    let b = choose|b: int| 0 <= b < d.len() && d[b] == rest[a];
                    assert(e[b] == rest[a]);
                    assert(keys_of(e)[b] == rest[a].0);
                    assert(keys_of(e)[e.len() - 1] == last.0);
                    assert(keys_of(e)[b] != keys_of(e)[e.len() - 1]);
                } else {
                    let a = if i < p { i } else { i - 1 };
                    let b = if j < p { j } else { j - 1 };
                    assert(f[i] == rest[a]);
                    assert(f[j] == rest[b]);
                    assert(keys_of(rest)[a] != keys_of(rest)[b]);
                }
            }
        }
    }
}

} // verus!
