//! An ordered keyed registry: items in a backing sequence, found again by key
//! in constant time.

use crate::utils::order::{
    entries_of, equality_specified, items_of, keys_of, lemma_stable_sorted, lt, same, settled,
    slot_after, sorted, stable_sorted, well_ordered,
};
use std::collections::HashMap;
use std::hash::Hash;
use vstd::prelude::*;
use vstd::std_specs::hash::obeys_key_model;
use vstd::std_specs::iter::IteratorSpec;
use vstd::std_specs::slice::into_iter_elts;

verus! {

/// A mutable reference to each item of `v`, in order: each refers to the
/// item as it is, and `v` ends up holding, at each position, what was last
/// written through the reference for that position.
fn each_mut<'a, T>(v: &'a mut Vec<T>) -> (out: Vec<&'a mut T>)
    ensures
        out@.len() == old(v)@.len(),
        final(v)@.len() == old(v)@.len(),
        forall|i: int| 0 <= i < out@.len() ==> *(#[trigger] out@[i]) == old(v)@[i],
        forall|i: int| 0 <= i < out@.len() ==> #[trigger] final(v)@[i] == *final(out@[i]),
{
    let ghost items = v@;
    let ghost last = final(v)@;
    let mut out: Vec<&'a mut T> = Vec::new();
    let mut rest: &'a mut [T] = v.as_mut_slice();
    while rest.len() > 0
        invariant
            out@.len() + rest@.len() == items.len(),
            forall|i: int| 0 <= i < out@.len() ==> *(#[trigger] out@[i]) == items[i],
            rest@ =~= items.skip(out@.len() as int),
            last.len() == out@.len() + final(rest)@.len(),
            forall|i: int| 0 <= i < out@.len() ==> #[trigger] last[i] == *final(out@[i]),
            forall|i: int|
                0 <= i < final(rest)@.len() ==> #[trigger] final(rest)@[i] == last[out@.len() + i],
        decreases rest@.len(),
    {
        let ghost before = out@;
        let ghost whole = final(rest)@;
        let (head, tail) = rest.split_at_mut(1);
        let ghost first = final(head)@;
        let ghost others = final(tail)@;
        match head.first_mut() {
            Some(item) => {
                out.push(item);
            },
            None => {},
        }
        rest = tail;
        proof {
            let n = before.len() as int;
            assert(whole == first + others);
            assert(first.len() == 1);
            assert(first[0] == *final(out@[n]));
            assert(whole[0] == first[0]);
            let refs = out@;
            assert forall|i: int| 0 <= i < refs.len() implies #[trigger] last[i] == *final(refs[i])
            by {
                if i < n {
                    assert(refs[i] == before[i]);
                } else {
                    assert(last[n + 0] == whole[0]);
                }
            }
            assert forall|i: int| 0 <= i < others.len() implies #[trigger] others[i] == last[n + 1
                + i] by {
                assert(whole[i + 1] == others[i]);
                assert(whole[i + 1] == last[n + (i + 1)]);
            }
        }
    }
    out
}

/// A registry of items, each stored under a key.
///
/// The items live in a backing sequence (`self@`); `self.keys()` names, for
/// each position, the key whose item stands there. A hash index finds the
/// position of a key without a scan.
pub struct HashVec<K, T> where K: Eq + Hash, T: PartialOrd {
    set: HashMap<K, usize>,
    keys: Vec<K>,
    data: Vec<T>,
}

impl<K, T> View for HashVec<K, T> where K: Eq + Hash, T: PartialOrd {
    type V = Seq<T>;

    closed spec fn view(&self) -> Seq<T> {
        self.data@
    }
}

impl<K, T> HashVec<K, T> where K: Copy + Eq + Hash, T: PartialOrd {
    /// The key of each position of the backing sequence.
    pub closed spec fn keys(&self) -> Seq<K> {
        self.keys@
    }

    /// The (key, item) entries in backing order.
    pub open spec fn entries(&self) -> Seq<(K, T)> {
        entries_of(self.keys(), self@)
    }

    /// The hash index agrees with `keys()`: it maps exactly the keys in
    /// use, each to its position.
    pub closed spec fn indexed(&self) -> bool {
        &&& obeys_key_model::<K>()
        &&& forall|i: int|
            0 <= i < self.keys@.len() ==> self.set@.contains_key(#[trigger] self.keys@[i])
                && self.set@[self.keys@[i]] == i
        &&& forall|k: K| #[trigger] self.set@.contains_key(k) ==> self.keys@.contains(k)
    }

    /// Well-formedness: one key per item, no key twice, and a faithful
    /// index.
    pub open spec fn wf(&self) -> bool {
        &&& self.keys().len() == self@.len()
        &&& self.keys().no_duplicates()
        &&& self.indexed()
    }

    /// Whether an item is stored under `key`.
    pub open spec fn has(&self, key: K) -> bool {
        self.keys().contains(key)
    }

    /// The position of the item stored under `key` (meaningful when
    /// `has(key)`).
    pub open spec fn position(&self, key: K) -> int {
        self.keys().index_of(key)
    }

    /// The item stored under `key`, if any.
    pub open spec fn lookup(&self, key: K) -> Option<T> {
        if self.has(key) {
            Some(self@[self.position(key)])
        } else {
            None
        }
    }

    /// In a well-formed registry the position of a key is the one place
    /// where `keys()` holds it.
    pub proof fn lemma_position(&self, key: K, i: int)
        requires
            self.wf(),
            0 <= i < self.keys().len(),
            self.keys()[i] == key,
        ensures
            self.has(key),
            self.position(key) == i,
    {
        let j = self.keys().index_of(key);
        assert(self.keys()[j] == key);
    }

    /// An empty registry. The key type must hash and compare as the maps
    /// of `std` expect of a key.
    pub fn new() -> (r: HashVec<K, T>)
        requires
            obeys_key_model::<K>(),
        ensures
            r.wf(),
            r@ == Seq::<T>::empty(),
            r.keys() == Seq::<K>::empty(),
    {
        HashVec { set: HashMap::new(), keys: Vec::new(), data: Vec::new() }
    }

    /// The number of items.
    pub fn len(&self) -> (n: usize)
        ensures
            n == self@.len(),
    {
        self.data.len()
    }

    /// Looks the key up in the hash index.
    fn find(&self, key: &K) -> (r: Option<usize>)
        requires
            self.wf(),
        ensures
            match r {
                Some(i) => self.has(*key) && i == self.position(*key) && i < self@.len(),
                None => !self.has(*key),
            },
    {
        match self.set.get(key) {
            Some(index) => {
                let i = *index;
                proof {
                    let j = choose|j: int| 0 <= j < self.keys@.len() && self.keys@[j] == *key;
                    self.lemma_position(*key, j);
                }
                Some(i)
            },
            None => {
                None
            },
        }
    }

    /// Stores `item` under `key` without regard to order.
    ///
    /// A key already in use keeps its position, and its item is replaced
    /// only where the new one differs from it by value equality. A new key
    /// is appended. Returns the position of the key.
    pub fn insert(&mut self, key: K, item: T) -> (index: usize)
        requires
            old(self).wf(),
            equality_specified::<T>(),
        ensures
            final(self).wf(),
            final(self).has(key),
            final(self).position(key) == index,
            old(self).has(key) ==> {
                &&& index == old(self).position(key)
                &&& final(self).keys() == old(self).keys()
                &&& final(self)@ == if same(old(self)@[index as int], item) {
                    old(self)@
                } else {
                    old(self)@.update(index as int, item)
                }
            },
            !old(self).has(key) ==> {
                &&& index == old(self)@.len()
                &&& final(self).keys() == old(self).keys().push(key)
                &&& final(self)@ == old(self)@.push(item)
            },
    {
        match self.find(&key) {
            Some(index) => {
                if self.data[index] != item {
                    self.data[index] = item;
                }
                index
            },
            None => {
                self.data.push(item);
                self.keys.push(key);
                let index = self.data.len() - 1;
                self.set.insert(key, index);
                proof {
                    let ks = self.keys@;
                    assert forall|i: int| 0 <= i < ks.len() implies self.set@.contains_key(
                        #[trigger] ks[i],
                    ) && self.set@[ks[i]] == i by {
                        if i < ks.len() - 1 {
                            assert(ks[i] == old(self).keys@[i]);
                        }
                    }
                    assert forall|k: K| #[trigger] self.set@.contains_key(k) implies ks.contains(
                        k,
                    ) by {
                        if k == key {
                            assert(ks[ks.len() - 1] == key);
                        } else {
                            let j = choose|j: int|
                                0 <= j < old(self).keys@.len() && old(self).keys@[j] == k;
                            assert(ks[j] == k);
                        }
                    }
                    self.lemma_position(key, index as int);
                }
                index
            },
        }
    }

    /// Whether an item is stored under `key`.
    pub fn contains(&self, key: K) -> (r: bool)
        requires
            self.wf(),
        ensures
            r == self.has(key),
    {
        self.find(&key).is_some()
    }

    /// The item stored under `key`, if any.
    pub fn get(&self, key: K) -> (r: Option<&T>)
        requires
            self.wf(),
        ensures
            match r {
                Some(item) => self.lookup(key) == Some(*item),
                None => self.lookup(key) is None,
            },
    {
        match self.find(&key) {
            Some(index) => Some(&self.data[index]),
            None => None,
        }
    }

    /// The item at position `index` of the backing sequence, if there is
    /// one.
    pub fn get_index(&self, index: usize) -> (r: Option<&T>)
        ensures
            match r {
                Some(item) => index < self@.len() && *item == self@[index as int],
                None => index >= self@.len(),
            },
    {
        if index < self.data.len() {
            Some(&self.data[index])
        } else {
            None
        }
    }

    /// The item stored under `key`, for changing in place.
    ///
    /// Whatever the caller writes through the reference replaces the item
    /// at the key's position; keys and positions stay as they are.
    pub fn get_mut(&mut self, key: K) -> (r: Option<&mut T>)
        requires
            old(self).wf(),
        ensures
            final(self).wf(),
            final(self).keys() == old(self).keys(),
            match r {
                Some(item) => {
                    &&& old(self).has(key)
                    &&& *item == old(self)@[old(self).position(key)]
                    &&& final(self)@ == old(self)@.update(old(self).position(key), *final(item))
                },
                None => !old(self).has(key) && final(self)@ == old(self)@,
            },
    {
        match self.find(&key) {
            Some(index) => Some(&mut self.data[index]),
            None => None,
        }
    }

    /// The item at position `index`, for changing in place, if there is
    /// one.
    pub fn get_index_mut(&mut self, index: usize) -> (r: Option<&mut T>)
        ensures
            final(self).keys() == old(self).keys(),
            old(self).wf() ==> final(self).wf(),
            match r {
                Some(item) => {
                    &&& index < old(self)@.len()
                    &&& *item == old(self)@[index as int]
                    &&& final(self)@ == old(self)@.update(index as int, *final(item))
                },
                None => index >= old(self)@.len() && final(self)@ == old(self)@,
            },
    {
        if index < self.data.len() {
            Some(&mut self.data[index])
        } else {
            None
        }
    }

    /// A traversal of the items in backing order.
    pub fn iter(&self) -> (r: std::slice::Iter<'_, T>)
        ensures
            r.remaining() == self@.as_ref(),
            into_iter_elts(r) == self@,
    {
        self.data.iter()
    }

    /// The items in backing order, for changing in place: a mutable
    /// reference to each. The registry ends up holding, at each position,
    /// what was last written through the reference for that position; keys
    /// and positions stay as they are.
    pub fn iter_mut(&mut self) -> (r: Vec<&mut T>)
        ensures
            r@.len() == old(self)@.len(),
            forall|i: int| 0 <= i < r@.len() ==> *(#[trigger] r@[i]) == old(self)@[i],
            final(self)@.len() == old(self)@.len(),
            forall|i: int| 0 <= i < r@.len() ==> #[trigger] final(self)@[i] == *final(r@[i]),
            final(self).keys() == old(self).keys(),
            old(self).wf() ==> final(self).wf(),
    {
        each_mut(&mut self.data)
    }

    /// Whether the backing sequence is in non-decreasing order.
    pub fn is_sorted(&self) -> (r: bool)
        requires
            well_ordered::<T>(),
        ensures
            r == sorted(self@),
    {
        let n = self.data.len();
        if n == 0 {
            return true;
        }
        let mut i: usize = 1;
        while i < n
            invariant
                well_ordered::<T>(),
                n == self.data@.len(),
                1 <= i <= n,
                sorted(self.data@.take(i as int)),
            decreases n - i,
        {
            if self.data[i] < self.data[i - 1] {
                proof {
                    assert(lt(self.data@[i as int], self.data@[i - 1]));
                }
                return false;
            }
            proof {
                let d = self.data@;
                let s = d.take(i as int);
                let t = d.take(i + 1);
                assert(!lt(d[i as int], d[i - 1]));
                assert forall|a: int, b: int| 0 <= a < b < t.len() implies !lt(
                    #[trigger] t[b],
                    #[trigger] t[a],
                ) by {
                    if b < i {
                        assert(!lt(s[b], s[a]));
                    } else if a < i - 1 {
                        assert(!lt(s[i - 1], s[a]));
                        assert(!lt(d[i - 1], d[a]));
                        assert(!lt(d[i as int], d[a]));
                    }
                }
            }
            i += 1;
        }
        proof {
            assert(self.data@.take(i as int) =~= self.data@);
        }
        true
    }

    /// Writes into the hash index the position of every key from `start`
    /// on.
    fn reindex_from(&mut self, start: usize)
        requires
            obeys_key_model::<K>(),
            old(self).keys@.len() == old(self).data@.len(),
            old(self).keys@.no_duplicates(),
            start <= old(self).keys@.len(),
            forall|i: int|
                0 <= i < start ==> old(self).set@.contains_key(#[trigger] old(self).keys@[i])
                    && old(self).set@[old(self).keys@[i]] == i,
            forall|k: K| #[trigger] old(self).set@.contains_key(k) ==> old(self).keys@.contains(k),
        ensures
            final(self).keys@ == old(self).keys@,
            final(self).data@ == old(self).data@,
            final(self).wf(),
    {
        let n = self.keys.len();
        let mut j: usize = start;
        while j < n
            invariant
                obeys_key_model::<K>(),
                self.keys@ == old(self).keys@,
                self.data@ == old(self).data@,
                n == self.keys@.len(),
                self.keys@.no_duplicates(),
                start <= j <= n,
                forall|i: int|
                    0 <= i < j ==> self.set@.contains_key(#[trigger] self.keys@[i])
                        && self.set@[self.keys@[i]] == i,
                forall|k: K| #[trigger] self.set@.contains_key(k) ==> self.keys@.contains(k),
            decreases n - j,
        {
            let key = self.keys[j];
            self.set.insert(key, j);
            j += 1;
        }
    }

    /// Sorts the entries stably by item and brings the hash index up to
    /// date.
    fn sort(&mut self)
        requires
            old(self).wf(),
            well_ordered::<T>(),
        ensures
            final(self).wf(),
            final(self).entries() == stable_sorted(old(self).entries()),
    {
        let n = self.data.len();
        let ghost start = self.entries();
        let mut i: usize = 0;
        while i < n
            invariant
                well_ordered::<T>(),
                self.set@ == old(self).set@,
                start == old(self).entries(),
                start.len() == n,
                self.keys@.len() == n,
                self.data@.len() == n,
                i <= n,
                self.entries().take(i as int) == stable_sorted(start.take(i as int)),
                self.entries().skip(i as int) == start.skip(i as int),
            decreases n - i,
        {
            let ghost before = self.entries();
            let ghost head = before.take(i as int);
            let key = self.keys.remove(i);
            let item = self.data.remove(i);
            let mut j: usize = i;
            proof {
                assert(before[i as int] == (key, item));
                assert(before.skip(i as int)[0] == start.skip(i as int)[0]);
                assert(start[i as int] == (key, item));
                assert(entries_of(self.keys@, self.data@).take(i as int) =~= head);
                lemma_stable_sorted(start.take(i as int));
                assert(head.take(i as int) =~= head);
            }
            while j > 0 && item < self.data[j - 1]
                invariant
                    well_ordered::<T>(),
                    j <= i < n,
                    self.keys@.len() == n - 1,
                    self.data@.len() == n - 1,
                    head == entries_of(self.keys@, self.data@).take(i as int),
                    head.len() == i,
                    slot_after(head.take(j as int), item) == slot_after(head, item),
                decreases j,
            {
                proof {
                    assert(head.take(j as int).last() == head[j - 1]);
                    assert(head.take(j as int).drop_last() =~= head.take(j - 1));
                }
                j -= 1;
            }
            proof {
                if j > 0 {
                    assert(head.take(j as int).last() == head[j - 1]);
                }
                assert(slot_after(head, item) == j);
            }
            self.keys.insert(j, key);
            self.data.insert(j, item);
            proof {
                let after = self.entries();
                let grown = start.take(i + 1);
                assert(grown.drop_last() =~= start.take(i as int));
                assert(grown.last() == (key, item));
                assert(after.take(i + 1) =~= head.insert(j as int, (key, item)));
                assert(after.skip(i + 1) =~= start.skip(i + 1)) by {
                    let tail = after.skip(i + 1);
                    assert forall|a: int| 0 <= a < n - i - 1 implies #[trigger] tail[a]
                        == start.skip(i + 1)[a] by {
                        assert(after[i + 1 + a] == before[i + 1 + a]);
                        assert(before.skip(i as int)[a + 1] == start.skip(i as int)[a + 1]);
                    }
                }
            }
            i += 1;
        }
        proof {
            assert(start.take(n as int) =~= start);
            assert(self.entries().take(n as int) =~= self.entries());
            lemma_stable_sorted(start);
            let done = self.entries();
            assert(keys_of(start) =~= old(self).keys@);
            assert(keys_of(done) =~= self.keys@);
            assert forall|k: K| #[trigger] self.set@.contains_key(k) implies self.keys@.contains(
                k,
            ) by {
                let a = choose|a: int| 0 <= a < n && old(self).keys@[a] == k;
                assert(start[a] == (k, old(self).data@[a]));
                assert(start.contains(start[a]));
                assert(done.contains(start[a]));
                let b = choose|b: int| 0 <= b < done.len() && done[b] == start[a];
                assert(self.keys@[b] == k);
            }
        }
        self.reindex_from(0);
    }

    /// The first position whose item is not ordered before `item`, or the
    /// length where there is none.
    fn first_not_before(&self, item: &T) -> (r: usize)
        requires
            well_ordered::<T>(),
        ensures
            r <= self@.len(),
            forall|j: int| 0 <= j < r ==> lt(#[trigger] self@[j], *item),
            r < self@.len() ==> !lt(self@[r as int], *item),
    {
        let mut i: usize = 0;
        while i < self.data.len()
            invariant
                i <= self.data@.len(),
                well_ordered::<T>(),
                forall|j: int| 0 <= j < i ==> lt(#[trigger] self.data@[j], *item),
            decreases self.data@.len() - i,
        {
            if !(self.data[i] < *item) {
                return i;
            }
            i += 1;
        }
        i
    }

    /// Stores `item` under `key`, keeping the backing sequence sorted.
    ///
    /// A backing sequence that is not sorted is first sorted, stably; every
    /// key then has the position of its entry in the sorted sequence. A key
    /// already in use keeps that position, and its item is replaced only
    /// where the new one differs from it by value equality. A new key
    /// enters before the first item that is not ordered before `item`, or
    /// at the end where there is none. Returns the position of the key.
    ///
    /// The backing sequence is sorted afterwards, unless an item was
    /// replaced.
    pub fn insert_ordered(&mut self, key: K, item: T) -> (index: usize)
        requires
            old(self).wf(),
            well_ordered::<T>(),
        ensures
            final(self).wf(),
            final(self).has(key),
            final(self).position(key) == index,
            ({
                let base = settled(old(self).entries());
                &&& sorted(items_of(base))
                &&& old(self).has(key) ==> {
                    &&& 0 <= index < base.len()
                    &&& base[index as int].0 == key
                    &&& final(self).keys() == keys_of(base)
                    &&& final(self)@ == if same(base[index as int].1, item) {
                        items_of(base)
                    } else {
                        items_of(base).update(index as int, item)
                    }
                }
                &&& !old(self).has(key) ==> {
                    &&& 0 <= index <= base.len()
                    &&& forall|j: int| 0 <= j < index ==> lt(#[trigger] base[j].1, item)
                    &&& index < base.len() ==> !lt(base[index as int].1, item)
                    &&& final(self).keys() == keys_of(base).insert(index as int, key)
                    &&& final(self)@ == items_of(base).insert(index as int, item)
                }
                &&& (!old(self).has(key) || same(base[index as int].1, item)) ==> sorted(
                    final(self)@,
                )
            }),
    {
        let ghost start = self.entries();
        let ghost base = settled(start);
        proof {
            lemma_stable_sorted(start);
            assert(keys_of(start) =~= self.keys@);
            assert(items_of(start) =~= self.data@);
        }
        if !self.is_sorted() {
            self.sort();
        }
        proof {
            assert(self.entries() == base);
            assert(keys_of(base) =~= self.keys@);
            assert(items_of(base) =~= self.data@);
            // sorting keeps the set of keys
            if old(self).has(key) {
                let a = choose|a: int| 0 <= a < start.len() && old(self).keys@[a] == key;
                assert(start.contains(start[a]));
                assert(base.contains(start[a]));
                let b = choose|b: int| 0 <= b < base.len() && base[b] == start[a];
                assert(self.keys@[b] == key);
            }
            if self.has(key) {
                let b = choose|b: int| 0 <= b < base.len() && self.keys@[b] == key;
                assert(base.contains(base[b]));
                assert(start.contains(base[b]));
                let a = choose|a: int| 0 <= a < start.len() && start[a] == base[b];
                assert(old(self).keys@[a] == key);
            }
        }
        match self.find(&key) {
            Some(index) => {
                proof {
                    assert(self.keys@[self.position(key)] == key);
                }
                if self.data[index] != item {
                    self.data[index] = item;
                }
                index
            },
            None => {
                let index = self.first_not_before(&item);
                let ghost items = self.data@;
                let ghost keys = self.keys@;
                self.data.insert(index, item);
                self.keys.insert(index, key);
                proof {
                    let d = self.data@;
                    assert forall|i: int, j: int| 0 <= i < j < d.len() implies !lt(
                        #[trigger] d[j],
                        #[trigger] d[i],
                    ) by {
                        if j == index {
                            assert(d[i] == items[i]);
                            assert(lt(items[i], item));
                        } else if i == index {
                            assert(d[j] == items[j - 1]);
                            assert(!lt(items[index as int], item));
                            if j - 1 > index {
                                assert(!lt(items[j - 1], items[index as int]));
                            }
                            assert(!lt(items[j - 1], item));
                        } else {
                            let a = if i < index { i } else { i - 1 };
                            let b = if j < index { j } else { j - 1 };
                            assert(d[i] == items[a]);
                            assert(d[j] == items[b]);
                            assert(!lt(items[b], items[a]));
                        }
                    }
                    let ks = self.keys@;
                    assert forall|i: int, j: int|
                        0 <= i < ks.len() && 0 <= j < ks.len() && i != j implies ks[i]
                        != ks[j] by {
                        let a = if i < index { i } else { i - 1 };
                        let b = if j < index { j } else { j - 1 };
                        if i == index {
                            assert(ks[j] == keys[b]);
                            assert(keys.contains(keys[b]));
                        } else if j == index {
                            assert(ks[i] == keys[a]);
                            assert(keys.contains(keys[a]));
                        } else {
                            assert(ks[i] == keys[a]);
                            assert(ks[j] == keys[b]);
                        }
                    }
                    assert forall|i: int| 0 <= i < index implies self.set@.contains_key(
                        #[trigger] ks[i],
                    ) && self.set@[ks[i]] == i by {
                        assert(ks[i] == keys[i]);
                    }
                    assert forall|k: K| #[trigger] self.set@.contains_key(k) implies ks.contains(
                        k,
                    ) by {
                        let a = choose|a: int| 0 <= a < keys.len() && keys[a] == k;
                        let b = if a < index { a } else { a + 1 };
                        assert(ks[b] == k);
                    }
                }
                self.reindex_from(index);
                proof {
                    self.lemma_position(key, index as int);
                }
                index
            },
        }
    }
}

impl<K, T> std::ops::Index<usize> for HashVec<K, T> where K: Copy + Eq + Hash, T: PartialOrd {
    type Output = T;

    /// The item at position `index`, which must be a position of the
    /// backing sequence.
    fn index(&self, index: usize) -> (r: &T)
        ensures
            *r == self@[index as int],
    {
        &self.data[index]
    }
}

impl<K, T> vstd::std_specs::core::IndexSpecImpl<usize> for HashVec<K, T> where K: Copy + Eq + Hash, T: PartialOrd {
    open spec fn index_req(&self, index: &usize) -> bool {
        *index < self@.len()
    }
}

impl<K, T> std::ops::IndexMut<usize> for HashVec<K, T> where K: Copy + Eq + Hash, T: PartialOrd {
    /// The item at position `index`, which must be a position of the
    /// backing sequence, for changing in place.
    fn index_mut(&mut self, index: usize) -> (r: &mut T)
        requires
            index < old(self)@.len(),
        ensures
            *r == old(self)@[index as int],
            final(self)@ == old(self)@.update(index as int, *final(r)),
            final(self).keys() == old(self).keys(),
            old(self).wf() ==> final(self).wf(),
    {
        &mut self.data[index]
    }
}

} // verus!
