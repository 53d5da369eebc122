//! Storage of the contract: keyed single values (one per key, absent until
//! written) and insertion-ordered sets, both over plain keys.

use vstd::prelude::*;

use crate::amount::Amount;
use crate::bytes::{bytes_eq, copy_bytes};

verus! {

/// A key of contract storage: compared and copied by its view.
pub trait StorageKey: View + Sized {
    fn same_key(&self, other: &Self) -> (r: bool)
        ensures
            r == (self@ == other@),
    ;

    fn copy_key(&self) -> (r: Self)
        ensures
            r@ == self@,
    ;
}

impl StorageKey for u64 {
    fn same_key(&self, other: &Self) -> (r: bool) {
        *self == *other
    }

    fn copy_key(&self) -> (r: Self) {
        *self
    }
}

impl StorageKey for Vec<u8> {
    fn same_key(&self, other: &Self) -> (r: bool) {
        bytes_eq(self.as_slice(), other.as_slice())
    }

    fn copy_key(&self) -> (r: Self) {
        copy_bytes(self)
    }
}

impl StorageKey for (Vec<u8>, Vec<u8>, u64) {
    fn same_key(&self, other: &Self) -> (r: bool) {
        bytes_eq(self.0.as_slice(), other.0.as_slice()) && bytes_eq(
            self.1.as_slice(),
            other.1.as_slice(),
        ) && self.2 == other.2
    }

    fn copy_key(&self) -> (r: Self) {
        (copy_bytes(&self.0), copy_bytes(&self.1), self.2)
    }
}

impl StorageKey for Amount {
    fn same_key(&self, other: &Self) -> (r: bool) {
        self.same(other)
    }

    fn copy_key(&self) -> (r: Self) {
        self.copy()
    }
}

impl StorageKey for (Vec<u8>, Vec<u8>, u64, Amount) {
    fn same_key(&self, other: &Self) -> (r: bool) {
        bytes_eq(self.0.as_slice(), other.0.as_slice()) && bytes_eq(
            self.1.as_slice(),
            other.1.as_slice(),
        ) && self.2 == other.2 && self.3.same(&other.3)
    }

    fn copy_key(&self) -> (r: Self) {
        (copy_bytes(&self.0), copy_bytes(&self.1), self.2, self.3.copy())
    }
}

/// The value stored under `k` in a log of writes: the last write wins.
pub open spec fn last_write<K: View, V>(s: Seq<(K, V)>, k: K::V) -> Option<V>
    decreases s.len(),
{
    if s.len() == 0 {
        None
    } else if s.last().0@ == k {
        Some(s.last().1)
    } else {
        last_write(s.drop_last(), k)
    }
}

/// The value of `k` in `m`, or `d` where `m` holds none.
pub open spec fn value_or<K, V>(m: Map<K, V>, k: K, d: V) -> V {
    if m.dom().contains(k) {
        m[k]
    } else {
        d
    }
}

/// Overwriting the last write of `k` acts as a new write of `k`.
proof fn lemma_last_write_update<K: View, V>(s: Seq<(K, V)>, i: int, e: (K, V), k: K::V)
    requires
        0 <= i < s.len(),
        s[i].0@ == e.0@,
        forall|j: int| i < j < s.len() ==> s[j].0@ != e.0@,
    ensures
        last_write(s.update(i, e), k) == if k == e.0@ {
            Some(e.1)
        } else {
            last_write(s, k)
        },
    decreases s.len(),
{
    let t = s.update(i, e);
    if i == s.len() - 1 {
        assert(t.drop_last() =~= s.drop_last());
    } else {
        assert(t.drop_last() =~= s.drop_last().update(i, e));
        lemma_last_write_update(s.drop_last(), i, e, k);
    }
}

/// Keyed single values, each absent until first written.
pub struct StorageMap<K, V> {
    entries: Vec<(K, V)>,
}

impl<K: View, V: View> View for StorageMap<K, V> {
    type V = Map<K::V, V::V>;

    closed spec fn view(&self) -> Map<K::V, V::V> {
        Map::new(
            |k: K::V| last_write(self.entries@, k) is Some,
            |k: K::V| last_write(self.entries@, k).unwrap()@,
        )
    }
}

impl<K: StorageKey, V: StorageKey> StorageMap<K, V> {
    pub fn new() -> (r: Self)
        ensures
            r@ == Map::<K::V, V::V>::empty(),
    {
        let r = StorageMap { entries: Vec::new() };
        assert(r@ =~= Map::<K::V, V::V>::empty());
        r
    }

    /// The value stored under `k`, if any.
    pub fn get(&self, k: &K) -> (r: Option<V>)
        ensures
            (r is Some) == self@.dom().contains(k@),
            r matches Some(v) ==> v@ == self@[k@],
    {
        let mut i = self.entries.len();
        assert(self.entries@.take(i as int) =~= self.entries@);
        while i > 0
            invariant
                i <= self.entries@.len(),
                last_write(self.entries@, k@) == last_write(self.entries@.take(i as int), k@),
            decreases i,
        {
            let ghost s = self.entries@.take(i as int);
            assert(s.drop_last() =~= self.entries@.take(i - 1));
            if self.entries[i - 1].0.same_key(k) {
                return Some(self.entries[i - 1].1.copy_key());
            }
            i -= 1;
        }
        None
    }

    /// Stores `v` under `k`.
    pub fn set(&mut self, k: K, v: V)
        ensures
            final(self)@ == old(self)@.insert(k@, v@),
    {
        let ghost old_entries = self.entries@;
        let mut i = self.entries.len();
        while i > 0
            invariant
                i <= self.entries@.len(),
                self.entries@ == old_entries,
                old_entries == old(self).entries@,
                forall|j: int| i <= j < old_entries.len() ==> old_entries[j].0@ != k@,
            decreases i,
        {
            if self.entries[i - 1].0.same_key(&k) {
                let ghost e = (k, v);
                let ghost vv = v@;
                proof {
                    assert forall|q: K::V| #[trigger] last_write(old_entries.update(i - 1, e), q)
                        == if q == k@ { Some(v) } else { last_write(old_entries, q) } by {
                        lemma_last_write_update(old_entries, i - 1, e, q);
                    }
                }
                self.entries.set(i - 1, (k, v));
                assert(self.entries@ == old_entries.update(i - 1, e));
                assert forall|q: K::V| #[trigger] self@.dom().contains(q) == old(self)@.insert(e.0@, vv).dom().contains(q)
                    && (self@.dom().contains(q) ==> self@[q] == old(self)@.insert(e.0@, vv)[q]) by {
                    assert(last_write(self.entries@, q) == last_write(old_entries.update(i - 1, e), q));
                }
                assert(self@ =~= old(self)@.insert(e.0@, vv));
                return;
            }
            i -= 1;
        }
        let ghost kv = k@;
        let ghost vv = v@;
        let ghost v0 = v;
        self.entries.push((k, v));
        proof {
            assert forall|q: K::V| #[trigger] last_write(self.entries@, q) == if q == kv {
                Some(v0)
            } else {
                last_write(old_entries, q)
            } by {
                assert(self.entries@.drop_last() =~= old_entries);
            }
        }
        assert(self@ =~= old(self)@.insert(kv, vv));
    }
}

} // verus!

verus! {

/// `s` with the value `x` taken out, where it occurs.
pub open spec fn seq_without<A>(s: Seq<A>, x: A) -> Seq<A> {
    if s.contains(x) {
        s.remove(s.index_of(x))
    } else {
        s
    }
}

/// Two write logs whose keys and values agree entry by entry hold the same
/// values.
proof fn lemma_last_write_same<K: View, V: View>(s: Seq<(K, V)>, t: Seq<(K, V)>, k: K::V)
    requires
        s.len() == t.len(),
        forall|j: int| 0 <= j < s.len() ==> s[j].0@ == t[j].0@ && s[j].1@ == t[j].1@,
    ensures
        (last_write(s, k) is Some) == (last_write(t, k) is Some),
        last_write(s, k) is Some ==> last_write(s, k).unwrap()@ == last_write(t, k).unwrap()@,
    decreases s.len(),
{
    if s.len() > 0 {
        lemma_last_write_same(s.drop_last(), t.drop_last(), k);
    }
}

impl<K: StorageKey, V: StorageKey> StorageMap<K, V> {
    /// A copy of the map.
    pub fn copy(&self) -> (r: Self)
        ensures
            r@ == self@,
    {
        let mut entries: Vec<(K, V)> = Vec::new();
        let mut i: usize = 0;
        while i < self.entries.len()
            invariant
                i <= self.entries@.len(),
                entries@.len() == i,
                forall|j: int|
                    0 <= j < i ==> entries@[j].0@ == self.entries@[j].0@ && entries@[j].1@
                        == self.entries@[j].1@,
            decreases self.entries@.len() - i,
        {
            let k = self.entries[i].0.copy_key();
            entries.push((k, self.entries[i].1.copy_key()));
            i += 1;
        }
        let r = StorageMap { entries };
        proof {
            assert forall|q: K::V| #[trigger] r@.dom().contains(q) == self@.dom().contains(q) && (
            r@.dom().contains(q) ==> r@[q] == self@[q]) by {
                lemma_last_write_same(r.entries@, self.entries@, q);
            }
        }
        assert(r@ =~= self@);
        r
    }
}

/// An insertion-ordered set with no value twice.
pub struct StorageSet<T> {
    items: Vec<T>,
}

impl<T: View> View for StorageSet<T> {
    type V = Seq<T::V>;

    closed spec fn view(&self) -> Seq<T::V> {
        self.items@.map_values(|t: T| t@)
    }
}

impl<T: StorageKey> StorageSet<T> {
    /// No value occurs twice.
    pub open spec fn wf(&self) -> bool {
        self@.no_duplicates()
    }

    pub fn new() -> (r: Self)
        ensures
            r.wf(),
            r@ == Seq::<T::V>::empty(),
    {
        let r = StorageSet { items: Vec::new() };
        assert(r@ =~= Seq::<T::V>::empty());
        r
    }

    pub fn len(&self) -> (r: usize)
        ensures
            r == self@.len(),
    {
        self.items.len()
    }

    /// The `i`-th value, in insertion order.
    pub fn get(&self, i: usize) -> (r: &T)
        requires
            i < self@.len(),
        ensures
            r@ == self@[i as int],
    {
        &self.items[i]
    }

    pub fn contains(&self, x: &T) -> (r: bool)
        ensures
            r == self@.contains(x@),
    {
        let mut i: usize = 0;
        while i < self.items.len()
            invariant
                i <= self.items@.len(),
                self@.len() == self.items@.len(),
                forall|j: int| 0 <= j < i ==> self@[j] != x@,
            decreases self.items@.len() - i,
        {
            if self.items[i].same_key(x) {
                assert(self@[i as int] == x@);
                return true;
            }
            i += 1;
        }
        false
    }

    /// Adds `x` at the end unless it is already there; tells whether it was
    /// added.
    pub fn insert(&mut self, x: T) -> (r: bool)
        requires
            old(self).wf(),
        ensures
            final(self).wf(),
            r == !old(self)@.contains(x@),
            final(self)@ == if r {
                old(self)@.push(x@)
            } else {
                old(self)@
            },
    {
        if self.contains(&x) {
            return false;
        }
        let ghost xv = x@;
        self.items.push(x);
        assert(self@ =~= old(self)@.push(xv));
        true
    }

    /// Removes `x` where it is present; tells whether it was.
    pub fn remove(&mut self, x: &T) -> (r: bool)
        requires
            old(self).wf(),
        ensures
            final(self).wf(),
            r == old(self)@.contains(x@),
            final(self)@ == seq_without(old(self)@, x@),
    {
        let ghost s = self@;
        let mut i: usize = 0;
        while i < self.items.len()
            invariant
                i <= self.items@.len(),
                self@ == s,
                s == old(self)@,
                s.no_duplicates(),
                s.len() == self.items@.len(),
                forall|j: int| 0 <= j < i ==> s[j] != x@,
            decreases self.items@.len() - i,
        {
            if self.items[i].same_key(x) {
                assert(s[i as int] == x@);
                assert(s.contains(x@));
                let ghost j = s.index_of(x@);
                assert(0 <= j < s.len() && s[j] == x@);
                assert(j == i);
                self.items.remove(i);
                assert(self@ =~= s.remove(i as int));
                assert(self@.no_duplicates()) by {
                    assert forall|a: int, b: int|
                        0 <= a < b < self@.len() implies self@[a] != self@[b] by {
                        let a0 = if a < i { a } else { a + 1 };
                        let b0 = if b < i { b } else { b + 1 };
                        assert(self@[a] == s[a0]);
                        assert(self@[b] == s[b0]);
                    }
                }
                return true;
            }
            i += 1;
        }
        assert(!s.contains(x@));
        false
    }

    /// A copy of the set.
    pub fn copy(&self) -> (r: Self)
        requires
            self.wf(),
        ensures
            r.wf(),
            r@ == self@,
    {
        let mut items: Vec<T> = Vec::new();
        let mut i: usize = 0;
        while i < self.items.len()
            invariant
                i <= self.items@.len(),
                items@.len() == i,
                forall|j: int| 0 <= j < i ==> items@[j]@ == self.items@[j]@,
            decreases self.items@.len() - i,
        {
            items.push(self.items[i].copy_key());
            i += 1;
        }
        let r = StorageSet { items };
        assert(r@ =~= self@);
        r
    }
}

} // verus!
