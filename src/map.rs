//! The map itself, generic over the table that stores its entries.
use vstd::prelude::*;
use vstd::std_specs::cmp::PartialEqSpec;

use crate::direct::DirectEntryTable;
use crate::integer_id::IntegerId;
use crate::iter::{deref_entry, Iter, IterMut, Keys, SafeEntriesMut, Values, ValuesMut};
use crate::ordered::DenseEntryTable;
use crate::table::{EntryTable, is_max_id, keyed, live, raw_matches, slot_of, slots_cloned};
use vstd::std_specs::iter::IteratorSpec;

verus! {

/// A map from keys with integer identifiers to values, stored in vectors.
///
/// The table `T` decides the layout: by default a `DenseEntryTable`, which
/// keeps entries packed in insertion order, or a `DirectEntryTable`, which
/// stores each entry at the index given by its identifier.
pub struct IdMap<K: IntegerId, V, T: EntryTable<K, V> = DenseEntryTable<K, V>> {
    entries: T,
    marker: std::marker::PhantomData<(K, V)>,
}

impl<K: IntegerId, V, T: EntryTable<K, V>> View for IdMap<K, V, T> {
    type V = Map<u64, (K, V)>;

    /// The entries, keyed by identifier.
    closed spec fn view(&self) -> Map<u64, (K, V)> {
        self.entries.view()
    }
}

impl<K: IntegerId, V> IdMap<K, V, DirectEntryTable<K, V>> {
    /// An empty map that stores each entry at the index of its identifier.
    pub fn new_direct() -> (r: Self)
        ensures
            r.wf(),
            r@ == Map::<u64, (K, V)>::empty(),
            r.slots() == Seq::<Option<(K, V)>>::empty(),
    {
        IdMap::new_other()
    }

    /// An empty direct map with room for identifiers below `capacity`.
    pub fn with_capacity_direct(capacity: usize) -> (r: Self)
        ensures
            r.wf(),
            r@ == Map::<u64, (K, V)>::empty(),
            r.slots() == Seq::<Option<(K, V)>>::empty(),
    {
        IdMap::with_capacity_other(capacity)
    }
}

impl<K: IntegerId, V> IdMap<K, V> {
    /// An empty map that keeps its entries packed in insertion order.
    pub fn new() -> (r: Self)
        ensures
            r.wf(),
            r@ == Map::<u64, (K, V)>::empty(),
            r.slots() == Seq::<Option<(K, V)>>::empty(),
    {
        IdMap { entries: DenseEntryTable::new(), marker: std::marker::PhantomData }
    }

    /// An empty packed map with room for `capacity` entries.
    pub fn with_capacity(capacity: usize) -> (r: Self)
        ensures
            r.wf(),
            r@ == Map::<u64, (K, V)>::empty(),
            r.slots() == Seq::<Option<(K, V)>>::empty(),
    {
        IdMap { entries: DenseEntryTable::with_capacity(capacity), marker: std::marker::PhantomData }
    }
}

impl<K: IntegerId, V, T: EntryTable<K, V>> IdMap<K, V, T> {
    /// The invariant of the map: its table is well formed.
    pub closed spec fn wf(&self) -> bool {
        self.entries.wf()
    }

    /// The entries in their order of iteration; vacant slots are `None`.
    pub closed spec fn slots(&self) -> Seq<Option<(K, V)>> {
        self.entries.raw()
    }

    /// A well-formed map keeps each entry under its key's identifier, in exactly one slot.
    pub proof fn lemma_wf(&self)
        requires
            self.wf(),
        ensures
            self@.dom().finite(),
            keyed(self@),
            raw_matches(self.slots(), self@),
            T::layout(self.slots()),
    {
        self.entries.lemma_wf();
    }

    /// An empty map with a table of the caller's choice.
    pub fn new_other() -> (r: Self)
        ensures
            r.wf(),
            r@ == Map::<u64, (K, V)>::empty(),
            r.slots() == Seq::<Option<(K, V)>>::empty(),
    {
        IdMap { entries: T::new(), marker: std::marker::PhantomData }
    }

    /// An empty map with a table of the caller's choice and room reserved ahead.
    pub fn with_capacity_other(capacity: usize) -> (r: Self)
        ensures
            r.wf(),
            r@ == Map::<u64, (K, V)>::empty(),
            r.slots() == Seq::<Option<(K, V)>>::empty(),
    {
        IdMap { entries: T::with_capacity(capacity), marker: std::marker::PhantomData }
    }

    /// Whether the map has no entries.
    pub fn is_empty(&self) -> (r: bool)
        requires
            self.wf(),
        ensures
            r == (self@.len() == 0),
    {
        self.entries.is_empty()
    }

    /// The number of entries.
    pub fn len(&self) -> (r: usize)
        requires
            self.wf(),
        ensures
            r == self@.len(),
    {
        self.entries.len()
    }

    /// The greatest identifier among the entries, or `None` if there are none.
    pub fn max_id(&self) -> (r: Option<u64>)
        requires
            self.wf(),
        ensures
            is_max_id(self@, r),
    {
        self.entries.max_id()
    }

    /// Whether an entry is stored under the identifier of `key`.
    pub fn contains_key(&self, key: K) -> (r: bool)
        requires
            self.wf(),
        ensures
            r == self@.contains_key(key.spec_id()),
    {
        self.get(key).is_some()
    }

    /// The value stored under the identifier of `key`.
    pub fn get(&self, key: K) -> (r: Option<&V>)
        requires
            self.wf(),
        ensures
            r == (if self@.contains_key(key.spec_id()) {
                Some(&self@[key.spec_id()].1)
            } else {
                None
            }),
    {
        self.entries.get(&key)
    }

    /// A mutable reference to the value stored under the identifier of `key`.
    pub fn get_mut(&mut self, key: K) -> (r: Option<&mut V>)
        requires
            old(self).wf(),
        ensures
            final(self).wf(),
            match r {
                Some(v) => {
                    let id = key.spec_id();
                    &&& old(self)@.contains_key(id)
                    &&& *v == old(self)@[id].1
                    &&& final(self)@ == old(self)@.insert(id, (old(self)@[id].0, *final(v)))
                    &&& forall|j: int| slot_of(old(self).slots(), j, id) ==> final(self).slots() == old(self).slots().update(
                        j,
                        Some((old(self).slots()[j].unwrap().0, *final(v))),
                    )
                },
                None => {
                    &&& !old(self)@.contains_key(key.spec_id())
                    &&& final(self)@ == old(self)@
                    &&& final(self).slots() == old(self).slots()
                },
            },
    {
        self.entries.get_mut(&key)
    }

    /// Store `value` under the identifier of `key`, giving back the value it replaces.
    pub fn insert(&mut self, key: K, value: V) -> (r: Option<V>)
        requires
            old(self).wf(),
            (key.spec_id() as int) < usize::MAX,
        ensures
            final(self).wf(),
            final(self)@ == old(self)@.insert(key.spec_id(), (key, value)),
            final(self).slots() == T::slots_after_insert(old(self).slots(), key, value),
            r == (if old(self)@.contains_key(key.spec_id()) {
                Some(old(self)@[key.spec_id()].1)
            } else {
                None
            }),
    {
        self.entries.insert(key, value)
    }

    /// Remove the entry stored under the identifier of `key`, giving back its value.
    pub fn remove(&mut self, key: K) -> (r: Option<V>)
        requires
            old(self).wf(),
        ensures
            final(self).wf(),
            final(self)@ == old(self)@.remove(key.spec_id()),
            final(self).slots() == T::slots_after_remove(old(self).slots(), key.spec_id()),
            r == (if old(self)@.contains_key(key.spec_id()) {
                Some(old(self)@[key.spec_id()].1)
            } else {
                None
            }),
    {
        self.entries.swap_remove(&key)
    }

    /// The entries in iteration order.
    pub fn iter(&self) -> (r: Iter<'_, K, V, T>)
        requires
            self.wf(),
        ensures
            r.wf(),
            r.slots() == self.slots(),
            r.pos() == 0,
    {
        Iter::new(&self.entries)
    }

    /// The entries in iteration order, with their values borrowed mutably.
    pub fn iter_mut(&mut self) -> (r: IterMut<'_, K, V, T>)
        requires
            old(self).wf(),
        ensures
            r.0.wf(),
            r.0.pos == 0,
            (*r.0.table).view() == old(self)@,
            (*r.0.table).raw() == old(self).slots(),
            (*final(self))@ == (*final(r.0.table)).view(),
            (*final(self)).slots() == (*final(r.0.table)).raw(),
            (*final(self)).wf() == (*final(r.0.table)).wf(),
    {
        IterMut(SafeEntriesMut::new(&mut self.entries))
    }

    /// The values in iteration order, borrowed mutably.
    pub fn values_mut(&mut self) -> (r: ValuesMut<'_, K, V, T>)
        requires
            old(self).wf(),
        ensures
            r.0.wf(),
            r.0.pos == 0,
            (*r.0.table).view() == old(self)@,
            (*r.0.table).raw() == old(self).slots(),
            (*final(self))@ == (*final(r.0.table)).view(),
            (*final(self)).slots() == (*final(r.0.table)).raw(),
            (*final(self)).wf() == (*final(r.0.table)).wf(),
    {
        ValuesMut(SafeEntriesMut::new(&mut self.entries))
    }

    /// The keys in iteration order.
    pub fn keys(&self) -> (r: Keys<'_, K, V, T>)
        requires
            self.wf(),
        ensures
            r.wf(),
            r.slots() == self.slots(),
            r.pos() == 0,
    {
        Keys::new(&self.entries)
    }

    /// The values in iteration order.
    pub fn values(&self) -> (r: Values<'_, K, V, T>)
        requires
            self.wf(),
        ensures
            r.wf(),
            r.slots() == self.slots(),
            r.pos() == 0,
    {
        Values::new(&self.entries)
    }

    /// The entries in iteration order, consuming the map.
    pub fn into_iter(self) -> (r: std::vec::IntoIter<(K, V)>)
        requires
            self.wf(),
        ensures
            r.remaining() == live(self.slots()),
    {
        broadcast use vstd::std_specs::vec::axiom_spec_into_iter;

        self.entries.into_entries().into_iter()
    }

    /// A view of the table's physical layout, for diagnosis.
    pub fn raw_debug(&self) -> (r: RawDebug<'_, K, V, T>)
        requires
            self.wf(),
        ensures
            r.0 == self,
    {
        RawDebug(self)
    }

    /// Remove every entry.
    pub fn clear(&mut self)
        requires
            old(self).wf(),
        ensures
            final(self).wf(),
            final(self)@ == Map::<u64, (K, V)>::empty(),
            final(self).slots() == Seq::<Option<(K, V)>>::empty(),
    {
        self.entries.clear();
    }

    /// Keep only the entries for which `pred` holds of the key and value,
    /// asking it of each entry once, in slot order.
    ///
    /// The predicate sees each value through a shared reference: Verus does
    /// not model closures that mutate captured state, so a predicate that
    /// also rewrites values cannot be specified here.
    pub fn retain<F: Fn(&K, &V) -> bool>(&mut self, pred: F)
        requires
            old(self).wf(),
            forall|k: K, v: V| #[trigger] pred.requires((&k, &v)),
        ensures
            final(self).wf(),
            final(self)@.dom().subset_of(old(self)@.dom()),
            forall|id: u64| #[trigger] old(self)@.contains_key(id) ==> {
                let e = old(self)@[id];
                if final(self)@.contains_key(id) {
                    final(self)@[id] == e && pred.ensures((&e.0, &e.1), true)
                } else {
                    pred.ensures((&e.0, &e.1), false)
                }
            },
            exists|keep: Seq<bool>|
                {
                    &&& keep.len() == old(self).slots().len()
                    &&& forall|i: int|
                        0 <= i < keep.len() && (#[trigger] old(self).slots()[i]) is Some ==> pred.ensures(
                            (&old(self).slots()[i].unwrap().0, &old(self).slots()[i].unwrap().1),
                            keep[i],
                        )
                    &&& final(self).slots() == T::slots_after_retain(old(self).slots(), keep)
                },
    {
        self.entries.retain(pred);
    }

    /// Make room for `amount` more entries.
    pub fn reserve(&mut self, amount: usize)
        requires
            old(self).wf(),
        ensures
            final(self).wf(),
            final(self)@ == old(self)@,
            final(self).slots() == old(self).slots(),
    {
        self.entries.reserve(amount);
    }
}

/// The physical layout of a map: its slots, vacant ones included.
pub struct RawDebug<'a, K: IntegerId, V, T: EntryTable<K, V>>(pub &'a IdMap<K, V, T>);

impl<'a, K: IntegerId, V, T: EntryTable<K, V>> RawDebug<'a, K, V, T> {
    /// Every slot of the table in order, `None` where it is vacant.
    pub fn raw_entries(&self) -> (r: Vec<Option<(&'a K, &'a V)>>)
        requires
            self.0.wf(),
        ensures
            r@.len() == self.0.slots().len(),
            forall|j: int| 0 <= j < r@.len() ==> deref_entry(#[trigger] r@[j]) == self.0.slots()[j],
    {
        let table: &'a T = &self.0.entries;
        let n = table.raw_len();
        let mut out: Vec<Option<(&'a K, &'a V)>> = Vec::new();
        let mut i: usize = 0;
        while i < n
            invariant
                table.wf(),
                *table == self.0.entries,
                n == table.raw().len(),
                i <= n,
                out@.len() == i,
                forall|j: int| 0 <= j < i ==> deref_entry(#[trigger] out@[j]) == table.raw()[j],
            decreases n - i,
        {
            out.push(table.raw_get(i));
            i = i + 1;
        }
        out
    }
}

impl<K: IntegerId, V, T: EntryTable<K, V>> Default for IdMap<K, V, T> {
    fn default() -> (r: Self)
        ensures
            r.wf(),
            r@ == Map::<u64, (K, V)>::empty(),
            r.slots() == Seq::<Option<(K, V)>>::empty(),
    {
        IdMap::new_other()
    }
}

impl<K: IntegerId, V: Clone, T: EntryTable<K, V>> Clone for IdMap<K, V, T> {
    /// A deep copy: the same keys in the same slots, each value cloned.
    fn clone(&self) -> (r: Self)
        ensures
            slots_cloned(self.slots(), r.slots()),
            self.wf() ==> {
                &&& r.wf()
                &&& r@.dom() == self@.dom()
                &&& forall|id: u64| #[trigger] r@.contains_key(id) ==> r@[id].0 == self@[id].0 && cloned(self@[id].1, r@[id].1)
            },
    {
        let r = IdMap { entries: self.entries.cloned(), marker: std::marker::PhantomData };
        proof {
            if self.wf() {
                self.lemma_wf();
                r.lemma_wf();
                let a = self.slots();
                let b = r.slots();
                assert forall|id: u64| #[trigger] self@.contains_key(id) implies r@.contains_key(id) && r@[id].0 == self@[id].0
                    && cloned(self@[id].1, r@[id].1) by {
                    let j = choose|j: int| 0 <= j < a.len() && a[j] == Some(self@[id]);
                    assert(b[j] is Some);
                }
                assert forall|id: u64| #[trigger] r@.contains_key(id) implies self@.contains_key(id) by {
                    let j = choose|j: int| 0 <= j < b.len() && b[j] == Some(r@[id]);
                    assert(a[j] is Some);
                }
                assert(r@.dom() =~= self@.dom());
            }
        }
        r
    }
}

/// `m` after inserting the pairs of `s` in order; later pairs win.
pub open spec fn insert_all<K: IntegerId, V>(m: Map<u64, (K, V)>, s: Seq<(K, V)>) -> Map<u64, (K, V)>
    decreases s.len(),
{
    if s.len() == 0 {
        m
    } else {
        insert_all(m, s.drop_last()).insert(s.last().0.spec_id(), s.last())
    }
}

/// The slots of table type `T`, starting from `s`, after inserting the pairs
/// of `pairs` in order.
pub open spec fn slots_after_all<K: IntegerId, V, T: EntryTable<K, V>>(
    s: Seq<Option<(K, V)>>,
    pairs: Seq<(K, V)>,
) -> Seq<Option<(K, V)>>
    decreases pairs.len(),
{
    if pairs.len() == 0 {
        s
    } else {
        T::slots_after_insert(slots_after_all::<K, V, T>(s, pairs.drop_last()), pairs.last().0, pairs.last().1)
    }
}

impl<K: IntegerId, V, T: EntryTable<K, V>> IdMap<K, V, T> {
    /// Insert each pair of `entries` in order; a later pair overwrites an earlier one.
    pub fn extend(&mut self, entries: Vec<(K, V)>)
        requires
            old(self).wf(),
            forall|i: int| 0 <= i < entries@.len() ==> ((#[trigger] entries@[i]).0.spec_id() as int) < usize::MAX,
        ensures
            final(self).wf(),
            final(self)@ == insert_all(old(self)@, entries@),
            final(self).slots() == slots_after_all::<K, V, T>(old(self).slots(), entries@),
    {
        let ghost s = entries@;
        let n = entries.len();
        self.reserve(n);
        let mut pending = entries;
        let mut reversed: Vec<(K, V)> = Vec::new();
        while pending.len() > 0
            invariant
                pending@ == s.subrange(0, pending@.len() as int),
                reversed@.len() == n - pending@.len(),
                n == s.len(),
                forall|j: int| 0 <= j < reversed@.len() ==> #[trigger] reversed@[j] == s[n - 1 - j],
            decreases pending@.len(),
        {
            let e = pending.pop().unwrap();
            reversed.push(e);
        }
        assert(s.take(0) =~= Seq::<(K, V)>::empty());
        while reversed.len() > 0
            invariant
                self.wf(),
                n == s.len(),
                reversed@.len() <= n,
                forall|j: int| 0 <= j < reversed@.len() ==> #[trigger] reversed@[j] == s[n - 1 - j],
                forall|i: int| 0 <= i < s.len() ==> ((#[trigger] s[i]).0.spec_id() as int) < usize::MAX,
                self@ == insert_all(old(self)@, s.take(n - reversed@.len())),
                self.slots() == slots_after_all::<K, V, T>(old(self).slots(), s.take(n - reversed@.len())),
            decreases reversed@.len(),
        {
            let ghost p = n - reversed@.len();
            let e = reversed.pop().unwrap();
            assert(e == s[p]);
            assert(s.take(p + 1).drop_last() =~= s.take(p));
            self.insert(e.0, e.1);
        }
        assert(s.take(n as int) =~= s);
    }

    /// A map holding the pairs of `entries`; a later pair overwrites an earlier one.
    pub fn from_iter(entries: Vec<(K, V)>) -> (r: Self)
        requires
            forall|i: int| 0 <= i < entries@.len() ==> ((#[trigger] entries@[i]).0.spec_id() as int) < usize::MAX,
        ensures
            r.wf(),
            r@ == insert_all(Map::<u64, (K, V)>::empty(), entries@),
            r.slots() == slots_after_all::<K, V, T>(Seq::<Option<(K, V)>>::empty(), entries@),
    {
        let mut result = Self::new_other();
        result.extend(entries);
        result
    }

    /// Insert a copy of each borrowed pair of `entries` in order; a later pair
    /// overwrites an earlier one.
    pub fn extend_cloned(&mut self, entries: Vec<(&K, &V)>)
        where
            V: Clone,
        requires
            old(self).wf(),
            forall|i: int| 0 <= i < entries@.len() ==> ((*(#[trigger] entries@[i]).0).spec_id() as int) < usize::MAX,
        ensures
            final(self).wf(),
            exists|c: Seq<(K, V)>|
                {
                    &&& c.len() == entries@.len()
                    &&& forall|i: int|
                        0 <= i < c.len() ==> (#[trigger] c[i]).0 == *entries@[i].0 && cloned(*entries@[i].1, c[i].1)
                    &&& final(self)@ == insert_all(old(self)@, c)
                    &&& final(self).slots() == slots_after_all::<K, V, T>(old(self).slots(), c)
                },
    {
        let n = entries.len();
        let mut copies: Vec<(K, V)> = Vec::new();
        let mut i: usize = 0;
        while i < n
            invariant
                n == entries@.len(),
                i <= n,
                copies@.len() == i,
                forall|j: int|
                    0 <= j < i ==> (#[trigger] copies@[j]).0 == *entries@[j].0 && cloned(*entries@[j].1, copies@[j].1),
            decreases n - i,
        {
            let (k, v) = entries[i];
            copies.push((k.clone_key(), v.clone()));
            i = i + 1;
        }
        let ghost c = copies@;
        self.extend(copies);
        assert(forall|j: int| 0 <= j < c.len() ==> (#[trigger] c[j]).0 == *entries@[j].0 && cloned(*entries@[j].1, c[j].1));
    }

    /// A map holding a copy of each borrowed pair of `entries`; a later pair
    /// overwrites an earlier one.
    pub fn from_iter_cloned(entries: Vec<(&K, &V)>) -> (r: Self)
        where
            V: Clone,
        requires
            forall|i: int| 0 <= i < entries@.len() ==> ((*(#[trigger] entries@[i]).0).spec_id() as int) < usize::MAX,
        ensures
            r.wf(),
            exists|c: Seq<(K, V)>|
                {
                    &&& c.len() == entries@.len()
                    &&& forall|i: int|
                        0 <= i < c.len() ==> (#[trigger] c[i]).0 == *entries@[i].0 && cloned(*entries@[i].1, c[i].1)
                    &&& r@ == insert_all(Map::<u64, (K, V)>::empty(), c)
                    &&& r.slots() == slots_after_all::<K, V, T>(Seq::<Option<(K, V)>>::empty(), c)
                },
    {
        let mut result = Self::new_other();
        result.extend_cloned(entries);
        result
    }

    /// The value stored under the identifier of `key`, which must be present.
    pub fn index(&self, key: K) -> (r: &V)
        requires
            self.wf(),
            self@.contains_key(key.spec_id()),
        ensures
            *r == self@[key.spec_id()].1,
    {
        self.entries.get(&key).unwrap()
    }

    /// A mutable reference to the value stored under the identifier of `key`, which must be present.
    pub fn index_mut(&mut self, key: K) -> (r: &mut V)
        requires
            old(self).wf(),
            old(self)@.contains_key(key.spec_id()),
        ensures
            *r == old(self)@[key.spec_id()].1,
            final(self).wf(),
            final(self)@ == old(self)@.insert(key.spec_id(), (old(self)@[key.spec_id()].0, *final(r))),
            forall|j: int| slot_of(old(self).slots(), j, key.spec_id()) ==> final(self).slots() == old(self).slots().update(
                j,
                Some((old(self).slots()[j].unwrap().0, *final(r))),
            ),
    {
        self.entries.get_mut(&key).unwrap()
    }
}

/// `a` and `b` hold the same identifiers, with values that compare equal.
pub open spec fn same_entries<K, V1: PartialEq<V2>, V2>(a: Map<u64, (K, V1)>, b: Map<u64, (K, V2)>) -> bool {
    &&& a.dom() == b.dom()
    &&& forall|id: u64| #[trigger] a.contains_key(id) ==> a[id].1.eq_spec(&b[id].1)
}

impl<K: IntegerId, V1, T1: EntryTable<K, V1>> IdMap<K, V1, T1> {
    /// Whether both maps hold the same entries, whatever their order or layout.
    pub fn eq<V2, T2: EntryTable<K, V2>>(&self, other: &IdMap<K, V2, T2>) -> (r: bool)
        where
            V1: PartialEq<V2>,

        requires
            self.wf(),
            other.wf(),
        ensures
            V1::obeys_eq_spec() ==> r == same_entries(self@, other@),
            r ==> self@.dom() == other@.dom(),
    {
        proof {
            self.lemma_wf();
            other.lemma_wf();
        }
        if self.entries.len() != other.entries.len() {
            return false;
        }
        let mut it = self.iter();
        loop
            invariant
                self.wf(),
                other.wf(),
                self@.len() == other@.len(),
                self@.dom().finite(),
                other@.dom().finite(),
                keyed(self@),
                raw_matches(self.slots(), self@),
                it.wf(),
                it.slots() == self.slots(),
                0 <= it.pos() <= self.slots().len(),
                forall|j: int| 0 <= j < it.pos() && (#[trigger] self.slots()[j]) is Some ==> {
                    let e = self.slots()[j].unwrap();
                    let id = e.0.spec_id();
                    other@.contains_key(id) && (V1::obeys_eq_spec() ==> e.1.eq_spec(&other@[id].1))
                },
            decreases self.slots().len() - it.pos(),
        {
            match it.next() {
                Some((key, value)) => {
                    proof {
                        let q = it.pos() - 1;
                        assert(self.slots()[q] is Some);
                        assert(self@[key.spec_id()] == (*key, *value));
                    }
                    match other.entries.get(key) {
                        Some(other_value) => {
                            if !value.eq(other_value) {
                                proof {
                                    let id = key.spec_id();
                                    assert(self@.contains_key(id));
                                    assert(V1::obeys_eq_spec() ==> !same_entries(self@, other@));
                                }
                                return false;
                            }
                        },
                        None => {
                            proof {
                                let id = key.spec_id();
                                assert(self@.contains_key(id));
                                assert(!same_entries(self@, other@));
                            }
                            return false;
                        },
                    }
                },
                None => {
                    proof {
                        assert forall|id: u64| #[trigger] self@.contains_key(id) implies
                            other@.contains_key(id) && (V1::obeys_eq_spec() ==> self@[id].1.eq_spec(&other@[id].1)) by {
                            let j = choose|j: int| 0 <= j < self.slots().len() && self.slots()[j] == Some(self@[id]);
                            assert(self.slots()[j] is Some);
                        }
                        assert(self@.dom().subset_of(other@.dom()));
                        vstd::set_lib::lemma_subset_equality(self@.dom(), other@.dom());
                    }
                    return true;
                },
            }
        }
    }
}

/// The entry of one key in an `IdMap`.
pub enum Entry<'a, K: IntegerId, V, T: EntryTable<K, V>> {
    /// The key has a value.
    Occupied(OccupiedEntry<'a, K, V, T>),
    /// The key has no value.
    Vacant(VacantEntry<'a, K, V, T>),
}

/// The entry of a key that has a value.
pub struct OccupiedEntry<'a, K: IntegerId, V, T: EntryTable<K, V>> {
    /// The map the entry belongs to. It is public because the contracts must
    /// name the map as it is once the entry is done with.
    pub map: &'a mut IdMap<K, V, T>,
    /// The key, which the map holds.
    pub key: K,
}

/// The entry of a key that has no value.
pub struct VacantEntry<'a, K: IntegerId, V, T: EntryTable<K, V>> {
    /// The map the entry belongs to. It is public because the contracts must
    /// name the map as it is once the entry is done with.
    pub map: &'a mut IdMap<K, V, T>,
    /// The key, which the map lacks.
    pub key: K,
}

impl<'a, K: IntegerId, V, T: EntryTable<K, V>> IdMap<K, V, T> {
    /// The entry of `key`, occupied exactly when the map holds its identifier.
    pub fn entry(&'a mut self, key: K) -> (r: Entry<'a, K, V, T>)
        requires
            old(self).wf(),
            (key.spec_id() as int) < usize::MAX,
        ensures
            match r {
                Entry::Occupied(o) => {
                    &&& old(self)@.contains_key(key.spec_id())
                    &&& o.wf()
                    &&& o.key == key
                    &&& o.map() == *old(self)
                    &&& *final(o.map) == *final(self)
                },
                Entry::Vacant(v) => {
                    &&& !old(self)@.contains_key(key.spec_id())
                    &&& v.wf()
                    &&& v.key == key
                    &&& v.map() == *old(self)
                    &&& *final(v.map) == *final(self)
                },
            },
    {
        if self.entries.get(&key).is_some() {
            Entry::Occupied(OccupiedEntry { map: self, key })
        } else {
            Entry::Vacant(VacantEntry { key, map: self })
        }
    }
}

impl<'a, K: IntegerId, V, T: EntryTable<K, V>> OccupiedEntry<'a, K, V, T> {
    /// The map as it is now.
    pub open spec fn map(&self) -> IdMap<K, V, T> {
        *self.map
    }

    /// The map is well formed and holds the key.
    pub open spec fn wf(&self) -> bool {
        &&& self.map().wf()
        &&& self.map()@.contains_key(self.key.spec_id())
        &&& (self.key.spec_id() as int) < usize::MAX
    }

    /// The key of this entry.
    pub fn key(&self) -> (r: &K)
        ensures
            *r == self.key,
    {
        &self.key
    }

    /// The value, borrowed for as long as the map was.
    pub fn value(self) -> (r: &'a mut V)
        requires
            self.wf(),
        ensures
            ({
                let id = self.key.spec_id();
                &&& *r == self.map()@[id].1
                &&& (*final(self.map)).wf()
                &&& (*final(self.map))@ == self.map()@.insert(id, (self.map()@[id].0, *final(r)))
                &&& forall|j: int| slot_of(self.map().slots(), j, id) ==> (*final(self.map)).slots() == self.map().slots().update(
                    j,
                    Some((self.map().slots()[j].unwrap().0, *final(r))),
                )
            }),
    {
        self.map.entries.get_mut(&self.key).unwrap()
    }

    /// The value.
    pub fn get(&self) -> (r: &V)
        requires
            self.wf(),
        ensures
            *r == self.map()@[self.key.spec_id()].1,
    {
        self.map.entries.get(&self.key).unwrap()
    }

    /// The value, borrowed mutably.
    pub fn get_mut(&mut self) -> (r: &mut V)
        requires
            old(self).wf(),
        ensures
            ({
                let id = old(self).key.spec_id();
                &&& *r == old(self).map()@[id].1
                &&& final(self).key == old(self).key
                &&& *final(final(self).map) == *final(old(self).map)
                &&& final(self).map().wf()
                &&& final(self).map()@ == old(self).map()@.insert(id, (old(self).map()@[id].0, *final(r)))
                &&& forall|j: int| slot_of(old(self).map().slots(), j, id) ==> final(self).map().slots() == old(self).map().slots().update(
                    j,
                    Some((old(self).map().slots()[j].unwrap().0, *final(r))),
                )
            }),
    {
        self.map.entries.get_mut(&self.key).unwrap()
    }

    /// Replace the value, giving back the old one.
    pub fn insert(self, value: V) -> (r: V)
        requires
            self.wf(),
        ensures
            ({
                let id = self.key.spec_id();
                &&& r == self.map()@[id].1
                &&& (*final(self.map)).wf()
                &&& (*final(self.map))@ == self.map()@.insert(id, (self.key, value))
                &&& (*final(self.map)).slots() == T::slots_after_insert(self.map().slots(), self.key, value)
            }),
    {
        self.map.entries.insert(self.key, value).unwrap()
    }

    /// Remove the entry from the map, giving back its value.
    pub fn remove(self) -> (r: V)
        requires
            self.wf(),
        ensures
            ({
                let id = self.key.spec_id();
                &&& r == self.map()@[id].1
                &&& (*final(self.map)).wf()
                &&& (*final(self.map))@ == self.map()@.remove(id)
                &&& (*final(self.map)).slots() == T::slots_after_remove(self.map().slots(), id)
            }),
    {
        self.map.entries.swap_remove(&self.key).unwrap()
    }
}

impl<'a, K: IntegerId, V, T: EntryTable<K, V>> VacantEntry<'a, K, V, T> {
    /// The map as it is now.
    pub open spec fn map(&self) -> IdMap<K, V, T> {
        *self.map
    }

    /// The map is well formed, lacks the key, and has room for it.
    pub open spec fn wf(&self) -> bool {
        &&& self.map().wf()
        &&& !self.map()@.contains_key(self.key.spec_id())
        &&& (self.key.spec_id() as int) < usize::MAX
    }

    /// Store `value` under this entry's key, giving a reference to it.
    pub fn insert(self, value: V) -> (r: &'a mut V)
        requires
            self.wf(),
        ensures
            *r == value,
            (*final(self.map)).wf(),
            (*final(self.map))@ == self.map()@.insert(self.key.spec_id(), (self.key, *final(r))),
            (*final(self.map)).slots() == T::slots_after_insert(self.map().slots(), self.key, *final(r)),
    {
        self.map.entries.insert_vacant(self.key, value)
    }

    /// Store what `func` returns under this entry's key, giving a reference to it.
    pub fn or_insert_with<F: FnOnce() -> V>(self, func: F) -> (r: &'a mut V)
        requires
            self.wf(),
            func.requires(()),
        ensures
            func.ensures((), *r),
            (*final(self.map)).wf(),
            (*final(self.map))@ == self.map()@.insert(self.key.spec_id(), (self.key, *final(r))),
            (*final(self.map)).slots() == T::slots_after_insert(self.map().slots(), self.key, *final(r)),
    {
        self.insert(func())
    }
}

impl<'a, K: IntegerId, V, T: EntryTable<K, V>> Entry<'a, K, V, T> {
    /// The invariant of the occupied or vacant entry.
    pub open spec fn wf(&self) -> bool {
        match self {
            Entry::Occupied(o) => o.wf(),
            Entry::Vacant(v) => v.wf(),
        }
    }

    /// The value of this entry, storing `value` first if there is none.
    pub fn or_insert(self, value: V) -> (r: &'a mut V)
        requires
            self.wf(),
        ensures
            match self {
                Entry::Occupied(o) => {
                    let id = o.key.spec_id();
                    let m = o.map()@;
                    &&& *r == m[id].1
                    &&& (*final(o.map)).wf()
                    &&& (*final(o.map))@ == m.insert(id, (m[id].0, *final(r)))
                    &&& forall|j: int| slot_of(o.map().slots(), j, id) ==> (*final(o.map)).slots() == o.map().slots().update(
                        j,
                        Some((o.map().slots()[j].unwrap().0, *final(r))),
                    )
                },
                Entry::Vacant(v) => {
                    &&& *r == value
                    &&& (*final(v.map)).wf()
                    &&& (*final(v.map))@ == v.map()@.insert(v.key.spec_id(), (v.key, *final(r)))
                    &&& (*final(v.map)).slots() == T::slots_after_insert(v.map().slots(), v.key, *final(r))
                },
            },
    {
        match self {
            Entry::Occupied(entry) => entry.value(),
            Entry::Vacant(entry) => entry.insert(value),
        }
    }

    /// The value of this entry, storing what `func` returns first if there is none.
    pub fn or_insert_with<F: FnOnce() -> V>(self, func: F) -> (r: &'a mut V)
        requires
            self.wf(),
            func.requires(()),
        ensures
            match self {
                Entry::Occupied(o) => {
                    let id = o.key.spec_id();
                    let m = o.map()@;
                    &&& *r == m[id].1
                    &&& (*final(o.map)).wf()
                    &&& (*final(o.map))@ == m.insert(id, (m[id].0, *final(r)))
                    &&& forall|j: int| slot_of(o.map().slots(), j, id) ==> (*final(o.map)).slots() == o.map().slots().update(
                        j,
                        Some((o.map().slots()[j].unwrap().0, *final(r))),
                    )
                },
                Entry::Vacant(v) => {
                    &&& func.ensures((), *r)
                    &&& (*final(v.map)).wf()
                    &&& (*final(v.map))@ == v.map()@.insert(v.key.spec_id(), (v.key, *final(r)))
                    &&& (*final(v.map)).slots() == T::slots_after_insert(v.map().slots(), v.key, *final(r))
                },
            },
    {
        match self {
            Entry::Occupied(entry) => entry.value(),
            Entry::Vacant(entry) => entry.or_insert_with(func),
        }
    }
}

} // verus!
