//! The storage abstraction behind an `IdMap`, and what both backends promise.
use vstd::prelude::*;

use crate::integer_id::IntegerId;

verus! {

/// Every key of `m` is stored under its own identifier.
pub open spec fn keyed<K: IntegerId, V>(m: Map<u64, (K, V)>) -> bool {
    forall|id: u64| #[trigger] m.contains_key(id) ==> m[id].0.spec_id() == id
}

/// `r` is the greatest identifier of `m`, or `None` exactly when `m` is empty.
pub open spec fn is_max_id<T>(m: Map<u64, T>, r: Option<u64>) -> bool {
    match r {
        None => m.dom() =~= Set::<u64>::empty(),
        Some(x) => m.contains_key(x) && forall|id: u64| #[trigger] m.contains_key(id) ==> id <= x,
    }
}

/// The physical slots `raw` hold exactly the entries of `m`, each in one slot.
pub open spec fn raw_matches<K: IntegerId, V>(raw: Seq<Option<(K, V)>>, m: Map<u64, (K, V)>) -> bool {
    &&& forall|i: int|
        0 <= i < raw.len() && (#[trigger] raw[i]) is Some ==> {
            let e = raw[i]->0;
            m.contains_key(e.0.spec_id()) && m[e.0.spec_id()] == e
        }
    &&& forall|id: u64|
        #[trigger] m.contains_key(id) ==> exists|i: int| 0 <= i < raw.len() && raw[i] == Some(m[id])
    &&& forall|i: int, j: int|
        0 <= i < raw.len() && 0 <= j < raw.len() && (#[trigger] raw[i]) is Some
            && (#[trigger] raw[j]) is Some && raw[i].unwrap().0.spec_id() == raw[j].unwrap().0.spec_id() ==> i == j
}

/// The entries of the occupied slots of `s`, in order.
pub open spec fn live<K, V>(s: Seq<Option<(K, V)>>) -> Seq<(K, V)>
    decreases s.len(),
{
    if s.len() == 0 {
        Seq::empty()
    } else {
        match s.last() {
            Some(e) => live(s.drop_last()).push(e),
            None => live(s.drop_last()),
        }
    }
}

/// The occupied slots among the first `i + 1` are those among the first `i`, and perhaps slot `i`.
pub proof fn lemma_live_take_succ<K, V>(s: Seq<Option<(K, V)>>, i: int)
    requires
        0 <= i < s.len(),
    ensures
        live(s.take(i + 1)) == match s[i] {
            Some(e) => live(s.take(i)).push(e),
            None => live(s.take(i)),
        },
{
    assert(s.take(i + 1).drop_last() =~= s.take(i));
}

/// Slot `i` of `s` is occupied by an entry whose key has identifier `id`.
pub open spec fn slot_of<K: IntegerId, V>(s: Seq<Option<(K, V)>>, i: int, id: u64) -> bool {
    0 <= i < s.len() && s[i] is Some && s[i].unwrap().0.spec_id() == id
}

/// The elements of `s` whose flag in `keep` is set, in their order.
pub open spec fn select<A>(s: Seq<A>, keep: Seq<bool>) -> Seq<A>
    decreases s.len(),
{
    if s.len() == 0 {
        Seq::empty()
    } else if keep[s.len() - 1] {
        select(s.drop_last(), keep).push(s.last())
    } else {
        select(s.drop_last(), keep)
    }
}

/// Slots `b` hold the same keys as slots `a`, in the same places, with cloned values.
pub open spec fn slots_cloned<K, V: Clone>(a: Seq<Option<(K, V)>>, b: Seq<Option<(K, V)>>) -> bool {
    &&& a.len() == b.len()
    &&& forall|i: int|
        0 <= i < a.len() ==> {
            &&& (#[trigger] b[i]) is Some == a[i] is Some
            &&& a[i] is Some ==> b[i].unwrap().0 == a[i].unwrap().0 && cloned(a[i].unwrap().1, b[i].unwrap().1)
        }
}

/// A finite map whose identifiers all lie below `n` has at most `n` entries.
pub proof fn lemma_ids_below<T>(m: Map<u64, T>, n: u64)
    requires
        forall|id: u64| #[trigger] m.contains_key(id) ==> id < n,
    ensures
        m.dom().finite(),
        m.len() <= n,
{
    let r = Set::<u64>::range(0, n);
    <u64 as vstd::set_lib::FiniteRange>::range_properties(0, n);
    assert(m.dom().subset_of(r));
    vstd::set_lib::lemma_len_subset(m.dom(), r);
}

/// The storage of an `IdMap`: the entries keyed by identifier, and the
/// physical slots in which they sit, in their order of iteration.
pub trait EntryTable<K: IntegerId, V>: Sized {
    /// The internal invariant of the table.
    spec fn wf(&self) -> bool;

    /// The entries, by identifier.
    spec fn view(&self) -> Map<u64, (K, V)>;

    /// The physical slots, in iteration order; a vacant slot is `None`.
    spec fn raw(&self) -> Seq<Option<(K, V)>>;

    /// The shape that the slots of a well-formed table always have.
    spec fn layout(s: Seq<Option<(K, V)>>) -> bool;

    /// The slots after storing `value` under the identifier of `key` in slots `s`.
    spec fn slots_after_insert(s: Seq<Option<(K, V)>>, key: K, value: V) -> Seq<Option<(K, V)>>;

    /// The slots after removing the entry with identifier `id` from slots `s`.
    spec fn slots_after_remove(s: Seq<Option<(K, V)>>, id: u64) -> Seq<Option<(K, V)>>;

    /// The slots after keeping, of slots `s`, the occupied ones whose flag in `keep` is set.
    spec fn slots_after_retain(s: Seq<Option<(K, V)>>, keep: Seq<bool>) -> Seq<Option<(K, V)>>;

    /// A well-formed table keeps each entry under its key's identifier, once,
    /// in slots of its layout.
    proof fn lemma_wf(&self)
        requires
            self.wf(),
        ensures
            self.view().dom().finite(),
            keyed(self.view()),
            raw_matches(self.raw(), self.view()),
            Self::layout(self.raw()),
    ;

    /// An empty table.
    fn new() -> (r: Self)
        ensures
            r.wf(),
            r.view() == Map::<u64, (K, V)>::empty(),
            r.raw() == Seq::<Option<(K, V)>>::empty(),
    ;

    /// An empty table with room reserved ahead.
    fn with_capacity(capacity: usize) -> (r: Self)
        ensures
            r.wf(),
            r.view() == Map::<u64, (K, V)>::empty(),
            r.raw() == Seq::<Option<(K, V)>>::empty(),
    ;

    /// A copy of the table, with each value cloned.
    fn cloned(&self) -> (r: Self) where V: Clone
        ensures
            slots_cloned(self.raw(), r.raw()),
            self.wf() ==> r.wf(),
    ;

    /// The number of entries.
    fn len(&self) -> (r: usize)
        requires
            self.wf(),
        ensures
            r == self.view().len(),
    ;

    /// Whether there are no entries.
    fn is_empty(&self) -> (r: bool)
        requires
            self.wf(),
        ensures
            r == (self.view().len() == 0),
    ;

    /// The greatest identifier present.
    fn max_id(&self) -> (r: Option<u64>)
        requires
            self.wf(),
        ensures
            is_max_id(self.view(), r),
    ;

    /// The value stored under the identifier of `key`.
    fn get(&self, key: &K) -> (r: Option<&V>)
        requires
            self.wf(),
        ensures
            match r {
                Some(v) => self.view().contains_key(key.spec_id()) && *v == self.view()[key.spec_id()].1,
                None => !self.view().contains_key(key.spec_id()),
            },
    ;

    /// A mutable reference to the value stored under the identifier of `key`.
    fn get_mut(&mut self, key: &K) -> (r: Option<&mut V>)
        requires
            old(self).wf(),
        ensures
            match r {
                Some(v) => {
                    let id = key.spec_id();
                    &&& old(self).view().contains_key(id)
                    &&& *v == old(self).view()[id].1
                    &&& final(self).wf()
                    &&& final(self).view() == old(self).view().insert(id, (old(self).view()[id].0, *final(v)))
                    &&& forall|j: int| slot_of(old(self).raw(), j, id) ==> final(self).raw() == old(self).raw().update(
                        j,
                        Some((old(self).raw()[j].unwrap().0, *final(v))),
                    )
                },
                None => !old(self).view().contains_key(key.spec_id()) && *final(self) == *old(self),
            },
    ;

    /// Store `value` under the identifier of `key`, giving back the value it replaces.
    fn insert(&mut self, key: K, value: V) -> (r: Option<V>)
        requires
            old(self).wf(),
            (key.spec_id() as int) < usize::MAX,
        ensures
            final(self).wf(),
            final(self).view() == old(self).view().insert(key.spec_id(), (key, value)),
            final(self).raw() == Self::slots_after_insert(old(self).raw(), key, value),
            r == (if old(self).view().contains_key(key.spec_id()) {
                Some(old(self).view()[key.spec_id()].1)
            } else {
                None
            }),
    ;

    /// Store `value` under a key that is known to be absent, giving a reference to it.
    fn insert_vacant(&mut self, key: K, value: V) -> (r: &mut V)
        requires
            old(self).wf(),
            (key.spec_id() as int) < usize::MAX,
            !old(self).view().contains_key(key.spec_id()),
        ensures
            *r == value,
            final(self).wf(),
            final(self).view() == old(self).view().insert(key.spec_id(), (key, *final(r))),
            final(self).raw() == Self::slots_after_insert(old(self).raw(), key, *final(r)),
    ;

    /// Remove the entry under the identifier of `key`, giving back its value.
    fn swap_remove(&mut self, key: &K) -> (r: Option<V>)
        requires
            old(self).wf(),
        ensures
            final(self).wf(),
            final(self).view() == old(self).view().remove(key.spec_id()),
            final(self).raw() == Self::slots_after_remove(old(self).raw(), key.spec_id()),
            r == (if old(self).view().contains_key(key.spec_id()) {
                Some(old(self).view()[key.spec_id()].1)
            } else {
                None
            }),
    ;

    /// Keep only the entries for which `pred` holds, visiting each entry once.
    fn retain<F: Fn(&K, &V) -> bool>(&mut self, pred: F)
        requires
            old(self).wf(),
            forall|k: K, v: V| #[trigger] pred.requires((&k, &v)),
        ensures
            final(self).wf(),
            final(self).view().dom().subset_of(old(self).view().dom()),
            forall|id: u64| #[trigger] old(self).view().contains_key(id) ==> {
                let e = old(self).view()[id];
                if final(self).view().contains_key(id) {
                    final(self).view()[id] == e && pred.ensures((&e.0, &e.1), true)
                } else {
                    pred.ensures((&e.0, &e.1), false)
                }
            },
            exists|keep: Seq<bool>|
                {
                    &&& keep.len() == old(self).raw().len()
                    &&& forall|i: int|
                        0 <= i < keep.len() && (#[trigger] old(self).raw()[i]) is Some ==> pred.ensures(
                            (&old(self).raw()[i].unwrap().0, &old(self).raw()[i].unwrap().1),
                            keep[i],
                        )
                    &&& final(self).raw() == Self::slots_after_retain(old(self).raw(), keep)
                },
    ;

    /// Remove every entry.
    fn clear(&mut self)
        requires
            old(self).wf(),
        ensures
            final(self).wf(),
            final(self).view() == Map::<u64, (K, V)>::empty(),
            final(self).raw() == Seq::<Option<(K, V)>>::empty(),
    ;

    /// Make room for `additional` more entries.
    fn reserve(&mut self, additional: usize)
        requires
            old(self).wf(),
        ensures
            final(self).wf(),
            final(self).view() == old(self).view(),
            final(self).raw() == old(self).raw(),
    ;

    /// The entries, in iteration order, consuming the table.
    fn into_entries(self) -> (r: Vec<(K, V)>)
        requires
            self.wf(),
        ensures
            r@ == live(self.raw()),
    ;

    /// The number of physical slots.
    fn raw_len(&self) -> (r: usize)
        requires
            self.wf(),
        ensures
            r == self.raw().len(),
    ;

    /// The entry in physical slot `i`, if the slot is occupied, with its value borrowed mutably.
    fn raw_get_mut(&mut self, i: usize) -> (r: Option<(&K, &mut V)>)
        requires
            old(self).wf(),
            i < old(self).raw().len(),
        ensures
            r is Some == old(self).raw()[i as int] is Some,
            match r {
                Some(e) => {
                    let x = old(self).raw()[i as int].unwrap();
                    &&& *e.0 == x.0
                    &&& *e.1 == x.1
                    &&& final(self).wf()
                    &&& final(self).raw() == old(self).raw().update(i as int, Some((x.0, *final(e.1))))
                    &&& final(self).view() == old(self).view().insert(x.0.spec_id(), (x.0, *final(e.1)))
                },
                None => *final(self) == *old(self),
            },
    ;

    /// The entry in physical slot `i`, if the slot is occupied.
    fn raw_get(&self, i: usize) -> (r: Option<(&K, &V)>)
        requires
            self.wf(),
            i < self.raw().len(),
        ensures
            r is Some == self.raw()[i as int] is Some,
            r is Some ==> (*r.unwrap().0, *r.unwrap().1) == self.raw()[i as int]->0,
    ;
}

} // verus!
