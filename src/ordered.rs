//! The dense backend: entries packed in a vector, found through a sparse index.
use vstd::prelude::*;

use crate::integer_id::IntegerId;
use crate::map::IdMap;
use crate::table::{slots_cloned, lemma_ids_below, live, select, slot_of, EntryTable, keyed, is_max_id, raw_matches};

verus! {

/// The slots of a packed vector: all occupied.
pub open spec fn packed<K, V>(e: Seq<(K, V)>) -> Seq<Option<(K, V)>> {
    e.map_values(|e: (K, V)| Some(e))
}

/// Selecting with flags that agree on the first `s.len()` places gives the same result.
pub proof fn lemma_select_prefix<A>(s: Seq<A>, k1: Seq<bool>, k2: Seq<bool>)
    requires
        forall|j: int| 0 <= j < s.len() ==> k1[j] == k2[j],
    ensures
        select(s, k1) == select(s, k2),
    decreases s.len(),
{
    if s.len() > 0 {
        lemma_select_prefix(s.drop_last(), k1, k2);
    }
}

/// A map that keeps its entries packed in insertion order.
pub type OrderedIdMap<K, V> = IdMap<K, V, DenseEntryTable<K, V>>;

/// Entries packed contiguously in insertion order, with an index from
/// identifier to position; memory for entries grows with their number.
pub struct DenseEntryTable<K, V> {
    entries: Vec<(K, V)>,
    indices: Vec<Option<usize>>,
}

impl<K: IntegerId, V> DenseEntryTable<K, V> {
    /// The entries of a packed vector and its index, by identifier.
    pub open spec fn dense_view(e: Seq<(K, V)>, ix: Seq<Option<usize>>) -> Map<u64, (K, V)> {
        Map::new(
            |id: u64| (id as int) < ix.len() && ix[id as int] is Some,
            |id: u64| e[ix[id as int]->0 as int],
        )
    }

    /// The index and the packed vector point at each other.
    pub open spec fn linked(e: Seq<(K, V)>, ix: Seq<Option<usize>>) -> bool {
        &&& forall|i: int| 0 <= i < e.len() ==> {
            let id = (#[trigger] e[i]).0.spec_id();
            (id as int) < ix.len() && ix[id as int] == Some(i as usize)
        }
        &&& forall|id: int| 0 <= id < ix.len() && (#[trigger] ix[id]) is Some ==> {
            let i = ix[id]->0 as int;
            i < e.len() && e[i].0.spec_id() == id
        }
    }

    /// The invariant, but for the last index slot being occupied.
    pub closed spec fn wf_linked(&self) -> bool {
        &&& Self::linked(self.entries@, self.indices@)
        &&& self.entries@.len() <= usize::MAX
        &&& self.indices@.len() <= usize::MAX
        &&& self.entries@.len() == Self::dense_view(self.entries@, self.indices@).len()
    }

    proof fn lemma_finite(e: Seq<(K, V)>, ix: Seq<Option<usize>>)
        requires
            ix.len() <= usize::MAX,
        ensures
            Self::dense_view(e, ix).dom().finite(),
    {
        lemma_ids_below(Self::dense_view(e, ix), ix.len() as u64);
    }

    /// Add an entry whose identifier is absent, at the end of the packed vector.
    fn push_new(&mut self, key: K, value: V)
        requires
            old(self).wf(),
            (key.spec_id() as int) < usize::MAX,
            !old(self).view().contains_key(key.spec_id()),
        ensures
            final(self).wf(),
            final(self).view() == old(self).view().insert(key.spec_id(), (key, value)),
            final(self).entries@ == old(self).entries@.push((key, value)),
            final(self).raw() == Self::slots_after_insert(old(self).raw(), key, value),
    {
        proof {
            Self::lemma_slot_unique(self.entries@, self.indices@, key.spec_id());
            assert(!exists|i: int| slot_of(packed(self.entries@), i, key.spec_id()));
        }
        let ghost e_old = self.entries@;
        let id = key.id();
        let idx = id as usize;
        let ghost old_view = self.view();
        proof {
            Self::lemma_finite(self.entries@, self.indices@);
        }
        while self.indices.len() <= idx
            invariant
                idx <= usize::MAX - 1,
                self.entries@ == old(self).entries@,
                Self::linked(self.entries@, self.indices@),
                Self::dense_view(self.entries@, self.indices@) == old_view,
                self.indices@.len() <= idx + 1 || self.indices@.last() is Some,
            decreases (idx + 1) - self.indices@.len(),
        {
            let ghost before = self.indices@;
            self.indices.push(None);
            assert(Self::dense_view(self.entries@, self.indices@) =~= Self::dense_view(self.entries@, before));
        }
        let n = self.entries.len();
        let m = self.indices.len();
        proof {
            assert(n < usize::MAX) by {
                let grown = old_view.insert(id, (key, value));
                lemma_ids_below(grown, m as u64);
                assert(grown.dom() =~= old_view.dom().insert(id));
            }
        }
        self.indices.set(idx, Some(n));
        self.entries.push((key, value));
        proof {
            let e = self.entries@;
            let ix = self.indices@;
            assert forall|i: int| 0 <= i < e.len() implies {
                let id = (#[trigger] e[i]).0.spec_id();
                (id as int) < ix.len() && ix[id as int] == Some(i as usize)
            } by {
                if i < n {
                    assert(e[i] == old(self).entries@[i]);
                }
            }
            assert(Self::dense_view(e, ix) =~= old_view.insert(id, (key, value)));
            Self::lemma_finite(e, ix);
            assert(old_view.insert(id, (key, value)).dom() =~= old_view.dom().insert(id));
            assert(packed(e) =~= packed(e_old).push(Some((key, value))));
        }
    }

    /// The only slot holding identifier `id` is the one the index names.
    proof fn lemma_slot_unique(e: Seq<(K, V)>, ix: Seq<Option<usize>>, id: u64)
        requires
            Self::linked(e, ix),
        ensures
            (id as int) < ix.len() && ix[id as int] is Some ==> slot_of(packed(e), ix[id as int]->0 as int, id),
            forall|j: int| #[trigger] slot_of(packed(e), j, id) ==> (id as int) < ix.len() && ix[id as int] == Some(j as usize),
    {
        assert forall|j: int| #[trigger] slot_of(packed(e), j, id) implies (id as int) < ix.len() && ix[id as int] == Some(j as usize) by {
            assert(packed(e)[j] == Some(e[j]));
        }
        if (id as int) < ix.len() && ix[id as int] is Some {
            let i = ix[id as int]->0 as int;
            assert(packed(e)[i] == Some(e[i]));
        }
    }

    /// Every slot of a packed vector is occupied.
    proof fn lemma_live_packed(e: Seq<(K, V)>)
        ensures
            live(packed(e)) == e,
        decreases e.len(),
    {
        if e.len() > 0 {
            Self::lemma_live_packed(e.drop_last());
            assert(packed(e).drop_last() =~= packed(e.drop_last()));
            assert(e.drop_last().push(e.last()) =~= e);
        } else {
            assert(e =~= Seq::<(K, V)>::empty());
        }
    }

    /// Drop vacant index slots at the end, so that the last one is occupied.
    fn trim(&mut self)
        requires
            old(self).wf_linked(),
        ensures
            final(self).wf(),
            final(self).view() == old(self).view(),
            final(self).entries@ == old(self).entries@,
    {
        loop
            invariant
                self.wf_linked(),
                self.view() == old(self).view(),
                self.entries@ == old(self).entries@,
            decreases self.indices@.len(),
        {
            let n = self.indices.len();
            if n == 0 || self.indices[n - 1].is_some() {
                return;
            }
            let ghost before = self.indices@;
            self.indices.pop();
            assert(Self::dense_view(self.entries@, self.indices@) =~= Self::dense_view(self.entries@, before));
        }
    }
}

impl<K: IntegerId, V> EntryTable<K, V> for DenseEntryTable<K, V> {
    closed spec fn wf(&self) -> bool {
        &&& self.wf_linked()
        &&& (self.indices@.len() == 0 || self.indices@.last() is Some)
    }

    closed spec fn view(&self) -> Map<u64, (K, V)> {
        Self::dense_view(self.entries@, self.indices@)
    }

    closed spec fn raw(&self) -> Seq<Option<(K, V)>> {
        packed(self.entries@)
    }

    open spec fn layout(s: Seq<Option<(K, V)>>) -> bool {
        forall|i: int| 0 <= i < s.len() ==> (#[trigger] s[i]) is Some
    }

    open spec fn slots_after_insert(s: Seq<Option<(K, V)>>, key: K, value: V) -> Seq<Option<(K, V)>> {
        if exists|i: int| slot_of(s, i, key.spec_id()) {
            s.update(choose|i: int| slot_of(s, i, key.spec_id()), Some((key, value)))
        } else {
            s.push(Some((key, value)))
        }
    }

    open spec fn slots_after_remove(s: Seq<Option<(K, V)>>, id: u64) -> Seq<Option<(K, V)>> {
        if exists|i: int| slot_of(s, i, id) {
            s.update(choose|i: int| slot_of(s, i, id), s.last()).drop_last()
        } else {
            s
        }
    }

    open spec fn slots_after_retain(s: Seq<Option<(K, V)>>, keep: Seq<bool>) -> Seq<Option<(K, V)>> {
        select(s, keep)
    }

    proof fn lemma_wf(&self) {
        Self::lemma_finite(self.entries@, self.indices@);
        let e = self.entries@;
        let ix = self.indices@;
        let s = self.raw();
        let m = self.view();
        assert forall|id: u64| #[trigger] m.contains_key(id) implies m[id].0.spec_id() == id by {
            assert(ix[id as int] is Some);
        }
        assert forall|id: u64| #[trigger] m.contains_key(id) implies
            exists|i: int| 0 <= i < s.len() && s[i] == Some(m[id]) by {
            assert(ix[id as int] is Some);
            let i = ix[id as int]->0 as int;
            assert(s[i] == Some(m[id]));
        }
        assert forall|i: int| 0 <= i < s.len() && (#[trigger] s[i]) is Some implies {
            let x = s[i]->0;
            m.contains_key(x.0.spec_id()) && m[x.0.spec_id()] == x
        } by {
            assert(s[i] == Some(e[i]));
        }
        assert forall|i: int, j: int|
            0 <= i < s.len() && 0 <= j < s.len() && (#[trigger] s[i]) is Some
                && (#[trigger] s[j]) is Some && s[i].unwrap().0.spec_id() == s[j].unwrap().0.spec_id()
            implies i == j by {
            assert(s[i] == Some(e[i]));
            assert(s[j] == Some(e[j]));
        }
    }

    fn new() -> (r: Self) {
        let r = DenseEntryTable { entries: Vec::new(), indices: Vec::new() };
        assert(r.view() =~= Map::<u64, (K, V)>::empty());
        r
    }

    fn with_capacity(capacity: usize) -> (r: Self) {
        let r = DenseEntryTable { entries: Vec::with_capacity(capacity), indices: Vec::new() };
        assert(r.view() =~= Map::<u64, (K, V)>::empty());
        r
    }

    fn cloned(&self) -> (r: Self) where V: Clone {
        let n = self.entries.len();
        let mut entries: Vec<(K, V)> = Vec::new();
        let mut i: usize = 0;
        while i < n
            invariant
                n == self.entries@.len(),
                i <= n,
                entries@.len() == i,
                forall|j: int| 0 <= j < i ==> (#[trigger] entries@[j]).0 == self.entries@[j].0 && cloned(
                    self.entries@[j].1,
                    entries@[j].1,
                ),
            decreases n - i,
        {
            let e = &self.entries[i];
            entries.push((e.0.clone_key(), e.1.clone()));
            i = i + 1;
        }
        let m = self.indices.len();
        let mut indices: Vec<Option<usize>> = Vec::new();
        let mut k: usize = 0;
        while k < m
            invariant
                m == self.indices@.len(),
                k <= m,
                indices@ == self.indices@.take(k as int),
            decreases m - k,
        {
            indices.push(self.indices[k]);
            k = k + 1;
            assert(indices@ =~= self.indices@.take(k as int));
        }
        assert(indices@ =~= self.indices@);
        let r = DenseEntryTable { entries, indices };
        proof {
            let a = self.entries@;
            let b = r.entries@;
            assert forall|j: int| 0 <= j < b.len() implies #[trigger] b[j].0.spec_id() == a[j].0.spec_id() by {}
            assert forall|j: int| 0 <= j < a.len() implies packed(a)[j] == Some(a[j]) && #[trigger] packed(b)[j] == Some(b[j]) by {}
            if self.wf() {
                assert(Self::dense_view(b, r.indices@).dom() =~= Self::dense_view(a, self.indices@).dom());
            }
        }
        r
    }

    fn len(&self) -> (r: usize) {
        self.entries.len()
    }

    fn is_empty(&self) -> (r: bool) {
        self.entries.len() == 0
    }

    fn max_id(&self) -> (r: Option<u64>) {
        let n = self.indices.len();
        if n == 0 {
            assert(self.view().dom() =~= Set::<u64>::empty());
            None
        } else {
            assert(self.view().contains_key((n - 1) as u64));
            Some((n - 1) as u64)
        }
    }

    fn get(&self, key: &K) -> (r: Option<&V>) {
        let id = key.id();
        if id < self.indices.len() as u64 {
            match self.indices[id as usize] {
                Some(i) => Some(&self.entries[i].1),
                None => None,
            }
        } else {
            None
        }
    }

    fn get_mut(&mut self, key: &K) -> (r: Option<&mut V>) {
        let id = key.id();
        if id >= self.indices.len() as u64 {
            return None;
        }
        match self.indices[id as usize] {
            Some(i) => {
                let ghost before = self.entries@;
                let e = &mut self.entries[i];
                let r = &mut e.1;
                proof {
                    let after = before.update(i as int, (before[i as int].0, *final(r)));
                    let ix = self.indices@;
                    Self::lemma_finite(before, ix);
                    assert(Self::linked(after, ix)) by {
                        assert forall|j: int| 0 <= j < after.len() implies
                            #[trigger] after[j].0.spec_id() == before[j].0.spec_id() by {}
                    }
                    assert(Self::dense_view(after, ix) =~= Self::dense_view(before, ix).insert(
                        id,
                        (Self::dense_view(before, ix)[id].0, *final(r)),
                    ));
                    assert(Self::dense_view(after, ix).dom() =~= Self::dense_view(before, ix).dom());
                    Self::lemma_slot_unique(before, ix, id);
                    assert(packed(after) =~= packed(before).update(i as int, Some((before[i as int].0, *final(r)))));
                }
                Some(r)
            },
            None => None,
        }
    }

    fn insert(&mut self, key: K, value: V) -> (r: Option<V>) {
        let id = key.id();
        if id < self.indices.len() as u64 {
            if let Some(i) = self.indices[id as usize] {
                let ghost before = self.entries@;
                let ghost ix = self.indices@;
                let ghost entry = (key, value);
                proof {
                    Self::lemma_finite(before, ix);
                }
                let mut e = (key, value);
                std::mem::swap(&mut self.entries[i], &mut e);
                proof {
                    let after = self.entries@;
                    assert(after == before.update(i as int, entry));
                    assert forall|j: int| 0 <= j < after.len() implies
                        #[trigger] after[j].0.spec_id() == before[j].0.spec_id() by {}
                    assert(Self::dense_view(after, ix) =~= Self::dense_view(before, ix).insert(id, entry));
                    assert(Self::dense_view(after, ix).dom() =~= Self::dense_view(before, ix).dom());
                    Self::lemma_slot_unique(before, ix, id);
                    let c = choose|j: int| slot_of(packed(before), j, id);
                    assert(slot_of(packed(before), c, id));
                    assert(packed(after) =~= packed(before).update(i as int, Some(entry)));
                }
                return Some(e.1);
            }
        }
        self.push_new(key, value);
        None
    }

    fn insert_vacant(&mut self, key: K, value: V) -> (r: &mut V) {
        self.push_new(key, value);
        let n = self.entries.len() - 1;
        let ghost before = self.entries@;
        let e = &mut self.entries[n];
        let r = &mut e.1;
        proof {
            let after = before.update(n as int, (key, *final(r)));
            let ix = self.indices@;
            Self::lemma_finite(before, ix);
            assert forall|j: int| 0 <= j < after.len() implies
                #[trigger] after[j].0.spec_id() == before[j].0.spec_id() by {}
            assert(Self::dense_view(after, ix).dom() =~= Self::dense_view(before, ix).dom());
            assert(Self::dense_view(after, ix) =~= Self::dense_view(before, ix).insert(key.spec_id(), (key, *final(r))));
        }
        r
    }

    fn swap_remove(&mut self, key: &K) -> (r: Option<V>) {
        let id = key.id();
        let ghost old_view = self.view();
        proof {
            Self::lemma_slot_unique(self.entries@, self.indices@, id);
        }
        if id >= self.indices.len() as u64 {
            assert(old_view.remove(id) =~= old_view);
            return None;
        }
        let i = match self.indices[id as usize] {
            Some(i) => i,
            None => {
                assert(old_view.remove(id) =~= old_view);
                return None;
            },
        };
        proof {
            Self::lemma_finite(self.entries@, self.indices@);
        }
        let ghost e0 = self.entries@;
        let ghost ix0 = self.indices@;
        self.indices.set(id as usize, None);
        let mut removed = self.entries.pop().unwrap();
        if i < self.entries.len() {
            std::mem::swap(&mut self.entries[i], &mut removed);
            let moved = self.entries[i].0.id();
            self.indices.set(moved as usize, Some(i));
        }
        proof {
            let e = self.entries@;
            let ix = self.indices@;
            let last = (e0.len() - 1) as int;
            assert(removed == e0[i as int]);
            assert forall|j: int| 0 <= j < e.len() implies
                #[trigger] e[j] == (if j == i { e0[last] } else { e0[j] }) by {}
            assert(Self::linked(e, ix)) by {
                assert forall|k: int| 0 <= k < ix.len() && (#[trigger] ix[k]) is Some implies {
                    let j = ix[k]->0 as int;
                    j < e.len() && e[j].0.spec_id() == k
                } by {
                    if k != id && k != e0[last].0.spec_id() {
                        assert(ix[k] == ix0[k]);
                        let j = ix0[k]->0 as int;
                        assert(e0[j].0.spec_id() == k);
                    }
                }
            }
            assert(Self::dense_view(e, ix) =~= old_view.remove(id)) by {
                assert forall|k: u64| #[trigger] old_view.remove(id).contains_key(k) implies
                    Self::dense_view(e, ix).contains_key(k) && Self::dense_view(e, ix)[k] == old_view.remove(id)[k] by {
                    let j = ix0[k as int]->0 as int;
                    assert(e0[j].0.spec_id() == k);
                }
            }
            Self::lemma_finite(e, ix);
            let c = choose|j: int| slot_of(packed(e0), j, id);
            assert(slot_of(packed(e0), c, id));
            assert(packed(e) =~= packed(e0).update(i as int, packed(e0).last()).drop_last());
        }
        self.trim();
        Some(removed.1)
    }

    fn retain<F: Fn(&K, &V) -> bool>(&mut self, pred: F) {
        let ghost old_view = self.view();
        let ghost e0 = self.entries@;
        let ghost ix0 = self.indices@;
        proof {
            Self::lemma_finite(e0, ix0);
        }
        let mut pending: Vec<(K, V)> = Vec::new();
        std::mem::swap(&mut pending, &mut self.entries);
        self.indices.clear();
        let n = pending.len();
        let mut reversed: Vec<(K, V)> = Vec::new();
        while pending.len() > 0
            invariant
                pending@ == e0.subrange(0, pending@.len() as int),
                reversed@.len() == n - pending@.len(),
                n == e0.len(),
                forall|j: int| 0 <= j < reversed@.len() ==> #[trigger] reversed@[j] == e0[n - 1 - j],
            decreases pending@.len(),
        {
            let e = pending.pop().unwrap();
            reversed.push(e);
        }
        assert(self.view() =~= Map::<u64, (K, V)>::empty());
        let ghost mut keep: Seq<bool> = Seq::empty();
        assert(packed(e0).take(0) =~= Seq::<Option<(K, V)>>::empty());
        assert(packed(self.entries@) =~= Seq::<Option<(K, V)>>::empty());
        while reversed.len() > 0
            invariant
                self.wf(),
                keep.len() == n - reversed@.len(),
                packed(self.entries@) == select(packed(e0).take(n - reversed@.len()), keep),
                forall|j: int| 0 <= j < keep.len() ==> pred.ensures((&e0[j].0, &e0[j].1), #[trigger] keep[j]),
                n == e0.len(),
                Self::linked(e0, ix0),
                ix0.len() <= usize::MAX,
                old_view == Self::dense_view(e0, ix0),
                reversed@.len() <= n,
                forall|j: int| 0 <= j < reversed@.len() ==> #[trigger] reversed@[j] == e0[n - 1 - j],
                forall|k: K, v: V| #[trigger] pred.requires((&k, &v)),
                self.view().dom().subset_of(old_view.dom()),
                forall|id: u64| #[trigger] old_view.contains_key(id) ==> {
                    let e = old_view[id];
                    let p = ix0[id as int]->0 as int;
                    if p < n - reversed@.len() {
                        if self.view().contains_key(id) {
                            self.view()[id] == e && pred.ensures((&e.0, &e.1), true)
                        } else {
                            pred.ensures((&e.0, &e.1), false)
                        }
                    } else {
                        !self.view().contains_key(id)
                    }
                },
            decreases reversed@.len(),
        {
            let ghost p = n - reversed@.len();
            let e = reversed.pop().unwrap();
            assert(e == e0[p]);
            let ghost id = e.0.spec_id();
            assert(old_view.contains_key(id) && ix0[id as int] == Some(p as usize));
            let ghost before = self.entries@;
            let ghost keep0 = keep;
            let b = pred(&e.0, &e.1);
            proof {
                keep = keep.push(b);
                let s = packed(e0);
                assert(s.take(p + 1).drop_last() =~= s.take(p));
                assert(s.take(p + 1).last() == Some(e0[p]));
                lemma_select_prefix(s.take(p), keep0, keep);
            }
            if b {
                self.push_new(e.0, e.1);
                assert(packed(self.entries@) =~= packed(before).push(Some(e)));
            }
        }
        proof {
            assert(packed(e0).take(n as int) =~= packed(e0));
            let s = packed(e0);
            assert forall|i: int| 0 <= i < keep.len() && (#[trigger] s[i]) is Some implies pred.ensures(
                (&s[i].unwrap().0, &s[i].unwrap().1),
                keep[i],
            ) by {
                assert(s[i] == Some(e0[i]));
            }
        }
    }

    fn clear(&mut self) {
        self.entries.clear();
        self.indices.clear();
        assert(self.view() =~= Map::<u64, (K, V)>::empty());
    }

    fn reserve(&mut self, additional: usize) {
        self.entries.reserve(additional);
    }

    fn into_entries(self) -> (r: Vec<(K, V)>) {
        proof {
            Self::lemma_live_packed(self.entries@);
        }
        self.entries
    }

    fn raw_len(&self) -> (r: usize) {
        self.entries.len()
    }

    fn raw_get_mut(&mut self, i: usize) -> (r: Option<(&K, &mut V)>) {
        let ghost before = self.entries@;
        let ghost ix = self.indices@;
        proof {
            Self::lemma_finite(before, ix);
        }
        let e = &mut self.entries[i];
        let r = (&e.0, &mut e.1);
        proof {
            let x = before[i as int];
            let after = before.update(i as int, (x.0, *final(r.1)));
            assert forall|j: int| 0 <= j < after.len() implies
                #[trigger] after[j].0.spec_id() == before[j].0.spec_id() by {}
            assert(Self::dense_view(after, ix).dom() =~= Self::dense_view(before, ix).dom());
            assert(Self::dense_view(after, ix) =~= Self::dense_view(before, ix).insert(x.0.spec_id(), (x.0, *final(r.1))));
            assert(packed(after) =~= packed(before).update(
                i as int,
                Some((x.0, *final(r.1))),
            ));
        }
        Some(r)
    }

    fn raw_get(&self, i: usize) -> (r: Option<(&K, &V)>) {
        let e = &self.entries[i];
        Some((&e.0, &e.1))
    }
}

} // verus!
