//! The direct backend: the entry for identifier `i` sits in slot `i`.
use vstd::prelude::*;

use crate::integer_id::IntegerId;
use crate::map::IdMap;
use crate::table::{slots_cloned, lemma_ids_below, lemma_live_take_succ, live, slot_of, EntryTable, keyed, is_max_id, raw_matches};

verus! {

/// A map that stores each entry at the index of its identifier.
pub type DirectIdMap<K, V> = IdMap<K, V, DirectEntryTable<K, V>>;

/// `s` without its vacant slots at the end.
pub open spec fn trimmed<K, V>(s: Seq<Option<(K, V)>>) -> Seq<Option<(K, V)>>
    decreases s.len(),
{
    if s.len() > 0 && s.last() is None {
        trimmed(s.drop_last())
    } else {
        s
    }
}

/// Entries stored at the index equal to their identifier, with vacant
/// slots in between; memory grows with the largest identifier.
pub struct DirectEntryTable<K, V> {
    entries: Vec<Option<(K, V)>>,
    count: usize,
}

impl<K: IntegerId, V> DirectEntryTable<K, V> {
    /// The entries of a slot vector, by identifier.
    pub open spec fn slots_view(s: Seq<Option<(K, V)>>) -> Map<u64, (K, V)> {
        Map::new(|id: u64| (id as int) < s.len() && s[id as int] is Some, |id: u64| s[id as int]->0)
    }

    /// Each occupied slot holds a key whose identifier is the slot's index.
    pub open spec fn slots_keyed(s: Seq<Option<(K, V)>>) -> bool {
        forall|i: int| 0 <= i < s.len() && (#[trigger] s[i]) is Some ==> s[i].unwrap().0.spec_id() == i
    }

    /// The invariant, but for the last slot being occupied.
    pub closed spec fn wf_slots(&self) -> bool {
        &&& Self::slots_keyed(self.entries@)
        &&& self.entries@.len() <= usize::MAX
        &&& self.count == Self::slots_view(self.entries@).len()
    }

    proof fn lemma_finite(s: Seq<Option<(K, V)>>)
        requires
            s.len() <= usize::MAX,
        ensures
            Self::slots_view(s).dom().finite(),
            Self::slots_view(s).len() <= s.len(),
    {
        lemma_ids_below(Self::slots_view(s), s.len() as u64);
    }

    /// Drop vacant slots at the end, so that the last slot is occupied.
    fn trim(&mut self)
        requires
            old(self).wf_slots(),
        ensures
            final(self).wf(),
            final(self).view() == old(self).view(),
            final(self).raw() == trimmed(old(self).raw()),
    {
        loop
            invariant
                self.wf_slots(),
                self.view() == old(self).view(),
                trimmed(self.entries@) == trimmed(old(self).entries@),
            decreases self.entries@.len(),
        {
            let n = self.entries.len();
            if n == 0 || self.entries[n - 1].is_some() {
                return;
            }
            let ghost before = self.entries@;
            self.entries.pop();
            assert(self.entries@ =~= before.drop_last());
            assert(Self::slots_view(self.entries@) =~= Self::slots_view(before));
        }
    }
}

impl<K: IntegerId, V> EntryTable<K, V> for DirectEntryTable<K, V> {
    closed spec fn wf(&self) -> bool {
        &&& self.wf_slots()
        &&& (self.entries@.len() == 0 || self.entries@.last() is Some)
    }

    closed spec fn view(&self) -> Map<u64, (K, V)> {
        Self::slots_view(self.entries@)
    }

    closed spec fn raw(&self) -> Seq<Option<(K, V)>> {
        self.entries@
    }

    open spec fn layout(s: Seq<Option<(K, V)>>) -> bool {
        Self::slots_keyed(s) && (s.len() == 0 || s.last() is Some)
    }

    open spec fn slots_after_insert(s: Seq<Option<(K, V)>>, key: K, value: V) -> Seq<Option<(K, V)>> {
        let id = key.spec_id() as int;
        Seq::new(
            if id < s.len() { s.len() } else { (id + 1) as nat },
            |j: int| if j == id { Some((key, value)) } else if j < s.len() { s[j] } else { None },
        )
    }

    open spec fn slots_after_remove(s: Seq<Option<(K, V)>>, id: u64) -> Seq<Option<(K, V)>> {
        if (id as int) < s.len() {
            trimmed(s.update(id as int, None))
        } else {
            s
        }
    }

    open spec fn slots_after_retain(s: Seq<Option<(K, V)>>, keep: Seq<bool>) -> Seq<Option<(K, V)>> {
        trimmed(Seq::new(s.len(), |i: int| if keep[i] { s[i] } else { None }))
    }

    proof fn lemma_wf(&self) {
        Self::lemma_finite(self.entries@);
        let s = self.entries@;
        let m = self.view();
        assert forall|id: u64| #[trigger] m.contains_key(id) implies
            exists|i: int| 0 <= i < s.len() && s[i] == Some(m[id]) by {
            assert(s[id as int] == Some(m[id]));
        }
        assert forall|i: int| 0 <= i < s.len() && (#[trigger] s[i]) is Some implies {
            let e = s[i]->0;
            m.contains_key(e.0.spec_id()) && m[e.0.spec_id()] == e
        } by {
            assert(s[i].unwrap().0.spec_id() == i);
        }
    }

    fn new() -> (r: Self) {
        let r = DirectEntryTable { entries: Vec::new(), count: 0 };
        assert(r.view() =~= Map::<u64, (K, V)>::empty());
        r
    }

    fn with_capacity(capacity: usize) -> (r: Self) {
        let r = DirectEntryTable { entries: Vec::with_capacity(capacity), count: 0 };
        assert(r.view() =~= Map::<u64, (K, V)>::empty());
        r
    }

    fn cloned(&self) -> (r: Self) where V: Clone {
        let n = self.entries.len();
        let mut out: Vec<Option<(K, V)>> = Vec::new();
        let mut i: usize = 0;
        while i < n
            invariant
                n == self.entries@.len(),
                i <= n,
                out@.len() == i,
                slots_cloned(self.entries@.take(i as int), out@),
            decreases n - i,
        {
            let slot = match &self.entries[i] {
                Some(e) => Some((e.0.clone_key(), e.1.clone())),
                None => None,
            };
            out.push(slot);
            i = i + 1;
        }
        assert(self.entries@.take(n as int) =~= self.entries@);
        let r = DirectEntryTable { entries: out, count: self.count };
        proof {
            if self.wf() {
                let a = self.entries@;
                let b = r.entries@;
                assert(Self::slots_view(b).dom() =~= Self::slots_view(a).dom());
                Self::lemma_finite(b);
                assert(a.len() == 0 || b.last() is Some);
            }
        }
        r
    }

    fn len(&self) -> (r: usize) {
        self.count
    }

    fn is_empty(&self) -> (r: bool) {
        self.count == 0
    }

    fn max_id(&self) -> (r: Option<u64>) {
        let n = self.entries.len();
        if n == 0 {
            assert(self.view().dom() =~= Set::<u64>::empty());
            None
        } else {
            assert(self.view().contains_key((n - 1) as u64));
            Some((n - 1) as u64)
        }
    }

    fn get(&self, key: &K) -> (r: Option<&V>) {
        let id = key.id();
        if id < self.entries.len() as u64 {
            match &self.entries[id as usize] {
                Some(e) => Some(&e.1),
                None => None,
            }
        } else {
            None
        }
    }

    fn get_mut(&mut self, key: &K) -> (r: Option<&mut V>) {
        let id = key.id();
        if id >= self.entries.len() as u64 || self.entries[id as usize].is_none() {
            return None;
        }
        let ghost before = self.entries@;
        let slot = &mut self.entries[id as usize];
        match slot {
            Some(e) => {
                let r = &mut e.1;
                proof {
                    let after = before.update(id as int, Some((before[id as int].unwrap().0, *final(r))));
                    Self::lemma_finite(before);
                    Self::lemma_finite(after);
                    assert(Self::slots_view(after).dom() =~= Self::slots_view(before).dom());
                    assert(Self::slots_view(after) =~= Self::slots_view(before).insert(
                        id,
                        (Self::slots_view(before)[id].0, *final(r)),
                    ));
                    assert forall|j: int| slot_of(before, j, id) implies j == id by {}
                }
                Some(r)
            },
            None => None,
        }
    }

    fn insert(&mut self, key: K, value: V) -> (r: Option<V>) {
        let id = key.id();
        let idx = id as usize;
        let ghost old_view = self.view();
        let ghost entry = (key, value);
        let ghost s0 = self.entries@;
        if idx < self.entries.len() {
            proof {
                Self::lemma_finite(self.entries@);
            }
            let mut slot = Some((key, value));
            std::mem::swap(&mut self.entries[idx], &mut slot);
            assert(self.view() =~= old_view.insert(id, entry));
            assert(self.entries@ =~= Self::slots_after_insert(s0, entry.0, entry.1));
            proof {
                Self::lemma_finite(self.entries@);
            }
            match slot {
                Some(e) => Some(e.1),
                None => {
                    self.count = self.count + 1;
                    None
                },
            }
        } else {
            while self.entries.len() < idx
                invariant
                    idx <= usize::MAX - 1,
                    self.entries@.len() <= idx,
                    self.entries@.len() >= s0.len(),
                    forall|j: int| 0 <= j < self.entries@.len() ==> #[trigger] self.entries@[j] == (if j < s0.len() { s0[j] } else { None }),
                    self.count == old_view.len(),
                    !old_view.contains_key(id),
                    Self::slots_keyed(self.entries@),
                    Self::slots_view(self.entries@) == old_view,
                decreases idx - self.entries@.len(),
            {
                let ghost before = self.entries@;
                self.entries.push(None);
                assert(Self::slots_view(self.entries@) =~= Self::slots_view(before));
            }
            proof {
                Self::lemma_finite(self.entries@);
            }
            self.entries.push(Some((key, value)));
            assert(self.view() =~= old_view.insert(id, entry));
            assert(self.entries@ =~= Self::slots_after_insert(s0, entry.0, entry.1));
            let n = self.entries.len();
            proof {
                assert(n == self.entries@.len());
                Self::lemma_finite(self.entries@);
            }
            self.count = self.count + 1;
            None
        }
    }

    fn insert_vacant(&mut self, key: K, value: V) -> (r: &mut V) {
        let id = key.id();
        let idx = id as usize;
        let ghost old_view = self.view();
        let ghost s0 = self.entries@;
        while self.entries.len() <= idx
            invariant
                idx <= usize::MAX - 1,
                self.entries@.len() >= s0.len(),
                forall|j: int| 0 <= j < self.entries@.len() ==> #[trigger] self.entries@[j] == (if j < s0.len() { s0[j] } else { None }),
                self.count == old_view.len(),
                self.entries@.len() <= idx + 1 || self.entries@.last() is Some,
                Self::slots_keyed(self.entries@),
                Self::slots_view(self.entries@) == old_view,
            decreases (idx + 1) - self.entries@.len(),
        {
            let ghost before = self.entries@;
            self.entries.push(None);
            assert(Self::slots_view(self.entries@) =~= Self::slots_view(before));
        }
        let n = self.entries.len();
        proof {
            assert(n == self.entries@.len());
            let upd = self.entries@.update(idx as int, Some((key, value)));
            Self::lemma_finite(self.entries@);
            Self::lemma_finite(upd);
            assert(Self::slots_view(upd) =~= old_view.insert(id, (key, value)));
            assert(old_view.insert(id, (key, value)).dom() =~= old_view.dom().insert(id));
        }
        self.count = self.count + 1;
        let ghost before = self.entries@;
        let slot = &mut self.entries[idx];
        let e = slot.insert((key, value));
        let r = &mut e.1;
        proof {
            let after = before.update(idx as int, Some((key, *final(r))));
            assert(Self::slots_view(after) =~= old_view.insert(id, (key, *final(r))));
            assert(after =~= Self::slots_after_insert(s0, key, *final(r)));
            Self::lemma_finite(after);
        }
        r
    }

    fn swap_remove(&mut self, key: &K) -> (r: Option<V>) {
        let id = key.id();
        let ghost old_view = self.view();
        if id < self.entries.len() as u64 {
            proof {
                Self::lemma_finite(self.entries@);
            }
            let mut slot = None;
            std::mem::swap(&mut self.entries[id as usize], &mut slot);
            assert(self.view() =~= old_view.remove(id));
            match slot {
                Some(e) => {
                    self.count = self.count - 1;
                    self.trim();
                    Some(e.1)
                },
                None => {
                    self.trim();
                    None
                },
            }
        } else {
            assert(self.view() =~= old_view.remove(id));
            None
        }
    }

    fn retain<F: Fn(&K, &V) -> bool>(&mut self, pred: F) {
        let ghost old_view = self.view();
        let ghost s0 = self.entries@;
        let ghost mut flags: Seq<bool> = Seq::empty();
        let n = self.entries.len();
        let mut i: usize = 0;
        while i < n
            invariant
                n == self.entries@.len(),
                n == s0.len(),
                i <= n,
                self.wf_slots(),
                flags.len() == i,
                forall|j: int| 0 <= j < i ==> #[trigger] self.entries@[j] == (if flags[j] { s0[j] } else { None }),
                forall|j: int| i <= j < n ==> #[trigger] self.entries@[j] == s0[j],
                forall|j: int| 0 <= j < i && (#[trigger] s0[j]) is Some ==> pred.ensures(
                    (&s0[j].unwrap().0, &s0[j].unwrap().1),
                    flags[j],
                ),
                forall|k: K, v: V| #[trigger] pred.requires((&k, &v)),
                self.view().dom().subset_of(old_view.dom()),
                forall|id: u64| #[trigger] old_view.contains_key(id) ==> {
                    let e = old_view[id];
                    if (id as int) < i {
                        if self.view().contains_key(id) {
                            self.view()[id] == e && pred.ensures((&e.0, &e.1), true)
                        } else {
                            pred.ensures((&e.0, &e.1), false)
                        }
                    } else {
                        self.view().contains_key(id) && self.view()[id] == e
                    }
                },
            decreases n - i,
        {
            proof {
                Self::lemma_finite(self.entries@);
            }
            let keep = match &self.entries[i] {
                Some(e) => pred(&e.0, &e.1),
                None => true,
            };
            proof {
                flags = flags.push(keep);
            }
            if !keep {
                let ghost before = self.view();
                self.entries.set(i, None);
                assert(self.view() =~= before.remove(i as u64));
                self.count = self.count - 1;
            }
            i = i + 1;
        }
        assert(self.entries@ =~= Seq::new(s0.len(), |j: int| if flags[j] { s0[j] } else { None }));
        self.trim();
    }

    fn clear(&mut self) {
        self.entries.clear();
        self.count = 0;
        assert(self.view() =~= Map::<u64, (K, V)>::empty());
    }

    fn reserve(&mut self, additional: usize) {
        self.entries.reserve(additional);
    }

    fn into_entries(self) -> (r: Vec<(K, V)>) {
        let mut slots = self.entries;
        let ghost s = slots@;
        let n = slots.len();
        let mut out: Vec<(K, V)> = Vec::new();
        let mut i: usize = 0;
        assert(s.take(0) =~= Seq::<Option<(K, V)>>::empty());
        while i < n
            invariant
                n == s.len(),
                slots@.len() == n,
                i <= n,
                forall|j: int| i <= j < n ==> #[trigger] slots@[j] == s[j],
                out@ == live(s.take(i as int)),
            decreases n - i,
        {
            proof {
                lemma_live_take_succ(s, i as int);
            }
            let mut slot = None;
            std::mem::swap(&mut slots[i], &mut slot);
            if let Some(e) = slot {
                out.push(e);
            }
            i = i + 1;
        }
        assert(s.take(n as int) =~= s);
        out
    }

    fn raw_len(&self) -> (r: usize) {
        self.entries.len()
    }

    fn raw_get_mut(&mut self, i: usize) -> (r: Option<(&K, &mut V)>) {
        if self.entries[i].is_none() {
            return None;
        }
        let ghost before = self.entries@;
        proof {
            Self::lemma_finite(before);
        }
        let slot = &mut self.entries[i];
        match slot {
            Some(e) => {
                let r = (&e.0, &mut e.1);
                proof {
                    let x = before[i as int].unwrap();
                    let after = before.update(i as int, Some((x.0, *final(r.1))));
                    Self::lemma_finite(after);
                    assert(Self::slots_view(after).dom() =~= Self::slots_view(before).dom());
                    assert(Self::slots_view(after) =~= Self::slots_view(before).insert(x.0.spec_id(), (x.0, *final(r.1))));
                }
                Some(r)
            },
            None => None,
        }
    }

    fn raw_get(&self, i: usize) -> (r: Option<(&K, &V)>) {
        match &self.entries[i] {
            Some(e) => Some((&e.0, &e.1)),
            None => None,
        }
    }
}

} // verus!
