//! Iteration over the occupied slots of a table, skipping vacant ones.
use vstd::prelude::*;

use crate::integer_id::IntegerId;
use crate::table::EntryTable;

verus! {

/// The iteration engine shared by the iterators: it walks the table's slots
/// and hands out only the occupied ones.
pub struct SafeEntries<'a, K, V, I> {
    table: &'a I,
    pos: usize,
    marker: std::marker::PhantomData<(K, V)>,
}

impl<'a, K: IntegerId + 'a, V: 'a, I: EntryTable<K, V>> SafeEntries<'a, K, V, I> {
    /// The invariant: the table is well formed and the position within it.
    pub closed spec fn wf(&self) -> bool {
        self.table.wf() && self.pos <= self.table.raw().len()
    }

    /// The slots being walked.
    pub closed spec fn slots(&self) -> Seq<Option<(K, V)>> {
        self.table.raw()
    }

    /// The index of the next slot to look at.
    pub closed spec fn pos(&self) -> int {
        self.pos as int
    }

    /// Start walking `table` from its first slot.
    pub fn new(table: &'a I) -> (r: Self)
        requires
            table.wf(),
        ensures
            r.wf(),
            r.slots() == table.raw(),
            r.pos() == 0,
    {
        SafeEntries { table, pos: 0, marker: std::marker::PhantomData }
    }

    /// The upper bound on the number of entries left: the slots left.
    pub fn size_hint(&self) -> (r: (usize, Option<usize>))
        requires
            self.wf(),
        ensures
            r.0 == 0,
            r.1 == Some((self.slots().len() - self.pos()) as usize),
    {
        (0, Some(self.table.raw_len() - self.pos))
    }

    /// The next occupied slot, skipping vacant ones; `None` once all are walked.
    pub fn next(&mut self) -> (r: Option<(&'a K, &'a V)>)
        requires
            old(self).wf(),
        ensures
            final(self).wf(),
            final(self).slots() == old(self).slots(),
            stepped(old(self).slots(), old(self).pos(), final(self).pos(), deref_entry(r)),
    {
        let n = self.table.raw_len();
        while self.pos < n
            invariant
                self.wf(),
                n == self.slots().len(),
                self.slots() == old(self).slots(),
                old(self).pos() <= self.pos(),
                forall|j: int| old(self).pos() <= j < self.pos() ==> (#[trigger] self.slots()[j]) is None,
            decreases n - self.pos,
        {
            let i = self.pos;
            self.pos = self.pos + 1;
            if let Some(e) = self.table.raw_get(i) {
                return Some(e);
            }
        }
        None
    }
}

/// Walking `slots` from position `p` to `q` found `found`: the first occupied
/// slot at or after `p`, which is `q - 1`, or `None` when no slot from `p`
/// on is occupied and `q` is the end.
pub open spec fn stepped<K, V>(slots: Seq<Option<(K, V)>>, p: int, q: int, found: Option<(K, V)>) -> bool {
    &&& p <= q <= slots.len()
    &&& forall|j: int| p <= j < q - 1 ==> (#[trigger] slots[j]) is None
    &&& match found {
        Some(e) => p < q && slots[q - 1] == Some(e),
        None => q == slots.len() && (q == p || slots[q - 1] is None),
    }
}

/// The entry behind a pair of references.
pub open spec fn deref_entry<K, V>(r: Option<(&K, &V)>) -> Option<(K, V)> {
    match r {
        Some(e) => Some((*e.0, *e.1)),
        None => None,
    }
}

impl<'a, K, V, I> Clone for SafeEntries<'a, K, V, I> {
    fn clone(&self) -> (r: Self)
        ensures
            r == *self,
    {
        SafeEntries { table: self.table, pos: self.pos, marker: std::marker::PhantomData }
    }
}

impl<'a, K, V, I> Clone for Iter<'a, K, V, I> {
    fn clone(&self) -> (r: Self)
        ensures
            r == *self,
    {
        Iter(self.0.clone())
    }
}

impl<'a, K, V, I> Clone for Keys<'a, K, V, I> {
    fn clone(&self) -> (r: Self)
        ensures
            r == *self,
    {
        Keys(self.0.clone())
    }
}

impl<'a, K, V, I> Clone for Values<'a, K, V, I> {
    fn clone(&self) -> (r: Self)
        ensures
            r == *self,
    {
        Values(self.0.clone())
    }
}

/// The iteration engine of the mutable iterators: it walks the table's
/// slots, handing out the occupied ones with their values borrowed mutably.
pub struct SafeEntriesMut<'a, K, V, I> {
    /// The table being walked. It is public because the contracts must name
    /// the value it holds once the walk is over, which only a field can give.
    pub table: &'a mut I,
    /// The index of the next slot to look at.
    pub pos: usize,
    /// Ties the key and value types to the walk.
    pub marker: std::marker::PhantomData<(K, V)>,
}

impl<'a, K: IntegerId, V, I: EntryTable<K, V>> SafeEntriesMut<'a, K, V, I> {
    /// The invariant: the table is well formed and the position within it.
    pub open spec fn wf(&self) -> bool {
        (*self.table).wf() && self.pos <= (*self.table).raw().len()
    }

    /// The slots being walked, as they are now.
    pub open spec fn slots(&self) -> Seq<Option<(K, V)>> {
        (*self.table).raw()
    }

    /// Start walking `table` from its first slot.
    pub fn new(table: &'a mut I) -> (r: Self)
        requires
            old(table).wf(),
        ensures
            r.wf(),
            *r.table == *old(table),
            *final(r.table) == *final(table),
            r.pos == 0,
    {
        SafeEntriesMut { table, pos: 0, marker: std::marker::PhantomData }
    }

    /// Bounds on the number of entries left: at most the slots left.
    pub fn size_hint(&self) -> (r: (usize, Option<usize>))
        requires
            self.wf(),
        ensures
            r.0 == 0,
            r.1 == Some((self.slots().len() - self.pos) as usize),
    {
        (0, Some(self.table.raw_len() - self.pos))
    }

    /// The next occupied slot, skipping vacant ones; `None` once all are walked.
    pub fn next(&mut self) -> (r: Option<(&K, &mut V)>)
        requires
            old(self).wf(),
        ensures
            final(self).wf(),
            *final(final(self).table) == *final(old(self).table),
            ({
                let s = (*old(self).table).raw();
                let q = final(self).pos as int;
                &&& stepped(s, old(self).pos as int, q, if r is Some { Some(s[q - 1].unwrap()) } else { None })
                &&& match r {
                    Some(e) => {
                        let x = s[q - 1].unwrap();
                        &&& *e.0 == x.0
                        &&& *e.1 == x.1
                        &&& (*final(self).table).raw() == s.update(q - 1, Some((x.0, *final(e.1))))
                        &&& (*final(self).table).view() == (*old(self).table).view().insert(
                            x.0.spec_id(),
                            (x.0, *final(e.1)),
                        )
                    },
                    None => *final(self).table == *old(self).table,
                }
            }),
    {
        let n = self.table.raw_len();
        while self.pos < n
            invariant
                self.wf(),
                n == (*self.table).raw().len(),
                *self.table == *old(self).table,
                *final(self.table) == *final(old(self).table),
                old(self).pos <= self.pos,
                forall|j: int| old(self).pos <= j < self.pos ==> (#[trigger] (*self.table).raw()[j]) is None,
            decreases n - self.pos,
        {
            let i = self.pos;
            self.pos = self.pos + 1;
            if self.table.raw_get(i).is_some() {
                return self.table.raw_get_mut(i);
            }
        }
        None
    }
}

/// The entries of a map in iteration order.
pub struct Iter<'a, K, V, I>(SafeEntries<'a, K, V, I>);

impl<'a, K: IntegerId + 'a, V: 'a, I: EntryTable<K, V>> Iter<'a, K, V, I> {
    /// Start walking the entries of `table` from its first slot.
    pub fn new(table: &'a I) -> (r: Self)
        requires
            table.wf(),
        ensures
            r.wf(),
            r.slots() == table.raw(),
            r.pos() == 0,
    {
        Iter(SafeEntries::new(table))
    }

    /// The invariant of the underlying walk.
    pub closed spec fn wf(&self) -> bool {
        self.0.wf()
    }

    /// The slots being walked.
    pub closed spec fn slots(&self) -> Seq<Option<(K, V)>> {
        self.0.slots()
    }

    /// The index of the next slot to look at.
    pub closed spec fn pos(&self) -> int {
        self.0.pos()
    }

    /// Bounds on the number of entries left.
    pub fn size_hint(&self) -> (r: (usize, Option<usize>))
        requires
            self.wf(),
        ensures
            r.0 == 0,
            r.1 == Some((self.slots().len() - self.pos()) as usize),
    {
        self.0.size_hint()
    }

    /// The next entry.
    pub fn next(&mut self) -> (r: Option<(&'a K, &'a V)>)
        requires
            old(self).wf(),
        ensures
            final(self).wf(),
            final(self).slots() == old(self).slots(),
            stepped(old(self).slots(), old(self).pos(), final(self).pos(), deref_entry(r)),
    {
        self.0.next()
    }
}

/// The keys of a map in iteration order.
pub struct Keys<'a, K, V, I>(SafeEntries<'a, K, V, I>);

impl<'a, K: IntegerId + 'a, V: 'a, I: EntryTable<K, V>> Keys<'a, K, V, I> {
    /// Start walking the keys of `table` from its first slot.
    pub fn new(table: &'a I) -> (r: Self)
        requires
            table.wf(),
        ensures
            r.wf(),
            r.slots() == table.raw(),
            r.pos() == 0,
    {
        Keys(SafeEntries::new(table))
    }

    /// The invariant of the underlying walk.
    pub closed spec fn wf(&self) -> bool {
        self.0.wf()
    }

    /// The slots being walked.
    pub closed spec fn slots(&self) -> Seq<Option<(K, V)>> {
        self.0.slots()
    }

    /// The index of the next slot to look at.
    pub closed spec fn pos(&self) -> int {
        self.0.pos()
    }

    /// Bounds on the number of keys left.
    pub fn size_hint(&self) -> (r: (usize, Option<usize>))
        requires
            self.wf(),
        ensures
            r.0 == 0,
            r.1 == Some((self.slots().len() - self.pos()) as usize),
    {
        self.0.size_hint()
    }

    /// The next key.
    pub fn next(&mut self) -> (r: Option<&'a K>)
        requires
            old(self).wf(),
        ensures
            final(self).wf(),
            final(self).slots() == old(self).slots(),
            stepped(
                old(self).slots(),
                old(self).pos(),
                final(self).pos(),
                if r is Some { Some(old(self).slots()[final(self).pos() - 1].unwrap()) } else { None },
            ),
            r is Some ==> *r.unwrap() == old(self).slots()[final(self).pos() - 1].unwrap().0,
    {
        match self.0.next() {
            Some(e) => Some(e.0),
            None => None,
        }
    }
}

/// The values of a map in iteration order.
pub struct Values<'a, K, V, I>(SafeEntries<'a, K, V, I>);

impl<'a, K: IntegerId + 'a, V: 'a, I: EntryTable<K, V>> Values<'a, K, V, I> {
    /// Start walking the values of `table` from its first slot.
    pub fn new(table: &'a I) -> (r: Self)
        requires
            table.wf(),
        ensures
            r.wf(),
            r.slots() == table.raw(),
            r.pos() == 0,
    {
        Values(SafeEntries::new(table))
    }

    /// The invariant of the underlying walk.
    pub closed spec fn wf(&self) -> bool {
        self.0.wf()
    }

    /// The slots being walked.
    pub closed spec fn slots(&self) -> Seq<Option<(K, V)>> {
        self.0.slots()
    }

    /// The index of the next slot to look at.
    pub closed spec fn pos(&self) -> int {
        self.0.pos()
    }

    /// Bounds on the number of values left.
    pub fn size_hint(&self) -> (r: (usize, Option<usize>))
        requires
            self.wf(),
        ensures
            r.0 == 0,
            r.1 == Some((self.slots().len() - self.pos()) as usize),
    {
        self.0.size_hint()
    }

    /// The next value.
    pub fn next(&mut self) -> (r: Option<&'a V>)
        requires
            old(self).wf(),
        ensures
            final(self).wf(),
            final(self).slots() == old(self).slots(),
            stepped(
                old(self).slots(),
                old(self).pos(),
                final(self).pos(),
                if r is Some { Some(old(self).slots()[final(self).pos() - 1].unwrap()) } else { None },
            ),
            r is Some ==> *r.unwrap() == old(self).slots()[final(self).pos() - 1].unwrap().1,
    {
        match self.0.next() {
            Some(e) => Some(e.1),
            None => None,
        }
    }
}

/// The entries of a map in iteration order, with values borrowed mutably.
pub struct IterMut<'a, K, V, I>(pub SafeEntriesMut<'a, K, V, I>);

impl<'a, K: IntegerId, V, I: EntryTable<K, V>> IterMut<'a, K, V, I> {
    /// Bounds on the number of entries left.
    pub fn size_hint(&self) -> (r: (usize, Option<usize>))
        requires
            self.0.wf(),
        ensures
            r.0 == 0,
            r.1 == Some((self.0.slots().len() - self.0.pos) as usize),
    {
        self.0.size_hint()
    }

    /// The next entry, with its value borrowed mutably.
    pub fn next(&mut self) -> (r: Option<(&K, &mut V)>)
        requires
            old(self).0.wf(),
        ensures
            final(self).0.wf(),
            *final(final(self).0.table) == *final(old(self).0.table),
            ({
                let s = old(self).0.slots();
                let q = final(self).0.pos as int;
                &&& stepped(s, old(self).0.pos as int, q, if r is Some { Some(s[q - 1].unwrap()) } else { None })
                &&& match r {
                    Some(e) => {
                        let x = s[q - 1].unwrap();
                        &&& *e.0 == x.0
                        &&& *e.1 == x.1
                        &&& final(self).0.slots() == s.update(q - 1, Some((x.0, *final(e.1))))
                        &&& (*final(self).0.table).view() == (*old(self).0.table).view().insert(
                            x.0.spec_id(),
                            (x.0, *final(e.1)),
                        )
                    },
                    None => *final(self).0.table == *old(self).0.table,
                }
            }),
    {
        self.0.next()
    }
}

/// The values of a map in iteration order, borrowed mutably.
pub struct ValuesMut<'a, K, V, I>(pub SafeEntriesMut<'a, K, V, I>);

impl<'a, K: IntegerId, V, I: EntryTable<K, V>> ValuesMut<'a, K, V, I> {
    /// Bounds on the number of values left.
    pub fn size_hint(&self) -> (r: (usize, Option<usize>))
        requires
            self.0.wf(),
        ensures
            r.0 == 0,
            r.1 == Some((self.0.slots().len() - self.0.pos) as usize),
    {
        self.0.size_hint()
    }

    /// The next value, borrowed mutably.
    pub fn next(&mut self) -> (r: Option<&mut V>)
        requires
            old(self).0.wf(),
        ensures
            final(self).0.wf(),
            *final(final(self).0.table) == *final(old(self).0.table),
            ({
                let s = old(self).0.slots();
                let q = final(self).0.pos as int;
                &&& stepped(s, old(self).0.pos as int, q, if r is Some { Some(s[q - 1].unwrap()) } else { None })
                &&& match r {
                    Some(v) => {
                        let x = s[q - 1].unwrap();
                        &&& *v == x.1
                        &&& final(self).0.slots() == s.update(q - 1, Some((x.0, *final(v))))
                        &&& (*final(self).0.table).view() == (*old(self).0.table).view().insert(
                            x.0.spec_id(),
                            (x.0, *final(v)),
                        )
                    },
                    None => *final(self).0.table == *old(self).0.table,
                }
            }),
    {
        match self.0.next() {
            Some(e) => Some(e.1),
            None => None,
        }
    }
}

} // verus!
