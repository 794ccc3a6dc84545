//! Laws relating the operations of an `IdMap`, stated over its view.
//!
//! Each operation's contract describes its effect on the view; these proofs
//! put those effects together.
use vstd::prelude::*;
use vstd::std_specs::cmp::PartialEqSpec;

use crate::integer_id::IntegerId;
use crate::map::{IdMap, insert_all, same_entries};
use crate::table::{EntryTable, keyed};

verus! {

/// One change to a map, as `insert` and `remove` make it.
pub enum MapOp<K, V> {
    /// `insert(key, value)`.
    Insert(K, V),
    /// `remove(key)`.
    Remove(K),
}

/// The view after one operation, as the contracts of `insert` and `remove` state it.
pub open spec fn apply_op<K: IntegerId, V>(m: Map<u64, (K, V)>, op: MapOp<K, V>) -> Map<u64, (K, V)> {
    match op {
        MapOp::Insert(k, v) => m.insert(k.spec_id(), (k, v)),
        MapOp::Remove(k) => m.remove(k.spec_id()),
    }
}

/// The view after a sequence of operations, in order.
pub open spec fn replay<K: IntegerId, V>(m: Map<u64, (K, V)>, ops: Seq<MapOp<K, V>>) -> Map<u64, (K, V)>
    decreases ops.len(),
{
    if ops.len() == 0 {
        m
    } else {
        apply_op(replay(m, ops.drop_last()), ops.last())
    }
}

/// After inserting pairs whose identifiers are all different, each key
/// finds the value it was inserted with.
pub proof fn lemma_insert_get_round_trip<K: IntegerId, V>(m: Map<u64, (K, V)>, s: Seq<(K, V)>)
    requires
        forall|i: int, j: int|
            0 <= i < s.len() && 0 <= j < s.len() && i != j ==> (#[trigger] s[i]).0.spec_id() != (#[trigger] s[j]).0.spec_id(),
    ensures
        forall|i: int| 0 <= i < s.len() ==> {
            let id = (#[trigger] s[i]).0.spec_id();
            insert_all(m, s).contains_key(id) && insert_all(m, s)[id] == s[i]
        },
    decreases s.len(),
{
    if s.len() > 0 {
        let t = s.drop_last();
        lemma_insert_get_round_trip(m, t);
        assert forall|i: int| 0 <= i < s.len() implies {
            let id = (#[trigger] s[i]).0.spec_id();
            insert_all(m, s).contains_key(id) && insert_all(m, s)[id] == s[i]
        } by {
            if i < s.len() - 1 {
                assert(t[i] == s[i]);
            }
        }
    }
}

/// Inserting a key a second time gives back the first value and leaves the
/// number of entries as the first insertion left it.
pub proof fn lemma_overwrite<K: IntegerId, V>(m: Map<u64, (K, V)>, key: K, first: V, second: V)
    requires
        m.dom().finite(),
    ensures
        ({
            let id = key.spec_id();
            let once = m.insert(id, (key, first));
            let twice = once.insert(id, (key, second));
            &&& once.contains_key(id)
            &&& once[id].1 == first
            &&& twice.len() == once.len()
            &&& twice[id].1 == second
        }),
{
    let id = key.spec_id();
    let once = m.insert(id, (key, first));
    assert(once.insert(id, (key, second)).dom() =~= once.dom());
}

/// After `remove(k)` the key is absent; the number of entries drops by one
/// if it was present and is unchanged otherwise.
pub proof fn lemma_remove<K: IntegerId, V>(m: Map<u64, (K, V)>, key: K)
    requires
        m.dom().finite(),
    ensures
        ({
            let id = key.spec_id();
            let after = m.remove(id);
            &&& !after.contains_key(id)
            &&& m.contains_key(id) ==> after.len() == m.len() - 1
            &&& !m.contains_key(id) ==> after == m
        }),
{
    let id = key.spec_id();
    if !m.contains_key(id) {
        assert(m.remove(id) =~= m);
    }
}

/// The number of entries grows by one exactly when an absent key is
/// inserted, and shrinks by one exactly when a present key is removed.
pub proof fn lemma_len_counts<K: IntegerId, V>(m: Map<u64, (K, V)>, op: MapOp<K, V>)
    requires
        m.dom().finite(),
    ensures
        apply_op(m, op).dom().finite(),
        apply_op(m, op).len() == match op {
            MapOp::Insert(k, _) => if m.contains_key(k.spec_id()) { m.len() } else { m.len() + 1 },
            MapOp::Remove(k) => if m.contains_key(k.spec_id()) { (m.len() - 1) as nat } else { m.len() },
        },
{
    match op {
        MapOp::Insert(k, v) => {
            if m.contains_key(k.spec_id()) {
                assert(m.insert(k.spec_id(), (k, v)).dom() =~= m.dom());
            }
        },
        MapOp::Remove(k) => {
            if !m.contains_key(k.spec_id()) {
                assert(m.remove(k.spec_id()) =~= m);
            }
        },
    }
}

/// The same operations replayed on two maps that hold the same entries,
/// whatever their tables, leave them holding the same entries; and two maps
/// holding the same entries compare equal wherever values equal themselves.
pub proof fn lemma_backend_equivalence<K: IntegerId, V: PartialEq, T1: EntryTable<K, V>, T2: EntryTable<K, V>>(
    a: IdMap<K, V, T1>,
    b: IdMap<K, V, T2>,
    ops: Seq<MapOp<K, V>>,
)
    requires
        a@ == b@,
        forall|v: V| #[trigger] v.eq_spec(&v),
    ensures
        replay(a@, ops) == replay(b@, ops),
        same_entries(replay(a@, ops), replay(b@, ops)),
{
}

/// The occupied slots, which iteration visits in order, hold exactly the
/// entries of the map, each in one slot only.
pub proof fn lemma_iteration_complete<K: IntegerId, V, T: EntryTable<K, V>>(m: IdMap<K, V, T>)
    requires
        m.wf(),
    ensures
        forall|id: u64| #[trigger] m@.contains_key(id) ==>
            exists|j: int| 0 <= j < m.slots().len() && m.slots()[j] == Some(m@[id]),
        forall|j: int| 0 <= j < m.slots().len() && (#[trigger] m.slots()[j]) is Some ==>
            m@.contains_key(m.slots()[j].unwrap().0.spec_id()) && m@[m.slots()[j].unwrap().0.spec_id()]
                == m.slots()[j].unwrap(),
        forall|i: int, j: int|
            0 <= i < m.slots().len() && 0 <= j < m.slots().len() && (#[trigger] m.slots()[i]) is Some
                && (#[trigger] m.slots()[j]) is Some && m.slots()[i] == m.slots()[j] ==> i == j,
        keyed(m@),
{
    m.lemma_wf();
}

} // verus!
