//! Maps from keys with small integer identifiers to values, stored in vectors.
//!
//! An `IdMap` is generic over the table that holds its entries: the dense
//! table keeps entries packed in insertion order and finds them through a
//! sparse index, while the direct table stores each entry at the index equal
//! to its identifier.
pub mod direct;
pub mod integer_id;
pub mod iter;
pub mod laws;
pub mod map;
pub mod ordered;
pub mod table;

pub use direct::{DirectEntryTable, DirectIdMap};
pub use integer_id::IntegerId;
pub use iter::{Iter, IterMut, Keys, Values, ValuesMut};
pub use map::{Entry, IdMap, OccupiedEntry, RawDebug, VacantEntry};
pub use ordered::{DenseEntryTable, OrderedIdMap};
pub use table::EntryTable;
