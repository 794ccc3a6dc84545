//! Conversion between a key type and the integer identifier that locates it.
use vstd::prelude::*;

verus! {

/// A key type that can be turned into an integer identifier.
///
/// The identifier decides where an entry is stored: two keys with the same
/// identifier are the same entry.
pub trait IntegerId: Sized {
    /// The identifier of this key, as a mathematical value.
    spec fn spec_id(&self) -> u64;

    /// The identifier of this key.
    fn id(&self) -> (r: u64)
        ensures
            r == self.spec_id(),
    ;

    /// A copy of this key, with the same identifier.
    fn clone_key(&self) -> (r: Self)
        ensures
            r == *self,
    ;
}

impl IntegerId for u64 {
    open spec fn spec_id(&self) -> u64 {
        *self
    }

    fn id(&self) -> (r: u64) {
        *self
    }

    fn clone_key(&self) -> (r: Self) {
        *self
    }
}

impl IntegerId for u32 {
    open spec fn spec_id(&self) -> u64 {
        *self as u64
    }

    fn id(&self) -> (r: u64) {
        *self as u64
    }

    fn clone_key(&self) -> (r: Self) {
        *self
    }
}

impl IntegerId for u16 {
    open spec fn spec_id(&self) -> u64 {
        *self as u64
    }

    fn id(&self) -> (r: u64) {
        *self as u64
    }

    fn clone_key(&self) -> (r: Self) {
        *self
    }
}

impl IntegerId for u8 {
    open spec fn spec_id(&self) -> u64 {
        *self as u64
    }

    fn id(&self) -> (r: u64) {
        *self as u64
    }

    fn clone_key(&self) -> (r: Self) {
        *self
    }
}

impl IntegerId for usize {
    open spec fn spec_id(&self) -> u64 {
        *self as u64
    }

    fn id(&self) -> (r: u64) {
        *self as u64
    }

    fn clone_key(&self) -> (r: Self) {
        *self
    }
}

} // verus!
