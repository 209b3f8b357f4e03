use vstd::prelude::*;

use crate::error::KvsError;

verus! {

/// The capability interface of a key-value store. Callers depend only on
/// this interface; the durable engine and the plain in-memory store
/// implement it independently. The visible behaviour of an implementation
/// is its `state` mapping; `inv` is its validity invariant, and `can_set` /
/// `can_remove` say when it has room to accept a mutation.
pub trait Store: Sized {
    /// Validity invariant of the store.
    spec fn inv(&self) -> bool;

    /// The visible mapping from keys to values.
    spec fn state(&self) -> Map<Seq<u8>, Seq<u8>>;

    /// Whether the store can accept a write of `value` under `key`.
    spec fn can_set(&self, key: Seq<u8>, value: Seq<u8>) -> bool;

    /// Whether the store can accept a delete of `key`.
    spec fn can_remove(&self, key: Seq<u8>) -> bool;

    /// Sets the value of `key` to `value`. If the key already exists, the
    /// previous value is overwritten.
    fn set(&mut self, key: &[u8], value: &[u8]) -> (r: Result<(), KvsError>)
        requires
            old(self).inv(),
            old(self).can_set(key@, value@),
        ensures
            final(self).inv(),
            r is Ok,
            final(self).state() == old(self).state().insert(key@, value@),
    ;

    /// Gets the value stored for `key`, or nothing if the key does not
    /// exist or was deleted.
    fn get(&self, key: &[u8]) -> (r: Result<Option<&[u8]>, KvsError>)
        requires
            self.inv(),
        ensures
            match r {
                Ok(Some(v)) => self.state().contains_key(key@) && v@ == self.state()[key@],
                Ok(None) => !self.state().contains_key(key@),
                Err(_) => false,
            },
    ;

    /// Removes `key`. Removing an absent key succeeds and leaves the key
    /// absent.
    fn remove(&mut self, key: &[u8]) -> (r: Result<(), KvsError>)
        requires
            old(self).inv(),
            old(self).can_remove(key@),
        ensures
            final(self).inv(),
            r is Ok,
            final(self).state() == old(self).state().remove(key@),
    ;
}

} // verus!
