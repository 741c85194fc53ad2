//! The capability set every storage engine exposes.

use vstd::prelude::*;
use crate::error::{Error, ErrorKind};
use crate::store::KvStore;

verus! {

/// A key-value storage engine: durable `set`, point `get`, `remove`.
///
/// `model` is the engine's logical contents and `inv` its internal
/// consistency; each operation says how it moves the model. An engine may
/// fail — a failed operation leaves the model as it was — but a remove of
/// an absent key is always refused with `NotFound` before anything is
/// written.
pub trait KvsEngine: Sized {
    /// The engine's logical contents.
    spec fn model(&self) -> Map<Seq<char>, Seq<char>>;

    /// The engine's internal consistency, preserved by every operation.
    spec fn inv(&self) -> bool;

    /// Bind `key` to `value`.
    fn set(&mut self, key: String, value: String) -> (r: Result<(), Error>)
        requires
            old(self).inv(),
        ensures
            final(self).inv(),
            r is Ok ==> final(self).model() == old(self).model().insert(key@, value@),
            r is Err ==> final(self).model() == old(self).model(),
    ;

    /// Read the value bound to `key`, if any.
    fn get(&self, key: String) -> (r: Result<Option<String>, Error>)
        requires
            self.inv(),
        ensures
            match r {
                Ok(Some(v)) => self.model().dom().contains(key@) && v@ == self.model()[key@],
                Ok(None) => !self.model().dom().contains(key@),
                Err(_) => true,
            },
    ;

    /// Erase `key`; an absent key is refused with `NotFound`.
    fn remove(&mut self, key: String) -> (r: Result<(), Error>)
        requires
            old(self).inv(),
        ensures
            final(self).inv(),
            r is Ok ==> old(self).model().dom().contains(key@) && final(self).model() == old(
                self,
            ).model().remove(key@),
            r is Err ==> final(self).model() == old(self).model(),
            !old(self).model().dom().contains(key@) ==> (r matches Err(e) && e.kind
                == ErrorKind::NotFound),
    ;
}

impl KvsEngine for KvStore {
    open spec fn model(&self) -> Map<Seq<char>, Seq<char>> {
        self@
    }

    open spec fn inv(&self) -> bool {
        self.wf()
    }

    fn set(&mut self, key: String, value: String) -> (r: Result<(), Error>)
        ensures
            r is Ok,
    {
        KvStore::set(self, key, value)
    }

    fn get(&self, key: String) -> (r: Result<Option<String>, Error>)
        ensures
            r is Ok,
    {
        KvStore::get(self, key)
    }

    fn remove(&mut self, key: String) -> (r: Result<(), Error>)
        ensures
            old(self).model().dom().contains(key@) ==> r is Ok,
    {
        KvStore::remove(self, key)
    }
}

} // verus!
