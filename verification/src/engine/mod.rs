//! The storage-engine capability contract and the engines that honor it.

use vstd::prelude::*;

use crate::err::KvsError;

pub mod kv;
pub mod sled_engine;

verus! {

/// The capability contract every storage engine offers: `set`, `get` and
/// `remove` over owned strings, described against an abstract key/value
/// mapping. A successful mutation is durable by the time it returns.
pub trait KvsEngine: Sized {
    /// The logical key/value mapping the engine currently holds.
    spec fn kv_model(&self) -> Map<Seq<char>, Seq<char>>;

    /// The engine's internal well-formedness.
    spec fn kv_inv(&self) -> bool;

    /// Set the value of `key` to `value`, superseding any earlier value.
    fn set(&mut self, key: String, value: String) -> (r: Result<(), KvsError>)
        requires
            old(self).kv_inv(),
        ensures
            final(self).kv_inv(),
            r is Ok ==> final(self).kv_model() == old(self).kv_model().insert(key@, value@),
    ;

    /// Look `key` up; an absent key is `None`, not an error.
    fn get(&mut self, key: String) -> (r: Result<Option<String>, KvsError>)
        requires
            old(self).kv_inv(),
        ensures
            final(self).kv_inv(),
            final(self).kv_model() == old(self).kv_model(),
            r matches Ok(o) ==> (match o {
                Some(v) => old(self).kv_model().dom().contains(key@) && v@ == old(
                    self,
                ).kv_model()[key@],
                None => !old(self).kv_model().dom().contains(key@),
            }),
    ;

    /// Delete `key`; removing an absent key is a `KeyNotFound` error.
    fn remove(&mut self, key: String) -> (r: Result<(), KvsError>)
        requires
            old(self).kv_inv(),
        ensures
            final(self).kv_inv(),
            r is Ok ==> final(self).kv_model() == old(self).kv_model().remove(key@),
            (r matches Err(e) && e matches KvsError::KeyNotFound) ==> !old(
                self,
            ).kv_model().dom().contains(key@) && final(self).kv_model() == old(self).kv_model(),
    ;
}

} // verus!
