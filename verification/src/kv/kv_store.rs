//! The facade of the store: get, set and remove, passed through to a storage
//! backend.
use vstd::prelude::*;
use super::entry::spec_reports;
use super::errors::XKVError;
use super::log::recovered;
use super::storage::{
    spec_get, spec_remove, spec_set, spec_text, BitcaskStorage, Storage, COMPACTION_THRESHOLD,
};

verus! {

/// A key-value store in front of a storage backend. The backend can be any
/// that implements [`Storage`]; [`KVStore::open`] takes the Bitcask-style
/// engine.
pub struct KVStore<S: Storage = BitcaskStorage> {
    storage: S,
}

impl KVStore<BitcaskStorage> {
    /// Opens a store on the image of its data file; an empty image is a new
    /// store. The store holds what a replay of the log recovers; the engine
    /// behind it has counted no stale byte yet and compacts at the default
    /// threshold. Where the log is corrupt, the error says how, and no store
    /// comes back.
    pub fn open(data: Vec<u8>) -> (r: Result<KVStore<BitcaskStorage>, XKVError>)
        ensures
            match recovered(data@) {
                Ok(store) => {
                    &&& r matches Ok(kv)
                    &&& kv.wf()
                    &&& kv@ == store
                    &&& kv.spec_storage().log_view() == data@
                    &&& kv.spec_storage().stale_bytes() == 0
                    &&& kv.spec_storage().spec_threshold() == COMPACTION_THRESHOLD
                    &&& kv.spec_storage().read_offset() == data@.len()
                },
                Err(d) => r matches Err(e) && spec_reports(e, d),
            },
    {
        match BitcaskStorage::open(data) {
            Ok(storage) => Ok(KVStore { storage }),
            Err(e) => Err(e),
        }
    }
}

impl<S: Storage> KVStore<S> {
    /// The backend.
    pub closed spec fn spec_storage(&self) -> S {
        self.storage
    }

    /// The invariant of the store: that of its backend.
    pub open spec fn wf(&self) -> bool {
        self.spec_storage().inv()
    }

    /// What the store holds: each live key with its value.
    pub open spec fn view(&self) -> Map<Seq<char>, Seq<char>> {
        self.spec_storage().store()
    }

    /// Whether the backend fails in no other way than by `KeyNotFound`.
    pub open spec fn reliable(&self) -> bool {
        self.spec_storage().reliable()
    }

    /// A store in front of `storage`.
    pub fn new(storage: S) -> (kv: Self)
        ensures
            kv.spec_storage() == storage,
    {
        KVStore { storage }
    }

    /// The backend, for what the facade does not pass through.
    pub fn storage(&self) -> (storage: &S)
        ensures
            *storage == self.spec_storage(),
    {
        &self.storage
    }

    /// The value of `key`, or `None` where the key is not live, which is no
    /// error. The store is left as it was.
    pub fn get(&mut self, key: String) -> (r: Result<Option<String>, XKVError>)
        requires
            old(self).wf(),
        ensures
            final(self).wf(),
            final(self).reliable() == old(self).reliable(),
            final(self)@ == old(self)@,
            old(self).reliable() ==> r is Ok,
            r matches Ok(found) ==> spec_text(found) == spec_get(old(self)@, key@),
    {
        self.storage.get(key)
    }

    /// Sets `val` for `key`. Where an error comes back, the value may have
    /// been set all the same.
    pub fn set(&mut self, key: String, val: String) -> (r: Result<(), XKVError>)
        requires
            old(self).wf(),
        ensures
            final(self).wf(),
            final(self).reliable() == old(self).reliable(),
            old(self).reliable() ==> r is Ok,
            r is Ok ==> final(self)@ == spec_set(old(self)@, key@, val@),
            r is Err ==> final(self)@ == old(self)@ || final(self)@ == spec_set(
                old(self)@,
                key@,
                val@,
            ),
    {
        self.storage.set(key, val)
    }

    /// Removes `key`. A key that is not live is not removed: the answer is
    /// `KeyNotFound`, and the store is left as it was.
    pub fn remove(&mut self, key: String) -> (r: Result<(), XKVError>)
        requires
            old(self).wf(),
        ensures
            final(self).wf(),
            final(self).reliable() == old(self).reliable(),
            !old(self)@.contains_key(key@) ==> (r matches Err(e) && e is KeyNotFound),
            old(self).reliable() && old(self)@.contains_key(key@) ==> r is Ok,
            r is Ok ==> final(self)@ == spec_remove(old(self)@, key@),
            (r matches Err(e) && e is KeyNotFound) ==> !old(self)@.contains_key(key@)
                && final(self)@ == old(self)@,
            r is Err ==> final(self)@ == old(self)@ || final(self)@ == spec_remove(
                old(self)@,
                key@,
            ),
    {
        self.storage.remove(key)
    }
}

} // verus!
