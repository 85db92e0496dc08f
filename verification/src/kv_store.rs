//! The line server's store: the Robin Hood buckets of `KeyStore`, grown before
//! a key comes in rather than after.
use vstd::prelude::*;

use crate::key_store::{DefaultKeyHasher, Entry, KeyHasher, KeyStore, START_CAPACITY};
use crate::util::Bytes;

verus! {

/// A hash map from byte keys to values. It keeps its entries as `KeyStore`
/// does; it differs in when it grows: a `put` first doubles the buckets if the
/// load has already reached three quarters, so the store may sit at exactly
/// that load between calls.
pub struct KvStore<V, S = DefaultKeyHasher> {
    store: KeyStore<V, S>,
}

impl<V, S: KeyHasher> View for KvStore<V, S> {
    type V = Map<Seq<u8>, V>;

    closed spec fn view(&self) -> Map<Seq<u8>, V> {
        self.store@
    }
}

impl<V, S: KeyHasher> KvStore<V, S> {
    /// The buckets' invariant, and a load of at most three quarters.
    pub closed spec fn wf(&self) -> bool {
        self.store.wf()
    }

    pub closed spec fn spec_capacity(&self) -> nat {
        self.store.spec_capacity()
    }

    pub closed spec fn spec_bucket(&self, i: int) -> Option<Entry<V>> {
        self.store.spec_bucket(i)
    }

    /// An empty store with `START_CAPACITY` buckets that hashes keys with `hasher`.
    pub fn with_hasher(hasher: S) -> (r: Self)
        ensures
            r.wf(),
            r@ == Map::<Seq<u8>, V>::empty(),
            r.spec_capacity() == START_CAPACITY,
    {
        KvStore { store: KeyStore::with_hasher(hasher) }
    }

    /// Number of keys in the store.
    pub fn len(&self) -> (n: usize)
        requires
            self.wf(),
        ensures
            n == self@.len(),
    {
        self.store.len()
    }

    pub fn is_empty(&self) -> (b: bool)
        requires
            self.wf(),
        ensures
            b == (self@.len() == 0),
    {
        self.store.is_empty()
    }

    /// Number of buckets.
    pub fn capacity(&self) -> (n: usize)
        ensures
            n == self.spec_capacity(),
    {
        self.store.capacity()
    }

    /// The entry in bucket `index`, if that bucket is occupied.
    pub fn bucket(&self, index: usize) -> (r: Option<&Entry<V>>)
        requires
            index < self.spec_capacity(),
        ensures
            r is Some <==> self.spec_bucket(index as int) is Some,
            r is Some ==> *(r->0) == self.spec_bucket(index as int)->0,
    {
        self.store.bucket(index)
    }

    /// Removes `key`, handing back its value; the rest of its cluster shifts
    /// back one bucket.
    pub fn del(&mut self, key: &Bytes) -> (r: Option<V>)
        requires
            old(self).wf(),
        ensures
            final(self).wf(),
            final(self)@ == old(self)@.remove(key@),
            r == (if old(self)@.contains_key(key@) {
                Some(old(self)@[key@])
            } else {
                None::<V>
            }),
            final(self).spec_capacity() == old(self).spec_capacity(),
    {
        self.store.del(key)
    }

    /// The value stored under `key`, if any.
    pub fn get(&self, key: &Bytes) -> (r: Option<&V>)
        requires
            self.wf(),
        ensures
            match r {
                Some(v) => self@.contains_key(key@) && *v == self@[key@],
                None => !self@.contains_key(key@),
            },
    {
        self.store.get(key)
    }

    /// Stores `value` under `key`. When the load has reached three quarters
    /// the buckets double first, whether or not the key is new.
    pub fn put(&mut self, key: Bytes, value: V)
        requires
            old(self).wf(),
            old(self)@.len() < usize::MAX / 16,
        ensures
            final(self).wf(),
            final(self)@ == old(self)@.insert(key@, value),
            final(self).spec_capacity() == if old(self)@.len() * 4 >= old(self).spec_capacity()
                * 3 {
                old(self).spec_capacity() * 2
            } else {
                old(self).spec_capacity()
            },
    {
        self.store.grow_if_loaded();
        let _ = self.store.put_entry(key, value);
    }
}

impl<V> KvStore<V> {
    /// An empty store with `START_CAPACITY` buckets.
    pub fn new() -> (r: Self)
        ensures
            r.wf(),
            r@ == Map::<Seq<u8>, V>::empty(),
            r.spec_capacity() == START_CAPACITY,
    {
        Self::with_hasher(DefaultKeyHasher)
    }
}

} // verus!
