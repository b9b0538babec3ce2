//! The handle a request-serving layer holds on a storage backend: one
//! shared store instance, generic over the key, entity and backend types.
//! Routes, status codes and the serving runtime itself live outside this
//! library.

use vstd::prelude::*;

use core::marker::PhantomData;

use crate::store::Note;
use crate::store::NoteKey;
use crate::store::Store;

verus! {

/// Holds the one store instance that concurrent request handlers share.
pub struct ServerData<K: NoteKey, T: Note<K>, S: Store<K, T>> {
    marker_k: PhantomData<K>,
    marker_t: PhantomData<T>,
    store: S,
}

impl<K: NoteKey, T: Note<K>, S: Store<K, T>> ServerData<K, T, S> {
    /// The held store.
    pub closed spec fn store_view(&self) -> S {
        self.store
    }

    /// Wraps the store for the serving layer.
    pub fn new(store: S) -> (r: Self)
        ensures
            r.store_view() == store,
    {
        ServerData { marker_k: PhantomData, marker_t: PhantomData, store }
    }

    /// The held store, to run a storage operation on.
    pub fn store(&self) -> (r: &S)
        ensures
            r == self.store_view(),
    {
        &self.store
    }

    /// Hands the store back, for the layer that drives it.
    pub fn into_store(self) -> (r: S)
        ensures
            r == self.store_view(),
    {
        self.store
    }
}

} // verus!
