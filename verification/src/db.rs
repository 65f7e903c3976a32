//! The shared handle to the store.
//!
//! A [`Db`] can be cloned freely; all clones work on one store, each
//! operation under one lock. What an operation finds there depends on what the
//! other holders have done, so the contracts of the store itself say what each
//! operation does: see [`Store`].

use vstd::prelude::*;
use bytes::Bytes;
use std::sync::{Arc, Mutex, MutexGuard};
use std::time::{Duration, Instant};
use crate::clock::deadline_after;
use crate::payload::bytes_view;
use crate::store::Store;

verus! {

/// `std::sync::Mutex`, taken as it is.
#[verifier::external_type_specification]
#[verifier::external_body]
#[verifier::reject_recursive_types(T)]
pub struct ExMutex<T: ?Sized>(std::sync::Mutex<T>);

/// `std::sync::MutexGuard`, taken as it is: the lock held.
#[verifier::external_type_specification]
#[verifier::external_body]
#[verifier::reject_recursive_types(T)]
pub struct ExMutexGuard<'a, T: ?Sized + 'a>(std::sync::MutexGuard<'a, T>);

/// `Mutex::new`: a lock around the given value.
pub assume_specification<T>[ Mutex::<T>::new ](t: T) -> (m: Mutex<T>)
;

/// `Mutex::lock`, taking over the store where an earlier holder panicked, so
/// that one failed task never locks the others out.
#[verifier::external_body]
fn lock_store<'a>(shared: &'a Arc<Mutex<Store>>) -> (guard: MutexGuard<'a, Store>) {
    match shared.lock() {
        Ok(guard) => guard,
        Err(poisoned) => poisoned.into_inner(),
    }
}

/// `DerefMut` of a lock guard: the store that the guard protects.
#[verifier::external_body]
fn store_of<'a, 'b>(guard: &'a mut MutexGuard<'b, Store>) -> (store: &'a mut Store) {
    &mut **guard
}

/// A handle to a store shared by all its clones.
#[derive(Clone)]
pub struct Db {
    shared: Arc<Mutex<Store>>,
    epoch: Instant,
}

impl Default for Db {
    fn default() -> Db {
        Db::new()
    }
}

impl Db {
    /// A handle to a new, empty store.
    pub fn new() -> Db {
        Db { shared: Arc::new(Mutex::new(Store::new())), epoch: Instant::now() }
    }

    /// The time now, in nanoseconds since this store was made.
    fn now(&self) -> u128 {
        self.epoch.elapsed().as_nanos()
    }

    /// The value under `key`, unless it is missing or its deadline has passed;
    /// in that case the entry is removed.
    pub fn get(&self, key: &Bytes) -> Option<Bytes> {
        let mut guard = lock_store(&self.shared);
        let now = self.now();
        store_of(&mut guard).get(key, now)
    }

    /// Stores `value` under `key`, to expire `expiry` from now, or never.
    pub fn set(&self, key: &Bytes, value: Bytes, expiry: Option<Duration>) {
        let mut guard = lock_store(&self.shared);
        let expires_at = deadline_after(self.now(), expiry);
        store_of(&mut guard).set(key, value, expires_at);
    }

    /// Removes `key` and says whether it was there.
    pub fn del(&self, key: &Bytes) -> bool {
        let mut guard = lock_store(&self.shared);
        store_of(&mut guard).del(key)
    }

    /// The keys whose deadline has not passed, each once, in no particular
    /// order. Entries whose deadline has passed are removed.
    pub fn keys(&self) -> (r: Vec<Bytes>)
        ensures
            forall|i: int, j: int|
                0 <= i < r@.len() && 0 <= j < r@.len() && i != j ==> bytes_view(#[trigger] r@[i])
                    != bytes_view(#[trigger] r@[j]),
    {
        let mut guard = lock_store(&self.shared);
        let now = self.now();
        store_of(&mut guard).keys(now)
    }
}

} // verus!
