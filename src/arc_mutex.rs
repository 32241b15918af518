//! A shared, lockable value: a mutex behind a reference-counted pointer.
//!
//! The lock is only ever tried, never waited for: std's blocking `lock` may
//! panic or never return when the calling thread already holds the lock, a
//! case that no precondition here can rule out.
use vstd::prelude::*;
use std::sync::{Arc, Mutex, MutexGuard, TryLockError, TryLockResult};

verus! {

#[verifier::external_type_specification]
#[verifier::external_body]
#[verifier::reject_recursive_types(T)]
pub struct ExMutex<T: ?Sized>(Mutex<T>);

#[verifier::external_type_specification]
#[verifier::external_body]
#[verifier::reject_recursive_types(T)]
pub struct ExMutexGuard<'a, T: ?Sized + 'a>(MutexGuard<'a, T>);

#[verifier::external_type_specification]
#[verifier::external_body]
#[verifier::reject_recursive_types(T)]
pub struct ExTryLockError<T>(TryLockError<T>);

/// Relies on std's `Mutex::new`, which builds an unlocked mutex around `t`.
pub assume_specification<T>[ Mutex::<T>::new ](t: T) -> Mutex<T>;

/// Relies on std's `Mutex::try_lock`, which takes the lock only if it is
/// free and never blocks; a held or poisoned lock is reported as an error.
pub assume_specification<T: ?Sized>[ Mutex::<T>::try_lock ](m: &Mutex<T>) -> TryLockResult<MutexGuard<'_, T>>;

/// A handle on a value shared between owners; each clone is a new handle on
/// the same value.
#[verifier::reject_recursive_types(T)]
pub struct ArcMutex<T>(Arc<Mutex<T>>);

impl<T> ArcMutex<T> {
    pub fn new(t: T) -> ArcMutex<T> {
        ArcMutex(Arc::new(Mutex::new(t)))
    }

    /// Takes the lock only if it is free, and returns a guard over the
    /// value; an error when the lock is held or poisoned.
    pub fn try_lock(&self) -> TryLockResult<MutexGuard<'_, T>> {
        self.0.try_lock()
    }

    /// Another handle on the same value.
    pub fn clone(&self) -> (r: ArcMutex<T>)
        ensures
            r == *self,
    {
        ArcMutex(Arc::clone(&self.0))
    }
}

} // verus!
