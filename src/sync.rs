//! A spinning mutual-exclusion lock over a value.
use vstd::prelude::*;

verus! {

/// spin's default relax strategy, named in the type of its mutex; opaque here.
#[verifier::external_type_specification]
#[verifier::external_body]
pub struct ExSpin(spin::relax::Spin);

/// spin's spinning mutex, held as an opaque value.
#[verifier::external_type_specification]
#[verifier::external_body]
#[verifier::reject_recursive_types(T)]
#[verifier::reject_recursive_types(R)]
pub struct ExSpinMutex<T: ?Sized, R>(spin::mutex::SpinMutex<T, R>);

/// The guard of spin's spinning mutex, held as an opaque value.
#[verifier::external_type_specification]
#[verifier::external_body]
#[verifier::reject_recursive_types(T)]
#[verifier::reject_recursive_types(R)]
pub struct ExSpinMutexGuard<'a, T: ?Sized + 'a, R>(spin::mutex::SpinMutexGuard<'a, T, R>);

/// A lock that busy-waits until it is free.
#[verifier::reject_recursive_types(T)]
pub struct Mutex<T> {
    inner: spin::mutex::SpinMutex<T>,
}

/// Access to the value of a locked `Mutex`; the lock is released when the
/// guard is dropped.
#[verifier::reject_recursive_types(T)]
pub struct MutexGuard<'a, T> {
    inner: spin::mutex::SpinMutexGuard<'a, T>,
}

impl<T> Mutex<T> {
    /// Relies on spin::mutex::SpinMutex::new: an unlocked mutex that holds `value`.
    #[verifier::external_body]
    pub fn new(value: T) -> Self {
        Mutex { inner: spin::mutex::SpinMutex::new(value) }
    }

    /// Relies on spin::mutex::SpinMutex::lock: spins until the lock is taken.
    #[verifier::external_body]
    pub fn lock(&self) -> MutexGuard<'_, T> {
        MutexGuard { inner: self.inner.lock() }
    }

    /// Relies on spin::mutex::SpinMutex::try_lock: takes the lock only if it is free.
    #[verifier::external_body]
    pub fn try_lock(&self) -> Result<MutexGuard<'_, T>, ()> {
        match self.inner.try_lock() {
            Some(inner) => Ok(MutexGuard { inner }),
            None => Err(()),
        }
    }

    /// Relies on spin::mutex::SpinMutex::into_inner: gives back the value held.
    #[verifier::external_body]
    pub fn into_inner(self) -> T {
        self.inner.into_inner()
    }
}

impl<'a, T> MutexGuard<'a, T> {
    /// Relies on the `Deref` of spin::mutex::SpinMutexGuard: the value under the lock.
    #[verifier::external_body]
    pub fn get(&self) -> &T {
        &self.inner
    }

    /// Relies on the `DerefMut` of spin::mutex::SpinMutexGuard: the value under the lock.
    #[verifier::external_body]
    pub fn get_mut(&mut self) -> &mut T {
        &mut self.inner
    }
}

} // verus!
