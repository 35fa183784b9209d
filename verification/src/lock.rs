//! The spin lock that guards the allocator.
//!
//! Nothing here is proved: these items tell the verifier that the lock of the
//! `spin` crate exists and how it is called. None of them promises anything
//! about what the lock holds. What is known of the value behind the lock is
//! what is known of every value of its type.
use vstd::prelude::*;

verus! {

/// `spin::mutex::Mutex`, opaque to the verifier.
#[verifier::external_type_specification]
#[verifier::external_body]
#[verifier::reject_recursive_types(T)]
#[verifier::reject_recursive_types(R)]
pub struct ExMutex<T: ?Sized, R>(spin::mutex::Mutex<T, R>);

/// `spin::mutex::MutexGuard`, opaque to the verifier.
#[verifier::external_type_specification]
#[verifier::external_body]
#[verifier::reject_recursive_types(T)]
pub struct ExMutexGuard<'a, T: 'a + ?Sized>(spin::mutex::MutexGuard<'a, T>);

/// `spin::relax::Spin`: the way the lock waits, named by the lock's type.
#[verifier::external_type_specification]
#[verifier::external_body]
pub struct ExSpin(spin::relax::Spin);

/// Calls `spin::mutex::Mutex::new`: a lock that owns `value`. Nothing is
/// claimed of the lock.
#[verifier::external_body]
pub(crate) fn mutex_new<T>(value: T) -> (mutex: spin::Mutex<T>) {
    spin::Mutex::new(value)
}

/// Calls `spin::mutex::Mutex::lock`: spins until the lock is taken and returns
/// the guard that releases it when dropped. Nothing is claimed of the guard.
/// The call does not return while the calling thread itself holds the lock;
/// the allocator takes the lock once per operation and calls nothing that
/// takes it again.
#[verifier::external_body]
pub(crate) fn mutex_lock<'a, T>(mutex: &'a spin::Mutex<T>) -> (guard: spin::MutexGuard<'a, T>) {
    mutex.lock()
}

/// Calls `DerefMut::deref_mut` of `spin::mutex::MutexGuard`: the value behind
/// the lock, for as long as the guard is borrowed. Nothing is claimed of the
/// value: other holders of the lock may have changed it in any way its type
/// allows.
#[verifier::external_body]
pub(crate) fn guard_mut<'a, 'b, T>(guard: &'b mut spin::MutexGuard<'a, T>) -> (value: &'b mut T) {
    &mut **guard
}

} // verus!
