//! Shared reader/writer-locked values, as the concurrent callers of the
//! engine use them.

use vstd::prelude::*;

verus! {

use std::sync::{Arc, RwLock};

/// A value shared by several holders behind a reader/writer lock;
/// lifetime is that of the longest holder.
pub type SharedRwLock<T> = Arc<RwLock<T>>;

/// A shared, locked vector.
pub type SharedRwLockVec<T> = SharedRwLock<Vec<T>>;

/// std::sync::RwLock declared for use in signatures; opaque to the
/// verifier, which sees nothing of a lock's content.
#[verifier::external_type_specification]
#[verifier::external_body]
#[verifier::reject_recursive_types(T)]
pub struct ExRwLock<T: ?Sized>(RwLock<T>);

/// Relies on std::sync::RwLock::new: wraps the value in an unlocked lock.
#[verifier::external_body]
fn rw_lock_new<T>(t: T) -> RwLock<T> {
    RwLock::new(t)
}

/// A fresh shared lock around `t`.
pub fn new_shared_rw_lock<T>(t: T) -> SharedRwLock<T> {
    Arc::new(rw_lock_new(t))
}

/// A fresh shared lock around an empty vector.
pub fn new_shared_rw_lock_vec<T>() -> SharedRwLockVec<T> {
    new_shared_rw_lock(Vec::new())
}

} // verus!
