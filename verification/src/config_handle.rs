//! A shared, swappable configuration cell: every clone of a handle sees
//! the value most recently stored through any of them.

use std::sync::{Arc, RwLock};
use vstd::prelude::*;

verus! {

/// `std::sync::RwLock` is carried through verified code as an opaque value.
#[verifier::external_type_specification]
#[verifier::external_body]
#[verifier::reject_recursive_types(T)]
pub struct ExRwLock<T: ?Sized>(RwLock<T>);

/// Handle to a configuration value shared by all its clones.
#[verifier::reject_recursive_types(T)]
pub struct ConfigHandle<T> {
    cell: Arc<RwLock<Arc<T>>>,
}

/// `Arc::new(RwLock::new(Arc::new(value)))`: a fresh cell holding `value`.
///
/// Trusted, with no postcondition: the cell's content is shared mutable
/// state, which verification does not follow.
#[verifier::external_body]
fn new_cell<T>(value: T) -> Arc<RwLock<Arc<T>>> {
    Arc::new(RwLock::new(Arc::new(value)))
}

/// The current value of the cell (a read lock, then `Arc::clone`); a
/// poisoned lock still yields the value it holds.
///
/// Trusted, with no postcondition: the value depends on every write made
/// through any clone of the cell.
#[verifier::external_body]
fn read_cell<T>(cell: &Arc<RwLock<Arc<T>>>) -> Arc<T> {
    match cell.read() {
        Ok(guard) => Arc::clone(&guard),
        Err(poisoned) => Arc::clone(&poisoned.into_inner()),
    }
}

/// Replace the value of the cell (a write lock, then assignment); a
/// poisoned lock is written all the same.
///
/// Trusted: the write is to shared state that verification does not follow.
#[verifier::external_body]
fn write_cell<T>(cell: &Arc<RwLock<Arc<T>>>, value: T) {
    match cell.write() {
        Ok(mut guard) => *guard = Arc::new(value),
        Err(poisoned) => *poisoned.into_inner() = Arc::new(value),
    }
}

/// `Arc::clone` of the cell: one more owner of the same cell.
///
/// Trusted, with no postcondition beyond the type.
#[verifier::external_body]
fn share_cell<T>(cell: &Arc<RwLock<Arc<T>>>) -> Arc<RwLock<Arc<T>>> {
    Arc::clone(cell)
}

impl<T> ConfigHandle<T> {
    /// A handle to a new cell holding `value`.
    pub fn new(value: T) -> Self {
        ConfigHandle { cell: new_cell(value) }
    }

    /// The current value.
    pub fn load(&self) -> Arc<T> {
        read_cell(&self.cell)
    }

    /// Store a new value, seen by every clone of this handle.
    pub fn set(&self, value: T) {
        write_cell(&self.cell, value)
    }
}

impl<T> Clone for ConfigHandle<T> {
    /// Another handle to the same cell.
    fn clone(&self) -> Self {
        ConfigHandle { cell: share_cell(&self.cell) }
    }
}

} // verus!
