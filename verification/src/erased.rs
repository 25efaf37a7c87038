//! Type-erased values: the payloads that type-keyed maps carry without
//! knowing their concrete types.
//!
//! `dyn Any` is outside what verification can describe, so both boxes are
//! opaque: verified code only moves them around, and gets a value back out
//! through a checked downcast whose outcome depends on the erased type.

use std::any::Any;
use vstd::prelude::*;

verus! {

/// A value of any `'static` type behind `Box<dyn Any>`.
#[verifier::external_body]
pub struct AnyBox {
    inner: Box<dyn Any>,
}

impl AnyBox {
    /// Box and erase `value` (`Box::new` then unsizing to `dyn Any`).
    ///
    /// Trusted: nothing is stated of the result beyond its existence; the
    /// erased value is only observable through [`AnyBox::downcast_cloned`].
    #[verifier::external_body]
    pub fn new<T: 'static>(value: T) -> AnyBox {
        AnyBox { inner: Box::new(value) }
    }

    /// `downcast_ref::<T>()` followed by `clone`: the stored value when it
    /// is a `T`, `None` otherwise.
    ///
    /// Trusted, with no postcondition: which branch is taken depends on the
    /// erased type, which verification does not see.
    #[verifier::external_body]
    pub(crate) fn downcast_cloned<T: Clone + 'static>(&self) -> Option<T> {
        self.inner.downcast_ref::<T>().cloned()
    }
}

/// A value of any `Send + Sync + 'static` type behind
/// `Box<dyn Any + Send + Sync>`, for maps shared across threads.
#[verifier::external_body]
pub struct SharedAnyBox {
    inner: Box<dyn Any + Send + Sync>,
}

impl SharedAnyBox {
    /// Box and erase `value` (`Box::new` then unsizing to
    /// `dyn Any + Send + Sync`).
    ///
    /// Trusted: nothing is stated of the result beyond its existence.
    #[verifier::external_body]
    pub fn new<T: Send + Sync + 'static>(value: T) -> SharedAnyBox {
        SharedAnyBox { inner: Box::new(value) }
    }

    /// `downcast_ref::<T>()` followed by `clone`.
    ///
    /// Trusted, with no postcondition: the outcome depends on the erased
    /// type.
    #[verifier::external_body]
    pub(crate) fn downcast_cloned<T: Clone + 'static>(&self) -> Option<T> {
        self.inner.downcast_ref::<T>().cloned()
    }

    /// `downcast_ref::<T>()`: a reference to the stored value when it is a
    /// `T`, `None` otherwise.
    ///
    /// Trusted, with no postcondition: the outcome depends on the erased
    /// type.
    #[verifier::external_body]
    pub(crate) fn downcast_ref<T: 'static>(&self) -> Option<&T> {
        self.inner.downcast_ref::<T>()
    }
}

} // verus!
