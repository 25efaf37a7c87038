//! `TypeId` as an opaque key for module and capability lookups.

use std::any::TypeId;
use vstd::prelude::*;

verus! {

/// `std::any::TypeId` is carried through verified code as an opaque value.
#[verifier::external_type_specification]
#[verifier::external_body]
pub struct ExTypeId(TypeId);

/// `TypeId` is `Copy`; its `clone` returns the same identifier.
pub assume_specification[ <TypeId as Clone>::clone ](t: &TypeId) -> (r: TypeId)
    ensures
        r == *t,
;

/// Compares two `TypeId`s with std's `PartialEq for TypeId`.
///
/// Trusted: `TypeId` equality is value equality of the identifiers, so the
/// result is exactly whether the two values are the same.
#[verifier::external_body]
pub fn type_id_eq(a: &TypeId, b: &TypeId) -> (r: bool)
    ensures
        r == (*a == *b),
{
    a == b
}

/// `TypeId::of::<T>()`, the identifier under which values keyed by the
/// type `T` are stored.
///
/// Trusted, with no postcondition: the identifier of a type is not
/// something verified code can name, so callers only rely on it being a
/// `TypeId`.
#[verifier::external_body]
pub fn type_key<T: ?Sized + 'static>() -> TypeId {
    TypeId::of::<T>()
}

} // verus!
