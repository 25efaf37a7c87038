//! Type-keyed map for single-threaded use: one value per `TypeId`.

use std::any::TypeId;
use vstd::prelude::*;

use crate::erased::AnyBox;
use crate::slots::TypeSlots;
use crate::typeid::type_key;

verus! {

/// A type-keyed map for storing capabilities and configs.
///
/// Each `TypeId` maps to at most one erased value; inserting under a key
/// that is already present replaces the stored value.
pub struct TypeMap {
    slots: TypeSlots<AnyBox>,
}

impl View for TypeMap {
    type V = Map<TypeId, AnyBox>;

    closed spec fn view(&self) -> Map<TypeId, AnyBox> {
        self.slots@
    }
}

impl TypeMap {
    /// Internal consistency (keys are unique).
    pub closed spec fn wf(self) -> bool {
        self.slots.wf()
    }

    /// Create an empty map.
    pub fn new() -> (r: Self)
        ensures
            r.wf(),
            r@ == Map::<TypeId, AnyBox>::empty(),
    {
        TypeMap { slots: TypeSlots::new() }
    }

    /// Insert a value for the type key of `T`. Overwrites any existing entry.
    pub fn insert<T: 'static>(&mut self, value: T)
        requires
            old(self).wf(),
        ensures
            final(self).wf(),
            exists|k: TypeId, v: AnyBox| final(self)@ == old(self)@.insert(k, v),
    {
        let key = type_key::<T>();
        let boxed = AnyBox::new(value);
        let ghost stored = boxed;
        self.slots.insert(key, boxed);
        proof {
            assert(self@ == old(self)@.insert(key, stored));
        }
    }

    /// Insert an erased value under a raw `TypeId`. Overwrites any existing
    /// entry.
    pub fn insert_boxed(&mut self, type_id: TypeId, value: AnyBox)
        requires
            old(self).wf(),
        ensures
            final(self).wf(),
            final(self)@ == old(self)@.insert(type_id, value),
    {
        self.slots.insert(type_id, value);
    }

    /// Returns `true` if the map contains a value for the given `TypeId`.
    pub fn contains_by_type_id(&self, type_id: TypeId) -> (r: bool)
        requires
            self.wf(),
        ensures
            r == self@.dom().contains(type_id),
    {
        self.slots.contains(&type_id)
    }

    /// Returns `true` if the map contains a value under the type key of `T`.
    pub fn contains<T: 'static>(&self) -> (r: bool)
        requires
            self.wf(),
        ensures
            exists|k: TypeId| r == self@.dom().contains(k),
    {
        let key = type_key::<T>();
        let r = self.slots.contains(&key);
        proof {
            assert(r == self@.dom().contains(key));
        }
        r
    }

    /// Returns the number of entries currently stored.
    pub fn len(&self) -> (r: usize)
        requires
            self.wf(),
        ensures
            r == self@.dom().len(),
    {
        self.slots.len()
    }

    /// Clone out the value stored under the type key of `T`.
    /// Returns `None` if the key doesn't exist or the type doesn't match.
    pub fn get_cloned<T: Clone + 'static>(&self) -> (r: Option<T>)
        requires
            self.wf(),
        ensures
            self@.dom().is_empty() ==> r is None,
    {
        self.get_cloned_by_type_id::<T>(type_key::<T>())
    }

    /// Clone out the value stored under `type_id` as a `T`.
    /// Returns `None` if the key doesn't exist or the type doesn't match.
    pub fn get_cloned_by_type_id<T: Clone + 'static>(&self, type_id: TypeId) -> (r: Option<T>)
        requires
            self.wf(),
        ensures
            r is Some ==> self@.dom().contains(type_id),
    {
        match self.slots.get(&type_id) {
            Some(boxed) => boxed.downcast_cloned::<T>(),
            None => None,
        }
    }
}

impl Default for TypeMap {
    fn default() -> (r: Self)
        ensures
            r.wf(),
            r@ == Map::<TypeId, AnyBox>::empty(),
    {
        Self::new()
    }
}

/// A value written under a key is what a later read of that key finds,
/// whatever was stored there before; other keys keep their values.
pub proof fn lemma_insert_then_lookup(
    before: Map<TypeId, AnyBox>,
    key: TypeId,
    value: AnyBox,
    other: TypeId,
)
    requires
        other != key,
    ensures
        before.insert(key, value).dom().contains(key),
        before.insert(key, value)[key] == value,
        before.insert(key, value).dom().contains(other) == before.dom().contains(other),
        before.dom().contains(other) ==> before.insert(key, value)[other] == before[other],
{
}

} // verus!
