//! Type-keyed map whose values are `Send + Sync`, for state shared with
//! asynchronous builds.

use std::any::TypeId;
use std::ops::Deref;
use vstd::prelude::*;

use crate::erased::SharedAnyBox;
use crate::slots::TypeSlots;
use crate::typeid::type_key;

verus! {

/// A type-keyed map for storing async capabilities and configs.
///
/// Values are `Send + Sync`, so the map can be moved to and shared with
/// other threads. Each `TypeId` maps to at most one value; inserting under
/// a present key replaces the stored value.
pub struct AsyncTypeMap {
    slots: TypeSlots<SharedAnyBox>,
}

/// A borrowed view of one value of an [`AsyncTypeMap`], downcast to `T`.
///
/// The value is reachable only through [`Deref`], and the borrow keeps the
/// map from being modified while the guard lives.
pub struct AsyncTypeMapReadGuard<'a, T> {
    value: &'a T,
}

impl<'a, T> AsyncTypeMapReadGuard<'a, T> {
    /// The value the guard borrows.
    pub closed spec fn borrowed(self) -> T {
        *self.value
    }
}

impl<'a, T> Deref for AsyncTypeMapReadGuard<'a, T> {
    type Target = T;

    fn deref(&self) -> (r: &T)
        ensures
            *r == self.borrowed(),
    {
        self.value
    }
}

impl View for AsyncTypeMap {
    type V = Map<TypeId, SharedAnyBox>;

    closed spec fn view(&self) -> Map<TypeId, SharedAnyBox> {
        self.slots@
    }
}

impl AsyncTypeMap {
    /// Internal consistency (keys are unique).
    pub closed spec fn wf(self) -> bool {
        self.slots.wf()
    }

    /// Create an empty map.
    pub fn new() -> (r: Self)
        ensures
            r.wf(),
            r@ == Map::<TypeId, SharedAnyBox>::empty(),
    {
        AsyncTypeMap { slots: TypeSlots::new() }
    }

    /// Insert a value for the type key of `T`. Overwrites any existing entry.
    pub fn insert<T: Send + Sync + 'static>(&mut self, value: T)
        requires
            old(self).wf(),
        ensures
            final(self).wf(),
            exists|k: TypeId, v: SharedAnyBox| final(self)@ == old(self)@.insert(k, v),
    {
        let key = type_key::<T>();
        let boxed = SharedAnyBox::new(value);
        let ghost stored = boxed;
        self.slots.insert(key, boxed);
        proof {
            assert(self@ == old(self)@.insert(key, stored));
        }
    }

    /// Insert an erased value under a raw `TypeId`. Type-erased counterpart
    /// of [`Self::insert`].
    pub fn insert_boxed(&mut self, type_id: TypeId, value: SharedAnyBox)
        requires
            old(self).wf(),
        ensures
            final(self).wf(),
            final(self)@ == old(self)@.insert(type_id, value),
    {
        self.slots.insert(type_id, value);
    }

    /// Returns `true` if the map contains a value under the type key of `T`.
    pub fn contains<T: Send + Sync + 'static>(&self) -> (r: bool)
        requires
            self.wf(),
        ensures
            exists|k: TypeId| r == self@.dom().contains(k),
    {
        let key = type_key::<T>();
        let r = self.contains_by_type_id(key);
        proof {
            assert(r == self@.dom().contains(key));
        }
        r
    }

    /// Returns `true` if the map contains a value for the given `TypeId`.
    pub fn contains_by_type_id(&self, type_id: TypeId) -> (r: bool)
        requires
            self.wf(),
        ensures
            r == self@.dom().contains(type_id),
    {
        self.slots.contains(&type_id)
    }

    /// Clone out the value stored under the type key of `T`.
    /// Returns `None` if the key doesn't exist or the type doesn't match.
    pub fn get_cloned<T: Clone + Send + Sync + 'static>(&self) -> (r: Option<T>)
        requires
            self.wf(),
        ensures
            self@.dom().is_empty() ==> r is None,
    {
        self.get_cloned_by_type_id::<T>(type_key::<T>())
    }

    /// Clone out the value stored under `type_id` as a `T`.
    ///
    /// Returns `None` if the `TypeId` is absent or the downcast target type
    /// doesn't match the originally inserted type.
    pub fn get_cloned_by_type_id<T: Clone + Send + Sync + 'static>(&self, type_id: TypeId) -> (r:
        Option<T>)
        requires
            self.wf(),
        ensures
            r is Some ==> self@.dom().contains(type_id),
    {
        match self.slots.get(&type_id) {
            Some(boxed) => boxed.downcast_cloned::<T>(),
            None => None,
        }
    }

    /// Returns the number of entries currently stored.
    pub fn len(&self) -> (r: usize)
        requires
            self.wf(),
        ensures
            r == self@.dom().len(),
    {
        self.slots.len()
    }

    /// Borrow the value stored under `type_id`, downcast to `T`, behind a
    /// guard. `None` if the `TypeId` is absent or the type doesn't match.
    pub fn read_by_type_id<'a, T: 'static>(&'a self, type_id: TypeId) -> (r: Option<
        AsyncTypeMapReadGuard<'a, T>,
    >)
        requires
            self.wf(),
        ensures
            r is Some ==> self@.dom().contains(type_id),
    {
        match self.slots.get(&type_id) {
            Some(boxed) => match boxed.downcast_ref::<T>() {
                Some(value) => Some(AsyncTypeMapReadGuard { value }),
                None => None,
            },
            None => None,
        }
    }
}

impl Default for AsyncTypeMap {
    fn default() -> (r: Self)
        ensures
            r.wf(),
            r@ == Map::<TypeId, SharedAnyBox>::empty(),
    {
        Self::new()
    }
}

} // verus!
